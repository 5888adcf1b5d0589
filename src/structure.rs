//! The structural walk over a Markdown event stream: header breadcrumbs, line numbers
//! and chunk boundaries.
use vstd::prelude::*;
use pulldown_cmark::{Event, Tag, TagEnd};
use crate::chunker::{
    build_context, chunk_model, chunk_models, crumb_sep, join_context, lemma_chunks_match_models,
    split_models, split_text_intelligently, views_of, ChunkModel, TextChunk, MAX_CHUNK_SIZE,
};
use crate::text::{chars_of, is_blank, string_of, trim, trim_bounds, trimmed};

verus! {

/// The Markdown events that the chunker reacts to.
#[derive(Debug, Clone)]
pub enum MdEvent {
    /// Start of a heading of the given level (1 to 6).
    HeadingStart(usize),
    HeadingEnd,
    Text(String),
    /// Inline code.
    Code(String),
    /// Inline or block HTML.
    Html(String),
    /// A soft or hard line break.
    Break,
    ParagraphEnd,
    ItemEnd,
    CodeBlockEnd,
    /// Any other event.
    Other,
}

/// What the CommonMark parser produces for a text: it depends on the text alone.
pub uninterp spec fn md_events_of(content: Seq<char>) -> Seq<MdEvent>;

/// Relies on `pulldown_cmark::Parser::new` (CommonMark, no extensions) for the event stream,
/// each event mapped to the variant that stands for it.
#[verifier::external_body]
pub(crate) fn markdown_events(content: &str) -> (r: Vec<MdEvent>)
    ensures
        r@ == md_events_of(content@),
{
    pulldown_cmark::Parser::new(content).map(|e| match e {
        Event::Start(Tag::Heading { level, .. }) => MdEvent::HeadingStart(level as usize),
        Event::End(TagEnd::Heading(_)) => MdEvent::HeadingEnd,
        Event::Text(t) => MdEvent::Text(t.to_string()),
        Event::Code(t) => MdEvent::Code(t.to_string()),
        Event::Html(t) | Event::InlineHtml(t) => MdEvent::Html(t.to_string()),
        Event::SoftBreak | Event::HardBreak => MdEvent::Break,
        Event::End(TagEnd::Paragraph) => MdEvent::ParagraphEnd,
        Event::End(TagEnd::Item) => MdEvent::ItemEnd,
        Event::End(TagEnd::CodeBlock) => MdEvent::CodeBlockEnd,
        _ => MdEvent::Other,
    }).collect()
}

/// The state of the walk over mathematical values.
pub struct WalkModel {
    pub title: Option<Seq<char>>,
    pub stack: Seq<Seq<char>>,
    pub text: Seq<char>,
    pub chunks: Seq<ChunkModel>,
    pub index: int,
    pub line: int,
    pub start: int,
    pub in_heading: bool,
    pub level: int,
    pub heading: Seq<char>,
}

/// The state before the first event.
pub open spec fn walk_init() -> WalkModel {
    WalkModel {
        title: None,
        stack: seq![],
        text: seq![],
        chunks: seq![],
        index: 0,
        line: 1,
        start: 1,
        in_heading: false,
        level: 0,
        heading: seq![],
    }
}

/// Number of newline characters in `s`.
pub open spec fn newlines(s: Seq<char>) -> int
    decreases s.len(),
{
    if s.len() == 0 {
        0
    } else {
        newlines(s.drop_last()) + if s.last() == '\n' { 1int } else { 0 }
    }
}

/// The pending text closed as one chunk under the current breadcrumb.
pub open spec fn flush(w: WalkModel) -> WalkModel {
    WalkModel {
        chunks: w.chunks.push(
            ChunkModel {
                text: trim(w.text),
                context: join_context(w.stack),
                index: w.index,
                start: w.start,
                end: if w.line >= w.start { w.line } else { w.start },
            },
        ),
        index: w.index + 1,
        text: seq![],
        ..w
    }
}

/// The pending text split at sentence boundaries, ending at line `end`.
pub open spec fn flush_split(w: WalkModel, end: int) -> WalkModel {
    let made = split_models(w.text, join_context(w.stack), w.index, w.start, end);
    WalkModel { chunks: w.chunks + made, index: w.index + made.len(), text: seq![], ..w }
}

/// The header stack after a heading of level `level` with text `h`: the levels above it are
/// kept and `h` is pushed.
pub open spec fn push_heading(stack: Seq<Seq<char>>, level: int, h: Seq<char>) -> Seq<Seq<char>> {
    let keep = if level >= 1 { level - 1 } else { 0 };
    let keep = if keep <= stack.len() { keep } else { stack.len() as int };
    stack.take(keep).push(h)
}

/// Text of any kind joins the heading being read, or else the pending text, followed by a
/// space; its newlines advance the line count.
pub open spec fn text_step(w: WalkModel, s: Seq<char>) -> WalkModel {
    if w.in_heading {
        WalkModel { heading: w.heading + s, line: w.line + newlines(s), ..w }
    } else {
        WalkModel { text: w.text + s.push(' '), line: w.line + newlines(s), ..w }
    }
}

/// One step of the walk.
pub open spec fn walk_step(w: WalkModel, e: MdEvent) -> WalkModel {
    match e {
        MdEvent::HeadingStart(level) => {
            let f = if !is_blank(w.text) { flush(w) } else { w };
            WalkModel { in_heading: true, level: level as int, heading: seq![], start: w.line, ..f }
        },
        MdEvent::HeadingEnd => {
            if w.in_heading {
                let h = trim(w.heading);
                WalkModel {
                    in_heading: false,
                    stack: push_heading(w.stack, w.level, h),
                    title: if w.level == 1 && w.title is None { Some(h) } else { w.title },
                    line: w.line + 1,
                    start: w.line + 1,
                    ..w
                }
            } else {
                w
            }
        },
        MdEvent::Text(s) => text_step(w, s@),
        MdEvent::Code(s) => text_step(w, s@),
        MdEvent::Html(s) => text_step(w, s@),
        MdEvent::Break => {
            if w.in_heading {
                w
            } else {
                WalkModel { text: w.text.push('\n'), line: w.line + 1, ..w }
            }
        },
        MdEvent::ParagraphEnd => {
            let l = w.line + 1;
            if w.text.len() > MAX_CHUNK_SIZE {
                WalkModel { start: l, line: l, ..flush_split(w, l - 1) }
            } else {
                WalkModel { line: l, ..w }
            }
        },
        MdEvent::ItemEnd => WalkModel { line: w.line + 1, ..w },
        MdEvent::CodeBlockEnd => WalkModel { line: w.line + 1, ..w },
        MdEvent::Other => w,
    }
}

/// The state after a sequence of events.
pub open spec fn walk(es: Seq<MdEvent>) -> WalkModel
    decreases es.len(),
{
    if es.len() == 0 {
        walk_init()
    } else {
        walk_step(walk(es.drop_last()), es.last())
    }
}

/// The state at the end of the document, once the pending text is closed.
pub open spec fn walk_end(w: WalkModel) -> WalkModel {
    if is_blank(w.text) {
        w
    } else if w.text.len() > MAX_CHUNK_SIZE {
        flush_split(w, w.line)
    } else {
        flush(w)
    }
}

/// Size of an event for the bound on counters.
pub open spec fn event_size(e: MdEvent) -> int {
    match e {
        MdEvent::Text(s) => 1 + s@.len() as int,
        MdEvent::Code(s) => 1 + s@.len() as int,
        MdEvent::Html(s) => 1 + s@.len() as int,
        _ => 1,
    }
}

/// Sum of the sizes of the events.
pub open spec fn events_size(es: Seq<MdEvent>) -> int
    decreases es.len(),
{
    if es.len() == 0 {
        0
    } else {
        events_size(es.drop_last()) + event_size(es.last())
    }
}

/// The outcome of the walk: title, final header stack and chunks.
pub struct Structure {
    pub title: Option<String>,
    pub header_hierarchy: Vec<String>,
    pub chunks: Vec<TextChunk>,
}

/// Number of newlines in `s`, counted.
fn count_newlines(s: &[char]) -> (r: usize)
    ensures
        r == newlines(s@),
        r <= s@.len(),
{
    let mut n: usize = 0;
    let mut i: usize = 0;
    while i < s.len()
        invariant
            i <= s@.len(),
            n == newlines(s@.take(i as int)),
            n <= i,
        decreases s.len() - i,
    {
        assert(s@.take(i + 1).drop_last() =~= s@.take(i as int));
        if s[i] == '\n' {
            n = n + 1;
        }
        i = i + 1;
    }
    assert(s@.take(i as int) =~= s@);
    n
}

/// The executable walk state stands for the model `w`.
pub open spec fn state_matches(
    title: Option<String>,
    stack: Seq<String>,
    text: Seq<char>,
    chunks: Seq<TextChunk>,
    index: usize,
    line: usize,
    start: usize,
    in_heading: bool,
    level: usize,
    heading: Seq<char>,
    w: WalkModel,
) -> bool {
    &&& crate::text::opt_view(title) == w.title
    &&& views_of(stack) == w.stack
    &&& text == w.text
    &&& chunk_models(chunks) == w.chunks
    &&& index == w.index
    &&& line == w.line
    &&& start == w.start
    &&& in_heading == w.in_heading
    &&& level == w.level
    &&& heading == w.heading
}

/// The pending text as one trimmed chunk.
fn close_pending(text: &Vec<char>, stack: &Vec<String>, index: usize, start: usize, line: usize) -> (r:
    TextChunk)
    requires
        start <= line,
    ensures
        chunk_model(r) == (ChunkModel {
            text: trim(text@),
            context: join_context(views_of(stack@)),
            index: index as int,
            start: start as int,
            end: line as int,
        }),
{
    let t = trimmed(text.as_slice());
    TextChunk {
        text: string_of(t.as_slice()),
        context: build_context(stack),
        chunk_index: index,
        start_line: start,
        end_line: line,
    }
}

/// Walks the event stream of a Markdown document: keeps the header breadcrumb, counts lines
/// and closes chunks at headings, at oversized paragraphs and at the end.
///
/// Returns the first level-1 heading as title, the final header stack and the chunks.
pub fn parse_structure(events: &Vec<MdEvent>) -> (r: Structure)
    requires
        2 * events_size(events@) + 2 <= usize::MAX,
    ensures
        crate::text::opt_view(r.title) == walk_end(walk(events@)).title,
        views_of(r.header_hierarchy@) == walk_end(walk(events@)).stack,
        chunk_models(r.chunks@) == walk_end(walk(events@)).chunks,
{
    let mut title: Option<String> = None;
    let mut stack: Vec<String> = Vec::new();
    let mut text: Vec<char> = Vec::new();
    let mut chunks: Vec<TextChunk> = Vec::new();
    let mut index: usize = 0;
    let mut line: usize = 1;
    let mut start: usize = 1;
    let mut in_heading = false;
    let mut level: usize = 0;
    let mut heading: Vec<char> = Vec::new();
    let mut i: usize = 0;
    proof {
        assert(chunk_models(chunks@) =~= seq![]);
        assert(views_of(stack@) =~= seq![]);
        assert(events@.take(0) =~= seq![]);
    }
    while i < events.len()
        invariant
            i <= events@.len(),
            2 * events_size(events@) + 2 <= usize::MAX,
            state_matches(
                title,
                stack@,
                text@,
                chunks@,
                index,
                line,
                start,
                in_heading,
                level,
                heading@,
                walk(events@.take(i as int)),
            ),
            index + text@.len() <= 2 * events_size(events@.take(i as int)),
            line <= 1 + events_size(events@.take(i as int)),
            start <= line,
        decreases events.len() - i,
    {
        proof {
            assert(events@.take(i + 1).drop_last() =~= events@.take(i as int));
            lemma_events_size_prefix(events@, i as int);
        }
        match &events[i] {
            MdEvent::HeadingStart(lv) => {
                let (a, b) = trim_bounds(text.as_slice());
                if a != b {
                    let c = close_pending(&text, &stack, index, start, line);
                    proof {
                        assert(chunk_models(chunks@.push(c)) =~= chunk_models(chunks@).push(
                            chunk_model(c),
                        ));
                        assert(text@.len() > 0);
                    }
                    chunks.push(c);
                    index = index + 1;
                    text = Vec::new();
                }
                in_heading = true;
                level = *lv;
                heading = Vec::new();
                start = line;
            },
            MdEvent::HeadingEnd => {
                if in_heading {
                    in_heading = false;
                    let h = trimmed(heading.as_slice());
                    let keep = if level >= 1 { level - 1 } else { 0 };
                    let ghost old_stack = views_of(stack@);
                    stack.truncate(keep);
                    let hs = string_of(h.as_slice());
                    stack.push(hs);
                    proof {
                        let kk = if keep <= old_stack.len() { keep as int } else { old_stack.len() as int };
                        assert(views_of(stack@) =~= old_stack.take(kk).push(h@));
                    }
                    if level == 1 && title.is_none() {
                        title = Some(string_of(h.as_slice()));
                    }
                    line = line + 1;
                    start = line;
                }
            },
            MdEvent::Text(s) | MdEvent::Code(s) | MdEvent::Html(s) => {
                let cs = chars_of(s.as_str());
                let nl = count_newlines(cs.as_slice());
                if in_heading {
                    crate::text::append_chars(&mut heading, cs.as_slice());
                } else {
                    crate::text::append_chars(&mut text, cs.as_slice());
                    text.push(' ');
                }
                line = line + nl;
            },
            MdEvent::Break => {
                if !in_heading {
                    text.push('\n');
                    line = line + 1;
                }
            },
            MdEvent::ParagraphEnd => {
                line = line + 1;
                if text.len() > MAX_CHUNK_SIZE {
                    let ghost old_index = index;
                    let mut made = split_text_intelligently(
                        text.as_slice(),
                        &stack,
                        start,
                        line - 1,
                        &mut index,
                    );
                    proof {
                        lemma_chunks_match_models(
                            made@,
                            text@,
                            join_context(views_of(stack@)),
                            old_index as int,
                            start as int,
                            line - 1,
                        );
                        assert(chunk_models(chunks@ + made@) =~= chunk_models(chunks@)
                            + chunk_models(made@));
                    }
                    chunks.append(&mut made);
                    text = Vec::new();
                    start = line;
                }
            },
            MdEvent::ItemEnd => {
                line = line + 1;
            },
            MdEvent::CodeBlockEnd => {
                line = line + 1;
            },
            MdEvent::Other => {},
        }
        i = i + 1;
    }
    assert(events@.take(events@.len() as int) =~= events@);
    let (a, b) = trim_bounds(text.as_slice());
    if a != b {
        if text.len() > MAX_CHUNK_SIZE {
            let ghost old_index = index;
            let mut made = split_text_intelligently(
                text.as_slice(),
                &stack,
                start,
                line,
                &mut index,
            );
            proof {
                lemma_chunks_match_models(
                    made@,
                    text@,
                    join_context(views_of(stack@)),
                    old_index as int,
                    start as int,
                    line as int,
                );
                assert(chunk_models(chunks@ + made@) =~= chunk_models(chunks@) + chunk_models(made@));
            }
            chunks.append(&mut made);
        } else {
            proof {
                assert(text@.len() > 0);
            }
            let c = close_pending(&text, &stack, index, start, line);
            proof {
                assert(chunk_models(chunks@.push(c)) =~= chunk_models(chunks@).push(chunk_model(c)));
            }
            chunks.push(c);
        }
    }
    Structure { title, header_hierarchy: stack, chunks }
}

proof fn lemma_events_size_prefix(es: Seq<MdEvent>, i: int)
    requires
        0 <= i < es.len(),
    ensures
        events_size(es.take(i + 1)) == events_size(es.take(i)) + event_size(es[i]),
        events_size(es.take(i + 1)) <= events_size(es),
        event_size(es[i]) >= 1,
{
    assert(es.take(i + 1).drop_last() =~= es.take(i));
    lemma_events_size_mono(es, i + 1);
}

/// The events of a prefix weigh no more than all events.
pub proof fn lemma_events_size_mono(es: Seq<MdEvent>, j: int)
    requires
        0 <= j <= es.len(),
    ensures
        events_size(es.take(j)) <= events_size(es),
    decreases es.len() - j,
{
    if j < es.len() {
        assert(es.take(j + 1).drop_last() =~= es.take(j));
        lemma_events_size_mono(es, j + 1);
    } else {
        assert(es.take(j) =~= es);
    }
}

/// A heading of level `level` with text `h` becomes the last element of the breadcrumb; the
/// headings of the levels above it stay in place, and the breadcrumb string ends with it.
pub proof fn lemma_heading_breadcrumb(w: WalkModel, level: usize, h: String)
    ensures
        ({
            let w3 = walk_step(
                walk_step(walk_step(w, MdEvent::HeadingStart(level)), MdEvent::Text(h)),
                MdEvent::HeadingEnd,
            );
            let keep = if level >= 1 { level - 1 } else { 0 };
            let keep = if keep <= w.stack.len() { keep as int } else { w.stack.len() as int };
            &&& w3.stack.last() == trim(h@)
            &&& w3.stack.drop_last() == w.stack.take(keep)
            &&& w3.stack.len() <= if level >= 1 { level as int } else { 1 }
            &&& !w3.in_heading
            &&& join_context(w3.stack).len() >= trim(h@).len()
            &&& join_context(w3.stack).skip(join_context(w3.stack).len() - trim(h@).len()) == trim(
                h@,
            )
        }),
{
    let w1 = walk_step(w, MdEvent::HeadingStart(level));
    assert(w1.heading == Seq::<char>::empty());
    let w2 = walk_step(w1, MdEvent::Text(h));
    assert(w2.heading =~= h@);
    let w3 = walk_step(w2, MdEvent::HeadingEnd);
    let st = w3.stack;
    assert(st.drop_last() =~= st.take(st.len() - 1));
    let j = join_context(st);
    let t = trim(h@);
    if st.len() == 1 {
        assert(j =~= t);
        assert(j.skip(0) =~= j);
    } else {
        assert(j == join_context(st.drop_last()) + crumb_sep() + st.last());
        assert(j.skip(j.len() - t.len()) =~= t);
    }
}

/// The headings completed by the events, in order, with their levels.
pub open spec fn headings(es: Seq<MdEvent>) -> Seq<(int, Seq<char>)>
    decreases es.len(),
{
    if es.len() == 0 {
        seq![]
    } else {
        let w = walk(es.drop_last());
        let hs = headings(es.drop_last());
        if es.last() is HeadingEnd && w.in_heading {
            hs.push((w.level, trim(w.heading)))
        } else {
            hs
        }
    }
}

/// The breadcrumb that a sequence of headings leaves.
pub open spec fn crumbs(hs: Seq<(int, Seq<char>)>) -> Seq<Seq<char>>
    decreases hs.len(),
{
    if hs.len() == 0 {
        seq![]
    } else {
        push_heading(crumbs(hs.drop_last()), hs.last().0, hs.last().1)
    }
}

proof fn lemma_walk_stack(es: Seq<MdEvent>)
    ensures
        walk(es).stack == crumbs(headings(es)),
    decreases es.len(),
{
    if es.len() > 0 {
        lemma_walk_stack(es.drop_last());
        let hs = headings(es.drop_last());
        let w = walk(es.drop_last());
        if es.last() is HeadingEnd && w.in_heading {
            assert(headings(es).drop_last() =~= hs);
        }
    }
}

proof fn lemma_crumbs_keep(hs: Seq<(int, Seq<char>)>, i: int)
    requires
        0 <= i < hs.len(),
        hs[i].0 >= 1,
        forall|j: int| i < j < hs.len() ==> (#[trigger] hs[j]).0 > hs[i].0,
    ensures
        exists|p: int| 0 <= p < hs[i].0 && p < crumbs(hs).len() && crumbs(hs)[p] == hs[i].1,
    decreases hs.len(),
{
    let d = hs.drop_last();
    let c0 = crumbs(d);
    if i == hs.len() - 1 {
        let keep = if hs[i].0 - 1 <= c0.len() { hs[i].0 - 1 } else { c0.len() as int };
        assert(crumbs(hs)[keep] == hs[i].1);
    } else {
        assert forall|j: int| i < j < d.len() implies (#[trigger] d[j]).0 > d[i].0 by {
            assert(d[j] == hs[j]);
        }
        lemma_crumbs_keep(d, i);
        let p = choose|p: int| 0 <= p < d[i].0 && p < c0.len() && c0[p] == d[i].1;
        assert(hs.last().0 > hs[i].0) by {
            assert(hs[hs.len() - 1] == hs.last());
        }
        assert(crumbs(hs)[p] == hs[i].1);
    }
}

/// A heading stays in the breadcrumb, at a position below its level, as long as every heading
/// after it is of a deeper level; every chunk closed at that point carries the breadcrumb as
/// its context.
pub proof fn lemma_breadcrumb_keeps_open_headings(es: Seq<MdEvent>, i: int)
    requires
        0 <= i < headings(es).len(),
        headings(es)[i].0 >= 1,
        forall|j: int| i < j < headings(es).len() ==> (#[trigger] headings(es)[j]).0 > headings(es)[i].0,
    ensures
        walk(es).stack.contains(headings(es)[i].1),
        flush(walk(es)).chunks.last().context == join_context(walk(es).stack),
{
    lemma_walk_stack(es);
    lemma_crumbs_keep(headings(es), i);
}

} // verus!
