//! Splitting a Markdown document into context-tagged chunks.
use vstd::prelude::*;
use crate::text::{
    append_chars, is_whitespace, is_ws, lemma_no_ws_add, lemma_no_ws_space, lemma_no_ws_trim, no_ws,
    string_of, trim, trimmed,
};

verus! {

/// A chunk is never split below this many characters.
pub const MIN_CHUNK_SIZE: usize = 50;

/// Text longer than this many characters is split at sentence boundaries.
pub const MAX_CHUNK_SIZE: usize = 500;

/// Size at which a chunk is considered full enough to close.
pub const TARGET_CHUNK_SIZE: usize = 300;

/// A chunk of text with its header breadcrumb and line span.
#[derive(Debug, Clone)]
pub struct TextChunk {
    pub text: String,
    pub context: String,
    pub chunk_index: usize,
    pub start_line: usize,
    pub end_line: usize,
}

/// The views of a sequence of strings.
pub open spec fn views_of(v: Seq<String>) -> Seq<Seq<char>> {
    v.map_values(|s: String| s@)
}

/// The views of a sequence of character vectors.
pub open spec fn seqs_of(v: Seq<Vec<char>>) -> Seq<Seq<char>> {
    v.map_values(|s: Vec<char>| s@)
}

/// Separator between breadcrumb levels.
pub open spec fn crumb_sep() -> Seq<char> {
    seq![' ', '>', ' ']
}

/// The breadcrumb string: the headers joined by `" > "`.
pub open spec fn join_context(hs: Seq<Seq<char>>) -> Seq<char>
    decreases hs.len(),
{
    if hs.len() == 0 {
        seq![]
    } else if hs.len() == 1 {
        hs[0]
    } else {
        join_context(hs.drop_last()) + crumb_sep() + hs.last()
    }
}

/// Builds the breadcrumb string of a header stack.
pub fn build_context(headers: &Vec<String>) -> (r: String)
    ensures
        r@ == join_context(views_of(headers@)),
{
    let mut out = String::new();
    let mut i: usize = 0;
    while i < headers.len()
        invariant
            i <= headers@.len(),
            out@ == join_context(views_of(headers@.take(i as int))),
        decreases headers.len() - i,
    {
        if i > 0 {
            out.append(" > ");
        }
        out.append(headers[i].as_str());
        proof {
            let hs = views_of(headers@.take(i + 1));
            assert(hs.drop_last() =~= views_of(headers@.take(i as int)));
            assert(hs.last() == headers@[i as int]@);
            reveal_strlit(" > ");
            assert(" > "@ =~= crumb_sep());
            if i == 0 {
                assert(out@ =~= hs[0]);
            }
        }
        i = i + 1;
    }
    assert(headers@.take(headers@.len() as int) =~= headers@);
    out
}

/// A character that may close a sentence.
pub open spec fn is_terminator(c: char) -> bool {
    c == '.' || c == '!' || c == '?'
}

/// Position `i` closes a sentence: a terminator followed by whitespace or the end.
pub open spec fn is_sentence_end(t: Seq<char>, i: int) -> bool {
    0 <= i < t.len() && is_terminator(t[i]) && (i + 1 == t.len() || is_ws(t[i + 1]))
}

/// The sentences of `t` from position `i` on, the current one having begun at `start`.
pub open spec fn sentences_from(t: Seq<char>, start: int, i: int) -> Seq<Seq<char>>
    decreases t.len() - i,
{
    if i >= t.len() {
        if start < t.len() {
            seq![t.subrange(start, t.len() as int)]
        } else {
            seq![]
        }
    } else if is_sentence_end(t, i) {
        seq![t.subrange(start, i + 1)] + sentences_from(t, i + 1, i + 1)
    } else {
        sentences_from(t, start, i + 1)
    }
}

/// The sentences of `t`, in order; their concatenation is `t`.
pub open spec fn sentences(t: Seq<char>) -> Seq<Seq<char>> {
    sentences_from(t, 0, 0)
}

proof fn lemma_sentences_from_len(t: Seq<char>, start: int, i: int)
    requires
        0 <= start <= i,
    ensures
        sentences_from(t, start, i).len() <= if start < t.len() { t.len() - start } else { 0 },
    decreases t.len() - i,
{
    if i >= t.len() {
    } else if is_sentence_end(t, i) {
        lemma_sentences_from_len(t, i + 1, i + 1);
    } else {
        lemma_sentences_from_len(t, start, i + 1);
    }
}

/// Splits `t` into sentences.
fn split_sentences(t: &[char]) -> (r: Vec<Vec<char>>)
    ensures
        seqs_of(r@) == sentences(t@),
        r@.len() <= t@.len(),
{
    let mut out: Vec<Vec<char>> = Vec::new();
    let mut piece: Vec<char> = Vec::new();
    let mut start: usize = 0;
    let mut i: usize = 0;
    let n = t.len();
    while i < n
        invariant
            start <= i <= n,
            n == t@.len(),
            piece@ == t@.subrange(start as int, i as int),
            seqs_of(out@) + sentences_from(t@, start as int, i as int) == sentences(t@),
        decreases n - i,
    {
        let c = t[i];
        piece.push(c);
        let ends = (c == '.' || c == '!' || c == '?') && (i + 1 == n || is_whitespace(t[i + 1]));
        proof {
            assert(piece@ =~= t@.subrange(start as int, i + 1));
        }
        if ends {
            proof {
                assert(sentences_from(t@, start as int, i as int) == seq![piece@] + sentences_from(
                    t@,
                    i + 1,
                    i + 1,
                ));
                assert(seqs_of(out@.push(piece)) =~= seqs_of(out@).push(piece@));
                assert(seqs_of(out@).push(piece@) + sentences_from(t@, i + 1, i + 1) =~= seqs_of(
                    out@,
                ) + (seq![piece@] + sentences_from(t@, i + 1, i + 1)));
            }
            out.push(piece);
            piece = Vec::new();
            start = i + 1;
        }
        i = i + 1;
        proof {
            if ends {
                assert(piece@ =~= t@.subrange(start as int, i as int));
            }
        }
    }
    if start < n {
        proof {
            assert(seqs_of(out@.push(piece)) =~= seqs_of(out@) + seq![piece@]);
        }
        out.push(piece);
    } else {
        assert(seqs_of(out@) =~= seqs_of(out@) + sentences_from(t@, start as int, i as int));
    }
    proof {
        lemma_sentences_from_len(t@, 0, 0);
        assert(out@.len() == seqs_of(out@).len());
    }
    out
}

/// Whether the working chunk `cur` is closed before `s` joins it.
pub open spec fn closes_before(cur: Seq<char>, s: Seq<char>) -> bool {
    let exceeds = cur.len() > 0 && cur.len() + s.len() + 1 > MAX_CHUNK_SIZE;
    let full = cur.len() > 0 && cur.len() >= TARGET_CHUNK_SIZE && cur.len() + s.len() + 1
        > MAX_CHUNK_SIZE;
    (exceeds || full) && cur.len() >= MIN_CHUNK_SIZE
}

/// `s` appended to `cur`, with one space between them when `cur` is not empty.
pub open spec fn join_space(cur: Seq<char>, s: Seq<char>) -> Seq<char> {
    if cur.len() > 0 {
        cur.push(' ') + s
    } else {
        s
    }
}

/// One step of greedy packing: the closed chunks and the working chunk after sentence `raw`.
pub open spec fn pack_step(st: (Seq<Seq<char>>, Seq<char>), raw: Seq<char>) -> (
    Seq<Seq<char>>,
    Seq<char>,
) {
    let s = trim(raw);
    if s.len() == 0 {
        st
    } else if closes_before(st.1, s) {
        (st.0.push(trim(st.1)), s)
    } else {
        (st.0, join_space(st.1, s))
    }
}

/// Greedy packing of a sequence of sentences.
pub open spec fn pack(ss: Seq<Seq<char>>) -> (Seq<Seq<char>>, Seq<char>)
    decreases ss.len(),
{
    if ss.len() == 0 {
        (seq![], seq![])
    } else {
        pack_step(pack(ss.drop_last()), ss.last())
    }
}

/// Closing the packing: an undersized remainder joins the previous chunk, or stands alone
/// when there is none.
pub open spec fn finish(cs: Seq<Seq<char>>, cur: Seq<char>) -> Seq<Seq<char>> {
    let c = trim(cur);
    if c.len() == 0 {
        cs
    } else if cur.len() >= MIN_CHUNK_SIZE {
        cs.push(c)
    } else if cs.len() > 0 {
        cs.update(cs.len() - 1, cs.last().push(' ') + c)
    } else {
        seq![c]
    }
}

/// The chunk texts that sentence-boundary splitting makes of `text`.
pub open spec fn split_texts(text: Seq<char>) -> Seq<Seq<char>> {
    let p = pack(sentences(trim(text)));
    finish(p.0, p.1)
}

/// Greedy packing of sentences into chunk texts.
fn pack_sentences(ss: &Vec<Vec<char>>) -> (r: Vec<Vec<char>>)
    ensures
        seqs_of(r@) == finish(pack(seqs_of(ss@)).0, pack(seqs_of(ss@)).1),
        r@.len() <= ss@.len(),
{
    let mut chunks: Vec<Vec<char>> = Vec::new();
    let mut cur: Vec<char> = Vec::new();
    let mut i: usize = 0;
    while i < ss.len()
        invariant
            i <= ss@.len(),
            (seqs_of(chunks@), cur@) == pack(seqs_of(ss@.take(i as int))),
            chunks@.len() + (if cur@.len() > 0 { 1int } else { 0 }) <= i,
        decreases ss.len() - i,
    {
        let s = trimmed(ss[i].as_slice());
        proof {
            let pre = seqs_of(ss@.take(i + 1));
            assert(pre.drop_last() =~= seqs_of(ss@.take(i as int)));
            assert(pre.last() == ss@[i as int]@);
        }
        if s.len() > 0 {
            // `cur.len() + s.len() + 1 > MAX_CHUNK_SIZE`, written without overflow
            let too_long = s.len() >= MAX_CHUNK_SIZE || cur.len() >= MAX_CHUNK_SIZE - s.len();
            let exceeds = cur.len() > 0 && too_long;
            let full = cur.len() > 0 && cur.len() >= TARGET_CHUNK_SIZE && too_long;
            if (exceeds || full) && cur.len() >= MIN_CHUNK_SIZE {
                let closed = trimmed(cur.as_slice());
                proof {
                    assert(seqs_of(chunks@.push(closed)) =~= seqs_of(chunks@).push(closed@));
                }
                chunks.push(closed);
                cur = s;
            } else {
                if cur.len() > 0 {
                    cur.push(' ');
                }
                append_chars(&mut cur, s.as_slice());
            }
        }
        i = i + 1;
    }
    assert(ss@.take(ss@.len() as int) =~= ss@);
    let c = trimmed(cur.as_slice());
    if c.len() == 0 {
    } else if cur.len() >= MIN_CHUNK_SIZE {
        proof {
            assert(seqs_of(chunks@.push(c)) =~= seqs_of(chunks@).push(c@));
        }
        chunks.push(c);
    } else if chunks.len() > 0 {
        let last = chunks.len() - 1;
        let mut merged = chunks[last].clone();
        merged.push(' ');
        append_chars(&mut merged, c.as_slice());
        proof {
            assert(seqs_of(chunks@.update(last as int, merged)) =~= seqs_of(chunks@).update(
                last as int,
                seqs_of(chunks@).last().push(' ') + c@,
            ));
        }
        chunks.set(last, merged);
    } else {
        proof {
            assert(seqs_of(seq![c]) =~= seq![c@]);
        }
        chunks = vec![c];
    }
    chunks
}

/// The chunk list made of the texts `texts`: shared breadcrumb, consecutive indices from
/// `first_index`, the first chunk starting at `start_line` and later ones at `end_line`.
pub open spec fn chunks_match(
    r: Seq<TextChunk>,
    texts: Seq<Seq<char>>,
    context: Seq<char>,
    first_index: int,
    start_line: int,
    end_line: int,
) -> bool {
    &&& r.len() == texts.len()
    &&& forall|k: int|
        0 <= k < r.len() ==> {
            &&& (#[trigger] r[k]).text@ == texts[k]
            &&& r[k].context@ == context
            &&& r[k].chunk_index == first_index + k
            &&& r[k].start_line == if k == 0 { start_line } else { end_line }
            &&& r[k].end_line == end_line
        }
}

/// Splits `text` at sentence boundaries into chunks of bounded size.
///
/// Sentences are packed greedily; a chunk closes before a sentence that would take it past
/// `MAX_CHUNK_SIZE`, once it holds at least `MIN_CHUNK_SIZE` characters. An undersized
/// remainder is merged into the previous chunk, or emitted alone when there is none.
/// `chunk_index` is advanced by the number of chunks made.
pub fn split_text_intelligently(
    text: &[char],
    header_stack: &Vec<String>,
    start_line: usize,
    end_line: usize,
    chunk_index: &mut usize,
) -> (r: Vec<TextChunk>)
    requires
        *old(chunk_index) + text@.len() <= usize::MAX,
    ensures
        chunks_match(
            r@,
            split_texts(text@),
            join_context(views_of(header_stack@)),
            *old(chunk_index) as int,
            start_line as int,
            end_line as int,
        ),
        *final(chunk_index) == *old(chunk_index) + r@.len(),
        r@.len() <= text@.len(),
{
    let t = trimmed(text);
    let ss = split_sentences(t.as_slice());
    let texts = pack_sentences(&ss);
    let context = build_context(header_stack);
    proof {
        assert(trim(text@).len() <= text@.len()) by {
            crate::text::lemma_trim_len(text@);
        }
    }
    let mut out: Vec<TextChunk> = Vec::new();
    let mut k: usize = 0;
    let first = *chunk_index;
    while k < texts.len()
        invariant
            k <= texts@.len(),
            texts@.len() <= text@.len(),
            first + text@.len() <= usize::MAX,
            seqs_of(texts@) == split_texts(text@),
            context@ == join_context(views_of(header_stack@)),
            chunks_match(
                out@,
                seqs_of(texts@).take(k as int),
                context@,
                first as int,
                start_line as int,
                end_line as int,
            ),
        decreases texts.len() - k,
    {
        let line = if k == 0 { start_line } else { end_line };
        out.push(TextChunk {
            text: string_of(texts[k].as_slice()),
            context: context.clone(),
            chunk_index: first + k,
            start_line: line,
            end_line,
        });
        k = k + 1;
    }
    assert(seqs_of(texts@).take(k as int) =~= seqs_of(texts@));
    *chunk_index = first + k;
    out
}

/// What a chunk holds, over mathematical values.
pub struct ChunkModel {
    pub text: Seq<char>,
    pub context: Seq<char>,
    pub index: int,
    pub start: int,
    pub end: int,
}

/// The model of an executable chunk.
pub open spec fn chunk_model(c: TextChunk) -> ChunkModel {
    ChunkModel {
        text: c.text@,
        context: c.context@,
        index: c.chunk_index as int,
        start: c.start_line as int,
        end: c.end_line as int,
    }
}

/// The models of a sequence of executable chunks.
pub open spec fn chunk_models(r: Seq<TextChunk>) -> Seq<ChunkModel> {
    r.map_values(|c: TextChunk| chunk_model(c))
}

/// The chunks that sentence-boundary splitting makes of `text`.
pub open spec fn split_models(
    text: Seq<char>,
    context: Seq<char>,
    first_index: int,
    start_line: int,
    end_line: int,
) -> Seq<ChunkModel> {
    let texts = split_texts(text);
    Seq::new(
        texts.len(),
        |k: int|
            ChunkModel {
                text: texts[k],
                context,
                index: first_index + k,
                start: if k == 0 { start_line } else { end_line },
                end: end_line,
            },
    )
}

/// A list of chunks that matches its texts also matches their models.
pub proof fn lemma_chunks_match_models(
    r: Seq<TextChunk>,
    text: Seq<char>,
    context: Seq<char>,
    first_index: int,
    start_line: int,
    end_line: int,
)
    requires
        chunks_match(r, split_texts(text), context, first_index, start_line, end_line),
    ensures
        chunk_models(r) == split_models(text, context, first_index, start_line, end_line),
{
    assert(chunk_models(r) =~= split_models(text, context, first_index, start_line, end_line));
}

proof fn lemma_pack_sizes(ss: Seq<Seq<char>>)
    ensures
        forall|i: int| 0 <= i < pack(ss).0.len() ==> (#[trigger] pack(ss).0[i]).len() >= MIN_CHUNK_SIZE,
        crate::text::tight(pack(ss).1),
    decreases ss.len(),
{
    if ss.len() > 0 {
        lemma_pack_sizes(ss.drop_last());
        let st = pack(ss.drop_last());
        let s = trim(ss.last());
        crate::text::lemma_trim_tight(ss.last());
        if s.len() > 0 && closes_before(st.1, s) {
            crate::text::lemma_tight_trim_id(st.1);
        }
    }
}

/// Sentence-boundary splitting never makes a chunk shorter than `MIN_CHUNK_SIZE`, except
/// when it makes a single chunk.
pub proof fn lemma_split_min_size(text: Seq<char>)
    ensures
        split_texts(text).len() == 1 || forall|i: int|
            0 <= i < split_texts(text).len() ==> (#[trigger] split_texts(text)[i]).len()
                >= MIN_CHUNK_SIZE,
{
    let p = pack(sentences(trim(text)));
    lemma_pack_sizes(sentences(trim(text)));
    crate::text::lemma_tight_trim_id(p.1);
}

/// The pieces concatenated.
pub open spec fn concat_all(ps: Seq<Seq<char>>) -> Seq<char>
    decreases ps.len(),
{
    if ps.len() == 0 {
        seq![]
    } else {
        concat_all(ps.drop_last()) + ps.last()
    }
}

proof fn lemma_concat_single(x: Seq<char>)
    ensures
        concat_all(seq![x]) == x,
{
    let ps = seq![x];
    assert(ps.drop_last() =~= Seq::<Seq<char>>::empty());
    assert(concat_all(ps.drop_last()) == Seq::<char>::empty());
    assert(ps.last() == x);
    assert(Seq::<char>::empty() + x =~= x);
}

proof fn lemma_sentences_concat(t: Seq<char>, start: int, i: int)
    requires
        0 <= start <= i <= t.len(),
    ensures
        concat_all(sentences_from(t, start, i)) == t.subrange(start, t.len() as int),
    decreases t.len() - i,
{
    if i >= t.len() {
        if start < t.len() {
            lemma_concat_single(t.subrange(start, t.len() as int));
        } else {
            assert(concat_all(Seq::<Seq<char>>::empty()) == Seq::<char>::empty());
            assert(t.subrange(start, t.len() as int) =~= Seq::<char>::empty());
        }
    } else if is_sentence_end(t, i) {
        lemma_sentences_concat(t, i + 1, i + 1);
        let head = t.subrange(start, i + 1);
        let rest = sentences_from(t, i + 1, i + 1);
        lemma_concat_prepend(head, rest);
        assert(head + t.subrange(i + 1, t.len() as int) =~= t.subrange(start, t.len() as int));
    } else {
        lemma_sentences_concat(t, start, i + 1);
    }
}

proof fn lemma_concat_prepend(head: Seq<char>, rest: Seq<Seq<char>>)
    ensures
        concat_all(seq![head] + rest) == head + concat_all(rest),
    decreases rest.len(),
{
    if rest.len() == 0 {
        assert(seq![head] + rest =~= seq![head]);
        lemma_concat_single(head);
        assert(concat_all(rest) == Seq::<char>::empty());
        assert(head + concat_all(rest) =~= head);
    } else {
        lemma_concat_prepend(head, rest.drop_last());
        assert((seq![head] + rest).drop_last() =~= seq![head] + rest.drop_last());
        assert(head + concat_all(rest.drop_last()) + rest.last() =~= head + (concat_all(
            rest.drop_last(),
        ) + rest.last()));
    }
}

proof fn lemma_pack_content(ss: Seq<Seq<char>>)
    ensures
        no_ws(concat_all(pack(ss).0) + pack(ss).1) == no_ws(concat_all(ss)),
    decreases ss.len(),
{
    if ss.len() == 0 {
        assert(concat_all(pack(ss).0) + pack(ss).1 =~= Seq::<char>::empty());
    } else {
        let d = ss.drop_last();
        lemma_pack_content(d);
        let st = pack(d);
        let raw = ss.last();
        let s = trim(raw);
        lemma_no_ws_trim(raw);
        lemma_no_ws_add(concat_all(st.0), st.1);
        lemma_no_ws_add(concat_all(d), raw);
        if s.len() == 0 {
            assert(no_ws(s) =~= Seq::<char>::empty());
            assert(no_ws(concat_all(d)) + no_ws(raw) =~= no_ws(concat_all(d)));
        } else if closes_before(st.1, s) {
            let cs = st.0.push(trim(st.1));
            assert(cs.drop_last() =~= st.0);
            lemma_no_ws_add(concat_all(cs), s);
            lemma_no_ws_add(concat_all(st.0), trim(st.1));
            lemma_no_ws_trim(st.1);
            assert(no_ws(concat_all(st.0)) + no_ws(st.1) + no_ws(s) =~= no_ws(concat_all(st.0))
                + no_ws(st.1) + no_ws(raw));
        } else {
            let cur = join_space(st.1, s);
            lemma_no_ws_add(concat_all(st.0), cur);
            if st.1.len() > 0 {
                lemma_no_ws_space(st.1, s);
            }
            assert(no_ws(concat_all(st.0)) + (no_ws(st.1) + no_ws(s)) =~= no_ws(concat_all(st.0))
                + no_ws(st.1) + no_ws(s));
        }
    }
}

proof fn lemma_finish_content(cs: Seq<Seq<char>>, cur: Seq<char>)
    ensures
        no_ws(concat_all(finish(cs, cur))) == no_ws(concat_all(cs) + cur),
{
    let c = trim(cur);
    lemma_no_ws_trim(cur);
    lemma_no_ws_add(concat_all(cs), cur);
    if c.len() == 0 {
        assert(no_ws(c) =~= Seq::<char>::empty());
        assert(no_ws(concat_all(cs)) + no_ws(cur) =~= no_ws(concat_all(cs)));
    } else if cur.len() >= MIN_CHUNK_SIZE {
        assert(cs.push(c).drop_last() =~= cs);
        lemma_no_ws_add(concat_all(cs), c);
    } else if cs.len() > 0 {
        let u = cs.update(cs.len() - 1, cs.last().push(' ') + c);
        assert(u.drop_last() =~= cs.drop_last());
        assert(cs =~= cs.drop_last().push(cs.last()));
        lemma_no_ws_add(concat_all(cs.drop_last()), cs.last().push(' ') + c);
        lemma_no_ws_space(cs.last(), c);
        lemma_no_ws_add(concat_all(cs.drop_last()), cs.last());
        lemma_no_ws_add(concat_all(cs), c);
        assert(no_ws(concat_all(cs.drop_last())) + (no_ws(cs.last()) + no_ws(c)) =~= no_ws(
            concat_all(cs.drop_last()),
        ) + no_ws(cs.last()) + no_ws(c));
    } else {
        assert(cs =~= Seq::<Seq<char>>::empty());
        lemma_concat_single(c);
        assert(concat_all(cs) == Seq::<char>::empty());
        assert(concat_all(cs) + cur =~= cur);
    }
}

/// Sentence-boundary splitting loses no content: the chunk texts, put together, hold the
/// non-whitespace characters of the text, in order.
pub proof fn lemma_split_preserves_content(text: Seq<char>)
    ensures
        no_ws(concat_all(split_texts(text))) == no_ws(text),
{
    let t = trim(text);
    lemma_sentences_concat(t, 0, 0);
    assert(t.subrange(0, t.len() as int) =~= t);
    let ss = sentences(t);
    lemma_pack_content(ss);
    let p = pack(ss);
    lemma_finish_content(p.0, p.1);
    lemma_no_ws_trim(text);
}

} // verus!
