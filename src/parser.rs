//! Parsing a note into title, metadata, header hierarchy and chunks.
use vstd::prelude::*;
use crate::chunker::{chunk_models, views_of, TextChunk};
use crate::error::Error;
use crate::frontmatter::{extract_frontmatter, metadata_matches, parse_frontmatter, split_frontmatter, DocumentMetadata};
use crate::structure::{
    events_size, lemma_events_size_mono, markdown_events, md_events_of, parse_structure,
    walk, walk_end, MdEvent,
};
use crate::text::{chars_of, string_of};

verus! {

/// A parsed note.
#[derive(Debug, Clone)]
pub struct ParsedDocument {
    pub metadata: DocumentMetadata,
    pub title: String,
    pub chunks: Vec<TextChunk>,
    pub header_hierarchy: Vec<String>,
}

/// Position of the last `c` in `s`, or -1.
pub open spec fn last_index_of(s: Seq<char>, c: char) -> int
    decreases s.len(),
{
    if s.len() == 0 {
        -1
    } else if s.last() == c {
        s.len() - 1
    } else {
        last_index_of(s.drop_last(), c)
    }
}

/// The last component of a slash-separated path.
pub open spec fn base_name(s: Seq<char>) -> Seq<char> {
    s.skip(last_index_of(s, '/') + 1)
}

/// The file name without its extension; none for an empty name, `.` or `..`. A leading dot
/// does not start an extension.
pub open spec fn stem_of(path: Seq<char>) -> Option<Seq<char>> {
    let b = base_name(path);
    if b.len() == 0 || b == seq!['.'] || b == seq!['.', '.'] {
        None
    } else {
        let d = last_index_of(b, '.');
        if d <= 0 {
            Some(b)
        } else {
            Some(b.take(d))
        }
    }
}

/// The title when the frontmatter gives none: the first level-1 heading, else the file stem,
/// else "Untitled".
pub open spec fn doc_title(heading: Option<Seq<char>>, name: Seq<char>) -> Seq<char> {
    match heading {
        Some(h) => h,
        None => match stem_of(name) {
            Some(s) => s,
            None => "Untitled"@,
        },
    }
}

/// Position of the last `c` in `s`.
pub fn last_index(s: &[char], c: char) -> (r: Option<usize>)
    ensures
        r matches Some(i) ==> i < s@.len() && last_index_of(s@, c) == i,
        r is None ==> last_index_of(s@, c) == -1,
{
    let mut found: Option<usize> = None;
    let mut i: usize = 0;
    assert(s@.take(0) =~= seq![]);
    while i < s.len()
        invariant
            i <= s@.len(),
            found matches Some(k) ==> k < i && last_index_of(s@.take(i as int), c) == k,
            found is None ==> last_index_of(s@.take(i as int), c) == -1,
        decreases s.len() - i,
    {
        assert(s@.take(i + 1).drop_last() =~= s@.take(i as int));
        if s[i] == c {
            found = Some(i);
        }
        i = i + 1;
    }
    assert(s@.take(i as int) =~= s@);
    found
}

/// The stem of a file name given as a slash-separated path.
pub fn file_stem(path: &str) -> (r: Option<String>)
    ensures
        crate::text::opt_view(r) == stem_of(path@),
{
    let cs = chars_of(path);
    let from = match last_index(cs.as_slice(), '/') {
        Some(i) => {
            assert(i < cs.len());
            i + 1
        },
        None => 0,
    };
    let b = crate::text::copy_range(cs.as_slice(), from, cs.len());
    assert(b@ =~= base_name(path@));
    if b.len() == 0 || (b.len() == 1 && b[0] == '.') || (b.len() == 2 && b[0] == '.' && b[1] == '.') {
        proof {
            if b@.len() > 0 {
                assert(b@ =~= seq!['.'] || b@ =~= seq!['.', '.']);
            }
        }
        return None;
    }
    proof {
        assert(b@ != seq!['.']) by {
            if b@ == seq!['.'] {
                assert(b@.len() == 1 && b@[0] == '.');
            }
        }
        assert(b@ != seq!['.', '.']) by {
            if b@ == seq!['.', '.'] {
                assert(b@.len() == 2 && b@[0] == '.' && b@[1] == '.');
            }
        }
    }
    match last_index(b.as_slice(), '.') {
        Some(d) if d > 0 => {
            let stem = crate::text::copy_range(b.as_slice(), 0, d);
            assert(stem@ =~= b@.take(d as int));
            Some(string_of(stem.as_slice()))
        },
        _ => Some(string_of(b.as_slice())),
    }
}

/// Largest event weight the walk's counters can carry.
pub open spec fn fits(es: Seq<MdEvent>) -> bool {
    2 * events_size(es) + 2 <= usize::MAX
}

/// The total weight of the events, when the walk's counters can carry it.
fn checked_events_size(events: &Vec<MdEvent>) -> (r: Option<usize>)
    ensures
        r is Some <==> fits(events@),
{
    let limit: usize = (usize::MAX - 2) / 2;
    let mut n: usize = 0;
    let mut i: usize = 0;
    assert(events@.take(0) =~= seq![]);
    while i < events.len()
        invariant
            i <= events@.len(),
            limit == (usize::MAX - 2) / 2,
            n == events_size(events@.take(i as int)),
            n <= limit,
        decreases events.len() - i,
    {
        assert(events@.take(i + 1).drop_last() =~= events@.take(i as int));
        let sz: usize = match &events[i] {
            MdEvent::Text(s) | MdEvent::Code(s) | MdEvent::Html(s) => {
                let l = s.as_str().unicode_len();
                if l >= limit {
                    proof {
                        lemma_events_size_mono(events@, i + 1);
                    }
                    return None;
                }
                l + 1
            },
            _ => 1,
        };
        if sz > limit - n {
            proof {
                lemma_events_size_mono(events@, i + 1);
            }
            return None;
        }
        n = n + sz;
        i = i + 1;
    }
    assert(events@.take(i as int) =~= events@);
    Some(n)
}

/// Parses the text of a note. The title is the frontmatter's title, else the first level-1
/// heading, else the stem of `name` (the note's file name or path).
///
/// Fails with `Error::Parsing` only when the document is too large for the walk's counters.
pub fn parse_markdown(content: &str, name: &str) -> (r: Result<ParsedDocument, Error>)
    ensures
        ({
            let (block, body) = split_frontmatter(content@);
            let es = md_events_of(body);
            let w = walk_end(walk(es));
            &&& r is Ok <==> fits(es)
            &&& match r {
                Ok(d) => {
                    &&& metadata_matches(d.metadata, block)
                    &&& d.title@ == match crate::text::opt_view(d.metadata.title) {
                        Some(t) => t,
                        None => doc_title(w.title, name@),
                    }
                    &&& views_of(d.header_hierarchy@) == w.stack
                    &&& chunk_models(d.chunks@) == w.chunks
                },
                Err(e) => e is Parsing,
            }
        }),
{
    let cs = chars_of(content);
    let (block, body) = extract_frontmatter(cs.as_slice());
    let metadata = parse_frontmatter(&block);
    let body_text = string_of(body.as_slice());
    let events = markdown_events(body_text.as_str());
    match checked_events_size(&events) {
        None => Err(Error::Parsing("document is too large to chunk".to_string())),
        Some(_) => {
            let st = parse_structure(&events);
            let title = match &metadata.title {
                Some(t) => t.clone(),
                None => match st.title {
                    Some(t) => t,
                    None => match file_stem(name) {
                        Some(s) => s,
                        None => "Untitled".to_string(),
                    },
                },
            };
            Ok(ParsedDocument {
                metadata,
                title,
                chunks: st.chunks,
                header_hierarchy: st.header_hierarchy,
            })
        },
    }
}

} // verus!
