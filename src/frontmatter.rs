//! The metadata block at the head of a document: delimiting it and reading its fields.
use vstd::prelude::*;
use serde_yaml::Value;
use crate::chunker::views_of;
use crate::text::{chars_of, copy_range, find_first, first_occurrence, occurs_here, str_eq, string_of, trim, trimmed};

verus! {

/// One key/value pair of a YAML mapping, as the metadata reader needs it.
#[derive(Debug, Clone)]
pub struct FrontEntry {
    /// The key, when it is a string.
    pub key: Option<String>,
    /// The value, when it is a string.
    pub text: Option<String>,
    /// The value, when it is a scalar (string, number or boolean), as text.
    pub scalar: Option<String>,
    /// The value, when it is a sequence: each item that is a string.
    pub list: Option<Vec<Option<String>>>,
}

/// What the YAML reader makes of a block: the entries of its top-level mapping, in order,
/// or nothing when the block does not parse or is not a mapping.
pub uninterp spec fn yaml_entries_of(block: Seq<char>) -> Option<Seq<FrontEntry>>;

/// Relies on `serde_yaml::from_str::<serde_yaml::Value>` and `Value::as_mapping`, `as_str`
/// and `as_sequence` to read the block's top-level mapping, and on the `Display` of YAML
/// numbers and of `bool` for the text of a scalar.
#[verifier::external_body]
fn yaml_entries(block: &str) -> (r: Option<Vec<FrontEntry>>)
    ensures
        r matches Some(v) ==> yaml_entries_of(block@) == Some(v@),
        r is None ==> yaml_entries_of(block@) is None,
{
    let value: Value = serde_yaml::from_str(block).ok()?;
    Some(value.as_mapping()?.iter().map(|(k, v)| FrontEntry {
        key: k.as_str().map(String::from),
        text: v.as_str().map(String::from),
        scalar: match v {
            Value::Number(n) => Some(n.to_string()),
            Value::Bool(b) => Some(b.to_string()),
            _ => v.as_str().map(String::from),
        },
        list: v.as_sequence().map(|xs| xs.iter().map(|x| x.as_str().map(String::from)).collect()),
    }).collect())
}

/// Metadata read from the frontmatter block.
#[derive(Debug, Clone)]
pub struct DocumentMetadata {
    pub title: Option<String>,
    pub tags: Vec<String>,
    pub created: Option<String>,
    pub modified: Option<String>,
    /// Every other key whose value is a scalar, with the value as text, in the order of the
    /// block.
    pub custom: Vec<(String, String)>,
}

impl DocumentMetadata {
    /// Metadata with no field set.
    pub fn empty() -> (r: DocumentMetadata)
        ensures
            r.title is None,
            r.tags@.len() == 0,
            r.created is None,
            r.modified is None,
            r.custom@.len() == 0,
    {
        DocumentMetadata {
            title: None,
            tags: Vec::new(),
            created: None,
            modified: None,
            custom: Vec::new(),
        }
    }

    /// The custom value stored under `key`, if any.
    pub fn custom_value(&self, key: &str) -> (r: Option<String>)
        ensures
            r matches Some(v) ==> exists|i: int|
                0 <= i < self.custom@.len() && self.custom@[i].0@ == key@ && self.custom@[i].1@
                    == v@,
            r is None ==> forall|i: int|
                0 <= i < self.custom@.len() ==> self.custom@[i].0@ != key@,
    {
        let mut i: usize = 0;
        while i < self.custom.len()
            invariant
                i <= self.custom@.len(),
                forall|j: int| 0 <= j < i ==> self.custom@[j].0@ != key@,
            decreases self.custom.len() - i,
        {
            if str_eq(self.custom[i].0.as_str(), key) {
                return Some(self.custom[i].1.clone());
            }
            i = i + 1;
        }
        None
    }
}

/// The line that opens a frontmatter block.
pub open spec fn fm_open() -> Seq<char> {
    seq!['-', '-', '-', '\n']
}

/// The line that closes a frontmatter block, with the newline before it.
pub open spec fn fm_close() -> Seq<char> {
    seq!['\n', '-', '-', '-', '\n']
}

/// The opening line with a carriage return before its newline.
pub open spec fn fm_open_crlf() -> Seq<char> {
    seq!['-', '-', '-', '\r', '\n']
}

/// The closing line with carriage returns before both newlines.
pub open spec fn fm_close_crlf() -> Seq<char> {
    seq!['\r', '\n', '-', '-', '-', '\r', '\n']
}

/// The block between the opening line `o` at the start of `c` and the first closing line
/// `cl` after it, and the text after the closing line.
pub open spec fn split_with(c: Seq<char>, o: Seq<char>, cl: Seq<char>) -> Option<(Seq<char>, Seq<char>)> {
    if c.len() >= o.len() && c.take(o.len() as int) == o {
        let rest = c.skip(o.len() as int);
        match first_occurrence(rest, cl, 0) {
            Some(p) => Some((rest.take(p), c.skip(o.len() + p + cl.len()))),
            None => None,
        }
    } else {
        None
    }
}

/// The frontmatter block of a document, if it has one, and the text after it. Delimiter
/// lines end in `\n` or in `\r\n`.
pub open spec fn split_frontmatter(c: Seq<char>) -> (Option<Seq<char>>, Seq<char>) {
    match split_with(c, fm_open(), fm_close()) {
        Some((f, b)) => (Some(f), b),
        None => match split_with(c, fm_open_crlf(), fm_close_crlf()) {
            Some((f, b)) => (Some(f), b),
            None => (None, c),
        },
    }
}

fn split_with_exec(content: &[char], open: &[char], close: &[char]) -> (r: Option<(Vec<char>, Vec<char>)>)
    requires
        close@.len() > 0,
    ensures
        match split_with(content@, open@, close@) {
            Some((f, b)) => r matches Some((fv, bv)) && fv@ == f && bv@ == b,
            None => r is None,
        },
{
    if content.len() < open.len() || !occurs_here(content, open, 0) {
        proof {
            if content@.len() >= open@.len() {
                assert(content@.subrange(0, open@.len() as int) =~= content@.take(open@.len() as int));
            }
        }
        return None;
    }
    assert(content@.subrange(0, open@.len() as int) =~= content@.take(open@.len() as int));
    let rest = copy_range(content, open.len(), content.len());
    assert(rest@ =~= content@.skip(open@.len() as int));
    match find_first(rest.as_slice(), close) {
        Some(p) => {
            let fm = copy_range(rest.as_slice(), 0, p);
            let body = copy_range(content, open.len() + p + close.len(), content.len());
            assert(fm@ =~= rest@.take(p as int));
            assert(body@ =~= content@.skip(open@.len() + p + close@.len()));
            Some((fm, body))
        },
        None => None,
    }
}

/// Separates the frontmatter block from the rest of the document.
pub fn extract_frontmatter(content: &[char]) -> (r: (Option<Vec<char>>, Vec<char>))
    ensures
        split_frontmatter(content@).0 == (match r.0 {
            Some(v) => Some(v@),
            None => None,
        }),
        split_frontmatter(content@).1 == r.1@,
{
    let open = ['-', '-', '-', '\n'];
    let close = ['\n', '-', '-', '-', '\n'];
    let open_crlf = ['-', '-', '-', '\r', '\n'];
    let close_crlf = ['\r', '\n', '-', '-', '-', '\r', '\n'];
    assert(open@ =~= fm_open());
    assert(close@ =~= fm_close());
    assert(open_crlf@ =~= fm_open_crlf());
    assert(close_crlf@ =~= fm_close_crlf());
    if let Some((fm, body)) = split_with_exec(content, &open, &close) {
        return (Some(fm), body);
    }
    if let Some((fm, body)) = split_with_exec(content, &open_crlf, &close_crlf) {
        return (Some(fm), body);
    }
    let all = copy_range(content, 0, content.len());
    assert(all@ =~= content@);
    (None, all)
}

/// The entry's key is `k`.
pub open spec fn key_is(e: FrontEntry, k: Seq<char>) -> bool {
    match e.key {
        Some(s) => s@ == k,
        None => false,
    }
}

/// The first entry whose key is `k`.
pub open spec fn lookup(es: Seq<FrontEntry>, k: Seq<char>) -> Option<FrontEntry>
    decreases es.len(),
{
    if es.len() == 0 {
        None
    } else {
        match lookup(es.drop_last(), k) {
            Some(e) => Some(e),
            None => if key_is(es.last(), k) {
                Some(es.last())
            } else {
                None
            },
        }
    }
}

/// The pieces of `s` between commas.
pub open spec fn split_commas(s: Seq<char>) -> Seq<Seq<char>>
    decreases s.len(),
{
    if s.len() == 0 {
        seq![seq![]]
    } else {
        let p = split_commas(s.drop_last());
        if s.last() == ',' {
            p.push(seq![])
        } else {
            p.update(p.len() - 1, p.last().push(s.last()))
        }
    }
}

/// The trimmed pieces that are not empty.
pub open spec fn keep_tags(ps: Seq<Seq<char>>) -> Seq<Seq<char>>
    decreases ps.len(),
{
    if ps.len() == 0 {
        seq![]
    } else {
        let k = keep_tags(ps.drop_last());
        let t = trim(ps.last());
        if t.len() > 0 {
            k.push(t)
        } else {
            k
        }
    }
}

/// The tags of a comma-separated list: each piece trimmed, empty pieces dropped.
pub open spec fn split_tags_spec(s: Seq<char>) -> Seq<Seq<char>> {
    keep_tags(split_commas(s))
}

/// The items of a list that are strings.
pub open spec fn string_items(xs: Seq<Option<String>>) -> Seq<Seq<char>>
    decreases xs.len(),
{
    if xs.len() == 0 {
        seq![]
    } else {
        match xs.last() {
            Some(x) => string_items(xs.drop_last()).push(x@),
            None => string_items(xs.drop_last()),
        }
    }
}

/// The title field of the entries.
pub open spec fn title_of(es: Seq<FrontEntry>) -> Option<Seq<char>> {
    match lookup(es, "title"@) {
        Some(e) => match e.text {
            Some(t) => Some(t@),
            None => None,
        },
        None => None,
    }
}

/// The tags of the entries: a list's string items, or a comma-separated string.
pub open spec fn tags_of(es: Seq<FrontEntry>) -> Seq<Seq<char>> {
    match lookup(es, "tags"@) {
        Some(e) => match e.list {
            Some(xs) => string_items(xs@),
            None => match e.text {
                Some(t) => split_tags_spec(t@),
                None => seq![],
            },
        },
        None => seq![],
    }
}

/// Keys that have a field of their own.
pub open spec fn is_reserved(k: Seq<char>) -> bool {
    k == "title"@ || k == "tags"@ || k == "created"@ || k == "modified"@
}

/// The custom pairs of the entries: string keys that are not reserved, with scalar values
/// as text.
pub open spec fn customs(es: Seq<FrontEntry>) -> Seq<(Seq<char>, Seq<char>)>
    decreases es.len(),
{
    if es.len() == 0 {
        seq![]
    } else {
        let c = customs(es.drop_last());
        match (es.last().key, es.last().scalar) {
            (Some(k), Some(v)) => if !is_reserved(k@) {
                c.push((k@, v@))
            } else {
                c
            },
            _ => c,
        }
    }
}

/// The views of a list of string pairs.
pub open spec fn pair_views(v: Seq<(String, String)>) -> Seq<(Seq<char>, Seq<char>)> {
    v.map_values(|p: (String, String)| (p.0@, p.1@))
}

proof fn lemma_split_commas_nonempty(s: Seq<char>)
    ensures
        split_commas(s).len() >= 1,
    decreases s.len(),
{
    if s.len() > 0 {
        lemma_split_commas_nonempty(s.drop_last());
    }
}

/// Splits a comma-separated list of tags.
pub fn split_tags(s: &str) -> (r: Vec<String>)
    ensures
        views_of(r@) == split_tags_spec(s@),
{
    let cs = chars_of(s);
    let mut out: Vec<String> = Vec::new();
    let mut piece: Vec<char> = Vec::new();
    let mut i: usize = 0;
    assert(cs@.take(0) =~= seq![]);
    assert(views_of(out@) =~= seq![]);
    while i < cs.len()
        invariant
            i <= cs@.len(),
            cs@ == s@,
            split_commas(cs@.take(i as int)).len() >= 1,
            views_of(out@) == keep_tags(split_commas(cs@.take(i as int)).drop_last()),
            piece@ == split_commas(cs@.take(i as int)).last(),
        decreases cs.len() - i,
    {
        let ghost before = split_commas(cs@.take(i as int));
        assert(cs@.take(i + 1).drop_last() =~= cs@.take(i as int));
        if cs[i] == ',' {
            let t = trimmed(piece.as_slice());
            if t.len() > 0 {
                let ts = string_of(t.as_slice());
                proof {
                    assert(views_of(out@.push(ts)) =~= views_of(out@).push(ts@));
                }
                out.push(ts);
            }
            piece = Vec::new();
            proof {
                let after = split_commas(cs@.take(i + 1));
                assert(after == before.push(seq![]));
                assert(after.drop_last() =~= before);
                assert(before.drop_last() =~= before.take(before.len() - 1));
            }
        } else {
            piece.push(cs[i]);
            proof {
                let after = split_commas(cs@.take(i + 1));
                assert(after.drop_last() =~= before.drop_last());
            }
        }
        i = i + 1;
    }
    assert(cs@.take(i as int) =~= cs@);
    let t = trimmed(piece.as_slice());
    if t.len() > 0 {
        let ts = string_of(t.as_slice());
        proof {
            assert(views_of(out@.push(ts)) =~= views_of(out@).push(ts@));
        }
        out.push(ts);
    }
    out
}

fn key_matches(e: &FrontEntry, k: &str) -> (r: bool)
    ensures
        r == key_is(*e, k@),
{
    match &e.key {
        Some(s) => str_eq(s.as_str(), k),
        None => false,
    }
}

proof fn lemma_lookup_extend(es: Seq<FrontEntry>, k: Seq<char>, j: int)
    requires
        0 <= j <= es.len(),
        lookup(es.take(j), k) is Some,
    ensures
        lookup(es, k) == lookup(es.take(j), k),
    decreases es.len() - j,
{
    if j == es.len() {
        assert(es.take(j) =~= es);
    } else {
        assert(es.take(j + 1).drop_last() =~= es.take(j));
        lemma_lookup_extend(es, k, j + 1);
    }
}

/// The position of the first entry whose key is `k`.
fn find_entry(es: &Vec<FrontEntry>, k: &str) -> (r: Option<usize>)
    ensures
        r matches Some(i) ==> i < es@.len() && lookup(es@, k@) == Some(es@[i as int]),
        r is None ==> lookup(es@, k@) is None,
{
    let mut i: usize = 0;
    assert(es@.take(0) =~= seq![]);
    while i < es.len()
        invariant
            i <= es@.len(),
            lookup(es@.take(i as int), k@) is None,
        decreases es.len() - i,
    {
        assert(es@.take(i + 1).drop_last() =~= es@.take(i as int));
        if key_matches(&es[i], k) {
            proof {
                lemma_lookup_extend(es@, k@, i + 1);
            }
            return Some(i);
        }
        i = i + 1;
    }
    assert(es@.take(i as int) =~= es@);
    None
}

/// The string items of a list.
fn collect_strings(xs: &Vec<Option<String>>) -> (r: Vec<String>)
    ensures
        views_of(r@) == string_items(xs@),
{
    let mut out: Vec<String> = Vec::new();
    let mut i: usize = 0;
    assert(xs@.take(0) =~= seq![]);
    assert(views_of(out@) =~= seq![]);
    while i < xs.len()
        invariant
            i <= xs@.len(),
            views_of(out@) == string_items(xs@.take(i as int)),
        decreases xs.len() - i,
    {
        assert(xs@.take(i + 1).drop_last() =~= xs@.take(i as int));
        match &xs[i] {
            Some(x) => {
                let c = x.clone();
                proof {
                    assert(views_of(out@.push(c)) =~= views_of(out@).push(c@));
                }
                out.push(c);
            },
            None => {},
        }
        i = i + 1;
    }
    assert(xs@.take(i as int) =~= xs@);
    out
}

/// Whether `k` names a field of its own.
fn reserved_key(k: &str) -> (r: bool)
    ensures
        r == is_reserved(k@),
{
    str_eq(k, "title") || str_eq(k, "tags") || str_eq(k, "created") || str_eq(k, "modified")
}

/// Reads the metadata fields out of the frontmatter entries; with no entries every field is
/// empty.
pub fn metadata_from_entries(entries: &Option<Vec<FrontEntry>>) -> (r: DocumentMetadata)
    ensures
        r.created is None,
        r.modified is None,
        entries is None ==> r.title is None && r.tags@.len() == 0 && r.custom@.len() == 0,
        entries matches Some(es) ==> {
            &&& crate::text::opt_view(r.title) == title_of(es@)
            &&& views_of(r.tags@) == tags_of(es@)
            &&& pair_views(r.custom@) == customs(es@)
        },
{
    let mut md = DocumentMetadata::empty();
    match entries {
        None => md,
        Some(es) => {
            match find_entry(es, "title") {
                Some(i) => {
                    md.title = match &es[i].text {
                        Some(t) => Some(t.clone()),
                        None => None,
                    };
                },
                None => {},
            }
            match find_entry(es, "tags") {
                Some(i) => {
                    md.tags = match &es[i].list {
                        Some(xs) => collect_strings(xs),
                        None => match &es[i].text {
                            Some(t) => split_tags(t.as_str()),
                            None => Vec::new(),
                        },
                    };
                },
                None => {
                    assert(views_of(md.tags@) =~= seq![]);
                },
            }
            let mut custom: Vec<(String, String)> = Vec::new();
            let mut i: usize = 0;
            assert(es@.take(0) =~= seq![]);
            assert(pair_views(custom@) =~= seq![]);
            while i < es.len()
                invariant
                    i <= es@.len(),
                    pair_views(custom@) == customs(es@.take(i as int)),
                decreases es.len() - i,
            {
                assert(es@.take(i + 1).drop_last() =~= es@.take(i as int));
                match (&es[i].key, &es[i].scalar) {
                    (Some(k), Some(v)) => {
                        if !reserved_key(k.as_str()) {
                            let p = (k.clone(), v.clone());
                            proof {
                                assert(pair_views(custom@.push(p)) =~= pair_views(custom@).push(
                                    (k@, v@),
                                ));
                            }
                            custom.push(p);
                        }
                    },
                    _ => {},
                }
                i = i + 1;
            }
            assert(es@.take(i as int) =~= es@);
            md.custom = custom;
            md
        },
    }
}

/// `md` is what the frontmatter block `block` says.
pub open spec fn metadata_matches(md: DocumentMetadata, block: Option<Seq<char>>) -> bool {
    let es = match block {
        Some(b) => yaml_entries_of(b),
        None => None,
    };
    &&& md.created is None
    &&& md.modified is None
    &&& match es {
        Some(es) => {
            &&& crate::text::opt_view(md.title) == title_of(es)
            &&& views_of(md.tags@) == tags_of(es)
            &&& pair_views(md.custom@) == customs(es)
        },
        None => md.title is None && md.tags@.len() == 0 && md.custom@.len() == 0,
    }
}

/// Parses a frontmatter block into metadata; a block that is not a YAML mapping, or no block,
/// gives empty metadata.
pub fn parse_frontmatter(block: &Option<Vec<char>>) -> (r: DocumentMetadata)
    ensures
        metadata_matches(
            r,
            match block {
                Some(b) => Some(b@),
                None => None,
            },
        ),
{
    match block {
        None => DocumentMetadata::empty(),
        Some(b) => {
            let text = string_of(b.as_slice());
            let entries = yaml_entries(text.as_str());
            metadata_from_entries(&entries)
        },
    }
}

} // verus!
