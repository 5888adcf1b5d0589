//! Reading a raw search query: the `file:` filter, the semantic part, and case-insensitive
//! matching of file paths.
use vstd::prelude::*;
use crate::chunker::seqs_of;
use crate::text::{copy_range, find_first, first_occurrence, occurs_at};
use crate::parser::{base_name, last_index};
use crate::text::{append_chars, chars_of, is_whitespace, is_ws, lower_of, lowercase, string_of};

verus! {

/// The pieces of `s` between whitespace characters (some of them empty).
pub open spec fn split_ws(s: Seq<char>) -> Seq<Seq<char>>
    decreases s.len(),
{
    if s.len() == 0 {
        seq![seq![]]
    } else {
        let p = split_ws(s.drop_last());
        if is_ws(s.last()) {
            p.push(seq![])
        } else {
            p.update(p.len() - 1, p.last().push(s.last()))
        }
    }
}

/// The pieces that are not empty.
pub open spec fn nonempty(ps: Seq<Seq<char>>) -> Seq<Seq<char>>
    decreases ps.len(),
{
    if ps.len() == 0 {
        seq![]
    } else if ps.last().len() > 0 {
        nonempty(ps.drop_last()).push(ps.last())
    } else {
        nonempty(ps.drop_last())
    }
}

/// The whitespace-separated words of `s`.
pub open spec fn words(s: Seq<char>) -> Seq<Seq<char>> {
    nonempty(split_ws(s))
}

/// The prefix that marks a file filter token.
pub open spec fn file_prefix() -> Seq<char> {
    seq!['f', 'i', 'l', 'e', ':']
}

/// A word of the form `file:<name>` with a non-empty name.
pub open spec fn is_filter_token(w: Seq<char>) -> bool {
    w.len() > 5 && w.take(5) == file_prefix()
}

/// Quotes and punctuation trimmed from a filter name.
pub open spec fn is_punct(c: char) -> bool {
    c == '"' || c == '\'' || c == ',' || c == ';' || c == '.'
}

/// Position of the first character of `s` that is not punctuation, from `i` on.
pub open spec fn skip_punct(s: Seq<char>, i: int) -> int
    decreases s.len() - i,
{
    if 0 <= i < s.len() && is_punct(s[i]) {
        skip_punct(s, i + 1)
    } else {
        i
    }
}

/// One past the last character of `s[a..j]` that is not punctuation.
pub open spec fn back_punct(s: Seq<char>, a: int, j: int) -> int
    decreases j - a,
{
    if a < j && j <= s.len() && is_punct(s[j - 1]) {
        back_punct(s, a, j - 1)
    } else {
        j
    }
}

/// `s` without leading and trailing punctuation.
pub open spec fn strip_punct(s: Seq<char>) -> Seq<char> {
    let a = skip_punct(s, 0);
    s.subrange(a, back_punct(s, a, s.len() as int))
}

/// The filter and the kept words after the words `ws`; a later filter replaces an earlier one.
pub open spec fn query_fold(ws: Seq<Seq<char>>) -> (Option<Seq<char>>, Seq<Seq<char>>)
    decreases ws.len(),
{
    if ws.len() == 0 {
        (None, seq![])
    } else {
        let st = query_fold(ws.drop_last());
        let w = ws.last();
        if is_filter_token(w) {
            (Some(strip_punct(w.skip(5))), st.1)
        } else {
            (st.0, st.1.push(w))
        }
    }
}

/// The words joined by single spaces.
pub open spec fn join_words(ps: Seq<Seq<char>>) -> Seq<char>
    decreases ps.len(),
{
    if ps.len() == 0 {
        seq![]
    } else if ps.len() == 1 {
        ps[0]
    } else {
        join_words(ps.drop_last()).push(' ') + ps.last()
    }
}

/// The file filter of a raw query and its semantic part.
pub open spec fn filter_query(raw: Seq<char>) -> (Option<Seq<char>>, Seq<char>) {
    let st = query_fold(words(raw));
    (st.0, join_words(st.1))
}

fn strip_punct_exec(s: &[char]) -> (r: Vec<char>)
    ensures
        r@ == strip_punct(s@),
{
    let n = s.len();
    let mut a: usize = 0;
    while a < n && (s[a] == '"' || s[a] == '\'' || s[a] == ',' || s[a] == ';' || s[a] == '.')
        invariant
            a <= n,
            n == s@.len(),
            skip_punct(s@, 0) == skip_punct(s@, a as int),
        decreases n - a,
    {
        a = a + 1;
    }
    let mut b: usize = n;
    while b > a && (s[b - 1] == '"' || s[b - 1] == '\'' || s[b - 1] == ',' || s[b - 1] == ';'
        || s[b - 1] == '.')
        invariant
            a <= b <= n,
            n == s@.len(),
            skip_punct(s@, 0) == a,
            back_punct(s@, a as int, n as int) == back_punct(s@, a as int, b as int),
        decreases b,
    {
        b = b - 1;
    }
    copy_range(s, a, b)
}

proof fn lemma_nonempty_last(ps: Seq<Seq<char>>)
    requires
        ps.len() > 0,
    ensures
        nonempty(ps) == if ps.last().len() > 0 {
            nonempty(ps.drop_last()).push(ps.last())
        } else {
            nonempty(ps.drop_last())
        },
{
}

proof fn lemma_split_ws_nonempty(s: Seq<char>)
    ensures
        split_ws(s).len() >= 1,
    decreases s.len(),
{
    if s.len() > 0 {
        lemma_split_ws_nonempty(s.drop_last());
    }
}

/// Applies one word to the filter and the kept words.
fn take_word(
    w: &Vec<char>,
    filter: &mut Option<Vec<char>>,
    parts: &mut Vec<Vec<char>>,
)
    ensures
        ({
            let f = match *final(filter) {
                Some(v) => Some(v@),
                None => None,
            };
            let f0 = match *old(filter) {
                Some(v) => Some(v@),
                None => None,
            };
            let st = if is_filter_token(w@) {
                (Some(strip_punct(w@.skip(5))), seqs_of(old(parts)@))
            } else {
                (f0, seqs_of(old(parts)@).push(w@))
            };
            (f, seqs_of(final(parts)@)) == st
        }),
{
    let is_filter = w.len() > 5 && w[0] == 'f' && w[1] == 'i' && w[2] == 'l' && w[3] == 'e' && w[4]
        == ':';
    proof {
        if w@.len() > 5 {
            if is_filter {
                assert(w@.take(5) =~= file_prefix());
            } else {
                assert(w@.take(5) != file_prefix()) by {
                    if w@.take(5) == file_prefix() {
                        assert(w@.take(5)[0] == 'f');
                        assert(w@.take(5)[1] == 'i');
                        assert(w@.take(5)[2] == 'l');
                        assert(w@.take(5)[3] == 'e');
                        assert(w@.take(5)[4] == ':');
                    }
                }
            }
        }
    }
    if is_filter {
        let rest = copy_range(w.as_slice(), 5, w.len());
        assert(rest@ =~= w@.skip(5));
        *filter = Some(strip_punct_exec(rest.as_slice()));
    } else {
        let c = copy_range(w.as_slice(), 0, w.len());
        assert(c@ =~= w@);
        proof {
            assert(seqs_of(parts@.push(c)) =~= seqs_of(parts@).push(c@));
        }
        parts.push(c);
    }
}

/// The view of an optional character vector.
pub open spec fn opt_chars(o: Option<Vec<char>>) -> Option<Seq<char>> {
    match o {
        Some(v) => Some(v@),
        None => None,
    }
}

/// Splits a raw query into its `file:` filter (the last one, quotes and punctuation
/// trimmed) and the other words joined by single spaces.
pub fn parse_file_filter_query(raw: &str) -> (r: (Option<String>, String))
    ensures
        crate::text::opt_view(r.0) == filter_query(raw@).0,
        r.1@ == filter_query(raw@).1,
{
    let cs = chars_of(raw);
    let mut filter: Option<Vec<char>> = None;
    let mut parts: Vec<Vec<char>> = Vec::new();
    let mut tok: Vec<char> = Vec::new();
    let mut i: usize = 0;
    assert(cs@.take(0) =~= seq![]);
    assert(seqs_of(parts@) =~= seq![]);
    while i < cs.len()
        invariant
            i <= cs@.len(),
            cs@ == raw@,
            split_ws(cs@.take(i as int)).len() >= 1,
            (opt_chars(filter), seqs_of(parts@)) == query_fold(
                nonempty(split_ws(cs@.take(i as int)).drop_last()),
            ),
            tok@ == split_ws(cs@.take(i as int)).last(),
        decreases cs.len() - i,
    {
        let ghost before = split_ws(cs@.take(i as int));
        assert(cs@.take(i + 1).drop_last() =~= cs@.take(i as int));
        if is_whitespace(cs[i]) {
            proof {
                let after = split_ws(cs@.take(i + 1));
                assert(after.drop_last() =~= before);
                lemma_nonempty_last(before);
                assert(before.drop_last() =~= before.take(before.len() - 1));
                let ne = nonempty(before.drop_last());
                if tok@.len() > 0 {
                    assert(ne.push(tok@).drop_last() =~= ne);
                }
            }
            if tok.len() > 0 {
                take_word(&tok, &mut filter, &mut parts);
            }
            tok = Vec::new();
        } else {
            tok.push(cs[i]);
            proof {
                let after = split_ws(cs@.take(i + 1));
                assert(after.drop_last() =~= before.drop_last());
            }
        }
        i = i + 1;
    }
    assert(cs@.take(i as int) =~= cs@);
    proof {
        let all = split_ws(cs@);
        lemma_nonempty_last(all);
        let ne = nonempty(all.drop_last());
        if tok@.len() > 0 {
            assert(ne.push(tok@).drop_last() =~= ne);
        }
    }
    if tok.len() > 0 {
        take_word(&tok, &mut filter, &mut parts);
    }
    let mut out: Vec<char> = Vec::new();
    let mut k: usize = 0;
    assert(seqs_of(parts@).take(0) =~= seq![]);
    while k < parts.len()
        invariant
            k <= parts@.len(),
            out@ == join_words(seqs_of(parts@).take(k as int)),
        decreases parts.len() - k,
    {
        proof {
            let ps = seqs_of(parts@).take(k + 1);
            assert(ps.drop_last() =~= seqs_of(parts@).take(k as int));
            assert(ps.last() == parts@[k as int]@);
        }
        if k > 0 {
            out.push(' ');
        }
        append_chars(&mut out, parts[k].as_slice());
        proof {
            if k == 0 {
                assert(out@ =~= seqs_of(parts@).take(1)[0]);
            }
        }
        k = k + 1;
    }
    assert(seqs_of(parts@).take(k as int) =~= seqs_of(parts@));
    let f = match filter {
        Some(v) => Some(string_of(v.as_slice())),
        None => None,
    };
    (f, string_of(out.as_slice()))
}

/// The code of `c` with ASCII upper-case letters mapped to lower case.
pub open spec fn lower_code(c: char) -> u32 {
    let u = c as u32;
    if 65 <= u <= 90 {
        (u + 32) as u32
    } else {
        u
    }
}

/// Every character is ASCII.
pub open spec fn all_ascii(s: Seq<char>) -> bool {
    forall|i: int| 0 <= i < s.len() ==> (#[trigger] s[i]) as u32 <= 127
}

/// `n` matches `h` at `i`, ignoring ASCII case.
pub open spec fn ascii_match_at(h: Seq<char>, n: Seq<char>, i: int) -> bool {
    forall|j: int| 0 <= j < n.len() ==> lower_code(#[trigger] h[i + j]) == lower_code(n[j])
}

/// Case-insensitive containment: ASCII case folding when both are ASCII, else `n` is looked
/// for in the lower-cased `h`.
pub open spec fn ci_contains(h: Seq<char>, n: Seq<char>) -> bool {
    if all_ascii(h) && all_ascii(n) {
        exists|i: int| 0 <= i && i + n.len() <= h.len() && ascii_match_at(h, n, i)
    } else {
        exists|i: int| occurs_at(lower_of(h), n, i)
    }
}

fn lower_code_exec(c: char) -> (r: u32)
    ensures
        r == lower_code(c),
{
    let u = c as u32;
    if 65 <= u && u <= 90 {
        u + 32
    } else {
        u
    }
}

fn is_ascii_chars(s: &[char]) -> (r: bool)
    ensures
        r == all_ascii(s@),
{
    let mut i: usize = 0;
    while i < s.len()
        invariant
            i <= s@.len(),
            forall|k: int| 0 <= k < i ==> (#[trigger] s@[k]) as u32 <= 127,
        decreases s.len() - i,
    {
        if s[i] as u32 > 127 {
            return false;
        }
        i = i + 1;
    }
    true
}

fn ascii_match_here(h: &[char], n: &[char], i: usize) -> (r: bool)
    requires
        i + n@.len() <= h@.len(),
    ensures
        r == ascii_match_at(h@, n@, i as int),
{
    let len = h.len();
    let mut j: usize = 0;
    while j < n.len()
        invariant
            j <= n@.len(),
            len == h@.len(),
            i + n@.len() <= h@.len(),
            forall|k: int| 0 <= k < j ==> lower_code(#[trigger] h@[i + k]) == lower_code(n@[k]),
        decreases n.len() - j,
    {
        if lower_code_exec(h[i + j]) != lower_code_exec(n[j]) {
            assert(!(lower_code(h@[i + j]) == lower_code(n@[j as int])));
            return false;
        }
        j = j + 1;
    }
    true
}

proof fn lemma_no_occurrence(s: Seq<char>, p: Seq<char>, i: int)
    requires
        p.len() > 0,
        0 <= i,
        first_occurrence(s, p, i) is None,
    ensures
        forall|k: int| i <= k ==> !occurs_at(s, p, k),
    decreases s.len() - i,
{
    if i >= s.len() || i + p.len() > s.len() {
    } else {
        lemma_no_occurrence(s, p, i + 1);
    }
}

/// Whether `needle` occurs in `haystack`, ignoring case.
pub fn contains_case_insensitive(haystack: &str, needle: &str) -> (r: bool)
    ensures
        r == ci_contains(haystack@, needle@),
{
    let h = chars_of(haystack);
    let n = chars_of(needle);
    if n.len() == 0 {
        proof {
            assert(occurs_at(lower_of(h@), n@, 0)) by {
                assert(lower_of(h@).subrange(0, 0) =~= n@);
            }
            assert(ascii_match_at(h@, n@, 0));
        }
        return true;
    }
    if is_ascii_chars(h.as_slice()) && is_ascii_chars(n.as_slice()) {
        if n.len() > h.len() {
            return false;
        }
        let mut i: usize = 0;
        while i <= h.len() - n.len()
            invariant
                n@.len() <= h@.len(),
                n@ == needle@,
                h@ == haystack@,
                all_ascii(h@),
                all_ascii(n@),
                forall|k: int| 0 <= k < i ==> !ascii_match_at(h@, n@, k),
            decreases h.len() - i,
        {
            if ascii_match_here(h.as_slice(), n.as_slice(), i) {
                assert(0 <= i && i + n@.len() <= h@.len() && ascii_match_at(h@, n@, i as int));
                return true;
            }
            i = i + 1;
        }
        false
    } else {
        let l = lowercase(haystack);
        let lc = chars_of(l.as_str());
        match find_first(lc.as_slice(), n.as_slice()) {
            Some(_) => true,
            None => {
                proof {
                    lemma_no_occurrence(lc@, n@, 0);
                    assert forall|k: int| !occurs_at(lower_of(h@), n@, k) by {
                        if k < 0 {
                        }
                    }
                }
                false
            },
        }
    }
}

/// The last path component, when it names a file.
pub open spec fn file_name_of(path: Seq<char>) -> Option<Seq<char>> {
    let b = base_name(path);
    if b.len() == 0 || b == seq!['.'] || b == seq!['.', '.'] {
        None
    } else {
        Some(b)
    }
}

/// The path matches the filter: the lower-cased filter occurs in the path, or in its file
/// name, ignoring case.
pub open spec fn path_matches(path: Seq<char>, filter: Seq<char>) -> bool {
    let f = lower_of(filter);
    ci_contains(path, f) || (file_name_of(path) matches Some(b) && ci_contains(b, f))
}

/// Whether a file path matches a `file:` filter.
pub fn path_matches_filter(file_path: &str, filter: &str) -> (r: bool)
    ensures
        r == path_matches(file_path@, filter@),
{
    let fl = lowercase(filter);
    if contains_case_insensitive(file_path, fl.as_str()) {
        return true;
    }
    let cs = chars_of(file_path);
    let from = match last_index(cs.as_slice(), '/') {
        Some(i) => {
            assert(i < cs.len());
            i + 1
        },
        None => 0,
    };
    let b = copy_range(cs.as_slice(), from, cs.len());
    assert(b@ =~= base_name(file_path@));
    if b.len() == 0 || (b.len() == 1 && b[0] == '.') || (b.len() == 2 && b[0] == '.' && b[1] == '.') {
        proof {
            if b@.len() > 0 {
                assert(b@ =~= seq!['.'] || b@ =~= seq!['.', '.']);
            }
        }
        return false;
    }
    proof {
        assert(b@ != seq!['.']) by {
            if b@ == seq!['.'] {
                assert(b@.len() == 1 && b@[0] == '.');
            }
        }
        assert(b@ != seq!['.', '.']) by {
            if b@ == seq!['.', '.'] {
                assert(b@.len() == 2 && b@[0] == '.' && b@[1] == '.');
            }
        }
    }
    let name = string_of(b.as_slice());
    contains_case_insensitive(name.as_str(), fl.as_str())
}
/// Lexical bonus, in hundredths of similarity, for a query that occurs (ignoring case) in the
/// entry's file path, context and text: 5, 10 and 15 respectively, added up.
pub open spec fn lexical_bonus(path: Seq<char>, context: Seq<char>, text: Seq<char>, q: Seq<char>) -> nat {
    (if ci_contains(path, q) { 5nat } else { 0 }) + (if ci_contains(context, q) { 10nat } else { 0 })
        + (if ci_contains(text, q) { 15nat } else { 0 })
}

/// The lexical bonus of an entry for the lower-cased query `q`, in hundredths.
pub fn lexical_bonus_points(path: &str, context: &str, text: &str, q: &str) -> (r: u32)
    ensures
        r == lexical_bonus(path@, context@, text@, q@),
{
    let mut b: u32 = 0;
    if contains_case_insensitive(path, q) {
        b = b + 5;
    }
    if contains_case_insensitive(context, q) {
        b = b + 10;
    }
    if contains_case_insensitive(text, q) {
        b = b + 15;
    }
    b
}

/// The text handed to the embedding model for a search query.
pub open spec fn query_framing(q: Seq<char>) -> Seq<char> {
    "query: "@ + q
}

/// The text handed to the embedding model for a chunk: its breadcrumb on a line of its own
/// when there is one, then the chunk text.
pub open spec fn passage_framing(context: Seq<char>, text: Seq<char>) -> Seq<char> {
    if crate::text::is_blank(context) {
        "passage: "@ + text
    } else {
        "passage: "@ + context.push('\n') + text
    }
}

/// Frames a search query for the embedding model.
pub fn query_input(q: &str) -> (r: String)
    ensures
        r@ == query_framing(q@),
{
    let mut out = String::new();
    out.append("query: ");
    out.append(q);
    assert(out@ =~= query_framing(q@));
    out
}

/// Frames a chunk for the embedding model.
pub fn passage_input(context: &str, text: &str) -> (r: String)
    ensures
        r@ == passage_framing(context@, text@),
{
    let mut out = String::new();
    out.append("passage: ");
    let c = chars_of(context);
    let (a, b) = crate::text::trim_bounds(c.as_slice());
    if a != b {
        out.append(context);
        out.append("\n");
        proof {
            reveal_strlit("\n");
        }
    }
    out.append(text);
    proof {
        if a != b {
            assert(out@ =~= passage_framing(context@, text@));
        } else {
            assert(out@ =~= passage_framing(context@, text@));
        }
    }
    out
}

/// Candidates fetched for a search over the whole index.
pub const SEARCH_CANDIDATES_LIMIT: usize = 200;

/// Candidates fetched for a search scoped to a set of files.
pub const SCOPED_SEARCH_CANDIDATES_LIMIT: usize = 500;

/// Results shown at most.
pub const MAX_RESULTS_DISPLAYED: usize = 20;

/// Results shown at most from one file.
pub const MAX_RESULTS_PER_FILE: usize = 5;

/// What a search asks of the index.
#[derive(Debug, Clone)]
pub struct SearchRequest {
    /// The `file:` filter, if any.
    pub filter: Option<String>,
    /// The semantic part of the query.
    pub query: String,
    /// How many candidates to fetch before filtering, boosting and capping.
    pub candidates: usize,
}

/// Reads a raw query: nothing to search when its semantic part is blank; else the filter, the
/// semantic part, and the candidate count (larger for a scoped search, and never below what
/// the display can take from each file).
pub fn plan_search(raw: &str, scoped: bool) -> (r: Option<SearchRequest>)
    ensures
        r is None <==> crate::text::is_blank(filter_query(raw@).1),
        r matches Some(s) ==> {
            &&& crate::text::opt_view(s.filter) == filter_query(raw@).0
            &&& s.query@ == filter_query(raw@).1
            &&& s.candidates == if scoped {
                if MAX_RESULTS_DISPLAYED * MAX_RESULTS_PER_FILE >= SCOPED_SEARCH_CANDIDATES_LIMIT {
                    (MAX_RESULTS_DISPLAYED * MAX_RESULTS_PER_FILE) as int
                } else {
                    SCOPED_SEARCH_CANDIDATES_LIMIT as int
                }
            } else {
                SEARCH_CANDIDATES_LIMIT as int
            }
        },
{
    let (filter, query) = parse_file_filter_query(raw);
    let q = chars_of(query.as_str());
    let (a, b) = crate::text::trim_bounds(q.as_slice());
    if a == b {
        return None;
    }
    let candidates = if scoped {
        let per_display = MAX_RESULTS_DISPLAYED * MAX_RESULTS_PER_FILE;
        if per_display >= SCOPED_SEARCH_CANDIDATES_LIMIT {
            per_display
        } else {
            SCOPED_SEARCH_CANDIDATES_LIMIT
        }
    } else {
        SEARCH_CANDIDATES_LIMIT
    };
    Some(SearchRequest { filter, query, candidates })
}

} // verus!
