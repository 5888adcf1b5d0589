//! Character-level helpers shared by the chunker and the query parser.
use vstd::prelude::*;
use vstd::std_specs::iter::IteratorSpec;

verus! {

/// The view of an optional string.
pub open spec fn opt_view(o: Option<String>) -> Option<Seq<char>> {
    match o {
        Some(s) => Some(s@),
        None => None,
    }
}

/// Unicode `White_Space` property.
pub open spec fn is_ws(c: char) -> bool {
    ('\t' <= c && c <= '\r') || c == ' ' || c == '\u{85}' || c == '\u{a0}' || c == '\u{1680}'
        || ('\u{2000}' <= c && c <= '\u{200a}') || c == '\u{2028}' || c == '\u{2029}'
        || c == '\u{202f}' || c == '\u{205f}' || c == '\u{3000}'
}

/// Executable form of `is_ws`.
pub fn is_whitespace(c: char) -> (r: bool)
    ensures
        r == is_ws(c),
{
    ('\t' <= c && c <= '\r') || c == ' ' || c == '\u{85}' || c == '\u{a0}' || c == '\u{1680}'
        || ('\u{2000}' <= c && c <= '\u{200a}') || c == '\u{2028}' || c == '\u{2029}'
        || c == '\u{202f}' || c == '\u{205f}' || c == '\u{3000}'
}

/// The sequence without its leading whitespace.
pub open spec fn trim_start(s: Seq<char>) -> Seq<char>
    decreases s.len(),
{
    if s.len() > 0 && is_ws(s[0]) {
        trim_start(s.drop_first())
    } else {
        s
    }
}

/// The sequence without its trailing whitespace.
pub open spec fn trim_end(s: Seq<char>) -> Seq<char>
    decreases s.len(),
{
    if s.len() > 0 && is_ws(s.last()) {
        trim_end(s.drop_last())
    } else {
        s
    }
}

/// The sequence without leading and trailing whitespace.
pub open spec fn trim(s: Seq<char>) -> Seq<char> {
    trim_end(trim_start(s))
}

/// True when the sequence holds whitespace only.
pub open spec fn is_blank(s: Seq<char>) -> bool {
    forall|i: int| 0 <= i < s.len() ==> is_ws(#[trigger] s[i])
}

/// The characters of a string slice.
pub fn chars_of(s: &str) -> (r: Vec<char>)
    ensures
        r@ == s@,
{
    broadcast use vstd::string::axiom_spec_iter, vstd::string::next_postcondition;

    let mut it = s.chars();
    let mut out: Vec<char> = Vec::new();
    assert(out@ + it.remaining() =~= s@);
    loop
        invariant
            out@ + it.remaining() == s@,
            it.obeys_prophetic_iter_laws(),
            it.decrease() is Some,
        ensures
            out@ == s@,
        decreases it.decrease()->0,
    {
        let ghost before = it.remaining();
        match it.next() {
            Some(c) => {
                out.push(c);
                assert(out@ + it.remaining() =~= s@) by {
                    assert(before =~= seq![c] + before.drop_first());
                }
            },
            None => {
                assert(out@ =~= s@);
                break;
            },
        }
    }
    out
}

/// A string made of the given characters. Relies on `String`'s `FromIterator<&char>`, which
/// appends each character in turn.
#[verifier::external_body]
pub(crate) fn string_of(v: &[char]) -> (r: String)
    ensures
        r@ == v@,
{
    v.iter().collect()
}

/// What `str::to_lowercase` returns: the result depends on the characters alone.
pub uninterp spec fn lower_of(s: Seq<char>) -> Seq<char>;

/// Relies on `str::to_lowercase` (full Unicode lower-case mapping).
#[verifier::external_body]
pub(crate) fn lowercase(s: &str) -> (r: String)
    ensures
        r@ == lower_of(s@),
{
    s.to_lowercase()
}

proof fn lemma_trim_start_step(s: Seq<char>, i: int)
    requires
        0 <= i < s.len(),
        is_ws(s[i]),
    ensures
        trim_start(s.subrange(i, s.len() as int)) == trim_start(s.subrange(i + 1, s.len() as int)),
{
    let sub = s.subrange(i, s.len() as int);
    assert(sub.drop_first() =~= s.subrange(i + 1, s.len() as int));
}

proof fn lemma_trim_end_step(s: Seq<char>, j: int)
    requires
        0 < j <= s.len(),
        is_ws(s[j - 1]),
    ensures
        trim_end(s.subrange(0, j)) == trim_end(s.subrange(0, j - 1)),
{
    let sub = s.subrange(0, j);
    assert(sub.drop_last() =~= s.subrange(0, j - 1));
}

/// Index range `[a, b)` of the trimmed part of `s`.
pub fn trim_bounds(s: &[char]) -> (r: (usize, usize))
    ensures
        r.0 <= r.1 <= s@.len(),
        s@.subrange(r.0 as int, r.1 as int) == trim(s@),
        (r.0 == r.1) == is_blank(s@),
{
    let n = s.len();
    let mut a: usize = 0;
    assert(s@.subrange(0, n as int) =~= s@);
    while a < n && is_whitespace(s[a])
        invariant
            a <= n,
            n == s@.len(),
            trim_start(s@) == trim_start(s@.subrange(a as int, n as int)),
            forall|k: int| 0 <= k < a ==> is_ws(#[trigger] s@[k]),
        decreases n - a,
    {
        proof {
            lemma_trim_start_step(s@, a as int);
        }
        a = a + 1;
    }
    let ghost t = s@.subrange(a as int, n as int);
    assert(trim_start(s@) == t) by {
        if a < n {
            assert(!is_ws(t[0]));
        } else {
            assert(t.len() == 0);
        }
    }
    let mut b: usize = n;
    while b > a && is_whitespace(s[b - 1])
        invariant
            a <= b <= n,
            n == s@.len(),
            trim_start(s@) == t,
            t == s@.subrange(a as int, n as int),
            trim_end(t) == trim_end(s@.subrange(a as int, b as int)),
            forall|k: int| b <= k < n ==> is_ws(#[trigger] s@[k]),
        decreases b,
    {
        proof {
            let u = s@.subrange(a as int, n as int);
            lemma_trim_end_step(u, b - a);
            assert(u.subrange(0, b - a) =~= s@.subrange(a as int, b as int));
            assert(u.subrange(0, b - a - 1) =~= s@.subrange(a as int, b - 1));
        }
        b = b - 1;
    }
    let ghost w = s@.subrange(a as int, b as int);
    assert(trim_end(w) == w) by {
        if b > a {
            assert(!is_ws(w.last()));
        }
    }
    proof {
        if a == b {
            assert forall|i: int| 0 <= i < s@.len() implies is_ws(#[trigger] s@[i]) by {
                if i >= b {
                } else {
                }
            }
        } else {
            assert(!is_ws(s@[a as int]));
        }
    }
    (a, b)
}

/// The characters of `s` with leading and trailing whitespace removed.
pub fn trimmed(s: &[char]) -> (r: Vec<char>)
    ensures
        r@ == trim(s@),
{
    let (a, b) = trim_bounds(s);
    let mut out: Vec<char> = Vec::new();
    let mut i = a;
    while i < b
        invariant
            a <= i <= b <= s@.len(),
            out@ == s@.subrange(a as int, i as int),
        decreases b - i,
    {
        out.push(s[i]);
        i = i + 1;
        assert(out@ =~= s@.subrange(a as int, i as int));
    }
    out
}

/// Appends the characters of `src` to `dst`.
pub fn append_chars(dst: &mut Vec<char>, src: &[char])
    ensures
        final(dst)@ == old(dst)@ + src@,
{
    let mut i: usize = 0;
    while i < src.len()
        invariant
            i <= src@.len(),
            dst@ == old(dst)@ + src@.subrange(0, i as int),
        decreases src.len() - i,
    {
        dst.push(src[i]);
        i = i + 1;
        assert(dst@ =~= old(dst)@ + src@.subrange(0, i as int));
    }
    assert(src@.subrange(0, src@.len() as int) =~= src@);
}

/// Trimming never lengthens a sequence.
pub proof fn lemma_trim_len(s: Seq<char>)
    ensures
        trim(s).len() <= s.len(),
{
    lemma_trim_start_len(s);
    lemma_trim_end_len(trim_start(s));
}

proof fn lemma_trim_start_len(s: Seq<char>)
    ensures
        trim_start(s).len() <= s.len(),
    decreases s.len(),
{
    if s.len() > 0 && is_ws(s[0]) {
        lemma_trim_start_len(s.drop_first());
    }
}

proof fn lemma_trim_end_len(s: Seq<char>)
    ensures
        trim_end(s).len() <= s.len(),
    decreases s.len(),
{
    if s.len() > 0 && is_ws(s.last()) {
        lemma_trim_end_len(s.drop_last());
    }
}

/// Neither end of the sequence is whitespace.
pub open spec fn tight(s: Seq<char>) -> bool {
    s.len() == 0 || (!is_ws(s[0]) && !is_ws(s.last()))
}

proof fn lemma_trim_start_first(s: Seq<char>)
    ensures
        trim_start(s).len() > 0 ==> !is_ws(trim_start(s)[0]),
    decreases s.len(),
{
    if s.len() > 0 && is_ws(s[0]) {
        lemma_trim_start_first(s.drop_first());
    }
}

proof fn lemma_trim_end_ends(s: Seq<char>)
    ensures
        trim_end(s).len() > 0 ==> !is_ws(trim_end(s).last()) && trim_end(s)[0] == s[0],
    decreases s.len(),
{
    if s.len() > 0 && is_ws(s.last()) {
        lemma_trim_end_ends(s.drop_last());
    }
}

/// A trimmed sequence is tight.
pub proof fn lemma_trim_tight(s: Seq<char>)
    ensures
        tight(trim(s)),
{
    lemma_trim_start_first(s);
    lemma_trim_end_ends(trim_start(s));
}

/// Trimming leaves a tight sequence as it is.
pub proof fn lemma_tight_trim_id(s: Seq<char>)
    requires
        tight(s),
    ensures
        trim(s) == s,
{
}

/// The non-whitespace characters of `s`, in order.
pub open spec fn no_ws(s: Seq<char>) -> Seq<char>
    decreases s.len(),
{
    if s.len() == 0 {
        seq![]
    } else if is_ws(s.last()) {
        no_ws(s.drop_last())
    } else {
        no_ws(s.drop_last()).push(s.last())
    }
}

/// Dropping whitespace distributes over concatenation.
pub proof fn lemma_no_ws_add(a: Seq<char>, b: Seq<char>)
    ensures
        no_ws(a + b) == no_ws(a) + no_ws(b),
    decreases b.len(),
{
    if b.len() == 0 {
        assert(a + b =~= a);
        assert(no_ws(a) + no_ws(b) =~= no_ws(a));
    } else {
        lemma_no_ws_add(a, b.drop_last());
        assert((a + b).drop_last() =~= a + b.drop_last());
        assert((a + b).last() == b.last());
        if !is_ws(b.last()) {
            assert(no_ws(a) + no_ws(b.drop_last()).push(b.last()) =~= (no_ws(a) + no_ws(
                b.drop_last(),
            )).push(b.last()));
        }
    }
}

proof fn lemma_no_ws_trim_start(s: Seq<char>)
    ensures
        no_ws(trim_start(s)) == no_ws(s),
    decreases s.len(),
{
    if s.len() > 0 && is_ws(s[0]) {
        lemma_no_ws_trim_start(s.drop_first());
        assert(s =~= seq![s[0]] + s.drop_first());
        lemma_no_ws_add(seq![s[0]], s.drop_first());
        let one = seq![s[0]];
        assert(one.drop_last() =~= Seq::<char>::empty());
        assert(one.last() == s[0]);
        assert(no_ws(one.drop_last()) == Seq::<char>::empty());
        assert(no_ws(one) =~= Seq::<char>::empty());
        assert(Seq::<char>::empty() + no_ws(s.drop_first()) =~= no_ws(s.drop_first()));
    }
}

proof fn lemma_no_ws_trim_end(s: Seq<char>)
    ensures
        no_ws(trim_end(s)) == no_ws(s),
    decreases s.len(),
{
    if s.len() > 0 && is_ws(s.last()) {
        lemma_no_ws_trim_end(s.drop_last());
    }
}

/// Trimming drops whitespace only.
pub proof fn lemma_no_ws_trim(s: Seq<char>)
    ensures
        no_ws(trim(s)) == no_ws(s),
{
    lemma_no_ws_trim_start(s);
    lemma_no_ws_trim_end(trim_start(s));
}

/// A space adds no content.
pub proof fn lemma_no_ws_space(a: Seq<char>, b: Seq<char>)
    ensures
        no_ws(a.push(' ') + b) == no_ws(a) + no_ws(b),
{
    lemma_no_ws_add(a.push(' '), b);
    assert(a.push(' ').drop_last() =~= a);
}

/// Compares two strings character by character.
pub fn str_eq(a: &str, b: &str) -> (r: bool)
    ensures
        r == (a@ == b@),
{
    let x = chars_of(a);
    let y = chars_of(b);
    assert(x@ == a@ && y@ == b@);
    if x.len() != y.len() {
        return false;
    }
    let mut i: usize = 0;
    while i < x.len()
        invariant
            i <= x@.len(),
            x@.len() == y@.len(),
            x@ == a@,
            y@ == b@,
            forall|j: int| 0 <= j < i ==> x@[j] == y@[j],
        decreases x.len() - i,
    {
        if x[i] != y[i] {
            assert(x@[i as int] != y@[i as int]);
            return false;
        }
        i = i + 1;
    }
    assert(x@ =~= y@);
    true
}

/// `p` occurs in `s` at position `i`.
pub open spec fn occurs_at(s: Seq<char>, p: Seq<char>, i: int) -> bool {
    0 <= i && i + p.len() <= s.len() && s.subrange(i, i + p.len()) == p
}

/// The first position at or after `i` where `p` occurs in `s`.
pub open spec fn first_occurrence(s: Seq<char>, p: Seq<char>, i: int) -> Option<int>
    decreases s.len() - i,
{
    if i < 0 || i >= s.len() || i + p.len() > s.len() {
        None
    } else if occurs_at(s, p, i) {
        Some(i)
    } else {
        first_occurrence(s, p, i + 1)
    }
}

/// Whether `p` occurs in `s` at position `i`.
pub fn occurs_here(s: &[char], p: &[char], i: usize) -> (r: bool)
    requires
        i + p@.len() <= s@.len(),
    ensures
        r == occurs_at(s@, p@, i as int),
{
    let n = s.len();
    let mut j: usize = 0;
    while j < p.len()
        invariant
            j <= p@.len(),
            n == s@.len(),
            i + p@.len() <= s@.len(),
            forall|k: int| 0 <= k < j ==> s@[i + k] == p@[k],
        decreases p.len() - j,
    {
        if s[i + j] != p[j] {
            assert(s@.subrange(i as int, i + p@.len())[j as int] != p@[j as int]);
            return false;
        }
        j = j + 1;
    }
    assert(s@.subrange(i as int, i + p@.len()) =~= p@);
    true
}

/// The first position where `p` occurs in `s`.
pub fn find_first(s: &[char], p: &[char]) -> (r: Option<usize>)
    requires
        p@.len() > 0,
    ensures
        r matches Some(i) ==> first_occurrence(s@, p@, 0) == Some(i as int) && occurs_at(
            s@,
            p@,
            i as int,
        ),
        r is None ==> first_occurrence(s@, p@, 0) is None,
{
    let mut i: usize = 0;
    while i < s.len() && p.len() <= s.len() - i
        invariant
            i <= s@.len(),
            p@.len() > 0,
            first_occurrence(s@, p@, 0) == first_occurrence(s@, p@, i as int),
        decreases s.len() - i,
    {
        if occurs_here(s, p, i) {
            return Some(i);
        }
        i = i + 1;
    }
    None
}

/// The characters of `s` in `[a, b)`.
pub fn copy_range(s: &[char], a: usize, b: usize) -> (r: Vec<char>)
    requires
        a <= b <= s@.len(),
    ensures
        r@ == s@.subrange(a as int, b as int),
{
    let mut out: Vec<char> = Vec::new();
    let mut i = a;
    while i < b
        invariant
            a <= i <= b <= s@.len(),
            out@ == s@.subrange(a as int, i as int),
        decreases b - i,
    {
        out.push(s[i]);
        i = i + 1;
        assert(out@ =~= s@.subrange(a as int, i as int));
    }
    out
}

} // verus!
