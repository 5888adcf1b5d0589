//! Keys of the vector table: `"<file_path>:<chunk_index>"`, and the scans over them that
//! run before any value is decoded.
use vstd::prelude::*;
use crate::chunker::views_of;
use crate::text::copy_range;
use crate::parser::{last_index, last_index_of};
use crate::text::{chars_of, string_of};

verus! {

/// The decimal digit for `d < 10`.
pub open spec fn digit(d: nat) -> char {
    if d == 0 { '0' } else if d == 1 { '1' } else if d == 2 { '2' } else if d == 3 { '3' }
    else if d == 4 { '4' } else if d == 5 { '5' } else if d == 6 { '6' } else if d == 7 { '7' }
    else if d == 8 { '8' } else { '9' }
}

/// The decimal numeral of `n`.
pub open spec fn decimal(n: nat) -> Seq<char>
    decreases n,
{
    if n < 10 {
        seq![digit(n)]
    } else {
        decimal(n / 10).push(digit(n % 10))
    }
}

/// The key of chunk `index` of file `file`.
pub open spec fn chunk_key(file: Seq<char>, index: nat) -> Seq<char> {
    file.push(':') + decimal(index)
}

/// The key belongs to file `file`: it starts with `file` and a colon.
pub open spec fn key_in_file(key: Seq<char>, file: Seq<char>) -> bool {
    file.len() < key.len() && key.take(file.len() as int) == file && key[file.len() as int] == ':'
}

/// The file part of a key: what comes before its last colon (the whole key when it has
/// none). The chunk index after that colon is a decimal numeral, so a path may hold colons.
pub open spec fn key_file(key: Seq<char>) -> Seq<char> {
    let i = last_index_of(key, ':');
    if i >= 0 {
        key.take(i)
    } else {
        key
    }
}

fn digit_char(d: usize) -> (r: char)
    requires
        d < 10,
    ensures
        r == digit(d as nat),
{
    if d == 0 { '0' } else if d == 1 { '1' } else if d == 2 { '2' } else if d == 3 { '3' }
    else if d == 4 { '4' } else if d == 5 { '5' } else if d == 6 { '6' } else if d == 7 { '7' }
    else if d == 8 { '8' } else { '9' }
}

fn push_decimal(n: usize, out: &mut Vec<char>)
    ensures
        final(out)@ == old(out)@ + decimal(n as nat),
    decreases n,
{
    if n >= 10 {
        push_decimal(n / 10, out);
        out.push(digit_char(n % 10));
        assert(decimal(n as nat) == decimal((n / 10) as nat).push(digit((n % 10) as nat)));
        assert(final(out)@ =~= old(out)@ + decimal(n as nat));
    } else {
        out.push(digit_char(n));
        assert(final(out)@ =~= old(out)@ + decimal(n as nat));
    }
}

/// The key of chunk `chunk_index` of file `file_path`.
pub fn chunk_id(file_path: &str, chunk_index: usize) -> (r: String)
    ensures
        r@ == chunk_key(file_path@, chunk_index as nat),
{
    let mut out = chars_of(file_path);
    out.push(':');
    push_decimal(chunk_index, &mut out);
    string_of(out.as_slice())
}

/// Whether `key` belongs to file `file_path`.
pub fn key_belongs_to(key: &str, file_path: &str) -> (r: bool)
    ensures
        r == key_in_file(key@, file_path@),
{
    let k = chars_of(key);
    let f = chars_of(file_path);
    if f.len() >= k.len() {
        return false;
    }
    let mut i: usize = 0;
    while i < f.len()
        invariant
            i <= f@.len() < k@.len(),
            k@ == key@,
            f@ == file_path@,
            forall|j: int| 0 <= j < i ==> k@[j] == f@[j],
        decreases f.len() - i,
    {
        if k[i] != f[i] {
            assert(k@.take(f@.len() as int)[i as int] != f@[i as int]);
            return false;
        }
        i = i + 1;
    }
    assert(k@.take(f@.len() as int) =~= f@);
    k[f.len()] == ':'
}

/// The file part of a key.
pub fn key_file_part(key: &str) -> (r: String)
    ensures
        r@ == key_file(key@),
{
    let k = chars_of(key);
    match last_index(k.as_slice(), ':') {
        Some(i) => {
            let part = copy_range(k.as_slice(), 0, i);
            assert(part@ =~= k@.take(i as int));
            string_of(part.as_slice())
        },
        None => string_of(k.as_slice()),
    }
}

/// The file part of a chunk key is the file's path.
pub proof fn lemma_chunk_key_file(file: Seq<char>, index: nat)
    ensures
        key_file(chunk_key(file, index)) == file,
{
    let k = chunk_key(file, index);
    lemma_decimal_digits(index);
    lemma_last_colon(file, decimal(index));
    assert(k.take(file.len() as int) =~= file);
}

proof fn lemma_decimal_digits(n: nat)
    ensures
        !decimal(n).contains(':'),
        decimal(n).len() > 0,
    decreases n,
{
    if n >= 10 {
        lemma_decimal_digits(n / 10);
        let d = decimal(n / 10);
        assert forall|i: int| 0 <= i < decimal(n).len() implies decimal(n)[i] != ':' by {
            if i < d.len() {
                assert(decimal(n)[i] == d[i]);
            }
        }
    }
}

proof fn lemma_last_colon(file: Seq<char>, tail: Seq<char>)
    requires
        !tail.contains(':'),
    ensures
        last_index_of(file.push(':') + tail, ':') == file.len(),
    decreases tail.len(),
{
    if tail.len() == 0 {
        assert(file.push(':') + tail =~= file.push(':'));
    } else {
        assert((file.push(':') + tail).drop_last() =~= file.push(':') + tail.drop_last());
        assert(tail.last() == tail[tail.len() - 1]);
        lemma_last_colon(file, tail.drop_last());
    }
}

/// The keys that belong to a file, in order.
pub open spec fn keys_of_file(keys: Seq<Seq<char>>, file: Seq<char>) -> Seq<Seq<char>> {
    keys.filter(|k: Seq<char>| key_in_file(k, file))
}

/// The keys of the table that belong to file `file_path`, in table order.
pub fn select_file_keys(keys: &Vec<String>, file_path: &str) -> (r: Vec<String>)
    ensures
        views_of(r@) == keys_of_file(views_of(keys@), file_path@),
{
    let mut out: Vec<String> = Vec::new();
    let mut i: usize = 0;
    assert(views_of(keys@).take(0) =~= seq![]);
    assert(views_of(out@) =~= seq![]);
    while i < keys.len()
        invariant
            i <= keys@.len(),
            views_of(out@) == keys_of_file(views_of(keys@).take(i as int), file_path@),
        decreases keys.len() - i,
    {
        proof {
            let pre = views_of(keys@).take(i + 1);
            assert(pre.drop_last() =~= views_of(keys@).take(i as int));
            assert(pre.last() == keys@[i as int]@);
            assert(pre =~= pre.drop_last().push(pre.last()));
            pre.drop_last().lemma_filter_push(pre.last(), |k: Seq<char>| key_in_file(k, file_path@));
        }
        if key_belongs_to(keys[i].as_str(), file_path) {
            let k = string_of(chars_of(keys[i].as_str()).as_slice());
            proof {
                assert(views_of(out@.push(k)) =~= views_of(out@).push(k@));
            }
            out.push(k);
        }
        i = i + 1;
    }
    assert(views_of(keys@).take(i as int) =~= views_of(keys@));
    out
}

/// The distinct file parts of the keys.
pub open spec fn files_of_keys(keys: Seq<Seq<char>>) -> Set<Seq<char>> {
    keys.map_values(|k: Seq<char>| key_file(k)).to_set()
}

/// Number of distinct files that the keys belong to.
pub fn count_files(keys: &Vec<String>) -> (r: usize)
    ensures
        r == files_of_keys(views_of(keys@)).len(),
{
    let mut seen: Vec<Vec<char>> = Vec::new();
    let mut i: usize = 0;
    proof {
        assert(views_of(keys@).take(0).map_values(|k: Seq<char>| key_file(k)) =~= seq![]);
        assert(crate::chunker::seqs_of(seen@) =~= seq![]);
    }
    while i < keys.len()
        invariant
            i <= keys@.len(),
            seen@.len() <= i,
            crate::chunker::seqs_of(seen@).no_duplicates(),
            crate::chunker::seqs_of(seen@).to_set() == views_of(keys@).take(i as int).map_values(
                |k: Seq<char>| key_file(k),
            ).to_set(),
        decreases keys.len() - i,
    {
        let part = chars_of(key_file_part(keys[i].as_str()).as_str());
        let ghost s = crate::chunker::seqs_of(seen@);
        let mut found = false;
        let mut j: usize = 0;
        while j < seen.len()
            invariant
                j <= seen@.len(),
                s == crate::chunker::seqs_of(seen@),
                found ==> s.contains(part@),
                !found ==> forall|m: int| 0 <= m < j ==> s[m] != part@,
            decreases seen.len() - j,
        {
            if !found && vec_eq(&seen[j], &part) {
                found = true;
                assert(s[j as int] == part@);
            }
            j = j + 1;
        }
        proof {
            let pre = views_of(keys@).take(i + 1).map_values(|k: Seq<char>| key_file(k));
            let old_pre = views_of(keys@).take(i as int).map_values(|k: Seq<char>| key_file(k));
            assert(pre =~= old_pre.push(part@));
            old_pre.lemma_push_to_set_commute(part@);
        }
        if !found {
            proof {
                assert(crate::chunker::seqs_of(seen@.push(part)) =~= s.push(part@));
                s.lemma_push_to_set_commute(part@);
                assert(!s.contains(part@));
            }
            seen.push(part);
        } else {
            proof {
                assert(s.to_set().insert(part@) =~= s.to_set());
            }
        }
        i = i + 1;
    }
    proof {
        assert(views_of(keys@).take(i as int) =~= views_of(keys@));
        crate::chunker::seqs_of(seen@).unique_seq_to_set();
    }
    seen.len()
}

/// Whether two character vectors are equal.
pub fn vec_eq(a: &Vec<char>, b: &Vec<char>) -> (r: bool)
    ensures
        r == (a@ == b@),
{
    if a.len() != b.len() {
        return false;
    }
    let mut i: usize = 0;
    while i < a.len()
        invariant
            i <= a@.len(),
            a@.len() == b@.len(),
            forall|j: int| 0 <= j < i ==> a@[j] == b@[j],
        decreases a.len() - i,
    {
        if a[i] != b[i] {
            assert(a@[i as int] != b@[i as int]);
            return false;
        }
        i = i + 1;
    }
    assert(a@ =~= b@);
    true
}

/// Removing a file's keys leaves none of them, and never touches another file's chunk keys,
/// as long as neither path holds a colon.
pub proof fn lemma_remove_file_isolated(
    keys: Seq<Seq<char>>,
    a: Seq<char>,
    b: Seq<char>,
    j: nat,
)
    requires
        a != b,
        !a.contains(':'),
        !b.contains(':'),
    ensures
        key_in_file(chunk_key(a, j), a),
        !key_in_file(chunk_key(b, j), a),
        keys_of_file(keys.filter(|k: Seq<char>| !key_in_file(k, a)), a).len() == 0,
        keys.contains(chunk_key(b, j)) ==> keys.filter(|k: Seq<char>| !key_in_file(k, a)).contains(
            chunk_key(b, j),
        ),
{
    let ka = chunk_key(a, j);
    assert(ka.take(a.len() as int) =~= a);
    assert(ka[a.len() as int] == ':');
    let kb = chunk_key(b, j);
    if key_in_file(kb, a) {
        if a.len() < b.len() {
            assert(kb[a.len() as int] == b[a.len() as int]);
            assert(b.contains(':'));
        } else if a.len() == b.len() {
            assert(kb.take(a.len() as int) =~= b);
        } else {
            assert(kb[b.len() as int] == ':');
            assert(kb.take(a.len() as int)[b.len() as int] == a[b.len() as int]);
            assert(a.contains(':'));
        }
    }
    let keep = |k: Seq<char>| !key_in_file(k, a);
    let rest = keys.filter(keep);
    let left = keys_of_file(rest, a);
    if left.len() > 0 {
        rest.lemma_filter_pred(|k: Seq<char>| key_in_file(k, a), 0);
        rest.lemma_filter_contains_rev(|k: Seq<char>| key_in_file(k, a), left[0]);
        let m = choose|m: int| 0 <= m < rest.len() && rest[m] == left[0];
        keys.lemma_filter_pred(keep, m);
    }
    if keys.contains(kb) {
        let idx = choose|i: int| 0 <= i < keys.len() && keys[i] == kb;
        keys.lemma_filter_contains(keep, idx);
    }
}

} // verus!
