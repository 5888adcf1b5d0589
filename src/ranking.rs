//! Ranking of scored candidates: top-K selection and the per-file cap.
//!
//! A candidate is a pair `(score, position)`: `score` is an order-preserving integer key of
//! the similarity (a larger key is a better match) and `position` says which entry it stands
//! for. Selection runs over the candidate list with no index beside it.
use vstd::prelude::*;
use vstd::multiset::Multiset;
use crate::chunker::views_of;

verus! {

/// A scored candidate.
pub type Scored = (u32, usize);

/// Position of the first candidate with the largest score.
pub open spec fn first_max(s: Seq<Scored>) -> int
    decreases s.len(),
{
    if s.len() <= 1 {
        0
    } else {
        let m = first_max(s.drop_last());
        if s.last().0 > s[m].0 {
            s.len() - 1
        } else {
            m
        }
    }
}

/// The candidates by descending score; among equal scores, in input order.
pub open spec fn sort_desc(s: Seq<Scored>) -> Seq<Scored>
    decreases s.len(),
{
    if s.len() == 0 {
        seq![]
    } else {
        let m = first_max(s);
        if 0 <= m < s.len() {
            seq![s[m]] + sort_desc(s.remove(m))
        } else {
            seq![]
        }
    }
}

/// The scores never increase along the sequence.
pub open spec fn is_desc(s: Seq<Scored>) -> bool {
    forall|i: int, j: int| 0 <= i < j < s.len() ==> s[i].0 >= s[j].0
}

proof fn lemma_first_max(s: Seq<Scored>)
    requires
        s.len() > 0,
    ensures
        0 <= first_max(s) < s.len(),
        forall|i: int| 0 <= i < s.len() ==> (#[trigger] s[i]).0 <= s[first_max(s)].0,
    decreases s.len(),
{
    if s.len() > 1 {
        let d = s.drop_last();
        lemma_first_max(d);
        assert forall|i: int| 0 <= i < s.len() implies (#[trigger] s[i]).0 <= s[first_max(s)].0 by {
            if i < s.len() - 1 {
                assert(s[i] == d[i]);
            }
        }
    }
}

/// The sorted sequence has the same length and the same elements.
pub proof fn lemma_sort_desc_perm(s: Seq<Scored>)
    ensures
        sort_desc(s).len() == s.len(),
        sort_desc(s).to_multiset() == s.to_multiset(),
    decreases s.len(),
{
    broadcast use vstd::seq_lib::group_to_multiset_ensures;
    broadcast use vstd::multiset::group_multiset_axioms;

    if s.len() > 0 {
        lemma_first_max(s);
        let m = first_max(s);
        lemma_sort_desc_perm(s.remove(m));
        let r = sort_desc(s.remove(m));
        vstd::seq_lib::lemma_multiset_commutative(seq![s[m]], r);
        assert(seq![s[m]].to_multiset() =~= Multiset::empty().insert(s[m])) by {
            assert(seq![s[m]] =~= Seq::<Scored>::empty().push(s[m]));
        }
        assert(s.to_multiset() =~= s.remove(m).to_multiset().insert(s[m]));
    }
}

/// Sorting yields descending scores.
pub proof fn lemma_sort_desc_sorted(s: Seq<Scored>)
    ensures
        is_desc(sort_desc(s)),
    decreases s.len(),
{
    broadcast use vstd::seq_lib::group_to_multiset_ensures;

    if s.len() > 0 {
        lemma_first_max(s);
        let m = first_max(s);
        let rest = s.remove(m);
        lemma_sort_desc_sorted(rest);
        lemma_sort_desc_perm(rest);
        let r = sort_desc(rest);
        let out = seq![s[m]] + r;
        assert forall|i: int, j: int| 0 <= i < j < out.len() implies out[i].0 >= out[j].0 by {
            if i == 0 {
                assert(out[j] == r[j - 1]);
                assert(r.to_multiset().count(r[j - 1]) > 0);
                assert(rest.contains(r[j - 1]));
                let k = choose|k: int| 0 <= k < rest.len() && rest[k] == r[j - 1];
                assert(rest[k] == s[if k < m { k } else { k + 1 }]);
            } else {
                assert(out[i] == r[i - 1] && out[j] == r[j - 1]);
            }
        }
    }
}

fn first_max_exec(s: &Vec<Scored>) -> (r: usize)
    requires
        s@.len() > 0,
    ensures
        r == first_max(s@),
        r < s@.len(),
{
    let mut m: usize = 0;
    let mut i: usize = 1;
    proof {
        assert(s@.take(1).len() == 1);
    }
    while i < s.len()
        invariant
            1 <= i <= s@.len(),
            m < i,
            m == first_max(s@.take(i as int)),
        decreases s.len() - i,
    {
        proof {
            let t = s@.take(i + 1);
            assert(t.drop_last() =~= s@.take(i as int));
            assert(t[m as int] == s@[m as int]);
        }
        if s[i].0 > s[m].0 {
            m = i;
        }
        i = i + 1;
    }
    assert(s@.take(i as int) =~= s@);
    m
}

/// The `k` best candidates, best first; among equal scores the earlier candidate comes first.
pub fn top_k(items: &Vec<Scored>, k: usize) -> (r: Vec<Scored>)
    ensures
        r@ == sort_desc(items@).take(if k <= items@.len() { k as int } else { items@.len() as int }),
        r@.len() <= k,
        is_desc(r@),
{
    let mut pool: Vec<Scored> = Vec::new();
    let mut c: usize = 0;
    while c < items.len()
        invariant
            c <= items@.len(),
            pool@ == items@.take(c as int),
        decreases items.len() - c,
    {
        pool.push(items[c]);
        c = c + 1;
        assert(pool@ =~= items@.take(c as int));
    }
    assert(items@.take(c as int) =~= items@);
    let mut out: Vec<Scored> = Vec::new();
    proof {
        lemma_sort_desc_perm(items@);
        assert(out@ + sort_desc(pool@) =~= sort_desc(items@));
    }
    while out.len() < k && pool.len() > 0
        invariant
            out@ + sort_desc(pool@) == sort_desc(items@),
            out@.len() + pool@.len() == items@.len(),
            out@.len() <= k,
        decreases pool.len(),
    {
        let m = first_max_exec(&pool);
        let ghost before = pool@;
        let x = pool[m];
        pool.remove(m);
        out.push(x);
        proof {
            assert(sort_desc(before) == seq![before[m as int]] + sort_desc(before.remove(m as int)));
            assert(pool@ == before.remove(m as int));
            assert(out@ + sort_desc(pool@) =~= out@.drop_last() + sort_desc(before));
        }
    }
    proof {
        lemma_sort_desc_perm(pool@);
        lemma_sort_desc_sorted(items@);
        let n = if k <= items@.len() { k as int } else { items@.len() as int };
        assert(out@ =~= sort_desc(items@).take(n));
    }
    out
}

/// Every candidate names an entry whose file is known.
pub open spec fn positions_valid(s: Seq<Scored>, files_len: int) -> bool {
    forall|i: int| 0 <= i < s.len() ==> (#[trigger] s[i]).1 < files_len
}

/// The candidate belongs to file `f`.
pub open spec fn in_file(files: Seq<Seq<char>>, f: Seq<char>) -> spec_fn(Scored) -> bool {
    |x: Scored| files[x.1 as int] == f
}

/// Number of kept candidates that belong to file `f`.
pub open spec fn file_count(kept: Seq<Scored>, files: Seq<Seq<char>>, f: Seq<char>) -> nat {
    kept.filter(in_file(files, f)).len()
}

/// The candidates kept when each file may contribute at most `n`, first come first kept.
pub open spec fn cap_pass(s: Seq<Scored>, files: Seq<Seq<char>>, n: nat) -> Seq<Scored>
    decreases s.len(),
{
    if s.len() == 0 {
        seq![]
    } else {
        let k = cap_pass(s.drop_last(), files, n);
        let x = s.last();
        if file_count(k, files, files[x.1 as int]) < n {
            k.push(x)
        } else {
            k
        }
    }
}

/// The final ranking: candidates by descending score, at most `per_file` from each file,
/// at most `limit` in all.
pub open spec fn ranked(items: Seq<Scored>, files: Seq<Seq<char>>, per_file: nat, limit: nat) -> Seq<
    Scored,
> {
    let c = cap_pass(sort_desc(items), files, per_file);
    c.take(if limit <= c.len() { limit as int } else { c.len() as int })
}

fn count_file(kept: &Vec<Scored>, files: &Vec<String>, f: &str) -> (r: usize)
    requires
        positions_valid(kept@, files@.len() as int),
    ensures
        r == file_count(kept@, views_of(files@), f@),
{
    let ghost fv = views_of(files@);
    let mut n: usize = 0;
    let mut i: usize = 0;
    assert(kept@.take(0) =~= seq![]);
    while i < kept.len()
        invariant
            i <= kept@.len(),
            positions_valid(kept@, files@.len() as int),
            fv == views_of(files@),
            n == file_count(kept@.take(i as int), fv, f@),
            n <= i,
        decreases kept.len() - i,
    {
        proof {
            let t = kept@.take(i + 1);
            assert(t =~= kept@.take(i as int).push(kept@[i as int]));
            kept@.take(i as int).lemma_filter_push(kept@[i as int], in_file(fv, f@));
        }
        let p = kept[i].1;
        if crate::text::str_eq(files[p].as_str(), f) {
            n = n + 1;
        }
        i = i + 1;
    }
    assert(kept@.take(i as int) =~= kept@);
    n
}

proof fn lemma_sort_desc_positions(s: Seq<Scored>, files_len: int)
    requires
        positions_valid(s, files_len),
    ensures
        positions_valid(sort_desc(s), files_len),
{
    broadcast use vstd::seq_lib::group_to_multiset_ensures;

    lemma_sort_desc_perm(s);
    assert forall|i: int| 0 <= i < sort_desc(s).len() implies (#[trigger] sort_desc(s)[i]).1
        < files_len by {
        assert(sort_desc(s).to_multiset().count(sort_desc(s)[i]) > 0);
        assert(s.contains(sort_desc(s)[i]));
    }
}

/// Ranks scored candidates: best first, at most `per_file` from each file (`files[p]` is the
/// file of the entry at position `p`), at most `limit` in all.
pub fn rank_results(items: &Vec<Scored>, files: &Vec<String>, per_file: usize, limit: usize) -> (r:
    Vec<Scored>)
    requires
        positions_valid(items@, files@.len() as int),
    ensures
        r@ == ranked(items@, views_of(files@), per_file as nat, limit as nat),
{
    let sorted = top_k(items, items.len());
    proof {
        lemma_sort_desc_perm(items@);
        assert(sorted@ =~= sort_desc(items@));
        lemma_sort_desc_positions(items@, files@.len() as int);
    }
    let ghost fv = views_of(files@);
    let mut kept: Vec<Scored> = Vec::new();
    let mut i: usize = 0;
    assert(sorted@.take(0) =~= seq![]);
    while i < sorted.len()
        invariant
            i <= sorted@.len(),
            sorted@ == sort_desc(items@),
            positions_valid(sorted@, files@.len() as int),
            positions_valid(kept@, files@.len() as int),
            fv == views_of(files@),
            kept@ == cap_pass(sorted@.take(i as int), fv, per_file as nat),
        decreases sorted.len() - i,
    {
        assert(sorted@.take(i + 1).drop_last() =~= sorted@.take(i as int));
        let x = sorted[i];
        let c = count_file(&kept, files, files[x.1].as_str());
        if c < per_file {
            kept.push(x);
        }
        i = i + 1;
    }
    assert(sorted@.take(i as int) =~= sorted@);
    kept.truncate(limit);
    proof {
        let c = cap_pass(sort_desc(items@), fv, per_file as nat);
        if limit <= c.len() {
            assert(kept@ =~= c.take(limit as int));
        } else {
            assert(kept@ =~= c.take(c.len() as int));
        }
    }
    kept
}

proof fn lemma_cap_pass_members(s: Seq<Scored>, files: Seq<Seq<char>>, n: nat)
    ensures
        forall|i: int|
            0 <= i < cap_pass(s, files, n).len() ==> s.contains(#[trigger] cap_pass(s, files, n)[i]),
        cap_pass(s, files, n).len() <= s.len(),
    decreases s.len(),
{
    if s.len() > 0 {
        let d = s.drop_last();
        lemma_cap_pass_members(d, files, n);
        let k = cap_pass(d, files, n);
        assert forall|i: int| 0 <= i < cap_pass(s, files, n).len() implies s.contains(
            #[trigger] cap_pass(s, files, n)[i],
        ) by {
            if i < k.len() {
                let j = choose|j: int| 0 <= j < d.len() && d[j] == k[i];
                assert(s[j] == d[j]);
            } else {
                assert(s[s.len() - 1] == s.last());
            }
        }
    }
}

/// The ranking is in descending score order and no file contributes more than `per_file`
/// candidates.
pub proof fn lemma_ranked_properties(
    items: Seq<Scored>,
    files: Seq<Seq<char>>,
    per_file: nat,
    limit: nat,
    f: Seq<char>,
)
    ensures
        is_desc(ranked(items, files, per_file, limit)),
        ranked(items, files, per_file, limit).len() <= limit,
        file_count(ranked(items, files, per_file, limit), files, f) <= per_file,
{
    let s = sort_desc(items);
    lemma_sort_desc_sorted(items);
    lemma_cap_pass_sorted(s, files, per_file, f);
    let c = cap_pass(s, files, per_file);
    let n = if limit <= c.len() { limit as int } else { c.len() as int };
    let r = c.take(n);
    assert(c =~= r + c.skip(n));
    Seq::filter_distributes_over_add(r, c.skip(n), in_file(files, f));
}

proof fn lemma_cap_pass_sorted(s: Seq<Scored>, files: Seq<Seq<char>>, n: nat, f: Seq<char>)
    requires
        is_desc(s),
    ensures
        is_desc(cap_pass(s, files, n)),
        file_count(cap_pass(s, files, n), files, f) <= n,
    decreases s.len(),
{
    if s.len() > 0 {
        let d = s.drop_last();
        assert(is_desc(d));
        lemma_cap_pass_sorted(d, files, n, f);
        lemma_cap_pass_members(d, files, n);
        let k = cap_pass(d, files, n);
        let x = s.last();
        k.lemma_filter_push(x, in_file(files, f));
        if file_count(k, files, files[x.1 as int]) < n {
            let out = k.push(x);
            if files[x.1 as int] == f {
                assert(file_count(out, files, f) == file_count(k, files, f) + 1);
            } else {
                assert(file_count(out, files, f) == file_count(k, files, f));
            }
            assert forall|i: int, j: int| 0 <= i < j < out.len() implies out[i].0 >= out[j].0 by {
                if j == out.len() - 1 {
                    let m = choose|m: int| 0 <= m < d.len() && d[m] == k[i];
                    assert(s[m] == d[m]);
                } else {
                    assert(out[i] == k[i] && out[j] == k[j]);
                }
            }
        }
    }
}

} // verus!
