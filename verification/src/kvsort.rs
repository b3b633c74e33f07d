//! Sorting key-value insertions into strictly increasing keys, a later
//! insertion of a key winning over an earlier one.
use vstd::prelude::*;

use crate::kv::{entries_map, lemma_entries_map_concat, lemma_entries_map_dom, lemma_entries_map_single};
use crate::order::{compare_bytes, lemma_lex_lt_asymmetric, lemma_lex_lt_transitive, lex_lt, Cmp};

verus! {

broadcast use vstd::map_lib::group_map_union;

/// The pairs of `e` at the positions listed in `idx`, in that order.
pub open spec fn picked(e: Seq<(Seq<u8>, u64)>, idx: Seq<usize>) -> Seq<(Seq<u8>, u64)> {
    Seq::new(idx.len(), |j: int| e[idx[j] as int])
}

/// The keys of `s` strictly increase.
pub open spec fn strictly_sorted(s: Seq<(Seq<u8>, u64)>) -> bool {
    forall|i: int, j: int| 0 <= i < j < s.len() ==> lex_lt(#[trigger] s[i].0, #[trigger] s[j].0)
}

/// The positions in `idx` all lie in `lo..hi`.
pub open spec fn within(idx: Seq<usize>, lo: int, hi: int) -> bool {
    forall|j: int| 0 <= j < idx.len() ==> lo <= #[trigger] idx[j] < hi
}

proof fn lemma_map_of_skip(s: Seq<(Seq<u8>, u64)>, i: int)
    requires
        0 <= i < s.len(),
    ensures
        entries_map(s.skip(i)) == Map::<Seq<u8>, u64>::empty().insert(s[i].0, s[i].1).union_prefer_right(
            entries_map(s.skip(i + 1)),
        ),
{
    assert(s.skip(i) =~= seq![s[i]] + s.skip(i + 1));
    lemma_entries_map_concat(seq![s[i]], s.skip(i + 1));
    lemma_entries_map_single(s[i]);
}

proof fn lemma_map_of_push(s: Seq<(Seq<u8>, u64)>, x: (Seq<u8>, u64))
    ensures
        entries_map(s.push(x)) == entries_map(s).insert(x.0, x.1),
{
    assert(s.push(x).drop_last() =~= s);
}

/// No key at or after position `i` of a sorted `s` is `k`, when `k` comes
/// before the key at `i`.
proof fn lemma_absent_after(s: Seq<(Seq<u8>, u64)>, i: int, k: Seq<u8>)
    requires
        strictly_sorted(s),
        0 <= i <= s.len(),
        i < s.len() ==> lex_lt(k, s[i].0),
    ensures
        !entries_map(s.skip(i)).contains_key(k),
{
    lemma_entries_map_dom(s.skip(i), k);
    assert forall|q: int| 0 <= q < s.skip(i).len() implies #[trigger] s.skip(i)[q].0 != k by {
        assert(s.skip(i)[q] == s[i + q]);
        if q > 0 {
            assert(lex_lt(s[i].0, s[i + q].0));
            lemma_lex_lt_transitive(k, s[i].0, s[i + q].0);
        }
        lemma_lex_lt_asymmetric(k, s[i + q].0);
    }
}

/// Every key at or after position `i` of a sorted `s` comes after `k`, when
/// the key at `i` does.
proof fn lemma_all_after(s: Seq<(Seq<u8>, u64)>, i: int, k: Seq<u8>)
    requires
        strictly_sorted(s),
        0 <= i < s.len(),
        lex_lt(k, s[i].0),
    ensures
        forall|q: int| i <= q < s.len() ==> lex_lt(k, #[trigger] s[q].0),
{
    assert forall|q: int| i <= q < s.len() implies lex_lt(k, #[trigger] s[q].0) by {
        if q > i {
            lemma_lex_lt_transitive(k, s[i].0, s[q].0);
        }
    }
}

/// Merges two sorted lists of positions into one, keeping for a key found in
/// both the position from `b`.
fn merge_sorted(
    keys: &Vec<Vec<u8>>,
    Ghost(e): Ghost<Seq<(Seq<u8>, u64)>>,
    a: &Vec<usize>,
    b: &Vec<usize>,
    Ghost(lo): Ghost<int>,
    Ghost(hi): Ghost<int>,
) -> (r: Vec<usize>)
    requires
        e.len() == keys@.len(),
        forall|i: int| 0 <= i < e.len() ==> (#[trigger] e[i]).0 == keys@[i]@,
        0 <= lo <= hi <= e.len(),
        within(a@, lo, hi),
        within(b@, lo, hi),
        strictly_sorted(picked(e, a@)),
        strictly_sorted(picked(e, b@)),
    ensures
        within(r@, lo, hi),
        strictly_sorted(picked(e, r@)),
        entries_map(picked(e, r@)) == entries_map(picked(e, a@)).union_prefer_right(
            entries_map(picked(e, b@)),
        ),
{
    let ghost pa = picked(e, a@);
    let ghost pb = picked(e, b@);
    let ghost target = entries_map(pa).union_prefer_right(entries_map(pb));
    let mut r: Vec<usize> = Vec::new();
    let mut i: usize = 0;
    let mut j: usize = 0;
    assert(pa.skip(0) =~= pa);
    assert(pb.skip(0) =~= pb);
    assert(entries_map(picked(e, r@)).union_prefer_right(target) =~= target);
    while i < a.len() || j < b.len()
        invariant
            e.len() == keys@.len(),
            forall|k: int| 0 <= k < e.len() ==> (#[trigger] e[k]).0 == keys@[k]@,
            0 <= lo <= hi <= e.len(),
            within(a@, lo, hi),
            within(b@, lo, hi),
            pa == picked(e, a@),
            pb == picked(e, b@),
            strictly_sorted(pa),
            strictly_sorted(pb),
            target == entries_map(pa).union_prefer_right(entries_map(pb)),
            i <= a@.len(),
            j <= b@.len(),
            within(r@, lo, hi),
            strictly_sorted(picked(e, r@)),
            r@.len() > 0 ==> forall|q: int|
                i <= q < pa.len() ==> lex_lt(picked(e, r@).last().0, #[trigger] pa[q].0),
            r@.len() > 0 ==> forall|q: int|
                j <= q < pb.len() ==> lex_lt(picked(e, r@).last().0, #[trigger] pb[q].0),
            entries_map(picked(e, r@)).union_prefer_right(
                entries_map(pa.skip(i as int)).union_prefer_right(entries_map(pb.skip(j as int))),
            ) == target,
        decreases a@.len() + b@.len() - i - j,
    {
        let ghost pr = picked(e, r@);
        let ghost mr = entries_map(pr);
        let ghost ma = entries_map(pa.skip(i as int));
        let ghost mb = entries_map(pb.skip(j as int));
        // 0: take from a, 1: take from b, 2: take from b and drop a's equal key
        let which: u8 = if i < a.len() && j < b.len() {
            match compare_bytes(keys[a[i]].as_slice(), keys[b[j]].as_slice()) {
                Cmp::Less => 0,
                Cmp::Greater => 1,
                Cmp::Equal => 2,
            }
        } else if i < a.len() {
            0
        } else {
            1
        };
        let x: usize = if which == 0 {
            a[i]
        } else {
            b[j]
        };
        let ghost ex = e[x as int];
        proof {
            if which == 0 {
                assert(ex == pa[i as int]);
                lemma_map_of_skip(pa, i as int);
                if j < b@.len() {
                    lemma_all_after(pb, j as int, ex.0);
                }
                assert forall|q: int| i + 1 <= q < pa.len() implies lex_lt(ex.0, #[trigger] pa[q].0) by {
                    assert(lex_lt(pa[i as int].0, pa[q].0));
                }
            } else {
                assert(ex == pb[j as int]);
                lemma_map_of_skip(pb, j as int);
                if which == 1 {
                    if i < a@.len() {
                        lemma_all_after(pa, i as int, ex.0);
                    }
                    lemma_absent_after(pa, i as int, ex.0);
                } else {
                    lemma_map_of_skip(pa, i as int);
                    assert(pa[i as int].0 == ex.0);
                    assert forall|q: int| i + 1 <= q < pa.len() implies lex_lt(ex.0, #[trigger] pa[q].0) by {
                        assert(lex_lt(pa[i as int].0, pa[q].0));
                    }
                    lemma_absent_after(pa, i + 1, ex.0);
                }
                assert forall|q: int| j + 1 <= q < pb.len() implies lex_lt(ex.0, #[trigger] pb[q].0) by {
                    assert(lex_lt(pb[j as int].0, pb[q].0));
                }
            }
            if r@.len() > 0 {
                assert(lex_lt(pr.last().0, ex.0));
            }
        }
        r.push(x);
        proof {
            assert(picked(e, r@) =~= pr.push(ex));
            lemma_map_of_push(pr, ex);
            assert forall|p: int, q: int|
                0 <= p < q < picked(e, r@).len() implies lex_lt(
                #[trigger] picked(e, r@)[p].0,
                #[trigger] picked(e, r@)[q].0,
            ) by {
                if q == pr.len() && p < pr.len() - 1 {
                    lemma_lex_lt_transitive(pr[p].0, pr.last().0, ex.0);
                }
            }
        }
        if which == 0 {
            i = i + 1;
            proof {
                assert(mr.insert(ex.0, ex.1).union_prefer_right(
                    entries_map(pa.skip(i as int)).union_prefer_right(mb),
                ) =~= mr.union_prefer_right(ma.union_prefer_right(mb)));
            }
        } else if which == 1 {
            j = j + 1;
            proof {
                assert(mr.insert(ex.0, ex.1).union_prefer_right(
                    ma.union_prefer_right(entries_map(pb.skip(j as int))),
                ) =~= mr.union_prefer_right(ma.union_prefer_right(mb)));
            }
        } else {
            i = i + 1;
            j = j + 1;
            proof {
                assert(mr.insert(ex.0, ex.1).union_prefer_right(
                    entries_map(pa.skip(i as int)).union_prefer_right(entries_map(pb.skip(j as int))),
                ) =~= mr.union_prefer_right(ma.union_prefer_right(mb)));
            }
        }
    }
    proof {
        assert(pa.skip(i as int) =~= Seq::<(Seq<u8>, u64)>::empty());
        assert(pb.skip(j as int) =~= Seq::<(Seq<u8>, u64)>::empty());
        assert(entries_map(picked(e, r@)).union_prefer_right(
            entries_map(pa.skip(i as int)).union_prefer_right(entries_map(pb.skip(j as int))),
        ) =~= entries_map(picked(e, r@)));
    }
    r
}

/// The positions `lo..hi` of the pairs `e`, sorted by strictly increasing
/// key, one position per key: the last one at which the key occurs.
pub fn sorted_union(
    keys: &Vec<Vec<u8>>,
    Ghost(e): Ghost<Seq<(Seq<u8>, u64)>>,
    lo: usize,
    hi: usize,
) -> (r: Vec<usize>)
    requires
        e.len() == keys@.len(),
        forall|i: int| 0 <= i < e.len() ==> (#[trigger] e[i]).0 == keys@[i]@,
        lo <= hi <= e.len(),
    ensures
        within(r@, lo as int, hi as int),
        strictly_sorted(picked(e, r@)),
        entries_map(picked(e, r@)) == entries_map(e.subrange(lo as int, hi as int)),
    decreases hi - lo,
{
    if hi - lo == 0 {
        let r: Vec<usize> = Vec::new();
        assert(picked(e, r@) =~= e.subrange(lo as int, hi as int));
        r
    } else if hi - lo == 1 {
        let mut r: Vec<usize> = Vec::new();
        r.push(lo);
        assert(picked(e, r@) =~= e.subrange(lo as int, hi as int));
        r
    } else {
        let mid = lo + (hi - lo) / 2;
        let left = sorted_union(keys, Ghost(e), lo, mid);
        let right = sorted_union(keys, Ghost(e), mid, hi);
        let r = merge_sorted(keys, Ghost(e), &left, &right, Ghost(lo as int), Ghost(hi as int));
        proof {
            assert(e.subrange(lo as int, hi as int) =~= e.subrange(lo as int, mid as int) + e.subrange(
                mid as int,
                hi as int,
            ));
            lemma_entries_map_concat(e.subrange(lo as int, mid as int), e.subrange(mid as int, hi as int));
        }
        r
    }
}

} // verus!
