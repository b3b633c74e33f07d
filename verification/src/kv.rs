//! Sequences of key-value insertions and the maps they leave behind.
use vstd::prelude::*;

verus! {

broadcast use vstd::map_lib::group_map_union;

/// The map left by inserting the pairs of `s` in order: a later pair for the
/// same key replaces an earlier one.
pub open spec fn entries_map(s: Seq<(Seq<u8>, u64)>) -> Map<Seq<u8>, u64>
    decreases s.len(),
{
    if s.len() == 0 {
        Map::empty()
    } else {
        entries_map(s.drop_last()).insert(s.last().0, s.last().1)
    }
}

/// Inserting `a` and then `b` leaves the map of `a` overridden by that of `b`.
pub proof fn lemma_entries_map_concat(a: Seq<(Seq<u8>, u64)>, b: Seq<(Seq<u8>, u64)>)
    ensures
        entries_map(a + b) == entries_map(a).union_prefer_right(entries_map(b)),
    decreases b.len(),
{
    if b.len() == 0 {
        assert(a + b =~= a);
        assert(entries_map(a).union_prefer_right(entries_map(b)) =~= entries_map(a));
    } else {
        assert((a + b).drop_last() =~= a + b.drop_last());
        lemma_entries_map_concat(a, b.drop_last());
        assert(entries_map(a + b) =~= entries_map(a).union_prefer_right(entries_map(b)));
    }
}

/// A key is in the map exactly when some pair carries it.
pub proof fn lemma_entries_map_dom(s: Seq<(Seq<u8>, u64)>, k: Seq<u8>)
    ensures
        entries_map(s).contains_key(k) <==> exists|i: int| 0 <= i < s.len() && #[trigger] s[i].0 == k,
    decreases s.len(),
{
    if s.len() > 0 {
        lemma_entries_map_dom(s.drop_last(), k);
        if entries_map(s.drop_last()).contains_key(k) {
            let i = choose|i: int| 0 <= i < s.drop_last().len() && #[trigger] s.drop_last()[i].0 == k;
            assert(s[i].0 == k);
        }
        if exists|i: int| 0 <= i < s.len() && #[trigger] s[i].0 == k {
            let i = choose|i: int| 0 <= i < s.len() && #[trigger] s[i].0 == k;
            if i < s.len() - 1 {
                assert(s.drop_last()[i].0 == k);
            }
        }
    }
}

/// The map of a single pair.
pub proof fn lemma_entries_map_single(e: (Seq<u8>, u64))
    ensures
        entries_map(seq![e]) == Map::<Seq<u8>, u64>::empty().insert(e.0, e.1),
{
    assert(seq![e].drop_last() =~= Seq::<(Seq<u8>, u64)>::empty());
    assert(entries_map(seq![e].drop_last()) == Map::<Seq<u8>, u64>::empty());
    assert(seq![e].last() == e);
}

} // verus!
