//! The domain map: domains, each with a value, looked up by longest matching
//! parent domain, stored as a finite state transducer over reversed domains.
use vstd::prelude::*;

use fst::raw::{Builder, Fst};

use crate::fstmap::{
    builder_contents, builder_insert, builder_into_fst, builder_last_key, builder_memory,
    fst_contents, fst_final, fst_node, fst_root, fst_step,
};
use crate::kv::entries_map;
use crate::kvsort::{picked, sorted_union, strictly_sorted, within};
use crate::order::lex_lt;
use crate::text::{line_end, newline_pos, trim_ascii, trim_bounds};
use crate::{DummyError, DummyResult};

verus! {

broadcast use vstd::map_lib::group_map_union;

/// The longest domain a list file may hold.
pub const MAX_FQDN_LEN: usize = 253;

pub const HASH: u8 = 0x23;

pub const DOT: u8 = 0x2e;

/// What one line of a domain-list file contributes: nothing for a blank or
/// comment line, a line without the expected prefix, or a domain longer than
/// `MAX_FQDN_LEN`; else the trimmed line without its prefix, with value `v`.
pub open spec fn line_entry(line: Seq<u8>, prefix: Seq<u8>, v: u64) -> Seq<(Seq<u8>, u64)> {
    let t = trim_ascii(line);
    if t.len() == 0 || t[0] == HASH {
        seq![]
    } else if !(prefix.len() <= t.len() && t.take(prefix.len() as int) == prefix) {
        seq![]
    } else if t.len() - prefix.len() > MAX_FQDN_LEN {
        seq![]
    } else {
        seq![(t.skip(prefix.len() as int), v)]
    }
}

/// What a domain-list file contributes, line by line (lines end at line
/// feeds).
pub open spec fn file_entries(s: Seq<u8>, prefix: Seq<u8>, v: u64) -> Seq<(Seq<u8>, u64)>
    decreases s.len(),
{
    let k = newline_pos(s);
    if k >= s.len() {
        line_entry(s, prefix, v)
    } else {
        line_entry(s.take(k as int), prefix, v) + file_entries(s.skip((k + 1) as int), prefix, v)
    }
}

/// What a list of domains contributes: each domain as it is, with value `v`.
pub open spec fn list_entries(list: Seq<Seq<u8>>, v: u64) -> Seq<(Seq<u8>, u64)> {
    list.map_values(|d: Seq<u8>| (d, v))
}

/// The same pairs with their domains reversed.
pub open spec fn reversed_keys(s: Seq<(Seq<u8>, u64)>) -> Seq<(Seq<u8>, u64)> {
    s.map_values(|e: (Seq<u8>, u64)| (e.0.reverse(), e.1))
}

/// The domain at position `i` of `b` starts a label: it is the start of `b`
/// or follows a dot.
pub open spec fn is_label_start(b: Seq<u8>, i: int) -> bool {
    i == 0 || b[i - 1] == DOT
}

/// The value of the longest suffix of `b` that starts a label at `i` or
/// later and is a domain of `m`.
pub open spec fn suffix_match(m: Map<Seq<u8>, u64>, b: Seq<u8>, i: int) -> Option<u64>
    decreases b.len() - i,
{
    if i < 0 || i >= b.len() {
        None
    } else if is_label_start(b, i) && m.contains_key(b.skip(i)) {
        Some(m[b.skip(i)])
    } else {
        suffix_match(m, b, i + 1)
    }
}

/// A domain map, built by `DMapBuilder::build`.
pub struct DMap(Fst<Vec<u8>>);

impl View for DMap {
    type V = Map<Seq<u8>, u64>;

    /// Each domain to its value.
    closed spec fn view(&self) -> Map<Seq<u8>, u64> {
        Map::new(
            |d: Seq<u8>| fst_contents(self.0).contains_key(d.reverse()),
            |d: Seq<u8>| fst_contents(self.0)[d.reverse()],
        )
    }
}

/// No domain of `m` starts at a position in `lo..hi`, so the search from
/// `lo` finds what the search from `hi` finds.
proof fn lemma_suffix_match_skip(m: Map<Seq<u8>, u64>, b: Seq<u8>, lo: int, hi: int)
    requires
        0 <= lo <= hi <= b.len(),
        forall|q: int| lo <= q < hi ==> !m.contains_key(#[trigger] b.skip(q)),
    ensures
        suffix_match(m, b, lo) == suffix_match(m, b, hi),
    decreases hi - lo,
{
    if lo < hi {
        lemma_suffix_match_skip(m, b, lo + 1, hi);
    }
}

/// A lookup finds a value exactly when some suffix of the name that starts
/// a label is a domain of the map, and then it finds the value of the
/// longest such suffix: lookups only match at label boundaries, and the
/// longest match wins.
pub proof fn lemma_suffix_match_longest(m: Map<Seq<u8>, u64>, b: Seq<u8>, lo: int)
    requires
        0 <= lo <= b.len(),
    ensures
        suffix_match(m, b, lo) is Some <==> exists|i: int|
            lo <= i < b.len() && is_label_start(b, i) && #[trigger] m.contains_key(b.skip(i)),
        suffix_match(m, b, lo) is Some ==> exists|i: int|
            {
                &&& lo <= i < b.len()
                &&& is_label_start(b, i)
                &&& #[trigger] m.contains_key(b.skip(i))
                &&& m[b.skip(i)] == suffix_match(m, b, lo)->0
                &&& forall|j: int|
                    lo <= j < i ==> !(is_label_start(b, j) && #[trigger] m.contains_key(b.skip(j)))
            },
    decreases b.len() - lo,
{
    if lo < b.len() {
        lemma_suffix_match_longest(m, b, lo + 1);
        if is_label_start(b, lo) && m.contains_key(b.skip(lo)) {
        } else {
            if suffix_match(m, b, lo) is Some {
                let i = choose|i: int|
                    {
                        &&& lo + 1 <= i < b.len()
                        &&& is_label_start(b, i)
                        &&& #[trigger] m.contains_key(b.skip(i))
                        &&& m[b.skip(i)] == suffix_match(m, b, lo + 1)->0
                        &&& forall|j: int|
                            lo + 1 <= j < i ==> !(is_label_start(b, j) && #[trigger] m.contains_key(b.skip(j)))
                    };
                assert forall|j: int| lo <= j < i implies !(is_label_start(b, j) && #[trigger] m.contains_key(
                    b.skip(j),
                )) by {
                    if j > lo {
                    }
                }
            }
        }
    }
}

/// A domain of the map matches itself and every name under it: `foo.bar`
/// matches `foo.bar` and `sub.foo.bar`.
pub proof fn lemma_domain_matches_subdomains(m: Map<Seq<u8>, u64>, d: Seq<u8>, sub: Seq<u8>)
    requires
        m.contains_key(d),
        d.len() > 0,
    ensures
        suffix_match(m, d, 0) is Some,
        suffix_match(m, sub + seq![DOT] + d, 0) is Some,
{
    lemma_suffix_match_longest(m, d, 0);
    assert(d.skip(0) =~= d);
    let b = sub + seq![DOT] + d;
    let i: int = (sub.len() + 1) as int;
    assert(b.skip(i) =~= d);
    assert(b[i - 1] == DOT);
    lemma_suffix_match_longest(m, b, 0);
}

/// A name that ends like a domain of the map without a dot before it does
/// not match it: with `foo.bar` the only domain, `subfoo.bar` matches
/// nothing.
pub proof fn lemma_no_match_inside_label(d: Seq<u8>, v: u64, pre: Seq<u8>, c: u8)
    requires
        c != DOT,
        d.len() > 0,
    ensures
        suffix_match(Map::<Seq<u8>, u64>::empty().insert(d, v), pre.push(c) + d, 0) is None,
{
    let m = Map::<Seq<u8>, u64>::empty().insert(d, v);
    let b = pre.push(c) + d;
    lemma_suffix_match_longest(m, b, 0);
    assert forall|i: int| 0 <= i < b.len() && is_label_start(b, i) implies !#[trigger] m.contains_key(b.skip(i)) by {
        if b.skip(i) == d {
            assert(b.skip(i).len() == d.len());
            assert(i == pre.len() + 1);
            assert(b[i - 1] == c);
        }
    }
}

/// Domains added later override those added before: the map of all the
/// entries is the map of the earlier ones updated by the map of the later.
pub proof fn lemma_later_entries_override(earlier: Seq<(Seq<u8>, u64)>, later: Seq<(Seq<u8>, u64)>)
    ensures
        entries_map(earlier + later) == entries_map(earlier).union_prefer_right(entries_map(later)),
{
    crate::kv::lemma_entries_map_concat(earlier, later);
}

/// A domain added again replaces what it was added with before.
pub proof fn lemma_later_domain_wins(p: Seq<(Seq<u8>, u64)>, d: Seq<u8>, v: u64)
    ensures
        entries_map(p + list_entries(seq![d], v)).contains_key(d),
        entries_map(p + list_entries(seq![d], v))[d] == v,
{
    assert(p + list_entries(seq![d], v) =~= p.push((d, v)));
    assert((p.push((d, v))).drop_last() =~= p);
}

/// What a domain-list file contributes: each entry carries the file's value
/// and a domain of at most 253 bytes, no line contributing more than one.
pub proof fn lemma_file_entries(s: Seq<u8>, prefix: Seq<u8>, v: u64)
    ensures
        forall|i: int| 0 <= i < file_entries(s, prefix, v).len() ==> (#[trigger] file_entries(s, prefix, v)[i]).1
            == v && file_entries(s, prefix, v)[i].0.len() <= 253,
    decreases s.len(),
{
    let k = newline_pos(s);
    if k < s.len() {
        lemma_file_entries(s.skip((k + 1) as int), prefix, v);
        let a = line_entry(s.take(k as int), prefix, v);
        let b = file_entries(s.skip((k + 1) as int), prefix, v);
        assert forall|i: int| 0 <= i < (a + b).len() implies (#[trigger] (a + b)[i]).1 == v && (a
            + b)[i].0.len() <= 253 by {
            if i >= a.len() {
                assert((a + b)[i] == b[i - a.len()]);
            }
        }
    }
}

impl DMap {
    /// The value of the longest suffix of `b` that starts a label and is a
    /// domain of the map: `foo.bar` matches `foo.bar` and `sub.foo.bar`, not
    /// `subfoo.bar`.
    pub fn get(&self, b: &[u8]) -> (r: Option<u64>)
        ensures
            r == suffix_match(self@, b@, 0),
    {
        let ghost m = fst_contents(self.0);
        let mut node = fst_root(&self.0);
        let mut out: u64 = 0;
        let mut last_match: Option<u64> = None;
        let mut i = b.len();
        proof {
            assert forall|s: Seq<u8>| #![trigger fst_node(self.0, node)->0.contains_key(s)]
                fst_node(self.0, node)->0.contains_key(s) ==> m[b@.skip(i as int).reverse() + s] == out
                    + fst_node(self.0, node)->0[s] by {
                assert(b@.skip(i as int).reverse() + s =~= s);
            }
            assert forall|s: Seq<u8>|
                fst_node(self.0, node)->0.contains_key(s) <==> #[trigger] m.contains_key(
                    b@.skip(i as int).reverse() + s,
                ) by {
                assert(b@.skip(i as int).reverse() + s =~= s);
            }
        }
        while i > 0
            invariant
                i <= b@.len(),
                m == fst_contents(self.0),
                fst_node(self.0, node) is Some,
                forall|s: Seq<u8>|
                    fst_node(self.0, node)->0.contains_key(s) <==> #[trigger] m.contains_key(
                        b@.skip(i as int).reverse() + s,
                    ),
                forall|s: Seq<u8>| #![trigger fst_node(self.0, node)->0.contains_key(s)]
                    fst_node(self.0, node)->0.contains_key(s) ==> m[b@.skip(i as int).reverse() + s]
                        == out + fst_node(self.0, node)->0[s],
                last_match == suffix_match(self@, b@, i as int),
            decreases i,
        {
            let j = i - 1;
            let ghost lang = fst_node(self.0, node)->0;
            let ghost p_old = b@.skip(i as int).reverse();
            let ghost p_new = b@.skip(j as int).reverse();
            assert(p_new =~= p_old.push(b@[j as int]));
            match fst_step(&self.0, node, b[j]) {
                Some((next, o)) => {
                    let ghost lang2 = fst_node(self.0, next)->0;
                    proof {
                        let w = choose|s: Seq<u8>| lang.contains_key(seq![b@[j as int]] + s);
                        assert(lang2.contains_key(w));
                        assert(p_old + (seq![b@[j as int]] + w) =~= p_new + w);
                        assert(m.contains_key(p_old + (seq![b@[j as int]] + w)));
                        assert(m[p_old + (seq![b@[j as int]] + w)] == out + lang[seq![b@[j as int]] + w]);
                        assert forall|s: Seq<u8>|
                            lang2.contains_key(s) <==> #[trigger] m.contains_key(p_new + s) by {
                            assert(p_old + (seq![b@[j as int]] + s) =~= p_new + s);
                            assert(lang.contains_key(seq![b@[j as int]] + s) <==> lang2.contains_key(s));
                            assert(lang.contains_key(seq![b@[j as int]] + s) <==> m.contains_key(
                                p_old + (seq![b@[j as int]] + s),
                            ));
                        }
                        assert forall|s: Seq<u8>| #![trigger lang2.contains_key(s)]
                            lang2.contains_key(s) implies m[p_new + s] == out + o + lang2[s] by {
                            assert(p_old + (seq![b@[j as int]] + s) =~= p_new + s);
                            assert(lang.contains_key(seq![b@[j as int]] + s));
                            assert(lang[seq![b@[j as int]] + s] == o + lang2[s]);
                        }
                    }
                    out = out + o;
                    node = next;
                    i = j;
                    let (fin, fo) = fst_final(&self.0, node);
                    proof {
                        assert(p_new + Seq::<u8>::empty() =~= p_new);
                        assert(self@.contains_key(b@.skip(i as int)) == lang2.contains_key(
                            Seq::<u8>::empty(),
                        ));
                    }
                    if fin && (i == 0 || b[i - 1] == DOT) {
                        last_match = Some(out + fo);
                    }
                },
                None => {
                    proof {
                        assert forall|q: int| 0 <= q < i implies !self@.contains_key(
                            #[trigger] b@.skip(q),
                        ) by {
                            let x = b@.subrange(q, j as int).reverse();
                            assert(b@.skip(q).reverse() =~= p_old + (seq![b@[j as int]] + x));
                            if m.contains_key(p_old + (seq![b@[j as int]] + x)) {
                                assert(lang.contains_key(seq![b@[j as int]] + x));
                            }
                        }
                        lemma_suffix_match_skip(self@, b@, 0, i as int);
                    }
                    return last_match;
                },
            }
        }
        last_match
    }
}

/// The pairs of the parallel lists `keys` and `vals`.
pub open spec fn pairs(keys: Seq<Vec<u8>>, vals: Seq<u64>) -> Seq<(Seq<u8>, u64)> {
    Seq::new(keys.len(), |i: int| (keys[i]@, vals[i]))
}

/// A source of domains: the bytes of a domain-list file with the prefix its
/// lines carry, or a list of domains; each with the value its domains get.
enum Source {
    File(Vec<u8>, Vec<u8>, u64),
    List(Vec<Vec<u8>>, u64),
}

/// What one source contributes.
spec fn source_entries(s: Source) -> Seq<(Seq<u8>, u64)> {
    match s {
        Source::File(file, prefix, v) => file_entries(file@, prefix@, v),
        Source::List(list, v) => list_entries(list@.map_values(|k: Vec<u8>| k@), v),
    }
}

/// What the sources contribute, in the order they were added.
spec fn sources_entries(sources: Seq<Source>) -> Seq<(Seq<u8>, u64)>
    decreases sources.len(),
{
    if sources.len() == 0 {
        seq![]
    } else {
        sources_entries(sources.drop_last()) + source_entries(sources.last())
    }
}

/// Collects domain-list files and lists of domains, with their values, to
/// build a domain map from.
pub struct DMapBuilder {
    sources: Vec<Source>,
}

impl DMapBuilder {
    /// All domains added so far, with their values, in the order they were
    /// added: a later one replaces an earlier one.
    pub closed spec fn pending(&self) -> Seq<(Seq<u8>, u64)> {
        sources_entries(self.sources@)
    }

    /// Adds the contents of a domain-list file: one domain a line, each
    /// expected to start with `prefix`, which is taken off.
    pub fn add_file(&mut self, file: Vec<u8>, prefix: &[u8], v: u64)
        ensures
            final(self).pending() == old(self).pending() + file_entries(file@, prefix@, v),
    {
        let ghost old_sources = self.sources@;
        let ghost fv = file@;
        let p = vstd::slice::slice_to_vec(prefix);
        self.sources.push(Source::File(file, p, v));
        assert(self.sources@.drop_last() =~= old_sources);
        assert(source_entries(self.sources@.last()) == file_entries(fv, prefix@, v));
    }

    /// Builds the domain map: each domain maps to the value it was last added
    /// with.
    pub fn build(self) -> (r: DummyResult<DMap>)
        ensures
            r is Ok,
            r matches Ok(m) && m@ == entries_map(self.pending()),
    {
        let mut keys: Vec<Vec<u8>> = Vec::new();
        let mut vals: Vec<u64> = Vec::new();
        let ns = self.sources.len();
        assert(self.sources@.take(0) =~= Seq::<Source>::empty());
        assert(pairs(keys@, vals@) =~= reversed_keys(sources_entries(self.sources@.take(0))));
        for i in 0..ns
            invariant
                ns == self.sources@.len(),
                keys@.len() == vals@.len(),
                pairs(keys@, vals@) == reversed_keys(sources_entries(self.sources@.take(i as int))),
        {
            let ghost before = sources_entries(self.sources@.take(i as int));
            let ghost se = source_entries(self.sources@[i as int]);
            match &self.sources[i] {
                Source::File(file, prefix, v) => {
                    collect_file(&mut keys, &mut vals, file.as_slice(), prefix.as_slice(), *v);
                },
                Source::List(list, v) => {
                    let ghost b0 = pairs(keys@, vals@);
                    let ghost ks = list@.map_values(|k: Vec<u8>| k@);
                    let m = list.len();
                    assert(reversed_keys(list_entries(ks.take(0), *v)) =~= Seq::<(Seq<u8>, u64)>::empty());
                    assert(pairs(keys@, vals@) =~= b0 + reversed_keys(list_entries(ks.take(0), *v)));
                    for j in 0..m
                        invariant
                            m == list@.len(),
                            ks == list@.map_values(|k: Vec<u8>| k@),
                            keys@.len() == vals@.len(),
                            pairs(keys@, vals@) == b0 + reversed_keys(list_entries(ks.take(j as int), *v)),
                    {
                        let ghost b2 = pairs(keys@, vals@);
                        let k = reversed_range(list[j].as_slice(), 0, list[j].len());
                        assert(list[j as int]@.subrange(0, list[j as int]@.len() as int) =~= ks[j as int]);
                        keys.push(k);
                        vals.push(*v);
                        assert(pairs(keys@, vals@) =~= b2.push((ks[j as int].reverse(), *v)));
                        assert(reversed_keys(list_entries(ks.take(j + 1), *v)) =~= reversed_keys(
                            list_entries(ks.take(j as int), *v),
                        ).push((ks[j as int].reverse(), *v)));
                    }
                    assert(ks.take(m as int) =~= ks);
                },
            }
            assert(self.sources@.take(i + 1).drop_last() =~= self.sources@.take(i as int));
            assert(reversed_keys(before + se) =~= reversed_keys(before) + reversed_keys(se));
        }
        assert(self.sources@.take(ns as int) =~= self.sources@);
        let ghost e = pairs(keys@, vals@);
        assert(e =~= reversed_keys(self.pending()));
        let n = keys.len();
        let idx = sorted_union(&keys, Ghost(e), 0, n);
        assert(e.subrange(0, n as int) =~= e);
        let mut bld = builder_memory();
        let ni = idx.len();
        assert(picked(e, idx@.take(0)) =~= Seq::<(Seq<u8>, u64)>::empty());
        assert(builder_contents(bld) =~= entries_map(picked(e, idx@.take(0))));
        for t in 0..ni
            invariant
                ni == idx@.len(),
                e == pairs(keys@, vals@),
                keys@.len() == vals@.len(),
                within(idx@, 0, n as int),
                n == keys@.len(),
                strictly_sorted(picked(e, idx@)),
                builder_contents(bld) == entries_map(picked(e, idx@.take(t as int))),
                t == 0 ==> builder_last_key(bld) is None,
                t > 0 ==> builder_last_key(bld) == Some(e[idx@[t - 1] as int].0),
        {
            let x = idx[t];
            assert(0 <= idx@[t as int] < n);
            proof {
                if t > 0 {
                    assert(lex_lt(picked(e, idx@)[t - 1].0, picked(e, idx@)[t as int].0));
                }
            }
            let ghost pt = picked(e, idx@.take(t as int));
            match builder_insert(&mut bld, keys[x].as_slice(), vals[x]) {
                Ok(()) => {},
                Err(e) => {
                    return Err(DummyError::from(e));
                },
            }
            assert(picked(e, idx@.take(t + 1)) =~= pt.push(e[x as int]));
            assert(picked(e, idx@.take(t + 1)).drop_last() =~= pt);
        }
        assert(idx@.take(ni as int) =~= idx@);
        let f = builder_into_fst(bld);
        let r = DMap(f);
        proof {
            assert forall|d: Seq<u8>| #![trigger entries_map(self.pending()).contains_key(d)]
                r@.contains_key(d) == entries_map(self.pending()).contains_key(d) by {
                lemma_reversed_map(self.pending(), d);
            }
            assert forall|d: Seq<u8>| #![trigger entries_map(self.pending())[d]]
                r@.contains_key(d) implies r@[d] == entries_map(self.pending())[d] by {
                lemma_reversed_map(self.pending(), d);
            }
            assert(r@ =~= entries_map(self.pending()));
        }
        Ok(r)
    }

    /// Adds a list of domains, each taken as it is.
    pub fn add_list(&mut self, list: &[&[u8]], v: u64)
        ensures
            final(self).pending() == old(self).pending() + list_entries(list@.map_values(|k: &[u8]| k@), v),
    {
        let ghost old_sources = self.sources@;
        let mut l: Vec<Vec<u8>> = Vec::with_capacity(list.len());
        for i in 0..list.len()
            invariant
                l@.len() == i,
                forall|j: int| 0 <= j < i ==> (#[trigger] l@[j])@ == list@[j]@,
        {
            l.push(vstd::slice::slice_to_vec(list[i]));
        }
        assert(l@.map_values(|k: Vec<u8>| k@) =~= list@.map_values(|k: &[u8]| k@));
        self.sources.push(Source::List(l, v));
        assert(self.sources@.drop_last() =~= old_sources);
    }
}

proof fn lemma_reverse_reverse(d: Seq<u8>)
    ensures
        d.reverse().reverse() == d,
{
    assert(d.reverse().reverse() =~= d);
}

/// Reversing the keys of insertions reverses the keys of the map they leave.
proof fn lemma_reversed_map(p: Seq<(Seq<u8>, u64)>, d: Seq<u8>)
    ensures
        entries_map(reversed_keys(p)).contains_key(d.reverse()) == entries_map(p).contains_key(d),
        entries_map(p).contains_key(d) ==> entries_map(reversed_keys(p))[d.reverse()] == entries_map(
            p,
        )[d],
    decreases p.len(),
{
    if p.len() > 0 {
        assert(reversed_keys(p).drop_last() =~= reversed_keys(p.drop_last()));
        lemma_reversed_map(p.drop_last(), d);
        lemma_reverse_reverse(d);
        lemma_reverse_reverse(p.last().0);
    }
}

impl Default for DMapBuilder {
    fn default() -> (r: Self)
        ensures
            r.pending() == Seq::<(Seq<u8>, u64)>::empty(),
    {
        DMapBuilder { sources: Vec::new() }
    }
}

/// `s[lo..hi]` reversed.
fn reversed_range(s: &[u8], lo: usize, hi: usize) -> (r: Vec<u8>)
    requires
        lo <= hi <= s@.len(),
    ensures
        r@ == s@.subrange(lo as int, hi as int).reverse(),
{
    let mut r: Vec<u8> = Vec::with_capacity(hi - lo);
    let mut k = hi;
    while k > lo
        invariant
            lo <= k <= hi <= s@.len(),
            r@ == s@.subrange(k as int, hi as int).reverse(),
        decreases k,
    {
        k = k - 1;
        r.push(s[k]);
        assert(r@ =~= s@.subrange(k as int, hi as int).reverse());
    }
    r
}

/// Whether `s[lo..hi]` starts with `prefix`.
fn has_prefix(s: &[u8], lo: usize, hi: usize, prefix: &[u8]) -> (r: bool)
    requires
        lo <= hi <= s@.len(),
    ensures
        r == (prefix@.len() <= hi - lo && s@.subrange(lo as int, hi as int).take(prefix@.len() as int)
            == prefix@),
{
    if prefix.len() > hi - lo {
        return false;
    }
    let mut k: usize = 0;
    while k < prefix.len()
        invariant
            lo <= hi <= s@.len(),
            prefix@.len() <= hi - lo,
            k <= prefix@.len(),
            forall|j: int| 0 <= j < k ==> s@[lo + j] == #[trigger] prefix@[j],
        decreases prefix@.len() - k,
    {
        if s[lo + k] != prefix[k] {
            assert(s@.subrange(lo as int, hi as int).take(prefix@.len() as int)[k as int] != prefix@[k as int]);
            return false;
        }
        k = k + 1;
    }
    assert(s@.subrange(lo as int, hi as int).take(prefix@.len() as int) =~= prefix@);
    true
}

/// Appends, reversed, what the line `file[lo..hi]` contributes.
fn collect_line(
    keys: &mut Vec<Vec<u8>>,
    vals: &mut Vec<u64>,
    file: &[u8],
    lo: usize,
    hi: usize,
    prefix: &[u8],
    v: u64,
)
    requires
        lo <= hi <= file@.len(),
        old(keys)@.len() == old(vals)@.len(),
    ensures
        final(keys)@.len() == final(vals)@.len(),
        pairs(final(keys)@, final(vals)@) == pairs(old(keys)@, old(vals)@) + reversed_keys(
            line_entry(file@.subrange(lo as int, hi as int), prefix@, v),
        ),
{
    let ghost line = file@.subrange(lo as int, hi as int);
    let (a, b) = trim_bounds(file, lo, hi);
    let ghost t = trim_ascii(line);
    assert(t == file@.subrange(a as int, b as int));
    if a == b || file[a] == HASH {
        assert(pairs(keys@, vals@) + reversed_keys(line_entry(line, prefix@, v)) =~= pairs(keys@, vals@));
        return;
    }
    if !has_prefix(file, a, b, prefix) {
        assert(pairs(keys@, vals@) + reversed_keys(line_entry(line, prefix@, v)) =~= pairs(keys@, vals@));
        return;
    }
    if b - a - prefix.len() > MAX_FQDN_LEN {
        assert(pairs(keys@, vals@) + reversed_keys(line_entry(line, prefix@, v)) =~= pairs(keys@, vals@));
        return;
    }
    let ghost before = pairs(keys@, vals@);
    let k = reversed_range(file, a + prefix.len(), b);
    assert(t.skip(prefix@.len() as int) =~= file@.subrange((a + prefix@.len()) as int, b as int));
    keys.push(k);
    vals.push(v);
    assert(pairs(keys@, vals@) =~= before + reversed_keys(line_entry(line, prefix@, v)));
}

/// Appends, reversed, what `file` contributes.
fn collect_file(keys: &mut Vec<Vec<u8>>, vals: &mut Vec<u64>, file: &[u8], prefix: &[u8], v: u64)
    requires
        old(keys)@.len() == old(vals)@.len(),
    ensures
        final(keys)@.len() == final(vals)@.len(),
        pairs(final(keys)@, final(vals)@) == pairs(old(keys)@, old(vals)@) + reversed_keys(
            file_entries(file@, prefix@, v),
        ),
{
    let ghost target = pairs(keys@, vals@) + reversed_keys(file_entries(file@, prefix@, v));
    let mut pos: usize = 0;
    assert(file@.skip(0) =~= file@);
    loop
        invariant
            pos <= file@.len(),
            keys@.len() == vals@.len(),
            target == pairs(old(keys)@, old(vals)@) + reversed_keys(file_entries(file@, prefix@, v)),
            pairs(keys@, vals@) + reversed_keys(file_entries(file@.skip(pos as int), prefix@, v))
                == target,
        decreases file@.len() - pos,
    {
        let ghost rest = file@.skip(pos as int);
        let ghost before = pairs(keys@, vals@);
        let k = line_end(file, pos);
        collect_line(keys, vals, file, pos, k, prefix, v);
        assert(rest.take(newline_pos(rest) as int) =~= file@.subrange(pos as int, k as int));
        if k >= file.len() {
            assert(rest =~= file@.subrange(pos as int, k as int));
            assert(file_entries(rest, prefix@, v) == line_entry(rest, prefix@, v));
            assert(target == before + reversed_keys(line_entry(rest, prefix@, v)));
            return;
        }
        assert(rest.skip((newline_pos(rest) + 1) as int) =~= file@.skip(k + 1));
        let ghost le = line_entry(file@.subrange(pos as int, k as int), prefix@, v);
        let ghost fe = file_entries(file@.skip(k + 1), prefix@, v);
        assert(reversed_keys(le + fe) =~= reversed_keys(le) + reversed_keys(fe));
        assert(before + reversed_keys(le + fe) =~= before + reversed_keys(le) + reversed_keys(fe));
        assert(file_entries(rest, prefix@, v) == le + fe);
        pos = k + 1;
    }
}

} // verus!
