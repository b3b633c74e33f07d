//! Which rule answers a query, in priority order, and the rules learnt while
//! running.
use vstd::prelude::*;

use crate::action::{decode, ActionId};
use crate::addr::IpAddr;
use crate::conf::{insert_rule, sort_rules, Conf};
use crate::dmap::{suffix_match, DMap, DOT};
use crate::rr::{QType, RCode, RCODE_NOTIMP, RCODE_SERVFAIL};

verus! {

pub const QCLASS_IN: u16 = 1;

pub const QCLASS_CH: u16 = 3;

/// How a query is answered.
#[derive(PartialEq, Eq, Structural, Clone, Copy, Debug)]
pub enum Verdict {
    /// A CHAOS-class query, answered with diagnostics.
    Chaos,
    /// The action of the rule that applies.
    Action(ActionId),
}

/// The rules on a name and query type, a later one for the same pair
/// winning.
pub open spec fn exact_map(s: Seq<(Vec<u8>, QType, ActionId)>) -> Map<(Seq<u8>, u16), ActionId>
    decreases s.len(),
{
    if s.len() == 0 {
        Map::empty()
    } else {
        exact_map(s.drop_last()).insert((s.last().0@, s.last().1.0), s.last().2)
    }
}

/// The rules on an answer address, a later one for the same address
/// winning.
pub open spec fn addr_map(s: Seq<(IpAddr, ActionId)>) -> Map<IpAddr, ActionId>
    decreases s.len(),
{
    if s.len() == 0 {
        Map::empty()
    } else {
        addr_map(s.drop_last()).insert(s.last().0, s.last().1)
    }
}

/// The first rule for query type `t`.
pub open spec fn first_qtype_rule(s: Seq<(QType, ActionId)>, t: u16) -> Option<ActionId>
    decreases s.len(),
{
    if s.len() == 0 {
        None
    } else if s[0].0.0 == t {
        Some(s[0].1)
    } else {
        first_qtype_rule(s.drop_first(), t)
    }
}

/// The query type rules are in order of query type.
pub open spec fn rules_sorted(s: Seq<(QType, ActionId)>) -> bool {
    forall|i: int, j: int| 0 <= i <= j < s.len() ==> (#[trigger] s[i]).0.0 <= (#[trigger] s[j]).0.0
}

/// A name is unqualified when it holds no dot.
pub open spec fn is_unqualified(name: Seq<u8>) -> bool {
    !name.contains(DOT)
}

/// How a query of class `qclass` for `name` and type `qtype` is answered,
/// trying in turn: the class (CHAOS diagnostics, and only class IN is
/// served), exact rules, the unqualified rule for a name without dots, query
/// type rules, domain rules (a stored value that is no action gives
/// SERVFAIL), runtime rules, and else the default upstream.
pub open spec fn spec_decide(
    exact: Map<(Seq<u8>, u16), ActionId>,
    unqualified: Option<ActionId>,
    qrules: Seq<(QType, ActionId)>,
    domains: Map<Seq<u8>, u64>,
    runtime: Map<Seq<u8>, ActionId>,
    qclass: u16,
    name: Seq<u8>,
    qtype: u16,
) -> Verdict {
    if qclass == QCLASS_CH {
        Verdict::Chaos
    } else if qclass != QCLASS_IN {
        Verdict::Action(ActionId::RCode(RCode(RCODE_NOTIMP)))
    } else if exact.contains_key((name, qtype)) {
        Verdict::Action(exact[(name, qtype)])
    } else if unqualified is Some && is_unqualified(name) {
        Verdict::Action(unqualified->0)
    } else if first_qtype_rule(qrules, qtype) is Some {
        Verdict::Action(first_qtype_rule(qrules, qtype)->0)
    } else if suffix_match(domains, name, 0) is Some {
        Verdict::Action(
            match decode(suffix_match(domains, name, 0)->0) {
                Ok(a) => a,
                Err(_) => ActionId::RCode(RCode(RCODE_SERVFAIL)),
            },
        )
    } else if runtime.contains_key(name) {
        Verdict::Action(runtime[name])
    } else {
        Verdict::Action(ActionId::Default)
    }
}

/// Rules learnt while running: a name whose answer hit an address rule is
/// then sent where that rule says.
pub struct RuntimeRules {
    names: Vec<Vec<u8>>,
    actions: Vec<ActionId>,
}

/// The map of names to actions that pairs of names and actions make, a later
/// pair winning.
pub open spec fn name_map(names: Seq<Seq<u8>>, actions: Seq<ActionId>) -> Map<Seq<u8>, ActionId>
    decreases names.len(),
{
    if names.len() == 0 {
        Map::empty()
    } else {
        name_map(names.drop_last(), actions.take(names.len() - 1)).insert(
            names.last(),
            actions[names.len() - 1],
        )
    }
}

impl View for RuntimeRules {
    type V = Map<Seq<u8>, ActionId>;

    closed spec fn view(&self) -> Map<Seq<u8>, ActionId> {
        name_map(self.names@.map_values(|n: Vec<u8>| n@), self.actions@)
    }
}

/// No name occurs twice.
pub open spec fn distinct_names(names: Seq<Seq<u8>>) -> bool {
    forall|i: int, j: int| 0 <= i < j < names.len() ==> names[i] != names[j]
}

proof fn lemma_name_map(names: Seq<Seq<u8>>, actions: Seq<ActionId>, k: Seq<u8>)
    requires
        names.len() <= actions.len(),
        distinct_names(names),
    ensures
        name_map(names, actions).contains_key(k) <==> exists|i: int| 0 <= i < names.len() && names[i] == k,
        forall|i: int| 0 <= i < names.len() && names[i] == k ==> name_map(names, actions)[k] == actions[i],
    decreases names.len(),
{
    if names.len() > 0 {
        let n = names.len() - 1;
        assert(distinct_names(names.drop_last()));
        lemma_name_map(names.drop_last(), actions.take(n), k);
        assert forall|i: int| 0 <= i < names.len() && names[i] == k implies name_map(names, actions)[k]
            == actions[i] by {
            if i < n {
                assert(names.drop_last()[i] == k);
                assert(actions.take(n)[i] == actions[i]);
            }
        }
        if exists|i: int| 0 <= i < names.len() && names[i] == k {
            let i = choose|i: int| 0 <= i < names.len() && names[i] == k;
            if i < n {
                assert(names.drop_last()[i] == k);
            }
        }
        if exists|i: int| 0 <= i < names.drop_last().len() && names.drop_last()[i] == k {
            let i = choose|i: int| 0 <= i < names.drop_last().len() && names.drop_last()[i] == k;
            assert(names[i] == k);
        }
    }
}

impl RuntimeRules {
    /// The names and actions pair up, and no name occurs twice.
    pub closed spec fn wf(&self) -> bool {
        &&& self.names@.len() == self.actions@.len()
        &&& distinct_names(self.names@.map_values(|n: Vec<u8>| n@))
    }

    /// No rules yet.
    pub fn new() -> (r: Self)
        ensures
            r.wf(),
            r@ == Map::<Seq<u8>, ActionId>::empty(),
    {
        let r = RuntimeRules { names: Vec::new(), actions: Vec::new() };
        assert(r@ =~= Map::<Seq<u8>, ActionId>::empty());
        r
    }

    /// The action learnt for `name`.
    pub fn get(&self, name: &[u8]) -> (r: Option<ActionId>)
        requires
            self.wf(),
        ensures
            r == (if self@.contains_key(name@) {
                Some(self@[name@])
            } else {
                None
            }),
    {
        let ghost ns = self.names@.map_values(|n: Vec<u8>| n@);
        proof {
            lemma_name_map(ns, self.actions@, name@);
        }
        let mut i: usize = 0;
        while i < self.names.len()
            invariant
                i <= self.names@.len(),
                self.names@.len() == self.actions@.len(),
                distinct_names(ns),
                ns == self.names@.map_values(|n: Vec<u8>| n@),
                forall|j: int| 0 <= j < i ==> #[trigger] ns[j] != name@,
            decreases self.names@.len() - i,
        {
            if crate::order::compare_bytes(self.names[i].as_slice(), name) == crate::order::Cmp::Equal {
                assert(ns[i as int] == name@);
                proof {
                    lemma_name_map(ns, self.actions@, name@);
                }
                return Some(self.actions[i]);
            }
            i = i + 1;
        }
        None
    }

    /// Learns that `name` is sent as action `a` says, replacing what was
    /// learnt for it before.
    pub fn insert(&mut self, name: Vec<u8>, a: ActionId)
        requires
            old(self).wf(),
        ensures
            final(self).wf(),
            final(self)@ == old(self)@.insert(name@, a),
    {
        let ghost ns = self.names@.map_values(|n: Vec<u8>| n@);
        let ghost old_map = self@;
        let mut i: usize = 0;
        while i < self.names.len()
            invariant
                i <= self.names@.len(),
                self.names@.len() == self.actions@.len(),
                ns == self.names@.map_values(|n: Vec<u8>| n@),
                distinct_names(ns),
                old_map == name_map(ns, self.actions@),
                self.names@ == old(self).names@,
                self.actions@ == old(self).actions@,
                forall|j: int| 0 <= j < i ==> #[trigger] ns[j] != name@,
            decreases self.names@.len() - i,
        {
            if crate::order::compare_bytes(self.names[i].as_slice(), name.as_slice()) == crate::order::Cmp::Equal {
                let ghost old_actions = self.actions@;
                self.actions.set(i, a);
                proof {
                    assert forall|k: Seq<u8>| #![trigger name_map(ns, self.actions@).contains_key(k)]
                        name_map(ns, self.actions@).contains_key(k) == old_map.insert(name@, a).contains_key(k)
                        && (name_map(ns, self.actions@).contains_key(k) ==> name_map(ns, self.actions@)[k]
                        == old_map.insert(name@, a)[k]) by {
                        lemma_name_map(ns, self.actions@, k);
                        lemma_name_map(ns, old_actions, k);
                        if k != name@ && name_map(ns, self.actions@).contains_key(k) {
                            let j = choose|j: int| 0 <= j < ns.len() && ns[j] == k;
                            assert(self.actions@[j] == old_actions[j]);
                        }
                        if k == name@ {
                            assert(ns[i as int] == k);
                        }
                    }
                    assert(name_map(ns, self.actions@) =~= old_map.insert(name@, a));
                }
                return;
            }
            i = i + 1;
        }
        let ghost nv = name@;
        self.names.push(name);
        self.actions.push(a);
        proof {
            let ns2 = self.names@.map_values(|n: Vec<u8>| n@);
            assert(ns2 =~= ns.push(nv));
            assert(ns2.drop_last() =~= ns);
            assert(self.actions@.take(ns.len() as int) =~= self.actions@.drop_last());
            assert(self.actions@.drop_last() =~= old(self).actions@);
            assert(distinct_names(ns2));
        }
    }

    /// The rules learnt, one per name.
    pub fn entries(&self) -> (r: Vec<(Vec<u8>, ActionId)>)
        requires
            self.wf(),
        ensures
            distinct_names(r@.map_values(|e: (Vec<u8>, ActionId)| e.0@)),
            forall|k: Seq<u8>|
                self@.contains_key(k) <==> exists|i: int|
                    0 <= i < r@.len() && (#[trigger] r@[i]).0@ == k,
            forall|i: int| 0 <= i < r@.len() ==> self@[(#[trigger] r@[i]).0@] == r@[i].1,
    {
        let ghost ns = self.names@.map_values(|n: Vec<u8>| n@);
        let mut r: Vec<(Vec<u8>, ActionId)> = Vec::new();
        let mut i: usize = 0;
        while i < self.names.len()
            invariant
                i <= self.names@.len(),
                self.names@.len() == self.actions@.len(),
                ns == self.names@.map_values(|n: Vec<u8>| n@),
                r@.len() == i,
                forall|j: int| 0 <= j < i ==> (#[trigger] r@[j]).0@ == ns[j] && r@[j].1 == self.actions@[j],
            decreases self.names@.len() - i,
        {
            r.push((vstd::slice::slice_to_vec(self.names[i].as_slice()), self.actions[i]));
            i = i + 1;
        }
        proof {
            assert(r@.map_values(|e: (Vec<u8>, ActionId)| e.0@) =~= ns);
            assert forall|k: Seq<u8>| self@.contains_key(k) <==> exists|j: int|
                0 <= j < r@.len() && (#[trigger] r@[j]).0@ == k by {
                lemma_name_map(ns, self.actions@, k);
                if exists|j: int| 0 <= j < ns.len() && ns[j] == k {
                    let j = choose|j: int| 0 <= j < ns.len() && ns[j] == k;
                    assert(r@[j].0@ == k);
                }
            }
            assert forall|j: int| 0 <= j < r@.len() implies self@[(#[trigger] r@[j]).0@] == r@[j].1 by {
                lemma_name_map(ns, self.actions@, ns[j]);
            }
        }
        r
    }
}

/// The action of the last exact rule for `name` and `t`.
fn exact_lookup(rules: &Vec<(Vec<u8>, QType, ActionId)>, name: &[u8], t: QType) -> (r: Option<ActionId>)
    ensures
        r == (if exact_map(rules@).contains_key((name@, t.0)) {
            Some(exact_map(rules@)[(name@, t.0)])
        } else {
            None
        }),
{
    let ghost k = (name@, t.0);
    let ghost m = exact_map(rules@);
    let mut i = rules.len();
    assert(rules@.take(i as int) =~= rules@);
    while i > 0
        invariant
            i <= rules@.len(),
            k == (name@, t.0),
            m == exact_map(rules@),
            exact_map(rules@.take(i as int)).contains_key(k) == m.contains_key(k),
            m.contains_key(k) ==> exact_map(rules@.take(i as int))[k] == m[k],
        decreases i,
    {
        let j = i - 1;
        assert(rules@.take(i as int).drop_last() =~= rules@.take(j as int));
        assert(rules@.take(i as int).last() == rules@[j as int]);
        if rules[j].1 == t && crate::order::compare_bytes(rules[j].0.as_slice(), name) == crate::order::Cmp::Equal {
            return Some(rules[j].2);
        }
        i = j;
    }
    None
}

/// The action of the last address rule for `ip`.
pub fn addr_lookup(rules: &Vec<(IpAddr, ActionId)>, ip: IpAddr) -> (r: Option<ActionId>)
    ensures
        r == (if addr_map(rules@).contains_key(ip) {
            Some(addr_map(rules@)[ip])
        } else {
            None
        }),
{
    let ghost m = addr_map(rules@);
    let mut i = rules.len();
    assert(rules@.take(i as int) =~= rules@);
    while i > 0
        invariant
            i <= rules@.len(),
            m == addr_map(rules@),
            addr_map(rules@.take(i as int)).contains_key(ip) == m.contains_key(ip),
            m.contains_key(ip) ==> addr_map(rules@.take(i as int))[ip] == m[ip],
        decreases i,
    {
        let j = i - 1;
        assert(rules@.take(i as int).drop_last() =~= rules@.take(j as int));
        assert(rules@.take(i as int).last() == rules@[j as int]);
        if rules[j].0 == ip {
            return Some(rules[j].1);
        }
        i = j;
    }
    None
}

proof fn lemma_first_qtype_skip(s: Seq<(QType, ActionId)>, t: u16, k: int)
    requires
        0 <= k <= s.len(),
        forall|j: int| 0 <= j < k ==> (#[trigger] s[j]).0.0 != t,
    ensures
        first_qtype_rule(s, t) == first_qtype_rule(s.skip(k), t),
    decreases k,
{
    if k == 0 {
        assert(s.skip(0) =~= s);
    } else {
        assert forall|j: int| 0 <= j < k - 1 implies (#[trigger] s.drop_first()[j]).0.0 != t by {
            assert(s.drop_first()[j] == s[j + 1]);
        }
        lemma_first_qtype_skip(s.drop_first(), t, k - 1);
        assert(s.drop_first().skip(k - 1) =~= s.skip(k));
    }
}

proof fn lemma_first_qtype_none(s: Seq<(QType, ActionId)>, t: u16)
    requires
        forall|j: int| 0 <= j < s.len() ==> (#[trigger] s[j]).0.0 != t,
    ensures
        first_qtype_rule(s, t) is None,
    decreases s.len(),
{
    if s.len() > 0 {
        assert forall|j: int| 0 <= j < s.len() - 1 implies (#[trigger] s.drop_first()[j]).0.0 != t by {
            assert(s.drop_first()[j] == s[j + 1]);
        }
        lemma_first_qtype_none(s.drop_first(), t);
    }
}

/// The first query type rule for `t`, found by binary search in rules
/// sorted by query type.
fn qtype_lookup(rules: &Vec<(QType, ActionId)>, t: QType) -> (r: Option<ActionId>)
    requires
        rules_sorted(rules@),
    ensures
        r == first_qtype_rule(rules@, t.0),
{
    let mut lo: usize = 0;
    let mut hi: usize = rules.len();
    while lo < hi
        invariant
            lo <= hi <= rules@.len(),
            rules_sorted(rules@),
            forall|j: int| 0 <= j < lo ==> (#[trigger] rules@[j]).0.0 < t.0,
            forall|j: int| hi <= j < rules@.len() ==> (#[trigger] rules@[j]).0.0 >= t.0,
        decreases hi - lo,
    {
        let mid = lo + (hi - lo) / 2;
        if rules[mid].0.0 < t.0 {
            lo = mid + 1;
        } else {
            hi = mid;
        }
    }
    proof {
        lemma_first_qtype_skip(rules@, t.0, lo as int);
    }
    if lo < rules.len() && rules[lo].0.0 == t.0 {
        assert(rules@.skip(lo as int)[0] == rules@[lo as int]);
        Some(rules[lo].1)
    } else {
        proof {
            let rest = rules@.skip(lo as int);
            assert forall|j: int| 0 <= j < rest.len() implies (#[trigger] rest[j]).0.0 != t.0 by {
                assert(rest[j] == rules@[lo + j]);
                assert(rules@[lo as int].0.0 <= rules@[lo + j].0.0);
            }
            lemma_first_qtype_none(rest, t.0);
        }
        None
    }
}

/// Whether `name` holds no dot.
pub fn unqualified(name: &[u8]) -> (r: bool)
    ensures
        r == is_unqualified(name@),
{
    let mut i: usize = 0;
    while i < name.len()
        invariant
            i <= name@.len(),
            forall|j: int| 0 <= j < i ==> #[trigger] name@[j] != DOT,
        decreases name@.len() - i,
    {
        if name[i] == DOT {
            assert(name@.contains(DOT));
            return false;
        }
        i = i + 1;
    }
    true
}

/// How a query of class `qclass` for `name` and type `qtype` is answered,
/// as `spec_decide` says.
pub fn decide(conf: &Conf, dmap: &DMap, rt: &RuntimeRules, qclass: u16, name: &[u8], qtype: QType) -> (r:
    Verdict)
    requires
        rules_sorted(conf.qtype_rules@),
        rt.wf(),
    ensures
        r == spec_decide(
            exact_map(conf.exact_rules@),
            conf.unqualified_rule,
            conf.qtype_rules@,
            dmap@,
            rt@,
            qclass,
            name@,
            qtype.0,
        ),
{
    if qclass == QCLASS_CH {
        return Verdict::Chaos;
    }
    if qclass != QCLASS_IN {
        return Verdict::Action(ActionId::RCode(RCode(RCODE_NOTIMP)));
    }
    if let Some(a) = exact_lookup(&conf.exact_rules, name, qtype) {
        return Verdict::Action(a);
    }
    if let Some(a) = conf.unqualified_rule {
        if unqualified(name) {
            return Verdict::Action(a);
        }
    }
    if let Some(a) = qtype_lookup(&conf.qtype_rules, qtype) {
        return Verdict::Action(a);
    }
    if let Some(v) = dmap.get(name) {
        return match ActionId::try_from_u64(v) {
            Ok(a) => Verdict::Action(a),
            Err(()) => Verdict::Action(ActionId::RCode(RCode(RCODE_SERVFAIL))),
        };
    }
    if let Some(a) = rt.get(name) {
        return Verdict::Action(a);
    }
    Verdict::Action(ActionId::Default)
}

/// The action of the first address of `addrs` that `m` has a rule for.
pub open spec fn first_hit(m: Map<IpAddr, ActionId>, addrs: Seq<IpAddr>) -> Option<ActionId>
    decreases addrs.len(),
{
    if addrs.len() == 0 {
        None
    } else if m.contains_key(addrs[0]) {
        Some(m[addrs[0]])
    } else {
        first_hit(m, addrs.drop_first())
    }
}

/// The action of the first address, among an answer's, that an address rule
/// names.
pub fn answer_addr_action(conf: &Conf, addrs: &Vec<IpAddr>) -> (r: Option<ActionId>)
    ensures
        r == first_hit(addr_map(conf.addr_rules@), addrs@),
        match r {
            Some(a) => exists|i: int|
                0 <= i < addrs@.len() && addr_map(conf.addr_rules@).contains_key(#[trigger] addrs@[i])
                    && addr_map(conf.addr_rules@)[addrs@[i]] == a && forall|j: int|
                    0 <= j < i ==> !addr_map(conf.addr_rules@).contains_key(#[trigger] addrs@[j]),
            None => forall|i: int|
                0 <= i < addrs@.len() ==> !addr_map(conf.addr_rules@).contains_key(#[trigger] addrs@[i]),
        },
{
    let ghost m = addr_map(conf.addr_rules@);
    let mut i: usize = 0;
    assert(addrs@.skip(0) =~= addrs@);
    while i < addrs.len()
        invariant
            i <= addrs@.len(),
            m == addr_map(conf.addr_rules@),
            first_hit(m, addrs@) == first_hit(m, addrs@.skip(i as int)),
            forall|j: int| 0 <= j < i ==> !m.contains_key(#[trigger] addrs@[j]),
        decreases addrs@.len() - i,
    {
        assert(addrs@.skip(i as int)[0] == addrs@[i as int]);
        assert(addrs@.skip(i as int).drop_first() =~= addrs@.skip(i + 1));
        if let Some(a) = addr_lookup(&conf.addr_rules, addrs[i]) {
            return Some(a);
        }
        i = i + 1;
    }
    None
}

/// What follows an upstream's answer whose addresses are `addrs`.
#[derive(PartialEq, Eq, Structural, Clone, Copy, Debug)]
pub enum AddrStep {
    /// No address rule names an address of the answer: send it on.
    Keep,
    /// An address rule sends the name to this upstream (`None` for the
    /// default ones): ask it again there, the rule now learnt for the name.
    ReAsk(Option<u8>),
    /// An address rule names an action that does not go upstream, which is
    /// not supported after an answer: drop the answer.
    Unsupported(ActionId),
}

/// Decides what follows an upstream's answer for `name` whose addresses are
/// `addrs`: where the first address that a rule names calls for another
/// upstream, that rule is learnt for `name`.
pub fn on_addr_hit(conf: &Conf, rt: &mut RuntimeRules, name: &[u8], addrs: &Vec<IpAddr>) -> (r: AddrStep)
    requires
        old(rt).wf(),
    ensures
        final(rt).wf(),
        match first_hit(addr_map(conf.addr_rules@), addrs@) {
            None => r == AddrStep::Keep && final(rt)@ == old(rt)@,
            Some(a) => match a {
                ActionId::Default => r == AddrStep::ReAsk(None) && final(rt)@ == old(rt)@.insert(name@, a),
                ActionId::Alt(i) => r == AddrStep::ReAsk(Some(i)) && final(rt)@ == old(rt)@.insert(
                    name@,
                    a,
                ),
                _ => r == AddrStep::Unsupported(a) && final(rt)@ == old(rt)@,
            },
        },
{
    match answer_addr_action(conf, addrs) {
        None => AddrStep::Keep,
        Some(a) => match a.to_upstream_id() {
            Some(u) => {
                rt.insert(vstd::slice::slice_to_vec(name), a);
                AddrStep::ReAsk(u)
            },
            None => AddrStep::Unsupported(a),
        },
    }
}

/// A CHAOS query for the TXT records of `runtime.rules` asks for the rules
/// learnt while running.
pub open spec fn asks_runtime_rules(name: Seq<u8>, qtype: u16) -> bool {
    name == crate::rr::ascii(seq!['r', 'u', 'n', 't', 'i', 'm', 'e', '.', 'r', 'u', 'l', 'e', 's'])
        && qtype == crate::rr::QTYPE_TXT
}

/// Whether a CHAOS query asks for the rules learnt while running; any other
/// is answered NOTIMP.
pub fn chaos_lists_rules(name: &[u8], qtype: QType) -> (r: bool)
    ensures
        r == asks_runtime_rules(name@, qtype.0),
{
    let kw: [char; 13] = ['r', 'u', 'n', 't', 'i', 'm', 'e', '.', 'r', 'u', 'l', 'e', 's'];
    assert(kw@ =~= seq!['r', 'u', 'n', 't', 'i', 'm', 'e', '.', 'r', 'u', 'l', 'e', 's']);
    if qtype.0 != crate::rr::QTYPE_TXT {
        return false;
    }
    crate::rr::is_keyword(name, kw.as_slice())
}


/// Sorting the query type rules puts them in order of query type.
pub proof fn lemma_sorted_rules(s: Seq<(QType, ActionId)>)
    ensures
        rules_sorted(sort_rules(s)),
        sort_rules(s).len() == s.len(),
    decreases s.len(),
{
    if s.len() > 0 {
        lemma_sorted_rules(s.drop_last());
        lemma_insert_rule_sorted(sort_rules(s.drop_last()), s.last());
    }
}

proof fn lemma_insert_rule_sorted(s: Seq<(QType, ActionId)>, x: (QType, ActionId))
    requires
        rules_sorted(s),
    ensures
        rules_sorted(insert_rule(s, x)),
        insert_rule(s, x).len() == s.len() + 1,
        forall|i: int|
            0 <= i < insert_rule(s, x).len() ==> #[trigger] insert_rule(s, x)[i] == x || exists|j: int|
                0 <= j < s.len() && insert_rule(s, x)[i] == s[j],
    decreases s.len(),
{
    if s.len() > 0 && x.0.0 < s.last().0.0 {
        let t = s.drop_last();
        assert(rules_sorted(t));
        lemma_insert_rule_sorted(t, x);
        let u = insert_rule(t, x);
        assert forall|i: int| 0 <= i < u.len() implies (#[trigger] u[i]).0.0 <= s.last().0.0 by {
            if u[i] != x {
                let j = choose|j: int| 0 <= j < t.len() && u[i] == t[j];
                assert(t[j] == s[j]);
            }
        }
        assert forall|i: int| 0 <= i < u.push(s.last()).len() implies #[trigger] u.push(s.last())[i] == x
            || exists|j: int| 0 <= j < s.len() && u.push(s.last())[i] == s[j] by {
            if i < u.len() {
                if u[i] != x {
                    let j = choose|j: int| 0 <= j < t.len() && u[i] == t[j];
                    assert(u.push(s.last())[i] == s[j]);
                }
            } else {
                assert(u.push(s.last())[i] == s[s.len() - 1]);
            }
        }
    } else if s.len() > 0 {
        assert forall|i: int| 0 <= i < s.push(x).len() implies #[trigger] s.push(x)[i] == x || exists|j: int|
            0 <= j < s.len() && s.push(x)[i] == s[j] by {
            if i < s.len() {
                assert(s.push(x)[i] == s[i]);
            }
        }
    }
}

/// A name is unqualified exactly when none of its bytes is a dot (0x2e).
pub proof fn lemma_unqualified(name: Seq<u8>)
    ensures
        is_unqualified(name) <==> forall|i: int| 0 <= i < name.len() ==> #[trigger] name[i] != 0x2e,
{
    if !is_unqualified(name) {
        let i = choose|i: int| 0 <= i < name.len() && name[i] == DOT;
        assert(name[i] == 0x2e);
    }
    if exists|i: int| 0 <= i < name.len() && #[trigger] name[i] == 0x2e {
        let i = choose|i: int| 0 <= i < name.len() && #[trigger] name[i] == 0x2e;
        assert(name.contains(DOT));
    }
}

/// The order in which rules answer a query: a CHAOS-class (3) query gets
/// diagnostics, a class other than IN (1) gets NOTIMP (4); then an exact
/// rule on name and type wins, then the unqualified rule for a name without
/// a dot, then the first query type rule, then the longest domain rule (a
/// stored value that is no action gives SERVFAIL, 2), then a rule learnt
/// while running, and else the query goes to the default upstream.
pub proof fn lemma_rule_priority(
    exact: Map<(Seq<u8>, u16), ActionId>,
    unq: Option<ActionId>,
    qrules: Seq<(QType, ActionId)>,
    domains: Map<Seq<u8>, u64>,
    runtime: Map<Seq<u8>, ActionId>,
    qclass: u16,
    name: Seq<u8>,
    qtype: u16,
)
    ensures
        ({
            let v = spec_decide(exact, unq, qrules, domains, runtime, qclass, name, qtype);
            let no_dot = forall|i: int| 0 <= i < name.len() ==> #[trigger] name[i] != 0x2e;
            &&& qclass == 3 ==> v == Verdict::Chaos
            &&& qclass != 3 && qclass != 1 ==> v == Verdict::Action(ActionId::RCode(RCode(4)))
            &&& qclass == 1 && exact.contains_key((name, qtype)) ==> v == Verdict::Action(exact[(name, qtype)])
            &&& qclass == 1 && !exact.contains_key((name, qtype)) && unq is Some && no_dot ==> v
                == Verdict::Action(unq->0)
            &&& qclass == 1 && !exact.contains_key((name, qtype)) && !(unq is Some && no_dot)
                && first_qtype_rule(qrules, qtype) is Some ==> v == Verdict::Action(
                first_qtype_rule(qrules, qtype)->0,
            )
            &&& qclass == 1 && !exact.contains_key((name, qtype)) && !(unq is Some && no_dot)
                && first_qtype_rule(qrules, qtype) is None && suffix_match(domains, name, 0) is Some ==> v
                == Verdict::Action(
                match decode(suffix_match(domains, name, 0)->0) {
                    Ok(a) => a,
                    Err(_) => ActionId::RCode(RCode(2)),
                },
            )
            &&& qclass == 1 && !exact.contains_key((name, qtype)) && !(unq is Some && no_dot)
                && first_qtype_rule(qrules, qtype) is None && suffix_match(domains, name, 0) is None
                && runtime.contains_key(name) ==> v == Verdict::Action(runtime[name])
            &&& qclass == 1 && !exact.contains_key((name, qtype)) && !(unq is Some && no_dot)
                && first_qtype_rule(qrules, qtype) is None && suffix_match(domains, name, 0) is None
                && !runtime.contains_key(name) ==> v == Verdict::Action(ActionId::Default)
        }),
{
    lemma_unqualified(name);
}

} // verus!
