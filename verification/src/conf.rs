//! The configuration: upstreams and rules, read line by line.
use vstd::prelude::*;

use crate::action::{encode, spec_parse_action, ActionId, ALT_BASE, ALT_CAP};
use crate::addr::{
    parse_ip, try_parse_addr, sort_addrs, sorted_addrs, spec_parse_addr, spec_parse_ip, IpAddr, Ipv4,
    SockAddr, DEFAULT_DNS_PORT,
};
use crate::dmap::{list_entries, DMapBuilder, HASH};
use crate::rr::{ascii, ascii_lower, lower_byte, matches_keyword, spec_parse_qtype, QType};
use crate::text::{find_byte, split_words, str_trim, trim_white, words};

verus! {

/// Why a configuration line was refused.
#[derive(PartialEq, Eq, Structural, Clone, Copy, Debug)]
pub enum ConfError {
    /// The line starts with no known keyword.
    UnrecognizedLine,
    /// `listen` without an address.
    MissingArgument,
    /// An address that does not read as one.
    BadAddress,
    /// `resolv-conf` without exactly one path.
    InvalidResolvConf,
    /// `domain` or `domain-list` without a domain and an action.
    InvalidDomainRule,
    /// `qtype` without a type and an action.
    InvalidQTypeRule,
    /// A query type that does not read as one.
    InvalidQType,
    /// `addr` without an address and an action.
    InvalidAddrRule,
    /// A rule without an action.
    ActionNotSpecified,
    /// A one-word action that is not `default` or a response code.
    InvalidAction,
    /// A longer action that is not `alt`.
    UnknownAction,
    /// `alt` without addresses.
    EmptyAlt,
    /// More alternative upstreams than the action encoding holds.
    TooManyAlts,
}

/// What is left to do for a configuration line once it is read: nothing, or
/// a file to read and hand back.
pub enum ConfStep {
    Done,
    /// Read the file at `path` and add it to the domain map builder with
    /// `prefix` and `value`.
    LoadDomainList { path: Vec<u8>, prefix: Vec<u8>, value: u64 },
    /// Read the file at `path` and hand its lines to `resolv_conf_lines`.
    ReadResolvConf { path: Vec<u8> },
}

/// A record to answer with.
pub struct Answer {
    pub qtype: QType,
    pub qclass: u16,
    pub ttl: u32,
    pub rdata: Vec<u8>,
}

/// The configuration.
pub struct Conf {
    pub listen: SockAddr,
    /// The default upstreams, tried in order.
    pub default: Vec<SockAddr>,
    /// The alternative upstreams, each sorted, no two alike.
    pub alts: Vec<Vec<SockAddr>>,
    pub rewrites: Vec<Vec<Answer>>,
    /// Rules on a name and query type; a later one for the same pair wins.
    pub exact_rules: Vec<(Vec<u8>, QType, ActionId)>,
    pub unqualified_rule: Option<ActionId>,
    pub qtype_rules: Vec<(QType, ActionId)>,
    /// Rules on an answer's address; a later one for the same address wins.
    pub addr_rules: Vec<(IpAddr, ActionId)>,
}

/// The address to listen on when none is configured: 0.0.0.0:53.
pub open spec fn default_listen() -> SockAddr {
    SockAddr::V4(Ipv4(0, 0, 0, 0), DEFAULT_DNS_PORT)
}

impl Default for Conf {
    fn default() -> (r: Self)
        ensures
            r.listen == default_listen(),
            r.default@.len() == 0,
            r.alts@.len() == 0,
            r.rewrites@.len() == 0,
            r.exact_rules@.len() == 0,
            r.unqualified_rule is None,
            r.qtype_rules@.len() == 0,
            r.addr_rules@.len() == 0,
    {
        Conf {
            listen: SockAddr::V4(Ipv4(0, 0, 0, 0), DEFAULT_DNS_PORT),
            default: Vec::new(),
            alts: Vec::new(),
            rewrites: Vec::new(),
            exact_rules: Vec::new(),
            unqualified_rule: None,
            qtype_rules: Vec::new(),
            addr_rules: Vec::new(),
        }
    }
}

/// The addresses the words read as, if all of them do.
pub open spec fn addrs_of(args: Seq<Seq<u8>>) -> Option<Seq<SockAddr>>
    decreases args.len(),
{
    if args.len() == 0 {
        Some(seq![])
    } else {
        match (addrs_of(args.drop_last()), spec_parse_addr(args.last())) {
            (Some(l), Some(a)) => Some(l.push(a)),
            _ => None,
        }
    }
}

/// The first position of `x` in `s`.
pub open spec fn first_index(s: Seq<Seq<SockAddr>>, x: Seq<SockAddr>) -> Option<nat>
    decreases s.len(),
{
    if s.len() == 0 {
        None
    } else if s[0] == x {
        Some(0)
    } else {
        match first_index(s.drop_first(), x) {
            Some(i) => Some(i + 1),
            None => None,
        }
    }
}

/// The action `alt <addr>...` stands for, with the alternative upstreams
/// after it: the same set of addresses, sorted, is the same upstream.
pub open spec fn resolve_alt(alts: Seq<Seq<SockAddr>>, args: Seq<Seq<u8>>) -> Result<
    (ActionId, Seq<Seq<SockAddr>>),
    ConfError,
> {
    if args.len() == 0 {
        Err(ConfError::EmptyAlt)
    } else {
        match addrs_of(args) {
            None => Err(ConfError::BadAddress),
            Some(l) => {
                let sorted = sort_addrs(l);
                match first_index(alts, sorted) {
                    Some(i) => if i < ALT_CAP - ALT_BASE {
                        Ok((ActionId::Alt(i as u8), alts))
                    } else {
                        Err(ConfError::TooManyAlts)
                    },
                    None => if alts.len() < ALT_CAP - ALT_BASE {
                        Ok((ActionId::Alt(alts.len() as u8), alts.push(sorted)))
                    } else {
                        Err(ConfError::TooManyAlts)
                    },
                }
            },
        }
    }
}

/// The action the words of a rule stand for, with the alternative upstreams
/// after it.
pub open spec fn resolve_action(alts: Seq<Seq<SockAddr>>, args: Seq<Seq<u8>>) -> Result<
    (ActionId, Seq<Seq<SockAddr>>),
    ConfError,
> {
    if args.len() == 0 {
        Err(ConfError::ActionNotSpecified)
    } else if args.len() == 1 {
        match spec_parse_action(ascii_lower(args[0])) {
            Ok(a) => Ok((a, alts)),
            Err(_) => Err(ConfError::InvalidAction),
        }
    } else if ascii_lower(args[0]) == ascii(seq!['a', 'l', 't']) {
        resolve_alt(alts, args.skip(1))
    } else {
        Err(ConfError::UnknownAction)
    }
}

/// A list path with an optional `^prefix`: the path before the first `^`,
/// and what follows it.
pub open spec fn split_caret(s: Seq<u8>) -> (Seq<u8>, Seq<u8>) {
    let k = find_byte(s, 0x5e);
    if k < s.len() {
        (s.take(k as int), s.skip((k + 1) as int))
    } else {
        (s, seq![])
    }
}

/// What a configuration line does.
pub enum LineEffect {
    /// Blank or comment.
    Nothing,
    Listen(SockAddr),
    Default(Seq<SockAddr>),
    ReadResolvConf(Seq<u8>),
    /// A domain rule: the domain, the action, the alternative upstreams after.
    Domain(Seq<u8>, ActionId, Seq<Seq<SockAddr>>),
    /// A domain-list rule: path, prefix, action, alternative upstreams after.
    DomainList(Seq<u8>, Seq<u8>, ActionId, Seq<Seq<SockAddr>>),
    /// A query type rule: type, action, alternative upstreams after.
    QType(u16, ActionId, Seq<Seq<SockAddr>>),
    /// An answer address rule: address, action, alternative upstreams after.
    Addr(IpAddr, ActionId, Seq<Seq<SockAddr>>),
    Refused(ConfError),
}

pub open spec fn kw_listen() -> Seq<u8> {
    ascii(seq!['l', 'i', 's', 't', 'e', 'n'])
}

pub open spec fn kw_default() -> Seq<u8> {
    ascii(seq!['d', 'e', 'f', 'a', 'u', 'l', 't'])
}

pub open spec fn kw_resolv_conf() -> Seq<u8> {
    ascii(seq!['r', 'e', 's', 'o', 'l', 'v', '-', 'c', 'o', 'n', 'f'])
}

pub open spec fn kw_domain() -> Seq<u8> {
    ascii(seq!['d', 'o', 'm', 'a', 'i', 'n'])
}

pub open spec fn kw_domain_list() -> Seq<u8> {
    ascii(seq!['d', 'o', 'm', 'a', 'i', 'n', '-', 'l', 'i', 's', 't'])
}

pub open spec fn kw_qtype() -> Seq<u8> {
    ascii(seq!['q', 't', 'y', 'p', 'e'])
}

pub open spec fn kw_addr() -> Seq<u8> {
    ascii(seq!['a', 'd', 'd', 'r'])
}

/// With `r` the resolved action of a rule, the effect `f` makes of it.
pub open spec fn with_action(
    r: Result<(ActionId, Seq<Seq<SockAddr>>), ConfError>,
    f: spec_fn(ActionId, Seq<Seq<SockAddr>>) -> LineEffect,
) -> LineEffect {
    match r {
        Ok((a, alts)) => f(a, alts),
        Err(e) => LineEffect::Refused(e),
    }
}

/// What the words of a non-blank, non-comment line do, given the
/// alternative upstreams so far. The keyword is read without regard to
/// ASCII case.
pub open spec fn line_effect(alts: Seq<Seq<SockAddr>>, args: Seq<Seq<u8>>) -> LineEffect {
    if args.len() == 0 {
        LineEffect::Nothing
    } else {
        let k = ascii_lower(args[0]);
        if k == kw_listen() {
            if args.len() < 2 {
                LineEffect::Refused(ConfError::MissingArgument)
            } else {
                match spec_parse_addr(args[1]) {
                    Some(a) => LineEffect::Listen(a),
                    None => LineEffect::Refused(ConfError::BadAddress),
                }
            }
        } else if k == kw_default() {
            match addrs_of(args.skip(1)) {
                Some(l) => LineEffect::Default(l),
                None => LineEffect::Refused(ConfError::BadAddress),
            }
        } else if k == kw_resolv_conf() {
            if args.len() != 2 {
                LineEffect::Refused(ConfError::InvalidResolvConf)
            } else {
                LineEffect::ReadResolvConf(args[1])
            }
        } else if k == kw_domain() {
            if args.len() < 3 {
                LineEffect::Refused(ConfError::InvalidDomainRule)
            } else {
                with_action(
                    resolve_action(alts, args.skip(2)),
                    |a: ActionId, n: Seq<Seq<SockAddr>>| LineEffect::Domain(args[1], a, n),
                )
            }
        } else if k == kw_domain_list() {
            if args.len() < 3 {
                LineEffect::Refused(ConfError::InvalidDomainRule)
            } else {
                with_action(
                    resolve_action(alts, args.skip(2)),
                    |a: ActionId, n: Seq<Seq<SockAddr>>|
                        LineEffect::DomainList(split_caret(args[1]).0, split_caret(args[1]).1, a, n),
                )
            }
        } else if k == kw_qtype() {
            if args.len() < 3 {
                LineEffect::Refused(ConfError::InvalidQTypeRule)
            } else {
                match spec_parse_qtype(args[1]) {
                    None => LineEffect::Refused(ConfError::InvalidQType),
                    Some(t) => with_action(
                        resolve_action(alts, args.skip(2)),
                        |a: ActionId, n: Seq<Seq<SockAddr>>| LineEffect::QType(t, a, n),
                    ),
                }
            }
        } else if k == kw_addr() {
            if args.len() < 3 {
                LineEffect::Refused(ConfError::InvalidAddrRule)
            } else {
                match spec_parse_ip(args[1]) {
                    None => LineEffect::Refused(ConfError::BadAddress),
                    Some(ip) => with_action(
                        resolve_action(alts, args.skip(2)),
                        |a: ActionId, n: Seq<Seq<SockAddr>>| LineEffect::Addr(ip, a, n),
                    ),
                }
            }
        } else {
            LineEffect::Refused(ConfError::UnrecognizedLine)
        }
    }
}

/// The bytes of a configuration line, trimmed of white space.
pub open spec fn trimmed_line(l: Seq<char>) -> Seq<u8> {
    vstd::utf8::encode_utf8(trim_white(l))
}

/// What a configuration line does.
pub open spec fn conf_line_effect(alts: Seq<Seq<SockAddr>>, l: Seq<char>) -> LineEffect {
    let t = trimmed_line(l);
    if t.len() == 0 || t[0] == HASH {
        LineEffect::Nothing
    } else {
        line_effect(alts, words(t))
    }
}

pub open spec fn alts_view(alts: Seq<Vec<SockAddr>>) -> Seq<Seq<SockAddr>> {
    alts.map_values(|v: Vec<SockAddr>| v@)
}

/// The alternative upstreams after a line with effect `eff`.
pub open spec fn alts_after(old_alts: Seq<Seq<SockAddr>>, eff: LineEffect) -> Seq<Seq<SockAddr>> {
    match eff {
        LineEffect::Domain(_, _, n) => n,
        LineEffect::DomainList(_, _, _, n) => n,
        LineEffect::QType(_, _, n) => n,
        LineEffect::Addr(_, _, n) => n,
        _ => old_alts,
    }
}

/// `new` is `old` after a line with effect `eff`.
pub open spec fn conf_updated(old: Conf, new: Conf, eff: LineEffect) -> bool {
    &&& new.rewrites@ == old.rewrites@
    &&& new.exact_rules@ == old.exact_rules@
    &&& new.unqualified_rule == old.unqualified_rule
    &&& new.listen == (match eff {
        LineEffect::Listen(a) => a,
        _ => old.listen,
    })
    &&& new.default@ == (match eff {
        LineEffect::Default(l) => l,
        _ => old.default@,
    })
    &&& alts_view(new.alts@) == alts_after(alts_view(old.alts@), eff)
    &&& (match eff {
        LineEffect::Domain(..) | LineEffect::DomainList(..) | LineEffect::QType(..)
        | LineEffect::Addr(..) => true,
        _ => new.alts@ == old.alts@,
    })
    &&& new.qtype_rules@ == (match eff {
        LineEffect::QType(t, a, _) => old.qtype_rules@.push((QType(t), a)),
        _ => old.qtype_rules@,
    })
    &&& new.addr_rules@ == (match eff {
        LineEffect::Addr(ip, a, _) => old.addr_rules@.push((ip, a)),
        _ => old.addr_rules@,
    })
}

/// What a line with effect `eff` adds to the domain lists of the builder.
pub open spec fn lists_added(eff: LineEffect) -> Seq<(Seq<u8>, u64)> {
    match eff {
        LineEffect::Domain(d, a, _) => list_entries(seq![d], encode(a)),
        _ => seq![],
    }
}

/// What is returned for a line with effect `eff`.
pub open spec fn step_for(eff: LineEffect, r: Result<ConfStep, ConfError>) -> bool {
    match eff {
        LineEffect::Refused(e) => r == Err::<ConfStep, ConfError>(e),
        LineEffect::ReadResolvConf(p) => r matches Ok(ConfStep::ReadResolvConf { path }) && path@ == p,
        LineEffect::DomainList(p, pre, a, _) => r matches Ok(
            ConfStep::LoadDomainList { path, prefix, value },
        ) && path@ == p && prefix@ == pre && value == encode(a),
        _ => r matches Ok(ConfStep::Done),
    }
}

/// The upstreams the lines of a resolver configuration name, as
/// `resolv_upstreams` says.
fn resolv_upstreams_exec(lines: &Vec<String>) -> (r: Option<Vec<SockAddr>>)
    ensures
        match resolv_upstreams(lines@.map_values(|l: String| l@)) {
            Some(l) => r matches Some(v) && v@ == l,
            None => r is None,
        },
{
    let ghost ls = lines@.map_values(|l: String| l@);
    let mut acc: Vec<SockAddr> = Vec::new();
    let mut i: usize = 0;
    assert(ls.take(0) =~= Seq::<Seq<char>>::empty());
    while i < lines.len()
        invariant
            ls == lines@.map_values(|l: String| l@),
            i <= lines@.len(),
            resolv_upstreams(ls.take(i as int)) == Some(acc@),
        decreases lines@.len() - i,
    {
        assert(ls.take(i + 1).drop_last() =~= ls.take(i as int));
        assert(ls.take(i + 1).last() == lines@[i as int]@);
        match resolv_line_exec(lines[i].as_str()) {
            None => {},
            Some(Some(a)) => {
                acc.push(a);
            },
            Some(None) => {
                proof {
                    assert(ls[i as int] == lines@[i as int]@);
                    lemma_resolv_upstreams_fails(ls, i as int);
                }
                return None;
            },
        }
        i = i + 1;
    }
    assert(ls.take(i as int) =~= ls);
    Some(acc)
}

/// The error a line with effect `eff` is refused with, if it is.
pub open spec fn refusal(eff: LineEffect) -> Option<ConfError> {
    match eff {
        LineEffect::Refused(e) => Some(e),
        _ => None,
    }
}

/// A copy of the alternative upstreams.
fn copy_alts(alts: &Vec<Vec<SockAddr>>) -> (r: Vec<Vec<SockAddr>>)
    ensures
        alts_view(r@) == alts_view(alts@),
{
    let mut r: Vec<Vec<SockAddr>> = Vec::with_capacity(alts.len());
    let mut i: usize = 0;
    while i < alts.len()
        invariant
            i <= alts@.len(),
            r@.len() == i,
            forall|j: int| 0 <= j < i ==> (#[trigger] r@[j])@ == alts@[j]@,
        decreases alts@.len() - i,
    {
        let a = &alts[i];
        let mut c: Vec<SockAddr> = Vec::with_capacity(a.len());
        let mut k: usize = 0;
        while k < a.len()
            invariant
                k <= a@.len(),
                c@ == a@.take(k as int),
            decreases a@.len() - k,
        {
            c.push(a[k]);
            k = k + 1;
            assert(c@ =~= a@.take(k as int));
        }
        assert(a@.take(k as int) =~= a@);
        r.push(c);
        i = i + 1;
    }
    assert(alts_view(r@) =~= alts_view(alts@));
    r
}

proof fn lemma_first_index_push(s: Seq<Seq<SockAddr>>, x: Seq<SockAddr>)
    requires
        first_index(s, x) is None,
    ensures
        first_index(s.push(x), x) == Some(s.len()),
    decreases s.len(),
{
    if s.len() > 0 {
        assert(s.push(x).drop_first() =~= s.drop_first().push(x));
        lemma_first_index_push(s.drop_first(), x);
    } else {
        assert(s.push(x)[0] == x);
    }
}

/// Naming the same alternative upstream again gives the same action and
/// registers nothing new.
pub proof fn lemma_alt_idempotent(alts: Seq<Seq<SockAddr>>, args: Seq<Seq<u8>>)
    requires
        resolve_alt(alts, args) is Ok,
    ensures
        resolve_alt(resolve_alt(alts, args)->Ok_0.1, args) == resolve_alt(alts, args),
{
    let l = addrs_of(args)->0;
    let sorted = sort_addrs(l);
    if first_index(alts, sorted) is None {
        lemma_first_index_push(alts, sorted);
    }
}

/// An alternative upstream is a set of addresses: naming the same addresses
/// in another order gives the same action and registers the same upstream.
pub proof fn lemma_alt_order_free(alts: Seq<Seq<SockAddr>>, a: Seq<Seq<u8>>, b: Seq<Seq<u8>>)
    requires
        addrs_of(a) is Some,
        addrs_of(b) is Some,
        addrs_of(a)->0.to_multiset() == addrs_of(b)->0.to_multiset(),
    ensures
        resolve_alt(alts, a) == resolve_alt(alts, b),
{
    broadcast use vstd::seq_lib::group_to_multiset_ensures;

    lemma_addrs_of_len(a);
    lemma_addrs_of_len(b);
    assert(addrs_of(a)->0.len() == addrs_of(a)->0.to_multiset().len());
    assert(addrs_of(b)->0.len() == addrs_of(b)->0.to_multiset().len());
    crate::addr::lemma_sort_addrs_order_free(addrs_of(a)->0, addrs_of(b)->0);
}

/// The words as byte strings.
pub open spec fn wv(args: Seq<Vec<u8>>) -> Seq<Seq<u8>> {
    args.map_values(|w: Vec<u8>| w@)
}

proof fn lemma_addrs_of_all(s: Seq<Seq<u8>>, i: int)
    requires
        addrs_of(s) is Some,
        0 <= i < s.len(),
    ensures
        spec_parse_addr(s[i]) is Some,
        addrs_of(s)->0[i] == spec_parse_addr(s[i])->0,
        addrs_of(s)->0.len() == s.len(),
    decreases s.len(),
{
    if i < s.len() - 1 {
        lemma_addrs_of_all(s.drop_last(), i);
    }
    lemma_addrs_of_len(s);
}

proof fn lemma_addrs_of_len(s: Seq<Seq<u8>>)
    requires
        addrs_of(s) is Some,
    ensures
        addrs_of(s)->0.len() == s.len(),
    decreases s.len(),
{
    if s.len() > 0 {
        lemma_addrs_of_len(s.drop_last());
    }
}

/// The addresses the words `args[from..]` read as, if all of them do.
fn parse_addrs(args: &Vec<Vec<u8>>, from: usize) -> (r: Option<Vec<SockAddr>>)
    requires
        from <= args@.len(),
    ensures
        match addrs_of(wv(args@).skip(from as int)) {
            Some(l) => r matches Some(v) && v@ == l,
            None => r is None,
        },
{
    let ghost all = wv(args@).skip(from as int);
    let mut acc: Vec<SockAddr> = Vec::new();
    let mut i = from;
    assert(all.take(0) =~= Seq::<Seq<u8>>::empty());
    while i < args.len()
        invariant
            from <= i <= args@.len(),
            all == wv(args@).skip(from as int),
            addrs_of(all.take(i - from)) == Some(acc@),
        decreases args@.len() - i,
    {
        assert(all.take(i - from + 1).drop_last() =~= all.take(i - from));
        assert(all.take(i - from + 1).last() == args@[i as int]@);
        match try_parse_addr(args[i].as_slice()) {
            Some(a) => {
                acc.push(a);
            },
            None => {
                proof {
                    if addrs_of(all) is Some {
                        lemma_addrs_of_all(all, i - from);
                    }
                }
                return None;
            },
        }
        i = i + 1;
    }
    assert(all.take(i - from) =~= all);
    Some(acc)
}

proof fn lemma_first_index(s: Seq<Seq<SockAddr>>, x: Seq<SockAddr>, i: int)
    requires
        0 <= i <= s.len(),
        forall|j: int| 0 <= j < i ==> #[trigger] s[j] != x,
    ensures
        i < s.len() && s[i] == x ==> first_index(s, x) == Some(i as nat),
        i == s.len() ==> first_index(s, x) is None,
    decreases i,
{
    if i > 0 && s.len() > 0 {
        assert forall|j: int| 0 <= j < i - 1 implies #[trigger] s.drop_first()[j] != x by {
            assert(s.drop_first()[j] == s[j + 1]);
        }
        lemma_first_index(s.drop_first(), x, i - 1);
    }
}

/// Whether two lists of addresses are the same.
fn same_addrs(a: &Vec<SockAddr>, b: &Vec<SockAddr>) -> (r: bool)
    ensures
        r == (a@ == b@),
{
    if a.len() != b.len() {
        return false;
    }
    let mut i: usize = 0;
    while i < a.len()
        invariant
            a@.len() == b@.len(),
            i <= a@.len(),
            forall|j: int| 0 <= j < i ==> a@[j] == #[trigger] b@[j],
        decreases a@.len() - i,
    {
        if a[i] != b[i] {
            return false;
        }
        i = i + 1;
    }
    assert(a@ =~= b@);
    true
}

/// Resolves `alt` with the addresses `args[from..]`, registering a new
/// alternative upstream when needed.
fn inner_alt(alts: &mut Vec<Vec<SockAddr>>, args: &Vec<Vec<u8>>, from: usize) -> (r: Result<
    ActionId,
    ConfError,
>)
    requires
        from <= args@.len(),
    ensures
        match resolve_alt(alts_view(old(alts)@), wv(args@).skip(from as int)) {
            Ok((a, n)) => r == Ok::<ActionId, ConfError>(a) && alts_view(final(alts)@) == n,
            Err(e) => r == Err::<ActionId, ConfError>(e) && final(alts)@ == old(alts)@,
        },
{
    if from >= args.len() {
        return Err(ConfError::EmptyAlt);
    }
    let l = match parse_addrs(args, from) {
        Some(l) => l,
        None => {
            return Err(ConfError::BadAddress);
        },
    };
    let sorted = sorted_addrs(&l);
    let ghost av = alts_view(alts@);
    let mut i: usize = 0;
    while i < alts.len()
        invariant
            i <= alts@.len(),
            av == alts_view(alts@),
            alts@ == old(alts)@,
            sorted@ == sort_addrs(l@),
            from < args@.len(),
            addrs_of(wv(args@).skip(from as int)) == Some(l@),
            forall|j: int| 0 <= j < i ==> #[trigger] av[j] != sorted@,
        decreases alts@.len() - i,
    {
        if same_addrs(&alts[i], &sorted) {
            proof {
                assert(av[i as int] == sorted@);
                lemma_first_index(av, sorted@, i as int);
            }
            if i < (ALT_CAP - ALT_BASE) as usize {
                return Ok(ActionId::Alt(i as u8));
            } else {
                return Err(ConfError::TooManyAlts);
            }
        }
        i = i + 1;
    }
    proof {
        lemma_first_index(av, sorted@, i as int);
    }
    if alts.len() >= (ALT_CAP - ALT_BASE) as usize {
        return Err(ConfError::TooManyAlts);
    }
    let id = alts.len() as u8;
    alts.push(sorted);
    assert(alts_view(alts@) =~= av.push(sort_addrs(l@)));
    Ok(ActionId::Alt(id))
}

/// Resolves the action of a rule from its words `args[from..]`.
fn inner_action(alts: &mut Vec<Vec<SockAddr>>, args: &Vec<Vec<u8>>, from: usize) -> (r: Result<
    ActionId,
    ConfError,
>)
    requires
        from <= args@.len(),
    ensures
        match resolve_action(alts_view(old(alts)@), wv(args@).skip(from as int)) {
            Ok((a, n)) => r == Ok::<ActionId, ConfError>(a) && alts_view(final(alts)@) == n,
            Err(e) => r == Err::<ActionId, ConfError>(e) && final(alts)@ == old(alts)@,
        },
{
    let ghost rest = wv(args@).skip(from as int);
    let n = args.len() - from;
    if n == 0 {
        return Err(ConfError::ActionNotSpecified);
    }
    assert(rest[0] == args@[from as int]@);
    let low = lowercase(args[from].as_slice());
    if n == 1 {
        return match ActionId::parse(low.as_slice()) {
            Ok(a) => Ok(a),
            Err(()) => Err(ConfError::InvalidAction),
        };
    }
    let alt: [char; 3] = ['a', 'l', 't'];
    assert(alt@ =~= seq!['a', 'l', 't']);
    if matches_keyword(args[from].as_slice(), alt.as_slice()) {
        assert(rest.skip(1) =~= wv(args@).skip(from + 1));
        inner_alt(alts, args, from + 1)
    } else {
        Err(ConfError::UnknownAction)
    }
}

/// `s` with its upper-case ASCII letters made lower-case.
pub fn lowercase(s: &[u8]) -> (r: Vec<u8>)
    ensures
        r@ == ascii_lower(s@),
{
    let mut r: Vec<u8> = Vec::with_capacity(s.len());
    let mut i: usize = 0;
    while i < s.len()
        invariant
            i <= s@.len(),
            r@ == ascii_lower(s@.take(i as int)),
        decreases s@.len() - i,
    {
        r.push(lower_byte(s[i]));
        i = i + 1;
        assert(r@ =~= ascii_lower(s@.take(i as int)));
    }
    assert(s@.take(i as int) =~= s@);
    r
}

/// The first position of a space in `s`, or its length.
pub open spec fn space_index(s: Seq<char>) -> nat
    decreases s.len(),
{
    if s.len() == 0 || s[0] == ' ' {
        0
    } else {
        1 + space_index(s.drop_first())
    }
}

/// The upstream a line of a resolver configuration names, if it names one
/// (`Some(None)` for an address that does not read as one): a line
/// `nameserver <addr>`; blank lines, `#` comments and other lines name none.
pub open spec fn resolv_line(line: Seq<char>) -> Option<Option<SockAddr>> {
    let t = trim_white(line);
    let i = space_index(t);
    if t.len() == 0 || t[0] == '#' || i >= t.len() {
        None
    } else if t.take(i as int) == seq!['n', 'a', 'm', 'e', 's', 'e', 'r', 'v', 'e', 'r'] {
        Some(spec_parse_addr(vstd::utf8::encode_utf8(trim_white(t.skip((i + 1) as int)))))
    } else {
        None
    }
}

/// The upstreams the lines of a resolver configuration name, in order, if
/// each of their addresses reads as one.
pub open spec fn resolv_upstreams(lines: Seq<Seq<char>>) -> Option<Seq<SockAddr>>
    decreases lines.len(),
{
    if lines.len() == 0 {
        Some(seq![])
    } else {
        match resolv_upstreams(lines.drop_last()) {
            None => None,
            Some(l) => match resolv_line(lines.last()) {
                None => Some(l),
                Some(Some(a)) => Some(l.push(a)),
                Some(None) => None,
            },
        }
    }
}

proof fn lemma_resolv_upstreams_fails(lines: Seq<Seq<char>>, i: int)
    requires
        0 <= i < lines.len(),
        resolv_line(lines[i]) == Some(None::<SockAddr>),
    ensures
        resolv_upstreams(lines) is None,
    decreases lines.len(),
{
    if i < lines.len() - 1 {
        lemma_resolv_upstreams_fails(lines.drop_last(), i);
    }
}

/// The lines of a resolver configuration that name an upstream.
pub open spec fn naming_lines(lines: Seq<Seq<char>>) -> Seq<Seq<char>> {
    lines.filter(|l: Seq<char>| resolv_line(l) is Some)
}

/// Every `nameserver` line of a resolver configuration names an upstream,
/// in order: where each of their addresses reads as one, the upstreams are
/// exactly the addresses of those lines, one for each line, in the order of
/// the lines; where one does not, there are none.
pub proof fn lemma_resolv_upstreams_all(lines: Seq<Seq<char>>)
    ensures
        (forall|i: int| 0 <= i < lines.len() ==> #[trigger] resolv_line(lines[i]) != Some(None::<SockAddr>))
            ==> resolv_upstreams(lines) == Some(
            naming_lines(lines).map_values(|l: Seq<char>| resolv_line(l)->0->0),
        ),
        (exists|i: int| 0 <= i < lines.len() && #[trigger] resolv_line(lines[i]) == Some(None::<SockAddr>))
            ==> resolv_upstreams(lines) is None,
    decreases lines.len(),
{
    reveal(Seq::filter);
    if exists|i: int| 0 <= i < lines.len() && #[trigger] resolv_line(lines[i]) == Some(None::<SockAddr>) {
        let i = choose|i: int| 0 <= i < lines.len() && #[trigger] resolv_line(lines[i]) == Some(None::<SockAddr>);
        lemma_resolv_upstreams_fails(lines, i);
    }
    if lines.len() > 0 {
        let d = lines.drop_last();
        lemma_resolv_upstreams_all(d);
        if forall|i: int| 0 <= i < lines.len() ==> #[trigger] resolv_line(lines[i]) != Some(None::<SockAddr>) {
            assert forall|i: int| 0 <= i < d.len() implies #[trigger] resolv_line(d[i]) != Some(None::<SockAddr>) by {
                assert(d[i] == lines[i]);
                assert(resolv_line(lines[i]) != Some(None::<SockAddr>));
            }
            assert(resolv_line(lines[lines.len() - 1]) != Some(None::<SockAddr>));
            let f = |l: Seq<char>| resolv_line(l)->0->0;
            let nd = naming_lines(d);
            if resolv_line(lines.last()) is Some {
                assert(naming_lines(lines) == nd.push(lines.last()));
                assert(nd.push(lines.last()).map_values(f) =~= nd.map_values(f).push(f(lines.last())));
            } else {
                assert(naming_lines(lines) == nd);
            }
        }
    } else {
        assert(naming_lines(lines) =~= Seq::<Seq<char>>::empty());
        assert(naming_lines(lines).map_values(|l: Seq<char>| resolv_line(l)->0->0) =~= Seq::<SockAddr>::empty());
    }
}

/// The keywords of a configuration line, read in any ASCII case, and what
/// each does with the words after it; a line whose first word is none of
/// them is refused.
pub proof fn lemma_line_keywords(alts: Seq<Seq<SockAddr>>, args: Seq<Seq<u8>>)
    requires
        args.len() > 0,
    ensures
        ({
            let k = ascii_lower(args[0]);
            let e = line_effect(alts, args);
            &&& k == seq![0x6cu8, 0x69u8, 0x73u8, 0x74u8, 0x65u8, 0x6eu8] && args.len() >= 2 && spec_parse_addr(args[1]) is Some ==> e
                == LineEffect::Listen(spec_parse_addr(args[1])->0)
            &&& k == seq![0x64u8, 0x65u8, 0x66u8, 0x61u8, 0x75u8, 0x6cu8, 0x74u8] && addrs_of(args.skip(1)) is Some ==> e == LineEffect::Default(
                addrs_of(args.skip(1))->0,
            )
            &&& k == seq![0x72u8, 0x65u8, 0x73u8, 0x6fu8, 0x6cu8, 0x76u8, 0x2du8, 0x63u8, 0x6fu8, 0x6eu8, 0x66u8] && args.len() == 2 ==> e == LineEffect::ReadResolvConf(args[1])
            &&& k == seq![0x72u8, 0x65u8, 0x73u8, 0x6fu8, 0x6cu8, 0x76u8, 0x2du8, 0x63u8, 0x6fu8, 0x6eu8, 0x66u8] && args.len() != 2 ==> e == LineEffect::Refused(ConfError::InvalidResolvConf)
            &&& k == seq![0x64u8, 0x6fu8, 0x6du8, 0x61u8, 0x69u8, 0x6eu8] && args.len() >= 3 && resolve_action(alts, args.skip(2)) is Ok ==> e
                == LineEffect::Domain(
                args[1],
                resolve_action(alts, args.skip(2))->Ok_0.0,
                resolve_action(alts, args.skip(2))->Ok_0.1,
            )
            &&& k == seq![0x64u8, 0x6fu8, 0x6du8, 0x61u8, 0x69u8, 0x6eu8, 0x2du8, 0x6cu8, 0x69u8, 0x73u8, 0x74u8] && args.len() >= 3 && resolve_action(alts, args.skip(2)) is Ok ==> e
                == LineEffect::DomainList(
                split_caret(args[1]).0,
                split_caret(args[1]).1,
                resolve_action(alts, args.skip(2))->Ok_0.0,
                resolve_action(alts, args.skip(2))->Ok_0.1,
            )
            &&& k == seq![0x71u8, 0x74u8, 0x79u8, 0x70u8, 0x65u8] && args.len() >= 3 && spec_parse_qtype(args[1]) is Some && resolve_action(
                alts,
                args.skip(2),
            ) is Ok ==> e == LineEffect::QType(
                spec_parse_qtype(args[1])->0,
                resolve_action(alts, args.skip(2))->Ok_0.0,
                resolve_action(alts, args.skip(2))->Ok_0.1,
            )
            &&& k == seq![0x61u8, 0x64u8, 0x64u8, 0x72u8] && args.len() >= 3 && spec_parse_ip(args[1]) is Some && resolve_action(
                alts,
                args.skip(2),
            ) is Ok ==> e == LineEffect::Addr(
                spec_parse_ip(args[1])->0,
                resolve_action(alts, args.skip(2))->Ok_0.0,
                resolve_action(alts, args.skip(2))->Ok_0.1,
            )
            &&& k != seq![0x6cu8, 0x69u8, 0x73u8, 0x74u8, 0x65u8, 0x6eu8] && k != seq![0x64u8, 0x65u8, 0x66u8, 0x61u8, 0x75u8, 0x6cu8, 0x74u8] && k != seq![0x72u8, 0x65u8, 0x73u8, 0x6fu8, 0x6cu8, 0x76u8, 0x2du8, 0x63u8, 0x6fu8, 0x6eu8, 0x66u8] && k != seq![0x64u8, 0x6fu8, 0x6du8, 0x61u8, 0x69u8, 0x6eu8] && k
                != seq![0x64u8, 0x6fu8, 0x6du8, 0x61u8, 0x69u8, 0x6eu8, 0x2du8, 0x6cu8, 0x69u8, 0x73u8, 0x74u8] && k != seq![0x71u8, 0x74u8, 0x79u8, 0x70u8, 0x65u8] && k != seq![0x61u8, 0x64u8, 0x64u8, 0x72u8] ==> e == LineEffect::Refused(
                ConfError::UnrecognizedLine,
            )
        }),
{
    assert(ascii(seq!['l', 'i', 's', 't', 'e', 'n']) =~= seq![0x6cu8, 0x69u8, 0x73u8, 0x74u8, 0x65u8, 0x6eu8]);
    assert(ascii(seq!['d', 'e', 'f', 'a', 'u', 'l', 't']) =~= seq![0x64u8, 0x65u8, 0x66u8, 0x61u8, 0x75u8, 0x6cu8, 0x74u8]);
    assert(ascii(seq!['r', 'e', 's', 'o', 'l', 'v', '-', 'c', 'o', 'n', 'f']) =~= seq![0x72u8, 0x65u8, 0x73u8, 0x6fu8, 0x6cu8, 0x76u8, 0x2du8, 0x63u8, 0x6fu8, 0x6eu8, 0x66u8]);
    assert(ascii(seq!['d', 'o', 'm', 'a', 'i', 'n']) =~= seq![0x64u8, 0x6fu8, 0x6du8, 0x61u8, 0x69u8, 0x6eu8]);
    assert(ascii(seq!['d', 'o', 'm', 'a', 'i', 'n', '-', 'l', 'i', 's', 't']) =~= seq![0x64u8, 0x6fu8, 0x6du8, 0x61u8, 0x69u8, 0x6eu8, 0x2du8, 0x6cu8, 0x69u8, 0x73u8, 0x74u8]);
    assert(ascii(seq!['q', 't', 'y', 'p', 'e']) =~= seq![0x71u8, 0x74u8, 0x79u8, 0x70u8, 0x65u8]);
    assert(ascii(seq!['a', 'd', 'd', 'r']) =~= seq![0x61u8, 0x64u8, 0x64u8, 0x72u8]);
}

/// The upstream a line of a resolver configuration names.
fn resolv_line_exec(line: &str) -> (r: Option<Option<SockAddr>>)
    ensures
        r == resolv_line(line@),
{
    let t = str_trim(line);
    let n = t.unicode_len();
    if n == 0 {
        return None;
    }
    if t.get_char(0) == '#' {
        return None;
    }
    let mut i: usize = 0;
    while i < n && t.get_char(i) != ' '
        invariant
            n == t@.len(),
            i <= n,
            forall|j: int| 0 <= j < i ==> #[trigger] t@[j] != ' ',
        decreases n - i,
    {
        i = i + 1;
    }
    proof {
        lemma_space_index(t@, i as int);
    }
    if i >= n {
        return None;
    }
    let key: [char; 10] = ['n', 'a', 'm', 'e', 's', 'e', 'r', 'v', 'e', 'r'];
    assert(key@ =~= seq!['n', 'a', 'm', 'e', 's', 'e', 'r', 'v', 'e', 'r']);
    if i != 10 {
        assert(t@.take(i as int).len() == i);
        return None;
    }
    let mut j: usize = 0;
    while j < 10
        invariant
            n == t@.len(),
            i == 10 < n,
            j <= 10,
            t@ == trim_white(line@),
            space_index(t@) == 10,
            t@[0] != '#',
            key@ == seq!['n', 'a', 'm', 'e', 's', 'e', 'r', 'v', 'e', 'r'],
            forall|q: int| 0 <= q < j ==> #[trigger] t@[q] == key@[q],
        decreases 10 - j,
    {
        if t.get_char(j) != key[j] {
            assert(t@.take(10)[j as int] != key@[j as int]);
            return None;
        }
        j = j + 1;
    }
    assert(t@.take(10) =~= key@);
    let v = t.substring_char(i + 1, n);
    assert(v@ =~= t@.skip(i + 1));
    let w = str_trim(v);
    Some(try_parse_addr(w.as_bytes()))
}

proof fn lemma_space_index(s: Seq<char>, k: int)
    requires
        0 <= k <= s.len(),
        forall|j: int| 0 <= j < k ==> #[trigger] s[j] != ' ',
        k == s.len() || s[k] == ' ',
    ensures
        space_index(s) == k,
    decreases k,
{
    if k > 0 {
        lemma_space_index(s.drop_first(), k - 1);
    }
}

proof fn lemma_space_index_props(s: Seq<char>)
    ensures
        space_index(s) <= s.len(),
        forall|j: int| 0 <= j < space_index(s) ==> #[trigger] s[j] != ' ',
        space_index(s) < s.len() ==> s[space_index(s) as int] == ' ',
    decreases s.len(),
{
    if s.len() > 0 && s[0] != ' ' {
        lemma_space_index_props(s.drop_first());
        assert forall|j: int| 0 <= j < space_index(s) implies #[trigger] s[j] != ' ' by {
            if j > 0 {
                assert(s[j] == s.drop_first()[j - 1]);
            }
        }
    }
}

/// Only a `nameserver` line of a resolver configuration names an upstream:
/// its trimmed text starts with the word `nameserver` and a space, and its
/// upstream is what follows, trimmed, read as an address.
pub proof fn lemma_resolv_line_nameserver(line: Seq<char>)
    ensures
        resolv_line(line) is Some ==> ({
            let t = trim_white(line);
            &&& t.len() > 10
            &&& t.take(10) == seq!['n', 'a', 'm', 'e', 's', 'e', 'r', 'v', 'e', 'r']
            &&& t[10] == ' '
            &&& resolv_line(line) == Some(
                spec_parse_addr(vstd::utf8::encode_utf8(trim_white(t.skip(11)))),
            )
        }),
{
    let t = trim_white(line);
    lemma_space_index_props(t);
    let i = space_index(t);
    if resolv_line(line) is Some {
        assert(t.take(i as int).len() == 10);
    }
}

/// The order of query type rules: stably by query type.
pub open spec fn insert_rule(s: Seq<(QType, ActionId)>, x: (QType, ActionId)) -> Seq<(QType, ActionId)>
    decreases s.len(),
{
    if s.len() == 0 {
        seq![x]
    } else if x.0.0 < s.last().0.0 {
        insert_rule(s.drop_last(), x).push(s.last())
    } else {
        s.push(x)
    }
}

/// Query type rules sorted stably by query type.
pub open spec fn sort_rules(s: Seq<(QType, ActionId)>) -> Seq<(QType, ActionId)>
    decreases s.len(),
{
    if s.len() == 0 {
        seq![]
    } else {
        insert_rule(sort_rules(s.drop_last()), s.last())
    }
}

proof fn lemma_insert_rule_at(s: Seq<(QType, ActionId)>, x: (QType, ActionId), j: int)
    requires
        0 <= j <= s.len(),
        forall|k: int| j <= k < s.len() ==> x.0.0 < (#[trigger] s[k]).0.0,
        j == 0 || !(x.0.0 < s[j - 1].0.0),
    ensures
        insert_rule(s, x) == s.take(j) + seq![x] + s.skip(j),
    decreases s.len() - j,
{
    if s.len() == 0 {
        assert(s.take(j) + seq![x] + s.skip(j) =~= seq![x]);
    } else if j == s.len() {
        assert(s.take(j) + seq![x] + s.skip(j) =~= s.push(x));
    } else {
        let t = s.drop_last();
        assert forall|k: int| j <= k < t.len() implies x.0.0 < (#[trigger] t[k]).0.0 by {
            assert(t[k] == s[k]);
        }
        lemma_insert_rule_at(t, x, j);
        assert(t.take(j) + seq![x] + t.skip(j) + seq![s.last()] =~= s.take(j) + seq![x] + s.skip(j));
    }
}

fn insert_rule_exec(s: &mut Vec<(QType, ActionId)>, x: (QType, ActionId))
    ensures
        final(s)@ == insert_rule(old(s)@, x),
{
    let mut j = s.len();
    while j > 0 && x.0.0 < s[j - 1].0.0
        invariant
            j <= s@.len(),
            forall|k: int| j <= k < s@.len() ==> x.0.0 < (#[trigger] s@[k]).0.0,
        decreases j,
    {
        j = j - 1;
    }
    proof {
        lemma_insert_rule_at(s@, x, j as int);
    }
    s.insert(j, x);
    assert(s@ =~= old(s)@.take(j as int) + seq![x] + old(s)@.skip(j as int));
}

impl Conf {
    /// Sorts the query type rules by query type, keeping the order of rules
    /// for the same type, so that they can be searched.
    pub fn finalize(&mut self)
        ensures
            final(self).qtype_rules@ == sort_rules(old(self).qtype_rules@),
            final(self).listen == old(self).listen,
            final(self).default@ == old(self).default@,
            final(self).alts@ == old(self).alts@,
            final(self).rewrites@ == old(self).rewrites@,
            final(self).exact_rules@ == old(self).exact_rules@,
            final(self).unqualified_rule == old(self).unqualified_rule,
            final(self).addr_rules@ == old(self).addr_rules@,
    {
        let mut sorted: Vec<(QType, ActionId)> = Vec::new();
        let mut i: usize = 0;
        let ghost orig = self.qtype_rules@;
        assert(orig.take(0) =~= Seq::<(QType, ActionId)>::empty());
        while i < self.qtype_rules.len()
            invariant
                orig == self.qtype_rules@,
                i <= orig.len(),
                sorted@ == sort_rules(orig.take(i as int)),
            decreases orig.len() - i,
        {
            assert(orig.take(i + 1).drop_last() =~= orig.take(i as int));
            insert_rule_exec(&mut sorted, self.qtype_rules[i]);
            i = i + 1;
        }
        assert(orig.take(i as int) =~= orig);
        self.qtype_rules = sorted;
    }

    /// Why the lines of a resolver configuration would be refused, if they
    /// would: an address on a `nameserver` line that does not read as one.
    /// A program reading such a file stops there, before `resolv_conf_lines`.
    pub fn resolv_conf_refusal(lines: &Vec<String>) -> (r: Option<ConfError>)
        ensures
            r == (if resolv_upstreams(lines@.map_values(|l: String| l@)) is Some {
                None::<ConfError>
            } else {
                Some(ConfError::BadAddress)
            }),
    {
        match resolv_upstreams_exec(lines) {
            Some(_) => None,
            None => Some(ConfError::BadAddress),
        }
    }

    /// Takes the default upstreams from the lines of a resolver
    /// configuration that `resolv_conf_refusal` does not refuse: those named
    /// by its `nameserver` lines, in order, in place of the earlier ones.
    pub fn resolv_conf_lines(&mut self, lines: &Vec<String>)
        requires
            resolv_upstreams(lines@.map_values(|l: String| l@)) is Some,
        ensures
            final(self).default@ == resolv_upstreams(lines@.map_values(|l: String| l@))->0,
            final(self).listen == old(self).listen,
            final(self).alts@ == old(self).alts@,
            final(self).rewrites@ == old(self).rewrites@,
            final(self).exact_rules@ == old(self).exact_rules@,
            final(self).unqualified_rule == old(self).unqualified_rule,
            final(self).qtype_rules@ == old(self).qtype_rules@,
            final(self).addr_rules@ == old(self).addr_rules@,
    {
        match resolv_upstreams_exec(lines) {
            Some(v) => {
                self.default = v;
            },
            None => {},
        }
    }

    /// Why the configuration line `l` would be refused, if it would; it
    /// changes nothing. A line is refused exactly where `line_effect` says
    /// so, with the error it names: an unknown keyword, a rule with too few
    /// words, `resolv-conf` without exactly one path, an address or query
    /// type that does not read as one, no action or an unknown one, or a new
    /// alternative upstream when the action encoding holds no more. A
    /// configuration with such a line is not usable: a program reading it
    /// stops there, before `conf_line`.
    pub fn line_refusal(&self, l: &str) -> (r: Option<ConfError>)
        ensures
            r == refusal(conf_line_effect(alts_view(self.alts@), l@)),
    {
        let mut scratch = Conf {
            listen: self.listen,
            default: Vec::new(),
            alts: copy_alts(&self.alts),
            rewrites: Vec::new(),
            exact_rules: Vec::new(),
            unqualified_rule: None,
            qtype_rules: Vec::new(),
            addr_rules: Vec::new(),
        };
        let mut sb = DMapBuilder::default();
        match scratch.apply_line(&mut sb, l) {
            Ok(_) => None,
            Err(e) => Some(e),
        }
    }

    /// Reads one configuration line that `line_refusal` does not refuse:
    /// blank lines and `#` comments do nothing; else its first word (in any
    /// ASCII case) says what the rest does. A `domain` rule adds its domain
    /// to `b`; a `domain-list` or `resolv-conf` line hands back the file to
    /// read.
    pub fn conf_line(&mut self, b: &mut DMapBuilder, l: &str) -> (r: ConfStep)
        requires
            !(conf_line_effect(alts_view(old(self).alts@), l@) is Refused),
        ensures
            conf_updated(*old(self), *final(self), conf_line_effect(alts_view(old(self).alts@), l@)),
            final(b).pending() == old(b).pending() + lists_added(
                conf_line_effect(alts_view(old(self).alts@), l@),
            ),
            step_for(conf_line_effect(alts_view(old(self).alts@), l@), Ok::<ConfStep, ConfError>(r)),
    {
        match self.apply_line(b, l) {
            Ok(step) => step,
            Err(_) => {
                proof {
                    assert(false);
                }
                ConfStep::Done
            },
        }
    }

    /// Reads one configuration line, or says why it is refused; a refused
    /// line changes neither the configuration nor `b`.
    fn apply_line(&mut self, b: &mut DMapBuilder, l: &str) -> (r: Result<ConfStep, ConfError>)
        ensures
            r is Err <==> conf_line_effect(alts_view(old(self).alts@), l@) is Refused,
            conf_updated(*old(self), *final(self), conf_line_effect(alts_view(old(self).alts@), l@)),
            final(b).pending() == old(b).pending() + lists_added(
                conf_line_effect(alts_view(old(self).alts@), l@),
            ),
            step_for(conf_line_effect(alts_view(old(self).alts@), l@), r),
    {
        let ghost eff = conf_line_effect(alts_view(self.alts@), l@);
        let t = str_trim(l);
        let bytes = t.as_bytes();
        assert(bytes@ == trimmed_line(l@));
        if bytes.len() == 0 || bytes[0] == HASH {
            assert(old(b).pending() + Seq::<(Seq<u8>, u64)>::empty() =~= old(b).pending());
            return Ok(ConfStep::Done);
        }
        let args = split_words(bytes);
        assert(wv(args@) == words(bytes@));
        let ghost a = wv(args@);
        assert(eff == line_effect(alts_view(self.alts@), a));
        if args.len() == 0 {
            assert(old(b).pending() + Seq::<(Seq<u8>, u64)>::empty() =~= old(b).pending());
            return Ok(ConfStep::Done);
        }
        assert(a[0] == args@[0]@);
        let k0 = args[0].as_slice();
        let kw: [char; 6] = ['l', 'i', 's', 't', 'e', 'n'];
        assert(kw@ =~= seq!['l', 'i', 's', 't', 'e', 'n']);
        if matches_keyword(k0, kw.as_slice()) {
            if args.len() < 2 {
                assert(old(b).pending() + Seq::<(Seq<u8>, u64)>::empty() =~= old(b).pending());
                return Err(ConfError::MissingArgument);
            }
            assert(a[1] == args@[1]@);
            return match try_parse_addr(args[1].as_slice()) {
                Some(x) => {
                    self.listen = x;
                    assert(old(b).pending() + Seq::<(Seq<u8>, u64)>::empty() =~= old(b).pending());
                    Ok(ConfStep::Done)
                },
                None => {
                    assert(old(b).pending() + Seq::<(Seq<u8>, u64)>::empty() =~= old(b).pending());
                    Err(ConfError::BadAddress)
                },
            };
        }
        let kw: [char; 7] = ['d', 'e', 'f', 'a', 'u', 'l', 't'];
        assert(kw@ =~= seq!['d', 'e', 'f', 'a', 'u', 'l', 't']);
        if matches_keyword(k0, kw.as_slice()) {
            assert(old(b).pending() + Seq::<(Seq<u8>, u64)>::empty() =~= old(b).pending());
            assert(a.skip(1) =~= wv(args@).skip(1));
            return match parse_addrs(&args, 1) {
                Some(v) => {
                    self.default = v;
                    Ok(ConfStep::Done)
                },
                None => Err(ConfError::BadAddress),
            };
        }
        let kw: [char; 11] = ['r', 'e', 's', 'o', 'l', 'v', '-', 'c', 'o', 'n', 'f'];
        assert(kw@ =~= seq!['r', 'e', 's', 'o', 'l', 'v', '-', 'c', 'o', 'n', 'f']);
        if matches_keyword(k0, kw.as_slice()) {
            assert(old(b).pending() + Seq::<(Seq<u8>, u64)>::empty() =~= old(b).pending());
            if args.len() != 2 {
                return Err(ConfError::InvalidResolvConf);
            }
            assert(a[1] == args@[1]@);
            let path = vstd::slice::slice_to_vec(args[1].as_slice());
            return Ok(ConfStep::ReadResolvConf { path });
        }
        let kw: [char; 6] = ['d', 'o', 'm', 'a', 'i', 'n'];
        assert(kw@ =~= seq!['d', 'o', 'm', 'a', 'i', 'n']);
        if matches_keyword(k0, kw.as_slice()) {
            if args.len() < 3 {
                assert(old(b).pending() + Seq::<(Seq<u8>, u64)>::empty() =~= old(b).pending());
                return Err(ConfError::InvalidDomainRule);
            }
            assert(a.skip(2) =~= wv(args@).skip(2));
            assert(a[1] == args@[1]@);
            let act = match inner_action(&mut self.alts, &args, 2) {
                Ok(x) => x,
                Err(e) => {
                    assert(old(b).pending() + Seq::<(Seq<u8>, u64)>::empty() =~= old(b).pending());
                    return Err(e);
                },
            };
            let one: [&[u8]; 1] = [args[1].as_slice()];
            assert(one@.map_values(|k: &[u8]| k@) =~= seq![a[1]]);
            b.add_list(one.as_slice(), act.to_u64());
            return Ok(ConfStep::Done);
        }
        let kw: [char; 11] = ['d', 'o', 'm', 'a', 'i', 'n', '-', 'l', 'i', 's', 't'];
        assert(kw@ =~= seq!['d', 'o', 'm', 'a', 'i', 'n', '-', 'l', 'i', 's', 't']);
        if matches_keyword(k0, kw.as_slice()) {
            assert(old(b).pending() + Seq::<(Seq<u8>, u64)>::empty() =~= old(b).pending());
            if args.len() < 3 {
                return Err(ConfError::InvalidDomainRule);
            }
            assert(a.skip(2) =~= wv(args@).skip(2));
            assert(a[1] == args@[1]@);
            let act = match inner_action(&mut self.alts, &args, 2) {
                Ok(x) => x,
                Err(e) => {
                    return Err(e);
                },
            };
            let spec_arg = args[1].as_slice();
            let k = crate::text::find_from(spec_arg, 0, 0x5e);
            assert(spec_arg@.skip(0) =~= spec_arg@);
            let (path, prefix) = if k < spec_arg.len() {
                let p = vstd::slice::slice_to_vec(crate::text::slice_range(spec_arg, 0, k));
                let q = vstd::slice::slice_to_vec(crate::text::slice_range(spec_arg, k + 1, spec_arg.len()));
                assert(spec_arg@.subrange(0, k as int) =~= spec_arg@.take(k as int));
                assert(spec_arg@.subrange(k + 1, spec_arg@.len() as int) =~= spec_arg@.skip(k + 1));
                (p, q)
            } else {
                (vstd::slice::slice_to_vec(spec_arg), Vec::new())
            };
            return Ok(ConfStep::LoadDomainList { path, prefix, value: act.to_u64() });
        }
        let kw: [char; 5] = ['q', 't', 'y', 'p', 'e'];
        assert(kw@ =~= seq!['q', 't', 'y', 'p', 'e']);
        if matches_keyword(k0, kw.as_slice()) {
            assert(old(b).pending() + Seq::<(Seq<u8>, u64)>::empty() =~= old(b).pending());
            if args.len() < 3 {
                return Err(ConfError::InvalidQTypeRule);
            }
            assert(a.skip(2) =~= wv(args@).skip(2));
            assert(a[1] == args@[1]@);
            let qt = match QType::parse(args[1].as_slice()) {
                Ok(q) => q,
                Err(()) => {
                    return Err(ConfError::InvalidQType);
                },
            };
            let act = match inner_action(&mut self.alts, &args, 2) {
                Ok(x) => x,
                Err(e) => {
                    return Err(e);
                },
            };
            self.qtype_rules.push((qt, act));
            return Ok(ConfStep::Done);
        }
        let kw: [char; 4] = ['a', 'd', 'd', 'r'];
        assert(kw@ =~= seq!['a', 'd', 'd', 'r']);
        if matches_keyword(k0, kw.as_slice()) {
            assert(old(b).pending() + Seq::<(Seq<u8>, u64)>::empty() =~= old(b).pending());
            if args.len() < 3 {
                return Err(ConfError::InvalidAddrRule);
            }
            assert(a.skip(2) =~= wv(args@).skip(2));
            assert(a[1] == args@[1]@);
            let ip = match parse_ip(args[1].as_slice()) {
                Some(ip) => ip,
                None => {
                    return Err(ConfError::BadAddress);
                },
            };
            let act = match inner_action(&mut self.alts, &args, 2) {
                Ok(x) => x,
                Err(e) => {
                    return Err(e);
                },
            };
            self.addr_rules.push((ip, act));
            return Ok(ConfStep::Done);
        }
        assert(old(b).pending() + Seq::<(Seq<u8>, u64)>::empty() =~= old(b).pending());
        Err(ConfError::UnrecognizedLine)
    }
}

} // verus!
