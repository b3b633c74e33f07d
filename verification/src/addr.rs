//! Socket and IP addresses, and the reading of them from text, after the
//! grammar of std's address parsers.
use vstd::prelude::*;

verus! {

/// An IPv4 address, by its four octets.
#[derive(PartialEq, Eq, Structural, Clone, Copy, Debug)]
pub struct Ipv4(pub u8, pub u8, pub u8, pub u8);

/// An IPv6 address, by its eight 16-bit groups.
#[derive(PartialEq, Eq, Structural, Clone, Copy, Debug)]
pub struct Ipv6(pub u16, pub u16, pub u16, pub u16, pub u16, pub u16, pub u16, pub u16);

/// An IP address.
#[derive(PartialEq, Eq, Structural, Clone, Copy, Debug)]
pub enum IpAddr {
    V4(Ipv4),
    V6(Ipv6),
}

/// A socket address: an IPv4 address and a port, or an IPv6 address, a port
/// and a scope id.
#[derive(PartialEq, Eq, Structural, Clone, Copy, Debug)]
pub enum SockAddr {
    V4(Ipv4, u16),
    V6(Ipv6, u16, u32),
}

pub const DEFAULT_DNS_PORT: u16 = 53;

pub const COLON: u8 = 0x3a;

pub const PERIOD: u8 = 0x2e;

pub const LBRACKET: u8 = 0x5b;

pub const RBRACKET: u8 = 0x5d;

pub const PERCENT: u8 = 0x25;

/// The value of `b` as a digit, decimal or hexadecimal (either case).
pub open spec fn digit_of(b: u8, hex: bool) -> Option<nat> {
    if 0x30 <= b <= 0x39 {
        Some((b - 0x30) as nat)
    } else if hex && 0x61 <= b <= 0x66 {
        Some((b - 0x61 + 10) as nat)
    } else if hex && 0x41 <= b <= 0x46 {
        Some((b - 0x41 + 10) as nat)
    } else {
        None
    }
}

pub open spec fn radix(hex: bool) -> nat {
    if hex {
        16
    } else {
        10
    }
}

/// The number of digits in a row at `i`.
pub open spec fn run_len(s: Seq<u8>, i: int, hex: bool) -> nat
    decreases s.len() - i,
{
    if 0 <= i < s.len() && digit_of(s[i], hex) is Some {
        1 + run_len(s, i + 1, hex)
    } else {
        0
    }
}

/// The value of the `n` digits at `i`.
pub open spec fn run_value(s: Seq<u8>, i: int, n: nat, hex: bool) -> nat
    decreases n,
{
    if n == 0 {
        0
    } else {
        run_value(s, i, (n - 1) as nat, hex) * radix(hex) + digit_of(s[i + n - 1], hex).unwrap_or(0)
    }
}

/// A number at `i`: all the digits in a row there, at least one, at most
/// `max_digits` of them when that is not 0, no leading zero unless
/// `allow_zero_prefix`, and a value no greater than `limit`. Gives the value
/// and the position after it.
pub open spec fn read_number(
    s: Seq<u8>,
    i: int,
    hex: bool,
    max_digits: nat,
    allow_zero_prefix: bool,
    limit: nat,
) -> Option<(nat, int)> {
    let n = run_len(s, i, hex);
    if n == 0 || (max_digits > 0 && n > max_digits) {
        None
    } else if !allow_zero_prefix && s[i] == 0x30 && n > 1 {
        None
    } else if run_value(s, i, n, hex) > limit {
        None
    } else {
        Some((run_value(s, i, n, hex), i + n))
    }
}

/// The octet at `i`, after a period unless it is the first (`k == 0`).
pub open spec fn read_octet(s: Seq<u8>, i: int, k: nat) -> Option<(nat, int)> {
    if k == 0 {
        read_number(s, i, false, 3, false, 255)
    } else if 0 <= i < s.len() && s[i] == PERIOD {
        read_number(s, i + 1, false, 3, false, 255)
    } else {
        None
    }
}

/// Octets `k` to 3 of an IPv4 address at `i`.
pub open spec fn read_octets(s: Seq<u8>, i: int, k: nat) -> Option<(Seq<u8>, int)>
    decreases 4 - k,
{
    if k >= 4 {
        Some((seq![], i))
    } else {
        match read_octet(s, i, k) {
            None => None,
            Some((o, j)) => match read_octets(s, j, k + 1) {
                None => None,
                Some((rest, e)) => Some((seq![o as u8] + rest, e)),
            },
        }
    }
}

/// An IPv4 address at `i`: its octets and the position after it.
pub open spec fn read_ipv4(s: Seq<u8>, i: int) -> Option<(Seq<u8>, int)> {
    read_octets(s, i, 0)
}

/// The group at `i` of an IPv6 address, after a colon unless it is the
/// first of its run (`k == 0`).
pub open spec fn read_group(s: Seq<u8>, i: int, k: nat) -> Option<(nat, int)> {
    if k == 0 {
        read_number(s, i, true, 4, true, 0xffff)
    } else if 0 <= i < s.len() && s[i] == COLON {
        read_number(s, i + 1, true, 4, true, 0xffff)
    } else {
        None
    }
}

/// An IPv4 address ending a run of groups, at slot `k`.
pub open spec fn read_embedded_ipv4(s: Seq<u8>, i: int, k: nat) -> Option<(Seq<u8>, int)> {
    if k == 0 {
        read_ipv4(s, i)
    } else if 0 <= i < s.len() && s[i] == COLON {
        read_ipv4(s, i + 1)
    } else {
        None
    }
}

/// The groups of an IPv4 address's octets.
pub open spec fn v4_groups(o: Seq<u8>) -> Seq<u16> {
    seq![(o[0] * 256 + o[1]) as u16, (o[2] * 256 + o[3]) as u16]
}

/// A run of groups from slot `k` up to `limit` slots at `i`, the last two of
/// which may be an IPv4 address: the groups, the position after them, and
/// whether they end with an IPv4 address.
pub open spec fn read_groups(s: Seq<u8>, i: int, k: nat, limit: nat) -> (Seq<u16>, int, bool)
    decreases limit - k,
{
    if k >= limit {
        (seq![], i, false)
    } else {
        match (if k + 1 < limit {
            read_embedded_ipv4(s, i, k)
        } else {
            None
        }) {
            Some((o, j)) => (v4_groups(o), j, true),
            None => match read_group(s, i, k) {
                None => (seq![], i, false),
                Some((g, j)) => {
                    let rest = read_groups(s, j, k + 1, limit);
                    (seq![g as u16] + rest.0, rest.1, rest.2)
                },
            },
        }
    }
}

/// An IPv6 address at `i`: eight groups, or fewer around one `::` that
/// stands for one or more zero groups.
pub open spec fn read_ipv6(s: Seq<u8>, i: int) -> Option<(Seq<u16>, int)> {
    let head = read_groups(s, i, 0, 8);
    if head.0.len() == 8 {
        Some((head.0, head.1))
    } else if head.2 {
        None
    } else if !(0 <= head.1 && head.1 + 1 < s.len() && s[head.1] == COLON && s[head.1 + 1] == COLON) {
        None
    } else {
        let tail = read_groups(s, head.1 + 2, 0, (7 - head.0.len()) as nat);
        Some(
            (
                head.0 + Seq::new((8 - head.0.len() - tail.0.len()) as nat, |j: int| 0u16) + tail.0,
                tail.1,
            ),
        )
    }
}

pub open spec fn ipv4_of(o: Seq<u8>) -> Ipv4 {
    Ipv4(o[0], o[1], o[2], o[3])
}

pub open spec fn ipv6_of(g: Seq<u16>) -> Ipv6 {
    Ipv6(g[0], g[1], g[2], g[3], g[4], g[5], g[6], g[7])
}

/// `s` as an IP address, as `IpAddr::from_str` reads it: an IPv4 address if
/// one starts `s`, else an IPv6 address, and nothing after it.
pub closed spec fn spec_parse_ip(s: Seq<u8>) -> Option<IpAddr> {
    match read_ipv4(s, 0) {
        Some((o, e)) => if e == s.len() {
            Some(IpAddr::V4(ipv4_of(o)))
        } else {
            None
        },
        None => match read_ipv6(s, 0) {
            Some((g, e)) => if e == s.len() {
                Some(IpAddr::V6(ipv6_of(g)))
            } else {
                None
            },
            None => None,
        },
    }
}

/// What `spec_parse_ip` is: an IPv4 address if one reads from the start to
/// the end of `s`, else such an IPv6 address, else nothing.
pub proof fn lemma_spec_parse_ip(s: Seq<u8>)
    ensures
        spec_parse_ip(s) == (match read_ipv4(s, 0) {
            Some((o, e)) => if e == s.len() {
                Some(IpAddr::V4(ipv4_of(o)))
            } else {
                None
            },
            None => match read_ipv6(s, 0) {
                Some((g, e)) => if e == s.len() {
                    Some(IpAddr::V6(ipv6_of(g)))
                } else {
                    None
                },
                None => None,
            },
        }),
{
}

/// A port at `i`: a colon and a decimal number.
pub open spec fn read_port(s: Seq<u8>, i: int) -> Option<(nat, int)> {
    if 0 <= i < s.len() && s[i] == COLON {
        read_number(s, i + 1, false, 0, true, 0xffff)
    } else {
        None
    }
}

/// A socket address at `i` in the IPv4 form `a.b.c.d:port`.
pub open spec fn read_sock_v4(s: Seq<u8>, i: int) -> Option<(SockAddr, int)> {
    match read_ipv4(s, i) {
        None => None,
        Some((o, j)) => match read_port(s, j) {
            None => None,
            Some((p, e)) => Some((SockAddr::V4(ipv4_of(o), p as u16), e)),
        },
    }
}

/// A scope id at `i`: a percent sign and a decimal number.
pub open spec fn read_scope(s: Seq<u8>, i: int) -> Option<(nat, int)> {
    if 0 <= i < s.len() && s[i] == PERCENT {
        read_number(s, i + 1, false, 0, true, 0xffff_ffff)
    } else {
        None
    }
}

/// A socket address at `i` in the IPv6 form `[addr%scope]:port`, the scope
/// optional.
pub open spec fn read_sock_v6(s: Seq<u8>, i: int) -> Option<(SockAddr, int)> {
    if !(0 <= i < s.len() && s[i] == LBRACKET) {
        None
    } else {
        match read_ipv6(s, i + 1) {
            None => None,
            Some((g, j)) => {
                let (scope, k) = match read_scope(s, j) {
                    Some((sc, k)) => (sc, k),
                    None => (0nat, j),
                };
                if !(0 <= k < s.len() && s[k] == RBRACKET) {
                    None
                } else {
                    match read_port(s, k + 1) {
                        None => None,
                        Some((p, e)) => Some((SockAddr::V6(ipv6_of(g), p as u16, scope as u32), e)),
                    }
                }
            },
        }
    }
}

/// `s` as a socket address, as `SocketAddr::from_str` reads it.
pub closed spec fn spec_parse_sock(s: Seq<u8>) -> Option<SockAddr> {
    match read_sock_v4(s, 0) {
        Some((a, e)) => if e == s.len() {
            Some(a)
        } else {
            None
        },
        None => match read_sock_v6(s, 0) {
            Some((a, e)) => if e == s.len() {
                Some(a)
            } else {
                None
            },
            None => None,
        },
    }
}

/// What `spec_parse_sock` is: an IPv4 socket address if one reads from the
/// start to the end of `s`, else such an IPv6 socket address, else nothing.
pub proof fn lemma_spec_parse_sock(s: Seq<u8>)
    ensures
        spec_parse_sock(s) == (match read_sock_v4(s, 0) {
            Some((a, e)) => if e == s.len() {
                Some(a)
            } else {
                None
            },
            None => match read_sock_v6(s, 0) {
                Some((a, e)) => if e == s.len() {
                    Some(a)
                } else {
                    None
                },
                None => None,
            },
        }),
{
}

/// An upstream address as the configuration gives it: a socket address, or
/// an IP address with the DNS port.
pub closed spec fn spec_parse_addr(s: Seq<u8>) -> Option<SockAddr> {
    match spec_parse_sock(s) {
        Some(a) => Some(a),
        None => match spec_parse_ip(s) {
            Some(IpAddr::V4(ip)) => Some(SockAddr::V4(ip, DEFAULT_DNS_PORT)),
            Some(IpAddr::V6(ip)) => Some(SockAddr::V6(ip, DEFAULT_DNS_PORT, 0)),
            None => None,
        },
    }
}

/// What `spec_parse_addr` is: a socket address, else an IP address with the
/// DNS port (and no scope), else nothing.
pub proof fn lemma_spec_parse_addr(s: Seq<u8>)
    ensures
        spec_parse_addr(s) == (match spec_parse_sock(s) {
            Some(a) => Some(a),
            None => match spec_parse_ip(s) {
                Some(IpAddr::V4(ip)) => Some(SockAddr::V4(ip, DEFAULT_DNS_PORT)),
                Some(IpAddr::V6(ip)) => Some(SockAddr::V6(ip, DEFAULT_DNS_PORT, 0)),
                None => None,
            },
        }),
{
}

proof fn lemma_run_len(s: Seq<u8>, i: int, j: int, hex: bool)
    requires
        0 <= i <= j <= s.len(),
        forall|k: int| i <= k < j ==> digit_of(#[trigger] s[k], hex) is Some,
        j == s.len() || digit_of(s[j], hex) is None,
    ensures
        run_len(s, i, hex) == j - i,
    decreases j - i,
{
    if i < j {
        lemma_run_len(s, i + 1, j, hex);
    }
}

proof fn lemma_run_len_bound(s: Seq<u8>, i: int, hex: bool)
    requires
        0 <= i <= s.len(),
    ensures
        i + run_len(s, i, hex) <= s.len(),
    decreases s.len() - i,
{
    if i < s.len() {
        lemma_run_len_bound(s, i + 1, hex);
    }
}

proof fn lemma_run_len_at_least(s: Seq<u8>, i: int, j: int, hex: bool)
    requires
        0 <= i <= j <= s.len(),
        forall|k: int| i <= k < j ==> digit_of(#[trigger] s[k], hex) is Some,
    ensures
        run_len(s, i, hex) >= j - i,
    decreases j - i,
{
    if i < j {
        lemma_run_len_at_least(s, i + 1, j, hex);
    }
}

proof fn lemma_run_len_digits(s: Seq<u8>, i: int, k: int, hex: bool)
    requires
        0 <= i,
        i <= k < i + run_len(s, i, hex),
    ensures
        digit_of(s[k], hex) is Some,
        k < s.len(),
    decreases k - i,
{
    if k > i {
        lemma_run_len_digits(s, i + 1, k, hex);
    }
}

proof fn lemma_run_value_grows(s: Seq<u8>, i: int, m: nat, n: nat, hex: bool)
    requires
        m <= n,
    ensures
        run_value(s, i, m, hex) <= run_value(s, i, n, hex),
    decreases n - m,
{
    if m < n {
        lemma_run_value_grows(s, i, m, (n - 1) as nat, hex);
        assert(run_value(s, i, (n - 1) as nat, hex) <= run_value(s, i, (n - 1) as nat, hex) * radix(hex))
            by (nonlinear_arith);
    }
}

fn digit_exec(b: u8, hex: bool) -> (r: Option<u8>)
    ensures
        r matches Some(d) ==> digit_of(b, hex) == Some(d as nat) && d < 16,
        r is None <==> digit_of(b, hex) is None,
{
    if 0x30 <= b && b <= 0x39 {
        Some(b - 0x30)
    } else if hex && 0x61 <= b && b <= 0x66 {
        Some(b - 0x61 + 10)
    } else if hex && 0x41 <= b && b <= 0x46 {
        Some(b - 0x41 + 10)
    } else {
        None
    }
}

/// Reads a number at `i` as `read_number` says.
fn number_at(
    s: &[u8],
    i: usize,
    hex: bool,
    max_digits: usize,
    allow_zero_prefix: bool,
    limit: u32,
) -> (r: Option<(u32, usize)>)
    requires
        i <= s@.len(),
    ensures
        r is None <==> read_number(s@, i as int, hex, max_digits as nat, allow_zero_prefix, limit as nat) is None,
        r matches Some((v, e)) ==> read_number(s@, i as int, hex, max_digits as nat, allow_zero_prefix, limit as nat)
            == Some((v as nat, e as int)) && i < e <= s@.len(),
{
    proof {
        lemma_run_len_bound(s@, i as int, hex);
    }
    let mut j = i;
    let mut acc: u64 = 0;
    let rdx: u64 = if hex {
        16
    } else {
        10
    };
    loop
        invariant
            i <= j <= s@.len(),
            forall|k: int| i <= k < j ==> digit_of(#[trigger] s@[k], hex) is Some,
            acc == run_value(s@, i as int, (j - i) as nat, hex),
            acc <= limit,
            rdx == radix(hex),
            max_digits > 0 ==> j - i <= max_digits,
        ensures
            i <= j <= s@.len(),
            forall|k: int| i <= k < j ==> digit_of(#[trigger] s@[k], hex) is Some,
            acc == run_value(s@, i as int, (j - i) as nat, hex),
            acc <= limit,
            j == s@.len() || digit_of(s@[j as int], hex) is None,
        decreases s@.len() - j,
    {
        if j >= s.len() {
            break;
        }
        let d = match digit_exec(s[j], hex) {
            Some(d) => d,
            None => {
                break;
            },
        };
        acc = acc * rdx + d as u64;
        j = j + 1;
        assert(acc == run_value(s@, i as int, (j - i) as nat, hex));
        if acc > limit as u64 {
            proof {
                lemma_run_len_at_least(s@, i as int, j as int, hex);
                lemma_run_value_grows(s@, i as int, (j - i) as nat, run_len(s@, i as int, hex), hex);
            }
            return None;
        }
        if max_digits > 0 && j - i > max_digits {
            proof {
                lemma_run_len_at_least(s@, i as int, j as int, hex);
            }
            return None;
        }
    }
    proof {
        lemma_run_len(s@, i as int, j as int, hex);
    }
    if j == i {
        return None;
    }
    if !allow_zero_prefix && s[i] == 0x30 && j - i > 1 {
        return None;
    }
    Some((acc as u32, j))
}

/// Reads the octet at `i`, as `read_octet` says.
fn octet_at(s: &[u8], i: usize, k: usize) -> (r: Option<(u8, usize)>)
    requires
        i <= s@.len(),
    ensures
        r is None <==> read_octet(s@, i as int, k as nat) is None,
        r matches Some((v, e)) ==> read_octet(s@, i as int, k as nat) == Some((v as nat, e as int)) && i < e <= s@.len(),
{
    if k == 0 {
        match number_at(s, i, false, 3, false, 255) {
            Some((v, e)) => Some((v as u8, e)),
            None => None,
        }
    } else if i < s.len() && s[i] == PERIOD {
        match number_at(s, i + 1, false, 3, false, 255) {
            Some((v, e)) => Some((v as u8, e)),
            None => None,
        }
    } else {
        None
    }
}

/// Reads an IPv4 address at `i`, as `read_ipv4` says.
fn ipv4_at(s: &[u8], i: usize) -> (r: Option<(Vec<u8>, usize)>)
    requires
        i <= s@.len(),
    ensures
        match read_ipv4(s@, i as int) {
            Some((o, e)) => r matches Some((v, f)) && v@ == o && f == e,
            None => r is None,
        },
        r matches Some((v, f)) ==> v@.len() == 4 && i <= f <= s@.len(),
{
    let mut acc: Vec<u8> = Vec::new();
    let mut pos = i;
    let mut k: usize = 0;
    assert(acc@ + seq![] =~= seq![]);
    while k < 4
        invariant
            k <= 4,
            i <= pos <= s@.len(),
            acc@.len() == k,
            read_ipv4(s@, i as int) == (match read_octets(s@, pos as int, k as nat) {
                None => None,
                Some((rest, e)) => Some((acc@ + rest, e)),
            }),
        decreases 4 - k,
    {
        match octet_at(s, pos, k) {
            None => {
                return None;
            },
            Some((o, e)) => {
                proof {
                    assert(read_octets(s@, pos as int, k as nat) == (match read_octets(s@, e as int, (k + 1) as nat) {
                        None => None,
                        Some((rest, ee)) => Some((seq![o] + rest, ee)),
                    }));
                    let r1 = read_octets(s@, e as int, (k + 1) as nat);
                    if let Some((rest, ee)) = r1 {
                        assert(acc@.push(o) + rest =~= acc@ + (seq![o] + rest));
                    }
                }
                acc.push(o);
                pos = e;
                k = k + 1;
            },
        }
    }
    assert(acc@ + seq![] =~= acc@);
    Some((acc, pos))
}

/// Reads the group at `i`, as `read_group` says.
fn group_at(s: &[u8], i: usize, k: usize) -> (r: Option<(u16, usize)>)
    requires
        i <= s@.len(),
    ensures
        r is None <==> read_group(s@, i as int, k as nat) is None,
        r matches Some((v, e)) ==> read_group(s@, i as int, k as nat) == Some((v as nat, e as int)) && i < e
            <= s@.len(),
{
    if k == 0 {
        match number_at(s, i, true, 4, true, 0xffff) {
            Some((v, e)) => Some((v as u16, e)),
            None => None,
        }
    } else if i < s.len() && s[i] == COLON {
        match number_at(s, i + 1, true, 4, true, 0xffff) {
            Some((v, e)) => Some((v as u16, e)),
            None => None,
        }
    } else {
        None
    }
}

/// Reads an IPv4 address ending a run of groups, as `read_embedded_ipv4`
/// says.
fn embedded_ipv4_at(s: &[u8], i: usize, k: usize) -> (r: Option<(Vec<u8>, usize)>)
    requires
        i <= s@.len(),
    ensures
        r is None <==> read_embedded_ipv4(s@, i as int, k as nat) is None,
        r matches Some((v, e)) ==> read_embedded_ipv4(s@, i as int, k as nat) == Some((v@, e as int)) && i <= e
            <= s@.len() && v@.len() == 4,
{
    if k == 0 {
        ipv4_at(s, i)
    } else if i < s.len() && s[i] == COLON {
        ipv4_at(s, i + 1)
    } else {
        None
    }
}

/// Reads a run of groups at `i`, as `read_groups` says from slot 0.
fn groups_at(s: &[u8], i: usize, limit: usize) -> (r: (Vec<u16>, usize, bool))
    requires
        i <= s@.len(),
        limit <= 8,
    ensures
        read_groups(s@, i as int, 0, limit as nat) == (r.0@, r.1 as int, r.2),
        i <= r.1 <= s@.len(),
        r.0@.len() <= limit,
{
    let mut acc: Vec<u16> = Vec::new();
    let mut pos = i;
    let mut k: usize = 0;
    let ghost target = read_groups(s@, i as int, 0, limit as nat);
    assert(seq![] + target.0 =~= target.0);
    loop
        invariant
            k <= limit <= 8,
            i <= pos <= s@.len(),
            acc@.len() == k,
            target == read_groups(s@, i as int, 0, limit as nat),
            target == (acc@ + read_groups(s@, pos as int, k as nat, limit as nat).0, read_groups(
                s@,
                pos as int,
                k as nat,
                limit as nat,
            ).1, read_groups(s@, pos as int, k as nat, limit as nat).2),
        decreases limit - k,
    {
        if k >= limit {
            assert(acc@ + seq![] =~= acc@);
            return (acc, pos, false);
        }
        let v4 = if k + 1 < limit {
            embedded_ipv4_at(s, pos, k)
        } else {
            None
        };
        match v4 {
            Some((o, e)) => {
                let g0 = (o[0] as u16) * 256 + o[1] as u16;
                let g1 = (o[2] as u16) * 256 + o[3] as u16;
                acc.push(g0);
                acc.push(g1);
                assert(read_groups(s@, pos as int, k as nat, limit as nat) == (v4_groups(o@), e as int, true));
                assert(v4_groups(o@) =~= seq![g0, g1]);
                return (acc, e, true);
            },
            None => {
                match group_at(s, pos, k) {
                    None => {
                        assert(acc@ + seq![] =~= acc@);
                        return (acc, pos, false);
                    },
                    Some((g, e)) => {
                        proof {
                            let rest = read_groups(s@, e as int, (k + 1) as nat, limit as nat);
                            assert(acc@.push(g) + rest.0 =~= acc@ + (seq![g] + rest.0));
                        }
                        acc.push(g);
                        pos = e;
                        k = k + 1;
                    },
                }
            },
        }
    }
}

/// Reads an IPv6 address at `i`, as `read_ipv6` says.
fn ipv6_at(s: &[u8], i: usize) -> (r: Option<(Vec<u16>, usize)>)
    requires
        i <= s@.len(),
    ensures
        r is None <==> read_ipv6(s@, i as int) is None,
        r matches Some((g, e)) ==> read_ipv6(s@, i as int) == Some((g@, e as int)) && i <= e <= s@.len()
            && g@.len() == 8,
{
    let (head, p1, v4) = groups_at(s, i, 8);
    if head.len() == 8 {
        return Some((head, p1));
    }
    if v4 {
        return None;
    }
    if !(p1 < s.len() && s.len() - p1 > 1 && s[p1] == COLON && s[p1 + 1] == COLON) {
        return None;
    }
    let limit = 7 - head.len();
    let (tail, p2, _) = groups_at(s, p1 + 2, limit);
    let mut g = head;
    let zeros = 8 - g.len() - tail.len();
    let ghost h = g@;
    let mut z: usize = 0;
    while z < zeros
        invariant
            z <= zeros,
            g@ == h + Seq::new(z as nat, |j: int| 0u16),
        decreases zeros - z,
    {
        g.push(0);
        z = z + 1;
        assert(g@ =~= h + Seq::new(z as nat, |j: int| 0u16));
    }
    let ghost mid = g@;
    let mut t: usize = 0;
    while t < tail.len()
        invariant
            t <= tail@.len(),
            g@ == mid + tail@.take(t as int),
        decreases tail@.len() - t,
    {
        g.push(tail[t]);
        t = t + 1;
        assert(g@ =~= mid + tail@.take(t as int));
    }
    assert(tail@.take(tail@.len() as int) =~= tail@);
    Some((g, p2))
}

/// `s` as an IP address, as `IpAddr::from_str` reads it.
pub fn parse_ip(s: &[u8]) -> (r: Option<IpAddr>)
    ensures
        r == spec_parse_ip(s@),
{
    match ipv4_at(s, 0) {
        Some((o, e)) => if e == s.len() {
            Some(IpAddr::V4(Ipv4(o[0], o[1], o[2], o[3])))
        } else {
            None
        },
        None => match ipv6_at(s, 0) {
            Some((g, e)) => if e == s.len() {
                Some(IpAddr::V6(Ipv6(g[0], g[1], g[2], g[3], g[4], g[5], g[6], g[7])))
            } else {
                None
            },
            None => None,
        },
    }
}

/// Reads a port at `i`, as `read_port` says.
fn port_at(s: &[u8], i: usize) -> (r: Option<(u16, usize)>)
    requires
        i <= s@.len(),
    ensures
        r is None <==> read_port(s@, i as int) is None,
        r matches Some((v, e)) ==> read_port(s@, i as int) == Some((v as nat, e as int)) && i < e <= s@.len(),
{
    if i < s.len() && s[i] == COLON {
        match number_at(s, i + 1, false, 0, true, 0xffff) {
            Some((v, e)) => Some((v as u16, e)),
            None => None,
        }
    } else {
        None
    }
}

/// `s` as a socket address, as `SocketAddr::from_str` reads it.
pub fn parse_sock(s: &[u8]) -> (r: Option<SockAddr>)
    ensures
        r == spec_parse_sock(s@),
{
    let v4 = match ipv4_at(s, 0) {
        None => None,
        Some((o, j)) => match port_at(s, j) {
            None => None,
            Some((p, e)) => Some((SockAddr::V4(Ipv4(o[0], o[1], o[2], o[3]), p), e)),
        },
    };
    assert(v4 matches Some((a, e)) ==> read_sock_v4(s@, 0) == Some((a, e as int)));
    assert(v4 is None <==> read_sock_v4(s@, 0) is None);
    match v4 {
        Some((a, e)) => {
            return if e == s.len() {
                Some(a)
            } else {
                None
            };
        },
        None => {},
    }
    if !(0 < s.len() && s[0] == LBRACKET) {
        return None;
    }
    let (g, j) = match ipv6_at(s, 1) {
        None => {
            return None;
        },
        Some(x) => x,
    };
    let (scope, k) = if j < s.len() && s[j] == PERCENT {
        match number_at(s, j + 1, false, 0, true, 0xffff_ffff) {
            Some((sc, k)) => (sc, k),
            None => (0u32, j),
        }
    } else {
        (0u32, j)
    };
    if !(k < s.len() && s[k] == RBRACKET) {
        return None;
    }
    match port_at(s, k + 1) {
        None => None,
        Some((p, e)) => if e == s.len() {
            Some(SockAddr::V6(Ipv6(g[0], g[1], g[2], g[3], g[4], g[5], g[6], g[7]), p, scope))
        } else {
            None
        },
    }
}

/// An upstream address as the configuration gives it, if `s` is one: a
/// socket address, or an IP address with the DNS port.
pub fn try_parse_addr(s: &[u8]) -> (r: Option<SockAddr>)
    ensures
        r == spec_parse_addr(s@),
{
    match parse_sock(s) {
        Some(a) => Some(a),
        None => match parse_ip(s) {
            Some(IpAddr::V4(ip)) => Some(SockAddr::V4(ip, DEFAULT_DNS_PORT)),
            Some(IpAddr::V6(ip)) => Some(SockAddr::V6(ip, DEFAULT_DNS_PORT, 0)),
            None => None,
        },
    }
}

/// An upstream address as the configuration gives it, where `s` is one
/// (`try_parse_addr` tells): a socket address, or an IP address with the DNS
/// port.
pub fn parse_addr(s: &[u8]) -> (r: SockAddr)
    requires
        spec_parse_addr(s@) is Some,
    ensures
        r == spec_parse_addr(s@)->0,
{
    match try_parse_addr(s) {
        Some(a) => a,
        None => {
            proof {
                assert(false);
            }
            SockAddr::V4(Ipv4(0, 0, 0, 0), DEFAULT_DNS_PORT)
        },
    }
}

/// The order key of a socket address, as std orders them: IPv4 before
/// IPv6, then by address, then by port, then (for IPv6) by scope id.
pub open spec fn sock_key(a: SockAddr) -> Seq<int> {
    match a {
        SockAddr::V4(ip, port) => seq![0, ip.0 as int, ip.1 as int, ip.2 as int, ip.3 as int, port as int],
        SockAddr::V6(ip, port, scope) => seq![
            1,
            ip.0 as int,
            ip.1 as int,
            ip.2 as int,
            ip.3 as int,
            ip.4 as int,
            ip.5 as int,
            ip.6 as int,
            ip.7 as int,
            port as int,
            scope as int,
        ],
    }
}

/// `a` comes strictly before `b` in lexicographic order.
pub open spec fn key_lt(a: Seq<int>, b: Seq<int>) -> bool
    decreases a.len(),
{
    if a.len() == 0 {
        b.len() > 0
    } else if b.len() == 0 {
        false
    } else if a[0] != b[0] {
        a[0] < b[0]
    } else {
        key_lt(a.drop_first(), b.drop_first())
    }
}

/// `x` placed into `s` after every address that does not come after it.
pub open spec fn insert_sorted(s: Seq<SockAddr>, x: SockAddr) -> Seq<SockAddr>
    decreases s.len(),
{
    if s.len() == 0 {
        seq![x]
    } else if key_lt(sock_key(x), sock_key(s.last())) {
        insert_sorted(s.drop_last(), x).push(s.last())
    } else {
        s.push(x)
    }
}

/// `s` sorted by the order of socket addresses, stably: addresses equal in
/// that order keep their order.
pub open spec fn sort_addrs(s: Seq<SockAddr>) -> Seq<SockAddr>
    decreases s.len(),
{
    if s.len() == 0 {
        seq![]
    } else {
        insert_sorted(sort_addrs(s.drop_last()), s.last())
    }
}

fn key_of(a: &SockAddr) -> (r: Vec<u32>)
    ensures
        r@.len() == sock_key(*a).len(),
        forall|i: int| 0 <= i < r@.len() ==> r@[i] as int == #[trigger] sock_key(*a)[i],
{
    let mut r: Vec<u32> = Vec::new();
    match a {
        SockAddr::V4(ip, port) => {
            r.push(0);
            r.push(ip.0 as u32);
            r.push(ip.1 as u32);
            r.push(ip.2 as u32);
            r.push(ip.3 as u32);
            r.push(*port as u32);
        },
        SockAddr::V6(ip, port, scope) => {
            r.push(1);
            r.push(ip.0 as u32);
            r.push(ip.1 as u32);
            r.push(ip.2 as u32);
            r.push(ip.3 as u32);
            r.push(ip.4 as u32);
            r.push(ip.5 as u32);
            r.push(ip.6 as u32);
            r.push(ip.7 as u32);
            r.push(*port as u32);
            r.push(*scope);
        },
    }
    r
}

/// Whether `a` comes strictly before `b`.
pub fn sock_lt(a: &SockAddr, b: &SockAddr) -> (r: bool)
    ensures
        r == key_lt(sock_key(*a), sock_key(*b)),
{
    let ka = key_of(a);
    let kb = key_of(b);
    let ghost sa = sock_key(*a);
    let ghost sb = sock_key(*b);
    let mut i: usize = 0;
    assert(sa.skip(0) =~= sa);
    assert(sb.skip(0) =~= sb);
    while i < ka.len() && i < kb.len()
        invariant
            i <= ka@.len(),
            i <= kb@.len(),
            ka@.len() == sa.len(),
            kb@.len() == sb.len(),
            forall|j: int| 0 <= j < ka@.len() ==> ka@[j] as int == #[trigger] sa[j],
            forall|j: int| 0 <= j < kb@.len() ==> kb@[j] as int == #[trigger] sb[j],
            key_lt(sa, sb) == key_lt(sa.skip(i as int), sb.skip(i as int)),
            sa == sock_key(*a),
            sb == sock_key(*b),
        decreases ka@.len() - i,
    {
        assert(sa.skip(i as int).drop_first() =~= sa.skip(i + 1));
        assert(sb.skip(i as int).drop_first() =~= sb.skip(i + 1));
        assert(sa.skip(i as int)[0] == sa[i as int]);
        assert(sb.skip(i as int)[0] == sb[i as int]);
        assert(ka@[i as int] as int == sa[i as int]);
        assert(kb@[i as int] as int == sb[i as int]);
        if ka[i] != kb[i] {
            assert(sa.skip(i as int).len() > 0 && sb.skip(i as int).len() > 0);
            assert(key_lt(sa.skip(i as int), sb.skip(i as int)) == (sa[i as int] < sb[i as int]));
            return ka[i] < kb[i];
        }
        i = i + 1;
    }
    i < kb.len()
}

proof fn lemma_insert_sorted_at(s: Seq<SockAddr>, x: SockAddr, j: int)
    requires
        0 <= j <= s.len(),
        forall|k: int| j <= k < s.len() ==> key_lt(sock_key(x), sock_key(#[trigger] s[k])),
        j == 0 || !key_lt(sock_key(x), sock_key(s[j - 1])),
    ensures
        insert_sorted(s, x) == s.take(j) + seq![x] + s.skip(j),
    decreases s.len() - j,
{
    if s.len() == 0 {
        assert(s.take(j) + seq![x] + s.skip(j) =~= seq![x]);
    } else if j == s.len() {
        assert(s.take(j) + seq![x] + s.skip(j) =~= s.push(x));
    } else {
        let t = s.drop_last();
        assert forall|k: int| j <= k < t.len() implies key_lt(sock_key(x), sock_key(#[trigger] t[k])) by {
            assert(t[k] == s[k]);
        }
        lemma_insert_sorted_at(t, x, j);
        assert(key_lt(sock_key(x), sock_key(s.last())));
        assert(t.take(j) + seq![x] + t.skip(j) + seq![s.last()] =~= s.take(j) + seq![x] + s.skip(j));
    }
}

/// `s` with `x` placed as `insert_sorted` says.
fn insert_addr(s: &Vec<SockAddr>, x: SockAddr) -> (r: Vec<SockAddr>)
    ensures
        r@ == insert_sorted(s@, x),
{
    let mut j = s.len();
    while j > 0 && sock_lt(&x, &s[j - 1])
        invariant
            j <= s@.len(),
            forall|k: int| j <= k < s@.len() ==> key_lt(sock_key(x), sock_key(#[trigger] s@[k])),
        decreases j,
    {
        j = j - 1;
    }
    proof {
        lemma_insert_sorted_at(s@, x, j as int);
    }
    let mut r: Vec<SockAddr> = Vec::new();
    let mut k: usize = 0;
    while k < j
        invariant
            k <= j <= s@.len(),
            r@ == s@.take(k as int),
        decreases j - k,
    {
        r.push(s[k]);
        k = k + 1;
        assert(r@ =~= s@.take(k as int));
    }
    r.push(x);
    while k < s.len()
        invariant
            j <= k <= s@.len(),
            r@ == s@.take(j as int) + seq![x] + s@.subrange(j as int, k as int),
        decreases s@.len() - k,
    {
        r.push(s[k]);
        k = k + 1;
        assert(r@ =~= s@.take(j as int) + seq![x] + s@.subrange(j as int, k as int));
    }
    assert(s@.subrange(j as int, k as int) =~= s@.skip(j as int));
    r
}

/// The addresses sorted as `sort_addrs` says.
pub fn sorted_addrs(s: &Vec<SockAddr>) -> (r: Vec<SockAddr>)
    ensures
        r@ == sort_addrs(s@),
{
    let mut r: Vec<SockAddr> = Vec::new();
    let mut i: usize = 0;
    assert(s@.take(0) =~= Seq::<SockAddr>::empty());
    while i < s.len()
        invariant
            i <= s@.len(),
            r@ == sort_addrs(s@.take(i as int)),
        decreases s@.len() - i,
    {
        assert(s@.take(i + 1).drop_last() =~= s@.take(i as int));
        r = insert_addr(&r, s[i]);
        i = i + 1;
    }
    assert(s@.take(i as int) =~= s@);
    r
}

/// `a` comes no later than `b` in the order of socket addresses.
pub open spec fn addr_leq(a: SockAddr, b: SockAddr) -> bool {
    !key_lt(sock_key(b), sock_key(a))
}

proof fn lemma_key_lt_irreflexive(a: Seq<int>)
    ensures
        !key_lt(a, a),
    decreases a.len(),
{
    if a.len() > 0 {
        lemma_key_lt_irreflexive(a.drop_first());
    }
}

proof fn lemma_key_lt_asymmetric(a: Seq<int>, b: Seq<int>)
    ensures
        key_lt(a, b) ==> !key_lt(b, a),
    decreases a.len(),
{
    if a.len() > 0 && b.len() > 0 && a[0] == b[0] {
        lemma_key_lt_asymmetric(a.drop_first(), b.drop_first());
    }
}

proof fn lemma_key_lt_total(a: Seq<int>, b: Seq<int>)
    ensures
        a == b || key_lt(a, b) || key_lt(b, a),
    decreases a.len(),
{
    if a.len() > 0 && b.len() > 0 && a[0] == b[0] {
        lemma_key_lt_total(a.drop_first(), b.drop_first());
        if a.drop_first() == b.drop_first() {
            assert(a =~= seq![a[0]] + a.drop_first());
            assert(b =~= seq![b[0]] + b.drop_first());
        }
    } else if a.len() == 0 && b.len() == 0 {
        assert(a =~= b);
    }
}

proof fn lemma_key_lt_transitive(a: Seq<int>, b: Seq<int>, c: Seq<int>)
    requires
        key_lt(a, b),
        key_lt(b, c),
    ensures
        key_lt(a, c),
    decreases a.len(),
{
    if a.len() > 0 && b.len() > 0 && c.len() > 0 && a[0] == b[0] && b[0] == c[0] {
        lemma_key_lt_transitive(a.drop_first(), b.drop_first(), c.drop_first());
    }
}

proof fn lemma_sock_key_injective(x: SockAddr, y: SockAddr)
    requires
        sock_key(x) == sock_key(y),
    ensures
        x == y,
{
    let kx = sock_key(x);
    let ky = sock_key(y);
    assert(kx[0] == ky[0]);
    match (x, y) {
        (SockAddr::V4(a, p), SockAddr::V4(b, q)) => {
            assert(kx[1] == ky[1] && kx[2] == ky[2] && kx[3] == ky[3] && kx[4] == ky[4] && kx[5] == ky[5]);
        },
        (SockAddr::V6(a, p, s), SockAddr::V6(b, q, t)) => {
            assert(kx[1] == ky[1] && kx[2] == ky[2] && kx[3] == ky[3] && kx[4] == ky[4]);
            assert(kx[5] == ky[5] && kx[6] == ky[6] && kx[7] == ky[7] && kx[8] == ky[8]);
            assert(kx[9] == ky[9] && kx[10] == ky[10]);
        },
        _ => {},
    }
}

/// `addr_leq` is a total order.
proof fn lemma_addr_leq_total_ordering()
    ensures
        vstd::relations::total_ordering(|a: SockAddr, b: SockAddr| addr_leq(a, b)),
{
    let leq = |a: SockAddr, b: SockAddr| addr_leq(a, b);
    assert forall|x: SockAddr| #[trigger] leq(x, x) by {
        lemma_key_lt_irreflexive(sock_key(x));
    }
    assert forall|x: SockAddr, y: SockAddr| #[trigger] leq(x, y) && #[trigger] leq(y, x) implies x == y by {
        lemma_key_lt_total(sock_key(x), sock_key(y));
        lemma_sock_key_injective(x, y);
    }
    assert forall|x: SockAddr, y: SockAddr, z: SockAddr| #[trigger] leq(x, y) && #[trigger] leq(y, z) implies leq(
        x,
        z,
    ) by {
        lemma_key_lt_total(sock_key(x), sock_key(y));
        lemma_key_lt_total(sock_key(y), sock_key(z));
        lemma_key_lt_irreflexive(sock_key(x));
        if key_lt(sock_key(z), sock_key(x)) {
            if key_lt(sock_key(x), sock_key(y)) {
                lemma_key_lt_transitive(sock_key(z), sock_key(x), sock_key(y));
            }
            if key_lt(sock_key(y), sock_key(z)) {
                lemma_key_lt_transitive(sock_key(y), sock_key(z), sock_key(x));
            }
        }
    }
    assert forall|x: SockAddr, y: SockAddr| #[trigger] leq(x, y) || #[trigger] leq(y, x) by {
        lemma_key_lt_asymmetric(sock_key(x), sock_key(y));
    }
}

proof fn lemma_insert_sorted_props(s: Seq<SockAddr>, x: SockAddr)
    requires
        vstd::relations::sorted_by(s, |a: SockAddr, b: SockAddr| addr_leq(a, b)),
    ensures
        vstd::relations::sorted_by(insert_sorted(s, x), |a: SockAddr, b: SockAddr| addr_leq(a, b)),
        insert_sorted(s, x).to_multiset() == s.to_multiset().insert(x),
    decreases s.len(),
{
    broadcast use vstd::seq_lib::group_to_multiset_ensures;

    let leq = |a: SockAddr, b: SockAddr| addr_leq(a, b);
    lemma_addr_leq_total_ordering();
    if s.len() == 0 {
        assert(s.push(x) =~= seq![x]);
    } else {
        let dl = s.drop_last();
        let last = s.last();
        assert(dl.push(last) =~= s);
        if key_lt(sock_key(x), sock_key(last)) {
            let r = insert_sorted(dl, x);
            lemma_insert_sorted_props(dl, x);
            lemma_key_lt_asymmetric(sock_key(x), sock_key(last));
            assert forall|i: int| 0 <= i < r.len() implies #[trigger] leq(r[i], last) by {
                assert(r.to_multiset().count(r[i]) > 0);
                if r[i] != x {
                    assert(dl.to_multiset().count(r[i]) > 0);
                    let k = choose|k: int| 0 <= k < dl.len() && dl[k] == r[i];
                    assert(s[k] == dl[k]);
                    assert(leq(s[k], s[s.len() - 1]));
                }
            }
            assert forall|i: int, j: int| 0 <= i < j < r.push(last).len() implies #[trigger] leq(
                r.push(last)[i],
                r.push(last)[j],
            ) by {
                if j == r.len() {
                    assert(leq(r[i], last));
                } else {
                    assert(leq(r[i], r[j]));
                }
            }
            assert(r.push(last).to_multiset() == r.to_multiset().insert(last));
            assert(dl.push(last).to_multiset() == dl.to_multiset().insert(last));
            assert(r.push(last).to_multiset() =~= s.to_multiset().insert(x));
        } else {
            assert forall|i: int, j: int| 0 <= i < j < s.push(x).len() implies #[trigger] leq(
                s.push(x)[i],
                s.push(x)[j],
            ) by {
                if j == s.len() {
                    if i < s.len() - 1 {
                        assert(leq(s[i], s[s.len() - 1]));
                    }
                    assert(leq(last, x));
                } else {
                    assert(leq(s[i], s[j]));
                }
            }
        }
    }
}

proof fn lemma_sort_addrs_props(s: Seq<SockAddr>)
    ensures
        vstd::relations::sorted_by(sort_addrs(s), |a: SockAddr, b: SockAddr| addr_leq(a, b)),
        sort_addrs(s).to_multiset() == s.to_multiset(),
    decreases s.len(),
{
    broadcast use vstd::seq_lib::group_to_multiset_ensures;

    if s.len() == 0 {
        assert(s.to_multiset() =~= vstd::multiset::Multiset::<SockAddr>::empty());
        assert(sort_addrs(s).to_multiset() =~= vstd::multiset::Multiset::<SockAddr>::empty());
    } else {
        lemma_sort_addrs_props(s.drop_last());
        lemma_insert_sorted_props(sort_addrs(s.drop_last()), s.last());
        assert(s.drop_last().push(s.last()) =~= s);
    }
}

/// Sorting depends only on which addresses are there, not on their order:
/// the same addresses, in any order, sort to the same sequence.
pub proof fn lemma_sort_addrs_order_free(a: Seq<SockAddr>, b: Seq<SockAddr>)
    requires
        a.to_multiset() == b.to_multiset(),
    ensures
        sort_addrs(a) == sort_addrs(b),
{
    lemma_sort_addrs_props(a);
    lemma_sort_addrs_props(b);
    lemma_addr_leq_total_ordering();
    vstd::seq_lib::lemma_sorted_unique(
        sort_addrs(a),
        sort_addrs(b),
        |x: SockAddr, y: SockAddr| addr_leq(x, y),
    );
}

/// IPv4 socket addresses come before IPv6 ones, as std orders socket
/// addresses.
pub proof fn lemma_v4_before_v6(a: Ipv4, p: u16, b: Ipv6, q: u16, t: u32)
    ensures
        addr_leq(SockAddr::V4(a, p), SockAddr::V6(b, q, t)),
        !addr_leq(SockAddr::V6(b, q, t), SockAddr::V4(a, p)),
{
}

/// IPv4 socket addresses are ordered by their octets in turn, then by port.
pub proof fn lemma_v4_order(a: Ipv4, p: u16, b: Ipv4, q: u16)
    ensures
        addr_leq(SockAddr::V4(a, p), SockAddr::V4(b, q)) <==> (a.0 < b.0 || (a.0 == b.0 && (a.1 < b.1 || (a.1 == b.1 && (a.2 < b.2 || (a.2 == b.2 && (a.3 < b.3 || (a.3 == b.3 && (p <= q))))))))),
{
    reveal_with_fuel(key_lt, 7);
}

/// IPv6 socket addresses are ordered by their groups in turn, then by
/// port, then by scope id.
pub proof fn lemma_v6_order(a: Ipv6, p: u16, s: u32, b: Ipv6, q: u16, t: u32)
    ensures
        addr_leq(SockAddr::V6(a, p, s), SockAddr::V6(b, q, t)) <==> (a.0 < b.0 || (a.0 == b.0 && (a.1 < b.1 || (a.1 == b.1 && (a.2 < b.2 || (a.2 == b.2 && (a.3 < b.3 || (a.3 == b.3 && (a.4 < b.4 || (a.4 == b.4 && (a.5 < b.5 || (a.5 == b.5 && (a.6 < b.6 || (a.6 == b.6 && (a.7 < b.7 || (a.7 == b.7 && (p < q || (p == q && (s <= t))))))))))))))))))),
{
    reveal_with_fuel(key_lt, 12);
}

} // verus!
