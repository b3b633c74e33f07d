//! Response codes and query types of DNS, and the ASCII helpers that read
//! their names.
use vstd::prelude::*;

verus! {

/// The bytes of an ASCII string.
pub open spec fn ascii(s: Seq<char>) -> Seq<u8> {
    s.map_values(|c: char| c as u8)
}

/// `b` with an upper-case ASCII letter made lower-case.
pub open spec fn lower(b: u8) -> u8 {
    if 0x41 <= b <= 0x5a {
        (b + 0x20) as u8
    } else {
        b
    }
}

/// `s` with its upper-case ASCII letters made lower-case, as
/// `to_ascii_lowercase` gives.
pub open spec fn ascii_lower(s: Seq<u8>) -> Seq<u8> {
    s.map_values(|b: u8| lower(b))
}

pub fn lower_byte(b: u8) -> (r: u8)
    ensures
        r == lower(b),
{
    if 0x41 <= b && b <= 0x5a {
        b + 0x20
    } else {
        b
    }
}

/// Whether `tok`, read without regard to ASCII case, is the keyword `kw`.
pub fn matches_keyword(tok: &[u8], kw: &[char]) -> (r: bool)
    ensures
        r == (ascii_lower(tok@) == ascii(kw@)),
{
    if tok.len() != kw.len() {
        proof {
            if ascii_lower(tok@) == ascii(kw@) {
                assert(ascii_lower(tok@).len() == tok@.len());
            }
        }
        return false;
    }
    let mut i: usize = 0;
    while i < tok.len()
        invariant
            tok@.len() == kw@.len(),
            i <= tok@.len(),
            forall|j: int| 0 <= j < i ==> lower(tok@[j]) == #[trigger] kw@[j] as u8,
        decreases tok@.len() - i,
    {
        if lower_byte(tok[i]) != kw[i] as u8 {
            assert(ascii_lower(tok@)[i as int] != ascii(kw@)[i as int]);
            return false;
        }
        i = i + 1;
    }
    assert(ascii_lower(tok@) =~= ascii(kw@));
    true
}

/// Whether `tok` is exactly the ASCII word `kw`.
pub fn is_keyword(tok: &[u8], kw: &[char]) -> (r: bool)
    ensures
        r == (tok@ == ascii(kw@)),
{
    if tok.len() != kw.len() {
        return false;
    }
    let mut i: usize = 0;
    while i < tok.len()
        invariant
            tok@.len() == kw@.len(),
            i <= tok@.len(),
            forall|j: int| 0 <= j < i ==> tok@[j] == #[trigger] kw@[j] as u8,
        decreases tok@.len() - i,
    {
        if tok[i] != kw[i] as u8 {
            assert(ascii(kw@)[i as int] != tok@[i as int]);
            return false;
        }
        i = i + 1;
    }
    assert(tok@ =~= ascii(kw@));
    true
}

/// A decimal digit.
pub open spec fn is_digit(b: u8) -> bool {
    0x30 <= b <= 0x39
}

/// The value of a string of decimal digits.
pub open spec fn decimal_value(s: Seq<u8>) -> nat
    decreases s.len(),
{
    if s.len() == 0 {
        0
    } else {
        decimal_value(s.drop_last()) * 10 + (s.last() - 0x30) as nat
    }
}

/// `s` is a non-empty string of decimal digits.
pub open spec fn is_decimal(s: Seq<u8>) -> bool {
    s.len() > 0 && forall|i: int| 0 <= i < s.len() ==> is_digit(#[trigger] s[i])
}

proof fn lemma_decimal_value_grows(s: Seq<u8>, i: int)
    requires
        0 <= i <= s.len(),
        forall|j: int| 0 <= j < s.len() ==> is_digit(#[trigger] s[j]),
    ensures
        decimal_value(s.take(i)) <= decimal_value(s),
    decreases s.len() - i,
{
    if i < s.len() {
        lemma_decimal_value_grows(s, i + 1);
        assert(s.take(i + 1).drop_last() =~= s.take(i));
    } else {
        assert(s.take(i) =~= s);
    }
}

/// The value of `tok` as a decimal number, if it is one no greater than
/// `max`.
pub fn parse_decimal(tok: &[u8], max: u32) -> (r: Option<u32>)
    ensures
        r == (if is_decimal(tok@) && decimal_value(tok@) <= max {
            Some(decimal_value(tok@) as u32)
        } else {
            None
        }),
{
    if tok.len() == 0 {
        return None;
    }
    let mut acc: u32 = 0;
    let mut i: usize = 0;
    while i < tok.len()
        invariant
            i <= tok@.len(),
            acc == decimal_value(tok@.take(i as int)),
            acc <= max,
            forall|j: int| 0 <= j < i ==> is_digit(#[trigger] tok@[j]),
        decreases tok@.len() - i,
    {
        let c = tok[i];
        if c < 0x30 || c > 0x39 {
            return None;
        }
        assert(tok@.take(i + 1).drop_last() =~= tok@.take(i as int));
        let d = (c - 0x30) as u32;
        let next: u64 = acc as u64 * 10 + d as u64;
        if next > max as u64 {
            proof {
                if forall|j: int| 0 <= j < tok@.len() ==> is_digit(#[trigger] tok@[j]) {
                    lemma_decimal_value_grows(tok@, i + 1);
                }
            }
            return None;
        }
        acc = next as u32;
        i = i + 1;
    }
    assert(tok@.take(i as int) =~= tok@);
    Some(acc)
}

/// A DNS response code.
#[derive(PartialEq, Eq, Structural, Clone, Copy, Debug)]
pub struct RCode(pub u8);

pub const RCODE_NOERROR: u8 = 0;

pub const RCODE_FORMERR: u8 = 1;

pub const RCODE_SERVFAIL: u8 = 2;

pub const RCODE_NXDOMAIN: u8 = 3;

pub const RCODE_NOTIMP: u8 = 4;

pub const RCODE_REFUSED: u8 = 5;

/// The response code a lower-case name stands for.
pub open spec fn rcode_by_name(l: Seq<u8>) -> Option<u8> {
    if l == ascii(seq!['n', 'o', 'e', 'r', 'r', 'o', 'r']) {
        Some(RCODE_NOERROR)
    } else if l == ascii(seq!['f', 'o', 'r', 'm', 'e', 'r', 'r']) {
        Some(RCODE_FORMERR)
    } else if l == ascii(seq!['s', 'e', 'r', 'v', 'f', 'a', 'i', 'l']) {
        Some(RCODE_SERVFAIL)
    } else if l == ascii(seq!['n', 'x', 'd', 'o', 'm', 'a', 'i', 'n']) {
        Some(RCODE_NXDOMAIN)
    } else if l == ascii(seq!['n', 'o', 't', 'i', 'm', 'p']) {
        Some(RCODE_NOTIMP)
    } else if l == ascii(seq!['r', 'e', 'f', 'u', 's', 'e', 'd']) {
        Some(RCODE_REFUSED)
    } else {
        None
    }
}

impl RCode {
    /// How the response code is shown: its name, or `RCODE` and its number.
    pub fn to_text(&self) -> (r: String)
        ensures
            r@ == crate::text_out::rcode_text(self.0),
    {
        crate::text_out::text_of_rcode(self.0)
    }

    /// Reads a response code by its name, in any ASCII case.
    pub fn parse(tok: &[u8]) -> (r: Result<RCode, ()>)
        ensures
            r == (match rcode_by_name(ascii_lower(tok@)) {
                Some(c) => Ok(RCode(c)),
                None => Err(()),
            }),
    {
        let noerror: [char; 7] = ['n', 'o', 'e', 'r', 'r', 'o', 'r'];
        assert(noerror@ =~= seq!['n', 'o', 'e', 'r', 'r', 'o', 'r']);
        let formerr: [char; 7] = ['f', 'o', 'r', 'm', 'e', 'r', 'r'];
        assert(formerr@ =~= seq!['f', 'o', 'r', 'm', 'e', 'r', 'r']);
        let servfail: [char; 8] = ['s', 'e', 'r', 'v', 'f', 'a', 'i', 'l'];
        assert(servfail@ =~= seq!['s', 'e', 'r', 'v', 'f', 'a', 'i', 'l']);
        let nxdomain: [char; 8] = ['n', 'x', 'd', 'o', 'm', 'a', 'i', 'n'];
        assert(nxdomain@ =~= seq!['n', 'x', 'd', 'o', 'm', 'a', 'i', 'n']);
        let notimp: [char; 6] = ['n', 'o', 't', 'i', 'm', 'p'];
        assert(notimp@ =~= seq!['n', 'o', 't', 'i', 'm', 'p']);
        let refused: [char; 7] = ['r', 'e', 'f', 'u', 's', 'e', 'd'];
        assert(refused@ =~= seq!['r', 'e', 'f', 'u', 's', 'e', 'd']);
        if matches_keyword(tok, noerror.as_slice()) {
            Ok(RCode(RCODE_NOERROR))
        } else if matches_keyword(tok, formerr.as_slice()) {
            Ok(RCode(RCODE_FORMERR))
        } else if matches_keyword(tok, servfail.as_slice()) {
            Ok(RCode(RCODE_SERVFAIL))
        } else if matches_keyword(tok, nxdomain.as_slice()) {
            Ok(RCode(RCODE_NXDOMAIN))
        } else if matches_keyword(tok, notimp.as_slice()) {
            Ok(RCode(RCODE_NOTIMP))
        } else if matches_keyword(tok, refused.as_slice()) {
            Ok(RCode(RCODE_REFUSED))
        } else {
            Err(())
        }
    }
}

/// A DNS query type.
#[derive(PartialEq, Eq, Structural, Clone, Copy, Debug)]
pub struct QType(pub u16);

pub const QTYPE_A: u16 = 1;

pub const QTYPE_TXT: u16 = 16;

pub const QTYPE_AAAA: u16 = 28;

pub const QTYPE_HTTPS: u16 = 65;

/// The query type a lower-case name stands for.
pub open spec fn qtype_by_name(l: Seq<u8>) -> Option<u16> {
    if l == ascii(seq!['a']) {
        Some(QTYPE_A)
    } else if l == ascii(seq!['n', 's']) {
        Some(2)
    } else if l == ascii(seq!['c', 'n', 'a', 'm', 'e']) {
        Some(5)
    } else if l == ascii(seq!['s', 'o', 'a']) {
        Some(6)
    } else if l == ascii(seq!['p', 't', 'r']) {
        Some(12)
    } else if l == ascii(seq!['m', 'x']) {
        Some(15)
    } else if l == ascii(seq!['t', 'x', 't']) {
        Some(QTYPE_TXT)
    } else if l == ascii(seq!['a', 'a', 'a', 'a']) {
        Some(QTYPE_AAAA)
    } else if l == ascii(seq!['s', 'r', 'v']) {
        Some(33)
    } else if l == ascii(seq!['s', 'v', 'c', 'b']) {
        Some(64)
    } else if l == ascii(seq!['h', 't', 't', 'p', 's']) {
        Some(QTYPE_HTTPS)
    } else if l == ascii(seq!['a', 'n', 'y']) {
        Some(255)
    } else {
        None
    }
}

/// What `QType::parse` reads from `tok`.
pub open spec fn spec_parse_qtype(tok: Seq<u8>) -> Option<u16> {
    match qtype_by_name(ascii_lower(tok)) {
        Some(t) => Some(t),
        None => if is_decimal(tok) && decimal_value(tok) <= 0xffff {
            Some(decimal_value(tok) as u16)
        } else {
            None
        },
    }
}

impl QType {
    /// Reads a query type by its name, in any ASCII case, or as a decimal
    /// number.
    pub fn parse(tok: &[u8]) -> (r: Result<QType, ()>)
        ensures
            r == (match spec_parse_qtype(tok@) {
                Some(t) => Ok(QType(t)),
                None => Err(()),
            }),
    {
        match qtype_name_value(tok) {
            Some(t) => Ok(QType(t)),
            None => match parse_decimal(tok, 0xffff) {
                Some(v) => {
                    assert(v as u16 == decimal_value(tok@) as u16);
                    Ok(QType(v as u16))
                },
                None => Err(()),
            },
        }
    }
}

/// The query type that `tok` names, in any ASCII case.
fn qtype_name_value(tok: &[u8]) -> (r: Option<u16>)
    ensures
        r == qtype_by_name(ascii_lower(tok@)),
{
    let ghost l = ascii_lower(tok@);
    let a: [char; 1] = ['a'];
    assert(a@ =~= seq!['a']);
    if matches_keyword(tok, a.as_slice()) {
        return Some(QTYPE_A);
    }
    let ns: [char; 2] = ['n', 's'];
    assert(ns@ =~= seq!['n', 's']);
    if matches_keyword(tok, ns.as_slice()) {
        return Some(2);
    }
    let cname: [char; 5] = ['c', 'n', 'a', 'm', 'e'];
    assert(cname@ =~= seq!['c', 'n', 'a', 'm', 'e']);
    if matches_keyword(tok, cname.as_slice()) {
        return Some(5);
    }
    let soa: [char; 3] = ['s', 'o', 'a'];
    assert(soa@ =~= seq!['s', 'o', 'a']);
    if matches_keyword(tok, soa.as_slice()) {
        return Some(6);
    }
    let ptr: [char; 3] = ['p', 't', 'r'];
    assert(ptr@ =~= seq!['p', 't', 'r']);
    if matches_keyword(tok, ptr.as_slice()) {
        return Some(12);
    }
    let mx: [char; 2] = ['m', 'x'];
    assert(mx@ =~= seq!['m', 'x']);
    if matches_keyword(tok, mx.as_slice()) {
        return Some(15);
    }
    let txt: [char; 3] = ['t', 'x', 't'];
    assert(txt@ =~= seq!['t', 'x', 't']);
    if matches_keyword(tok, txt.as_slice()) {
        return Some(QTYPE_TXT);
    }
    let aaaa: [char; 4] = ['a', 'a', 'a', 'a'];
    assert(aaaa@ =~= seq!['a', 'a', 'a', 'a']);
    if matches_keyword(tok, aaaa.as_slice()) {
        return Some(QTYPE_AAAA);
    }
    let srv: [char; 3] = ['s', 'r', 'v'];
    assert(srv@ =~= seq!['s', 'r', 'v']);
    if matches_keyword(tok, srv.as_slice()) {
        return Some(33);
    }
    let svcb: [char; 4] = ['s', 'v', 'c', 'b'];
    assert(svcb@ =~= seq!['s', 'v', 'c', 'b']);
    if matches_keyword(tok, svcb.as_slice()) {
        return Some(64);
    }
    let https: [char; 5] = ['h', 't', 't', 'p', 's'];
    assert(https@ =~= seq!['h', 't', 't', 'p', 's']);
    if matches_keyword(tok, https.as_slice()) {
        return Some(QTYPE_HTTPS);
    }
    let any: [char; 3] = ['a', 'n', 'y'];
    assert(any@ =~= seq!['a', 'n', 'y']);
    if matches_keyword(tok, any.as_slice()) {
        return Some(255);
    }
    None
}

/// ASCII lower-casing turns each upper-case letter `A`..`Z` into its
/// lower-case letter, 0x20 further on, and leaves every other byte as it
/// is.
pub proof fn lemma_lower_ascii(b: u8)
    ensures
        0x41 <= b <= 0x5a ==> lower(b) == b + 0x20 && 0x61 <= lower(b) <= 0x7a,
        !(0x41 <= b <= 0x5a) ==> lower(b) == b,
{
}

/// Lower-casing a byte string lower-cases each of its bytes in place.
pub proof fn lemma_ascii_lower(s: Seq<u8>)
    ensures
        ascii_lower(s).len() == s.len(),
        forall|i: int| 0 <= i < s.len() ==> #[trigger] ascii_lower(s)[i] == lower(s[i]),
{
}

/// The query-type names read as their numbers in the DNS registry, in any
/// ASCII case.
pub proof fn lemma_qtype_names(t: Seq<u8>)
    ensures
        ascii_lower(t) == ascii(seq!['a']) ==> spec_parse_qtype(t) == Some(1u16),
        ascii_lower(t) == ascii(seq!['n', 's']) ==> spec_parse_qtype(t) == Some(2u16),
        ascii_lower(t) == ascii(seq!['c', 'n', 'a', 'm', 'e']) ==> spec_parse_qtype(t) == Some(5u16),
        ascii_lower(t) == ascii(seq!['s', 'o', 'a']) ==> spec_parse_qtype(t) == Some(6u16),
        ascii_lower(t) == ascii(seq!['p', 't', 'r']) ==> spec_parse_qtype(t) == Some(12u16),
        ascii_lower(t) == ascii(seq!['m', 'x']) ==> spec_parse_qtype(t) == Some(15u16),
        ascii_lower(t) == ascii(seq!['t', 'x', 't']) ==> spec_parse_qtype(t) == Some(16u16),
        ascii_lower(t) == ascii(seq!['a', 'a', 'a', 'a']) ==> spec_parse_qtype(t) == Some(28u16),
        ascii_lower(t) == ascii(seq!['s', 'r', 'v']) ==> spec_parse_qtype(t) == Some(33u16),
        ascii_lower(t) == ascii(seq!['s', 'v', 'c', 'b']) ==> spec_parse_qtype(t) == Some(64u16),
        ascii_lower(t) == ascii(seq!['h', 't', 't', 'p', 's']) ==> spec_parse_qtype(t) == Some(65u16),
        ascii_lower(t) == ascii(seq!['a', 'n', 'y']) ==> spec_parse_qtype(t) == Some(255u16),
{
    assert(ascii(seq!['a']) =~= seq![0x61u8]);
    assert(ascii(seq!['n', 's']) =~= seq![0x6eu8, 0x73u8]);
    assert(ascii(seq!['c', 'n', 'a', 'm', 'e']) =~= seq![0x63u8, 0x6eu8, 0x61u8, 0x6du8, 0x65u8]);
    assert(ascii(seq!['s', 'o', 'a']) =~= seq![0x73u8, 0x6fu8, 0x61u8]);
    assert(ascii(seq!['p', 't', 'r']) =~= seq![0x70u8, 0x74u8, 0x72u8]);
    assert(ascii(seq!['m', 'x']) =~= seq![0x6du8, 0x78u8]);
    assert(ascii(seq!['t', 'x', 't']) =~= seq![0x74u8, 0x78u8, 0x74u8]);
    assert(ascii(seq!['a', 'a', 'a', 'a']) =~= seq![0x61u8, 0x61u8, 0x61u8, 0x61u8]);
    assert(ascii(seq!['s', 'r', 'v']) =~= seq![0x73u8, 0x72u8, 0x76u8]);
    assert(ascii(seq!['s', 'v', 'c', 'b']) =~= seq![0x73u8, 0x76u8, 0x63u8, 0x62u8]);
    assert(ascii(seq!['h', 't', 't', 'p', 's']) =~= seq![0x68u8, 0x74u8, 0x74u8, 0x70u8, 0x73u8]);
    assert(ascii(seq!['a', 'n', 'y']) =~= seq![0x61u8, 0x6eu8, 0x79u8]);
}

/// The response-code names read as their numbers in the DNS registry, in
/// any ASCII case.
pub proof fn lemma_rcode_names(t: Seq<u8>)
    ensures
        ascii_lower(t) == ascii(seq!['n', 'o', 'e', 'r', 'r', 'o', 'r']) ==> rcode_by_name(ascii_lower(t))
            == Some(0u8),
        ascii_lower(t) == ascii(seq!['f', 'o', 'r', 'm', 'e', 'r', 'r']) ==> rcode_by_name(ascii_lower(t))
            == Some(1u8),
        ascii_lower(t) == ascii(seq!['s', 'e', 'r', 'v', 'f', 'a', 'i', 'l']) ==> rcode_by_name(
            ascii_lower(t),
        ) == Some(2u8),
        ascii_lower(t) == ascii(seq!['n', 'x', 'd', 'o', 'm', 'a', 'i', 'n']) ==> rcode_by_name(
            ascii_lower(t),
        ) == Some(3u8),
        ascii_lower(t) == ascii(seq!['n', 'o', 't', 'i', 'm', 'p']) ==> rcode_by_name(ascii_lower(t))
            == Some(4u8),
        ascii_lower(t) == ascii(seq!['r', 'e', 'f', 'u', 's', 'e', 'd']) ==> rcode_by_name(ascii_lower(t))
            == Some(5u8),
{
    assert(ascii(seq!['n', 'o', 'e', 'r', 'r', 'o', 'r']) =~= seq![0x6eu8, 0x6fu8, 0x65u8, 0x72u8, 0x72u8, 0x6fu8, 0x72u8]);
    assert(ascii(seq!['f', 'o', 'r', 'm', 'e', 'r', 'r']) =~= seq![0x66u8, 0x6fu8, 0x72u8, 0x6du8, 0x65u8, 0x72u8, 0x72u8]);
    assert(ascii(seq!['s', 'e', 'r', 'v', 'f', 'a', 'i', 'l']) =~= seq![0x73u8, 0x65u8, 0x72u8, 0x76u8, 0x66u8, 0x61u8, 0x69u8, 0x6cu8]);
    assert(ascii(seq!['n', 'x', 'd', 'o', 'm', 'a', 'i', 'n']) =~= seq![0x6eu8, 0x78u8, 0x64u8, 0x6fu8, 0x6du8, 0x61u8, 0x69u8, 0x6eu8]);
    assert(ascii(seq!['n', 'o', 't', 'i', 'm', 'p']) =~= seq![0x6eu8, 0x6fu8, 0x74u8, 0x69u8, 0x6du8, 0x70u8]);
    assert(ascii(seq!['r', 'e', 'f', 'u', 's', 'e', 'd']) =~= seq![0x72u8, 0x65u8, 0x66u8, 0x75u8, 0x73u8, 0x65u8, 0x64u8]);
}

} // verus!
