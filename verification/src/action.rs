//! What a rule does with a query, and its encoding as the `u64` values that
//! the domain map stores.
use vstd::prelude::*;

use crate::rr::{ascii, ascii_lower, is_keyword, rcode_by_name, RCode};
use crate::text_out::{append_decimal, decimal_text, rcode_text, text_of_rcode};

verus! {

/// The action of a rule.
#[derive(PartialEq, Eq, Structural, Clone, Copy, Debug)]
pub enum ActionId {
    /// Forward to the default upstream.
    Default,
    /// Answer with this response code.
    RCode(RCode),
    /// Forward to the alternative upstream of this number.
    Alt(u8),
    /// Answer with the rewrite of this number.
    Rewrite(u8),
}

pub const ACTION_DEFAULT: u64 = 0;

pub const ALT_BASE: u64 = 0x10;

/// Exclusive.
pub const ALT_CAP: u64 = 0x20;

pub const REWRITE_BASE: u64 = 0x20;

/// Exclusive.
pub const REWRITE_CAP: u64 = 0x30;

/// The `u64` an action is stored as.
pub open spec fn encode(a: ActionId) -> u64 {
    match a {
        ActionId::Default => ACTION_DEFAULT,
        ActionId::RCode(c) => c.0 as u64,
        ActionId::Alt(id) => (id + ALT_BASE) as u64,
        ActionId::Rewrite(id) => (id + REWRITE_BASE) as u64,
    }
}

/// The action a stored `u64` stands for, if any.
pub open spec fn decode(v: u64) -> Result<ActionId, ()> {
    if v == ACTION_DEFAULT {
        Ok(ActionId::Default)
    } else if 1 <= v < 16 {
        Ok(ActionId::RCode(RCode(v as u8)))
    } else if ALT_BASE <= v < ALT_CAP {
        Ok(ActionId::Alt((v - ALT_BASE) as u8))
    } else if REWRITE_BASE <= v < REWRITE_CAP {
        Ok(ActionId::Rewrite((v - REWRITE_BASE) as u8))
    } else {
        Err(())
    }
}

/// An action whose encoding decodes back to it: a response code from 1 to
/// 15, or an upstream or rewrite number below 16.
pub open spec fn encodable(a: ActionId) -> bool {
    match a {
        ActionId::Default => true,
        ActionId::RCode(c) => 1 <= c.0 < 16,
        ActionId::Alt(id) => id < ALT_CAP - ALT_BASE,
        ActionId::Rewrite(id) => id < REWRITE_CAP - REWRITE_BASE,
    }
}

/// What `ActionId::parse` reads: `default`, or the name of a response code.
pub open spec fn spec_parse_action(tok: Seq<u8>) -> Result<ActionId, ()> {
    if tok == ascii(seq!['d', 'e', 'f', 'a', 'u', 'l', 't']) {
        Ok(ActionId::Default)
    } else {
        match rcode_by_name(ascii_lower(tok)) {
            Some(c) => Ok(ActionId::RCode(RCode(c))),
            None => Err(()),
        }
    }
}

/// How an action is shown.
pub open spec fn action_text(a: ActionId) -> Seq<char> {
    match a {
        ActionId::Default => seq!['d', 'e', 'f', 'a', 'u', 'l', 't'],
        ActionId::RCode(c) => rcode_text(c.0),
        ActionId::Alt(id) => seq!['a', 'l', 't', ':'] + decimal_text(id as nat),
        ActionId::Rewrite(id) => seq!['r', 'e', 'w', 'r', 'i', 't', 'e', ':'] + decimal_text(id as nat),
    }
}

impl Default for ActionId {
    fn default() -> (r: Self)
        ensures
            r == ActionId::Default,
    {
        ActionId::Default
    }
}

impl ActionId {
    /// The action for alternative upstream `id`, if the encoding has room.
    pub fn from_alt_id(id: usize) -> (r: Option<Self>)
        ensures
            r == (if id < ALT_CAP - ALT_BASE {
                Some(ActionId::Alt(id as u8))
            } else {
                None
            }),
    {
        if id < (ALT_CAP - ALT_BASE) as usize {
            Some(ActionId::Alt(id as u8))
        } else {
            None
        }
    }

    /// The action for rewrite `id`, if the encoding has room.
    pub fn from_rewrite_id(id: usize) -> (r: Option<Self>)
        ensures
            r == (if id < REWRITE_CAP - REWRITE_BASE {
                Some(ActionId::Rewrite(id as u8))
            } else {
                None
            }),
    {
        if id < (REWRITE_CAP - REWRITE_BASE) as usize {
            Some(ActionId::Rewrite(id as u8))
        } else {
            None
        }
    }

    /// The `u64` this action is stored as.
    pub fn to_u64(self) -> (r: u64)
        ensures
            r == encode(self),
    {
        match self {
            ActionId::Default => ACTION_DEFAULT,
            ActionId::RCode(c) => c.0 as u64,
            ActionId::Alt(id) => id as u64 + ALT_BASE,
            ActionId::Rewrite(id) => id as u64 + REWRITE_BASE,
        }
    }

    /// The action a stored `u64` stands for.
    pub fn try_from_u64(v: u64) -> (r: Result<Self, ()>)
        ensures
            r == decode(v),
    {
        if v == ACTION_DEFAULT {
            Ok(ActionId::Default)
        } else if 1 <= v && v < 16 {
            Ok(ActionId::RCode(RCode(v as u8)))
        } else if ALT_BASE <= v && v < ALT_CAP {
            Ok(ActionId::Alt((v - ALT_BASE) as u8))
        } else if REWRITE_BASE <= v && v < REWRITE_CAP {
            Ok(ActionId::Rewrite((v - REWRITE_BASE) as u8))
        } else {
            Err(())
        }
    }

    /// Reads an action: `default` as it is, or a response code by name.
    pub fn parse(tok: &[u8]) -> (r: Result<Self, ()>)
        ensures
            r == spec_parse_action(tok@),
    {
        let default: [char; 7] = ['d', 'e', 'f', 'a', 'u', 'l', 't'];
        assert(default@ =~= seq!['d', 'e', 'f', 'a', 'u', 'l', 't']);
        if is_keyword(tok, default.as_slice()) {
            return Ok(ActionId::Default);
        }
        match RCode::parse(tok) {
            Ok(c) => Ok(ActionId::RCode(c)),
            Err(()) => Err(()),
        }
    }

    /// The upstream a query with this action goes to: `Some(None)` for the
    /// default one, `Some(Some(i))` for alternative `i`, `None` when it is
    /// answered here.
    pub fn to_upstream_id(self) -> (r: Option<Option<u8>>)
        ensures
            r == (match self {
                ActionId::Default => Some(None),
                ActionId::Alt(i) => Some(Some(i)),
                _ => None,
            }),
    {
        match self {
            ActionId::Default => Some(None),
            ActionId::Alt(i) => Some(Some(i)),
            _ => None,
        }
    }

    /// How the action is shown: `default`, a response code, `alt:N` or
    /// `rewrite:N`.
    pub fn to_text(&self) -> (r: String)
        ensures
            r@ == action_text(*self),
    {
        match self {
            ActionId::Default => {
                proof {
                    reveal_strlit("default");
                }
                String::from_str("default")
            },
            ActionId::RCode(c) => text_of_rcode(c.0),
            ActionId::Alt(id) => {
                proof {
                    reveal_strlit("alt:");
                }
                let mut s = String::from_str("alt:");
                append_decimal(&mut s, *id);
                s
            },
            ActionId::Rewrite(id) => {
                proof {
                    reveal_strlit("rewrite:");
                }
                let mut s = String::from_str("rewrite:");
                append_decimal(&mut s, *id);
                s
            },
        }
    }
}


impl From<ActionId> for u64 {
    fn from(a: ActionId) -> (r: u64) {
        a.to_u64()
    }
}

impl vstd::std_specs::convert::FromSpecImpl<ActionId> for u64 {
    open spec fn obeys_from_spec() -> bool {
        true
    }

    open spec fn from_spec(a: ActionId) -> u64 {
        encode(a)
    }
}

impl TryFrom<u64> for ActionId {
    type Error = ();

    fn try_from(v: u64) -> (r: Result<Self, ()>) {
        Self::try_from_u64(v)
    }
}

impl vstd::std_specs::convert::TryFromSpecImpl<u64> for ActionId {
    open spec fn obeys_try_from_spec() -> bool {
        true
    }

    open spec fn try_from_spec(v: u64) -> Result<Self, ()> {
        decode(v)
    }
}

impl core::str::FromStr for ActionId {
    type Err = ();

    fn from_str(v: &str) -> (r: Result<Self, ()>)
        ensures
            r == spec_parse_action(vstd::utf8::encode_utf8(v@)),
    {
        Self::parse(v.as_bytes())
    }
}

/// Every action that fits the encoding is read back from the `u64` it is
/// stored as.
pub proof fn lemma_decode_encode(a: ActionId)
    requires
        encodable(a),
    ensures
        decode(encode(a)) == Ok::<ActionId, ()>(a),
{
}

/// Whatever a stored `u64` is read as is stored as that same `u64`.
pub proof fn lemma_encode_decode(v: u64)
    ensures
        decode(v) matches Ok(a) ==> encode(a) == v && encodable(a),
{
}

/// How actions are stored in the domain map: the default as 0, a response
/// code as its own number, alternative upstream `i` as 0x10 + `i` and
/// rewrite `i` as 0x20 + `i`.
pub proof fn lemma_encoding_values(a: ActionId)
    ensures
        match a {
            ActionId::Default => encode(a) == 0,
            ActionId::RCode(c) => encode(a) == c.0,
            ActionId::Alt(i) => encode(a) == 0x10 + i,
            ActionId::Rewrite(i) => encode(a) == 0x20 + i,
        },
{
}

/// An action shown as text reads back, in a configuration, as that action:
/// `default`, and each named response code.
pub proof fn lemma_action_text_reads_back(c: u8)
    requires
        c <= 5,
    ensures
        spec_parse_action(ascii_lower(ascii(action_text(ActionId::Default)))) == Ok::<ActionId, ()>(
            ActionId::Default,
        ),
        spec_parse_action(ascii_lower(ascii(action_text(ActionId::RCode(RCode(c)))))) == Ok::<
            ActionId,
            (),
        >(ActionId::RCode(RCode(c))),
{
    assert(ascii(seq!['d', 'e', 'f', 'a', 'u', 'l', 't']) =~= seq![0x64u8, 0x65u8, 0x66u8, 0x61u8, 0x75u8, 0x6cu8, 0x74u8]);
    assert(ascii_lower(seq![0x64u8, 0x65u8, 0x66u8, 0x61u8, 0x75u8, 0x6cu8, 0x74u8]) =~= seq![0x64u8, 0x65u8, 0x66u8, 0x61u8, 0x75u8, 0x6cu8, 0x74u8]);
    crate::rr::lemma_rcode_names(ascii(action_text(ActionId::RCode(RCode(c)))));
    if c == 0 {
        assert(rcode_text(c) == seq!['N', 'O', 'E', 'R', 'R', 'O', 'R']);
        assert(ascii(seq!['N', 'O', 'E', 'R', 'R', 'O', 'R']) =~= seq![0x4eu8, 0x4fu8, 0x45u8, 0x52u8, 0x52u8, 0x4fu8, 0x52u8]);
        assert(ascii_lower(seq![0x4eu8, 0x4fu8, 0x45u8, 0x52u8, 0x52u8, 0x4fu8, 0x52u8]) =~= seq![0x6eu8, 0x6fu8, 0x65u8, 0x72u8, 0x72u8, 0x6fu8, 0x72u8]);
        assert(ascii_lower(seq![0x6eu8, 0x6fu8, 0x65u8, 0x72u8, 0x72u8, 0x6fu8, 0x72u8]) =~= seq![0x6eu8, 0x6fu8, 0x65u8, 0x72u8, 0x72u8, 0x6fu8, 0x72u8]);
        assert(ascii(seq!['n', 'o', 'e', 'r', 'r', 'o', 'r']) =~= seq![0x6eu8, 0x6fu8, 0x65u8, 0x72u8, 0x72u8, 0x6fu8, 0x72u8]);
    }
    if c == 1 {
        assert(rcode_text(c) == seq!['F', 'O', 'R', 'M', 'E', 'R', 'R']);
        assert(ascii(seq!['F', 'O', 'R', 'M', 'E', 'R', 'R']) =~= seq![0x46u8, 0x4fu8, 0x52u8, 0x4du8, 0x45u8, 0x52u8, 0x52u8]);
        assert(ascii_lower(seq![0x46u8, 0x4fu8, 0x52u8, 0x4du8, 0x45u8, 0x52u8, 0x52u8]) =~= seq![0x66u8, 0x6fu8, 0x72u8, 0x6du8, 0x65u8, 0x72u8, 0x72u8]);
        assert(ascii_lower(seq![0x66u8, 0x6fu8, 0x72u8, 0x6du8, 0x65u8, 0x72u8, 0x72u8]) =~= seq![0x66u8, 0x6fu8, 0x72u8, 0x6du8, 0x65u8, 0x72u8, 0x72u8]);
        assert(ascii(seq!['f', 'o', 'r', 'm', 'e', 'r', 'r']) =~= seq![0x66u8, 0x6fu8, 0x72u8, 0x6du8, 0x65u8, 0x72u8, 0x72u8]);
    }
    if c == 2 {
        assert(rcode_text(c) == seq!['S', 'E', 'R', 'V', 'F', 'A', 'I', 'L']);
        assert(ascii(seq!['S', 'E', 'R', 'V', 'F', 'A', 'I', 'L']) =~= seq![0x53u8, 0x45u8, 0x52u8, 0x56u8, 0x46u8, 0x41u8, 0x49u8, 0x4cu8]);
        assert(ascii_lower(seq![0x53u8, 0x45u8, 0x52u8, 0x56u8, 0x46u8, 0x41u8, 0x49u8, 0x4cu8]) =~= seq![0x73u8, 0x65u8, 0x72u8, 0x76u8, 0x66u8, 0x61u8, 0x69u8, 0x6cu8]);
        assert(ascii_lower(seq![0x73u8, 0x65u8, 0x72u8, 0x76u8, 0x66u8, 0x61u8, 0x69u8, 0x6cu8]) =~= seq![0x73u8, 0x65u8, 0x72u8, 0x76u8, 0x66u8, 0x61u8, 0x69u8, 0x6cu8]);
        assert(ascii(seq!['s', 'e', 'r', 'v', 'f', 'a', 'i', 'l']) =~= seq![0x73u8, 0x65u8, 0x72u8, 0x76u8, 0x66u8, 0x61u8, 0x69u8, 0x6cu8]);
    }
    if c == 3 {
        assert(rcode_text(c) == seq!['N', 'X', 'D', 'O', 'M', 'A', 'I', 'N']);
        assert(ascii(seq!['N', 'X', 'D', 'O', 'M', 'A', 'I', 'N']) =~= seq![0x4eu8, 0x58u8, 0x44u8, 0x4fu8, 0x4du8, 0x41u8, 0x49u8, 0x4eu8]);
        assert(ascii_lower(seq![0x4eu8, 0x58u8, 0x44u8, 0x4fu8, 0x4du8, 0x41u8, 0x49u8, 0x4eu8]) =~= seq![0x6eu8, 0x78u8, 0x64u8, 0x6fu8, 0x6du8, 0x61u8, 0x69u8, 0x6eu8]);
        assert(ascii_lower(seq![0x6eu8, 0x78u8, 0x64u8, 0x6fu8, 0x6du8, 0x61u8, 0x69u8, 0x6eu8]) =~= seq![0x6eu8, 0x78u8, 0x64u8, 0x6fu8, 0x6du8, 0x61u8, 0x69u8, 0x6eu8]);
        assert(ascii(seq!['n', 'x', 'd', 'o', 'm', 'a', 'i', 'n']) =~= seq![0x6eu8, 0x78u8, 0x64u8, 0x6fu8, 0x6du8, 0x61u8, 0x69u8, 0x6eu8]);
    }
    if c == 4 {
        assert(rcode_text(c) == seq!['N', 'O', 'T', 'I', 'M', 'P']);
        assert(ascii(seq!['N', 'O', 'T', 'I', 'M', 'P']) =~= seq![0x4eu8, 0x4fu8, 0x54u8, 0x49u8, 0x4du8, 0x50u8]);
        assert(ascii_lower(seq![0x4eu8, 0x4fu8, 0x54u8, 0x49u8, 0x4du8, 0x50u8]) =~= seq![0x6eu8, 0x6fu8, 0x74u8, 0x69u8, 0x6du8, 0x70u8]);
        assert(ascii_lower(seq![0x6eu8, 0x6fu8, 0x74u8, 0x69u8, 0x6du8, 0x70u8]) =~= seq![0x6eu8, 0x6fu8, 0x74u8, 0x69u8, 0x6du8, 0x70u8]);
        assert(ascii(seq!['n', 'o', 't', 'i', 'm', 'p']) =~= seq![0x6eu8, 0x6fu8, 0x74u8, 0x69u8, 0x6du8, 0x70u8]);
    }
    if c == 5 {
        assert(rcode_text(c) == seq!['R', 'E', 'F', 'U', 'S', 'E', 'D']);
        assert(ascii(seq!['R', 'E', 'F', 'U', 'S', 'E', 'D']) =~= seq![0x52u8, 0x45u8, 0x46u8, 0x55u8, 0x53u8, 0x45u8, 0x44u8]);
        assert(ascii_lower(seq![0x52u8, 0x45u8, 0x46u8, 0x55u8, 0x53u8, 0x45u8, 0x44u8]) =~= seq![0x72u8, 0x65u8, 0x66u8, 0x75u8, 0x73u8, 0x65u8, 0x64u8]);
        assert(ascii_lower(seq![0x72u8, 0x65u8, 0x66u8, 0x75u8, 0x73u8, 0x65u8, 0x64u8]) =~= seq![0x72u8, 0x65u8, 0x66u8, 0x75u8, 0x73u8, 0x65u8, 0x64u8]);
        assert(ascii(seq!['r', 'e', 'f', 'u', 's', 'e', 'd']) =~= seq![0x72u8, 0x65u8, 0x66u8, 0x75u8, 0x73u8, 0x65u8, 0x64u8]);
    }
}

} // verus!
