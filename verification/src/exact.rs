//! Exact-match keys: a name with a query type, or an address whose reverse
//! pointer name is asked for.
use vstd::prelude::*;

use crate::addr::{Ipv4, Ipv6};

verus! {

/// An exact-match key. Reverse pointer names of IPv6 addresses are long
/// (32 nibbles and `ip6.arpa`, 72 characters), so they are kept as the
/// address.
pub enum Exact {
    /// A name and a query type.
    Q((Vec<u8>, u16)),
    Ptr4(Ipv4),
    Ptr6(Ipv6),
}

} // verus!
