//! The finite state transducer of the `fst` crate, as this library uses it:
//! a builder filled with keys in increasing order, and a built transducer
//! walked node by node.
//!
//! Everything here is trusted: the contracts restate what the crate's source
//! and documentation show, over the names below.
use vstd::prelude::*;

use fst::raw::{Builder, Fst};

use crate::order::lex_lt;

verus! {

#[verifier::external_type_specification]
#[verifier::external_body]
#[verifier::reject_recursive_types(D)]
pub struct ExFst<D>(Fst<D>);

#[verifier::external_type_specification]
#[verifier::external_body]
#[verifier::reject_recursive_types(W)]
pub struct ExBuilder<W>(Builder<W>);

#[verifier::external_type_specification]
#[verifier::external_body]
pub struct ExFstError(fst::Error);

/// What a built transducer maps: each key to its value.
pub uninterp spec fn fst_contents(f: Fst<Vec<u8>>) -> Map<Seq<u8>, u64>;

/// The node of a built transducer at an address, as the map from what each
/// path out of it spells to what that path still adds to the output; `None`
/// where no node starts.
pub uninterp spec fn fst_node(f: Fst<Vec<u8>>, addr: usize) -> Option<Map<Seq<u8>, u64>>;

/// What a builder holds: each key inserted so far to its value.
pub uninterp spec fn builder_contents(b: Builder<Vec<u8>>) -> Map<Seq<u8>, u64>;

/// The last key a builder accepted, if any.
pub uninterp spec fn builder_last_key(b: Builder<Vec<u8>>) -> Option<Seq<u8>>;

/// `Builder::memory`: a builder writing to memory, holding nothing yet.
/// Writing the header to a `Vec` cannot fail, so the crate's `unwrap` there
/// does not panic.
#[verifier::external_body]
pub(crate) fn builder_memory() -> (b: Builder<Vec<u8>>)
    ensures
        builder_contents(b).dom().is_empty(),
        builder_last_key(b) is None,
{
    Builder::memory()
}

/// `Builder::insert`: accepts the key exactly when it is greater than the
/// last key accepted (the crate rejects a key equal to or less than it before
/// touching anything), and then maps it to `v`. Writing to a `Vec` cannot
/// fail, so no other error comes.
#[verifier::external_body]
pub(crate) fn builder_insert(b: &mut Builder<Vec<u8>>, key: &[u8], v: u64) -> (r: Result<(), fst::Error>)
    ensures
        r is Ok <==> (builder_last_key(*old(b)) matches Some(last) ==> lex_lt(last, key@)),
        r is Ok ==> builder_contents(*final(b)) == builder_contents(*old(b)).insert(key@, v),
        r is Ok ==> builder_last_key(*final(b)) == Some(key@),
        r is Err ==> *final(b) == *old(b),
{
    b.insert(key, v)
}

/// `Builder::into_fst`: the transducer maps exactly what the builder held.
/// Finishing into a `Vec` and reading it back cannot fail, so the crate's
/// `unwrap` there does not panic.
#[verifier::external_body]
pub(crate) fn builder_into_fst(b: Builder<Vec<u8>>) -> (f: Fst<Vec<u8>>)
    ensures
        fst_contents(f) == builder_contents(b),
{
    b.into_fst()
}

/// `Fst::root` and `Node::addr`: the address of the root node, from which the
/// paths spell exactly the keys and add up exactly to their values.
#[verifier::external_body]
pub(crate) fn fst_root(f: &Fst<Vec<u8>>) -> (addr: usize)
    ensures
        fst_node(*f, addr) == Some(fst_contents(*f)),
{
    f.root().addr()
}

/// `Fst::node`, `Node::is_final` and `Node::final_output`: whether the empty
/// path out of the node ends a key, and what it adds then.
#[verifier::external_body]
pub(crate) fn fst_final(f: &Fst<Vec<u8>>, addr: usize) -> (r: (bool, u64))
    requires
        fst_node(*f, addr) is Some,
    ensures
        r.0 == fst_node(*f, addr)->0.contains_key(Seq::<u8>::empty()),
        r.0 ==> r.1 == fst_node(*f, addr)->0[Seq::<u8>::empty()],
{
    let n = f.node(addr);
    (n.is_final(), n.final_output().value())
}

/// `Fst::node`, `Node::find_input` and `Node::transition`: the transition of
/// the node on byte `b`, as the address it leads to and the output it adds.
/// It exists exactly when some path out of the node starts with `b` (every
/// node of a built transducer lies on the path of a key), and the paths out
/// of the node it leads to are those paths without `b`, each adding the
/// transition's output less.
#[verifier::external_body]
pub(crate) fn fst_step(f: &Fst<Vec<u8>>, addr: usize, b: u8) -> (r: Option<(usize, u64)>)
    requires
        fst_node(*f, addr) is Some,
    ensures
        r is Some <==> exists|s: Seq<u8>| fst_node(*f, addr)->0.contains_key(seq![b] + s),
        r matches Some((next, out)) ==> {
            &&& fst_node(*f, next) is Some
            &&& forall|s: Seq<u8>|
                #![trigger fst_node(*f, next)->0.contains_key(s)]
                #![trigger fst_node(*f, addr)->0.contains_key(seq![b] + s)]
                fst_node(*f, addr)->0.contains_key(seq![b] + s) <==> fst_node(*f, next)->0.contains_key(s)
            &&& forall|s: Seq<u8>|
                #![trigger fst_node(*f, next)->0[s]]
                fst_node(*f, next)->0.contains_key(s) ==> fst_node(*f, addr)->0[seq![b] + s] == out + fst_node(*f, next)->0[s]
        },
{
    let n = f.node(addr);
    match n.find_input(b) {
        Some(i) => {
            let t = n.transition(i);
            Some((t.addr, t.out.value()))
        },
        None => None,
    }
}

} // verus!
