//! Domain-name rule engine of an ad-blocking DNS forwarder.
//!
//! The library holds the verified parts: the suffix-matching domain map built
//! on a finite state transducer, the encoding of rule actions, configuration
//! parsing and the rule priority used to answer a query.
use vstd::prelude::*;

pub mod action;
pub mod addr;
pub mod conf;
pub mod dmap;
pub mod exact;
pub mod fstmap;
pub mod hosts;
pub mod kv;
pub mod kvsort;
pub mod order;
pub mod rr;
pub mod rules;
pub mod svec;
pub mod text;
pub mod text_out;

verus! {

/// The error of the configuration and loading stages.
///
/// Every error in those stages is fatal, so it carries no detail.
#[derive(Debug)]
pub struct DummyError();

pub type DummyResult<T> = Result<T, DummyError>;

pub type Dummy = DummyResult<()>;

impl From<()> for DummyError {
    fn from(v: ()) -> (r: Self) {
        DummyError()
    }
}

impl vstd::std_specs::convert::FromSpecImpl<()> for DummyError {
    open spec fn obeys_from_spec() -> bool {
        true
    }

    open spec fn from_spec(v: ()) -> Self {
        DummyError()
    }
}

impl From<fst::Error> for DummyError {
    fn from(e: fst::Error) -> (r: Self) {
        DummyError()
    }
}

impl vstd::std_specs::convert::FromSpecImpl<fst::Error> for DummyError {
    open spec fn obeys_from_spec() -> bool {
        true
    }

    open spec fn from_spec(e: fst::Error) -> Self {
        DummyError()
    }
}

} // verus!
