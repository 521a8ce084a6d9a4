//! A personal ledger for tracking ownership lots of fungible assets across
//! many addresses: cost-basis and gain arithmetic, deterministic lot
//! selection and disposal, and a pending-operation state machine that turns
//! submitted chain operations into confirmed or cancelled ledger mutations.

use vstd::prelude::*;

pub mod types;
pub mod gain;
pub mod select;
pub mod pending;
pub mod store;
pub mod summary;

verus! {

/// Version label reported by the command-line frontend.
pub fn app_version() -> (r: String)
    ensures
        r@ == "devbuild"@,
{
    String::from_str("devbuild")
}

} // verus!
