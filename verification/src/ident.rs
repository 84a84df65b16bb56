//! Identifier generation.
//!
//! Departments and employees carry opaque, collision-resistant string tokens
//! generated client-side, so a new entity can be given its identifier before
//! anything is written to storage.

use vstd::prelude::*;

verus! {

/// Relies on `cuid::cuid2` for a fresh identifier token. The result depends
/// on the clock and on random entropy, so nothing is promised of its value.
#[verifier::external_body]
pub fn fresh_id() -> String {
    cuid::cuid2()
}

} // verus!
