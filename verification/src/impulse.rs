//! The impulses that the network emits from its last layer.
use vstd::prelude::*;
use std::time::Instant;

verus! {

#[verifier::external_type_specification]
#[verifier::external_body]
pub struct ExInstant(Instant);

/// `Instant::now`: the current instant. Nothing is stated of it: it depends on the clock.
#[verifier::external_body]
fn instant_now() -> (t: Instant) {
    Instant::now()
}

/// An impulse, with the instant at which it was received.
#[derive(Clone, Copy)]
pub struct Impulse {
    pub val: usize,
    pub tempo: Instant,
}

impl Impulse {
    /// An impulse of value `val`, received now.
    pub fn new(val: usize) -> (imp: Impulse)
        ensures
            imp.val == val,
    {
        Impulse { val, tempo: instant_now() }
    }
}

} // verus!
