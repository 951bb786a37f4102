//! Where the translator's random numbers come from.

use vstd::prelude::*;
use rand::RngCore;
use rand::rngs::StdRng;
use rand::rngs::mock::StepRng;

verus! {

/// A stream of random numbers.
///
/// Nothing is assumed of the numbers: what the translator promises holds
/// whatever a source gives out.
pub trait DrawSource {
    /// The next 32-bit number of the stream.
    fn draw_u32(&mut self) -> u32;

    /// The next 64-bit number of the stream.
    fn draw_u64(&mut self) -> u64;
}

/// `rand`'s arithmetic-sequence generator, opaque to the verifier.
#[verifier::external_type_specification]
#[verifier::external_body]
pub struct ExStepRng(StepRng);

/// Calls `RngCore::next_u32` of `rand`'s `StepRng`. Nothing is claimed of
/// the number returned.
#[verifier::external_body]
fn step_next_u32(rng: &mut StepRng) -> u32 {
    rng.next_u32()
}

/// Calls `RngCore::next_u64` of `rand`'s `StepRng`. Nothing is claimed of
/// the number returned.
#[verifier::external_body]
fn step_next_u64(rng: &mut StepRng) -> u64 {
    rng.next_u64()
}

impl DrawSource for StepRng {
    fn draw_u32(&mut self) -> u32 {
        step_next_u32(self)
    }

    fn draw_u64(&mut self) -> u64 {
        step_next_u64(self)
    }
}

/// `rand`'s standard generator, opaque to the verifier.
#[verifier::external_type_specification]
#[verifier::external_body]
pub struct ExStdRng(StdRng);

/// Calls `RngCore::next_u32` of `rand`'s `StdRng`. Nothing is claimed of
/// the number returned.
#[verifier::external_body]
fn std_next_u32(rng: &mut StdRng) -> u32 {
    rng.next_u32()
}

/// Calls `RngCore::next_u64` of `rand`'s `StdRng`. Nothing is claimed of
/// the number returned.
#[verifier::external_body]
fn std_next_u64(rng: &mut StdRng) -> u64 {
    rng.next_u64()
}

impl DrawSource for StdRng {
    fn draw_u32(&mut self) -> u32 {
        std_next_u32(self)
    }

    fn draw_u64(&mut self) -> u64 {
        std_next_u64(self)
    }
}

} // verus!
