//! The random draws the game rests on, taken from the `rand` crate. Verus
//! does not look into that crate: what this file says of its functions is
//! taken on trust.

use vstd::prelude::*;
use rand::Rng;
use rand::rngs::ThreadRng;
use rand::seq::SliceRandom;
use crate::color::Color;

verus! {

/// `rand::rngs::ThreadRng`, the generator that `rand` keeps for each thread.
/// Nothing is known of what it holds.
#[verifier::external_type_specification]
#[verifier::external_body]
pub struct ExThreadRng(rand::rngs::ThreadRng);

/// `rand::thread_rng` hands out the calling thread's generator. Nothing is
/// claimed of it. (It fails only where the system cannot seed a generator at
/// all.)
pub assume_specification[ rand::thread_rng ]() -> (rng: rand::rngs::ThreadRng);

/// `Rng::gen` at type `u8`: one byte, every value of which is as likely as
/// any other. Nothing is claimed of the byte.
#[verifier::external_body]
pub(crate) fn random_channel(rng: &mut ThreadRng) -> (c: u8) {
    rng.gen()
}

/// `SliceRandom::shuffle` on the whole of `colors`. It only ever swaps two
/// elements, so the colours after the call are those before it, each as
/// often as before, in some order.
#[verifier::external_body]
pub(crate) fn shuffle_colors(colors: &mut Vec<Color>, rng: &mut ThreadRng)
    ensures
        final(colors)@.len() == old(colors)@.len(),
        final(colors)@.to_multiset() == old(colors)@.to_multiset(),
{
    colors.shuffle(rng)
}

} // verus!
