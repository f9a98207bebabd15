//! The room's random source: a ChaCha stream of rand_chacha, drawn through rand.
use vstd::prelude::*;
use rand::Rng;
use rand_chacha::ChaCha20Rng;

verus! {

/// rand_chacha's ChaCha stream with 20 rounds, carried through the room as
/// an opaque value.
#[verifier::external_type_specification]
#[verifier::external_body]
pub struct ExChaCha20Rng(ChaCha20Rng);

/// Relies on rand's `Rng::gen_range` on an exclusive range of `usize`: the
/// value drawn lies in `0..bound`; it panics only on an empty range.
#[verifier::external_body]
pub(crate) fn gen_below(prng: &mut ChaCha20Rng, bound: usize) -> (r: usize)
    requires
        bound > 0,
    ensures
        r < bound,
{
    prng.gen_range(0..bound)
}

} // verus!
