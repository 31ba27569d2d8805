//! The random draws of the game.

use vstd::prelude::*;
use rand::Rng;

verus! {

/// A number drawn at random from `0..n`, by `Rng::gen_range` of the `rand`
/// crate on the generator that `rand::thread_rng` gives. Nothing is
/// proved of the outside call; what is taken on trust is that the draw
/// lies in the range, which `gen_range` promises of a range that is not
/// empty. On an empty range it panics, hence `n > 0`. Which number comes
/// is left open: two calls with the same `n` may differ. The generator
/// seeds itself from the system on first use and panics if that fails.
#[verifier::external_body]
pub(crate) fn random_below(n: usize) -> (r: usize)
    requires
        n > 0,
    ensures
        r < n,
{
    rand::thread_rng().gen_range(0..n)
}

} // verus!
