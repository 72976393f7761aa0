//! The one place where the library asks for a random number.

use vstd::prelude::*;

verus! {

/// Stands for one bounded draw of the WyRand generator of `fastrand`: for a
/// generator whose state is `state`, the pair of the number that
/// `fastrand::Rng::u64(..bound)` returns and the state that the call leaves
/// behind. The generator has no other state and reads nothing else, so the
/// pair depends on the two arguments alone.
pub uninterp spec fn wyrand_draw(state: u64, bound: u64) -> (u64, u64);

/// Draws a number below `bound` from the generator state `state`.
///
/// Trusted: the body builds a `fastrand::Rng` that holds `state`
/// (`Rng::with_seed`), calls `Rng::u64(..bound)` on it and reads the state
/// back (`Rng::get_seed`). The contract claims that the returned pair is
/// `wyrand_draw(state, bound)` and that the number lies below `bound`; an
/// empty range, on which `Rng::u64` panics, is left out by `requires`.
#[verifier::external_body]
fn draw_below(state: u64, bound: u64) -> (r: (u64, u64))
    requires
        bound > 0,
    ensures
        r == wyrand_draw(state, bound),
        r.0 < bound,
{
    let mut generator = fastrand::Rng::with_seed(state);
    let value = generator.u64(..bound);
    (value, generator.get_seed())
}

/// The index that a draw among `count` candidates picks: the drawn number,
/// which `fastrand` keeps below the bound.
pub open spec fn picked(state: u64, count: nat) -> int {
    let drawn = wyrand_draw(state, count as u64).0;
    if drawn < count {
        drawn as int
    } else {
        0
    }
}

/// The generator state that a draw among `count` candidates leaves behind.
pub open spec fn state_after(state: u64, count: nat) -> u64 {
    wyrand_draw(state, count as u64).1
}

/// Picks one of `count` candidates; returns its index and the next state of
/// the generator.
pub fn pick(state: u64, count: usize) -> (r: (usize, u64))
    requires
        count > 0,
    ensures
        r.0 == picked(state, count as nat),
        r.0 < count,
        r.1 == state_after(state, count as nat),
{
    let drawn = draw_below(state, count as u64);
    (drawn.0 as usize, drawn.1)
}

} // verus!
