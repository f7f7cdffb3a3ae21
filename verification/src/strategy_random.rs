//! The random strategy.
use vstd::prelude::*;
use crate::ai::{Action, State};
use crate::rng::{XorShift, xorshift};

verus! {

/// Plays a random offered move (see `State::random_action`).
pub fn calc_action(state: &State, rng: &mut XorShift) -> (r: Action)
    requires
        state.last_big <= 9,
        state.spec_valid_actions().len() > 0,
    ensures
        final(rng).seed == xorshift(old(rng).seed),
        r == state.spec_valid_actions()[((final(rng).seed as usize) as int)
            % (state.spec_valid_actions().len() as int)],
{
    state.random_action(rng)
}

} // verus!
