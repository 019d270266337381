//! What the players leave to chance.

use vstd::prelude::*;
use rand::seq::SliceRandom;
use rand::Rng;
use crate::action::Action;

verus! {

/// A number drawn at random from `low` up to, but not including, `high`.
///
/// This is `Rng::gen_range` of the rand crate on the generator of the
/// current thread. Nothing is proved of it. What the contract takes from
/// rand is that the number lies in the half-open range; rand panics where
/// the range is empty, so the range must not be.
#[verifier::external_body]
pub(crate) fn random_in_range(low: isize, high: isize) -> (number: isize)
    requires
        low < high,
    ensures
        low <= number < high,
{
    rand::thread_rng().gen_range(low, high)
}

/// One of the actions, drawn at random, or nothing where there are none.
///
/// This is `SliceRandom::choose` of the rand crate on the generator of the
/// current thread. Nothing is proved of it. What the contract takes from
/// rand is that the result is an element of the slice, and is missing only
/// for an empty slice.
#[verifier::external_body]
pub(crate) fn random_action(actions: &Vec<Action>) -> (action: Option<Action>)
    ensures
        actions@.len() == 0 ==> action is None,
        actions@.len() > 0 ==> action is Some && actions@.contains(action->0),
{
    actions.choose(&mut rand::thread_rng()).copied()
}

} // verus!
