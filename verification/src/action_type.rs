//! The kinds of action.

use vstd::prelude::*;

verus! {

/// The two kinds of action that a player can take in a turn.
#[derive(Copy, Clone, Debug, PartialEq, Eq, Structural)]
pub enum ActionType {
    Move,
    Block,
}

impl ActionType {
    /// The name of the kind.
    pub fn name(&self) -> (s: &'static str)
        ensures
            s@ == (match *self {
                ActionType::Move => "Move"@,
                ActionType::Block => "Block"@,
            }),
    {
        match self {
            ActionType::Move => "Move",
            ActionType::Block => "Block",
        }
    }
}

} // verus!
