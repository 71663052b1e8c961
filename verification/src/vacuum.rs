//! A reflex agent for the two-square vacuum world: it sucks where it
//! stands if the square is dirty, else moves toward the other square.

use vstd::prelude::*;

verus! {

/// An agent maps each percept to an action, possibly remembering earlier
/// percepts.
pub trait Agent {
    type Action;

    type Percept;

    fn act(&mut self, percept: &Self::Percept) -> Self::Action;
}

/// A square of the vacuum world, by its coordinates.
#[derive(Clone, Copy, Debug, PartialEq, Eq, Hash, Structural)]
pub struct VacuumWorldLocation {
    pub x: i32,
    pub y: i32,
}

/// Whether a square is clean.
#[derive(Clone, Copy, Debug, PartialEq, Eq, Hash, Structural)]
pub enum SquareState {
    Clean,
    Dirty,
}

/// What the agent can do.
#[derive(Clone, Copy, Debug, PartialEq, Eq, Hash, Structural)]
pub enum VacuumWorldAction {
    Left,
    Right,
    Up,
    Down,
    Suck,
    NoOp,
}

/// What the agent senses: where it stands and whether that square is
/// dirty.
#[derive(Clone, Copy, Debug, PartialEq, Eq, Hash, Structural)]
pub struct VaccuumWorldLocalPercept {
    pub location: VacuumWorldLocation,
    pub square_state: SquareState,
}

/// A stateless reflex agent.
#[derive(Default)]
pub struct ReflexVacuumAgent {

}

/// The reflex rule: suck a dirty square, else go right from the left
/// square and left from anywhere else.
pub open spec fn reflex_rule(percept: VaccuumWorldLocalPercept) -> VacuumWorldAction {
    if percept.square_state == SquareState::Dirty {
        VacuumWorldAction::Suck
    } else if percept.location.x == 0 {
        VacuumWorldAction::Right
    } else {
        VacuumWorldAction::Left
    }
}

/// The reflex rule as executable code.
pub fn reflex_action(percept: &VaccuumWorldLocalPercept) -> (r: VacuumWorldAction)
    ensures
        r == reflex_rule(*percept),
{
    if percept.square_state == SquareState::Dirty {
        VacuumWorldAction::Suck
    } else if percept.location.x == 0 {
        VacuumWorldAction::Right
    } else {
        VacuumWorldAction::Left
    }
}

impl ReflexVacuumAgent {
    pub fn new() -> (r: Self) {
        ReflexVacuumAgent {  }
    }
}

impl Agent for ReflexVacuumAgent {
    type Action = VacuumWorldAction;

    type Percept = VaccuumWorldLocalPercept;

    fn act(&mut self, percept: &Self::Percept) -> Self::Action {
        reflex_action(percept)
    }
}

} // verus!
