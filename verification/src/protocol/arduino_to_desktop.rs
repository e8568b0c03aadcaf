//! The answers of the robot, in the grouping by kind: the outcome of an
//! action, or a move that it made.

use vstd::prelude::*;

verus! {

/// A move that the robot reports.
#[allow(non_camel_case_types)]
#[derive(Debug, Clone, Copy, PartialEq, Eq, Structural)]
pub enum AMove {
    X,
    Y,
    Y_,
    D,
    D_,
}

/// An answer of the robot.
#[derive(Debug, Clone, Copy, PartialEq, Eq, Structural)]
pub enum Packet {
    ActionCompleted,
    ActionFailed,
    Move(AMove),
}

} // verus!
