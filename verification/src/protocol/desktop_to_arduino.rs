//! The commands from the desktop, in the grouping by kind: a move of the
//! cube or an operation on the robot.

use vstd::prelude::*;

verus! {

/// A move that the robot makes with the cube.
#[allow(non_camel_case_types)]
#[derive(Debug, Clone, Copy, PartialEq, Eq, Structural)]
pub enum Move {
    X,
    Y,
    Y_,
    D,
    D_,
}

/// An operation on the robot itself.
#[derive(Debug, Clone, Copy, PartialEq, Eq, Structural)]
pub enum Operation {
    Reset,
    Relax,
}

/// A command: a move or an operation.
#[derive(Debug, Clone, Copy, PartialEq, Eq, Structural)]
pub enum Packet {
    Move(Move),
    Operation(Operation),
}

} // verus!
