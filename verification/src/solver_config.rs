//! The moves that the robot can make, and the commands that carry them out.

use vstd::prelude::*;
use crate::cube::{Axis, Direction, Layer, Move, Rotation, Twist};
use crate::protocol::DesktopToEspPacket;

verus! {

/// The file that holds the move table for the robot's moves.
pub const FILENAME: &'static str = "solver_table.bin";

/// The moves that the robot can make, in the order the table is built with.
#[allow(non_snake_case)]
pub fn CUBE_MOVES() -> (moves: [Move; 5])
    ensures
        moves@ == seq![Move::Z(), Move::Y(), Move::Y_(), Move::D(), Move::D_()],
{
    let moves = [Move::Z(), Move::Y(), Move::Y_(), Move::D(), Move::D_()];
    assert(moves@ =~= seq![Move::Z(), Move::Y(), Move::Y_(), Move::D(), Move::D_()]);
    moves
}

/// The command that makes the robot carry out a move, if it can.
pub open spec fn packet_of(m: Move) -> Option<DesktopToEspPacket> {
    if m == Move::Z() {
        Some(DesktopToEspPacket::Z)
    } else if m == Move::Y() {
        Some(DesktopToEspPacket::Y)
    } else if m == Move::Y_() {
        Some(DesktopToEspPacket::Y_)
    } else if m == Move::D() {
        Some(DesktopToEspPacket::D)
    } else if m == Move::D_() {
        Some(DesktopToEspPacket::D_)
    } else {
        None
    }
}

/// The command for a move; `None` for a move the robot cannot make.
pub fn map_to_packet(m: Move) -> (p: Option<DesktopToEspPacket>)
    ensures
        p == packet_of(m),
{
    match m {
        Move::Rotation(Rotation(Axis::Z, Direction::CW)) => Some(DesktopToEspPacket::Z),
        Move::Rotation(Rotation(Axis::Y, Direction::CW)) => Some(DesktopToEspPacket::Y),
        Move::Rotation(Rotation(Axis::Y, Direction::CCW)) => Some(DesktopToEspPacket::Y_),
        Move::Twist(Twist(Layer::Bottom, Direction::CW)) => Some(DesktopToEspPacket::D),
        Move::Twist(Twist(Layer::Bottom, Direction::CCW)) => Some(DesktopToEspPacket::D_),
        _ => None,
    }
}

/// The robot has a command for each of its moves, and no two moves share
/// a command.
pub proof fn law_robot_moves_have_commands(a: Move, b: Move)
    ensures
        seq![Move::Z(), Move::Y(), Move::Y_(), Move::D(), Move::D_()].contains(a) ==> packet_of(
            a,
        ) is Some,
        packet_of(a) is Some && packet_of(a) == packet_of(b) ==> a == b,
{
    let s = seq![Move::Z(), Move::Y(), Move::Y_(), Move::D(), Move::D_()];
    if s.contains(a) {
        let i = choose|i: int| 0 <= i < s.len() && s[i] == a;
        assert(i == 0 || i == 1 || i == 2 || i == 3 || i == 4);
    }
}

} // verus!
