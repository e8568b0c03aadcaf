//! The decisions of the desktop's link to the robot: what to write on the
//! serial port, when to stop, and whether the robot is busy.

use vstd::prelude::*;
use crate::protocol::{desktop_to_esp_byte, encode_desktop_to_esp_packet, DesktopToEspPacket};

verus! {

/// What happens on the link.
#[derive(Debug, Clone, Copy, PartialEq, Eq, Structural)]
pub enum RobotEvent {
    /// The desktop hands over a command.
    Command(DesktopToEspPacket),
    /// The robot has answered.
    Answer,
}

/// What the link does next.
#[derive(Debug, Clone, Copy, PartialEq, Eq, Structural)]
pub enum RobotAction {
    /// Write the byte, then go on.
    Write(u8),
    /// Write the byte, then stop.
    WriteAndStop(u8),
    /// Go on.
    Wait,
}

/// The next busy flag and action: a command is written as its byte and
/// makes the robot busy, except for the shutdown command, after which the
/// link stops; an answer makes the robot free again.
pub fn robot_step(busy: bool, event: RobotEvent) -> (r: (bool, RobotAction))
    ensures
        r == (match event {
            RobotEvent::Command(p) => if p == DesktopToEspPacket::Shutdown {
                (busy, RobotAction::WriteAndStop(desktop_to_esp_byte(p)))
            } else {
                (true, RobotAction::Write(desktop_to_esp_byte(p)))
            },
            RobotEvent::Answer => (false, RobotAction::Wait),
        }),
{
    match event {
        RobotEvent::Command(p) => {
            let byte = encode_desktop_to_esp_packet(p);
            if p == DesktopToEspPacket::Shutdown {
                (busy, RobotAction::WriteAndStop(byte))
            } else {
                (true, RobotAction::Write(byte))
            }
        },
        RobotEvent::Answer => (false, RobotAction::Wait),
    }
}

} // verus!
