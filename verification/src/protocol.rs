//! The one-byte packets between the desktop and the robot controller.

use vstd::prelude::*;

pub mod arduino_to_desktop;
pub mod desktop_to_arduino;

verus! {

/// What the controller answers after a command.
#[derive(Debug, Clone, Copy, PartialEq, Eq, Structural)]
pub enum EspToDesktopPacket {
    Success,
    Failed,
}

/// A command from the desktop to the controller.
#[allow(non_camel_case_types)]
#[derive(Debug, Clone, Copy, PartialEq, Eq, Structural)]
pub enum DesktopToEspPacket {
    Z,
    Y,
    Y_,
    D,
    D_,
    Relax,
    Shutdown,
}

/// The byte of a command: its place in the list of commands.
pub open spec fn desktop_to_esp_byte(p: DesktopToEspPacket) -> u8 {
    match p {
        DesktopToEspPacket::Z => 0,
        DesktopToEspPacket::Y => 1,
        DesktopToEspPacket::Y_ => 2,
        DesktopToEspPacket::D => 3,
        DesktopToEspPacket::D_ => 4,
        DesktopToEspPacket::Relax => 5,
        DesktopToEspPacket::Shutdown => 6,
    }
}

/// The command with the given byte, if any.
pub open spec fn desktop_to_esp_of_byte(b: u8) -> Option<DesktopToEspPacket> {
    if b == 0 {
        Some(DesktopToEspPacket::Z)
    } else if b == 1 {
        Some(DesktopToEspPacket::Y)
    } else if b == 2 {
        Some(DesktopToEspPacket::Y_)
    } else if b == 3 {
        Some(DesktopToEspPacket::D)
    } else if b == 4 {
        Some(DesktopToEspPacket::D_)
    } else if b == 5 {
        Some(DesktopToEspPacket::Relax)
    } else if b == 6 {
        Some(DesktopToEspPacket::Shutdown)
    } else {
        None
    }
}

/// The byte of an answer: its place in the list of answers.
pub open spec fn esp_to_desktop_byte(p: EspToDesktopPacket) -> u8 {
    match p {
        EspToDesktopPacket::Success => 0,
        EspToDesktopPacket::Failed => 1,
    }
}

/// The answer with the given byte, if any.
pub open spec fn esp_to_desktop_of_byte(b: u8) -> Option<EspToDesktopPacket> {
    if b == 0 {
        Some(EspToDesktopPacket::Success)
    } else if b == 1 {
        Some(EspToDesktopPacket::Failed)
    } else {
        None
    }
}

pub fn encode_desktop_to_esp_packet(p: DesktopToEspPacket) -> (b: u8)
    ensures
        b == desktop_to_esp_byte(p),
{
    match p {
        DesktopToEspPacket::Z => 0,
        DesktopToEspPacket::Y => 1,
        DesktopToEspPacket::Y_ => 2,
        DesktopToEspPacket::D => 3,
        DesktopToEspPacket::D_ => 4,
        DesktopToEspPacket::Relax => 5,
        DesktopToEspPacket::Shutdown => 6,
    }
}

/// The command that a byte stands for; `None` for a byte above 6.
pub fn decode_desktop_to_esp_packet(byte: u8) -> (p: Option<DesktopToEspPacket>)
    ensures
        p == desktop_to_esp_of_byte(byte),
{
    match byte {
        0 => Some(DesktopToEspPacket::Z),
        1 => Some(DesktopToEspPacket::Y),
        2 => Some(DesktopToEspPacket::Y_),
        3 => Some(DesktopToEspPacket::D),
        4 => Some(DesktopToEspPacket::D_),
        5 => Some(DesktopToEspPacket::Relax),
        6 => Some(DesktopToEspPacket::Shutdown),
        _ => None,
    }
}

pub fn encode_esp_to_desktop_packet(p: EspToDesktopPacket) -> (b: u8)
    ensures
        b == esp_to_desktop_byte(p),
{
    match p {
        EspToDesktopPacket::Success => 0,
        EspToDesktopPacket::Failed => 1,
    }
}

/// The answer that a byte stands for; `None` for a byte above 1.
pub fn decode_esp_to_desktop_packet(byte: u8) -> (p: Option<EspToDesktopPacket>)
    ensures
        p == esp_to_desktop_of_byte(byte),
{
    match byte {
        0 => Some(EspToDesktopPacket::Success),
        1 => Some(EspToDesktopPacket::Failed),
        _ => None,
    }
}

/// Decoding the byte of a command gives the command back.
pub proof fn law_desktop_to_esp_roundtrip(p: DesktopToEspPacket)
    ensures
        desktop_to_esp_of_byte(desktop_to_esp_byte(p)) == Some(p),
{
}

/// A byte that decodes to a command is the byte of that command, so no
/// two bytes stand for the same command.
pub proof fn law_desktop_to_esp_bytes_unique(b: u8)
    ensures
        desktop_to_esp_of_byte(b) matches Some(p) ==> desktop_to_esp_byte(p) == b,
        desktop_to_esp_of_byte(b) is Some <==> b < 7,
{
}

/// Decoding the byte of an answer gives the answer back.
pub proof fn law_esp_to_desktop_roundtrip(p: EspToDesktopPacket)
    ensures
        esp_to_desktop_of_byte(esp_to_desktop_byte(p)) == Some(p),
{
}

/// A byte that decodes to an answer is the byte of that answer.
pub proof fn law_esp_to_desktop_bytes_unique(b: u8)
    ensures
        esp_to_desktop_of_byte(b) matches Some(p) ==> esp_to_desktop_byte(p) == b,
        esp_to_desktop_of_byte(b) is Some <==> b < 2,
{
}

} // verus!
