//! The motion of the robot's twister: how long to wait after each step of
//! a quarter turn, speeding up at the start and slowing down at the end;
//! and the reading of a command byte on the controller.

use vstd::prelude::*;
use crate::protocol::{
    decode_desktop_to_esp_packet, desktop_to_esp_of_byte, DesktopToEspPacket, EspToDesktopPacket,
};

verus! {

/// The wait after a step at the slowest, at the start and the end of a turn.
pub const TWISTER_START_INTERVAL_MICROS: u32 = 2000;

/// The wait after a step at full speed.
pub const TWISTER_CRUISE_INTERVAL_MICROS: u32 = 1000;

/// The steps over which the twister speeds up, and over which it slows down.
pub const TWISTER_ACCEL_STEPS: u32 = 200;

/// The direction pin level for each turn of the twister.
pub const TWISTER_DIR_Y: bool = false;

pub const TWISTER_DIR_Y_: bool = true;

pub const TWISTER_DIR_D: bool = !TWISTER_DIR_Y;

pub const TWISTER_DIR_D_: bool = !TWISTER_DIR_Y_;

/// The steps of a quarter turn.
pub const TWISTER_90_DEG_STEPS: u32 = 50 * 8;

/// Integer linear interpolation from `start` towards `end`, `i` steps of
/// `total`: `start` at step 0, and `end` past step 0 when `total` is 0.
pub open spec fn lerp(start: int, end: int, i: int, total: int) -> int {
    if i == 0 {
        start
    } else if total == 0 {
        end
    } else if end >= start {
        start + (end - start) * i / total
    } else {
        start - (start - end) * i / total
    }
}

/// Linear interpolation with integer math: `start` when `i` is 0, and
/// `end` when `i` reaches `total`. The inputs are those on which no step
/// of the computation leaves the range of `u32`.
pub fn lerp_u32(start: u32, end: u32, i: u32, total: u32) -> (r: u32)
    requires
        total != 0 && end >= start ==> (end - start) * i <= u32::MAX && start + (end - start) * i
            / (total as int) <= u32::MAX,
        total != 0 && end < start ==> (start - end) * i <= u32::MAX && (start - end) * i / (
        total as int) <= start,
    ensures
        r == lerp(start as int, end as int, i as int, total as int),
{
    if i == 0 {
        return start;
    }
    if total == 0 {
        return end;
    }
    if end >= start {
        start + (end - start) * i / total
    } else {
        start - (start - end) * i / total
    }
}

/// The interpolation returns `start` at step 0; from there it goes to
/// `end` at step `total`, and in between stays between the two.
pub proof fn law_lerp_endpoints(start: int, end: int, i: int, total: int)
    requires
        0 <= i <= total,
    ensures
        lerp(start, end, 0, total) == start,
        total > 0 ==> lerp(start, end, total, total) == end,
        start <= end ==> start <= lerp(start, end, i, total) <= end,
        end <= start ==> end <= lerp(start, end, i, total) <= start,
{
    if total > 0 {
        if end >= start {
            assert(0 <= (end - start) * i <= (end - start) * total) by (nonlinear_arith)
                requires
                    end >= start,
                    0 <= i <= total,
            ;
            assert((end - start) * i / total <= (end - start)) by (nonlinear_arith)
                requires
                    0 <= (end - start) * i <= (end - start) * total,
                    total > 0,
            ;
            assert(0 <= (end - start) * i / total) by (nonlinear_arith)
                requires
                    0 <= (end - start) * i,
                    total > 0,
            ;
            assert((end - start) * total / total == end - start) by (nonlinear_arith)
                requires
                    total > 0,
            ;
        } else {
            assert(0 <= (start - end) * i <= (start - end) * total) by (nonlinear_arith)
                requires
                    start > end,
                    0 <= i <= total,
            ;
            assert((start - end) * i / total <= (start - end)) by (nonlinear_arith)
                requires
                    0 <= (start - end) * i <= (start - end) * total,
                    total > 0,
            ;
            assert(0 <= (start - end) * i / total) by (nonlinear_arith)
                requires
                    0 <= (start - end) * i,
                    total > 0,
            ;
            assert((start - end) * total / total == start - end) by (nonlinear_arith)
                requires
                    total > 0,
            ;
        }
    }
}

/// The steps of a quarter turn spent speeding up, at full speed and
/// slowing down: a trapezoid when the turn is long enough to speed up
/// fully, else a triangle that slows down from the middle.
pub open spec fn twister_profile() -> (int, int, int) {
    let n = TWISTER_90_DEG_STEPS as int;
    let a = TWISTER_ACCEL_STEPS as int;
    if n >= a + a {
        (a, n - a - a, a)
    } else {
        (n / 2, 0, n - n / 2)
    }
}

/// The wait after step `step` of a quarter turn.
pub open spec fn twister_interval(step: int) -> int {
    let (accel, cruise, decel) = twister_profile();
    let slow = TWISTER_START_INTERVAL_MICROS as int;
    let fast = TWISTER_CRUISE_INTERVAL_MICROS as int;
    if step < accel {
        lerp(slow, fast, step, accel)
    } else if step < accel + cruise {
        fast
    } else {
        lerp(fast, slow, step - accel - cruise, decel)
    }
}

/// The waits after each step of a quarter turn, in order.
pub fn twister_90_intervals() -> (v: Vec<u32>)
    ensures
        v.len() == TWISTER_90_DEG_STEPS,
        forall|k: int| 0 <= k < v.len() ==> v[k] == twister_interval(k),
{
    let (accel, cruise, decel): (u32, u32, u32) = if TWISTER_90_DEG_STEPS >= TWISTER_ACCEL_STEPS
        + TWISTER_ACCEL_STEPS {
        (
            TWISTER_ACCEL_STEPS,
            TWISTER_90_DEG_STEPS - TWISTER_ACCEL_STEPS - TWISTER_ACCEL_STEPS,
            TWISTER_ACCEL_STEPS,
        )
    } else {
        let half = TWISTER_90_DEG_STEPS / 2;
        (half, 0, TWISTER_90_DEG_STEPS - half)
    };
    assert((accel as int, cruise as int, decel as int) == twister_profile());
    let mut v: Vec<u32> = Vec::new();
    let mut step: u32 = 0;
    while step < TWISTER_90_DEG_STEPS
        invariant
            step <= TWISTER_90_DEG_STEPS,
            v.len() == step,
            (accel as int, cruise as int, decel as int) == twister_profile(),
            forall|k: int| 0 <= k < v.len() ==> v[k] == twister_interval(k),
        decreases TWISTER_90_DEG_STEPS - step,
    {
        let interval = if step < accel {
            proof {
                law_lerp_endpoints(2000, 1000, step as int, accel as int);
                assert((1000 - 2000) * (step as int) <= 0) by (nonlinear_arith)
                    requires step >= 0;
                assert((2000 - 1000) * (step as int) <= 200_000) by (nonlinear_arith)
                    requires step < 200;
            }
            lerp_u32(TWISTER_START_INTERVAL_MICROS, TWISTER_CRUISE_INTERVAL_MICROS, step, accel)
        } else if step < accel + cruise {
            TWISTER_CRUISE_INTERVAL_MICROS
        } else {
            let d = step - accel - cruise;
            proof {
                law_lerp_endpoints(1000, 2000, d as int, decel as int);
                assert((2000 - 1000) * (d as int) <= 200_000) by (nonlinear_arith)
                    requires d < 200;
            }
            lerp_u32(TWISTER_CRUISE_INTERVAL_MICROS, TWISTER_START_INTERVAL_MICROS, d, decel)
        };
        v.push(interval);
        step += 1;
    }
    v
}

/// Every wait of a quarter turn lies between the full-speed wait and the
/// slowest wait: the twister never steps faster than full speed.
pub proof fn law_twister_intervals_in_range(step: int)
    requires
        0 <= step < TWISTER_90_DEG_STEPS,
    ensures
        TWISTER_CRUISE_INTERVAL_MICROS <= twister_interval(step) <= TWISTER_START_INTERVAL_MICROS,
{
    let (accel, cruise, decel) = twister_profile();
    if step < accel {
        law_lerp_endpoints(2000, 1000, step, accel);
    } else if step >= accel + cruise {
        law_lerp_endpoints(1000, 2000, step - accel - cruise, decel);
    }
}

/// The command that a byte on the controller stands for: the digit keys
/// of a terminal ('0' is 48) stand for the same commands as the bytes 0 to
/// 9; and the answer to send once the command is carried out.
pub fn handle_command(byte: u8) -> (r: (Option<DesktopToEspPacket>, EspToDesktopPacket))
    ensures
        r.0 == desktop_to_esp_of_byte(
            if byte >= 48 {
                (byte - 48) as u8
            } else {
                byte
            },
        ),
        r.1 == (if r.0 is Some {
            EspToDesktopPacket::Success
        } else {
            EspToDesktopPacket::Failed
        }),
{
    let mut byte = byte;
    if byte >= 48 {
        byte -= 48;
    }
    match decode_desktop_to_esp_packet(byte) {
        Some(p) => (Some(p), EspToDesktopPacket::Success),
        None => (None, EspToDesktopPacket::Failed),
    }
}

} // verus!
