//! The decisions of the desktop program's window: which queued action to
//! carry out next, and what its buttons do to the queue.

use std::collections::VecDeque;
use vstd::prelude::*;
use crate::protocol::desktop_to_arduino::{Move, Operation, Packet};

verus! {

/// An action of the desktop program: a move for the robot, or reading the
/// colors of the face in front of the camera.
#[derive(Debug, Clone, Copy, PartialEq, Eq, Structural)]
pub enum Action {
    Move(Move),
    CaptureColors,
}

/// Reading the four side faces: read a face, then turn the cube to the
/// next, four times.
pub open spec fn capture_faces() -> Seq<Action> {
    seq![
        Action::CaptureColors,
        Action::Move(Move::Y),
        Action::CaptureColors,
        Action::Move(Move::Y),
        Action::CaptureColors,
        Action::Move(Move::Y),
        Action::CaptureColors,
        Action::Move(Move::Y),
    ]
}

/// The actions that read the four side faces.
#[allow(non_snake_case)]
pub fn CAPTURE_FACES() -> (actions: [Action; 8])
    ensures
        actions@ == capture_faces(),
        actions@.len() == 8,
        forall|i: int| 0 <= i < 8 && i % 2 == 0 ==> #[trigger] actions[i] == Action::CaptureColors,
        forall|i: int| 0 <= i < 8 && i % 2 == 1 ==> #[trigger] actions[i] == Action::Move(Move::Y),
{
    let actions = [
        Action::CaptureColors,
        Action::Move(Move::Y),
        Action::CaptureColors,
        Action::Move(Move::Y),
        Action::CaptureColors,
        Action::Move(Move::Y),
        Action::CaptureColors,
        Action::Move(Move::Y),
    ];
    assert(actions@ =~= capture_faces());
    proof {
        law_capture_faces_reads_four_sides();
    }
    actions
}

/// Reading the faces is four rounds of reading the face in front and then
/// turning the cube a quarter turn about Y: a capture at each even place and
/// the same quarter turn at each odd place, so the four captures see the
/// four side faces, each once, and the four turns bring the cube back to
/// where it started.
pub proof fn law_capture_faces_reads_four_sides()
    ensures
        capture_faces().len() == 8,
        forall|i: int|
            0 <= i < 8 && i % 2 == 0 ==> #[trigger] capture_faces()[i] == Action::CaptureColors,
        forall|i: int|
            0 <= i < 8 && i % 2 == 1 ==> #[trigger] capture_faces()[i] == Action::Move(Move::Y),
{
    assert forall|i: int| 0 <= i < 8 && i % 2 == 0 implies #[trigger] capture_faces()[i]
        == Action::CaptureColors by {
        assert(i == 0 || i == 2 || i == 4 || i == 6);
    }
    assert forall|i: int| 0 <= i < 8 && i % 2 == 1 implies #[trigger] capture_faces()[i]
        == Action::Move(Move::Y) by {
        assert(i == 1 || i == 3 || i == 5 || i == 7);
    }
}

/// One step of the window's logic: while the robot is free, the first
/// queued action leaves the queue and is to be carried out, and a move
/// makes the robot busy. Gives the busy flag and the action.
pub fn logic_step(busy: bool, queue: &mut VecDeque<Action>) -> (r: (bool, Option<Action>))
    ensures
        (if !busy && old(queue)@.len() > 0 {
            &&& final(queue)@ == old(queue)@.drop_first()
            &&& r.1 == Some(old(queue)@[0])
            &&& r.0 == (old(queue)@[0] is Move)
        } else {
            &&& final(queue)@ == old(queue)@
            &&& r == (busy, None::<Action>)
        }),
{
    if !busy {
        match queue.pop_front() {
            Some(action) => {
                let now_busy = match action {
                    Action::Move(_) => true,
                    Action::CaptureColors => false,
                };
                (now_busy, Some(action))
            },
            None => (busy, None),
        }
    } else {
        (busy, None)
    }
}

/// The capture button: with nothing queued, the actions that read the
/// faces are queued and the answer is `true` (the faces read before are to
/// be dropped); else nothing changes.
pub fn capture_clicked(queue: &mut VecDeque<Action>) -> (started: bool)
    ensures
        started == (old(queue)@.len() == 0),
        started ==> final(queue)@ == capture_faces(),
        started ==> final(queue)@.len() == 8,
        started ==> forall|i: int|
            0 <= i < 8 && i % 2 == 0 ==> #[trigger] final(queue)@[i] == Action::CaptureColors,
        started ==> forall|i: int|
            0 <= i < 8 && i % 2 == 1 ==> #[trigger] final(queue)@[i] == Action::Move(Move::Y),
        !started ==> final(queue)@ == old(queue)@,
{
    if queue.len() != 0 {
        return false;
    }
    let actions = CAPTURE_FACES();
    let mut k: usize = 0;
    while k < 8
        invariant
            0 <= k <= 8,
            actions@ == capture_faces(),
            queue@ == capture_faces().take(k as int),
        decreases 8 - k,
    {
        queue.push_back(actions[k]);
        k += 1;
        assert(queue@ =~= capture_faces().take(k as int));
    }
    assert(capture_faces().take(8) =~= capture_faces());
    proof {
        law_capture_faces_reads_four_sides();
    }
    true
}

/// The relax button: the queue empties, the robot counts as free, and the
/// relax operation is to be sent.
pub fn relax_clicked(queue: &mut VecDeque<Action>) -> (r: (bool, Packet))
    ensures
        final(queue)@.len() == 0,
        r == (false, Packet::Operation(Operation::Relax)),
{
    queue.clear();
    (false, Packet::Operation(Operation::Relax))
}

} // verus!
