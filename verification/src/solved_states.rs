//! The solved states one by one: the 24 turns of the solved cube as a
//! whole, each named, and the proof that no other state is solved.

use vstd::prelude::*;
use crate::cube::{
    apply_move, apply_rotations, group_corner, is_solved_state, law_rotation_keeps_solved,
    solved_state, Axis, Corner, Direction, Move, Rotation,
};

verus! {

/// The rotation with number `j`, in the order of `Rotation::ALL`.
pub open spec fn rotation_at(j: int) -> Rotation {
    if j == 0 {
        Rotation(Axis::X, Direction::CW)
    } else if j == 1 {
        Rotation(Axis::X, Direction::CCW)
    } else if j == 2 {
        Rotation(Axis::Y, Direction::CW)
    } else if j == 3 {
        Rotation(Axis::Y, Direction::CCW)
    } else if j == 4 {
        Rotation(Axis::Z, Direction::CW)
    } else {
        Rotation(Axis::Z, Direction::CCW)
    }
}


/// The solved state with number `k`: the solved cube first, then the
/// others in the order in which rotations first reach them.
pub open spec fn solved_at(k: int) -> Seq<Corner> {
    if k == 0 {
        seq![
            Corner::with(0, 0), Corner::with(1, 0), Corner::with(2, 0), Corner::with(3, 0),
            Corner::with(4, 0), Corner::with(5, 0), Corner::with(6, 0), Corner::with(7, 0),
        ]
    } else if k == 1 {
        seq![
            Corner::with(3, 2), Corner::with(2, 1), Corner::with(6, 2), Corner::with(7, 1),
            Corner::with(0, 1), Corner::with(1, 2), Corner::with(5, 1), Corner::with(4, 2),
        ]
    } else if k == 2 {
        seq![
            Corner::with(4, 2), Corner::with(5, 1), Corner::with(1, 2), Corner::with(0, 1),
            Corner::with(7, 1), Corner::with(6, 2), Corner::with(2, 1), Corner::with(3, 2),
        ]
    } else if k == 3 {
        seq![
            Corner::with(3, 0), Corner::with(0, 0), Corner::with(1, 0), Corner::with(2, 0),
            Corner::with(7, 0), Corner::with(4, 0), Corner::with(5, 0), Corner::with(6, 0),
        ]
    } else if k == 4 {
        seq![
            Corner::with(1, 0), Corner::with(2, 0), Corner::with(3, 0), Corner::with(0, 0),
            Corner::with(5, 0), Corner::with(6, 0), Corner::with(7, 0), Corner::with(4, 0),
        ]
    } else if k == 5 {
        seq![
            Corner::with(4, 1), Corner::with(0, 2), Corner::with(3, 1), Corner::with(7, 2),
            Corner::with(5, 2), Corner::with(1, 1), Corner::with(2, 2), Corner::with(6, 1),
        ]
    } else if k == 6 {
        seq![
            Corner::with(1, 1), Corner::with(5, 2), Corner::with(6, 1), Corner::with(2, 2),
            Corner::with(0, 2), Corner::with(4, 1), Corner::with(7, 2), Corner::with(3, 1),
        ]
    } else if k == 7 {
        seq![
            Corner::with(7, 0), Corner::with(6, 0), Corner::with(5, 0), Corner::with(4, 0),
            Corner::with(3, 0), Corner::with(2, 0), Corner::with(1, 0), Corner::with(0, 0),
        ]
    } else if k == 8 {
        seq![
            Corner::with(7, 1), Corner::with(3, 2), Corner::with(2, 1), Corner::with(6, 2),
            Corner::with(4, 2), Corner::with(0, 1), Corner::with(1, 2), Corner::with(5, 1),
        ]
    } else if k == 9 {
        seq![
            Corner::with(2, 1), Corner::with(6, 2), Corner::with(7, 1), Corner::with(3, 2),
            Corner::with(1, 2), Corner::with(5, 1), Corner::with(4, 2), Corner::with(0, 1),
        ]
    } else if k == 10 {
        seq![
            Corner::with(0, 2), Corner::with(3, 1), Corner::with(7, 2), Corner::with(4, 1),
            Corner::with(1, 1), Corner::with(2, 2), Corner::with(6, 1), Corner::with(5, 2),
        ]
    } else if k == 11 {
        seq![
            Corner::with(2, 2), Corner::with(1, 1), Corner::with(5, 2), Corner::with(6, 1),
            Corner::with(3, 1), Corner::with(0, 2), Corner::with(4, 1), Corner::with(7, 2),
        ]
    } else if k == 12 {
        seq![
            Corner::with(0, 1), Corner::with(4, 2), Corner::with(5, 1), Corner::with(1, 2),
            Corner::with(3, 2), Corner::with(7, 1), Corner::with(6, 2), Corner::with(2, 1),
        ]
    } else if k == 13 {
        seq![
            Corner::with(5, 1), Corner::with(1, 2), Corner::with(0, 1), Corner::with(4, 2),
            Corner::with(6, 2), Corner::with(2, 1), Corner::with(3, 2), Corner::with(7, 1),
        ]
    } else if k == 14 {
        seq![
            Corner::with(7, 2), Corner::with(4, 1), Corner::with(0, 2), Corner::with(3, 1),
            Corner::with(6, 1), Corner::with(5, 2), Corner::with(1, 1), Corner::with(2, 2),
        ]
    } else if k == 15 {
        seq![
            Corner::with(5, 2), Corner::with(6, 1), Corner::with(2, 2), Corner::with(1, 1),
            Corner::with(4, 1), Corner::with(7, 2), Corner::with(3, 1), Corner::with(0, 2),
        ]
    } else if k == 16 {
        seq![
            Corner::with(2, 0), Corner::with(3, 0), Corner::with(0, 0), Corner::with(1, 0),
            Corner::with(6, 0), Corner::with(7, 0), Corner::with(4, 0), Corner::with(5, 0),
        ]
    } else if k == 17 {
        seq![
            Corner::with(5, 0), Corner::with(4, 0), Corner::with(7, 0), Corner::with(6, 0),
            Corner::with(1, 0), Corner::with(0, 0), Corner::with(3, 0), Corner::with(2, 0),
        ]
    } else if k == 18 {
        seq![
            Corner::with(4, 0), Corner::with(7, 0), Corner::with(6, 0), Corner::with(5, 0),
            Corner::with(0, 0), Corner::with(3, 0), Corner::with(2, 0), Corner::with(1, 0),
        ]
    } else if k == 19 {
        seq![
            Corner::with(6, 0), Corner::with(5, 0), Corner::with(4, 0), Corner::with(7, 0),
            Corner::with(2, 0), Corner::with(1, 0), Corner::with(0, 0), Corner::with(3, 0),
        ]
    } else if k == 20 {
        seq![
            Corner::with(3, 1), Corner::with(7, 2), Corner::with(4, 1), Corner::with(0, 2),
            Corner::with(2, 2), Corner::with(6, 1), Corner::with(5, 2), Corner::with(1, 1),
        ]
    } else if k == 21 {
        seq![
            Corner::with(6, 1), Corner::with(2, 2), Corner::with(1, 1), Corner::with(5, 2),
            Corner::with(7, 2), Corner::with(3, 1), Corner::with(0, 2), Corner::with(4, 1),
        ]
    } else if k == 22 {
        seq![
            Corner::with(6, 2), Corner::with(7, 1), Corner::with(3, 2), Corner::with(2, 1),
            Corner::with(5, 1), Corner::with(4, 2), Corner::with(0, 1), Corner::with(1, 2),
        ]
    } else {
        seq![
            Corner::with(1, 2), Corner::with(0, 1), Corner::with(4, 2), Corner::with(5, 1),
            Corner::with(2, 1), Corner::with(3, 2), Corner::with(7, 1), Corner::with(6, 2),
        ]
    }
}

/// The number of the solved state that rotation `j` turns solved state
/// `k` into.
pub closed spec fn rotated_index(k: int, j: int) -> int {
    if k == 0 {
        pick(j, 1, 2, 3, 4, 5, 6)
    } else if k == 1 {
        pick(j, 7, 0, 8, 9, 10, 11)
    } else if k == 2 {
        pick(j, 0, 7, 12, 13, 14, 15)
    } else if k == 3 {
        pick(j, 11, 14, 16, 0, 8, 12)
    } else if k == 4 {
        pick(j, 10, 15, 0, 16, 13, 9)
    } else if k == 5 {
        pick(j, 8, 13, 14, 10, 17, 0)
    } else if k == 6 {
        pick(j, 9, 12, 11, 15, 0, 17)
    } else if k == 7 {
        pick(j, 2, 1, 18, 19, 20, 21)
    } else if k == 8 {
        pick(j, 21, 5, 22, 1, 18, 3)
    } else if k == 9 {
        pick(j, 20, 6, 1, 22, 4, 19)
    } else if k == 10 {
        pick(j, 18, 4, 5, 20, 23, 1)
    } else if k == 11 {
        pick(j, 19, 3, 21, 6, 1, 23)
    } else if k == 12 {
        pick(j, 6, 20, 23, 2, 3, 18)
    } else if k == 13 {
        pick(j, 5, 21, 2, 23, 19, 4)
    } else if k == 14 {
        pick(j, 3, 19, 20, 5, 22, 2)
    } else if k == 15 {
        pick(j, 4, 18, 6, 21, 2, 22)
    } else if k == 16 {
        pick(j, 23, 22, 4, 3, 21, 20)
    } else if k == 17 {
        pick(j, 22, 23, 19, 18, 6, 5)
    } else if k == 18 {
        pick(j, 15, 10, 17, 7, 12, 8)
    } else if k == 19 {
        pick(j, 14, 11, 7, 17, 9, 13)
    } else if k == 20 {
        pick(j, 12, 9, 10, 14, 16, 7)
    } else if k == 21 {
        pick(j, 13, 8, 15, 11, 7, 16)
    } else if k == 22 {
        pick(j, 16, 17, 9, 8, 15, 14)
    } else {
        pick(j, 17, 16, 13, 12, 11, 10)
    }
}

/// The `j`-th of six numbers.
spec fn pick(j: int, a: int, b: int, c: int, d: int, e: int, g: int) -> int {
    if j == 0 {
        a
    } else if j == 1 {
        b
    } else if j == 2 {
        c
    } else if j == 3 {
        d
    } else if j == 4 {
        e
    } else {
        g
    }
}

/// The state, numbered lower, from which a rotation first reaches solved
/// state `k`, and the number of that rotation.
spec fn first_reached_from(k: int) -> (int, int) {
    if k == 1 {
        (0, 0)
    } else if k == 2 {
        (0, 1)
    } else if k == 3 {
        (0, 2)
    } else if k == 4 {
        (0, 3)
    } else if k == 5 {
        (0, 4)
    } else if k == 6 {
        (0, 5)
    } else if k == 7 {
        (1, 0)
    } else if k == 8 {
        (1, 2)
    } else if k == 9 {
        (1, 3)
    } else if k == 10 {
        (1, 4)
    } else if k == 11 {
        (1, 5)
    } else if k == 12 {
        (2, 2)
    } else if k == 13 {
        (2, 3)
    } else if k == 14 {
        (2, 4)
    } else if k == 15 {
        (2, 5)
    } else if k == 16 {
        (3, 2)
    } else if k == 17 {
        (5, 4)
    } else if k == 18 {
        (7, 2)
    } else if k == 19 {
        (7, 3)
    } else if k == 20 {
        (7, 4)
    } else if k == 21 {
        (7, 5)
    } else if k == 22 {
        (8, 2)
    } else {
        (10, 4)
    }
}

/// The corner at position 0 of solved state `k`, as `3 * id + ori`.
spec fn front_code(k: int) -> int {
    (solved_at(k)[0].id() * 3 + solved_at(k)[0].ori()) as int
}

/// The solved state whose corner at position 0 has the given code.
spec fn state_of_front_code(code: int) -> int {
    if code == 0 {
        0
    } else if code == 1 {
        12
    } else if code == 2 {
        10
    } else if code == 3 {
        4
    } else if code == 4 {
        6
    } else if code == 5 {
        23
    } else if code == 6 {
        16
    } else if code == 7 {
        9
    } else if code == 8 {
        11
    } else if code == 9 {
        3
    } else if code == 10 {
        20
    } else if code == 11 {
        1
    } else if code == 12 {
        18
    } else if code == 13 {
        5
    } else if code == 14 {
        2
    } else if code == 15 {
        17
    } else if code == 16 {
        13
    } else if code == 17 {
        15
    } else if code == 18 {
        19
    } else if code == 19 {
        21
    } else if code == 20 {
        22
    } else if code == 21 {
        7
    } else if code == 22 {
        8
    } else {
        14
    }
}

/// How many solved states the breadth-first search over the rotations has
/// found when it turns state `h` by rotation `j`.
pub closed spec fn count_at(h: int, j: int) -> int {
    if h == 0 {
        pick7(j, 1, 2, 3, 4, 5, 6, 7)
    } else if h == 1 {
        pick7(j, 7, 8, 8, 9, 10, 11, 12)
    } else if h == 2 {
        pick7(j, 12, 12, 12, 13, 14, 15, 16)
    } else if h == 3 {
        pick7(j, 16, 16, 16, 17, 17, 17, 17)
    } else if h == 4 {
        pick7(j, 17, 17, 17, 17, 17, 17, 17)
    } else if h == 5 {
        pick7(j, 17, 17, 17, 17, 17, 18, 18)
    } else if h == 6 {
        pick7(j, 18, 18, 18, 18, 18, 18, 18)
    } else if h == 7 {
        pick7(j, 18, 18, 18, 19, 20, 21, 22)
    } else if h == 8 {
        pick7(j, 22, 22, 22, 23, 23, 23, 23)
    } else if h == 9 {
        pick7(j, 23, 23, 23, 23, 23, 23, 23)
    } else if h == 10 {
        pick7(j, 23, 23, 23, 23, 23, 24, 24)
    } else if h == 11 {
        pick7(j, 24, 24, 24, 24, 24, 24, 24)
    } else if h == 12 {
        pick7(j, 24, 24, 24, 24, 24, 24, 24)
    } else if h == 13 {
        pick7(j, 24, 24, 24, 24, 24, 24, 24)
    } else if h == 14 {
        pick7(j, 24, 24, 24, 24, 24, 24, 24)
    } else if h == 15 {
        pick7(j, 24, 24, 24, 24, 24, 24, 24)
    } else if h == 16 {
        pick7(j, 24, 24, 24, 24, 24, 24, 24)
    } else if h == 17 {
        pick7(j, 24, 24, 24, 24, 24, 24, 24)
    } else if h == 18 {
        pick7(j, 24, 24, 24, 24, 24, 24, 24)
    } else if h == 19 {
        pick7(j, 24, 24, 24, 24, 24, 24, 24)
    } else if h == 20 {
        pick7(j, 24, 24, 24, 24, 24, 24, 24)
    } else if h == 21 {
        pick7(j, 24, 24, 24, 24, 24, 24, 24)
    } else if h == 22 {
        pick7(j, 24, 24, 24, 24, 24, 24, 24)
    } else if h == 23 {
        pick7(j, 24, 24, 24, 24, 24, 24, 24)
    } else {
        24
    }
}

/// The `j`-th of seven numbers.
spec fn pick7(j: int, a: int, b: int, c: int, d: int, e: int, g: int, x: int) -> int {
    if j == 6 {
        x
    } else {
        pick(j, a, b, c, d, e, g)
    }
}

/// The breadth-first search over the rotations starts with one state
/// found and ends with all 24.
pub(crate) proof fn lemma_class_ends()
    ensures
        count_at(0, 0) == 1,
        count_at(24, 0) == 24,
{
}

/// One step of the breadth-first search over the rotations: the state that
/// rotation `j` turns state `h` into was found already, or it is the next
/// one to be found.
pub(crate) proof fn lemma_class_step(h: int, j: int)
    requires
        0 <= h < 24,
        0 <= j < 6,
    ensures
        h < count_at(h, 0),
        count_at(h, j) <= 24,
        count_at(h, 6) == count_at(h + 1, 0),
        (rotated_index(h, j) < count_at(h, j) && count_at(h, j + 1) == count_at(h, j)) || (
        rotated_index(h, j) == count_at(h, j) && count_at(h, j + 1) == count_at(h, j) + 1),
{
}

/// The rotations of solved state 0.
proof fn lemma_rotate_0()
    ensures
        apply_move(solved_at(0), Move::Rotation(rotation_at(0))) == solved_at(1),
        apply_move(solved_at(0), Move::Rotation(rotation_at(1))) == solved_at(2),
        apply_move(solved_at(0), Move::Rotation(rotation_at(2))) == solved_at(3),
        apply_move(solved_at(0), Move::Rotation(rotation_at(3))) == solved_at(4),
        apply_move(solved_at(0), Move::Rotation(rotation_at(4))) == solved_at(5),
        apply_move(solved_at(0), Move::Rotation(rotation_at(5))) == solved_at(6),
{
    broadcast use group_corner;

    assert(apply_move(solved_at(0), Move::Rotation(rotation_at(0))) =~= solved_at(1));
    assert(apply_move(solved_at(0), Move::Rotation(rotation_at(1))) =~= solved_at(2));
    assert(apply_move(solved_at(0), Move::Rotation(rotation_at(2))) =~= solved_at(3));
    assert(apply_move(solved_at(0), Move::Rotation(rotation_at(3))) =~= solved_at(4));
    assert(apply_move(solved_at(0), Move::Rotation(rotation_at(4))) =~= solved_at(5));
    assert(apply_move(solved_at(0), Move::Rotation(rotation_at(5))) =~= solved_at(6));
}

/// The rotations of solved state 1.
proof fn lemma_rotate_1()
    ensures
        apply_move(solved_at(1), Move::Rotation(rotation_at(0))) == solved_at(7),
        apply_move(solved_at(1), Move::Rotation(rotation_at(1))) == solved_at(0),
        apply_move(solved_at(1), Move::Rotation(rotation_at(2))) == solved_at(8),
        apply_move(solved_at(1), Move::Rotation(rotation_at(3))) == solved_at(9),
        apply_move(solved_at(1), Move::Rotation(rotation_at(4))) == solved_at(10),
        apply_move(solved_at(1), Move::Rotation(rotation_at(5))) == solved_at(11),
{
    broadcast use group_corner;

    assert(apply_move(solved_at(1), Move::Rotation(rotation_at(0))) =~= solved_at(7));
    assert(apply_move(solved_at(1), Move::Rotation(rotation_at(1))) =~= solved_at(0));
    assert(apply_move(solved_at(1), Move::Rotation(rotation_at(2))) =~= solved_at(8));
    assert(apply_move(solved_at(1), Move::Rotation(rotation_at(3))) =~= solved_at(9));
    assert(apply_move(solved_at(1), Move::Rotation(rotation_at(4))) =~= solved_at(10));
    assert(apply_move(solved_at(1), Move::Rotation(rotation_at(5))) =~= solved_at(11));
}

/// The rotations of solved state 2.
proof fn lemma_rotate_2()
    ensures
        apply_move(solved_at(2), Move::Rotation(rotation_at(0))) == solved_at(0),
        apply_move(solved_at(2), Move::Rotation(rotation_at(1))) == solved_at(7),
        apply_move(solved_at(2), Move::Rotation(rotation_at(2))) == solved_at(12),
        apply_move(solved_at(2), Move::Rotation(rotation_at(3))) == solved_at(13),
        apply_move(solved_at(2), Move::Rotation(rotation_at(4))) == solved_at(14),
        apply_move(solved_at(2), Move::Rotation(rotation_at(5))) == solved_at(15),
{
    broadcast use group_corner;

    assert(apply_move(solved_at(2), Move::Rotation(rotation_at(0))) =~= solved_at(0));
    assert(apply_move(solved_at(2), Move::Rotation(rotation_at(1))) =~= solved_at(7));
    assert(apply_move(solved_at(2), Move::Rotation(rotation_at(2))) =~= solved_at(12));
    assert(apply_move(solved_at(2), Move::Rotation(rotation_at(3))) =~= solved_at(13));
    assert(apply_move(solved_at(2), Move::Rotation(rotation_at(4))) =~= solved_at(14));
    assert(apply_move(solved_at(2), Move::Rotation(rotation_at(5))) =~= solved_at(15));
}

/// The rotations of solved state 3.
proof fn lemma_rotate_3()
    ensures
        apply_move(solved_at(3), Move::Rotation(rotation_at(0))) == solved_at(11),
        apply_move(solved_at(3), Move::Rotation(rotation_at(1))) == solved_at(14),
        apply_move(solved_at(3), Move::Rotation(rotation_at(2))) == solved_at(16),
        apply_move(solved_at(3), Move::Rotation(rotation_at(3))) == solved_at(0),
        apply_move(solved_at(3), Move::Rotation(rotation_at(4))) == solved_at(8),
        apply_move(solved_at(3), Move::Rotation(rotation_at(5))) == solved_at(12),
{
    broadcast use group_corner;

    assert(apply_move(solved_at(3), Move::Rotation(rotation_at(0))) =~= solved_at(11));
    assert(apply_move(solved_at(3), Move::Rotation(rotation_at(1))) =~= solved_at(14));
    assert(apply_move(solved_at(3), Move::Rotation(rotation_at(2))) =~= solved_at(16));
    assert(apply_move(solved_at(3), Move::Rotation(rotation_at(3))) =~= solved_at(0));
    assert(apply_move(solved_at(3), Move::Rotation(rotation_at(4))) =~= solved_at(8));
    assert(apply_move(solved_at(3), Move::Rotation(rotation_at(5))) =~= solved_at(12));
}

/// The rotations of solved state 4.
proof fn lemma_rotate_4()
    ensures
        apply_move(solved_at(4), Move::Rotation(rotation_at(0))) == solved_at(10),
        apply_move(solved_at(4), Move::Rotation(rotation_at(1))) == solved_at(15),
        apply_move(solved_at(4), Move::Rotation(rotation_at(2))) == solved_at(0),
        apply_move(solved_at(4), Move::Rotation(rotation_at(3))) == solved_at(16),
        apply_move(solved_at(4), Move::Rotation(rotation_at(4))) == solved_at(13),
        apply_move(solved_at(4), Move::Rotation(rotation_at(5))) == solved_at(9),
{
    broadcast use group_corner;

    assert(apply_move(solved_at(4), Move::Rotation(rotation_at(0))) =~= solved_at(10));
    assert(apply_move(solved_at(4), Move::Rotation(rotation_at(1))) =~= solved_at(15));
    assert(apply_move(solved_at(4), Move::Rotation(rotation_at(2))) =~= solved_at(0));
    assert(apply_move(solved_at(4), Move::Rotation(rotation_at(3))) =~= solved_at(16));
    assert(apply_move(solved_at(4), Move::Rotation(rotation_at(4))) =~= solved_at(13));
    assert(apply_move(solved_at(4), Move::Rotation(rotation_at(5))) =~= solved_at(9));
}

/// The rotations of solved state 5.
proof fn lemma_rotate_5()
    ensures
        apply_move(solved_at(5), Move::Rotation(rotation_at(0))) == solved_at(8),
        apply_move(solved_at(5), Move::Rotation(rotation_at(1))) == solved_at(13),
        apply_move(solved_at(5), Move::Rotation(rotation_at(2))) == solved_at(14),
        apply_move(solved_at(5), Move::Rotation(rotation_at(3))) == solved_at(10),
        apply_move(solved_at(5), Move::Rotation(rotation_at(4))) == solved_at(17),
        apply_move(solved_at(5), Move::Rotation(rotation_at(5))) == solved_at(0),
{
    broadcast use group_corner;

    assert(apply_move(solved_at(5), Move::Rotation(rotation_at(0))) =~= solved_at(8));
    assert(apply_move(solved_at(5), Move::Rotation(rotation_at(1))) =~= solved_at(13));
    assert(apply_move(solved_at(5), Move::Rotation(rotation_at(2))) =~= solved_at(14));
    assert(apply_move(solved_at(5), Move::Rotation(rotation_at(3))) =~= solved_at(10));
    assert(apply_move(solved_at(5), Move::Rotation(rotation_at(4))) =~= solved_at(17));
    assert(apply_move(solved_at(5), Move::Rotation(rotation_at(5))) =~= solved_at(0));
}

/// The rotations of solved state 6.
proof fn lemma_rotate_6()
    ensures
        apply_move(solved_at(6), Move::Rotation(rotation_at(0))) == solved_at(9),
        apply_move(solved_at(6), Move::Rotation(rotation_at(1))) == solved_at(12),
        apply_move(solved_at(6), Move::Rotation(rotation_at(2))) == solved_at(11),
        apply_move(solved_at(6), Move::Rotation(rotation_at(3))) == solved_at(15),
        apply_move(solved_at(6), Move::Rotation(rotation_at(4))) == solved_at(0),
        apply_move(solved_at(6), Move::Rotation(rotation_at(5))) == solved_at(17),
{
    broadcast use group_corner;

    assert(apply_move(solved_at(6), Move::Rotation(rotation_at(0))) =~= solved_at(9));
    assert(apply_move(solved_at(6), Move::Rotation(rotation_at(1))) =~= solved_at(12));
    assert(apply_move(solved_at(6), Move::Rotation(rotation_at(2))) =~= solved_at(11));
    assert(apply_move(solved_at(6), Move::Rotation(rotation_at(3))) =~= solved_at(15));
    assert(apply_move(solved_at(6), Move::Rotation(rotation_at(4))) =~= solved_at(0));
    assert(apply_move(solved_at(6), Move::Rotation(rotation_at(5))) =~= solved_at(17));
}

/// The rotations of solved state 7.
proof fn lemma_rotate_7()
    ensures
        apply_move(solved_at(7), Move::Rotation(rotation_at(0))) == solved_at(2),
        apply_move(solved_at(7), Move::Rotation(rotation_at(1))) == solved_at(1),
        apply_move(solved_at(7), Move::Rotation(rotation_at(2))) == solved_at(18),
        apply_move(solved_at(7), Move::Rotation(rotation_at(3))) == solved_at(19),
        apply_move(solved_at(7), Move::Rotation(rotation_at(4))) == solved_at(20),
        apply_move(solved_at(7), Move::Rotation(rotation_at(5))) == solved_at(21),
{
    broadcast use group_corner;

    assert(apply_move(solved_at(7), Move::Rotation(rotation_at(0))) =~= solved_at(2));
    assert(apply_move(solved_at(7), Move::Rotation(rotation_at(1))) =~= solved_at(1));
    assert(apply_move(solved_at(7), Move::Rotation(rotation_at(2))) =~= solved_at(18));
    assert(apply_move(solved_at(7), Move::Rotation(rotation_at(3))) =~= solved_at(19));
    assert(apply_move(solved_at(7), Move::Rotation(rotation_at(4))) =~= solved_at(20));
    assert(apply_move(solved_at(7), Move::Rotation(rotation_at(5))) =~= solved_at(21));
}

/// The rotations of solved state 8.
proof fn lemma_rotate_8()
    ensures
        apply_move(solved_at(8), Move::Rotation(rotation_at(0))) == solved_at(21),
        apply_move(solved_at(8), Move::Rotation(rotation_at(1))) == solved_at(5),
        apply_move(solved_at(8), Move::Rotation(rotation_at(2))) == solved_at(22),
        apply_move(solved_at(8), Move::Rotation(rotation_at(3))) == solved_at(1),
        apply_move(solved_at(8), Move::Rotation(rotation_at(4))) == solved_at(18),
        apply_move(solved_at(8), Move::Rotation(rotation_at(5))) == solved_at(3),
{
    broadcast use group_corner;

    assert(apply_move(solved_at(8), Move::Rotation(rotation_at(0))) =~= solved_at(21));
    assert(apply_move(solved_at(8), Move::Rotation(rotation_at(1))) =~= solved_at(5));
    assert(apply_move(solved_at(8), Move::Rotation(rotation_at(2))) =~= solved_at(22));
    assert(apply_move(solved_at(8), Move::Rotation(rotation_at(3))) =~= solved_at(1));
    assert(apply_move(solved_at(8), Move::Rotation(rotation_at(4))) =~= solved_at(18));
    assert(apply_move(solved_at(8), Move::Rotation(rotation_at(5))) =~= solved_at(3));
}

/// The rotations of solved state 9.
proof fn lemma_rotate_9()
    ensures
        apply_move(solved_at(9), Move::Rotation(rotation_at(0))) == solved_at(20),
        apply_move(solved_at(9), Move::Rotation(rotation_at(1))) == solved_at(6),
        apply_move(solved_at(9), Move::Rotation(rotation_at(2))) == solved_at(1),
        apply_move(solved_at(9), Move::Rotation(rotation_at(3))) == solved_at(22),
        apply_move(solved_at(9), Move::Rotation(rotation_at(4))) == solved_at(4),
        apply_move(solved_at(9), Move::Rotation(rotation_at(5))) == solved_at(19),
{
    broadcast use group_corner;

    assert(apply_move(solved_at(9), Move::Rotation(rotation_at(0))) =~= solved_at(20));
    assert(apply_move(solved_at(9), Move::Rotation(rotation_at(1))) =~= solved_at(6));
    assert(apply_move(solved_at(9), Move::Rotation(rotation_at(2))) =~= solved_at(1));
    assert(apply_move(solved_at(9), Move::Rotation(rotation_at(3))) =~= solved_at(22));
    assert(apply_move(solved_at(9), Move::Rotation(rotation_at(4))) =~= solved_at(4));
    assert(apply_move(solved_at(9), Move::Rotation(rotation_at(5))) =~= solved_at(19));
}

/// The rotations of solved state 10.
proof fn lemma_rotate_10()
    ensures
        apply_move(solved_at(10), Move::Rotation(rotation_at(0))) == solved_at(18),
        apply_move(solved_at(10), Move::Rotation(rotation_at(1))) == solved_at(4),
        apply_move(solved_at(10), Move::Rotation(rotation_at(2))) == solved_at(5),
        apply_move(solved_at(10), Move::Rotation(rotation_at(3))) == solved_at(20),
        apply_move(solved_at(10), Move::Rotation(rotation_at(4))) == solved_at(23),
        apply_move(solved_at(10), Move::Rotation(rotation_at(5))) == solved_at(1),
{
    broadcast use group_corner;

    assert(apply_move(solved_at(10), Move::Rotation(rotation_at(0))) =~= solved_at(18));
    assert(apply_move(solved_at(10), Move::Rotation(rotation_at(1))) =~= solved_at(4));
    assert(apply_move(solved_at(10), Move::Rotation(rotation_at(2))) =~= solved_at(5));
    assert(apply_move(solved_at(10), Move::Rotation(rotation_at(3))) =~= solved_at(20));
    assert(apply_move(solved_at(10), Move::Rotation(rotation_at(4))) =~= solved_at(23));
    assert(apply_move(solved_at(10), Move::Rotation(rotation_at(5))) =~= solved_at(1));
}

/// The rotations of solved state 11.
proof fn lemma_rotate_11()
    ensures
        apply_move(solved_at(11), Move::Rotation(rotation_at(0))) == solved_at(19),
        apply_move(solved_at(11), Move::Rotation(rotation_at(1))) == solved_at(3),
        apply_move(solved_at(11), Move::Rotation(rotation_at(2))) == solved_at(21),
        apply_move(solved_at(11), Move::Rotation(rotation_at(3))) == solved_at(6),
        apply_move(solved_at(11), Move::Rotation(rotation_at(4))) == solved_at(1),
        apply_move(solved_at(11), Move::Rotation(rotation_at(5))) == solved_at(23),
{
    broadcast use group_corner;

    assert(apply_move(solved_at(11), Move::Rotation(rotation_at(0))) =~= solved_at(19));
    assert(apply_move(solved_at(11), Move::Rotation(rotation_at(1))) =~= solved_at(3));
    assert(apply_move(solved_at(11), Move::Rotation(rotation_at(2))) =~= solved_at(21));
    assert(apply_move(solved_at(11), Move::Rotation(rotation_at(3))) =~= solved_at(6));
    assert(apply_move(solved_at(11), Move::Rotation(rotation_at(4))) =~= solved_at(1));
    assert(apply_move(solved_at(11), Move::Rotation(rotation_at(5))) =~= solved_at(23));
}

/// The rotations of solved state 12.
proof fn lemma_rotate_12()
    ensures
        apply_move(solved_at(12), Move::Rotation(rotation_at(0))) == solved_at(6),
        apply_move(solved_at(12), Move::Rotation(rotation_at(1))) == solved_at(20),
        apply_move(solved_at(12), Move::Rotation(rotation_at(2))) == solved_at(23),
        apply_move(solved_at(12), Move::Rotation(rotation_at(3))) == solved_at(2),
        apply_move(solved_at(12), Move::Rotation(rotation_at(4))) == solved_at(3),
        apply_move(solved_at(12), Move::Rotation(rotation_at(5))) == solved_at(18),
{
    broadcast use group_corner;

    assert(apply_move(solved_at(12), Move::Rotation(rotation_at(0))) =~= solved_at(6));
    assert(apply_move(solved_at(12), Move::Rotation(rotation_at(1))) =~= solved_at(20));
    assert(apply_move(solved_at(12), Move::Rotation(rotation_at(2))) =~= solved_at(23));
    assert(apply_move(solved_at(12), Move::Rotation(rotation_at(3))) =~= solved_at(2));
    assert(apply_move(solved_at(12), Move::Rotation(rotation_at(4))) =~= solved_at(3));
    assert(apply_move(solved_at(12), Move::Rotation(rotation_at(5))) =~= solved_at(18));
}

/// The rotations of solved state 13.
proof fn lemma_rotate_13()
    ensures
        apply_move(solved_at(13), Move::Rotation(rotation_at(0))) == solved_at(5),
        apply_move(solved_at(13), Move::Rotation(rotation_at(1))) == solved_at(21),
        apply_move(solved_at(13), Move::Rotation(rotation_at(2))) == solved_at(2),
        apply_move(solved_at(13), Move::Rotation(rotation_at(3))) == solved_at(23),
        apply_move(solved_at(13), Move::Rotation(rotation_at(4))) == solved_at(19),
        apply_move(solved_at(13), Move::Rotation(rotation_at(5))) == solved_at(4),
{
    broadcast use group_corner;

    assert(apply_move(solved_at(13), Move::Rotation(rotation_at(0))) =~= solved_at(5));
    assert(apply_move(solved_at(13), Move::Rotation(rotation_at(1))) =~= solved_at(21));
    assert(apply_move(solved_at(13), Move::Rotation(rotation_at(2))) =~= solved_at(2));
    assert(apply_move(solved_at(13), Move::Rotation(rotation_at(3))) =~= solved_at(23));
    assert(apply_move(solved_at(13), Move::Rotation(rotation_at(4))) =~= solved_at(19));
    assert(apply_move(solved_at(13), Move::Rotation(rotation_at(5))) =~= solved_at(4));
}

/// The rotations of solved state 14.
proof fn lemma_rotate_14()
    ensures
        apply_move(solved_at(14), Move::Rotation(rotation_at(0))) == solved_at(3),
        apply_move(solved_at(14), Move::Rotation(rotation_at(1))) == solved_at(19),
        apply_move(solved_at(14), Move::Rotation(rotation_at(2))) == solved_at(20),
        apply_move(solved_at(14), Move::Rotation(rotation_at(3))) == solved_at(5),
        apply_move(solved_at(14), Move::Rotation(rotation_at(4))) == solved_at(22),
        apply_move(solved_at(14), Move::Rotation(rotation_at(5))) == solved_at(2),
{
    broadcast use group_corner;

    assert(apply_move(solved_at(14), Move::Rotation(rotation_at(0))) =~= solved_at(3));
    assert(apply_move(solved_at(14), Move::Rotation(rotation_at(1))) =~= solved_at(19));
    assert(apply_move(solved_at(14), Move::Rotation(rotation_at(2))) =~= solved_at(20));
    assert(apply_move(solved_at(14), Move::Rotation(rotation_at(3))) =~= solved_at(5));
    assert(apply_move(solved_at(14), Move::Rotation(rotation_at(4))) =~= solved_at(22));
    assert(apply_move(solved_at(14), Move::Rotation(rotation_at(5))) =~= solved_at(2));
}

/// The rotations of solved state 15.
proof fn lemma_rotate_15()
    ensures
        apply_move(solved_at(15), Move::Rotation(rotation_at(0))) == solved_at(4),
        apply_move(solved_at(15), Move::Rotation(rotation_at(1))) == solved_at(18),
        apply_move(solved_at(15), Move::Rotation(rotation_at(2))) == solved_at(6),
        apply_move(solved_at(15), Move::Rotation(rotation_at(3))) == solved_at(21),
        apply_move(solved_at(15), Move::Rotation(rotation_at(4))) == solved_at(2),
        apply_move(solved_at(15), Move::Rotation(rotation_at(5))) == solved_at(22),
{
    broadcast use group_corner;

    assert(apply_move(solved_at(15), Move::Rotation(rotation_at(0))) =~= solved_at(4));
    assert(apply_move(solved_at(15), Move::Rotation(rotation_at(1))) =~= solved_at(18));
    assert(apply_move(solved_at(15), Move::Rotation(rotation_at(2))) =~= solved_at(6));
    assert(apply_move(solved_at(15), Move::Rotation(rotation_at(3))) =~= solved_at(21));
    assert(apply_move(solved_at(15), Move::Rotation(rotation_at(4))) =~= solved_at(2));
    assert(apply_move(solved_at(15), Move::Rotation(rotation_at(5))) =~= solved_at(22));
}

/// The rotations of solved state 16.
proof fn lemma_rotate_16()
    ensures
        apply_move(solved_at(16), Move::Rotation(rotation_at(0))) == solved_at(23),
        apply_move(solved_at(16), Move::Rotation(rotation_at(1))) == solved_at(22),
        apply_move(solved_at(16), Move::Rotation(rotation_at(2))) == solved_at(4),
        apply_move(solved_at(16), Move::Rotation(rotation_at(3))) == solved_at(3),
        apply_move(solved_at(16), Move::Rotation(rotation_at(4))) == solved_at(21),
        apply_move(solved_at(16), Move::Rotation(rotation_at(5))) == solved_at(20),
{
    broadcast use group_corner;

    assert(apply_move(solved_at(16), Move::Rotation(rotation_at(0))) =~= solved_at(23));
    assert(apply_move(solved_at(16), Move::Rotation(rotation_at(1))) =~= solved_at(22));
    assert(apply_move(solved_at(16), Move::Rotation(rotation_at(2))) =~= solved_at(4));
    assert(apply_move(solved_at(16), Move::Rotation(rotation_at(3))) =~= solved_at(3));
    assert(apply_move(solved_at(16), Move::Rotation(rotation_at(4))) =~= solved_at(21));
    assert(apply_move(solved_at(16), Move::Rotation(rotation_at(5))) =~= solved_at(20));
}

/// The rotations of solved state 17.
proof fn lemma_rotate_17()
    ensures
        apply_move(solved_at(17), Move::Rotation(rotation_at(0))) == solved_at(22),
        apply_move(solved_at(17), Move::Rotation(rotation_at(1))) == solved_at(23),
        apply_move(solved_at(17), Move::Rotation(rotation_at(2))) == solved_at(19),
        apply_move(solved_at(17), Move::Rotation(rotation_at(3))) == solved_at(18),
        apply_move(solved_at(17), Move::Rotation(rotation_at(4))) == solved_at(6),
        apply_move(solved_at(17), Move::Rotation(rotation_at(5))) == solved_at(5),
{
    broadcast use group_corner;

    assert(apply_move(solved_at(17), Move::Rotation(rotation_at(0))) =~= solved_at(22));
    assert(apply_move(solved_at(17), Move::Rotation(rotation_at(1))) =~= solved_at(23));
    assert(apply_move(solved_at(17), Move::Rotation(rotation_at(2))) =~= solved_at(19));
    assert(apply_move(solved_at(17), Move::Rotation(rotation_at(3))) =~= solved_at(18));
    assert(apply_move(solved_at(17), Move::Rotation(rotation_at(4))) =~= solved_at(6));
    assert(apply_move(solved_at(17), Move::Rotation(rotation_at(5))) =~= solved_at(5));
}

/// The rotations of solved state 18.
proof fn lemma_rotate_18()
    ensures
        apply_move(solved_at(18), Move::Rotation(rotation_at(0))) == solved_at(15),
        apply_move(solved_at(18), Move::Rotation(rotation_at(1))) == solved_at(10),
        apply_move(solved_at(18), Move::Rotation(rotation_at(2))) == solved_at(17),
        apply_move(solved_at(18), Move::Rotation(rotation_at(3))) == solved_at(7),
        apply_move(solved_at(18), Move::Rotation(rotation_at(4))) == solved_at(12),
        apply_move(solved_at(18), Move::Rotation(rotation_at(5))) == solved_at(8),
{
    broadcast use group_corner;

    assert(apply_move(solved_at(18), Move::Rotation(rotation_at(0))) =~= solved_at(15));
    assert(apply_move(solved_at(18), Move::Rotation(rotation_at(1))) =~= solved_at(10));
    assert(apply_move(solved_at(18), Move::Rotation(rotation_at(2))) =~= solved_at(17));
    assert(apply_move(solved_at(18), Move::Rotation(rotation_at(3))) =~= solved_at(7));
    assert(apply_move(solved_at(18), Move::Rotation(rotation_at(4))) =~= solved_at(12));
    assert(apply_move(solved_at(18), Move::Rotation(rotation_at(5))) =~= solved_at(8));
}

/// The rotations of solved state 19.
proof fn lemma_rotate_19()
    ensures
        apply_move(solved_at(19), Move::Rotation(rotation_at(0))) == solved_at(14),
        apply_move(solved_at(19), Move::Rotation(rotation_at(1))) == solved_at(11),
        apply_move(solved_at(19), Move::Rotation(rotation_at(2))) == solved_at(7),
        apply_move(solved_at(19), Move::Rotation(rotation_at(3))) == solved_at(17),
        apply_move(solved_at(19), Move::Rotation(rotation_at(4))) == solved_at(9),
        apply_move(solved_at(19), Move::Rotation(rotation_at(5))) == solved_at(13),
{
    broadcast use group_corner;

    assert(apply_move(solved_at(19), Move::Rotation(rotation_at(0))) =~= solved_at(14));
    assert(apply_move(solved_at(19), Move::Rotation(rotation_at(1))) =~= solved_at(11));
    assert(apply_move(solved_at(19), Move::Rotation(rotation_at(2))) =~= solved_at(7));
    assert(apply_move(solved_at(19), Move::Rotation(rotation_at(3))) =~= solved_at(17));
    assert(apply_move(solved_at(19), Move::Rotation(rotation_at(4))) =~= solved_at(9));
    assert(apply_move(solved_at(19), Move::Rotation(rotation_at(5))) =~= solved_at(13));
}

/// The rotations of solved state 20.
proof fn lemma_rotate_20()
    ensures
        apply_move(solved_at(20), Move::Rotation(rotation_at(0))) == solved_at(12),
        apply_move(solved_at(20), Move::Rotation(rotation_at(1))) == solved_at(9),
        apply_move(solved_at(20), Move::Rotation(rotation_at(2))) == solved_at(10),
        apply_move(solved_at(20), Move::Rotation(rotation_at(3))) == solved_at(14),
        apply_move(solved_at(20), Move::Rotation(rotation_at(4))) == solved_at(16),
        apply_move(solved_at(20), Move::Rotation(rotation_at(5))) == solved_at(7),
{
    broadcast use group_corner;

    assert(apply_move(solved_at(20), Move::Rotation(rotation_at(0))) =~= solved_at(12));
    assert(apply_move(solved_at(20), Move::Rotation(rotation_at(1))) =~= solved_at(9));
    assert(apply_move(solved_at(20), Move::Rotation(rotation_at(2))) =~= solved_at(10));
    assert(apply_move(solved_at(20), Move::Rotation(rotation_at(3))) =~= solved_at(14));
    assert(apply_move(solved_at(20), Move::Rotation(rotation_at(4))) =~= solved_at(16));
    assert(apply_move(solved_at(20), Move::Rotation(rotation_at(5))) =~= solved_at(7));
}

/// The rotations of solved state 21.
proof fn lemma_rotate_21()
    ensures
        apply_move(solved_at(21), Move::Rotation(rotation_at(0))) == solved_at(13),
        apply_move(solved_at(21), Move::Rotation(rotation_at(1))) == solved_at(8),
        apply_move(solved_at(21), Move::Rotation(rotation_at(2))) == solved_at(15),
        apply_move(solved_at(21), Move::Rotation(rotation_at(3))) == solved_at(11),
        apply_move(solved_at(21), Move::Rotation(rotation_at(4))) == solved_at(7),
        apply_move(solved_at(21), Move::Rotation(rotation_at(5))) == solved_at(16),
{
    broadcast use group_corner;

    assert(apply_move(solved_at(21), Move::Rotation(rotation_at(0))) =~= solved_at(13));
    assert(apply_move(solved_at(21), Move::Rotation(rotation_at(1))) =~= solved_at(8));
    assert(apply_move(solved_at(21), Move::Rotation(rotation_at(2))) =~= solved_at(15));
    assert(apply_move(solved_at(21), Move::Rotation(rotation_at(3))) =~= solved_at(11));
    assert(apply_move(solved_at(21), Move::Rotation(rotation_at(4))) =~= solved_at(7));
    assert(apply_move(solved_at(21), Move::Rotation(rotation_at(5))) =~= solved_at(16));
}

/// The rotations of solved state 22.
proof fn lemma_rotate_22()
    ensures
        apply_move(solved_at(22), Move::Rotation(rotation_at(0))) == solved_at(16),
        apply_move(solved_at(22), Move::Rotation(rotation_at(1))) == solved_at(17),
        apply_move(solved_at(22), Move::Rotation(rotation_at(2))) == solved_at(9),
        apply_move(solved_at(22), Move::Rotation(rotation_at(3))) == solved_at(8),
        apply_move(solved_at(22), Move::Rotation(rotation_at(4))) == solved_at(15),
        apply_move(solved_at(22), Move::Rotation(rotation_at(5))) == solved_at(14),
{
    broadcast use group_corner;

    assert(apply_move(solved_at(22), Move::Rotation(rotation_at(0))) =~= solved_at(16));
    assert(apply_move(solved_at(22), Move::Rotation(rotation_at(1))) =~= solved_at(17));
    assert(apply_move(solved_at(22), Move::Rotation(rotation_at(2))) =~= solved_at(9));
    assert(apply_move(solved_at(22), Move::Rotation(rotation_at(3))) =~= solved_at(8));
    assert(apply_move(solved_at(22), Move::Rotation(rotation_at(4))) =~= solved_at(15));
    assert(apply_move(solved_at(22), Move::Rotation(rotation_at(5))) =~= solved_at(14));
}

/// The rotations of solved state 23.
proof fn lemma_rotate_23()
    ensures
        apply_move(solved_at(23), Move::Rotation(rotation_at(0))) == solved_at(17),
        apply_move(solved_at(23), Move::Rotation(rotation_at(1))) == solved_at(16),
        apply_move(solved_at(23), Move::Rotation(rotation_at(2))) == solved_at(13),
        apply_move(solved_at(23), Move::Rotation(rotation_at(3))) == solved_at(12),
        apply_move(solved_at(23), Move::Rotation(rotation_at(4))) == solved_at(11),
        apply_move(solved_at(23), Move::Rotation(rotation_at(5))) == solved_at(10),
{
    broadcast use group_corner;

    assert(apply_move(solved_at(23), Move::Rotation(rotation_at(0))) =~= solved_at(17));
    assert(apply_move(solved_at(23), Move::Rotation(rotation_at(1))) =~= solved_at(16));
    assert(apply_move(solved_at(23), Move::Rotation(rotation_at(2))) =~= solved_at(13));
    assert(apply_move(solved_at(23), Move::Rotation(rotation_at(3))) =~= solved_at(12));
    assert(apply_move(solved_at(23), Move::Rotation(rotation_at(4))) =~= solved_at(11));
    assert(apply_move(solved_at(23), Move::Rotation(rotation_at(5))) =~= solved_at(10));
}

/// Rotation `j` turns solved state `k` into solved state
/// `rotated_index(k, j)`.
pub(crate) proof fn lemma_rotate(k: int, j: int)
    requires
        0 <= k < 24,
        0 <= j < 6,
    ensures
        0 <= rotated_index(k, j) < 24,
        apply_move(solved_at(k), Move::Rotation(rotation_at(j))) == solved_at(rotated_index(k, j)),
{
    if k == 0 {
        lemma_rotate_0();
    } else if k == 1 {
        lemma_rotate_1();
    } else if k == 2 {
        lemma_rotate_2();
    } else if k == 3 {
        lemma_rotate_3();
    } else if k == 4 {
        lemma_rotate_4();
    } else if k == 5 {
        lemma_rotate_5();
    } else if k == 6 {
        lemma_rotate_6();
    } else if k == 7 {
        lemma_rotate_7();
    } else if k == 8 {
        lemma_rotate_8();
    } else if k == 9 {
        lemma_rotate_9();
    } else if k == 10 {
        lemma_rotate_10();
    } else if k == 11 {
        lemma_rotate_11();
    } else if k == 12 {
        lemma_rotate_12();
    } else if k == 13 {
        lemma_rotate_13();
    } else if k == 14 {
        lemma_rotate_14();
    } else if k == 15 {
        lemma_rotate_15();
    } else if k == 16 {
        lemma_rotate_16();
    } else if k == 17 {
        lemma_rotate_17();
    } else if k == 18 {
        lemma_rotate_18();
    } else if k == 19 {
        lemma_rotate_19();
    } else if k == 20 {
        lemma_rotate_20();
    } else if k == 21 {
        lemma_rotate_21();
    } else if k == 22 {
        lemma_rotate_22();
    } else {
        lemma_rotate_23();
    }
}

/// Every rotation has a number.
proof fn lemma_rotation_number(r: Rotation) -> (j: int)
    ensures
        0 <= j < 6,
        rotation_at(j) == r,
{
    match r {
        Rotation(Axis::X, Direction::CW) => 0,
        Rotation(Axis::X, Direction::CCW) => 1,
        Rotation(Axis::Y, Direction::CW) => 2,
        Rotation(Axis::Y, Direction::CCW) => 3,
        Rotation(Axis::Z, Direction::CW) => 4,
        Rotation(Axis::Z, Direction::CCW) => 5,
    }
}

proof fn lemma_rotations_listed(rs: Seq<Rotation>)
    ensures
        exists|k: int| 0 <= k < 24 && #[trigger] solved_at(k) == apply_rotations(solved_state(), rs),
    decreases rs.len(),
{
    if rs.len() == 0 {
        assert(solved_at(0) =~= solved_state());
    } else {
        lemma_rotations_listed(rs.drop_last());
        let k = choose|k: int|
            0 <= k < 24 && #[trigger] solved_at(k) == apply_rotations(solved_state(), rs.drop_last());
        let j = lemma_rotation_number(rs.last());
        lemma_rotate(k, j);
        assert(solved_at(rotated_index(k, j)) == apply_rotations(solved_state(), rs));
    }
}

/// Every solved state is one of the 24.
pub(crate) proof fn lemma_solved_is_listed(s: Seq<Corner>)
    requires
        is_solved_state(s),
    ensures
        exists|k: int| 0 <= k < 24 && #[trigger] solved_at(k) == s,
{
    let rs = choose|rs: Seq<Rotation>| #[trigger] apply_rotations(solved_state(), rs) == s;
    lemma_rotations_listed(rs);
}

/// Each of the 24 is solved.
pub(crate) proof fn lemma_listed_is_solved(k: int)
    requires
        0 <= k < 24,
    ensures
        is_solved_state(solved_at(k)),
    decreases k,
{
    if k == 0 {
        assert(solved_at(0) =~= solved_state());
        assert(apply_rotations(solved_state(), Seq::<Rotation>::empty()) == solved_state());
    } else {
        let (p, j) = first_reached_from(k);
        assert(0 <= p < k && 0 <= j < 6 && rotated_index(p, j) == k);
        lemma_listed_is_solved(p);
        lemma_rotate(p, j);
        law_rotation_keeps_solved(solved_at(p), rotation_at(j));
    }
}

/// The 24 differ from each other, already in the corner at position 0.
pub(crate) proof fn lemma_listed_distinct(a: int, b: int)
    requires
        0 <= a < 24,
        0 <= b < 24,
        a != b,
    ensures
        solved_at(a) != solved_at(b),
{
    broadcast use group_corner;

    assert(state_of_front_code(front_code(a)) == a);
    assert(state_of_front_code(front_code(b)) == b);
}

/// A list of distinct states that holds every solved state and nothing
/// else has 24 entries: the cube has 24 solved states.
pub(crate) proof fn lemma_solved_count(v: Seq<Seq<Corner>>)
    requires
        forall|i: int| 0 <= i < v.len() ==> is_solved_state(#[trigger] v[i]),
        forall|s: Seq<Corner>| is_solved_state(s) ==> exists|i: int| 0 <= i < v.len() && #[trigger] v[i] == s,
        forall|i: int, j: int| 0 <= i < j < v.len() ==> #[trigger] v[i] != #[trigger] v[j],
    ensures
        v.len() == 24,
{
    broadcast use vstd::seq_lib::seq_to_set_is_finite;

    let l = Seq::new(24, |k: int| solved_at(k));
    assert(l.no_duplicates()) by {
        assert forall|a: int, b: int| 0 <= a < l.len() && 0 <= b < l.len() && a != b implies l[a] != l[b] by {
            lemma_listed_distinct(a, b);
        }
    }
    assert(v.no_duplicates()) by {
        assert forall|a: int, b: int| 0 <= a < v.len() && 0 <= b < v.len() && a != b implies v[a] != v[b] by {
            if a < b {
                assert(v[a] != v[b]);
            } else {
                assert(v[b] != v[a]);
            }
        }
    }
    assert(v.to_set() =~= l.to_set()) by {
        assert forall|s: Seq<Corner>| v.to_set().contains(s) implies l.to_set().contains(s) by {
            let i = choose|i: int| 0 <= i < v.len() && v[i] == s;
            assert(is_solved_state(v[i]));
            lemma_solved_is_listed(s);
            let k = choose|k: int| 0 <= k < 24 && #[trigger] solved_at(k) == s;
            assert(l[k] == s);
        }
        assert forall|s: Seq<Corner>| l.to_set().contains(s) implies v.to_set().contains(s) by {
            let k = choose|k: int| 0 <= k < l.len() && l[k] == s;
            lemma_listed_is_solved(k);
            assert(is_solved_state(s));
            let i = choose|i: int| 0 <= i < v.len() && #[trigger] v[i] == s;
            assert(v.contains(s));
        }
    }
    l.unique_seq_to_set();
    v.unique_seq_to_set();
}

} // verus!
