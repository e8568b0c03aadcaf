//! Cube state: eight corners, each with an identity and a twist.
//!
//! Corner positions (top layer 0..4, bottom layer 4..8, position `i + 4`
//! is under position `i`):
//!
//! ```text
//!         +----------+----------+
//!        /    0     /    1     /|
//!       +----------+----------+ |
//!      /    3     /    2     /| +
//!     +----------+----------+ |/|
//!     |     3    |     2    |2+ |
//!     +----------+----------+/|5+
//!     |     7    |     6    |6+/
//!     +----------+----------+/
//! ```
//!
//! The solved cube has white up, blue front and orange right; every corner
//! has as its id its position in the solved cube. A corner's orientation is
//! 0 in its default orientation, 1 when twisted clockwise and 2 when twisted
//! counter-clockwise.

use vstd::prelude::*;
use crate::index::{
    dense_of, digits_number, from_dense, identity8, last_ori, law_dense_of_from_dense,
    law_from_dense_of_dense, lemma_number_of_ori_digits, lemma_number_of_perm_digits, ori_digit,
    ori_digits_sum, ori_number, perm_digits, perm_rest, pow3, weight, ids_of,
};
use crate::solved_states::{
    count_at, lemma_class_ends, lemma_class_step, lemma_listed_distinct, lemma_rotate, rotated_index,
    rotation_at, solved_at,
};
use crate::rank::{count_less, digits_in_range, lehmer, lemma_count_le_len, unlehmer};

verus! {

#[derive(Debug, Clone, Copy, PartialEq, Eq, Structural, Hash)]
pub enum Axis {
    X,
    Y,
    Z,
}

impl Axis {
    pub const ALL: [Self; 3] = [Self::X, Self::Y, Self::Z];
}

#[derive(Debug, Clone, Copy, PartialEq, Eq, Structural, Hash)]
pub enum Layer {
    Top,
    Bottom,
    Left,
    Right,
    Front,
    Back,
}

impl Layer {
    pub const ALL: [Self; 6] = [
        Self::Top,
        Self::Bottom,
        Self::Left,
        Self::Right,
        Self::Front,
        Self::Back,
    ];
}

#[derive(Debug, Clone, Copy, PartialEq, Eq, Structural, Hash)]
pub enum Direction {
    CW,
    CCW,
}

impl Direction {
    pub const ALL: [Self; 2] = [Self::CW, Self::CCW];

    #[verifier::allow_in_spec]
    pub fn inverse(self) -> Self
        returns
            (match self {
                Direction::CW => Direction::CCW,
                Direction::CCW => Direction::CW,
            }),
    {
        match self {
            Direction::CW => Self::CCW,
            Direction::CCW => Self::CW,
        }
    }
}

/// A quarter turn of one layer.
#[derive(Debug, Clone, Copy, PartialEq, Eq, Structural, Hash)]
pub struct Twist(pub Layer, pub Direction);

/// The place of a twist in `Twist::ALL`: by layer, clockwise first.
pub open spec fn twist_place(t: Twist) -> int {
    2 * layer_number(t.0) + if t.1 == Direction::CW {
        0int
    } else {
        1int
    }
}

impl Twist {
    /// Every twist once, by layer, clockwise first.
    #[allow(non_snake_case)]
    pub fn ALL() -> (all: [Self; 12])
        ensures
            forall|i: int| 0 <= i < 12 ==> twist_place(#[trigger] all[i]) == i,
            forall|t: Twist| #[trigger] all@.contains(t),
    {
        let all = [
            Twist(Layer::Top, Direction::CW),
            Twist(Layer::Top, Direction::CCW),
            Twist(Layer::Bottom, Direction::CW),
            Twist(Layer::Bottom, Direction::CCW),
            Twist(Layer::Left, Direction::CW),
            Twist(Layer::Left, Direction::CCW),
            Twist(Layer::Right, Direction::CW),
            Twist(Layer::Right, Direction::CCW),
            Twist(Layer::Front, Direction::CW),
            Twist(Layer::Front, Direction::CCW),
            Twist(Layer::Back, Direction::CW),
            Twist(Layer::Back, Direction::CCW),
        ];
        assert forall|t: Twist| #[trigger] all@.contains(t) by {
            let k = twist_place(t);
            assert(all@[k] == t);
        }
        all
    }
}

/// A quarter turn of the whole cube about an axis.
#[derive(Debug, Clone, Copy, PartialEq, Eq, Structural, Hash)]
pub struct Rotation(pub Axis, pub Direction);

impl Rotation {
    /// Every rotation, in a fixed order.
    #[allow(non_snake_case)]
    pub fn ALL() -> (all: [Self; 6])
        ensures
            forall|r: Rotation| #[trigger] all@.contains(r),
            forall|j: int| 0 <= j < 6 ==> #[trigger] all[j] == rotation_at(j),
    {
        let all = [
            Rotation(Axis::X, Direction::CW),
            Rotation(Axis::X, Direction::CCW),
            Rotation(Axis::Y, Direction::CW),
            Rotation(Axis::Y, Direction::CCW),
            Rotation(Axis::Z, Direction::CW),
            Rotation(Axis::Z, Direction::CCW),
        ];
        assert forall|r: Rotation| #[trigger] all@.contains(r) by {
            let k: int = match r {
                Rotation(Axis::X, Direction::CW) => 0,
                Rotation(Axis::X, Direction::CCW) => 1,
                Rotation(Axis::Y, Direction::CW) => 2,
                Rotation(Axis::Y, Direction::CCW) => 3,
                Rotation(Axis::Z, Direction::CW) => 4,
                Rotation(Axis::Z, Direction::CCW) => 5,
            };
            assert(all@[k] == r);
        }
        all
    }
}

#[derive(Debug, Clone, Copy, PartialEq, Eq, Structural, Hash)]
pub enum Move {
    Twist(Twist),
    Rotation(Rotation),
}

/// The number of a layer in the packed form of a move.
pub open spec fn layer_number(l: Layer) -> nat {
    match l {
        Layer::Top => 0,
        Layer::Bottom => 1,
        Layer::Left => 2,
        Layer::Right => 3,
        Layer::Front => 4,
        Layer::Back => 5,
    }
}

/// The number of an axis in the packed form of a move.
pub open spec fn axis_number(a: Axis) -> nat {
    match a {
        Axis::X => 0,
        Axis::Y => 1,
        Axis::Z => 2,
    }
}

/// The byte that encodes a move: bit 7 tells a twist from a rotation,
/// bit 6 is set for a clockwise turn, the low six bits number the layer or
/// the axis.
pub open spec fn packed(m: Move) -> nat {
    let dir_bit: nat = if m.dir() == Direction::CW { 64 } else { 0 };
    match m {
        Move::Twist(t) => 128 + dir_bit + layer_number(t.0),
        Move::Rotation(r) => dir_bit + axis_number(r.0),
    }
}

/// The move that a byte encodes, if any.
pub open spec fn unpacked(b: nat) -> Option<Move> {
    let dir = if (b / 64) % 2 == 1 { Direction::CW } else { Direction::CCW };
    let k = b % 64;
    if b / 128 == 1 {
        if k < 6 {
            Some(Move::Twist(Twist(layer_of_number(k), dir)))
        } else {
            None
        }
    } else {
        if k < 3 {
            Some(Move::Rotation(Rotation(axis_of_number(k), dir)))
        } else {
            None
        }
    }
}

pub open spec fn layer_of_number(k: nat) -> Layer {
    if k == 0 {
        Layer::Top
    } else if k == 1 {
        Layer::Bottom
    } else if k == 2 {
        Layer::Left
    } else if k == 3 {
        Layer::Right
    } else if k == 4 {
        Layer::Front
    } else {
        Layer::Back
    }
}

pub open spec fn axis_of_number(k: nat) -> Axis {
    if k == 0 {
        Axis::X
    } else if k == 1 {
        Axis::Y
    } else {
        Axis::Z
    }
}

fn layer_from_number(k: u8) -> (r: Option<Layer>)
    ensures
        r == (if k < 6 { Some(layer_of_number(k as nat)) } else { None::<Layer> }),
{
    match k {
        0 => Some(Layer::Top),
        1 => Some(Layer::Bottom),
        2 => Some(Layer::Left),
        3 => Some(Layer::Right),
        4 => Some(Layer::Front),
        5 => Some(Layer::Back),
        _ => None,
    }
}

fn axis_from_number(k: u8) -> (r: Option<Axis>)
    ensures
        r == (if k < 3 { Some(axis_of_number(k as nat)) } else { None::<Axis> }),
{
    match k {
        0 => Some(Axis::X),
        1 => Some(Axis::Y),
        2 => Some(Axis::Z),
        _ => None,
    }
}

fn layer_to_number(l: Layer) -> (k: u8)
    ensures
        k == layer_number(l),
{
    match l {
        Layer::Top => 0,
        Layer::Bottom => 1,
        Layer::Left => 2,
        Layer::Right => 3,
        Layer::Front => 4,
        Layer::Back => 5,
    }
}

fn axis_to_number(a: Axis) -> (k: u8)
    ensures
        k == axis_number(a),
{
    match a {
        Axis::X => 0,
        Axis::Y => 1,
        Axis::Z => 2,
    }
}

/// The place of a move in `Move::ALL`: the twists in their order, then the
/// rotations by axis, clockwise first.
pub open spec fn move_place(m: Move) -> int {
    match m {
        Move::Twist(t) => twist_place(t),
        Move::Rotation(r) => 12 + 2 * axis_number(r.0) + if r.1 == Direction::CW {
            0int
        } else {
            1int
        },
    }
}

impl Move {
    /// Every move once: the twists by layer, then the rotations by axis,
    /// clockwise first.
    #[allow(non_snake_case)]
    pub fn ALL() -> (all: [Self; 18])
        ensures
            forall|i: int| 0 <= i < 18 ==> move_place(#[trigger] all[i]) == i,
            forall|m: Move| #[trigger] all@.contains(m),
    {
        let all = [
            Self::Twist(Twist(Layer::Top, Direction::CW)),
            Self::Twist(Twist(Layer::Top, Direction::CCW)),
            Self::Twist(Twist(Layer::Bottom, Direction::CW)),
            Self::Twist(Twist(Layer::Bottom, Direction::CCW)),
            Self::Twist(Twist(Layer::Left, Direction::CW)),
            Self::Twist(Twist(Layer::Left, Direction::CCW)),
            Self::Twist(Twist(Layer::Right, Direction::CW)),
            Self::Twist(Twist(Layer::Right, Direction::CCW)),
            Self::Twist(Twist(Layer::Front, Direction::CW)),
            Self::Twist(Twist(Layer::Front, Direction::CCW)),
            Self::Twist(Twist(Layer::Back, Direction::CW)),
            Self::Twist(Twist(Layer::Back, Direction::CCW)),
            Self::Rotation(Rotation(Axis::X, Direction::CW)),
            Self::Rotation(Rotation(Axis::X, Direction::CCW)),
            Self::Rotation(Rotation(Axis::Y, Direction::CW)),
            Self::Rotation(Rotation(Axis::Y, Direction::CCW)),
            Self::Rotation(Rotation(Axis::Z, Direction::CW)),
            Self::Rotation(Rotation(Axis::Z, Direction::CCW)),
        ];
        assert forall|m: Move| #[trigger] all@.contains(m) by {
            let k = move_place(m);
            assert(all@[k] == m);
        }
        all
    }

    #[allow(non_snake_case)]
    #[verifier::allow_in_spec]
    pub fn U() -> Self
        returns
            Self::Twist(Twist(Layer::Top, Direction::CW)),
    {
        Self::Twist(Twist(Layer::Top, Direction::CW))
    }
    #[allow(non_snake_case)]
    #[verifier::allow_in_spec]
    pub fn U_() -> Self
        returns
            Self::Twist(Twist(Layer::Top, Direction::CCW)),
    {
        Self::Twist(Twist(Layer::Top, Direction::CCW))
    }
    #[allow(non_snake_case)]
    #[verifier::allow_in_spec]
    pub fn D() -> Self
        returns
            Self::Twist(Twist(Layer::Bottom, Direction::CW)),
    {
        Self::Twist(Twist(Layer::Bottom, Direction::CW))
    }
    #[allow(non_snake_case)]
    #[verifier::allow_in_spec]
    pub fn D_() -> Self
        returns
            Self::Twist(Twist(Layer::Bottom, Direction::CCW)),
    {
        Self::Twist(Twist(Layer::Bottom, Direction::CCW))
    }
    #[allow(non_snake_case)]
    #[verifier::allow_in_spec]
    pub fn F() -> Self
        returns
            Self::Twist(Twist(Layer::Front, Direction::CW)),
    {
        Self::Twist(Twist(Layer::Front, Direction::CW))
    }
    #[allow(non_snake_case)]
    #[verifier::allow_in_spec]
    pub fn F_() -> Self
        returns
            Self::Twist(Twist(Layer::Front, Direction::CCW)),
    {
        Self::Twist(Twist(Layer::Front, Direction::CCW))
    }
    #[allow(non_snake_case)]
    #[verifier::allow_in_spec]
    pub fn B() -> Self
        returns
            Self::Twist(Twist(Layer::Back, Direction::CW)),
    {
        Self::Twist(Twist(Layer::Back, Direction::CW))
    }
    #[allow(non_snake_case)]
    #[verifier::allow_in_spec]
    pub fn B_() -> Self
        returns
            Self::Twist(Twist(Layer::Back, Direction::CCW)),
    {
        Self::Twist(Twist(Layer::Back, Direction::CCW))
    }
    #[allow(non_snake_case)]
    #[verifier::allow_in_spec]
    pub fn L() -> Self
        returns
            Self::Twist(Twist(Layer::Left, Direction::CW)),
    {
        Self::Twist(Twist(Layer::Left, Direction::CW))
    }
    #[allow(non_snake_case)]
    #[verifier::allow_in_spec]
    pub fn L_() -> Self
        returns
            Self::Twist(Twist(Layer::Left, Direction::CCW)),
    {
        Self::Twist(Twist(Layer::Left, Direction::CCW))
    }
    #[allow(non_snake_case)]
    #[verifier::allow_in_spec]
    pub fn R() -> Self
        returns
            Self::Twist(Twist(Layer::Right, Direction::CW)),
    {
        Self::Twist(Twist(Layer::Right, Direction::CW))
    }
    #[allow(non_snake_case)]
    #[verifier::allow_in_spec]
    pub fn R__() -> Self
        returns
            Self::Twist(Twist(Layer::Right, Direction::CCW)),
    {
        Self::Twist(Twist(Layer::Right, Direction::CCW))
    }
    #[allow(non_snake_case)]
    #[verifier::allow_in_spec]
    pub fn X() -> Self
        returns
            Self::Rotation(Rotation(Axis::X, Direction::CW)),
    {
        Self::Rotation(Rotation(Axis::X, Direction::CW))
    }
    #[allow(non_snake_case)]
    #[verifier::allow_in_spec]
    pub fn X_() -> Self
        returns
            Self::Rotation(Rotation(Axis::X, Direction::CCW)),
    {
        Self::Rotation(Rotation(Axis::X, Direction::CCW))
    }
    #[allow(non_snake_case)]
    #[verifier::allow_in_spec]
    pub fn Y() -> Self
        returns
            Self::Rotation(Rotation(Axis::Y, Direction::CW)),
    {
        Self::Rotation(Rotation(Axis::Y, Direction::CW))
    }
    #[allow(non_snake_case)]
    #[verifier::allow_in_spec]
    pub fn Y_() -> Self
        returns
            Self::Rotation(Rotation(Axis::Y, Direction::CCW)),
    {
        Self::Rotation(Rotation(Axis::Y, Direction::CCW))
    }
    #[allow(non_snake_case)]
    #[verifier::allow_in_spec]
    pub fn Z() -> Self
        returns
            Self::Rotation(Rotation(Axis::Z, Direction::CW)),
    {
        Self::Rotation(Rotation(Axis::Z, Direction::CW))
    }
    #[allow(non_snake_case)]
    #[verifier::allow_in_spec]
    pub fn Z_() -> Self
        returns
            Self::Rotation(Rotation(Axis::Z, Direction::CCW)),
    {
        Self::Rotation(Rotation(Axis::Z, Direction::CCW))
    }

    #[verifier::allow_in_spec]
    pub fn dir(self) -> Direction
        returns
            (match self {
                Move::Twist(twist) => twist.1,
                Move::Rotation(rotation) => rotation.1,
            }),
    {
        match self {
            Move::Twist(twist) => twist.1,
            Move::Rotation(rotation) => rotation.1,
        }
    }

    /// The move that undoes this one: the same layer or axis, turned the
    /// other way.
    #[verifier::allow_in_spec]
    pub fn inverse(self) -> Move
        returns
            (match self {
                Move::Twist(Twist(layer, dir)) => Move::Twist(Twist(layer, dir.inverse())),
                Move::Rotation(Rotation(axis, dir)) => Move::Rotation(Rotation(axis, dir.inverse())),
            }),
    {
        match self {
            Move::Twist(Twist(layer, dir)) => Self::Twist(Twist(layer, dir.inverse())),
            Move::Rotation(Rotation(axis, dir)) => Self::Rotation(Rotation(axis, dir.inverse())),
        }
    }

    /// Encodes the move in one byte.
    pub fn pack(self) -> (b: u8)
        ensures
            b == packed(self),
            b < 255,
    {
        let dir_bit: u8 = if self.dir() == Direction::CW {
            1u8 << 6
        } else {
            0u8
        };
        assert(1u8 << 6u8 == 64u8) by (bit_vector);
        let type_bit: u8;
        let axis_or_layer: u8;
        match self {
            Move::Twist(twist) => {
                type_bit = 1u8 << 7;
                assert(1u8 << 7u8 == 128u8) by (bit_vector);
                axis_or_layer = layer_to_number(twist.0);
            },
            Move::Rotation(rotation) => {
                type_bit = 0u8;
                axis_or_layer = axis_to_number(rotation.0);
            },
        }
        assert(type_bit == 128 || type_bit == 0);
        assert(dir_bit == 64 || dir_bit == 0);
        assert(axis_or_layer < 6);
        assert((type_bit == 128u8 || type_bit == 0u8) && (dir_bit == 64u8 || dir_bit == 0u8)
            && axis_or_layer < 6u8 ==> type_bit | dir_bit | axis_or_layer == type_bit + dir_bit
            + axis_or_layer) by (bit_vector);
        type_bit | dir_bit | axis_or_layer
    }

    /// Decodes a byte made by `pack`; `None` for a byte that encodes no move.
    pub fn unpack(packed: u8) -> (m: Option<Move>)
        ensures
            m == unpacked(packed as nat),
    {
        let type_bit = packed >> 7;
        let dir_bit = (packed >> 6) & 1;
        let axis_or_layer = packed & 0b0011_1111;
        assert(packed >> 7u8 == packed / 128 && (packed >> 6u8) & 1u8 == (packed / 64) % 2
            && packed & 63u8 == packed % 64) by (bit_vector);
        let dir = if dir_bit == 1 {
            Direction::CW
        } else {
            Direction::CCW
        };
        if type_bit == 1 {
            match layer_from_number(axis_or_layer) {
                Some(layer) => Some(Move::Twist(Twist(layer, dir))),
                None => None,
            }
        } else {
            match axis_from_number(axis_or_layer) {
                Some(axis) => Some(Move::Rotation(Rotation(axis, dir))),
                None => None,
            }
        }
    }
}

/// Unpacking a packed move gives the move back.
pub proof fn law_unpack_pack(m: Move)
    ensures
        unpacked(packed(m)) == Some(m),
        packed(m) < 255,
{
}

/// Undoing a move twice gives the move back.
pub proof fn law_inverse_involution(m: Move)
    ensures
        m.inverse().inverse() == m,
{
}

/// One corner: its id in the high nibble, its orientation in the low nibble.
#[derive(Debug, Clone, Copy, PartialEq, Eq, Structural, Hash, PartialOrd, Ord)]
pub struct Corner(u8);

impl Corner {
    /// The id of the corner piece (0..8 for a well-formed corner).
    pub closed spec fn id(self) -> nat {
        (self.0 >> 4u8) as nat
    }

    /// The orientation of the corner piece (0..3 for a well-formed corner).
    pub closed spec fn ori(self) -> nat {
        (self.0 & 15u8) as nat
    }

    pub open spec fn wf(self) -> bool {
        self.id() < 8 && self.ori() < 3
    }

    /// Every corner has an id below 8 and an orientation below 3.
    #[verifier::type_invariant]
    closed spec fn inv(self) -> bool {
        self.wf()
    }

    /// The corner with the given id and orientation.
    pub closed spec fn with(id: nat, ori: nat) -> Corner {
        Corner(((id as u8) << 4u8) | (ori as u8))
    }

    pub broadcast proof fn lemma_with_fields(id: nat, ori: nat)
        requires
            id < 16,
            ori < 16,
        ensures
            #[trigger] Corner::with(id, ori).id() == id,
            Corner::with(id, ori).ori() == ori,
    {
        let i = id as u8;
        let o = ori as u8;
        assert(((i << 4u8) | o) >> 4u8 == i && ((i << 4u8) | o) & 15u8 == o) by (bit_vector)
            requires
                i < 16,
                o < 16,
        ;
    }

    /// A corner is determined by its id and its orientation.
    pub broadcast proof fn lemma_ext(a: Corner, b: Corner)
        requires
            a.id() == b.id(),
            a.ori() == b.ori(),
        ensures
            #[trigger] a.id() == #[trigger] b.id() ==> a == b,
    {
        let x = a.0;
        let y = b.0;
        assert(x >> 4u8 == y >> 4u8 && x & 15u8 == y & 15u8 ==> x == y) by (bit_vector);
    }

    pub broadcast proof fn lemma_fields_bounded(c: Corner)
        ensures
            #[trigger] c.id() < 16,
            c.ori() < 16,
    {
        let x = c.0;
        assert(x >> 4u8 < 16 && x & 15u8 < 16) by (bit_vector);
    }

    /// The corner with the given id in its default orientation.
    pub fn new_with_id(id: u8) -> (c: Self)
        requires
            id < 8,
        ensures
            c.id() == id,
            c.ori() == 0,
    {
        assert(0u8 & 15u8 == 0u8 && 0u8 >> 4u8 == 0u8) by (bit_vector);
        let mut corner = Self(0);
        corner.set_id(id);
        corner
    }

    /// The corner with the given id and orientation.
    pub fn new_with_id_ori(id: u8, ori: u8) -> (c: Self)
        requires
            id < 8,
            ori < 3,
        ensures
            c.id() == id,
            c.ori() == ori,
    {
        assert(0u8 & 15u8 == 0u8 && 0u8 >> 4u8 == 0u8) by (bit_vector);
        let mut corner = Self(0);
        corner.set_id(id);
        corner.set_ori(ori);
        corner
    }

    pub fn get_id(self) -> (id: u8)
        ensures
            id == self.id(),
    {
        self.0 >> 4
    }

    pub fn get_ori(self) -> (ori: u8)
        ensures
            ori == self.ori(),
    {
        self.0 & 0b1111
    }

    /// Replaces the id and keeps the orientation.
    pub fn set_id(&mut self, id: u8)
        requires
            id < 8,
        ensures
            final(self).id() == id,
            final(self).ori() == old(self).ori(),
    {
        proof {
            use_type_invariant(&*self);
        }
        let x = self.0;
        let y = (x & 0b1111) | (id << 4);
        assert(((x & 15u8) | (id << 4u8)) >> 4u8 == id && ((x & 15u8) | (id << 4u8)) & 15u8 == x
            & 15u8) by (bit_vector)
            requires
                id < 8,
        ;
        self.0 = y;
    }

    /// Replaces the orientation and keeps the id.
    pub fn set_ori(&mut self, ori: u8)
        requires
            ori < 3,
        ensures
            final(self).ori() == ori,
            final(self).id() == old(self).id(),
    {
        proof {
            use_type_invariant(&*self);
        }
        let x = self.0;
        let y = (x & 0b1111_0000) | ori;
        assert(((x & 240u8) | ori) >> 4u8 == x >> 4u8 && ((x & 240u8) | ori) & 15u8 == ori)
            by (bit_vector)
            requires
                ori < 3,
        ;
        self.0 = y;
    }
}

/// The whole cube: position `i` holds the corner `self.0[i]`.
#[derive(Debug, Clone, Copy, Eq, Hash, PartialOrd, Ord)]
pub struct Cube(pub [Corner; 8]);

impl View for Cube {
    type V = Seq<Corner>;

    open spec fn view(&self) -> Seq<Corner> {
        self.0@
    }
}

impl Cube {
    /// Whether the two cubes have the same corner at every position.
    pub fn same_state(&self, other: &Self) -> (r: bool)
        ensures
            r == (self@ == other@),
    {
        let mut i: usize = 0;
        while i < 8
            invariant
                0 <= i <= 8,
                forall|k: int| 0 <= k < i ==> self.0[k] == other.0[k],
            decreases 8 - i,
        {
            if self.0[i] != other.0[i] {
                return false;
            }
            i += 1;
        }
        assert(self.0@ =~= other.0@);
        true
    }
}

impl PartialEq for Cube {
    fn eq(&self, other: &Self) -> (r: bool) {
        self.same_state(other)
    }
}

impl vstd::std_specs::cmp::PartialEqSpecImpl for Cube {
    open spec fn obeys_eq_spec() -> bool {
        true
    }

    open spec fn eq_spec(&self, other: &Cube) -> bool {
        self.0@ == other.0@
    }
}

/// The positions of the four corners of a layer, in the order in which a
/// clockwise twist carries them (position `k + 1` moves to position `k`).
pub open spec fn face_positions(layer: Layer) -> Seq<int> {
    match layer {
        Layer::Top => seq![0, 3, 2, 1],
        Layer::Bottom => seq![4, 5, 6, 7],
        Layer::Front => seq![2, 3, 7, 6],
        Layer::Back => seq![1, 5, 4, 0],
        Layer::Right => seq![1, 2, 6, 5],
        Layer::Left => seq![0, 4, 7, 3],
    }
}

/// How much the corner that lands on each of `face_positions(layer)` is
/// twisted by the turn.
pub open spec fn face_deltas(layer: Layer) -> Seq<nat> {
    match layer {
        Layer::Top => seq![0, 0, 0, 0],
        Layer::Bottom => seq![0, 0, 0, 0],
        Layer::Front => seq![1, 2, 1, 2],
        Layer::Back => seq![2, 1, 2, 1],
        Layer::Right => seq![1, 2, 1, 2],
        Layer::Left => seq![2, 1, 2, 1],
    }
}

/// A corner twisted by `d` more steps.
pub open spec fn turned(c: Corner, d: nat) -> Corner {
    Corner::with(c.id(), (c.ori() + d) % 3)
}

/// The state after turning `layer` a quarter turn in direction `dir`.
pub open spec fn twist_state(s: Seq<Corner>, layer: Layer, dir: Direction) -> Seq<Corner> {
    let p = face_positions(layer);
    let d = face_deltas(layer);
    let off: int = if dir == Direction::CW {
        1
    } else {
        3
    };
    Seq::new(
        s.len(),
        |i: int|
            if i == p[0] {
                turned(s[p[(0 + off) % 4]], d[0])
            } else if i == p[1] {
                turned(s[p[(1 + off) % 4]], d[1])
            } else if i == p[2] {
                turned(s[p[(2 + off) % 4]], d[2])
            } else if i == p[3] {
                turned(s[p[(3 + off) % 4]], d[3])
            } else {
                s[i]
            },
    )
}

/// The two layers that a rotation about `axis` turns, the first in the
/// direction of the rotation and the second the other way.
pub open spec fn rotation_layers(axis: Axis) -> (Layer, Layer) {
    match axis {
        Axis::X => (Layer::Right, Layer::Left),
        Axis::Y => (Layer::Top, Layer::Bottom),
        Axis::Z => (Layer::Front, Layer::Back),
    }
}

/// The state after a move.
pub open spec fn apply_move(s: Seq<Corner>, m: Move) -> Seq<Corner> {
    match m {
        Move::Twist(Twist(layer, dir)) => twist_state(s, layer, dir),
        Move::Rotation(Rotation(axis, dir)) => twist_state(
            twist_state(s, rotation_layers(axis).0, dir),
            rotation_layers(axis).1,
            dir.inverse(),
        ),
    }
}

pub broadcast group group_corner {
    Corner::lemma_with_fields,
    Corner::lemma_ext,
    Corner::lemma_fields_bounded,
}

/// Eight well-formed corners.
pub open spec fn corners_wf(s: Seq<Corner>) -> bool {
    s.len() == 8 && forall|i: int| 0 <= i < 8 ==> #[trigger] s[i].wf()
}

/// No corner id occurs twice.
pub open spec fn ids_distinct(s: Seq<Corner>) -> bool {
    forall|i: int, j: int| 0 <= i < 8 && 0 <= j < 8 && i != j ==> #[trigger] s[i].id() != #[trigger] s[j].id()
}

/// The sum of the orientations of the first `n` corners.
pub open spec fn ori_sum(s: Seq<Corner>, n: int) -> int
    decreases n,
{
    if n <= 0 {
        0
    } else {
        ori_sum(s, n - 1) + s[n - 1].ori()
    }
}

/// The sum of all orientations, modulo 3.
pub open spec fn twist_total(s: Seq<Corner>) -> int {
    ori_sum(s, 8) % 3
}

/// A state that turns can reach from the solved cube: eight well-formed
/// corners, each id once, and orientations that sum to 0 modulo 3.
pub open spec fn valid_state(s: Seq<Corner>) -> bool {
    corners_wf(s) && ids_distinct(s) && twist_total(s) == 0
}

proof fn lemma_turned_twice(c: Corner, a: nat, b: nat)
    requires
        c.wf(),
    ensures
        turned(turned(c, a), b) == turned(c, a + b),
        turned(c, a).wf(),
        turned(c, a).id() == c.id(),
        (a + b) % 3 == 0 ==> turned(turned(c, a), b) == c,
{
    broadcast use group_corner;

    assert(turned(turned(c, a), b).id() == turned(c, a + b).id());
    if (a + b) % 3 == 0 {
        assert(turned(turned(c, a), b).id() == c.id());
    }
}

/// The position that a twist moves onto position `i`.
pub open spec fn twist_source(layer: Layer, dir: Direction, i: int) -> int {
    let p = face_positions(layer);
    let off: int = if dir == Direction::CW {
        1
    } else {
        3
    };
    if i == p[0] {
        p[(0 + off) % 4]
    } else if i == p[1] {
        p[(1 + off) % 4]
    } else if i == p[2] {
        p[(2 + off) % 4]
    } else if i == p[3] {
        p[(3 + off) % 4]
    } else {
        i
    }
}

/// How much a twist turns the corner that it moves onto position `i`.
pub open spec fn twist_gain(layer: Layer, i: int) -> nat {
    let p = face_positions(layer);
    let d = face_deltas(layer);
    if i == p[0] {
        d[0]
    } else if i == p[1] {
        d[1]
    } else if i == p[2] {
        d[2]
    } else if i == p[3] {
        d[3]
    } else {
        0
    }
}

proof fn lemma_turned_fields(c: Corner, d: nat)
    ensures
        turned(c, d).id() == c.id(),
        turned(c, d).ori() == (c.ori() + d) % 3,
{
    broadcast use group_corner;

    Corner::lemma_with_fields(c.id(), (c.ori() + d) % 3);
}

proof fn lemma_turned_zero(c: Corner)
    requires
        c.wf(),
    ensures
        turned(c, 0) == c,
{
    broadcast use group_corner;

    assert(turned(c, 0).id() == c.id());
}

/// Every position of a twisted state holds a corner of the old state,
/// turned.
proof fn lemma_twist_at(s: Seq<Corner>, layer: Layer, dir: Direction, i: int)
    requires
        corners_wf(s),
        0 <= i < 8,
    ensures
        twist_state(s, layer, dir)[i] == turned(s[twist_source(layer, dir, i)], twist_gain(layer, i)),
        0 <= twist_source(layer, dir, i) < 8,
{
    let p = face_positions(layer);
    if !(i == p[0] || i == p[1] || i == p[2] || i == p[3]) {
        lemma_turned_zero(s[i]);
    }
}

proof fn lemma_twist_wf(s: Seq<Corner>, layer: Layer, dir: Direction)
    requires
        corners_wf(s),
    ensures
        corners_wf(twist_state(s, layer, dir)),
{
    let t = twist_state(s, layer, dir);
    assert forall|i: int| 0 <= i < 8 implies #[trigger] t[i].wf() by {
        lemma_twist_at(s, layer, dir, i);
        lemma_turned_twice(s[twist_source(layer, dir, i)], twist_gain(layer, i), 0);
    }
}

proof fn lemma_source_undo(layer: Layer, dir: Direction, i: int)
    requires
        0 <= i < 8,
    ensures
        twist_source(layer, dir, twist_source(layer, dir.inverse(), i)) == i,
        (twist_gain(layer, twist_source(layer, dir.inverse(), i)) + twist_gain(layer, i)) % 3 == 0,
{
    match layer {
        Layer::Top => {},
        Layer::Bottom => {},
        Layer::Left => {},
        Layer::Right => {},
        Layer::Front => {},
        Layer::Back => {},
    }
}

/// Turning a layer one way and then the other leaves the state unchanged.
proof fn lemma_twist_undo(s: Seq<Corner>, layer: Layer, dir: Direction)
    requires
        corners_wf(s),
    ensures
        twist_state(twist_state(s, layer, dir), layer, dir.inverse()) == s,
{
    let t = twist_state(s, layer, dir);
    let u = twist_state(t, layer, dir.inverse());
    lemma_twist_wf(s, layer, dir);
    assert forall|i: int| 0 <= i < 8 implies #[trigger] u[i] == s[i] by {
        lemma_twist_at(t, layer, dir.inverse(), i);
        let j = twist_source(layer, dir.inverse(), i);
        lemma_twist_at(s, layer, dir, j);
        lemma_source_undo(layer, dir, i);
        lemma_turned_twice(s[i], twist_gain(layer, j), twist_gain(layer, i));
    }
    assert(u =~= s);
}

/// Two layers on opposite sides of the cube.
pub open spec fn opposite(a: Layer, b: Layer) -> bool {
    match (a, b) {
        (Layer::Top, Layer::Bottom) | (Layer::Bottom, Layer::Top) => true,
        (Layer::Left, Layer::Right) | (Layer::Right, Layer::Left) => true,
        (Layer::Front, Layer::Back) | (Layer::Back, Layer::Front) => true,
        _ => false,
    }
}

proof fn lemma_source_range(layer: Layer, dir: Direction, i: int)
    requires
        0 <= i < 8,
    ensures
        0 <= twist_source(layer, dir, i) < 8,
        twist_gain(layer, i) < 3,
        twist_source(layer, dir.inverse(), twist_source(layer, dir, i)) == i,
{
    lemma_source_undo(layer, dir.inverse(), i);
    match layer {
        Layer::Top => {},
        Layer::Bottom => {},
        Layer::Left => {},
        Layer::Right => {},
        Layer::Front => {},
        Layer::Back => {},
    }
}

/// Two twists in a row, position by position.
proof fn lemma_twist_twice_at(
    s: Seq<Corner>,
    l1: Layer,
    d1: Direction,
    l2: Layer,
    d2: Direction,
    i: int,
)
    requires
        corners_wf(s),
        0 <= i < 8,
    ensures
        twist_state(twist_state(s, l1, d1), l2, d2)[i] == turned(
            s[twist_source(l1, d1, twist_source(l2, d2, i))],
            twist_gain(l1, twist_source(l2, d2, i)) + twist_gain(l2, i),
        ),
{
    lemma_twist_wf(s, l1, d1);
    lemma_twist_at(twist_state(s, l1, d1), l2, d2, i);
    let j = twist_source(l2, d2, i);
    lemma_twist_at(s, l1, d1, j);
    lemma_source_range(l1, d1, j);
    lemma_turned_twice(s[twist_source(l1, d1, j)], twist_gain(l1, j), twist_gain(l2, i));
}

proof fn lemma_source_commute(a: Layer, da: Direction, b: Layer, db: Direction, i: int)
    requires
        opposite(a, b),
        0 <= i < 8,
    ensures
        twist_source(a, da, twist_source(b, db, i)) == twist_source(b, db, twist_source(a, da, i)),
        twist_gain(a, twist_source(b, db, i)) + twist_gain(b, i) == twist_gain(
            b,
            twist_source(a, da, i),
        ) + twist_gain(a, i),
{
    match a {
        Layer::Top => {},
        Layer::Bottom => {},
        Layer::Left => {},
        Layer::Right => {},
        Layer::Front => {},
        Layer::Back => {},
    }
}

/// Twists of opposite layers commute.
proof fn lemma_twist_commute(s: Seq<Corner>, a: Layer, da: Direction, b: Layer, db: Direction)
    requires
        corners_wf(s),
        opposite(a, b),
    ensures
        twist_state(twist_state(s, a, da), b, db) == twist_state(twist_state(s, b, db), a, da),
{
    let x = twist_state(twist_state(s, a, da), b, db);
    let y = twist_state(twist_state(s, b, db), a, da);
    assert forall|i: int| 0 <= i < 8 implies #[trigger] x[i] == y[i] by {
        lemma_twist_twice_at(s, a, da, b, db, i);
        lemma_twist_twice_at(s, b, db, a, da, i);
        lemma_source_commute(a, da, b, db, i);
    }
    assert(x =~= y);
}

proof fn lemma_source_four(layer: Layer, dir: Direction, i: int)
    requires
        0 <= i < 8,
    ensures
        ({
            let a = twist_source(layer, dir, i);
            let b = twist_source(layer, dir, a);
            let c = twist_source(layer, dir, b);
            &&& twist_source(layer, dir, c) == i
            &&& (twist_gain(layer, c) + twist_gain(layer, b) + twist_gain(layer, a) + twist_gain(
                layer,
                i,
            )) % 3 == 0
        }),
{
    match layer {
        Layer::Top => {},
        Layer::Bottom => {},
        Layer::Left => {},
        Layer::Right => {},
        Layer::Front => {},
        Layer::Back => {},
    }
}

#[verifier::rlimit(30)]
proof fn lemma_twist_four_at(s: Seq<Corner>, layer: Layer, dir: Direction, i: int)
    requires
        corners_wf(s),
        0 <= i < 8,
    ensures
        twist_state(
            twist_state(twist_state(twist_state(s, layer, dir), layer, dir), layer, dir),
            layer,
            dir,
        )[i] == s[i],
{
    let t2 = twist_state(twist_state(s, layer, dir), layer, dir);
    lemma_twist_wf(s, layer, dir);
    lemma_twist_wf(twist_state(s, layer, dir), layer, dir);
    lemma_twist_twice_at(t2, layer, dir, layer, dir, i);
    let a = twist_source(layer, dir, i);
    let b = twist_source(layer, dir, a);
    lemma_source_range(layer, dir, i);
    lemma_source_range(layer, dir, a);
    lemma_source_range(layer, dir, b);
    lemma_twist_twice_at(s, layer, dir, layer, dir, b);
    lemma_source_four(layer, dir, i);
    let c = twist_source(layer, dir, b);
    lemma_source_range(layer, dir, c);
    lemma_turned_twice(
        s[i],
        twist_gain(layer, c) + twist_gain(layer, b),
        twist_gain(layer, a) + twist_gain(layer, i),
    );
}

/// Four quarter turns of a layer in one direction leave the state unchanged.
proof fn lemma_twist_four(s: Seq<Corner>, layer: Layer, dir: Direction)
    requires
        corners_wf(s),
    ensures
        twist_state(
            twist_state(twist_state(twist_state(s, layer, dir), layer, dir), layer, dir),
            layer,
            dir,
        ) == s,
{
    let t4 = twist_state(
        twist_state(twist_state(twist_state(s, layer, dir), layer, dir), layer, dir),
        layer,
        dir,
    );
    assert forall|i: int| 0 <= i < 8 implies #[trigger] t4[i] == s[i] by {
        lemma_twist_four_at(s, layer, dir, i);
    }
    assert(t4 =~= s);
}

proof fn lemma_twist_ids(s: Seq<Corner>, layer: Layer, dir: Direction)
    requires
        corners_wf(s),
        ids_distinct(s),
    ensures
        ids_distinct(twist_state(s, layer, dir)),
{
    let t = twist_state(s, layer, dir);
    assert forall|i: int, j: int| 0 <= i < 8 && 0 <= j < 8 && i != j implies #[trigger] t[i].id()
        != #[trigger] t[j].id() by {
        lemma_twist_at(s, layer, dir, i);
        lemma_twist_at(s, layer, dir, j);
        lemma_source_range(layer, dir, i);
        lemma_source_range(layer, dir, j);
        let a = s[twist_source(layer, dir, i)];
        let b = s[twist_source(layer, dir, j)];
        lemma_turned_twice(a, twist_gain(layer, i), 0);
        lemma_turned_twice(b, twist_gain(layer, j), 0);
    }
}

proof fn lemma_twist_ori_at(s: Seq<Corner>, layer: Layer, dir: Direction, i: int)
    requires
        corners_wf(s),
        0 <= i < 8,
    ensures
        twist_state(s, layer, dir)[i].ori() == (s[twist_source(layer, dir, i)].ori()
            + twist_gain(layer, i)) % 3,
{
    lemma_twist_at(s, layer, dir, i);
    lemma_source_range(layer, dir, i);
    lemma_turned_fields(s[twist_source(layer, dir, i)], twist_gain(layer, i));
}

proof fn lemma_sum8(s: Seq<Corner>)
    ensures
        ori_sum(s, 8) == s[0].ori() + s[1].ori() + s[2].ori() + s[3].ori() + s[4].ori() + s[5].ori()
            + s[6].ori() + s[7].ori(),
{
    reveal_with_fuel(ori_sum, 9);
}

proof fn lemma_mod3_small(v: int)
    requires
        0 <= v < 6,
    ensures
        v % 3 == (if v < 3 {
            v
        } else {
            v - 3
        }),
{
    if v < 3 {
        vstd::arithmetic::div_mod::lemma_small_mod(v as nat, 3);
    } else {
        vstd::arithmetic::div_mod::lemma_small_mod((v - 3) as nat, 3);
        vstd::arithmetic::div_mod::lemma_mod_multiples_vanish(1, v - 3, 3);
    }
}

/// Turning the four corners of a face changes the sum of their
/// orientations by a multiple of 3.
proof fn lemma_face_sum(
    a: int,
    b: int,
    c: int,
    d: int,
    g0: int,
    g1: int,
    g2: int,
    g3: int,
    cw: bool,
) -> (k: int)
    requires
        0 <= a < 3,
        0 <= b < 3,
        0 <= c < 3,
        0 <= d < 3,
        (g0 == 0 && g1 == 0 && g2 == 0 && g3 == 0) || (g0 == 1 && g1 == 2 && g2 == 1 && g3 == 2) || (
        g0 == 2 && g1 == 1 && g2 == 2 && g3 == 1),
    ensures
        cw ==> (b + g0) % 3 + (c + g1) % 3 + (d + g2) % 3 + (a + g3) % 3 == a + b + c + d + 3 * k,
        !cw ==> (d + g0) % 3 + (a + g1) % 3 + (b + g2) % 3 + (c + g3) % 3 == a + b + c + d + 3 * k,
{
    let (x0, x1, x2, x3) = if cw {
        (b, c, d, a)
    } else {
        (d, a, b, c)
    };
    lemma_mod3_small(x0 + g0);
    lemma_mod3_small(x1 + g1);
    lemma_mod3_small(x2 + g2);
    lemma_mod3_small(x3 + g3);
    let w: int = (if x0 + g0 >= 3 {
        1int
    } else {
        0
    }) + (if x1 + g1 >= 3 {
        1int
    } else {
        0
    }) + (if x2 + g2 >= 3 {
        1int
    } else {
        0
    }) + (if x3 + g3 >= 3 {
        1int
    } else {
        0
    });
    (g0 + g1 + g2 + g3) / 3 - w
}

proof fn lemma_face_source(layer: Layer, dir: Direction, k: int)
    requires
        0 <= k < 4,
    ensures
        ({
            let p = face_positions(layer);
            let off: int = if dir == Direction::CW {
                1
            } else {
                3
            };
            &&& twist_source(layer, dir, p[k]) == p[(k + off) % 4]
            &&& twist_gain(layer, p[k]) == face_deltas(layer)[k]
            &&& 0 <= p[k] < 8
        }),
{
    match layer {
        Layer::Top => {},
        Layer::Bottom => {},
        Layer::Left => {},
        Layer::Right => {},
        Layer::Front => {},
        Layer::Back => {},
    }
}

/// The orientation sum changes only by what changes on the face.
proof fn lemma_sum_split(s: Seq<Corner>, t: Seq<Corner>, layer: Layer)
    requires
        forall|i: int|
            0 <= i < 8 && i != face_positions(layer)[0] && i != face_positions(layer)[1] && i
                != face_positions(layer)[2] && i != face_positions(layer)[3] ==> #[trigger] t[i]
                == s[i],
    ensures
        ({
            let p = face_positions(layer);
            ori_sum(t, 8) - ori_sum(s, 8) == t[p[0]].ori() + t[p[1]].ori() + t[p[2]].ori()
                + t[p[3]].ori() - (s[p[0]].ori() + s[p[1]].ori() + s[p[2]].ori() + s[p[3]].ori())
        }),
{
    lemma_sum8(s);
    lemma_sum8(t);
    match layer {
        Layer::Top => {
            assert(t[4] == s[4] && t[5] == s[5] && t[6] == s[6] && t[7] == s[7]);
        },
        Layer::Bottom => {
            assert(t[0] == s[0] && t[1] == s[1] && t[2] == s[2] && t[3] == s[3]);
        },
        Layer::Left => {
            assert(t[1] == s[1] && t[2] == s[2] && t[5] == s[5] && t[6] == s[6]);
        },
        Layer::Right => {
            assert(t[0] == s[0] && t[3] == s[3] && t[4] == s[4] && t[7] == s[7]);
        },
        Layer::Front => {
            assert(t[0] == s[0] && t[1] == s[1] && t[4] == s[4] && t[5] == s[5]);
        },
        Layer::Back => {
            assert(t[2] == s[2] && t[3] == s[3] && t[6] == s[6] && t[7] == s[7]);
        },
    }
}

proof fn lemma_twist_total(s: Seq<Corner>, layer: Layer, dir: Direction)
    requires
        corners_wf(s),
    ensures
        twist_total(twist_state(s, layer, dir)) == twist_total(s),
{
    let t = twist_state(s, layer, dir);
    let p = face_positions(layer);
    let dl = face_deltas(layer);
    assert forall|i: int| 0 <= i < 8 && i != p[0] && i != p[1] && i != p[2] && i != p[3] implies #[trigger] t[i]
        == s[i] by {
        lemma_turned_zero(s[i]);
    }
    lemma_sum_split(s, t, layer);
    lemma_face_source(layer, dir, 0);
    lemma_face_source(layer, dir, 1);
    lemma_face_source(layer, dir, 2);
    lemma_face_source(layer, dir, 3);
    lemma_twist_ori_at(s, layer, dir, p[0]);
    lemma_twist_ori_at(s, layer, dir, p[1]);
    lemma_twist_ori_at(s, layer, dir, p[2]);
    lemma_twist_ori_at(s, layer, dir, p[3]);
    assert(s[p[0]].wf() && s[p[1]].wf() && s[p[2]].wf() && s[p[3]].wf());
    assert(dl[0] == 0 && dl[1] == 0 && dl[2] == 0 && dl[3] == 0 || dl[0] == 1 && dl[1] == 2 && dl[2]
        == 1 && dl[3] == 2 || dl[0] == 2 && dl[1] == 1 && dl[2] == 2 && dl[3] == 1);
    let k = lemma_face_sum(
        s[p[0]].ori() as int,
        s[p[1]].ori() as int,
        s[p[2]].ori() as int,
        s[p[3]].ori() as int,
        dl[0] as int,
        dl[1] as int,
        dl[2] as int,
        dl[3] as int,
        dir == Direction::CW,
    );
    assert(ori_sum(t, 8) == 3 * k + ori_sum(s, 8));
    vstd::arithmetic::div_mod::lemma_mod_multiples_vanish(k, ori_sum(s, 8), 3);
}

proof fn lemma_twist_valid(s: Seq<Corner>, layer: Layer, dir: Direction)
    requires
        corners_wf(s),
    ensures
        corners_wf(twist_state(s, layer, dir)),
        ids_distinct(s) ==> ids_distinct(twist_state(s, layer, dir)),
        twist_total(twist_state(s, layer, dir)) == twist_total(s),
{
    lemma_twist_wf(s, layer, dir);
    if ids_distinct(s) {
        lemma_twist_ids(s, layer, dir);
    }
    lemma_twist_total(s, layer, dir);
}

/// Moves keep corners well formed, ids distinct and the twist total.
pub proof fn law_move_keeps_validity(s: Seq<Corner>, m: Move)
    requires
        corners_wf(s),
    ensures
        corners_wf(apply_move(s, m)),
        ids_distinct(s) ==> ids_distinct(apply_move(s, m)),
        twist_total(apply_move(s, m)) == twist_total(s),
        valid_state(s) ==> valid_state(apply_move(s, m)),
{
    match m {
        Move::Twist(Twist(layer, dir)) => lemma_twist_valid(s, layer, dir),
        Move::Rotation(Rotation(axis, dir)) => {
            let (l0, l1) = rotation_layers(axis);
            lemma_twist_valid(s, l0, dir);
            lemma_twist_valid(twist_state(s, l0, dir), l1, dir.inverse());
        },
    }
}

/// A move followed by its inverse leaves the state unchanged.
pub proof fn law_move_then_inverse(s: Seq<Corner>, m: Move)
    requires
        corners_wf(s),
    ensures
        apply_move(apply_move(s, m), m.inverse()) == s,
{
    match m {
        Move::Twist(Twist(layer, dir)) => lemma_twist_undo(s, layer, dir),
        Move::Rotation(Rotation(axis, dir)) => {
            let (l0, l1) = rotation_layers(axis);
            let d2 = dir.inverse();
            let x = twist_state(s, l0, dir);
            lemma_twist_wf(s, l0, dir);
            lemma_twist_commute(x, l1, d2, l0, d2);
            lemma_twist_undo(s, l0, dir);
            lemma_twist_wf(s, l1, d2);
            lemma_twist_undo(s, l1, d2);
        },
    }
}

/// Four equal moves in a row leave the state unchanged.
pub proof fn law_move_four_times(s: Seq<Corner>, m: Move)
    requires
        corners_wf(s),
    ensures
        apply_move(apply_move(apply_move(apply_move(s, m), m), m), m) == s,
{
    match m {
        Move::Twist(Twist(layer, dir)) => lemma_twist_four(s, layer, dir),
        Move::Rotation(Rotation(axis, dir)) => {
            let (l0, l1) = rotation_layers(axis);
            let d1 = dir.inverse();
            // Each rotation is a turn of l0 then a turn of l1; the turns of
            // the two opposite layers commute, so the four l0 turns can be
            // gathered before the four l1 turns.
            let a1 = twist_state(s, l0, dir);
            let r1 = twist_state(a1, l1, d1);
            let a2 = twist_state(r1, l0, dir);
            let r2 = twist_state(a2, l1, d1);
            lemma_twist_wf(s, l0, dir);
            lemma_twist_wf(a1, l1, d1);
            lemma_twist_commute(a1, l1, d1, l0, dir);
            let b2 = twist_state(a1, l0, dir);
            lemma_twist_wf(a1, l0, dir);
            assert(r2 == twist_state(twist_state(b2, l1, d1), l1, d1));
            let c2 = twist_state(twist_state(b2, l1, d1), l1, d1);
            // r2 = L1 L1 L0 L0 s; now r4 = L1 L0 L1 L0 r2.
            let a3 = twist_state(r2, l0, dir);
            let r3 = twist_state(a3, l1, d1);
            let a4 = twist_state(r3, l0, dir);
            let r4 = twist_state(a4, l1, d1);
            lemma_twist_wf(b2, l1, d1);
            lemma_twist_wf(twist_state(b2, l1, d1), l1, d1);
            lemma_twist_wf(r2, l0, dir);
            lemma_twist_commute(a3, l1, d1, l0, dir);
            lemma_twist_wf(a3, l0, dir);
            lemma_twist_wf(a3, l1, d1);
            let b4 = twist_state(a3, l0, dir);
            assert(r4 == twist_state(twist_state(b4, l1, d1), l1, d1));
            // Move the two l0 turns of the second half before the two l1
            // turns of the first half.
            let e = twist_state(b2, l1, d1);
            lemma_twist_wf(e, l1, d1);
            lemma_twist_commute(e, l1, d1, l0, dir);
            lemma_twist_wf(e, l0, dir);
            lemma_twist_commute(twist_state(e, l0, dir), l1, d1, l0, dir);
            lemma_twist_commute(e, l1, d1, l0, dir);
            lemma_twist_wf(twist_state(e, l0, dir), l0, dir);
            lemma_twist_commute(b2, l1, d1, l0, dir);
            lemma_twist_wf(b2, l0, dir);
            lemma_twist_commute(twist_state(b2, l0, dir), l1, d1, l0, dir);
            lemma_twist_wf(twist_state(b2, l0, dir), l0, dir);
            let f = twist_state(twist_state(b2, l0, dir), l0, dir);
            lemma_twist_four(s, l0, dir);
            assert(f == s);
            lemma_twist_four(s, l1, d1);
        },
    }
}

/// Turns of opposite layers commute.
pub proof fn law_opposite_twists_commute(
    s: Seq<Corner>,
    a: Layer,
    da: Direction,
    b: Layer,
    db: Direction,
)
    requires
        corners_wf(s),
        opposite(a, b),
    ensures
        apply_move(apply_move(s, Move::Twist(Twist(a, da))), Move::Twist(Twist(b, db)))
            == apply_move(apply_move(s, Move::Twist(Twist(b, db))), Move::Twist(Twist(a, da))),
{
    lemma_twist_commute(s, a, da, b, db);
}

/// The solved cube: corner `i` at position `i`, untwisted.
pub open spec fn solved_state() -> Seq<Corner> {
    Seq::new(8, |i: int| Corner::with(i as nat, 0))
}

proof fn lemma_digits_number_mono(d: Seq<nat>, i: int, j: int)
    requires
        0 <= i <= j,
    ensures
        digits_number(d, i) <= digits_number(d, j),
    decreases j - i,
{
    if i < j {
        lemma_digits_number_mono(d, i, j - 1);
    }
}

proof fn lemma_ori_number_bound(s: Seq<Corner>, i: int)
    requires
        0 <= i <= 7,
        forall|k: int| 0 <= k < i ==> #[trigger] s[k].ori() < 3,
    ensures
        ori_number(s, i) < pow3(i),
    decreases i,
{
    if i > 0 {
        lemma_ori_number_bound(s, i - 1);
    }
}

/// The states of the cubes.
pub open spec fn states(v: Seq<Cube>) -> Seq<Seq<Corner>> {
    Seq::new(v.len(), |k: int| v[k]@)
}

/// The state after the rotations `rs`, in order.
pub open spec fn apply_rotations(s: Seq<Corner>, rs: Seq<Rotation>) -> Seq<Corner>
    decreases rs.len(),
{
    if rs.len() == 0 {
        s
    } else {
        apply_move(apply_rotations(s, rs.drop_last()), Move::Rotation(rs.last()))
    }
}

/// A solved cube: the solved cube seen from any side, that is, the solved
/// cube after some whole-cube rotations.
pub open spec fn is_solved_state(s: Seq<Corner>) -> bool {
    exists|rs: Seq<Rotation>| #[trigger] apply_rotations(solved_state(), rs) == s
}

/// Rotating a solved cube gives a solved cube.
pub proof fn law_rotation_keeps_solved(s: Seq<Corner>, r: Rotation)
    requires
        is_solved_state(s),
    ensures
        is_solved_state(apply_move(s, Move::Rotation(r))),
{
    let rs = choose|rs: Seq<Rotation>| #[trigger] apply_rotations(solved_state(), rs) == s;
    assert(rs.push(r).drop_last() =~= rs);
    assert(apply_rotations(solved_state(), rs.push(r)) == apply_move(s, Move::Rotation(r)));
}

proof fn lemma_solved_state_valid()
    ensures
        valid_state(solved_state()),
{
    broadcast use group_corner;

    let s = solved_state();
    assert forall|i: int| 0 <= i < 8 implies #[trigger] s[i].wf() && s[i].id() == i && s[i].ori()
        == 0 by {
        Corner::lemma_with_fields(i as nat, 0);
    }
    assert forall|i: int, j: int| 0 <= i < 8 && 0 <= j < 8 && i != j implies #[trigger] s[i].id()
        != #[trigger] s[j].id() by {
        assert(s[i].wf() && s[j].wf());
    }
    lemma_sum8(s);
    assert(s[0].wf() && s[1].wf() && s[2].wf() && s[3].wf() && s[4].wf() && s[5].wf() && s[6].wf()
        && s[7].wf());
}

proof fn lemma_rotations_valid(rs: Seq<Rotation>)
    ensures
        valid_state(apply_rotations(solved_state(), rs)),
    decreases rs.len(),
{
    if rs.len() == 0 {
        lemma_solved_state_valid();
    } else {
        lemma_rotations_valid(rs.drop_last());
        law_move_keeps_validity(
            apply_rotations(solved_state(), rs.drop_last()),
            Move::Rotation(rs.last()),
        );
    }
}

/// Solved states are valid.
pub proof fn law_solved_is_valid(s: Seq<Corner>)
    requires
        is_solved_state(s),
    ensures
        valid_state(s),
{
    let rs = choose|rs: Seq<Rotation>| #[trigger] apply_rotations(solved_state(), rs) == s;
    lemma_rotations_valid(rs);
}

/// A set of states that holds the solved cube and is closed under rotations
/// holds every solved state.
proof fn lemma_closed_holds_solved(class: Seq<Seq<Corner>>, rs: Seq<Rotation>)
    requires
        class.contains(solved_state()),
        forall|i: int, r: Rotation|
            0 <= i < class.len() ==> class.contains(#[trigger] apply_move(class[i], Move::Rotation(r))),
    ensures
        class.contains(apply_rotations(solved_state(), rs)),
    decreases rs.len(),
{
    if rs.len() > 0 {
        lemma_closed_holds_solved(class, rs.drop_last());
        let prev = apply_rotations(solved_state(), rs.drop_last());
        let i = choose|i: int| 0 <= i < class.len() && class[i] == prev;
        assert(class.contains(apply_move(class[i], Move::Rotation(rs.last()))));
    }
}

/// Distinct valid states are at most `STATE_SPACE` many.
proof fn lemma_distinct_states_bound(xs: Seq<Seq<Corner>>)
    requires
        xs.no_duplicates(),
        forall|i: int| 0 <= i < xs.len() ==> valid_state(#[trigger] xs[i]),
    ensures
        xs.len() <= 88_179_840,
{
    broadcast use vstd::seq_lib::seq_to_set_is_finite;

    let ds = Seq::new(xs.len(), |i: int| dense_of(xs[i]) as int);
    assert(ds.no_duplicates()) by {
        assert forall|i: int, j: int| 0 <= i < ds.len() && 0 <= j < ds.len() && i != j implies ds[i]
            != ds[j] by {
            law_from_dense_of_dense(xs[i]);
            law_from_dense_of_dense(xs[j]);
        }
    }
    ds.unique_seq_to_set();
    let range = vstd::set_lib::set_int_range(0, 88_179_840);
    vstd::set_lib::lemma_int_range(0, 88_179_840);
    assert(ds.to_set().subset_of(range)) by {
        assert forall|x: int| ds.to_set().contains(x) implies range.contains(x) by {
            let i = choose|i: int| 0 <= i < ds.len() && ds[i] == x;
            law_from_dense_of_dense(xs[i]);
        }
    }
    vstd::set_lib::lemma_len_subset(ds.to_set(), range);
}

impl Cube {
    /// The solved cube.
    #[allow(non_snake_case)]
    pub fn SOLVED() -> (c: Self)
        ensures
            c@ == solved_state(),
    {
        let c = Self(
            [
                Corner::new_with_id(0),
                Corner::new_with_id(1),
                Corner::new_with_id(2),
                Corner::new_with_id(3),
                Corner::new_with_id(4),
                Corner::new_with_id(5),
                Corner::new_with_id(6),
                Corner::new_with_id(7),
            ],
        );
        proof {
            broadcast use group_corner;

            assert forall|i: int| 0 <= i < 8 implies #[trigger] c@[i] == solved_state()[i] by {
                Corner::lemma_with_fields(i as nat, 0);
            }
            assert(c@ =~= solved_state());
        }
        c
    }

    /// The weights of the Lehmer digits: (7 - i)!.
    pub const FACTORIALS: [u32; 8] = [5040, 720, 120, 24, 6, 2, 1, 1];

    /// The number of orientation values that the dense index tells apart: 3^7.
    pub const ORI_SPACE: u32 = 2187;

    /// The number of valid cube states: 8! * 3^7.
    pub const STATE_SPACE: u32 = 88_179_840;

    fn factorial(i: usize) -> (w: u32)
        requires
            i < 8,
        ensures
            w == weight(i as int),
    {
        let w = Self::FACTORIALS[i];
        assert(Self::FACTORIALS@ == seq![5040u32, 720, 120, 24, 6, 2, 1, 1]);
        w
    }

    /// The ids of the corners, position by position.
    pub fn ids(&self) -> (r: [u8; 8])
        ensures
            forall|i: int| 0 <= i < 8 ==> #[trigger] r[i] == self@[i].id(),
    {
        [
            self.0[0].get_id(),
            self.0[1].get_id(),
            self.0[2].get_id(),
            self.0[3].get_id(),
            self.0[4].get_id(),
            self.0[5].get_id(),
            self.0[6].get_id(),
            self.0[7].get_id(),
        ]
    }

    /// The orientations of the corners, position by position.
    pub fn orientations(&self) -> (r: [u8; 8])
        ensures
            forall|i: int| 0 <= i < 8 ==> #[trigger] r[i] == self@[i].ori(),
    {
        [
            self.0[0].get_ori(),
            self.0[1].get_ori(),
            self.0[2].get_ori(),
            self.0[3].get_ori(),
            self.0[4].get_ori(),
            self.0[5].get_ori(),
            self.0[6].get_ori(),
            self.0[7].get_ori(),
        ]
    }

    /// The sum of the orientations modulo 3.
    pub fn twist_sum(&self) -> (r: u8)
        ensures
            r == twist_total(self@),
    {
        self.corners_are_wf();
        let oris = self.orientations();
        let mut acc: u8 = 0;
        let mut i: usize = 0;
        while i < 8
            invariant
                0 <= i <= 8,
                corners_wf(self@),
                forall|k: int| 0 <= k < 8 ==> #[trigger] oris[k] == self@[k].ori(),
                acc == ori_sum(self@, i as int) % 3,
            decreases 8 - i,
        {
            assert(self@[i as int].wf());
            proof {
                vstd::arithmetic::div_mod::lemma_add_mod_noop(
                    ori_sum(self@, i as int),
                    oris[i as int] as int,
                    3,
                );
                vstd::arithmetic::div_mod::lemma_small_mod(oris[i as int] as nat, 3);
                vstd::arithmetic::div_mod::lemma_small_mod(acc as nat, 3);
            }
            acc = (acc + oris[i]) % 3;
            i += 1;
        }
        acc
    }

    /// Whether the orientations sum to a multiple of 3, as in every state
    /// that turns can reach.
    pub fn is_twist_valid(&self) -> (r: bool)
        ensures
            r == (twist_total(self@) == 0),
    {
        self.twist_sum() == 0
    }

    /// The dense index of the state, below `STATE_SPACE`. On valid states it
    /// is one to one, and `from_dense_index` undoes it.
    pub fn dense_index(&self) -> (idx: u32)
        ensures
            idx == dense_of(self@),
            idx < Self::STATE_SPACE,
    {
        self.corners_are_wf();
        let ghost ids_spec = ids_of(self@);
        let ghost d = lehmer(ids_spec);
        proof {
            assert(digits_in_range(d)) by {
                assert forall|i: int| 0 <= i < d.len() implies #[trigger] d[i] < d.len() - i by {
                    lemma_count_le_len(ids_spec.subrange(i + 1, 8), ids_spec[i]);
                }
            }
            lemma_number_of_perm_digits(0);
            crate::index::lemma_perm_digits_of_number(d);
        }
        // --- Lehmer code ---
        let ids = self.ids();
        let mut perm_idx: u32 = 0;
        let mut i: usize = 0;
        while i < 8
            invariant
                0 <= i <= 8,
                forall|k: int| 0 <= k < 8 ==> #[trigger] ids[k] == ids_spec[k],
                ids_spec == ids_of(self@),
                d == lehmer(ids_spec),
                digits_number(d, 8) < 40320,
                perm_idx == digits_number(d, i as int),
            decreases 8 - i,
        {
            let mut smaller: u8 = 0;
            let mut j: usize = i + 1;
            while j < 8
                invariant
                    i < 8,
                    i + 1 <= j <= 8,
                    forall|k: int| 0 <= k < 8 ==> #[trigger] ids[k] == ids_spec[k],
                    ids_spec.len() == 8,
                    smaller == count_less(ids_spec.subrange(i + 1, j as int), ids_spec[i as int]),
                    smaller <= j - i - 1,
                decreases 8 - j,
            {
                assert(ids_spec.subrange(i + 1, j + 1).drop_last() =~= ids_spec.subrange(
                    i + 1,
                    j as int,
                ));
                if ids[j] < ids[i] {
                    smaller += 1;
                }
                j += 1;
            }
            assert(smaller == d[i as int]);
            proof {
                lemma_digits_number_mono(d, i + 1, 8);
            }
            perm_idx += (smaller as u32) * Self::factorial(i);
            i += 1;
        }
        // --- 7 orientations in base 3 ---
        let oris = self.orientations();
        let mut ori_idx: u32 = 0;
        let mut i: usize = 0;
        while i < 7
            invariant
                0 <= i <= 7,
                corners_wf(self@),
                forall|k: int| 0 <= k < 8 ==> #[trigger] oris[k] == self@[k].ori(),
                ori_idx == ori_number(self@, i as int),
                ori_idx < pow3(i as int),
            decreases 7 - i,
        {
            assert(self@[i as int].wf());
            proof {
                assert forall|k: int| 0 <= k < i + 1 implies #[trigger] self@[k].ori() < 3 by {
                    assert(self@[k].wf());
                }
                lemma_ori_number_bound(self@, i + 1);
            }
            ori_idx = ori_idx * 3 + oris[i] as u32;
            i += 1;
        }
        perm_idx * Self::ORI_SPACE + ori_idx
    }

    /// The state with the given dense index; the inverse of `dense_index`.
    #[verifier::rlimit(80)]
    pub fn from_dense_index(idx: u32) -> (c: Self)
        requires
            idx < Self::STATE_SPACE,
        ensures
            c@ == from_dense(idx as nat),
            valid_state(c@),
            dense_of(c@) == idx,
    {
        let ori_idx = idx % Self::ORI_SPACE;
        let perm_idx = idx / Self::ORI_SPACE;
        let ghost d = perm_digits(perm_idx as nat);
        proof {
            law_dense_of_from_dense(idx as nat);
            lemma_number_of_perm_digits(perm_idx as nat);
            lemma_number_of_ori_digits(ori_idx as nat);
        }
        // --- Decode Lehmer → permutation ---
        let mut digits = [0u8; 8];
        let mut p = perm_idx;
        let mut i: usize = 0;
        while i < 8
            invariant
                0 <= i <= 8,
                perm_idx < 40320,
                d == perm_digits(perm_idx as nat),
                digits_in_range(d),
                p == perm_rest(perm_idx as nat, i as int),
                forall|k: int| 0 <= k < i ==> #[trigger] digits[k] == d[k],
            decreases 8 - i,
        {
            let w = Self::factorial(i);
            assert(d[i as int] < 8 - i);
            digits[i] = (p / w) as u8;
            p = p % w;
            i += 1;
        }
        let mut available: [u8; 8] = [0, 1, 2, 3, 4, 5, 6, 7];
        let mut len: usize = 8;
        let mut ids = [0u8; 8];
        let ghost mut avail: Seq<nat> = identity8();
        assert(unlehmer(d, identity8()) == Seq::new(0, |k: int| ids[k] as nat) + unlehmer(
            d.skip(0),
            avail,
        )) by {
            assert(d.skip(0) =~= d);
            assert(Seq::new(0, |k: int| ids[k] as nat) + unlehmer(d, avail) =~= unlehmer(d, avail));
        }
        let mut i: usize = 0;
        while i < 8
            invariant
                0 <= i <= 8,
                len == 8 - i,
                avail.len() == len,
                forall|k: int| 0 <= k < len ==> #[trigger] available[k] as nat == avail[k],
                forall|k: int| 0 <= k < 8 ==> #[trigger] digits[k] == d[k],
                digits_in_range(d),
                d.len() == 8,
                unlehmer(d, identity8()) == Seq::new(i as nat, |k: int| ids[k] as nat) + unlehmer(
                    d.skip(i as int),
                    avail,
                ),
            decreases 8 - i,
        {
            let dd = digits[i] as usize;
            assert(d[i as int] < 8 - i);
            let ghost before = available;
            let ghost prefix = Seq::new(i as nat, |k: int| ids[k] as nat);
            ids[i] = available[dd];
            let mut j: usize = dd;
            while j + 1 < len
                invariant
                    dd <= j < len,
                    len <= 8,
                    forall|k: int| 0 <= k < dd ==> #[trigger] available[k] == before[k],
                    forall|k: int| dd <= k < j ==> #[trigger] available[k] == before[k + 1],
                    forall|k: int| j <= k < 8 ==> #[trigger] available[k] == before[k],
                decreases len - j,
            {
                available[j] = available[j + 1];
                j += 1;
            }
            proof {
                let ds = d.skip(i as int);
                assert(ds[0] == d[i as int]);
                assert(ds.drop_first() =~= d.skip(i + 1));
                assert(unlehmer(ds, avail) == seq![avail[dd as int]] + unlehmer(
                    ds.drop_first(),
                    avail.remove(dd as int),
                ));
                assert(Seq::new((i + 1) as nat, |k: int| ids[k] as nat) =~= prefix + seq![
                    avail[dd as int],
                ]);
                avail = avail.remove(dd as int);
            }
            len -= 1;
            i += 1;
        }
        proof {
            assert(d.skip(8) =~= Seq::<nat>::empty());
        }
        // --- Decode 7 orientations, derive the 8th ---
        let mut oris = [0u8; 8];
        let mut o = ori_idx;
        let mut i: usize = 7;
        proof {
            vstd::arithmetic::div_mod::lemma_fundamental_div_mod_converse(
                ori_idx as int,
                1,
                ori_idx as int,
                0,
            );
        }
        while i > 0
            invariant
                0 <= i <= 7,
                o == (ori_idx as nat) / pow3(7 - i),
                forall|k: int| i <= k < 7 ==> #[trigger] oris[k] == ori_digit(ori_idx as nat, k),
            decreases i,
        {
            i -= 1;
            oris[i] = (o % 3) as u8;
            proof {
                vstd::arithmetic::div_mod::lemma_div_denominator(
                    ori_idx as int,
                    pow3(6 - i) as int,
                    3,
                );
            }
            o = o / 3;
        }
        let mut sum: u8 = 0;
        let mut k: usize = 0;
        while k < 7
            invariant
                0 <= k <= 7,
                forall|m: int| 0 <= m < 7 ==> #[trigger] oris[m] == ori_digit(ori_idx as nat, m),
                forall|m: int| 0 <= m < 7 ==> #[trigger] ori_digit(ori_idx as nat, m) < 3,
                sum == ori_digits_sum(ori_idx as nat, k as int) % 3,
            decreases 7 - k,
        {
            proof {
                vstd::arithmetic::div_mod::lemma_add_mod_noop(
                    ori_digits_sum(ori_idx as nat, k as int) as int,
                    oris[k as int] as int,
                    3,
                );
                vstd::arithmetic::div_mod::lemma_small_mod(oris[k as int] as nat, 3);
                vstd::arithmetic::div_mod::lemma_small_mod(sum as nat, 3);
            }
            sum = (sum + oris[k]) % 3;
            k += 1;
        }
        oris[7] = (3 - sum) % 3;
        assert(oris[7] == last_ori(ori_idx as nat));
        let ghost u = unlehmer(d, identity8());
        proof {
            crate::index::lemma_identity8();
            crate::rank::lemma_lehmer_unlehmer(d, identity8());
        }
        assert forall|m: int| 0 <= m < 8 implies #[trigger] ids[m] as nat == u[m] && ids[m] < 8 && oris[m]
            < 3 by {
            assert(u.contains(u[m]));
            assert(from_dense(idx as nat)[m].wf());
            Corner::lemma_with_fields(
                u[m],
                if m < 7 {
                    ori_digit((idx % 2187) as nat, m)
                } else {
                    last_ori((idx % 2187) as nat)
                },
            );
        }
        let c = Self(
            [
                Corner::new_with_id_ori(ids[0], oris[0]),
                Corner::new_with_id_ori(ids[1], oris[1]),
                Corner::new_with_id_ori(ids[2], oris[2]),
                Corner::new_with_id_ori(ids[3], oris[3]),
                Corner::new_with_id_ori(ids[4], oris[4]),
                Corner::new_with_id_ori(ids[5], oris[5]),
                Corner::new_with_id_ori(ids[6], oris[6]),
                Corner::new_with_id_ori(ids[7], oris[7]),
            ],
        );
        proof {
            assert forall|m: int| 0 <= m < 8 implies #[trigger] c@[m] == from_dense(idx as nat)[m] by {
                Corner::lemma_with_fields(
                    u[m],
                    if m < 7 {
                        ori_digit((idx % 2187) as nat, m)
                    } else {
                        last_ori((idx % 2187) as nat)
                    },
                );
                Corner::lemma_ext(c@[m], from_dense(idx as nat)[m]);
            }
            assert(c@ =~= from_dense(idx as nat));
        }
        c
    }

    /// Whether some cube in `v` is in the state of `c`.
    fn contains_cube(v: &Vec<Cube>, c: &Cube) -> (r: bool)
        ensures
            r == (exists|j: int| 0 <= j < v.len() && #[trigger] v@[j]@ == c@),
    {
        let mut j: usize = 0;
        while j < v.len()
            invariant
                0 <= j <= v.len(),
                forall|k: int| 0 <= k < j ==> #[trigger] v@[k]@ != c@,
            decreases v.len() - j,
        {
            if v[j].same_state(c) {
                return true;
            }
            j += 1;
        }
        false
    }

    /// The 24 whole-cube rotations of `SOLVED`, each once, in the order in
    /// which a breadth-first search over `Rotation::ALL` reaches them: a cube
    /// is solved iff its state is the state of one of them.
    pub fn solved_class() -> (class: Vec<Cube>)
        ensures
            class@.len() > 0,
            class@[0]@ == solved_state(),
            forall|i: int| 0 <= i < class@.len() ==> is_solved_state(#[trigger] class@[i]@),
            forall|s: Seq<Corner>|
                is_solved_state(s) ==> exists|i: int| 0 <= i < class@.len() && #[trigger] class@[i]@ == s,
            forall|i: int, j: int| 0 <= i < j < class@.len() ==> #[trigger] class@[i]@ != #[trigger] class@[j]@,
            class@.len() == 24,
            forall|i: int| 0 <= i < class@.len() ==> #[trigger] class@[i]@ == solved_at(i),
    {
        let mut all: Vec<Cube> = Vec::new();
        all.push(Cube::SOLVED());
        let ghost mut wit: Seq<Seq<Rotation>> = seq![Seq::empty()];
        let rots = Rotation::ALL();
        let mut head: usize = 0;
        proof {
            lemma_solved_state_valid();
            lemma_class_ends();
            assert(solved_at(0) =~= solved_state());
        }
        while head < all.len()
            invariant
                0 <= head <= all.len(),
                head <= 24,
                all@.len() == count_at(head as int, 0),
                forall|k: int| 0 <= k < all@.len() ==> #[trigger] all@[k]@ == solved_at(k),
                forall|j: int| 0 <= j < 6 ==> #[trigger] rots[j] == rotation_at(j),
                all@.len() > 0,
                all@[0]@ == solved_state(),
                wit.len() == all@.len(),
                forall|k: int| 0 <= k < all@.len() ==> apply_rotations(solved_state(), #[trigger] wit[k]) == all@[k]@,
                forall|k: int| 0 <= k < all@.len() ==> valid_state(#[trigger] all@[k]@),
                forall|i: int, j: int| 0 <= i < j < all@.len() ==> #[trigger] all@[i]@ != #[trigger] all@[j]@,
                forall|r: Rotation| #[trigger] rots@.contains(r),
                forall|k: int, r: Rotation|
                    0 <= k < head ==> states(all@).contains(
                        #[trigger] apply_move(states(all@)[k], Move::Rotation(r)),
                    ),
            decreases 7 * (88_179_840 - all@.len()) + (all@.len() - head),
        {
            proof {
                assert(states(all@).no_duplicates());
                lemma_distinct_states_bound(states(all@));
            }
            proof {
                if head >= 24 {
                    lemma_class_ends();
                    assert(false);
                }
            }
            let c = all[head];
            let ghost len0 = all@.len();
            let mut ri: usize = 0;
            while ri < 6
                invariant
                    0 <= ri <= 6,
                    0 <= head < all@.len(),
                    head < 24,
                    all@.len() == count_at(head as int, ri as int),
                    forall|k: int| 0 <= k < all@.len() ==> #[trigger] all@[k]@ == solved_at(k),
                    forall|j: int| 0 <= j < 6 ==> #[trigger] rots[j] == rotation_at(j),
                    len0 <= all@.len() <= len0 + ri,
                    c@ == all@[head as int]@,
                    all@[0]@ == solved_state(),
                    wit.len() == all@.len(),
                    forall|k: int| 0 <= k < all@.len() ==> apply_rotations(solved_state(), #[trigger] wit[k]) == all@[k]@,
                    forall|k: int| 0 <= k < all@.len() ==> valid_state(#[trigger] all@[k]@),
                    forall|i: int, j: int| 0 <= i < j < all@.len() ==> #[trigger] all@[i]@ != #[trigger] all@[j]@,
                    forall|k: int, r: Rotation|
                        0 <= k < head ==> states(all@).contains(
                            #[trigger] apply_move(states(all@)[k], Move::Rotation(r)),
                        ),
                    forall|q: int|
                        0 <= q < ri ==> states(all@).contains(
                            apply_move(c@, Move::Rotation(#[trigger] rots[q])),
                        ),
                decreases 6 - ri,
            {
                let n = c.applied(Move::Rotation(rots[ri]));
                let ghost old_states = states(all@);
                let ghost old_all = all@;
                proof {
                    lemma_class_step(head as int, ri as int);
                    lemma_rotate(head as int, ri as int);
                    assert(n@ == solved_at(rotated_index(head as int, ri as int)));
                }
                let found = Self::contains_cube(&all, &n);
                proof {
                    let ix = rotated_index(head as int, ri as int);
                    if found {
                        let j = choose|j: int| 0 <= j < all@.len() && #[trigger] all@[j]@ == n@;
                        if j != ix {
                            lemma_listed_distinct(j, ix);
                        }
                        assert(ix < all@.len());
                    } else {
                        if ix < all@.len() {
                            assert(all@[ix]@ == n@);
                        }
                    }
                }
                if !found {
                    proof {
                        law_move_keeps_validity(c@, Move::Rotation(rots[ri as int]));
                        let w = wit[head as int].push(rots[ri as int]);
                        assert(w.drop_last() =~= wit[head as int]);
                        wit = wit.push(w);
                    }
                    all.push(n);
                    assert(forall|k: int| 0 <= k < old_all.len() ==> all@[k] == old_all[k]);
                    assert(states(all@) =~= old_states.push(n@));
                    assert(states(all@)[all@.len() - 1] == n@);
                } else {
                    let ghost j = choose|j: int| 0 <= j < all@.len() && #[trigger] all@[j]@ == n@;
                    assert(states(all@)[j] == n@);
                }
                proof {
                    assert forall|x: Seq<Corner>| old_states.contains(x) implies states(
                        all@,
                    ).contains(x) by {
                        let k = choose|k: int| 0 <= k < old_states.len() && old_states[k] == x;
                        assert(states(all@)[k] == x);
                    }
                    assert(forall|q: int| 0 <= q < ri ==> old_states.contains(
                        apply_move(c@, Move::Rotation(#[trigger] rots[q])),
                    ));
                    assert(forall|k: int, r: Rotation|
                        0 <= k < head ==> old_states.contains(
                            #[trigger] apply_move(old_states[k], Move::Rotation(r)),
                        ));
                    assert forall|k: int| 0 <= k < head implies #[trigger] states(all@)[k]
                        == old_states[k] by {}
                }
                ri += 1;
            }
            assert forall|r: Rotation| states(all@).contains(
                #[trigger] apply_move(states(all@)[head as int], Move::Rotation(r)),
            ) by {
                assert(rots@.contains(r));
                let q = choose|q: int| 0 <= q < 6 && rots@[q] == r;
                assert(rots[q] == r);
            }
            proof {
                assert(states(all@).no_duplicates());
                lemma_distinct_states_bound(states(all@));
                lemma_class_step(head as int, 0);
            }
            head += 1;
        }
        proof {
            if head < 24 {
                lemma_class_step(head as int, 0);
            }
            let views = states(all@);
            assert(views[0] == solved_state());
            assert forall|s: Seq<Corner>| is_solved_state(s) implies exists|i: int|
                0 <= i < all@.len() && #[trigger] all@[i]@ == s by {
                let rs = choose|rs: Seq<Rotation>| #[trigger] apply_rotations(solved_state(), rs) == s;
                lemma_closed_holds_solved(views, rs);
                let i = choose|i: int| 0 <= i < views.len() && views[i] == s;
                assert(all@[i]@ == s);
            }
            assert forall|i: int| 0 <= i < all@.len() implies is_solved_state(#[trigger] all@[i]@) by {
                assert(apply_rotations(solved_state(), wit[i]) == all@[i]@);
            }
            assert forall|i: int| 0 <= i < views.len() implies is_solved_state(#[trigger] views[i]) by {
                assert(views[i] == all@[i]@);
            }
            assert forall|s: Seq<Corner>| is_solved_state(s) implies exists|i: int|
                0 <= i < views.len() && #[trigger] views[i] == s by {
                let i = choose|i: int| 0 <= i < all@.len() && #[trigger] all@[i]@ == s;
                assert(views[i] == s);
            }
            assert forall|i: int, j: int| 0 <= i < j < views.len() implies #[trigger] views[i]
                != #[trigger] views[j] by {
                assert(views[i] == all@[i]@ && views[j] == all@[j]@);
            }
            crate::solved_states::lemma_solved_count(views);
        }
        all
    }

    /// Whether the cube is solved: the solved cube seen from some side.
    pub fn is_solved(&self) -> (r: bool)
        ensures
            r == is_solved_state(self@),
    {
        let class = Self::solved_class();
        Self::contains_cube(&class, self)
    }

    /// Every corner of a cube is well formed.
    pub(crate) fn corners_are_wf(&self)
        ensures
            corners_wf(self@),
    {
        let c0 = self.0[0];
        let c1 = self.0[1];
        let c2 = self.0[2];
        let c3 = self.0[3];
        let c4 = self.0[4];
        let c5 = self.0[5];
        let c6 = self.0[6];
        let c7 = self.0[7];
        proof {
            use_type_invariant(&c0);
            use_type_invariant(&c1);
            use_type_invariant(&c2);
            use_type_invariant(&c3);
            use_type_invariant(&c4);
            use_type_invariant(&c5);
            use_type_invariant(&c6);
            use_type_invariant(&c7);
        }
    }

    /// The corner twisted by `d` more steps.
    fn turn(c: Corner, d: u8) -> (r: Corner)
        requires
            d < 3,
        ensures
            r == turned(c, d as nat),
    {
        broadcast use group_corner;

        let mut r = c;
        r.set_ori((c.get_ori() + d) % 3);
        assert(r.id() == turned(c, d as nat).id());
        r
    }

    /// The cube after the move.
    pub fn applied(self, m: Move) -> (r: Self)
        ensures
            r@ == apply_move(self@, m),
    {
        match m {
            Move::Twist(Twist(layer, dir)) => self._apply_twist(layer, dir),
            Move::Rotation(Rotation(axis, dir)) => self._apply_rotation(axis, dir),
        }
    }

    fn _apply_twist(self, layer: Layer, dir: Direction) -> (r: Self)
        ensures
            r@ == twist_state(self@, layer, dir),
    {
        let (indices, delta) = Self::face_table(layer);
        assert(indices[0] == face_positions(layer)[0] && indices[1] == face_positions(layer)[1]
            && indices[2] == face_positions(layer)[2] && indices[3] == face_positions(layer)[3]);
        assert(delta[0] == face_deltas(layer)[0] && delta[1] == face_deltas(layer)[1]
            && delta[2] == face_deltas(layer)[2] && delta[3] == face_deltas(layer)[3]);
        let c0 = self.0[indices[0]];
        let c1 = self.0[indices[1]];
        let c2 = self.0[indices[2]];
        let c3 = self.0[indices[3]];
        let (n0, n1, n2, n3) = match dir {
            Direction::CW => (c1, c2, c3, c0),
            Direction::CCW => (c3, c0, c1, c2),
        };
        let mut out = self;
        out.0[indices[0]] = Self::turn(n0, delta[0]);
        out.0[indices[1]] = Self::turn(n1, delta[1]);
        out.0[indices[2]] = Self::turn(n2, delta[2]);
        out.0[indices[3]] = Self::turn(n3, delta[3]);
        assert(out@ =~= twist_state(self@, layer, dir));
        out
    }

    fn _apply_rotation(self, axis: Axis, dir: Direction) -> (r: Self)
        ensures
            r@ == apply_move(self@, Move::Rotation(Rotation(axis, dir))),
    {
        let layers = match axis {
            Axis::X => [Layer::Right, Layer::Left],
            Axis::Y => [Layer::Top, Layer::Bottom],
            Axis::Z => [Layer::Front, Layer::Back],
        };
        self._apply_twist(layers[0], dir)._apply_twist(layers[1], dir.inverse())
    }

    /// The positions of a layer in the order a clockwise twist carries them,
    /// and how much each corner that lands on them is twisted.
    pub fn face_table(layer: Layer) -> (t: ([usize; 4], [u8; 4]))
        ensures
            forall|k: int| 0 <= k < 4 ==> t.0[k] == face_positions(layer)[k],
            forall|k: int| 0 <= k < 4 ==> t.1[k] == face_deltas(layer)[k],
    {
        match layer {
            Layer::Top => ([0, 3, 2, 1], [0, 0, 0, 0]),
            Layer::Bottom => ([4, 5, 6, 7], [0, 0, 0, 0]),
            Layer::Front => ([2, 3, 7, 6], [1, 2, 1, 2]),
            Layer::Back => ([1, 5, 4, 0], [2, 1, 2, 1]),
            Layer::Right => ([1, 2, 6, 5], [1, 2, 1, 2]),
            Layer::Left => ([0, 4, 7, 3], [2, 1, 2, 1]),
        }
    }
}

impl Default for Cube {
    fn default() -> (c: Self)
        ensures
            c@ == solved_state(),
    {
        Self::SOLVED()
    }
}

/// `x` with the entries at `a` and `b` exchanged.
spec fn swap_at(x: Seq<nat>, a: int, b: int) -> Seq<nat> {
    x.update(a, x[b]).update(b, x[a])
}

proof fn lemma_swap_multiset(x: Seq<nat>, a: int, b: int)
    requires
        0 <= a < x.len(),
        0 <= b < x.len(),
    ensures
        swap_at(x, a, b).len() == x.len(),
        swap_at(x, a, b).to_multiset() == x.to_multiset(),
{
    broadcast use {
        vstd::seq_lib::group_to_multiset_ensures,
        vstd::multiset::group_multiset_properties,
        vstd::multiset::group_multiset_axioms,
    };

    let y = x.update(a, x[b]);
    vstd::seq_lib::to_multiset_update(x, a, x[b]);
    vstd::seq_lib::to_multiset_update(y, b, x[a]);
    if a == b {
        assert(swap_at(x, a, b) =~= x);
    } else {
        assert(y[b] == x[b]);
        assert(swap_at(x, a, b).to_multiset() =~= x.to_multiset());
    }
}

/// The ids after a twist are the ids before it, with those of the turned
/// layer moved round.
proof fn lemma_twist_id_counts(s: Seq<Corner>, layer: Layer, dir: Direction)
    requires
        s.len() == 8,
    ensures
        ids_of(twist_state(s, layer, dir)).to_multiset() == ids_of(s).to_multiset(),
        twist_state(s, layer, dir).len() == 8,
{
    broadcast use group_corner;

    let p = face_positions(layer);
    let x = ids_of(s);
    let y = ids_of(twist_state(s, layer, dir));
    let (a, b, c, e) = if dir == Direction::CW {
        (p[0], p[1], p[2], p[3])
    } else {
        (p[0], p[3], p[2], p[1])
    };
    let z = swap_at(swap_at(swap_at(x, a, b), b, c), c, e);
    assert forall|i: int| 0 <= i < 8 implies #[trigger] y[i] == z[i] by {
        let t = twist_state(s, layer, dir);
        if i == p[0] || i == p[1] || i == p[2] || i == p[3] {
            let k: int = if i == p[0] {
                0
            } else if i == p[1] {
                1
            } else if i == p[2] {
                2
            } else {
                3
            };
            let off: int = if dir == Direction::CW {
                1
            } else {
                3
            };
            let src = s[p[(k + off) % 4]];
            Corner::lemma_fields_bounded(src);
            Corner::lemma_with_fields(src.id(), (src.ori() + face_deltas(layer)[k]) % 3);
            assert(t[i].id() == src.id());
        }
    }
    assert(y =~= z);
    lemma_swap_multiset(x, a, b);
    lemma_swap_multiset(swap_at(x, a, b), b, c);
    lemma_swap_multiset(swap_at(swap_at(x, a, b), b, c), c, e);
}

/// A move keeps the ids of a cube, each as often as before, whatever the
/// cube holds.
pub proof fn law_move_keeps_ids(s: Seq<Corner>, m: Move)
    requires
        s.len() == 8,
    ensures
        apply_move(s, m).len() == 8,
        ids_of(apply_move(s, m)).to_multiset() == ids_of(s).to_multiset(),
{
    match m {
        Move::Twist(Twist(layer, dir)) => lemma_twist_id_counts(s, layer, dir),
        Move::Rotation(Rotation(axis, dir)) => {
            let (l0, l1) = rotation_layers(axis);
            lemma_twist_id_counts(s, l0, dir);
            lemma_twist_id_counts(twist_state(s, l0, dir), l1, dir.inverse());
        },
    }
}

} // verus!
