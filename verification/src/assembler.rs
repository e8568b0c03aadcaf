//! Reading a cube from the stickers that a camera sees: four columns, each
//! showing two faces of a top corner and two faces of the bottom corner
//! below it.

use vstd::prelude::*;
use crate::cube::{group_corner, ids_distinct, twist_total, valid_state, Corner, Cube};
use crate::index::{id_occurs, lemma_distinct_iff_cover};

verus! {

/// A sticker color.
#[derive(Debug, Clone, Copy, PartialEq, Eq, Structural, PartialOrd, Ord, Hash)]
pub enum Color {
    White,
    Yellow,
    Red,
    Orange,
    Green,
    Blue,
}

impl Color {
    /// Whether the color is that of the top or the bottom face.
    #[verifier::allow_in_spec]
    pub fn is_ud(self) -> bool
        returns
            self == Color::White || self == Color::Yellow,
    {
        match self {
            Color::White | Color::Yellow => true,
            _ => false,
        }
    }
}

/// The three colors of a corner piece, its top or bottom color first.
#[derive(Debug, Clone, Copy, PartialEq, Eq, PartialOrd, Ord, Hash)]
pub struct ColoredCorner(pub [Color; 3]);

/// The four stickers of a column: the two visible faces of a top corner
/// and of the bottom corner below it.
#[derive(Debug, Clone, Copy, PartialEq, Eq, Structural, PartialOrd, Ord, Hash)]
pub struct Column {
    pub topleft: Color,
    pub topright: Color,
    pub botleft: Color,
    pub botright: Color,
}

/// The colors of corner piece `i`, in the order of `ColoredCorner::ALL`.
pub open spec fn corner_colors(i: int) -> Seq<Color> {
    if i == 0 {
        seq![Color::White, Color::Red, Color::Green]
    } else if i == 1 {
        seq![Color::White, Color::Green, Color::Orange]
    } else if i == 2 {
        seq![Color::White, Color::Orange, Color::Blue]
    } else if i == 3 {
        seq![Color::White, Color::Blue, Color::Red]
    } else if i == 4 {
        seq![Color::Yellow, Color::Green, Color::Red]
    } else if i == 5 {
        seq![Color::Yellow, Color::Orange, Color::Green]
    } else if i == 6 {
        seq![Color::Yellow, Color::Blue, Color::Orange]
    } else {
        seq![Color::Yellow, Color::Red, Color::Blue]
    }
}

/// Whether `a` and then `b` follow each other on piece `i`, reading its
/// colors round in their order.
pub open spec fn has_pair(i: int, a: Color, b: Color) -> bool {
    let c = corner_colors(i);
    (c[0] == a && c[1] == b) || (c[1] == a && c[2] == b) || (c[2] == a && c[0] == b)
}

/// The first piece from `i` on that shows `a` and then `b`.
pub open spec fn pair_corner_from(a: Color, b: Color, i: int) -> Option<int>
    decreases 8 - i,
{
    if i >= 8 || i < 0 {
        None
    } else if has_pair(i, a, b) {
        Some(i)
    } else {
        pair_corner_from(a, b, i + 1)
    }
}

/// The piece that shows `a` and then `b`, if any.
pub open spec fn pair_corner(a: Color, b: Color) -> Option<int> {
    pair_corner_from(a, b, 0)
}

impl ColoredCorner {
    /// The eight corner pieces, in the order of their ids.
    #[allow(non_snake_case)]
    pub fn ALL() -> (all: [Self; 8])
        ensures
            forall|i: int| 0 <= i < 8 ==> #[trigger] all[i].0@ == corner_colors(i),
    {
        let all = [
            Self([Color::White, Color::Red, Color::Green]),
            Self([Color::White, Color::Green, Color::Orange]),
            Self([Color::White, Color::Orange, Color::Blue]),
            Self([Color::White, Color::Blue, Color::Red]),
            Self([Color::Yellow, Color::Green, Color::Red]),
            Self([Color::Yellow, Color::Orange, Color::Green]),
            Self([Color::Yellow, Color::Blue, Color::Orange]),
            Self([Color::Yellow, Color::Red, Color::Blue]),
        ];
        assert(all[0].0@ =~= corner_colors(0));
        assert(all[1].0@ =~= corner_colors(1));
        assert(all[2].0@ =~= corner_colors(2));
        assert(all[3].0@ =~= corner_colors(3));
        assert(all[4].0@ =~= corner_colors(4));
        assert(all[5].0@ =~= corner_colors(5));
        assert(all[6].0@ =~= corner_colors(6));
        assert(all[7].0@ =~= corner_colors(7));
        all
    }

    /// The id of the piece on which `a` is followed by `b`, reading its
    /// colors round in their order; `None` if no piece has them so.
    pub fn find_from_2_colors(a: Color, b: Color) -> (r: Option<usize>)
        ensures
            match r {
                Some(i) => pair_corner(a, b) == Some(i as int),
                None => pair_corner(a, b) is None,
            },
    {
        let all = Self::ALL();
        let mut i: usize = 0;
        while i < 8
            invariant
                0 <= i <= 8,
                forall|k: int| 0 <= k < 8 ==> #[trigger] all[k].0@ == corner_colors(k),
                pair_corner(a, b) == pair_corner_from(a, b, i as int),
            decreases 8 - i,
        {
            let c = all[i].0;
            assert(c@ == corner_colors(i as int));
            if c[0] == a && c[1] == b || c[1] == a && c[2] == b || c[2] == a && c[0] == b {
                return Some(i);
            }
            i += 1;
        }
        None
    }
}

/// The orientation that the stickers of a top corner show.
pub open spec fn top_ori(col: Column) -> nat {
    if col.topleft.is_ud() {
        2
    } else if col.topright.is_ud() {
        1
    } else {
        0
    }
}

/// The orientation that the stickers of a bottom corner show.
pub open spec fn bottom_ori(col: Column) -> nat {
    if col.botleft.is_ud() {
        1
    } else if col.botright.is_ud() {
        2
    } else {
        0
    }
}

/// The piece that the top stickers of a column show.
pub open spec fn top_piece(col: Column) -> Option<int> {
    pair_corner(col.topright, col.topleft)
}

/// The piece that the bottom stickers of a column show.
pub open spec fn bottom_piece(col: Column) -> Option<int> {
    pair_corner(col.botleft, col.botright)
}

/// Every column shows a piece at the top and at the bottom.
pub open spec fn readable(cols: Seq<Column>) -> bool {
    forall|k: int| 0 <= k < 4 ==> #[trigger] readable_at(cols, k)
}

/// The corners that readable columns show: column `k` gives position `k`
/// and the position `k + 4` below it.
pub open spec fn read_corners(cols: Seq<Column>) -> Seq<Corner> {
    Seq::new(
        8,
        |i: int|
            if i < 4 {
                Corner::with(top_piece(cols[i])->0 as nat, top_ori(cols[i]))
            } else {
                Corner::with(bottom_piece(cols[i - 4])->0 as nat, bottom_ori(cols[i - 4]))
            },
    )
}

/// The state that four columns show: there is one when every column shows
/// two pieces, every piece shows once and the orientations add up to a
/// multiple of 3.
pub open spec fn assembled(cols: Seq<Column>) -> Option<Seq<Corner>> {
    if readable(cols) && ids_distinct(read_corners(cols)) && twist_total(read_corners(cols)) == 0 {
        Some(read_corners(cols))
    } else {
        None
    }
}

/// The columns that a camera sees of a state.
pub open spec fn columns_of(s: Seq<Corner>) -> Seq<Column> {
    Seq::new(
        4,
        |k: int|
            {
                let top = corner_colors(s[k].id() as int);
                let bot = corner_colors(s[k + 4].id() as int);
                let to = s[k].ori() as int;
                let bo = s[k + 4].ori() as int;
                Column {
                    topright: top[(4 - to) % 3],
                    topleft: top[(5 - to) % 3],
                    botleft: bot[(4 - bo) % 3],
                    botright: bot[(5 - bo) % 3],
                }
            },
    )
}

proof fn lemma_colors(i: int)
    requires
        0 <= i < 8,
    ensures
        corner_colors(i).len() == 3,
        corner_colors(i)[0].is_ud(),
        !corner_colors(i)[1].is_ud(),
        !corner_colors(i)[2].is_ud(),
{
}

/// Each piece, and no piece before it, shows each pair of its colors that
/// follow each other.
proof fn lemma_pair_finds(i: int, r: int)
    requires
        0 <= i < 8,
        0 <= r < 3,
    ensures
        pair_corner(corner_colors(i)[r], corner_colors(i)[(r + 1) % 3]) == Some(i),
{
    reveal_with_fuel(pair_corner_from, 9);
}

/// The piece that a pair names is a piece that has the pair.
proof fn lemma_pair_found(a: Color, b: Color, from: int)
    requires
        0 <= from,
        pair_corner_from(a, b, from) is Some,
    ensures
        from <= pair_corner_from(a, b, from)->0 < 8,
        has_pair(pair_corner_from(a, b, from)->0, a, b),
    decreases 8 - from,
{
    if from < 8 && !has_pair(from, a, b) {
        lemma_pair_found(a, b, from + 1);
    }
}

/// Reading back the columns of a valid state gives the state.
pub proof fn law_assemble_columns_of(s: Seq<Corner>)
    requires
        valid_state(s),
    ensures
        assembled(columns_of(s)) == Some(s),
{
    broadcast use group_corner;

    let cols = columns_of(s);
    assert forall|k: int| 0 <= k < 4 implies {
        &&& top_piece(#[trigger] cols[k]) == Some(s[k].id() as int)
        &&& top_ori(cols[k]) == s[k].ori()
        &&& bottom_piece(cols[k]) == Some(s[k + 4].id() as int)
        &&& bottom_ori(cols[k]) == s[k + 4].ori()
    } by {
        assert(s[k].wf() && s[k + 4].wf());
        let to = s[k].ori() as int;
        let bo = s[k + 4].ori() as int;
        lemma_colors(s[k].id() as int);
        lemma_colors(s[k + 4].id() as int);
        lemma_pair_finds(s[k].id() as int, (4 - to) % 3);
        lemma_pair_finds(s[k + 4].id() as int, (4 - bo) % 3);
        assert((((4 - to) % 3) + 1) % 3 == (5 - to) % 3);
        assert((((4 - bo) % 3) + 1) % 3 == (5 - bo) % 3);
    }
    let r = read_corners(cols);
    assert forall|i: int| 0 <= i < 8 implies #[trigger] r[i] == s[i] by {
        assert(s[i].wf());
        if i < 4 {
            assert(top_piece(cols[i]) == Some(s[i].id() as int));
            Corner::lemma_with_fields(s[i].id(), top_ori(cols[i]));
        } else {
            assert(bottom_piece(cols[i - 4]) == Some(s[i].id() as int));
            Corner::lemma_with_fields(s[i].id(), bottom_ori(cols[i - 4]));
        }
        Corner::lemma_ext(r[i], s[i]);
    }
    assert(r =~= s);
}

/// Columns that can be read show exactly the state that reading them
/// gives, and that state is valid.
pub proof fn law_columns_of_assembled(cols: Seq<Column>)
    requires
        cols.len() == 4,
        assembled(cols) is Some,
    ensures
        valid_state(assembled(cols)->0),
        columns_of(assembled(cols)->0) == cols,
{
    broadcast use group_corner;

    let s = read_corners(cols);
    assert forall|k: int| 0 <= k < 4 implies #[trigger] columns_of(s)[k] == cols[k] by {
        let col = cols[k];
        assert(readable_at(cols, k));
        lemma_pair_found(col.topright, col.topleft, 0);
        lemma_pair_found(col.botleft, col.botright, 0);
        let ti = top_piece(col)->0;
        let bi = bottom_piece(col)->0;
        lemma_colors(ti);
        lemma_colors(bi);
        assert(s[k] == Corner::with(ti as nat, top_ori(col)));
        assert(s[k + 4] == Corner::with(bi as nat, bottom_ori(col)));
    }
    assert(columns_of(s) =~= cols);
    assert forall|i: int| 0 <= i < 8 implies #[trigger] s[i].wf() by {
        if i < 4 {
            assert(readable_at(cols, i));
            lemma_pair_found(cols[i].topright, cols[i].topleft, 0);
        } else {
            assert(readable_at(cols, i - 4));
            lemma_pair_found(cols[i - 4].botleft, cols[i - 4].botright, 0);
        }
    }
}

/// Whether position `p` is one that the first `n` columns fill.
pub open spec fn filled(p: int, n: int) -> bool {
    (0 <= p < n) || (4 <= p < 4 + n)
}

/// Reads a cube from four columns; `columns[k]` shows positions `k` and
/// `k + 4`. `None` when a column shows no piece, when a piece shows
/// twice, or when the orientations do not add up to a multiple of 3.
pub fn assemble_cube(columns: [Column; 4]) -> (r: Option<Cube>)
    ensures
        match r {
            Some(c) => assembled(columns@) == Some(c@),
            None => assembled(columns@) is None,
        },
{
    broadcast use group_corner;

    let mut cube = Cube::default();
    let mut found = [false; 8];
    let mut col_idx: usize = 0;
    while col_idx < 4
        invariant
            0 <= col_idx <= 4,
            cube@.len() == 8,
            forall|k: int| 0 <= k < col_idx ==> #[trigger] readable_at(columns@, k),
            forall|p: int|
                0 <= p < 8 && filled(p, col_idx as int) ==> #[trigger] cube@[p] == read_corners(
                    columns@,
                )[p],
            forall|y: int|
                0 <= y < 8 ==> (#[trigger] found@[y] <==> exists|p: int|
                    0 <= p < 8 && filled(p, col_idx as int) && cube@[p].id() == y),
        decreases 4 - col_idx,
    {
        let col = columns[col_idx];
        let top_id = match ColoredCorner::find_from_2_colors(col.topright, col.topleft) {
            Some(i) => i,
            None => {
                proof {
                    assert(!readable_at(columns@, col_idx as int));
                }
                return None;
            },
        };
        let bot_id = match ColoredCorner::find_from_2_colors(col.botleft, col.botright) {
            Some(i) => i,
            None => {
                proof {
                    assert(!readable_at(columns@, col_idx as int));
                }
                return None;
            },
        };
        proof {
            lemma_pair_found(col.topright, col.topleft, 0);
            lemma_pair_found(col.botleft, col.botright, 0);
        }
        let ghost old_cube = cube@;
        let ghost old_found = found@;
        found[top_id] = true;
        found[bot_id] = true;
        assert(found@ =~= old_found.update(top_id as int, true).update(bot_id as int, true));
        let mut top = cube.0[col_idx];
        top.set_id(top_id as u8);
        let mut bot = cube.0[col_idx + 4];
        bot.set_id(bot_id as u8);
        if col.topleft.is_ud() {
            top.set_ori(2);
        } else if col.topright.is_ud() {
            top.set_ori(1);
        } else {
            top.set_ori(0);
        }
        if col.botleft.is_ud() {
            bot.set_ori(1);
        } else if col.botright.is_ud() {
            bot.set_ori(2);
        } else {
            bot.set_ori(0);
        }
        cube.0[col_idx] = top;
        cube.0[col_idx + 4] = bot;
        proof {
            let n = col_idx as int;
            let rc = read_corners(columns@);
            assert(col == columns@[n]);
            assert(top_piece(col) == Some(top_id as int));
            assert(bottom_piece(col) == Some(bot_id as int));
            assert(rc[n] == Corner::with(top_id as nat, top_ori(col)));
            assert(rc[n + 4] == Corner::with(bot_id as nat, bottom_ori(col)));
            assert(top.ori() == top_ori(col));
            assert(bot.ori() == bottom_ori(col));
            Corner::lemma_with_fields(top_id as nat, top_ori(col));
            Corner::lemma_with_fields(bot_id as nat, bottom_ori(col));
            assert(top.id() == top_id);
            assert(bot.id() == bot_id);
            Corner::lemma_ext(top, rc[n]);
            Corner::lemma_ext(bot, rc[n + 4]);
            assert(readable_at(columns@, n));
            assert forall|p: int|
                0 <= p < 8 && filled(p, n + 1) implies #[trigger] cube@[p] == rc[p] by {
                if p != n && p != n + 4 {
                    assert(cube@[p] == old_cube[p]);
                }
            }
            assert forall|y: int|
                0 <= y < 8 implies (#[trigger] found@[y] <==> exists|p: int|
                0 <= p < 8 && filled(p, n + 1) && cube@[p].id() == y) by {
                if found@[y] {
                    if y == top_id {
                        assert(filled(n, n + 1) && cube@[n].id() == y);
                    } else if y == bot_id {
                        assert(filled(n + 4, n + 1) && cube@[n + 4].id() == y);
                    } else {
                        assert(found@[y] == old_found[y]);
                        assert(old_found[y]);
                        let p = choose|p: int|
                            0 <= p < 8 && filled(p, n) && old_cube[p].id() == y;
                        assert(cube@[p] == old_cube[p]);
                    }
                }
                if exists|p: int| 0 <= p < 8 && filled(p, n + 1) && cube@[p].id() == y {
                    let p = choose|p: int| 0 <= p < 8 && filled(p, n + 1) && cube@[p].id() == y;
                    if p != n && p != n + 4 {
                        assert(cube@[p] == old_cube[p]);
                        assert(filled(p, n) && old_cube[p].id() == y);
                        assert(old_found[y]);
                        assert(found@[y] == old_found[y] || y == top_id || y == bot_id);
                    }
                }
            }
        }
        col_idx += 1;
    }
    cube.corners_are_wf();
    proof {
        assert(readable(columns@));
        assert(cube@ =~= read_corners(columns@));
        lemma_distinct_iff_cover(cube@);
        assert forall|z: int| 0 <= z < 8 implies (#[trigger] found@[z] <==> id_occurs(
            cube@,
            z as nat,
        )) by {
            if id_occurs(cube@, z as nat) {
                let p = choose|p: int| 0 <= p < 8 && cube@[p].id() == z as nat;
                assert(filled(p, 4));
            }
        }
    }
    let mut y: usize = 0;
    while y < 8
        invariant
            0 <= y <= 8,
            forall|z: int| 0 <= z < 8 ==> (#[trigger] found@[z] <==> id_occurs(cube@, z as nat)),
            forall|z: int| 0 <= z < y ==> #[trigger] found@[z],
            readable(columns@),
            cube@ == read_corners(columns@),
            ids_distinct(cube@) <==> forall|z: nat| z < 8 ==> #[trigger] id_occurs(cube@, z),
        decreases 8 - y,
    {
        if !found[y] {
            proof {
                assert(!id_occurs(cube@, y as nat));
            }
            return None;
        }
        y += 1;
    }
    proof {
        assert forall|z: nat| z < 8 implies #[trigger] id_occurs(cube@, z) by {
            assert(found@[z as int]);
        }
    }
    if cube.is_twist_valid() {
        Some(cube)
    } else {
        None
    }
}

/// Column `k` shows a piece at the top and at the bottom.
pub open spec fn readable_at(cols: Seq<Column>, k: int) -> bool {
    top_piece(cols[k]) is Some && bottom_piece(cols[k]) is Some
}

} // verus!
