//! Solving the cube: a table that names, for every state, a move one step
//! closer to solved, built by a breadth-first search from the solved
//! states; and a breadth-first solver that searches from scratch.

use std::collections::VecDeque;
use vstd::prelude::*;
use crate::cube::{
    apply_move, corners_wf, is_solved_state, states, law_inverse_involution, law_move_keeps_validity,
    law_move_then_inverse, law_solved_is_valid, packed, unpacked, valid_state, Cube, Corner, Move,
};
use crate::index::{dense_of, from_dense, law_dense_of_from_dense, law_from_dense_of_dense};
use crate::solved_states::solved_at;

verus! {

/// The number of states, as an index bound.
pub open spec fn state_count() -> nat {
    88_179_840
}

/// The table entry of a state that no search has reached; it unpacks to
/// no move.
pub const UNVISITED: u8 = 255;

/// The state after the moves of `path`, in order.
pub open spec fn apply_moves(s: Seq<Corner>, path: Seq<Move>) -> Seq<Corner>
    decreases path.len(),
{
    if path.len() == 0 {
        s
    } else {
        apply_move(apply_moves(s, path.drop_last()), path.last())
    }
}

/// Every move of `path` is one of `moves`.
pub open spec fn uses_only(path: Seq<Move>, moves: Seq<Move>) -> bool {
    forall|i: int| 0 <= i < path.len() ==> moves.contains(#[trigger] path[i])
}

/// The state can be made by turning a solved cube with `moves`.
pub open spec fn reachable(s: Seq<Corner>, moves: Seq<Move>) -> bool {
    exists|g: Seq<Corner>, path: Seq<Move>|
        is_solved_state(g) && uses_only(path, moves) && #[trigger] apply_moves(g, path) == s
}

/// Whether the table has an entry for index `i`.
pub open spec fn visited(t: Seq<u8>, i: int) -> bool {
    t[i] != UNVISITED
}

/// For each state with an entry that is not solved, the entry unpacks to a
/// move that undoes one of `moves` and leads to a state with an entry of
/// lower rank. Ranks are below the number of states.
pub open spec fn table_descends(t: Seq<u8>, rank: Seq<nat>, moves: Seq<Move>) -> bool {
    &&& rank.len() == state_count()
    &&& forall|i: int|
        #![trigger t[i]]
        0 <= i < state_count() && visited(t, i) ==> rank[i] < state_count()
    &&& forall|i: int|
        #![trigger t[i]]
        0 <= i < state_count() && visited(t, i) && !is_solved_state(from_dense(i as nat)) ==> {
            let m = unpacked(t[i] as nat)->0;
            let j = dense_of(apply_move(from_dense(i as nat), m)) as int;
            &&& unpacked(t[i] as nat) is Some
            &&& moves.contains(m.inverse())
            &&& visited(t, j)
            &&& rank[j] < rank[i]
        }
}

/// What `build_move_table(moves)` makes: an entry for exactly the states
/// that `moves` reach from a solved cube, each naming a move towards
/// solved; and levels of the entries by which each entry's move goes one
/// level down while each of `moves` goes at most one level up.
pub open spec fn move_table_for(t: Seq<u8>, moves: Seq<Move>) -> bool {
    &&& t.len() == state_count()
    &&& forall|i: int|
        #![trigger t[i]]
        0 <= i < state_count() ==> (visited(t, i) <==> reachable(from_dense(i as nat), moves))
    &&& exists|rank: Seq<nat>| table_descends(t, rank, moves)
    &&& exists|level: Seq<nat>|
        levels_descend(t, level) && forall|b: int| levels_close_below(t, level, moves, b)
}

/// The number of entries of `t` that are set.
pub open spec fn num_visited(t: Seq<u8>) -> nat
    decreases t.len(),
{
    if t.len() == 0 {
        0
    } else {
        num_visited(t.drop_last()) + if t.last() != UNVISITED {
            1nat
        } else {
            0nat
        }
    }
}

proof fn lemma_num_visited_le(t: Seq<u8>)
    ensures
        num_visited(t) <= t.len(),
    decreases t.len(),
{
    if t.len() > 0 {
        lemma_num_visited_le(t.drop_last());
    }
}

proof fn lemma_num_visited_none(t: Seq<u8>)
    requires
        forall|i: int| 0 <= i < t.len() ==> t[i] == UNVISITED,
    ensures
        num_visited(t) == 0,
    decreases t.len(),
{
    if t.len() > 0 {
        lemma_num_visited_none(t.drop_last());
    }
}

proof fn lemma_num_visited_set(t: Seq<u8>, i: int, x: u8)
    requires
        0 <= i < t.len(),
        t[i] == UNVISITED,
        x != UNVISITED,
    ensures
        num_visited(t.update(i, x)) == num_visited(t) + 1,
    decreases t.len(),
{
    let u = t.update(i, x);
    if i == t.len() - 1 {
        assert(u.drop_last() =~= t.drop_last());
    } else {
        assert(u.drop_last() =~= t.drop_last().update(i, x));
        lemma_num_visited_set(t.drop_last(), i, x);
    }
}

proof fn lemma_apply_moves_push(s: Seq<Corner>, path: Seq<Move>, m: Move)
    ensures
        apply_moves(s, path.push(m)) == apply_move(apply_moves(s, path), m),
{
    assert(path.push(m).drop_last() =~= path);
}

/// Moves keep valid states valid.
proof fn lemma_apply_moves_valid(s: Seq<Corner>, path: Seq<Move>)
    requires
        valid_state(s),
    ensures
        valid_state(apply_moves(s, path)),
    decreases path.len(),
{
    if path.len() > 0 {
        lemma_apply_moves_valid(s, path.drop_last());
        law_move_keeps_validity(apply_moves(s, path.drop_last()), path.last());
    }
}

/// Reachable states are valid.
pub proof fn law_reachable_is_valid(s: Seq<Corner>, moves: Seq<Move>)
    requires
        reachable(s, moves),
    ensures
        valid_state(s),
{
    let (g, path) = choose|g: Seq<Corner>, path: Seq<Move>|
        is_solved_state(g) && uses_only(path, moves) && #[trigger] apply_moves(g, path) == s;
    law_solved_is_valid(g);
    lemma_apply_moves_valid(g, path);
}

/// A move of the set takes a reachable state to a reachable state.
proof fn lemma_reachable_step(s: Seq<Corner>, moves: Seq<Move>, m: Move)
    requires
        reachable(s, moves),
        moves.contains(m),
    ensures
        reachable(apply_move(s, m), moves),
{
    let (g, path) = choose|g: Seq<Corner>, path: Seq<Move>|
        is_solved_state(g) && uses_only(path, moves) && #[trigger] apply_moves(g, path) == s;
    lemma_apply_moves_push(g, path, m);
    let p2 = path.push(m);
    assert(uses_only(p2, moves)) by {
        assert forall|i: int| 0 <= i < p2.len() implies moves.contains(#[trigger] p2[i]) by {
            if i < path.len() {
                assert(p2[i] == path[i]);
            }
        }
    }
    assert(apply_moves(g, p2) == apply_move(s, m));
}

/// A set of visited indices that holds the solved states and is closed
/// under the moves holds every reachable state.
proof fn lemma_closed_holds_reachable(t: Seq<u8>, moves: Seq<Move>, g: Seq<Corner>, path: Seq<Move>)
    requires
        t.len() == state_count(),
        is_solved_state(g),
        uses_only(path, moves),
        forall|i: int|
            0 <= i < state_count() && is_solved_state(#[trigger] from_dense(i as nat)) ==> visited(
                t,
                i,
            ),
        forall|i: int, m: Move|
            0 <= i < state_count() && visited(t, i) && moves.contains(m) ==> visited(
                t,
                dense_of(#[trigger] apply_move(from_dense(i as nat), m)) as int,
            ),
    ensures
        visited(t, dense_of(apply_moves(g, path)) as int),
    decreases path.len(),
{
    law_solved_is_valid(g);
    lemma_apply_moves_valid(g, path);
    law_from_dense_of_dense(apply_moves(g, path));
    if path.len() == 0 {
    } else {
        let prev = apply_moves(g, path.drop_last());
        assert(uses_only(path.drop_last(), moves)) by {
            assert forall|i: int| 0 <= i < path.drop_last().len() implies moves.contains(
                #[trigger] path.drop_last()[i],
            ) by {
                assert(path.drop_last()[i] == path[i]);
            }
        }
        lemma_closed_holds_reachable(t, moves, g, path.drop_last());
        lemma_apply_moves_valid(g, path.drop_last());
        law_from_dense_of_dense(prev);
        assert(moves.contains(path[path.len() - 1]));
        let i = dense_of(prev) as int;
        assert(from_dense(i as nat) == prev);
        assert(visited(t, dense_of(apply_move(from_dense(i as nat), path.last())) as int));
    }
}

/// A table of moves towards solved, one entry per dense index.
pub struct Table(pub(crate) Vec<u8>);

impl View for Table {
    type V = Seq<u8>;

    closed spec fn view(&self) -> Seq<u8> {
        self.0@
    }
}

impl Table {
    /// A table read back from the bytes that `save` gave: one entry per
    /// byte, in order.
    pub fn load(bytes: Vec<u8>) -> (t: Table)
        ensures
            t@ == bytes@,
    {
        Table(bytes)
    }

    /// The bytes to store for the table: its entries, in order.
    pub fn save(&self) -> (b: &[u8])
        ensures
            b@ == self@,
    {
        self.0.as_slice()
    }
}

/// The bookkeeping of a breadth-first search: the queue holds valid states
/// with entries, none done and none twice; every entry is done or queued.
pub open spec fn search_bookkeeping(t: Seq<u8>, qs: Seq<Seq<Corner>>, done: Set<int>) -> bool {
    &&& t.len() == state_count()
    &&& forall|q: int|
        #![trigger qs[q]]
        0 <= q < qs.len() ==> valid_state(qs[q]) && visited(t, dense_of(qs[q]) as int)
            && !done.contains(dense_of(qs[q]) as int)
    &&& forall|i: int|
        #![trigger t[i]]
        0 <= i < state_count() && visited(t, i) ==> done.contains(i) || exists|q: int|
            0 <= q < qs.len() && dense_of(#[trigger] qs[q]) == i
    &&& forall|p: int, q: int|
        0 <= p < q < qs.len() ==> dense_of(#[trigger] qs[p]) != dense_of(#[trigger] qs[q])
    &&& forall|i: int| #[trigger] done.contains(i) ==> 0 <= i < state_count() && visited(t, i)
}

proof fn lemma_bookkeeping_push(t: Seq<u8>, qs: Seq<Seq<Corner>>, done: Set<int>, s: Seq<Corner>, x: u8)
    requires
        search_bookkeeping(t, qs, done),
        valid_state(s),
        t[dense_of(s) as int] == UNVISITED,
        x != UNVISITED,
    ensures
        search_bookkeeping(t.update(dense_of(s) as int, x), qs.push(s), done),
{
    law_from_dense_of_dense(s);
    let i = dense_of(s) as int;
    let t2 = t.update(i, x);
    let q2 = qs.push(s);
    assert(!done.contains(i)) by {
        if done.contains(i) {
            assert(visited(t, i));
        }
    }
    assert forall|q: int| 0 <= q < q2.len() implies valid_state(#[trigger] q2[q]) && visited(
        t2,
        dense_of(q2[q]) as int,
    ) && !done.contains(dense_of(q2[q]) as int) by {
        if q < qs.len() {
            assert(q2[q] == qs[q]);
            assert(visited(t, dense_of(qs[q]) as int));
            law_from_dense_of_dense(qs[q]);
            assert(dense_of(qs[q]) != i);
            assert(t2[dense_of(qs[q]) as int] == t[dense_of(qs[q]) as int]);
        } else {
            assert(q2[q] == s);
        }
    }
    assert forall|j: int|
        #![trigger t2[j]]
        0 <= j < state_count() && visited(t2, j) implies done.contains(j) || exists|q: int|
            0 <= q < q2.len() && dense_of(#[trigger] q2[q]) == j by {
        if j == i {
            assert(dense_of(q2[qs.len() as int]) == j);
        } else {
            assert(t2[j] == t[j]);
            if !done.contains(j) {
                let q = choose|q: int| 0 <= q < qs.len() && dense_of(#[trigger] qs[q]) == j;
                assert(q2[q] == qs[q]);
            }
        }
    }
    assert forall|p: int, q: int| 0 <= p < q < q2.len() implies dense_of(#[trigger] q2[p]) != dense_of(
        #[trigger] q2[q],
    ) by {
        if q == qs.len() {
            assert(q2[p] == qs[p]);
            assert(visited(t, dense_of(qs[p]) as int));
        } else {
            assert(q2[p] == qs[p] && q2[q] == qs[q]);
        }
    }
    assert forall|j: int| #[trigger] done.contains(j) implies 0 <= j < state_count() && visited(t2, j) by {
        assert(visited(t, j));
    }
}

proof fn lemma_bookkeeping_pop(t: Seq<u8>, qs: Seq<Seq<Corner>>, done: Set<int>)
    requires
        search_bookkeeping(t, qs, done),
        qs.len() > 0,
    ensures
        search_bookkeeping(t, qs.drop_first(), done.insert(dense_of(qs[0]) as int)),
{
    let c = dense_of(qs[0]) as int;
    let q2 = qs.drop_first();
    let d2 = done.insert(c);
    assert(valid_state(qs[0]));
    assert forall|q: int| 0 <= q < q2.len() implies valid_state(#[trigger] q2[q]) && visited(
        t,
        dense_of(q2[q]) as int,
    ) && !d2.contains(dense_of(q2[q]) as int) by {
        assert(q2[q] == qs[q + 1]);
        assert(dense_of(qs[0]) != dense_of(qs[q + 1]));
    }
    assert forall|j: int|
        #![trigger t[j]]
        0 <= j < state_count() && visited(t, j) implies d2.contains(j) || exists|q: int|
            0 <= q < q2.len() && dense_of(#[trigger] q2[q]) == j by {
        if !done.contains(j) && j != c {
            let q = choose|q: int| 0 <= q < qs.len() && dense_of(#[trigger] qs[q]) == j;
            assert(q != 0);
            assert(q2[q - 1] == qs[q]);
        }
    }
    assert forall|p: int, q: int| 0 <= p < q < q2.len() implies dense_of(#[trigger] q2[p]) != dense_of(
        #[trigger] q2[q],
    ) by {
        assert(q2[p] == qs[p + 1] && q2[q] == qs[q + 1]);
    }
    assert forall|j: int| #[trigger] d2.contains(j) implies 0 <= j < state_count() && visited(t, j) by {
        if j == c {
            assert(visited(t, dense_of(qs[0]) as int));
            law_from_dense_of_dense(qs[0]);
        }
    }
}

/// Everything a breadth-first search from the solved states keeps true:
/// each entry has a rank below the number of entries and belongs to a
/// reachable state, entries descend, the solved states have entries.
#[verifier::opaque]
pub open spec fn search_state(
    t: Seq<u8>,
    rank: Seq<nat>,
    count: nat,
    moves: Seq<Move>,
    qs: Seq<Seq<Corner>>,
    done: Set<int>,
) -> bool {
    &&& rank.len() == state_count()
    &&& count == num_visited(t)
    &&& search_bookkeeping(t, qs, done)
    &&& forall|i: int|
        #![trigger t[i]]
        0 <= i < state_count() && visited(t, i) ==> rank[i] < count && reachable(
            from_dense(i as nat),
            moves,
        )
    &&& table_descends(t, rank, moves)
    &&& forall|i: int|
        0 <= i < state_count() && is_solved_state(#[trigger] from_dense(i as nat)) ==> visited(t, i)
}

/// Every done index but `pending` has an entry for each move's successor.
#[verifier::opaque]
pub open spec fn closed_except(t: Seq<u8>, moves: Seq<Move>, done: Set<int>, pending: int) -> bool {
    forall|i: int, m: Move|
        done.contains(i) && i != pending && moves.contains(m) ==> visited(
            t,
            dense_of(#[trigger] apply_move(from_dense(i as nat), m)) as int,
        )
}

proof fn lemma_set_keeps_visited(t: Seq<u8>, i: int, x: u8)
    requires
        0 <= i < t.len(),
        x != UNVISITED,
    ensures
        forall|j: int| 0 <= j < t.len() && visited(t, j) ==> #[trigger] visited(t.update(i, x), j),
        visited(t.update(i, x), i),
{
    assert forall|j: int| 0 <= j < t.len() && visited(t, j) implies #[trigger] visited(
        t.update(i, x),
        j,
    ) by {
        if j != i {
            assert(t.update(i, x)[j] == t[j]);
        }
    }
}

proof fn lemma_visit_reach(
    t: Seq<u8>,
    rank: Seq<nat>,
    count: nat,
    moves: Seq<Move>,
    c: Seq<Corner>,
    m: Move,
    i: int,
    x: u8,
)
    requires
        t.len() == state_count(),
        rank.len() == state_count(),
        forall|j: int|
            #![trigger t[j]]
            0 <= j < state_count() && visited(t, j) ==> rank[j] < count && reachable(
                from_dense(j as nat),
                moves,
            ),
        reachable(apply_move(c, m), moves),
        i == dense_of(apply_move(c, m)),
        from_dense(i as nat) == apply_move(c, m),
        0 <= i < state_count(),
        x != UNVISITED,
    ensures
        forall|j: int|
            #![trigger t.update(i, x)[j]]
            0 <= j < state_count() && visited(t.update(i, x), j) ==> rank.update(i, count)[j] < count
                + 1 && reachable(from_dense(j as nat), moves),
{
    let t2 = t.update(i, x);
    assert forall|j: int|
        #![trigger t2[j]]
        0 <= j < state_count() && visited(t2, j) implies rank.update(i, count)[j] < count + 1
        && reachable(from_dense(j as nat), moves) by {
        if j != i {
            assert(t2[j] == t[j]);
        }
    }
}

proof fn lemma_visit_descends(
    t: Seq<u8>,
    rank: Seq<nat>,
    count: nat,
    moves: Seq<Move>,
    c: Seq<Corner>,
    m: Move,
)
    requires
        t.len() == state_count(),
        table_descends(t, rank, moves),
        forall|j: int|
            #![trigger t[j]]
            0 <= j < state_count() && visited(t, j) ==> rank[j] < count,
        count < state_count(),
        valid_state(c),
        visited(t, dense_of(c) as int),
        moves.contains(m),
        t[dense_of(apply_move(c, m)) as int] == UNVISITED,
    ensures
        table_descends(
            t.update(dense_of(apply_move(c, m)) as int, packed(m.inverse()) as u8),
            rank.update(dense_of(apply_move(c, m)) as int, count),
            moves,
        ),
{
    let n = apply_move(c, m);
    law_move_keeps_validity(c, m);
    law_from_dense_of_dense(n);
    law_from_dense_of_dense(c);
    let i = dense_of(n) as int;
    let x = packed(m.inverse()) as u8;
    crate::cube::law_unpack_pack(m.inverse());
    law_inverse_involution(m);
    law_move_then_inverse(c, m);
    let t2 = t.update(i, x);
    let r2 = rank.update(i, count);
    assert forall|j: int|
        #![trigger t2[j]]
        0 <= j < state_count() && visited(t2, j) implies r2[j] < state_count() by {
        if j != i {
            assert(t2[j] == t[j]);
        }
    }
    assert forall|j: int|
        #![trigger t2[j]]
        0 <= j < state_count() && visited(t2, j) && !is_solved_state(from_dense(j as nat)) implies {
            let mm = unpacked(t2[j] as nat)->0;
            let k = dense_of(apply_move(from_dense(j as nat), mm)) as int;
            &&& unpacked(t2[j] as nat) is Some
            &&& moves.contains(mm.inverse())
            &&& visited(t2, k)
            &&& r2[k] < r2[j]
        } by {
        if j == i {
            assert(from_dense(i as nat) == n);
            assert(t2[i] == x);
            assert(x as nat == packed(m.inverse()));
            assert(unpacked(t2[j] as nat) == Some(m.inverse()));
            assert(apply_move(n, m.inverse()) == c);
            let k = dense_of(c) as int;
            assert(k != i);
            assert(t[k] == t2[k]);
            assert(rank[k] < count);
            assert(r2[k] == rank[k]);
        } else {
            assert(t2[j] == t[j]);
            let mm = unpacked(t[j] as nat)->0;
            let k = dense_of(apply_move(from_dense(j as nat), mm)) as int;
            assert(visited(t, k));
            law_dense_of_from_dense(j as nat);
            law_move_keeps_validity(from_dense(j as nat), mm);
            law_from_dense_of_dense(apply_move(from_dense(j as nat), mm));
            assert(k != i);
            assert(t2[k] == t[k]);
            assert(r2[k] == rank[k] && r2[j] == rank[j]);
        }
    }
}

/// Giving the successor of `c` under `m` its entry keeps the search state.
proof fn lemma_visit(
    t: Seq<u8>,
    rank: Seq<nat>,
    count: nat,
    moves: Seq<Move>,
    qs: Seq<Seq<Corner>>,
    done: Set<int>,
    pending: int,
    c: Seq<Corner>,
    m: Move,
)
    requires
        search_state(t, rank, count, moves, qs, done),
        closed_except(t, moves, done, pending),
        valid_state(c),
        visited(t, dense_of(c) as int),
        moves.contains(m),
        t[dense_of(apply_move(c, m)) as int] == UNVISITED,
    ensures
        ({
            let n = apply_move(c, m);
            let i = dense_of(n) as int;
            let t2 = t.update(i, packed(m.inverse()) as u8);
            &&& search_state(t2, rank.update(i, count), count + 1, moves, qs.push(n), done)
            &&& closed_except(t2, moves, done, pending)
            &&& forall|j: int| 0 <= j < t.len() && visited(t, j) ==> #[trigger] visited(t2, j)
            &&& visited(t2, i)
        }),
{
    reveal(search_state);
    reveal(closed_except);
    let n = apply_move(c, m);
    law_move_keeps_validity(c, m);
    law_from_dense_of_dense(n);
    law_from_dense_of_dense(c);
    let i = dense_of(n) as int;
    let x = packed(m.inverse()) as u8;
    crate::cube::law_unpack_pack(m.inverse());
    let t2 = t.update(i, x);
    lemma_num_visited_set(t, i, x);
    lemma_num_visited_le(t);
    lemma_bookkeeping_push(t, qs, done, n, x);
    lemma_reachable_step(c, moves, m);
    lemma_set_keeps_visited(t, i, x);
    lemma_num_visited_le(t2);
    lemma_visit_reach(t, rank, count, moves, c, m, i, x);
    lemma_visit_descends(t, rank, count, moves, c, m);
    assert forall|j: int|
        0 <= j < state_count() && is_solved_state(#[trigger] from_dense(j as nat)) implies visited(
        t2,
        j,
    ) by {
        assert(visited(t, j));
    }
    assert forall|j: int, mm: Move|
        done.contains(j) && j != pending && moves.contains(mm) implies visited(
        t2,
        dense_of(#[trigger] apply_move(from_dense(j as nat), mm)) as int,
    ) by {
        let k = dense_of(apply_move(from_dense(j as nat), mm)) as int;
        assert(visited(t, k));
        law_dense_of_from_dense(j as nat);
        law_move_keeps_validity(from_dense(j as nat), mm);
        law_from_dense_of_dense(apply_move(from_dense(j as nat), mm));
    }
}

/// Taking the first state off the queue keeps the search state; it is
/// then done, with its successors still to be given entries.
proof fn lemma_take_next(
    t: Seq<u8>,
    rank: Seq<nat>,
    count: nat,
    moves: Seq<Move>,
    qs: Seq<Seq<Corner>>,
    done: Set<int>,
)
    requires
        search_state(t, rank, count, moves, qs, done),
        closed_except(t, moves, done, -1),
        qs.len() > 0,
    ensures
        ({
            let ci = dense_of(qs[0]) as int;
            &&& search_state(t, rank, count, moves, qs.drop_first(), done.insert(ci))
            &&& closed_except(t, moves, done.insert(ci), ci)
            &&& valid_state(qs[0])
            &&& visited(t, ci)
            &&& from_dense(ci as nat) == qs[0]
            &&& count <= state_count()
        }),
{
    reveal(search_state);
    reveal(closed_except);
    let ci = dense_of(qs[0]) as int;
    lemma_bookkeeping_pop(t, qs, done);
    assert(valid_state(qs[0]));
    law_from_dense_of_dense(qs[0]);
    lemma_num_visited_le(t);
}

/// Once every successor of the pending state has an entry, no state is
/// pending.
proof fn lemma_finish_pending(t: Seq<u8>, moves: Seq<Move>, done: Set<int>, c: Seq<Corner>)
    requires
        closed_except(t, moves, done, dense_of(c) as int),
        from_dense(dense_of(c)) == c,
        forall|k: int|
            0 <= k < moves.len() ==> visited(t, dense_of(apply_move(c, #[trigger] moves[k])) as int),
    ensures
        closed_except(t, moves, done, -1),
{
    reveal(closed_except);
    let ci = dense_of(c) as int;
    assert forall|i: int, m: Move|
        done.contains(i) && i != -1 && moves.contains(m) implies visited(
        t,
        dense_of(#[trigger] apply_move(from_dense(i as nat), m)) as int,
    ) by {
        if i == ci {
            let k = choose|k: int| 0 <= k < moves.len() && moves[k] == m;
            assert(visited(t, dense_of(apply_move(c, moves[k])) as int));
        }
    }
}

proof fn lemma_search_count(
    t: Seq<u8>,
    rank: Seq<nat>,
    count: nat,
    moves: Seq<Move>,
    qs: Seq<Seq<Corner>>,
    done: Set<int>,
)
    requires
        search_state(t, rank, count, moves, qs, done),
    ensures
        count <= state_count(),
        t.len() == state_count(),
        rank.len() == state_count(),
{
    reveal(search_state);
    lemma_num_visited_le(t);
}

/// When the queue is empty the search is over: the entries are exactly the
/// reachable states.
proof fn lemma_search_done(
    t: Seq<u8>,
    rank: Seq<nat>,
    count: nat,
    level: Seq<nat>,
    cur: nat,
    moves: Seq<Move>,
    done: Set<int>,
)
    requires
        search_state(t, rank, count, moves, Seq::empty(), done),
        search_levels(t, level, moves, Seq::empty(), done, -1, cur),
        closed_except(t, moves, done, -1),
    ensures
        move_table_for(t, moves),
{
    lemma_levels_close_front(t, rank, count, level, moves, Seq::empty(), done, -1, cur);
    reveal(search_state);
    reveal(closed_except);
    assert forall|i: int, m: Move|
        0 <= i < state_count() && visited(t, i) && moves.contains(m) implies visited(
        t,
        dense_of(#[trigger] apply_move(from_dense(i as nat), m)) as int,
    ) by {
        assert(done.contains(i));
    }
    assert forall|i: int|
        #![trigger t[i]]
        0 <= i < state_count() implies (visited(t, i) <==> reachable(from_dense(i as nat), moves)) by {
        if reachable(from_dense(i as nat), moves) {
            let (g, path) = choose|g: Seq<Corner>, path: Seq<Move>|
                is_solved_state(g) && uses_only(path, moves) && #[trigger] apply_moves(g, path)
                    == from_dense(i as nat);
            lemma_closed_holds_reachable(t, moves, g, path);
            law_dense_of_from_dense(i as nat);
        }
    }
}

/// After the solved states are queued, the search state holds.
proof fn lemma_search_start(
    t: Seq<u8>,
    rank: Seq<nat>,
    count: nat,
    moves: Seq<Move>,
    qs: Seq<Seq<Corner>>,
    goals: Seq<Seq<Corner>>,
)
    requires
        rank.len() == state_count(),
        count == num_visited(t),
        search_bookkeeping(t, qs, Set::empty()),
        forall|i: int|
            #![trigger t[i]]
            0 <= i < state_count() && visited(t, i) ==> rank[i] < count && reachable(
                from_dense(i as nat),
                moves,
            ) && is_solved_state(from_dense(i as nat)),
        forall|s: Seq<Corner>|
            is_solved_state(s) ==> exists|i: int| 0 <= i < goals.len() && #[trigger] goals[i] == s,
        forall|j: int| 0 <= j < goals.len() ==> visited(t, dense_of(#[trigger] goals[j]) as int),
    ensures
        search_state(t, rank, count, moves, qs, Set::empty()),
        closed_except(t, moves, Set::empty(), -1),
{
    reveal(search_state);
    reveal(closed_except);
    lemma_num_visited_le(t);
    assert forall|i: int|
        0 <= i < state_count() && is_solved_state(#[trigger] from_dense(i as nat)) implies visited(
        t,
        i,
    ) by {
        let g = from_dense(i as nat);
        let j = choose|j: int| 0 <= j < goals.len() && #[trigger] goals[j] == g;
        law_dense_of_from_dense(i as nat);
        assert(visited(t, dense_of(goals[j]) as int));
    }
}

/// No path of moves shorter than `n` leads from a solved state to `s`.
pub open spec fn no_shorter_path(s: Seq<Corner>, moves: Seq<Move>, n: nat) -> bool {
    forall|g: Seq<Corner>, path: Seq<Move>|
        is_solved_state(g) && uses_only(path, moves) && #[trigger] apply_moves(g, path) == s ==> n
            <= path.len()
}

/// Levels of the states with entries: 0 exactly for the solved states; the
/// entry of any other state names a move to a state with an entry one
/// level lower.
pub open spec fn levels_descend(t: Seq<u8>, level: Seq<nat>) -> bool {
    &&& t.len() == state_count()
    &&& level.len() == state_count()
    &&& forall|i: int|
        #![trigger t[i]]
        0 <= i < state_count() && visited(t, i) ==> (level[i] == 0 <==> is_solved_state(
            from_dense(i as nat),
        ))
    &&& forall|i: int|
        #![trigger t[i]]
        0 <= i < state_count() && visited(t, i) && !is_solved_state(from_dense(i as nat)) ==> {
            let j = dense_of(apply_move(from_dense(i as nat), unpacked(t[i] as nat)->0)) as int;
            &&& unpacked(t[i] as nat) is Some
            &&& visited(t, j)
            &&& level[j] + 1 == level[i]
        }
}

/// Each of `moves` leads from a state with an entry and a level below `b`
/// to a state with an entry at most one level higher.
pub open spec fn levels_close_below(t: Seq<u8>, level: Seq<nat>, moves: Seq<Move>, b: int) -> bool {
    forall|i: int, m: Move|
        0 <= i < state_count() && visited(t, i) && level[i] < b && moves.contains(m) ==> {
            let j = dense_of(#[trigger] apply_move(from_dense(i as nat), m)) as int;
            visited(t, j) && level[j] <= level[i] + 1
        }
}

/// The levels of a breadth-first search that has taken states of level
/// `cur` off the queue: every entry is at most one level above `cur`, the
/// queue runs from level `cur` upwards in order, the done states are at
/// most at level `cur`, and moves from them, but from `pending`, lead at
/// most one level up.
#[verifier::opaque]
pub open spec fn search_levels(
    t: Seq<u8>,
    level: Seq<nat>,
    moves: Seq<Move>,
    qs: Seq<Seq<Corner>>,
    done: Set<int>,
    pending: int,
    cur: nat,
) -> bool {
    &&& levels_descend(t, level)
    &&& forall|i: int| #![trigger t[i]] 0 <= i < state_count() && visited(t, i) ==> level[i] <= cur + 1
    &&& forall|q: int| #![trigger qs[q]] 0 <= q < qs.len() ==> cur <= level[dense_of(qs[q]) as int]
    &&& forall|p: int, q: int|
        0 <= p < q < qs.len() ==> level[dense_of(#[trigger] qs[p]) as int] <= level[dense_of(
            #[trigger] qs[q],
        ) as int]
    &&& forall|i: int| #[trigger] done.contains(i) ==> level[i] <= cur
    &&& forall|i: int, m: Move|
        done.contains(i) && i != pending && moves.contains(m) ==> level[dense_of(
            #[trigger] apply_move(from_dense(i as nat), m),
        ) as int] <= level[i] + 1
}

/// At the start every entry is a solved state at level 0, and so is every
/// queued state.
proof fn lemma_levels_start(t: Seq<u8>, level: Seq<nat>, moves: Seq<Move>, qs: Seq<Seq<Corner>>)
    requires
        t.len() == state_count(),
        level == Seq::new(state_count(), |i: int| 0nat),
        search_bookkeeping(t, qs, Set::empty()),
        forall|i: int|
            #![trigger t[i]]
            0 <= i < state_count() && visited(t, i) ==> is_solved_state(from_dense(i as nat)),
    ensures
        search_levels(t, level, moves, qs, Set::empty(), -1, 0),
{
    reveal(search_levels);
    assert forall|p: int, q: int| 0 <= p < q < qs.len() implies level[dense_of(
        #[trigger] qs[p],
    ) as int] <= level[dense_of(#[trigger] qs[q]) as int] by {
        law_from_dense_of_dense(qs[p]);
        law_from_dense_of_dense(qs[q]);
    }
}

/// Taking the first state off the queue: its level becomes the current
/// one, and it is pending.
proof fn lemma_levels_take(
    t: Seq<u8>,
    level: Seq<nat>,
    moves: Seq<Move>,
    qs: Seq<Seq<Corner>>,
    done: Set<int>,
    cur: nat,
)
    requires
        search_levels(t, level, moves, qs, done, -1, cur),
        search_bookkeeping(t, qs, done),
        qs.len() > 0,
    ensures
        cur <= level[dense_of(qs[0]) as int],
        search_levels(
            t,
            level,
            moves,
            qs.drop_first(),
            done.insert(dense_of(qs[0]) as int),
            dense_of(qs[0]) as int,
            level[dense_of(qs[0]) as int],
        ),
{
    reveal(search_levels);
    let ci = dense_of(qs[0]) as int;
    let lc = level[ci];
    let q2 = qs.drop_first();
    let d2 = done.insert(ci);
    assert(cur <= lc);
    assert forall|i: int|
        #![trigger t[i]]
        0 <= i < state_count() && visited(t, i) implies level[i] <= lc + 1 by {}
    assert forall|q: int| #![trigger q2[q]] 0 <= q < q2.len() implies lc <= level[dense_of(
        q2[q],
    ) as int] by {
        assert(q2[q] == qs[q + 1]);
        assert(level[dense_of(qs[0]) as int] <= level[dense_of(qs[q + 1]) as int]);
    }
    assert forall|p: int, q: int| 0 <= p < q < q2.len() implies level[dense_of(
        #[trigger] q2[p],
    ) as int] <= level[dense_of(#[trigger] q2[q]) as int] by {
        assert(q2[p] == qs[p + 1] && q2[q] == qs[q + 1]);
        assert(level[dense_of(qs[p + 1]) as int] <= level[dense_of(qs[q + 1]) as int]);
    }
    assert forall|i: int| #[trigger] d2.contains(i) implies level[i] <= lc by {
        if i != ci {
            assert(done.contains(i));
        }
    }
    assert forall|i: int, m: Move|
        d2.contains(i) && i != ci && moves.contains(m) implies level[dense_of(
        #[trigger] apply_move(from_dense(i as nat), m),
    ) as int] <= level[i] + 1 by {
        assert(done.contains(i) && i != -1);
    }
}

/// Giving a successor of the pending state its entry, one level above.
proof fn lemma_levels_visit(
    t: Seq<u8>,
    level: Seq<nat>,
    moves: Seq<Move>,
    qs: Seq<Seq<Corner>>,
    done: Set<int>,
    ci: int,
    cur: nat,
    c: Seq<Corner>,
    m: Move,
)
    requires
        search_levels(t, level, moves, qs, done, ci, cur),
        search_bookkeeping(t, qs, done),
        forall|i: int|
            0 <= i < state_count() && is_solved_state(#[trigger] from_dense(i as nat)) ==> visited(t, i),
        closed_except(t, moves, done, ci),
        valid_state(c),
        ci == dense_of(c),
        visited(t, ci),
        level[ci] == cur,
        t[dense_of(apply_move(c, m)) as int] == UNVISITED,
    ensures
        search_levels(
            t.update(dense_of(apply_move(c, m)) as int, packed(m.inverse()) as u8),
            level.update(dense_of(apply_move(c, m)) as int, cur + 1),
            moves,
            qs.push(apply_move(c, m)),
            done,
            ci,
            cur,
        ),
{
    let n = apply_move(c, m);
    law_move_keeps_validity(c, m);
    law_from_dense_of_dense(n);
    law_from_dense_of_dense(c);
    let ni = dense_of(n) as int;
    let x = packed(m.inverse()) as u8;
    let t2 = t.update(ni, x);
    let l2 = level.update(ni, cur + 1);
    let q2 = qs.push(n);
    assert(!is_solved_state(n)) by {
        if is_solved_state(n) {
            assert(visited(t, ni));
        }
    }
    lemma_levels_visit_descend(t, level, moves, qs, done, ci, cur, c, m);
    reveal(search_levels);
    reveal(closed_except);
    assert forall|j: int|
        #![trigger t2[j]]
        0 <= j < state_count() && visited(t2, j) implies l2[j] <= cur + 1 by {
        if j != ni {
            assert(t2[j] == t[j]);
        }
    }
    assert forall|q: int| #![trigger q2[q]] 0 <= q < q2.len() implies cur <= l2[dense_of(
        q2[q],
    ) as int] by {
        if q < qs.len() {
            assert(q2[q] == qs[q]);
            assert(visited(t, dense_of(qs[q]) as int));
            law_from_dense_of_dense(qs[q]);
        } else {
            assert(q2[q] == n);
        }
    }
    assert forall|p: int, q: int| 0 <= p < q < q2.len() implies l2[dense_of(
        #[trigger] q2[p],
    ) as int] <= l2[dense_of(#[trigger] q2[q]) as int] by {
        assert(q2[p] == qs[p]);
        assert(visited(t, dense_of(qs[p]) as int));
        law_from_dense_of_dense(qs[p]);
        assert(t[dense_of(qs[p]) as int] == t[dense_of(qs[p]) as int]);
        if q < qs.len() {
            assert(q2[q] == qs[q]);
            assert(visited(t, dense_of(qs[q]) as int));
            law_from_dense_of_dense(qs[q]);
        } else {
            assert(q2[q] == n);
        }
    }
    assert forall|i: int| #[trigger] done.contains(i) implies l2[i] <= cur by {
        assert(visited(t, i));
    }
    assert forall|i: int, mm: Move|
        done.contains(i) && i != ci && moves.contains(mm) implies l2[dense_of(
        #[trigger] apply_move(from_dense(i as nat), mm),
    ) as int] <= l2[i] + 1 by {
        let k = dense_of(apply_move(from_dense(i as nat), mm)) as int;
        assert(visited(t, k));
        assert(visited(t, i));
        law_dense_of_from_dense(i as nat);
        law_move_keeps_validity(from_dense(i as nat), mm);
        law_from_dense_of_dense(apply_move(from_dense(i as nat), mm));
        assert(k != ni && i != ni);
    }
}

proof fn lemma_levels_visit_descend(
    t: Seq<u8>,
    level: Seq<nat>,
    moves: Seq<Move>,
    qs: Seq<Seq<Corner>>,
    done: Set<int>,
    ci: int,
    cur: nat,
    c: Seq<Corner>,
    m: Move,
)
    requires
        search_levels(t, level, moves, qs, done, ci, cur),
        valid_state(c),
        ci == dense_of(c),
        visited(t, ci),
        level[ci] == cur,
        t[dense_of(apply_move(c, m)) as int] == UNVISITED,
        !is_solved_state(apply_move(c, m)),
    ensures
        levels_descend(
            t.update(dense_of(apply_move(c, m)) as int, packed(m.inverse()) as u8),
            level.update(dense_of(apply_move(c, m)) as int, cur + 1),
        ),
{
    reveal(search_levels);
    let n = apply_move(c, m);
    law_move_keeps_validity(c, m);
    law_from_dense_of_dense(n);
    law_from_dense_of_dense(c);
    crate::cube::law_unpack_pack(m.inverse());
    law_inverse_involution(m);
    law_move_then_inverse(c, m);
    let ni = dense_of(n) as int;
    let x = packed(m.inverse()) as u8;
    let t2 = t.update(ni, x);
    let l2 = level.update(ni, cur + 1);
    assert forall|j: int|
        #![trigger t2[j]]
        0 <= j < state_count() && visited(t2, j) implies (l2[j] == 0 <==> is_solved_state(
            from_dense(j as nat),
        )) by {
        if j != ni {
            assert(t2[j] == t[j]);
        }
    }
    assert forall|j: int|
        #![trigger t2[j]]
        0 <= j < state_count() && visited(t2, j) && !is_solved_state(from_dense(j as nat)) implies {
            let k = dense_of(apply_move(from_dense(j as nat), unpacked(t2[j] as nat)->0)) as int;
            &&& unpacked(t2[j] as nat) is Some
            &&& visited(t2, k)
            &&& l2[k] + 1 == l2[j]
        } by {
        if j == ni {
            assert(t2[j] == x);
            assert(unpacked(t2[j] as nat) == Some(m.inverse()));
            assert(apply_move(n, m.inverse()) == c);
            assert(t2[ci] == t[ci]);
        } else {
            assert(t2[j] == t[j]);
            let mm = unpacked(t[j] as nat)->0;
            let k = dense_of(apply_move(from_dense(j as nat), mm)) as int;
            assert(visited(t, k));
            law_dense_of_from_dense(j as nat);
            law_move_keeps_validity(from_dense(j as nat), mm);
            law_from_dense_of_dense(apply_move(from_dense(j as nat), mm));
            assert(k != ni);
            assert(t2[k] == t[k]);
        }
    }
}

/// Once every successor of the pending state has an entry, no state is
/// pending.
proof fn lemma_levels_finish(
    t: Seq<u8>,
    level: Seq<nat>,
    moves: Seq<Move>,
    qs: Seq<Seq<Corner>>,
    done: Set<int>,
    cur: nat,
    c: Seq<Corner>,
)
    requires
        search_levels(t, level, moves, qs, done, dense_of(c) as int, cur),
        valid_state(c),
        level[dense_of(c) as int] == cur,
        forall|k: int|
            0 <= k < moves.len() ==> visited(t, dense_of(apply_move(c, #[trigger] moves[k])) as int),
    ensures
        search_levels(t, level, moves, qs, done, -1, cur),
{
    reveal(search_levels);
    let ci = dense_of(c) as int;
    law_from_dense_of_dense(c);
    assert forall|i: int, m: Move|
        done.contains(i) && i != -1 && moves.contains(m) implies level[dense_of(
        #[trigger] apply_move(from_dense(i as nat), m),
    ) as int] <= level[i] + 1 by {
        if i == ci {
            let k = choose|k: int| 0 <= k < moves.len() && moves[k] == m;
            assert(visited(t, dense_of(apply_move(c, moves[k])) as int));
            law_move_keeps_validity(c, m);
            law_from_dense_of_dense(apply_move(c, m));
        }
    }
}

/// While the states below the current level are all done and none of them
/// pending, the moves from them lead at most one level up; once the queue
/// is empty and none is pending, from every state.
proof fn lemma_levels_close_front(
    t: Seq<u8>,
    rank: Seq<nat>,
    count: nat,
    level: Seq<nat>,
    moves: Seq<Move>,
    qs: Seq<Seq<Corner>>,
    done: Set<int>,
    pending: int,
    cur: nat,
)
    requires
        search_state(t, rank, count, moves, qs, done),
        search_levels(t, level, moves, qs, done, pending, cur),
        closed_except(t, moves, done, pending),
        pending == -1 || level[pending] >= cur,
    ensures
        levels_descend(t, level),
        levels_close_below(t, level, moves, cur as int),
        qs.len() == 0 && pending == -1 ==> forall|b: int| levels_close_below(t, level, moves, b),
{
    lemma_search_facts(t, rank, count, moves, qs, done);
    reveal(search_levels);
    reveal(closed_except);
    assert forall|i: int|
        #![trigger t[i]]
        0 <= i < state_count() && visited(t, i) && (level[i] < cur || (qs.len() == 0 && pending
            == -1)) implies done.contains(i) && i != pending by {
        if !done.contains(i) {
            let q = choose|q: int| 0 <= q < qs.len() && dense_of(#[trigger] qs[q]) == i;
            assert(cur <= level[dense_of(qs[q]) as int]);
        }
    }
    assert forall|i: int, m: Move|
        0 <= i < state_count() && visited(t, i) && level[i] < cur && moves.contains(m) implies {
        let j = dense_of(#[trigger] apply_move(from_dense(i as nat), m)) as int;
        visited(t, j) && level[j] <= level[i] + 1
    } by {
        assert(t[i] == t[i]);
    }
    if qs.len() == 0 && pending == -1 {
        assert forall|b: int| levels_close_below(t, level, moves, b) by {
            assert forall|i: int, m: Move|
                0 <= i < state_count() && visited(t, i) && level[i] < b && moves.contains(m) implies {
                let j = dense_of(#[trigger] apply_move(from_dense(i as nat), m)) as int;
                visited(t, j) && level[j] <= level[i] + 1
            } by {
                assert(t[i] == t[i]);
            }
        }
    }
}

/// A path from a solved state shorter than `b` leads to a state with an
/// entry at a level no higher than the length of the path.
proof fn lemma_levels_path(t: Seq<u8>, level: Seq<nat>, moves: Seq<Move>, b: int, g: Seq<Corner>, path: Seq<Move>)
    requires
        levels_descend(t, level),
        levels_close_below(t, level, moves, b),
        forall|i: int|
            0 <= i < state_count() && is_solved_state(#[trigger] from_dense(i as nat)) ==> visited(t, i),
        is_solved_state(g),
        uses_only(path, moves),
        path.len() < b,
    ensures
        visited(t, dense_of(apply_moves(g, path)) as int),
        level[dense_of(apply_moves(g, path)) as int] <= path.len(),
    decreases path.len(),
{
    law_solved_is_valid(g);
    lemma_apply_moves_valid(g, path);
    law_from_dense_of_dense(apply_moves(g, path));
    if path.len() == 0 {
        let i = dense_of(g) as int;
        assert(is_solved_state(from_dense(i as nat)));
        assert(visited(t, i));
        assert(t[i] == t[i]);
    } else {
        let p = path.drop_last();
        let m = path.last();
        assert(uses_only(p, moves)) by {
            assert forall|k: int| 0 <= k < p.len() implies moves.contains(#[trigger] p[k]) by {
                assert(p[k] == path[k]);
            }
        }
        lemma_levels_path(t, level, moves, b, g, p);
        let prev = apply_moves(g, p);
        lemma_apply_moves_valid(g, p);
        law_from_dense_of_dense(prev);
        let i = dense_of(prev) as int;
        assert(moves.contains(path[path.len() - 1]));
        assert(apply_move(from_dense(i as nat), m) == apply_moves(g, path));
    }
}

/// The level of a state with an entry is the least length of a path to it
/// from a solved state, when the moves close up to its level.
proof fn lemma_levels_shortest(t: Seq<u8>, level: Seq<nat>, moves: Seq<Move>, s: Seq<Corner>)
    requires
        levels_descend(t, level),
        levels_close_below(t, level, moves, level[dense_of(s) as int] as int),
        forall|i: int|
            0 <= i < state_count() && is_solved_state(#[trigger] from_dense(i as nat)) ==> visited(t, i),
        valid_state(s),
    ensures
        no_shorter_path(s, moves, level[dense_of(s) as int]),
{
    let n = level[dense_of(s) as int];
    assert forall|g: Seq<Corner>, path: Seq<Move>|
        is_solved_state(g) && uses_only(path, moves) && #[trigger] apply_moves(g, path) == s implies n
        <= path.len() by {
        if path.len() < n {
            lemma_levels_path(t, level, moves, n as int, g, path);
        }
    }
}

/// Following a table whose levels descend takes as many moves as the
/// level of the start.
proof fn lemma_follow_length(t: Seq<u8>, level: Seq<nat>, s: Seq<Corner>, fuel: nat)
    requires
        levels_descend(t, level),
        valid_state(s),
        visited(t, dense_of(s) as int),
        follow(t, s, fuel) is Some,
    ensures
        follow(t, s, fuel)->0.len() == level[dense_of(s) as int],
    decreases fuel,
{
    law_from_dense_of_dense(s);
    let i = dense_of(s) as int;
    assert(t[i] == t[i]);
    if !is_solved_state(s) {
        let m = unpacked(t[i] as nat)->0;
        let n = apply_move(s, m);
        law_move_keeps_validity(s, m);
        lemma_follow_length(t, level, n, (fuel - 1) as nat);
    }
}

/// The moves that undo `path`: the inverses of its moves, last first.
pub open spec fn undo_path(path: Seq<Move>) -> Seq<Move> {
    Seq::new(path.len(), |i: int| path[path.len() - 1 - i].inverse())
}

/// Undoing a path after it returns to the start.
proof fn lemma_undo_path(s: Seq<Corner>, path: Seq<Move>)
    requires
        valid_state(s),
    ensures
        apply_moves(apply_moves(s, path), undo_path(path)) == s,
    decreases path.len(),
{
    if path.len() > 0 {
        let p = path.drop_last();
        let m = path.last();
        lemma_undo_path(s, p);
        assert(undo_path(path) =~= seq![m.inverse()] + undo_path(p));
        lemma_apply_moves_prepend(apply_moves(s, path), m.inverse(), undo_path(p));
        lemma_apply_moves_valid(s, p);
        law_move_then_inverse(apply_moves(s, p), m);
    }
}

/// A solution that uses the inverses of `moves`, undone, is a path of
/// `moves` of the same length from a solved state.
proof fn lemma_solution_is_path(s: Seq<Corner>, moves: Seq<Move>, v: Seq<Move>)
    requires
        valid_state(s),
        is_solved_state(apply_moves(s, v)),
        uses_only_inverses(v, moves),
    ensures
        uses_only(undo_path(v), moves),
        apply_moves(apply_moves(s, v), undo_path(v)) == s,
        reachable(s, moves),
{
    lemma_undo_path(s, v);
    assert forall|i: int| 0 <= i < undo_path(v).len() implies moves.contains(
        #[trigger] undo_path(v)[i],
    ) by {
        assert(moves.contains(v[v.len() - 1 - i].inverse()));
    }
    assert(reachable(s, moves)) by {
        let g = apply_moves(s, v);
        let p = undo_path(v);
        assert(is_solved_state(g) && uses_only(p, moves) && apply_moves(g, p) == s);
    }
}

/// No index found yet.
pub open spec fn unfound() -> Seq<int> {
    Seq::new(state_count(), |i: int| -1int)
}

/// The breadth-first search from the solved states, step by step, as a
/// record for each index (-1 while not found, 0 for a solved state, `k + 1`
/// when found by `moves[k]`) and the queue of states still to expand.
/// Here: once the first `k` solved states, in the order of `solved_at`,
/// are queued.
pub open spec fn search_start(k: nat) -> (Seq<int>, Seq<Seq<Corner>>)
    decreases k,
{
    if k == 0 {
        (unfound(), Seq::empty())
    } else {
        let (f, q) = search_start((k - 1) as nat);
        let g = solved_at(k - 1);
        let i = dense_of(g) as int;
        if 0 <= i < f.len() && f[i] == -1 {
            (f.update(i, 0), q.push(g))
        } else {
            (f, q)
        }
    }
}

/// The record and queue once the first `k` of `moves` are tried on `c`.
pub open spec fn search_expand(
    f: Seq<int>,
    q: Seq<Seq<Corner>>,
    c: Seq<Corner>,
    moves: Seq<Move>,
    k: nat,
) -> (Seq<int>, Seq<Seq<Corner>>)
    decreases k,
{
    if k == 0 {
        (f, q)
    } else {
        let (f2, q2) = search_expand(f, q, c, moves, (k - 1) as nat);
        let n = apply_move(c, moves[k - 1]);
        let i = dense_of(n) as int;
        if 0 <= i < f2.len() && f2[i] == -1 {
            (f2.update(i, k as int), q2.push(n))
        } else {
            (f2, q2)
        }
    }
}

/// The record and queue once `n` states have been taken off the queue and
/// expanded with `moves`.
pub open spec fn search_after(moves: Seq<Move>, n: nat) -> (Seq<int>, Seq<Seq<Corner>>)
    decreases n,
{
    if n == 0 {
        search_start(24)
    } else {
        let (f, q) = search_after(moves, (n - 1) as nat);
        if q.len() == 0 {
            (f, q)
        } else {
            search_expand(f, q.drop_first(), q[0], moves, moves.len())
        }
    }
}

/// The record of each index as the search with `moves` sets it once and
/// for all; -1 for an index that it never finds.
pub open spec fn search_found(moves: Seq<Move>) -> Seq<int> {
    Seq::new(
        state_count(),
        |i: int|
            if exists|n: nat| #[trigger] search_after(moves, n).0[i] != -1 {
                search_after(moves, choose|n: nat| #[trigger] search_after(moves, n).0[i] != -1).0[i]
            } else {
                -1
            },
    )
}

/// Whether `path` is the walk back from `s` along the record: at a state
/// found by `moves[k]` the inverse of that move, up to a solved state
/// (record 0).
pub open spec fn walks_back(found: Seq<int>, moves: Seq<Move>, s: Seq<Corner>, path: Seq<Move>) -> bool
    decreases path.len(),
{
    let f = found[dense_of(s) as int];
    if path.len() == 0 {
        f == 0
    } else {
        &&& f > 0
        &&& path[0] == moves[f - 1].inverse()
        &&& walks_back(found, moves, apply_move(s, path[0]), path.drop_first())
    }
}

/// The walk back from a state along a record is one path only.
pub proof fn law_walk_back_unique(
    found: Seq<int>,
    moves: Seq<Move>,
    s: Seq<Corner>,
    p: Seq<Move>,
    q: Seq<Move>,
)
    requires
        walks_back(found, moves, s, p),
        walks_back(found, moves, s, q),
    ensures
        p == q,
    decreases p.len(),
{
    if p.len() > 0 {
        assert(q.len() > 0);
        law_walk_back_unique(found, moves, apply_move(s, p[0]), p.drop_first(), q.drop_first());
        assert(p =~= seq![p[0]] + p.drop_first());
        assert(q =~= seq![q[0]] + q.drop_first());
    } else {
        assert(q.len() == 0);
    }
}

/// The table entries that a record stands for: no entry where nothing was
/// found, 0 for a solved state, else the move that undoes the one that
/// found the state.
pub open spec fn table_of(found: Seq<int>, moves: Seq<Move>) -> Seq<u8> {
    Seq::new(
        found.len(),
        |i: int|
            if found[i] == -1 {
                UNVISITED
            } else if found[i] == 0 {
                0u8
            } else {
                packed(moves[found[i] - 1].inverse()) as u8
            },
    )
}

proof fn lemma_search_start_len(k: nat)
    ensures
        search_start(k).0.len() == state_count(),
    decreases k,
{
    if k > 0 {
        lemma_search_start_len((k - 1) as nat);
    }
}

proof fn lemma_expand_keeps(f: Seq<int>, q: Seq<Seq<Corner>>, c: Seq<Corner>, moves: Seq<Move>, k: nat)
    ensures
        search_expand(f, q, c, moves, k).0.len() == f.len(),
        forall|i: int|
            0 <= i < f.len() && f[i] != -1 ==> #[trigger] search_expand(f, q, c, moves, k).0[i]
                == f[i],
    decreases k,
{
    if k > 0 {
        lemma_expand_keeps(f, q, c, moves, (k - 1) as nat);
    }
}

proof fn lemma_after_len(moves: Seq<Move>, n: nat)
    ensures
        search_after(moves, n).0.len() == state_count(),
    decreases n,
{
    if n == 0 {
        lemma_search_start_len(24);
    } else {
        lemma_after_len(moves, (n - 1) as nat);
        let (f, q) = search_after(moves, (n - 1) as nat);
        if q.len() > 0 {
            lemma_expand_keeps(f, q.drop_first(), q[0], moves, moves.len());
        }
    }
}

/// The search never changes a record once it is set.
proof fn lemma_after_keeps(moves: Seq<Move>, n: nat, m: nat, i: int)
    requires
        n <= m,
        0 <= i < state_count(),
        search_after(moves, n).0[i] != -1,
    ensures
        search_after(moves, m).0[i] == search_after(moves, n).0[i],
    decreases m - n,
{
    if m > n {
        lemma_after_keeps(moves, n, (m - 1) as nat, i);
        lemma_after_len(moves, (m - 1) as nat);
        let (f, q) = search_after(moves, (m - 1) as nat);
        if q.len() > 0 {
            lemma_expand_keeps(f, q.drop_first(), q[0], moves, moves.len());
        }
    }
}

/// A record set after `n` steps is the record for good.
proof fn lemma_found_is_after(moves: Seq<Move>, n: nat, i: int)
    requires
        0 <= i < state_count(),
        search_after(moves, n).0[i] != -1,
    ensures
        search_found(moves)[i] == search_after(moves, n).0[i],
{
    let m = choose|m: nat| #[trigger] search_after(moves, m).0[i] != -1;
    if m <= n {
        lemma_after_keeps(moves, m, n, i);
    } else {
        lemma_after_keeps(moves, n, m, i);
    }
}

/// Once the queue is empty the search stays where it is, and its record is
/// the record for good.
proof fn lemma_found_when_empty(moves: Seq<Move>, n: nat)
    requires
        search_after(moves, n).1.len() == 0,
    ensures
        search_found(moves) == search_after(moves, n).0,
{
    lemma_after_len(moves, n);
    assert forall|m: nat| m >= n implies #[trigger] search_after(moves, m) == search_after(moves, n) by {
        lemma_after_stays(moves, n, m);
    }
    assert forall|i: int| 0 <= i < state_count() implies #[trigger] search_found(moves)[i]
        == search_after(moves, n).0[i] by {
        if search_after(moves, n).0[i] != -1 {
            lemma_found_is_after(moves, n, i);
        } else if exists|m: nat| #[trigger] search_after(moves, m).0[i] != -1 {
            let m = choose|m: nat| #[trigger] search_after(moves, m).0[i] != -1;
            if m <= n {
                lemma_after_keeps(moves, m, n, i);
            } else {
                assert(search_after(moves, m) == search_after(moves, n));
            }
        }
    }
    assert(search_found(moves) =~= search_after(moves, n).0);
}

proof fn lemma_after_stays(moves: Seq<Move>, n: nat, m: nat)
    requires
        n <= m,
        search_after(moves, n).1.len() == 0,
    ensures
        search_after(moves, m) == search_after(moves, n),
    decreases m - n,
{
    if m > n {
        lemma_after_stays(moves, n, (m - 1) as nat);
    }
}

proof fn lemma_table_of_unvisited(f: Seq<int>, moves: Seq<Move>, i: int)
    requires
        0 <= i < f.len(),
    ensures
        (table_of(f, moves)[i] == UNVISITED) == (f[i] == -1),
{
    if f[i] != -1 && f[i] != 0 {
        crate::cube::law_unpack_pack(moves[f[i] - 1].inverse());
    }
}

proof fn lemma_table_of_set(f: Seq<int>, moves: Seq<Move>, i: int, v: int)
    requires
        0 <= i < f.len(),
        v >= 0,
    ensures
        table_of(f.update(i, v), moves) == table_of(f, moves).update(
            i,
            if v == 0 {
                0u8
            } else {
                packed(moves[v - 1].inverse()) as u8
            },
        ),
{
    assert(table_of(f.update(i, v), moves) =~= table_of(f, moves).update(
        i,
        if v == 0 {
            0u8
        } else {
            packed(moves[v - 1].inverse()) as u8
        },
    ));
}

/// Builds the move table for `moveset` by a breadth-first search from the
/// solved states, and tells whether every state got an entry. A state's
/// entry undoes the move by which the search first found it: the search
/// takes the solved states in the order of `Cube::solved_class` and tries
/// the moves in the order of `moveset`.
pub fn build_move_table(moveset: &[Move]) -> (r: (Table, bool))
    ensures
        move_table_for(r.0@, moveset@),
        r.1 == (forall|i: int| 0 <= i < state_count() ==> #[trigger] visited(r.0@, i)),
        forall|i: int|
            0 <= i < state_count() && is_solved_state(#[trigger] from_dense(i as nat)) ==> r.0@[i]
                == 0,
        r.0@ == table_of(search_found(moveset@), moveset@),
{
    let ghost moves = moveset@;
    let n = Cube::STATE_SPACE as usize;
    let mut table: Vec<u8> = vec![UNVISITED; n];
    let ghost mut rank: Seq<nat> = Seq::new(state_count(), |i: int| 0nat);
    let ghost mut count: nat = 0;
    let ghost mut done: Set<int> = Set::empty();
    let mut queue: VecDeque<Cube> = VecDeque::new();
    proof {
        assert forall|i: int| 0 <= i < table@.len() implies table@[i] == UNVISITED by {
            assert(vstd::pervasive::cloned(UNVISITED, table@[i]));
        }
        lemma_num_visited_none(table@);
        assert(states(queue@) =~= Seq::<Seq<Corner>>::empty());
        assert(table@ =~= table_of(search_start(0).0, moves));
    }
    let goals = Cube::solved_class();
    proof {
        assert forall|s: Seq<Corner>| is_solved_state(s) implies exists|i: int|
            0 <= i < goals@.len() && #[trigger] states(goals@)[i] == s by {
            let i = choose|i: int| 0 <= i < goals@.len() && #[trigger] goals@[i]@ == s;
            assert(states(goals@)[i] == s);
        }
    }
    let mut k: usize = 0;
    while k < goals.len()
        invariant
            0 <= k <= goals@.len(),
            rank.len() == state_count(),
            moves == moveset@,
            forall|i: int| 0 <= i < goals@.len() ==> is_solved_state(#[trigger] goals@[i]@),
            forall|s: Seq<Corner>|
                is_solved_state(s) ==> exists|i: int|
                    0 <= i < goals@.len() && #[trigger] states(goals@)[i] == s,
            count == num_visited(table@),
            done == Set::<int>::empty(),
            search_bookkeeping(table@, states(queue@), done),
            forall|i: int|
                #![trigger table@[i]]
                0 <= i < state_count() && visited(table@, i) ==> rank[i] < count && reachable(
                    from_dense(i as nat),
                    moves,
                ) && is_solved_state(from_dense(i as nat)),
            forall|j: int| 0 <= j < k ==> visited(table@, dense_of(#[trigger] states(goals@)[j]) as int),
            forall|i: int|
                #![trigger table@[i]]
                0 <= i < state_count() && visited(table@, i) ==> table@[i] == 0,
            goals@.len() == 24,
            forall|j: int| 0 <= j < goals@.len() ==> #[trigger] goals@[j]@ == solved_at(j),
            table@ == table_of(search_start(k as nat).0, moves),
            states(queue@) == search_start(k as nat).1,
        decreases goals@.len() - k,
    {
        let goal = goals[k];
        let i = goal.dense_index() as usize;
        let ghost table_before = table@;
        proof {
            lemma_search_start_len(k as nat);
            lemma_table_of_unvisited(search_start(k as nat).0, moves, i as int);
            assert(goal@ == solved_at(k as int));
            law_solved_is_valid(goal@);
            law_from_dense_of_dense(goal@);
            assert(apply_moves(goal@, Seq::empty()) == goal@);
            assert(uses_only(Seq::<Move>::empty(), moves));
        }
        if table[i] == UNVISITED {
            proof {
                lemma_num_visited_set(table@, i as int, 0);
                lemma_num_visited_le(table@);
                lemma_bookkeeping_push(table@, states(queue@), done, goal@, 0);
                rank = rank.update(i as int, count);
                count = count + 1;
            }
            let ghost old_queue = queue@;
            table.set(i, 0);
            queue.push_back(goal);
            proof {
                assert(states(queue@) =~= states(old_queue).push(goal@));
                lemma_table_of_set(search_start(k as nat).0, moves, i as int, 0);
            }
        }
        proof {
            assert forall|j: int|
                #![trigger table@[j]]
                0 <= j < state_count() && visited(table@, j) implies rank[j] < count && reachable(
                    from_dense(j as nat),
                    moves,
                ) && is_solved_state(from_dense(j as nat)) by {
                if j != i {
                    assert(table@[j] == table_before[j]);
                }
            }
            assert forall|j: int|
                #![trigger table@[j]]
                0 <= j < state_count() && visited(table@, j) implies table@[j] == 0 by {
                if j != i {
                    assert(table@[j] == table_before[j]);
                }
            }
            assert forall|j: int| 0 <= j < k + 1 implies visited(
                table@,
                dense_of(#[trigger] states(goals@)[j]) as int,
            ) by {
                assert(states(goals@)[j] == goals@[j]@);
                law_solved_is_valid(goals@[j]@);
                law_from_dense_of_dense(goals@[j]@);
                if j < k {
                    assert(visited(table_before, dense_of(goals@[j]@) as int));
                    assert(table@[dense_of(goals@[j]@) as int] != UNVISITED);
                } else {
                    assert(goals@[j] == goal);
                }
            }
        }
        k += 1;
    }
    let ghost mut level: Seq<nat> = Seq::new(state_count(), |i: int| 0nat);
    let ghost mut cur: nat = 0;
    let ghost mut steps: nat = 0;
    proof {
        lemma_search_start(table@, rank, count, moves, states(queue@), states(goals@));
        lemma_levels_start(table@, level, moves, states(queue@));
        lemma_search_facts(table@, rank, count, moves, states(queue@), done);
        assert forall|i: int|
            0 <= i < state_count() && is_solved_state(#[trigger] from_dense(i as nat)) implies table@[i]
            == 0 by {
            assert(visited(table@, i));
        }
    }
    // Breadth-first search: each state dequeued gives its successors an
    // entry that undoes the move.
    loop
        invariant
            moves == moveset@,
            search_state(table@, rank, count, moves, states(queue@), done),
            closed_except(table@, moves, done, -1),
            search_levels(table@, level, moves, states(queue@), done, -1, cur),
            level.len() == state_count(),
            forall|i: int|
                0 <= i < state_count() && is_solved_state(#[trigger] from_dense(i as nat)) ==> table@[i]
                    == 0,
            table@ == table_of(search_after(moves, steps).0, moves),
            states(queue@) == search_after(moves, steps).1,
        ensures
            queue@.len() == 0,
            table@ == table_of(search_found(moves), moves),
        decreases 2 * (state_count() - count) + queue@.len(),
    {
        proof {
            lemma_search_count(table@, rank, count, moves, states(queue@), done);
        }
        let ghost measure = 2 * (state_count() - count) + queue@.len();
        let ghost q0 = queue@;
        let ghost f0 = search_after(moves, steps).0;
        let ghost sq = search_after(moves, steps).1;
        let c = match queue.pop_front() {
            Some(c) => c,
            None => {
                proof {
                    assert(states(q0) =~= Seq::<Seq<Corner>>::empty());
                    lemma_found_when_empty(moves, steps);
                }
                break;
            },
        };
        let ghost ci = dense_of(c@) as int;
        proof {
            lemma_after_len(moves, steps);
            assert(sq == states(q0));
            assert(states(q0)[0] == c@);
            assert(table@ == table_of(search_expand(f0, sq.drop_first(), c@, moves, 0).0, moves));
            assert(states(queue@) =~= states(q0).drop_first());
            lemma_take_next(table@, rank, count, moves, states(q0), done);
            lemma_search_facts(table@, rank, count, moves, states(q0), done);
            lemma_levels_take(table@, level, moves, states(q0), done, cur);
            done = done.insert(ci);
            cur = level[ci];
        }
        let mut mi: usize = 0;
        while mi < moveset.len()
            invariant
                0 <= mi <= moveset@.len(),
                moves == moveset@,
                valid_state(c@),
                ci == dense_of(c@),
                from_dense(ci as nat) == c@,
                visited(table@, ci),
                search_state(table@, rank, count, moves, states(queue@), done),
                closed_except(table@, moves, done, ci),
                search_levels(table@, level, moves, states(queue@), done, ci, cur),
                level.len() == state_count(),
                level[ci] == cur,
                forall|i: int|
                    0 <= i < state_count() && is_solved_state(#[trigger] from_dense(i as nat))
                        ==> table@[i] == 0,
                sq.len() > 0,
                sq[0] == c@,
                f0.len() == state_count(),
                search_after(moves, steps + 1) == search_expand(f0, sq.drop_first(), c@, moves, moves.len()),
                table@ == table_of(search_expand(f0, sq.drop_first(), c@, moves, mi as nat).0, moves),
                states(queue@) == search_expand(f0, sq.drop_first(), c@, moves, mi as nat).1,
                forall|k: int|
                    0 <= k < mi ==> visited(table@, dense_of(apply_move(c@, #[trigger] moves[k])) as int),
                2 * (state_count() - count) + queue@.len() < measure,
                count <= state_count(),
            decreases moveset@.len() - mi,
        {
            let m = moveset[mi];
            let nb = c.applied(m);
            let ni = nb.dense_index() as usize;
            let ghost f2 = search_expand(f0, sq.drop_first(), c@, moves, mi as nat).0;
            let ghost q2 = search_expand(f0, sq.drop_first(), c@, moves, mi as nat).1;
            proof {
                lemma_expand_keeps(f0, sq.drop_first(), c@, moves, mi as nat);
                lemma_table_of_unvisited(f2, moves, ni as int);
                assert(apply_move(c@, moves[mi as int]) == nb@);
                law_move_keeps_validity(c@, m);
                law_from_dense_of_dense(nb@);
                lemma_search_count(table@, rank, count, moves, states(queue@), done);
                assert(moves.contains(m)) by {
                    assert(moves[mi as int] == m);
                }
            }
            if table[ni] == UNVISITED {
                let ghost t0 = table@;
                let ghost qs0 = queue@;
                proof {
                    lemma_search_facts(table@, rank, count, moves, states(queue@), done);
                    lemma_levels_visit(table@, level, moves, states(queue@), done, ci, cur, c@, m);
                    assert(ni as int != ci);
                    level = level.update(ni as int, cur + 1);
                    lemma_visit(table@, rank, count, moves, states(queue@), done, ci, c@, m);
                    lemma_num_visited_set(table@, ni as int, packed(m.inverse()) as u8);
                    lemma_num_visited_le(table@.update(ni as int, packed(m.inverse()) as u8));
                    rank = rank.update(ni as int, count);
                    count = count + 1;
                }
                table.set(ni, m.inverse().pack());
                queue.push_back(nb);
                proof {
                    assert forall|i: int|
                        0 <= i < state_count() && is_solved_state(#[trigger] from_dense(i as nat))
                            implies table@[i] == 0 by {
                        assert(visited(t0, i));
                        assert(i != ni as int);
                        assert(table@[i] == t0[i]);
                    }
                    assert(states(queue@) =~= states(qs0).push(nb@));
                    lemma_table_of_set(f2, moves, ni as int, mi + 1);
                    assert(search_expand(f0, sq.drop_first(), c@, moves, (mi + 1) as nat) == (
                    f2.update(ni as int, mi + 1), q2.push(nb@)));
                    assert forall|k: int|
                        0 <= k < mi implies visited(
                        table@,
                        dense_of(apply_move(c@, #[trigger] moves[k])) as int,
                    ) by {
                        let j = dense_of(apply_move(c@, moves[k])) as int;
                        assert(visited(t0, j));
                        law_move_keeps_validity(c@, moves[k]);
                        law_from_dense_of_dense(apply_move(c@, moves[k]));
                        assert(visited(table@, j));
                    }
                    law_from_dense_of_dense(c@);
                    assert(visited(table@, ci));
                    lemma_search_count(table@, rank, count, moves, states(queue@), done);
                }
            }
            assert(table@ == table_of(
                search_expand(f0, sq.drop_first(), c@, moves, (mi + 1) as nat).0,
                moves,
            ));
            mi += 1;
        }
        proof {
            lemma_finish_pending(table@, moves, done, c@);
            lemma_levels_finish(table@, level, moves, states(queue@), done, cur, c@);
            steps = steps + 1;
        }
    }
    proof {
        assert(states(queue@) =~= Seq::<Seq<Corner>>::empty());
        lemma_search_done(table@, rank, count, level, cur, moves, done);
    }
    // Complete when every state has an entry.
    let mut complete = true;
    let mut i: usize = 0;
    while i < n && complete
        invariant
            0 <= i <= n,
            n == state_count(),
            table@.len() == n,
            complete ==> forall|j: int| 0 <= j < i ==> #[trigger] visited(table@, j),
            !complete ==> exists|j: int| 0 <= j < n && !#[trigger] visited(table@, j),
            table@ == table_of(search_found(moveset@), moveset@),
            forall|j: int|
                0 <= j < state_count() && is_solved_state(#[trigger] from_dense(j as nat)) ==> table@[j]
                    == 0,
        decreases n - i + if complete {
            1int
        } else {
            0
        },
    {
        if table[i] == UNVISITED {
            complete = false;
            assert(!visited(table@, i as int));
        } else {
            i += 1;
        }
    }
    (Table(table), complete)
}

/// Following the table from `s` for at most `fuel` moves: the moves taken
/// until a solved state, or `None` when an entry names no move or the moves
/// run out.
pub open spec fn follow(t: Seq<u8>, s: Seq<Corner>, fuel: nat) -> Option<Seq<Move>>
    decreases fuel,
{
    if is_solved_state(s) {
        Some(Seq::empty())
    } else if fuel == 0 {
        None
    } else {
        match unpacked(t[dense_of(s) as int] as nat) {
            None => None,
            Some(m) => match follow(t, apply_move(s, m), (fuel - 1) as nat) {
                Some(p) => Some(seq![m] + p),
                None => None,
            },
        }
    }
}

proof fn lemma_apply_moves_prepend(s: Seq<Corner>, m: Move, p: Seq<Move>)
    ensures
        apply_moves(s, seq![m] + p) == apply_moves(apply_move(s, m), p),
    decreases p.len(),
{
    if p.len() == 0 {
        assert((seq![m] + p).drop_last() =~= Seq::<Move>::empty());
        assert(apply_moves(s, Seq::<Move>::empty()) == s);
        assert(apply_moves(apply_move(s, m), p) == apply_move(s, m));
    } else {
        assert((seq![m] + p).drop_last() =~= seq![m] + p.drop_last());
        assert((seq![m] + p).last() == p.last());
        lemma_apply_moves_prepend(s, m, p.drop_last());
    }
}

/// What following the table returns solves the state.
pub proof fn law_follow_solves(t: Seq<u8>, s: Seq<Corner>, fuel: nat)
    requires
        follow(t, s, fuel) is Some,
    ensures
        is_solved_state(apply_moves(s, follow(t, s, fuel)->0)),
    decreases fuel,
{
    if !is_solved_state(s) {
        let m = unpacked(t[dense_of(s) as int] as nat)->0;
        law_follow_solves(t, apply_move(s, m), (fuel - 1) as nat);
        lemma_apply_moves_prepend(s, m, follow(t, apply_move(s, m), (fuel - 1) as nat)->0);
    }
}

proof fn lemma_follow_reaches(t: Seq<u8>, rank: Seq<nat>, moves: Seq<Move>, s: Seq<Corner>, fuel: nat)
    requires
        move_table_for(t, moves),
        table_descends(t, rank, moves),
        reachable(s, moves),
        rank[dense_of(s) as int] < fuel,
    ensures
        follow(t, s, fuel) is Some,
    decreases fuel,
{
    law_reachable_is_valid(s, moves);
    law_from_dense_of_dense(s);
    let i = dense_of(s) as int;
    assert(visited(t, i));
    if !is_solved_state(s) {
        let m = unpacked(t[i] as nat)->0;
        let n = apply_move(s, m);
        law_move_keeps_validity(s, m);
        law_from_dense_of_dense(n);
        let j = dense_of(n) as int;
        assert(visited(t, j));
        assert(reachable(from_dense(j as nat), moves));
        lemma_follow_reaches(t, rank, moves, n, (fuel - 1) as nat);
    }
}

/// A table built for `moves` solves every state that `moves` reach from
/// a solved cube.
pub proof fn law_table_solves_reachable(t: Seq<u8>, moves: Seq<Move>, s: Seq<Corner>)
    requires
        move_table_for(t, moves),
        reachable(s, moves),
    ensures
        follow(t, s, state_count()) is Some,
        is_solved_state(apply_moves(s, follow(t, s, state_count())->0)),
        uses_only_inverses(follow(t, s, state_count())->0, moves),
{
    let rank = choose|rank: Seq<nat>| table_descends(t, rank, moves);
    law_reachable_is_valid(s, moves);
    law_from_dense_of_dense(s);
    lemma_follow_reaches(t, rank, moves, s, state_count());
    law_follow_solves(t, s, state_count());
    lemma_follow_uses_inverses(t, moves, s, state_count());
}

/// A table built for `moves` solves each state that they reach in as few
/// moves as the shortest path of `moves` that makes the state from a
/// solved cube.
pub proof fn law_table_solution_is_shortest(t: Seq<u8>, moves: Seq<Move>, s: Seq<Corner>)
    requires
        move_table_for(t, moves),
        reachable(s, moves),
    ensures
        follow(t, s, state_count()) is Some,
        no_shorter_path(s, moves, follow(t, s, state_count())->0.len()),
{
    law_table_solves_reachable(t, moves, s);
    law_reachable_is_valid(s, moves);
    law_from_dense_of_dense(s);
    let level = choose|level: Seq<nat>|
        levels_descend(t, level) && forall|b: int| levels_close_below(t, level, moves, b);
    let i = dense_of(s) as int;
    assert(visited(t, i));
    lemma_follow_length(t, level, s, state_count());
    assert(levels_close_below(t, level, moves, level[i] as int));
    assert forall|j: int|
        0 <= j < state_count() && is_solved_state(#[trigger] from_dense(j as nat)) implies visited(
        t,
        j,
    ) by {
        let g = from_dense(j as nat);
        law_dense_of_from_dense(j as nat);
        assert(apply_moves(g, Seq::<Move>::empty()) == g);
        assert(uses_only(Seq::<Move>::empty(), moves));
        assert(reachable(from_dense(j as nat), moves));
    }
    lemma_levels_shortest(t, level, moves, s);
}

/// The table and the breadth-first search agree on how long a solution
/// is: a solution that undoes `moves` and is no longer than any path of
/// `moves` from a solved cube has the length of the table's solution.
pub proof fn law_solvers_agree(t: Seq<u8>, moves: Seq<Move>, s: Seq<Corner>, v: Seq<Move>)
    requires
        move_table_for(t, moves),
        valid_state(s),
        is_solved_state(apply_moves(s, v)),
        uses_only_inverses(v, moves),
        no_shorter_path(s, moves, v.len()),
    ensures
        follow(t, s, state_count()) is Some,
        follow(t, s, state_count())->0.len() == v.len(),
{
    lemma_solution_is_path(s, moves, v);
    law_table_solution_is_shortest(t, moves, s);
    law_table_solves_reachable(t, moves, s);
    let f = follow(t, s, state_count())->0;
    assert(f.len() <= undo_path(v).len()) by {
        assert(apply_moves(apply_moves(s, v), undo_path(v)) == s);
    }
    lemma_solution_is_path(s, moves, f);
    assert(v.len() <= undo_path(f).len()) by {
        assert(apply_moves(apply_moves(s, f), undo_path(f)) == s);
    }
}

/// Two answers that solve `s` with the inverses of `moves`, each no longer
/// than any path of `moves` from a solved cube, are equally long: the
/// length of the breadth-first solver's answer depends on `s` and `moves`
/// alone, not on what the solver was asked before.
pub proof fn law_shortest_answers_agree(s: Seq<Corner>, moves: Seq<Move>, v: Seq<Move>, w: Seq<Move>)
    requires
        valid_state(s),
        is_solved_state(apply_moves(s, v)),
        uses_only_inverses(v, moves),
        no_shorter_path(s, moves, v.len()),
        is_solved_state(apply_moves(s, w)),
        uses_only_inverses(w, moves),
        no_shorter_path(s, moves, w.len()),
    ensures
        v.len() == w.len(),
{
    lemma_solution_is_path(s, moves, v);
    lemma_solution_is_path(s, moves, w);
    assert(v.len() <= undo_path(w).len()) by {
        assert(apply_moves(apply_moves(s, w), undo_path(w)) == s);
    }
    assert(w.len() <= undo_path(v).len()) by {
        assert(apply_moves(apply_moves(s, v), undo_path(v)) == s);
    }
}

/// Record 0 marks exactly the solved states; other records are -1 or
/// the number of a move.
pub open spec fn record_marks_solved(f: Seq<int>) -> bool {
    &&& f.len() == state_count()
    &&& forall|i: int|
        0 <= i < state_count() ==> (#[trigger] f[i] == 0 <==> is_solved_state(from_dense(i as nat)))
    &&& forall|i: int| 0 <= i < state_count() ==> #[trigger] f[i] >= -1
}

proof fn lemma_start_marks(k: nat)
    requires
        k <= 24,
    ensures
        search_start(k).0.len() == state_count(),
        forall|i: int|
            0 <= i < state_count() ==> (#[trigger] search_start(k).0[i] == 0 <==> exists|j: int|
                0 <= j < k && dense_of(#[trigger] solved_at(j)) == i),
        forall|i: int| 0 <= i < state_count() ==> #[trigger] search_start(k).0[i] >= -1,
        forall|i: int| 0 <= i < state_count() ==> #[trigger] search_start(k).0[i] <= 0,
    decreases k,
{
    lemma_search_start_len(k);
    if k > 0 {
        lemma_start_marks((k - 1) as nat);
        let g = solved_at(k - 1);
        crate::solved_states::lemma_listed_is_solved(k - 1);
        law_solved_is_valid(g);
        law_from_dense_of_dense(g);
        let f = search_start((k - 1) as nat).0;
        let gi = dense_of(g) as int;
        assert(f.len() == state_count());
        if f[gi] == -1 {
            assert(search_start(k).0 == f.update(gi, 0));
        } else {
            assert(search_start(k).0 == f);
        }
        assert forall|i: int| 0 <= i < state_count() implies (#[trigger] search_start(k).0[i] == 0
            <==> exists|j: int| 0 <= j < k && dense_of(#[trigger] solved_at(j)) == i) by {
            if i == gi {
                assert(dense_of(solved_at(k - 1)) == i);
                assert(f[i] <= 0);
            } else {
                assert(search_start(k).0[i] == f[i]);
                if exists|j: int| 0 <= j < k && dense_of(#[trigger] solved_at(j)) == i {
                    let j = choose|j: int| 0 <= j < k && dense_of(#[trigger] solved_at(j)) == i;
                    assert(j < k - 1);
                }
            }
        }
    }
}

proof fn lemma_start_marks_solved()
    ensures
        record_marks_solved(search_start(24).0),
{
    lemma_start_marks(24);
    let f = search_start(24).0;
    assert forall|i: int| 0 <= i < state_count() implies (#[trigger] f[i] == 0 <==> is_solved_state(
        from_dense(i as nat),
    )) by {
        law_dense_of_from_dense(i as nat);
        if f[i] == 0 {
            let j = choose|j: int| 0 <= j < 24 && dense_of(#[trigger] solved_at(j)) == i;
            crate::solved_states::lemma_listed_is_solved(j);
            law_solved_is_valid(solved_at(j));
            law_from_dense_of_dense(solved_at(j));
        }
        if is_solved_state(from_dense(i as nat)) {
            crate::solved_states::lemma_solved_is_listed(from_dense(i as nat));
            let j = choose|j: int| 0 <= j < 24 && #[trigger] solved_at(j) == from_dense(i as nat);
            assert(dense_of(solved_at(j)) == i);
        }
    }
}

proof fn lemma_expand_marks(f: Seq<int>, q: Seq<Seq<Corner>>, c: Seq<Corner>, moves: Seq<Move>, k: nat)
    requires
        record_marks_solved(f),
    ensures
        record_marks_solved(search_expand(f, q, c, moves, k).0),
    decreases k,
{
    if k > 0 {
        lemma_expand_marks(f, q, c, moves, (k - 1) as nat);
        let f2 = search_expand(f, q, c, moves, (k - 1) as nat).0;
        let i = dense_of(apply_move(c, moves[k - 1])) as int;
        if 0 <= i < f2.len() && f2[i] == -1 {
            let f3 = f2.update(i, k as int);
            assert forall|j: int| 0 <= j < state_count() implies (#[trigger] f3[j] == 0
                <==> is_solved_state(from_dense(j as nat))) by {
                if j != i {
                    assert(f3[j] == f2[j]);
                }
            }
            assert forall|j: int| 0 <= j < state_count() implies #[trigger] f3[j] >= -1 by {
                if j != i {
                    assert(f3[j] == f2[j]);
                }
            }
        }
    }
}

proof fn lemma_after_marks(moves: Seq<Move>, n: nat)
    ensures
        record_marks_solved(search_after(moves, n).0),
    decreases n,
{
    if n == 0 {
        lemma_start_marks_solved();
    } else {
        lemma_after_marks(moves, (n - 1) as nat);
        let (f, q) = search_after(moves, (n - 1) as nat);
        if q.len() > 0 {
            lemma_expand_marks(f, q.drop_first(), q[0], moves, moves.len());
        }
    }
}

proof fn lemma_found_marks(moves: Seq<Move>)
    ensures
        record_marks_solved(search_found(moves)),
{
    let found = search_found(moves);
    assert forall|i: int| 0 <= i < state_count() implies (#[trigger] found[i] == 0
        <==> is_solved_state(from_dense(i as nat))) && found[i] >= -1 by {
        lemma_after_marks(moves, 0);
        if exists|n: nat| #[trigger] search_after(moves, n).0[i] != -1 {
            let n = choose|n: nat| #[trigger] search_after(moves, n).0[i] != -1;
            lemma_after_marks(moves, n);
        } else {
            assert(search_after(moves, 0).0[i] == -1);
        }
    }
}

/// The table that the search with `moves` builds leads, move for move,
/// along the walk back that the breadth-first solver takes: following it
/// from `s` gives the solver's answer.
pub proof fn law_table_follows_search(moves: Seq<Move>, s: Seq<Corner>, v: Seq<Move>, fuel: nat)
    requires
        valid_state(s),
        walks_back(search_found(moves), moves, s, v),
        v.len() <= fuel,
    ensures
        follow(table_of(search_found(moves), moves), s, fuel) == Some(v),
    decreases v.len(),
{
    let found = search_found(moves);
    let t = table_of(found, moves);
    lemma_found_marks(moves);
    law_from_dense_of_dense(s);
    let i = dense_of(s) as int;
    assert(from_dense(i as nat) == s);
    if v.len() == 0 {
        assert(found[i] == 0);
    } else {
        let k = found[i] - 1;
        let m = moves[k].inverse();
        assert(found[i] > 0);
        assert(!is_solved_state(s));
        crate::cube::law_unpack_pack(m);
        assert(t[i] == packed(m) as u8);
        law_move_keeps_validity(s, m);
        law_table_follows_search(moves, apply_move(s, m), v.drop_first(), (fuel - 1) as nat);
        assert(seq![v[0]] + v.drop_first() =~= v);
    }
}

/// Every move of `path` undoes one of `moves`.
pub open spec fn uses_only_inverses(path: Seq<Move>, moves: Seq<Move>) -> bool {
    forall|i: int| 0 <= i < path.len() ==> moves.contains(#[trigger] path[i].inverse())
}

proof fn lemma_follow_uses_inverses(t: Seq<u8>, moves: Seq<Move>, s: Seq<Corner>, fuel: nat)
    requires
        move_table_for(t, moves),
        reachable(s, moves),
        follow(t, s, fuel) is Some,
    ensures
        uses_only_inverses(follow(t, s, fuel)->0, moves),
    decreases fuel,
{
    if !is_solved_state(s) {
        let rank = choose|rank: Seq<nat>| table_descends(t, rank, moves);
        law_reachable_is_valid(s, moves);
        law_from_dense_of_dense(s);
        let i = dense_of(s) as int;
        assert(visited(t, i));
        let m = unpacked(t[i] as nat)->0;
        let n = apply_move(s, m);
        law_move_keeps_validity(s, m);
        law_from_dense_of_dense(n);
        assert(reachable(from_dense(dense_of(n)), moves));
        lemma_follow_uses_inverses(t, moves, n, (fuel - 1) as nat);
        let p = follow(t, n, (fuel - 1) as nat)->0;
        let q = seq![m] + p;
        assert forall|k: int| 0 <= k < q.len() implies moves.contains(#[trigger] q[k].inverse()) by {
            if k > 0 {
                assert(q[k] == p[k - 1]);
            }
        }
    }
}

/// Following the table from `s` for at most `fuel` moves reads only
/// entries that the table has.
pub open spec fn stays_in_table(t: Seq<u8>, s: Seq<Corner>, fuel: nat) -> bool
    decreases fuel,
{
    if is_solved_state(s) || fuel == 0 {
        true
    } else if dense_of(s) >= t.len() {
        false
    } else {
        match unpacked(t[dense_of(s) as int] as nat) {
            None => true,
            Some(m) => stays_in_table(t, apply_move(s, m), (fuel - 1) as nat),
        }
    }
}

/// Solves the cube by following the table from its state: at each state
/// that is not solved, the table's move for it. The table holds every
/// state, or at least every entry that the walk reads. `None` when an
/// entry names no move, or after as many moves as there are states.
pub fn solve(cube: Cube, move_table: &Table) -> (r: Option<Vec<Move>>)
    requires
        move_table@.len() >= state_count() || stays_in_table(move_table@, cube@, state_count()),
    ensures
        match r {
            Some(v) => follow(move_table@, cube@, state_count()) == Some(v@),
            None => follow(move_table@, cube@, state_count()) is None,
        },
        r matches Some(v) ==> is_solved_state(apply_moves(cube@, v@)),
{
    let mut cur = cube;
    let mut out: Vec<Move> = Vec::new();
    let mut fuel: u32 = Cube::STATE_SPACE;
    let ghost start = cube@;
    while !cur.is_solved()
        invariant
            move_table@.len() >= state_count() || stays_in_table(move_table@, cur@, fuel as nat),
            fuel <= state_count(),
            start == cube@,
            follow(move_table@, start, state_count()) == match follow(move_table@, cur@, fuel as nat) {
                Some(p) => Some(out@ + p),
                None => None::<Seq<Move>>,
            },
        decreases fuel,
    {
        if fuel == 0 {
            return None;
        }
        let i = cur.dense_index() as usize;
        let m = match Move::unpack(move_table.0[i]) {
            Some(m) => m,
            None => {
                return None;
            },
        };
        proof {
            let p = follow(move_table@, apply_move(cur@, m), (fuel - 1) as nat);
            if p is Some {
                assert(out@.push(m) + p->0 =~= out@ + (seq![m] + p->0));
            }
        }
        cur = cur.applied(m);
        out.push(m);
        fuel -= 1;
    }
    proof {
        assert(out@ + Seq::<Move>::empty() =~= out@);
        law_follow_solves(move_table@, start, state_count());
    }
    Some(out)
}

/// Gives the facts of a search state that hold whether or not it is over.
proof fn lemma_search_facts(
    t: Seq<u8>,
    rank: Seq<nat>,
    count: nat,
    moves: Seq<Move>,
    qs: Seq<Seq<Corner>>,
    done: Set<int>,
)
    requires
        search_state(t, rank, count, moves, qs, done),
    ensures
        t.len() == state_count(),
        table_descends(t, rank, moves),
        forall|i: int|
            #![trigger t[i]]
            0 <= i < state_count() && visited(t, i) ==> reachable(from_dense(i as nat), moves),
        forall|i: int|
            0 <= i < state_count() && is_solved_state(#[trigger] from_dense(i as nat)) ==> visited(t, i),
        search_bookkeeping(t, qs, done),
{
    reveal(search_state);
}

/// The table that a breadth-first solver's arrays stand for: no entry
/// where the depth is unset, else the move that undoes the move by which
/// the state was found (0 for the solved states).
pub open spec fn solver_table(depth: Seq<u8>, incoming: Seq<u16>, moves: Seq<Move>) -> Seq<u8> {
    Seq::new(
        depth.len(),
        |i: int|
            if depth[i] == u8::MAX {
                UNVISITED
            } else if incoming[i] == 0 {
                0u8
            } else {
                packed(moves[incoming[i] - 1].inverse()) as u8
            },
    )
}

proof fn lemma_solver_table_set(
    depth: Seq<u8>,
    incoming: Seq<u16>,
    moves: Seq<Move>,
    i: int,
    dv: u8,
    iv: u16,
)
    requires
        0 <= i < depth.len(),
        depth.len() == incoming.len(),
        dv != u8::MAX,
    ensures
        solver_table(depth.update(i, dv), incoming.update(i, iv), moves) == solver_table(
            depth,
            incoming,
            moves,
        ).update(
            i,
            if iv == 0 {
                0u8
            } else {
                packed(moves[iv - 1].inverse()) as u8
            },
        ),
{
    assert(solver_table(depth.update(i, dv), incoming.update(i, iv), moves) =~= solver_table(
        depth,
        incoming,
        moves,
    ).update(
        i,
        if iv == 0 {
            0u8
        } else {
            packed(moves[iv - 1].inverse()) as u8
        },
    ));
}

/// The record that a breadth-first solver's arrays stand for: -1 where the
/// depth is unset, else the number of the move that found the state.
pub open spec fn record_of(depth: Seq<u8>, incoming: Seq<u16>) -> Seq<int> {
    Seq::new(depth.len(), |i: int| if depth[i] == u8::MAX { -1 } else { incoming[i] as int })
}

proof fn lemma_record_set(depth: Seq<u8>, incoming: Seq<u16>, i: int, dv: u8, iv: u16)
    requires
        0 <= i < depth.len(),
        depth.len() == incoming.len(),
        dv != u8::MAX,
    ensures
        record_of(depth.update(i, dv), incoming.update(i, iv)) == record_of(depth, incoming).update(
            i,
            iv as int,
        ),
{
    assert(record_of(depth.update(i, dv), incoming.update(i, iv)) =~= record_of(
        depth,
        incoming,
    ).update(i, iv as int));
}

/// The solved states, and only they, were found by no move.
pub open spec fn solver_markers(depth: Seq<u8>, incoming: Seq<u16>, moves: Seq<Move>) -> bool {
    forall|i: int|
        #![trigger depth[i]]
        0 <= i < state_count() && depth[i] != u8::MAX ==> (incoming[i] == 0 <==> is_solved_state(
            from_dense(i as nat),
        )) && incoming[i] <= moves.len()
}

/// A breadth-first solver: for each state, how deep the search found it
/// and by which move.
pub struct BfsSolver {
    incoming: Vec<u16>,
    depth: Vec<u8>,
}

/// Calls `<[T]>::fill` of std on the vector. Its documentation says that it
/// fills the slice with clones of `value`; the contract claims that the
/// length stays and that each entry is a clone of `value`.
#[verifier::external_body]
fn fill_vec<T: Clone>(v: &mut Vec<T>, value: T)
    ensures
        final(v)@.len() == old(v)@.len(),
        forall|i: int|
            0 <= i < final(v)@.len() ==> vstd::pervasive::cloned(value, #[trigger] final(v)@[i]),
{
    v.fill(value)
}

impl BfsSolver {
    /// One entry per state in each array.
    pub closed spec fn wf(&self) -> bool {
        &&& self.incoming@.len() == state_count()
        &&& self.depth@.len() == state_count()
    }

    /// A solver with room for every state.
    pub fn new() -> (s: Self)
        ensures
            s.wf(),
    {
        let n = Cube::STATE_SPACE as usize;
        Self { incoming: vec![u16::MAX; n], depth: vec![u8::MAX; n] }
    }

    /// Searches breadth first from the solved states with `moves` until it
    /// reaches `start`, then returns the moves that lead from `start` back
    /// to a solved state: each undoes the move by which the search found the
    /// state it is applied to. `None` iff `moves` do not reach `start` from
    /// a solved cube. The solution is as short as any path of `moves` from a
    /// solved cube to `start`, and it is the walk back along the record of
    /// the same search that `build_move_table` makes, so it depends on
    /// `start` and `moves` alone.
    pub fn solve(&mut self, start: Cube, moves: &[Move]) -> (r: Option<Vec<Move>>)
        requires
            old(self).wf(),
            valid_state(start@),
            moves@.len() <= 65535,
        ensures
            final(self).wf(),
            r is Some <==> reachable(start@, moves@),
            r matches Some(v) ==> is_solved_state(apply_moves(start@, v@)) && uses_only_inverses(
                v@,
                moves@,
            ) && no_shorter_path(start@, moves@, v@.len()),
        r matches Some(v) ==> walks_back(search_found(moves@), moves@, start@, v@),
    {
        let ghost mv = moves@;
        // Reset every entry.
        let mut incoming: Vec<u16> = Vec::new();
        let mut depth: Vec<u8> = Vec::new();
        std::mem::swap(&mut incoming, &mut self.incoming);
        std::mem::swap(&mut depth, &mut self.depth);
        fill_vec(&mut incoming, u16::MAX);
        fill_vec(&mut depth, u8::MAX);
        let ghost mut t: Seq<u8> = solver_table(depth@, incoming@, mv);
        let ghost mut rank: Seq<nat> = Seq::new(state_count(), |i: int| 0nat);
        let ghost mut count: nat = 0;
        let ghost mut done: Set<int> = Set::empty();
        let mut queue: VecDeque<Cube> = VecDeque::new();
        proof {
            assert forall|i: int| 0 <= i < depth@.len() implies depth@[i] == u8::MAX by {
                assert(vstd::pervasive::cloned(u8::MAX, depth@[i]));
            }
            assert forall|i: int| 0 <= i < t.len() implies t[i] == UNVISITED by {}
            lemma_num_visited_none(t);
            assert(states(queue@) =~= Seq::<Seq<Corner>>::empty());
            assert(record_of(depth@, incoming@) =~= search_start(0).0);
        }
        let goals = Cube::solved_class();
        proof {
            assert forall|s: Seq<Corner>| is_solved_state(s) implies exists|i: int|
                0 <= i < goals@.len() && #[trigger] states(goals@)[i] == s by {
                let i = choose|i: int| 0 <= i < goals@.len() && #[trigger] goals@[i]@ == s;
                assert(states(goals@)[i] == s);
            }
        }
        let mut k: usize = 0;
        while k < goals.len()
            invariant
                0 <= k <= goals@.len(),
                rank.len() == state_count(),
                mv == moves@,
                depth@.len() == state_count(),
                incoming@.len() == state_count(),
                t == solver_table(depth@, incoming@, mv),
                forall|i: int| 0 <= i < goals@.len() ==> is_solved_state(#[trigger] goals@[i]@),
                forall|s: Seq<Corner>|
                    is_solved_state(s) ==> exists|i: int|
                        0 <= i < goals@.len() && #[trigger] states(goals@)[i] == s,
                count == num_visited(t),
                done == Set::<int>::empty(),
                search_bookkeeping(t, states(queue@), done),
                forall|i: int|
                    #![trigger t[i]]
                    0 <= i < state_count() && visited(t, i) ==> rank[i] < count && reachable(
                        from_dense(i as nat),
                        mv,
                    ) && is_solved_state(from_dense(i as nat)),
                forall|i: int|
                    #![trigger depth@[i]]
                    0 <= i < state_count() && depth@[i] != u8::MAX ==> incoming@[i] == 0,
                forall|j: int| 0 <= j < k ==> visited(t, dense_of(#[trigger] states(goals@)[j]) as int),
                goals@.len() == 24,
                forall|j: int| 0 <= j < goals@.len() ==> #[trigger] goals@[j]@ == solved_at(j),
                record_of(depth@, incoming@) == search_start(k as nat).0,
                states(queue@) == search_start(k as nat).1,
            decreases goals@.len() - k,
        {
            let goal = goals[k];
            let i = goal.dense_index() as usize;
            let ghost t_before = t;
            proof {
                lemma_search_start_len(k as nat);
                assert(goal@ == solved_at(k as int));
                law_solved_is_valid(goal@);
                law_from_dense_of_dense(goal@);
                assert(apply_moves(goal@, Seq::empty()) == goal@);
                assert(uses_only(Seq::<Move>::empty(), mv));
            }
            if depth[i] == u8::MAX {
                proof {
                    lemma_num_visited_set(t, i as int, 0);
                    lemma_num_visited_le(t);
                    lemma_bookkeeping_push(t, states(queue@), done, goal@, 0);
                    lemma_solver_table_set(depth@, incoming@, mv, i as int, 0, 0);
                    rank = rank.update(i as int, count);
                    count = count + 1;
                    t = t.update(i as int, 0);
                }
                let ghost old_queue = queue@;
                let ghost dk = depth@;
                let ghost ik = incoming@;
                depth.set(i, 0);
                incoming.set(i, 0);
                queue.push_back(goal);
                proof {
                    assert(states(queue@) =~= states(old_queue).push(goal@));
                    lemma_record_set(dk, ik, i as int, 0, 0);
                }
            }
            proof {
                assert forall|j: int|
                    #![trigger t[j]]
                    0 <= j < state_count() && visited(t, j) implies rank[j] < count && reachable(
                        from_dense(j as nat),
                        mv,
                    ) && is_solved_state(from_dense(j as nat)) by {
                    if j != i {
                        assert(t[j] == t_before[j]);
                    }
                }
                assert forall|j: int| 0 <= j < k + 1 implies visited(
                    t,
                    dense_of(#[trigger] states(goals@)[j]) as int,
                ) by {
                    assert(states(goals@)[j] == goals@[j]@);
                    law_solved_is_valid(goals@[j]@);
                    law_from_dense_of_dense(goals@[j]@);
                    if j < k {
                        assert(visited(t_before, dense_of(goals@[j]@) as int));
                        assert(t[dense_of(goals@[j]@) as int] != UNVISITED);
                    } else {
                        assert(goals@[j] == goal);
                    }
                }
            }
            k += 1;
        }
        proof {
            lemma_search_start(t, rank, count, mv, states(queue@), states(goals@));
            assert forall|i: int|
                #![trigger depth@[i]]
                0 <= i < state_count() && depth@[i] != u8::MAX implies (incoming@[i] == 0
                <==> is_solved_state(from_dense(i as nat))) && incoming@[i] <= mv.len() by {
                assert(t[i] == solver_table(depth@, incoming@, mv)[i]);
                assert(visited(t, i));
            }
            assert(solver_markers(depth@, incoming@, mv));
        }
        let ghost mut level: Seq<nat> = Seq::new(state_count(), |i: int| 0nat);
        let ghost mut front: nat = 0;
        let ghost mut steps: nat = 0;
        proof {
            lemma_levels_start(t, level, mv, states(queue@));
        }
        let ghost si = dense_of(start@) as int;
        // Breadth-first search until `start` comes off the queue.
        loop
            invariant_except_break
                closed_except(t, mv, done, -1),
                search_levels(t, level, mv, states(queue@), done, -1, front),
                states(queue@) == search_after(mv, steps).1,
            invariant
                record_of(depth@, incoming@) == search_after(mv, steps).0,
                mv == moves@,
                moves@.len() <= 65535,
                depth@.len() == state_count(),
                incoming@.len() == state_count(),
                t == solver_table(depth@, incoming@, mv),
                search_state(t, rank, count, mv, states(queue@), done),
                solver_markers(depth@, incoming@, mv),
                si == dense_of(start@),
                level.len() == state_count(),
            ensures
                (queue@.len() == 0 && closed_except(t, mv, done, -1) && search_levels(
                    t,
                    level,
                    mv,
                    states(queue@),
                    done,
                    -1,
                    front,
                )) || (visited(t, si) && levels_descend(t, level) && no_shorter_path(
                    start@,
                    mv,
                    level[si],
                )),
                record_of(depth@, incoming@) == search_after(mv, steps).0,
            decreases 2 * (state_count() - count) + queue@.len(),
        {
            proof {
                lemma_search_count(t, rank, count, mv, states(queue@), done);
            }
            let ghost measure = 2 * (state_count() - count) + queue@.len();
            let ghost q0 = queue@;
            let ghost f0 = search_after(mv, steps).0;
            let ghost sq = search_after(mv, steps).1;
            let c = match queue.pop_front() {
                Some(c) => c,
                None => {
                    break;
                },
            };
            let ghost ci = dense_of(c@) as int;
            proof {
                lemma_after_len(mv, steps);
                assert(sq == states(q0));
                assert(states(q0)[0] == c@);
                assert(record_of(depth@, incoming@) == search_expand(
                    f0,
                    sq.drop_first(),
                    c@,
                    mv,
                    0,
                ).0);
                assert(states(queue@) =~= states(q0).drop_first());
                lemma_take_next(t, rank, count, mv, states(q0), done);
                lemma_search_facts(t, rank, count, mv, states(q0), done);
                lemma_levels_take(t, level, mv, states(q0), done, front);
                done = done.insert(ci);
                front = level[ci];
            }
            if c.same_state(&start) {
                proof {
                    law_from_dense_of_dense(start@);
                    law_reachable_is_valid(from_dense(ci as nat), mv);
                    lemma_levels_close_front(t, rank, count, level, mv, states(queue@), done, ci, front);
                    lemma_search_facts(t, rank, count, mv, states(queue@), done);
                    lemma_levels_shortest(t, level, mv, start@);
                }
                break;
            }
            let d = depth[c.dense_index() as usize];
            let next_depth: u8 = if d < 254 {
                d + 1
            } else {
                254
            };
            let mut mi: usize = 0;
            while mi < moves.len()
                invariant
                    0 <= mi <= moves@.len(),
                    mv == moves@,
                    moves@.len() <= 65535,
                    next_depth != u8::MAX,
                    depth@.len() == state_count(),
                    incoming@.len() == state_count(),
                    t == solver_table(depth@, incoming@, mv),
                    solver_markers(depth@, incoming@, mv),
                    valid_state(c@),
                    ci == dense_of(c@),
                    from_dense(ci as nat) == c@,
                    visited(t, ci),
                    search_state(t, rank, count, mv, states(queue@), done),
                    closed_except(t, mv, done, ci),
                    search_levels(t, level, mv, states(queue@), done, ci, front),
                    level.len() == state_count(),
                    level[ci] == front,
                    sq.len() > 0,
                    sq[0] == c@,
                    f0.len() == state_count(),
                    search_after(mv, steps + 1) == search_expand(f0, sq.drop_first(), c@, mv, mv.len()),
                    record_of(depth@, incoming@) == search_expand(
                        f0,
                        sq.drop_first(),
                        c@,
                        mv,
                        mi as nat,
                    ).0,
                    states(queue@) == search_expand(f0, sq.drop_first(), c@, mv, mi as nat).1,
                    forall|k: int|
                        0 <= k < mi ==> visited(t, dense_of(apply_move(c@, #[trigger] mv[k])) as int),
                    2 * (state_count() - count) + queue@.len() < measure,
                    count <= state_count(),
                decreases moves@.len() - mi,
            {
                let m = moves[mi];
                let nb = c.applied(m);
                let ni = nb.dense_index() as usize;
                let ghost f2 = search_expand(f0, sq.drop_first(), c@, mv, mi as nat).0;
                let ghost q2 = search_expand(f0, sq.drop_first(), c@, mv, mi as nat).1;
                proof {
                    lemma_expand_keeps(f0, sq.drop_first(), c@, mv, mi as nat);
                    assert(apply_move(c@, mv[mi as int]) == nb@);
                    assert((f2[ni as int] == -1) == (depth@[ni as int] == u8::MAX));
                    law_move_keeps_validity(c@, m);
                    law_from_dense_of_dense(nb@);
                    lemma_search_count(t, rank, count, mv, states(queue@), done);
                    assert(mv.contains(m)) by {
                        assert(mv[mi as int] == m);
                    }
                }
                if depth[ni] == u8::MAX {
                    let ghost t0 = t;
                    let ghost qs0 = queue@;
                    proof {
                        assert(t[ni as int] == UNVISITED);
                        lemma_search_facts(t, rank, count, mv, states(queue@), done);
                        lemma_levels_visit(t, level, mv, states(queue@), done, ci, front, c@, m);
                        assert(ni as int != ci);
                        level = level.update(ni as int, front + 1);
                        lemma_visit(t, rank, count, mv, states(queue@), done, ci, c@, m);
                        lemma_num_visited_set(t, ni as int, packed(m.inverse()) as u8);
                        lemma_num_visited_le(t.update(ni as int, packed(m.inverse()) as u8));
                        lemma_solver_table_set(
                            depth@,
                            incoming@,
                            mv,
                            ni as int,
                            next_depth,
                            (mi + 1) as u16,
                        );
                        lemma_search_facts(t, rank, count, mv, states(queue@), done);
                        assert(!is_solved_state(from_dense(ni as nat)));
                        rank = rank.update(ni as int, count);
                        count = count + 1;
                        t = t.update(ni as int, packed(m.inverse()) as u8);
                    }
                    let ghost d0 = depth@;
                    let ghost i0 = incoming@;
                    depth.set(ni, next_depth);
                    incoming.set(ni, (mi + 1) as u16);
                    queue.push_back(nb);
                    proof {
                        assert(states(queue@) =~= states(qs0).push(nb@));
                        lemma_record_set(d0, i0, ni as int, next_depth, (mi + 1) as u16);
                        assert(search_expand(f0, sq.drop_first(), c@, mv, (mi + 1) as nat) == (
                        f2.update(ni as int, mi + 1), q2.push(nb@)));
                        assert forall|k: int|
                            0 <= k < mi implies visited(
                            t,
                            dense_of(apply_move(c@, #[trigger] mv[k])) as int,
                        ) by {
                            let j = dense_of(apply_move(c@, mv[k])) as int;
                            assert(visited(t0, j));
                            law_move_keeps_validity(c@, mv[k]);
                            law_from_dense_of_dense(apply_move(c@, mv[k]));
                            assert(visited(t, j));
                        }
                        law_from_dense_of_dense(c@);
                        assert(visited(t, ci));
                        lemma_search_count(t, rank, count, mv, states(queue@), done);
                        assert forall|j: int|
                            #![trigger depth@[j]]
                            0 <= j < state_count() && depth@[j] != u8::MAX implies (incoming@[j] == 0
                            <==> is_solved_state(from_dense(j as nat))) && incoming@[j] <= mv.len() by {
                            if j != ni {
                                assert(depth@[j] == d0[j] && incoming@[j] == i0[j]);
                            }
                        }
                    }
                }
                assert(record_of(depth@, incoming@) == search_expand(
                    f0,
                    sq.drop_first(),
                    c@,
                    mv,
                    (mi + 1) as nat,
                ).0);
                assert(states(queue@) == search_expand(f0, sq.drop_first(), c@, mv, (mi + 1) as nat).1);
                mi += 1;
            }
            proof {
                lemma_finish_pending(t, mv, done, c@);
                lemma_levels_finish(t, level, mv, states(queue@), done, front, c@);
                steps = steps + 1;
            }
        }
        proof {
            lemma_search_facts(t, rank, count, mv, states(queue@), done);
            law_from_dense_of_dense(start@);
        }
        let si_exec = start.dense_index() as usize;
        if depth[si_exec] == u8::MAX {
            proof {
                assert(!visited(t, si));
                assert(states(queue@) =~= Seq::<Seq<Corner>>::empty());
                lemma_search_done(t, rank, count, level, front, mv, done);
                assert(!reachable(from_dense(si as nat), mv));
            }
            self.incoming = incoming;
            self.depth = depth;
            return None;
        }
        proof {
            assert(visited(t, si));
            assert(reachable(start@, mv));
            if !(levels_descend(t, level) && no_shorter_path(start@, mv, level[si])) {
                assert(states(queue@) =~= Seq::<Seq<Corner>>::empty());
                lemma_levels_close_front(t, rank, count, level, mv, states(queue@), done, -1, front);
                lemma_levels_shortest(t, level, mv, start@);
            }
        }
        // Walk back along the moves by which the search found each state.
        let mut path: Vec<Move> = Vec::new();
        let mut cur = start;
        let ghost found = search_found(mv);
        proof {
            assert(apply_moves(start@, path@) == cur@);
            assert forall|p: Seq<Move>| walks_back(found, mv, cur@, p) implies walks_back(
                found,
                mv,
                start@,
                path@ + p,
            ) by {
                assert(path@ + p =~= p);
            }
        }
        loop
            invariant
                mv == moves@,
                depth@.len() == state_count(),
                incoming@.len() == state_count(),
                t == solver_table(depth@, incoming@, mv),
                solver_markers(depth@, incoming@, mv),
                table_descends(t, rank, mv),
                valid_state(cur@),
                visited(t, dense_of(cur@) as int),
                apply_moves(start@, path@) == cur@,
                uses_only_inverses(path@, mv),
                levels_descend(t, level),
                path@.len() + level[dense_of(cur@) as int] == level[si],
                si == dense_of(start@),
                record_of(depth@, incoming@) == search_after(mv, steps).0,
                found == search_found(mv),
                forall|p: Seq<Move>|
                    walks_back(found, mv, cur@, p) ==> walks_back(found, mv, start@, path@ + p),
            ensures
                is_solved_state(cur@),
                apply_moves(start@, path@) == cur@,
                uses_only_inverses(path@, mv),
                path@.len() == level[si],
                walks_back(found, mv, start@, path@),
            decreases rank[dense_of(cur@) as int],
        {
            let ci = cur.dense_index() as usize;
            proof {
                law_from_dense_of_dense(cur@);
            }
            let inc = incoming[ci];
            proof {
                assert(t[ci as int] != UNVISITED);
                assert(depth@[ci as int] != u8::MAX);
                assert(record_of(depth@, incoming@)[ci as int] == inc as int);
                lemma_found_is_after(mv, steps, ci as int);
                assert(found[ci as int] == inc as int);
            }
            if inc == 0 {
                proof {
                    assert(walks_back(found, mv, cur@, Seq::<Move>::empty()));
                    assert(path@ + Seq::<Move>::empty() =~= path@);
                }
                break;
            }
            let m = moves[(inc - 1) as usize];
            let back = m.inverse();
            proof {
                assert(t[ci as int] == packed(mv[inc - 1].inverse()) as u8);
                crate::cube::law_unpack_pack(mv[inc - 1].inverse());
                law_inverse_involution(m);
                assert(!is_solved_state(from_dense(ci as nat)));
                lemma_apply_moves_push(start@, path@, back);
                law_move_keeps_validity(cur@, back);
                law_from_dense_of_dense(apply_move(cur@, back));
            }
            let ghost p0 = path@;
            let ghost c0 = cur@;
            path.push(back);
            cur = cur.applied(back);
            proof {
                assert forall|p: Seq<Move>| walks_back(found, mv, cur@, p) implies walks_back(
                    found,
                    mv,
                    start@,
                    path@ + p,
                ) by {
                    let bp = seq![back] + p;
                    assert(bp[0] == back);
                    assert(bp.drop_first() =~= p);
                    assert(walks_back(found, mv, c0, bp));
                    assert(p0 + bp =~= path@ + p);
                }
                assert forall|i: int| 0 <= i < path@.len() implies mv.contains(
                    #[trigger] path@[i].inverse(),
                ) by {
                    if i < p0.len() {
                        assert(path@[i] == p0[i]);
                    }
                }
            }
        }
        self.incoming = incoming;
        self.depth = depth;
        Some(path)
    }
}

} // verus!
