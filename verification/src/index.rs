//! The dense index of a cube state: the Lehmer rank of its corner ids,
//! times 3^7, plus the first seven orientations read as a base-3 number.
//! The eighth orientation is implied by the other seven in a valid state.

use vstd::prelude::*;
use vstd::arithmetic::div_mod::{
    lemma_div_denominator, lemma_fundamental_div_mod, lemma_fundamental_div_mod_converse,
};
use crate::cube::{
    corners_wf, group_corner, ids_distinct, ori_sum, twist_total, valid_state, Corner,
};
use crate::rank::{
    digits_in_range, lehmer, lemma_count_le_len, lemma_lehmer_unlehmer, lemma_unlehmer_lehmer,
    strictly_increasing, unlehmer,
};

verus! {

/// The ids of the corners, position by position.
pub open spec fn ids_of(s: Seq<Corner>) -> Seq<nat> {
    Seq::new(s.len(), |i: int| s[i].id())
}

/// The place value of the `i`-th Lehmer digit: (7 - i)!.
pub open spec fn weight(i: int) -> nat {
    if i == 0 {
        5040
    } else if i == 1 {
        720
    } else if i == 2 {
        120
    } else if i == 3 {
        24
    } else if i == 4 {
        6
    } else if i == 5 {
        2
    } else {
        1
    }
}

/// The number that the first `n` digits stand for.
pub open spec fn digits_number(d: Seq<nat>, n: int) -> nat
    decreases n,
{
    if n <= 0 {
        0
    } else {
        digits_number(d, n - 1) + d[n - 1] * weight(n - 1)
    }
}

/// The rank of the corner permutation.
pub open spec fn perm_number(s: Seq<Corner>) -> nat {
    digits_number(lehmer(ids_of(s)), 8)
}

/// The first `n` orientations read as a base-3 number.
pub open spec fn ori_number(s: Seq<Corner>, n: int) -> nat
    decreases n,
{
    if n <= 0 {
        0
    } else {
        ori_number(s, n - 1) * 3 + s[n - 1].ori()
    }
}

/// The dense index of a state.
pub open spec fn dense_of(s: Seq<Corner>) -> nat {
    perm_number(s) * 2187 + ori_number(s, 7)
}

/// What is left of the permutation rank once the first `i` digits are
/// taken off.
pub open spec fn perm_rest(p: nat, i: int) -> nat
    decreases i,
{
    if i <= 0 {
        p
    } else {
        perm_rest(p, i - 1) % weight(i - 1)
    }
}

/// The Lehmer digits of a permutation rank.
pub open spec fn perm_digits(p: nat) -> Seq<nat> {
    Seq::new(8, |i: int| perm_rest(p, i) / weight(i))
}

/// The ids 0 to 7 in order.
pub open spec fn identity8() -> Seq<nat> {
    Seq::new(8, |i: int| i as nat)
}

pub open spec fn pow3(k: int) -> nat {
    if k == 0 {
        1
    } else if k == 1 {
        3
    } else if k == 2 {
        9
    } else if k == 3 {
        27
    } else if k == 4 {
        81
    } else if k == 5 {
        243
    } else if k == 6 {
        729
    } else {
        2187
    }
}

/// The orientation of corner `i < 7` read out of the base-3 number `o`.
pub open spec fn ori_digit(o: nat, i: int) -> nat {
    (o / pow3(6 - i)) % 3
}

/// The sum of the first `n` orientation digits of `o`.
pub open spec fn ori_digits_sum(o: nat, n: int) -> nat
    decreases n,
{
    if n <= 0 {
        0
    } else {
        ori_digits_sum(o, n - 1) + ori_digit(o, n - 1)
    }
}

/// The orientation of the last corner, which makes the total a multiple of 3.
pub open spec fn last_ori(o: nat) -> nat {
    ((3 - ori_digits_sum(o, 7) % 3) % 3) as nat
}

/// The state with the given dense index.
pub open spec fn from_dense(idx: nat) -> Seq<Corner> {
    let ids = unlehmer(perm_digits(idx / 2187), identity8());
    let o = idx % 2187;
    Seq::new(
        8,
        |i: int|
            Corner::with(
                ids[i],
                if i < 7 {
                    ori_digit(o, i)
                } else {
                    last_ori(o)
                },
            ),
    )
}

proof fn lemma_digits_number8(d: Seq<nat>)
    ensures
        digits_number(d, 8) == d[0] * 5040 + d[1] * 720 + d[2] * 120 + d[3] * 24 + d[4] * 6 + d[5]
            * 2 + d[6] + d[7],
{
    reveal_with_fuel(digits_number, 9);
}

proof fn lemma_perm_rest8(p: nat)
    ensures
        perm_rest(p, 1) == p % 5040,
        perm_rest(p, 2) == perm_rest(p, 1) % 720,
        perm_rest(p, 3) == perm_rest(p, 2) % 120,
        perm_rest(p, 4) == perm_rest(p, 3) % 24,
        perm_rest(p, 5) == perm_rest(p, 4) % 6,
        perm_rest(p, 6) == perm_rest(p, 5) % 2,
        perm_rest(p, 7) == perm_rest(p, 6) % 1,
{
    reveal_with_fuel(perm_rest, 8);
}

/// Digits in range stand for a rank below 8!, and reading the rank's
/// digits gives them back.
pub proof fn lemma_perm_digits_of_number(d: Seq<nat>)
    requires
        d.len() == 8,
        digits_in_range(d),
    ensures
        digits_number(d, 8) < 40320,
        perm_digits(digits_number(d, 8)) == d,
{
    let p = digits_number(d, 8);
    lemma_digits_number8(d);
    lemma_perm_rest8(p);
    assert(d[0] < 8 && d[1] < 7 && d[2] < 6 && d[3] < 5 && d[4] < 4 && d[5] < 3 && d[6] < 2 && d[7]
        < 1);
    let r1: int = (d[1] * 720 + d[2] * 120 + d[3] * 24 + d[4] * 6 + d[5] * 2 + d[6]) as int;
    let r2: int = (d[2] * 120 + d[3] * 24 + d[4] * 6 + d[5] * 2 + d[6]) as int;
    let r3: int = (d[3] * 24 + d[4] * 6 + d[5] * 2 + d[6]) as int;
    let r4: int = (d[4] * 6 + d[5] * 2 + d[6]) as int;
    let r5: int = (d[5] * 2 + d[6]) as int;
    let r6 = d[6] as int;
    lemma_fundamental_div_mod_converse(p as int, 5040, d[0] as int, r1);
    lemma_fundamental_div_mod_converse(r1, 720, d[1] as int, r2);
    lemma_fundamental_div_mod_converse(r2, 120, d[2] as int, r3);
    lemma_fundamental_div_mod_converse(r3, 24, d[3] as int, r4);
    lemma_fundamental_div_mod_converse(r4, 6, d[4] as int, r5);
    lemma_fundamental_div_mod_converse(r5, 2, d[5] as int, r6);
    lemma_fundamental_div_mod_converse(r6, 1, d[6] as int, 0);
    lemma_fundamental_div_mod_converse(0, 1, 0, 0);
    assert(perm_digits(p) =~= d);
}

/// The digits of a rank below 8! are in range and stand for the rank.
pub proof fn lemma_number_of_perm_digits(p: nat)
    requires
        p < 40320,
    ensures
        digits_in_range(perm_digits(p)),
        digits_number(perm_digits(p), 8) == p,
{
    let d = perm_digits(p);
    lemma_perm_rest8(p);
    lemma_digits_number8(d);
    let q0 = p as int / 5040;
    let r1 = p as int % 5040;
    lemma_fundamental_div_mod_converse(p as int, 5040, q0, r1);
    lemma_fundamental_div_mod(p as int, 5040);
    lemma_fundamental_div_mod(r1, 720);
    lemma_fundamental_div_mod(r1 % 720, 120);
    lemma_fundamental_div_mod(r1 % 720 % 120, 24);
    lemma_fundamental_div_mod(r1 % 720 % 120 % 24, 6);
    lemma_fundamental_div_mod(r1 % 720 % 120 % 24 % 6, 2);
    lemma_fundamental_div_mod(r1 % 720 % 120 % 24 % 6 % 2, 1);
    assert(digits_in_range(d)) by {
        assert forall|i: int| 0 <= i < d.len() implies #[trigger] d[i] < d.len() - i by {}
    }
}

proof fn lemma_ori_number7(s: Seq<Corner>)
    ensures
        ori_number(s, 7) == s[0].ori() * 729 + s[1].ori() * 243 + s[2].ori() * 81 + s[3].ori() * 27
            + s[4].ori() * 9 + s[5].ori() * 3 + s[6].ori(),
{
    reveal_with_fuel(ori_number, 8);
}

/// Seven orientations below 3 make a number below 3^7 whose base-3 digits
/// are the orientations.
pub proof fn lemma_ori_digits_of_number(s: Seq<Corner>)
    requires
        s.len() >= 7,
        forall|i: int| 0 <= i < 7 ==> #[trigger] s[i].ori() < 3,
    ensures
        ori_number(s, 7) < 2187,
        forall|i: int| 0 <= i < 7 ==> #[trigger] ori_digit(ori_number(s, 7), i) == s[i].ori(),
{
    lemma_ori_number7(s);
    let n = ori_number(s, 7) as int;
    let o0 = s[0].ori() as int;
    let o1 = s[1].ori() as int;
    let o2 = s[2].ori() as int;
    let o3 = s[3].ori() as int;
    let o4 = s[4].ori() as int;
    let o5 = s[5].ori() as int;
    let o6 = s[6].ori() as int;
    assert(o0 < 3 && o1 < 3 && o2 < 3 && o3 < 3 && o4 < 3 && o5 < 3 && o6 < 3);
    let p0 = o0;
    let p1 = p0 * 3 + o1;
    let p2 = p1 * 3 + o2;
    let p3 = p2 * 3 + o3;
    let p4 = p3 * 3 + o4;
    let p5 = p4 * 3 + o5;
    let p6 = p5 * 3 + o6;
    lemma_fundamental_div_mod_converse(n, 729, p0, o1 * 243 + o2 * 81 + o3 * 27 + o4 * 9 + o5 * 3 + o6);
    lemma_fundamental_div_mod_converse(n, 243, p1, o2 * 81 + o3 * 27 + o4 * 9 + o5 * 3 + o6);
    lemma_fundamental_div_mod_converse(n, 81, p2, o3 * 27 + o4 * 9 + o5 * 3 + o6);
    lemma_fundamental_div_mod_converse(n, 27, p3, o4 * 9 + o5 * 3 + o6);
    lemma_fundamental_div_mod_converse(n, 9, p4, o5 * 3 + o6);
    lemma_fundamental_div_mod_converse(n, 3, p5, o6);
    lemma_fundamental_div_mod_converse(n, 1, p6, 0);
    lemma_fundamental_div_mod_converse(p0, 3, 0, o0);
    lemma_fundamental_div_mod_converse(p1, 3, p0, o1);
    lemma_fundamental_div_mod_converse(p2, 3, p1, o2);
    lemma_fundamental_div_mod_converse(p3, 3, p2, o3);
    lemma_fundamental_div_mod_converse(p4, 3, p3, o4);
    lemma_fundamental_div_mod_converse(p5, 3, p4, o5);
    lemma_fundamental_div_mod_converse(p6, 3, p5, o6);
}

/// The base-3 digits of a number below 3^7 are below 3 and stand for it.
pub proof fn lemma_number_of_ori_digits(o: nat)
    requires
        o < 2187,
    ensures
        forall|i: int| 0 <= i < 7 ==> #[trigger] ori_digit(o, i) < 3,
        o == ori_digit(o, 0) * 729 + ori_digit(o, 1) * 243 + ori_digit(o, 2) * 81 + ori_digit(o, 3)
            * 27 + ori_digit(o, 4) * 9 + ori_digit(o, 5) * 3 + ori_digit(o, 6),
{
    let x = o as int;
    let q1 = x / 3;
    let q2 = q1 / 3;
    let q3 = q2 / 3;
    let q4 = q3 / 3;
    let q5 = q4 / 3;
    let q6 = q5 / 3;
    let q7 = q6 / 3;
    lemma_div_denominator(x, 3, 3);
    lemma_div_denominator(x, 9, 3);
    lemma_div_denominator(x, 27, 3);
    lemma_div_denominator(x, 81, 3);
    lemma_div_denominator(x, 243, 3);
    lemma_div_denominator(x, 729, 3);
    assert(q2 == x / 9 && q3 == x / 27 && q4 == x / 81 && q5 == x / 243 && q6 == x / 729 && q7
        == x / 2187);
    lemma_fundamental_div_mod_converse(x, 2187, 0, x);
    lemma_fundamental_div_mod_converse(x, 1, x, 0);
    lemma_fundamental_div_mod(x, 3);
    lemma_fundamental_div_mod(q1, 3);
    lemma_fundamental_div_mod(q2, 3);
    lemma_fundamental_div_mod(q3, 3);
    lemma_fundamental_div_mod(q4, 3);
    lemma_fundamental_div_mod(q5, 3);
    lemma_fundamental_div_mod(q6, 3);
}

proof fn lemma_ori_digits_sum7(o: nat)
    ensures
        ori_digits_sum(o, 7) == ori_digit(o, 0) + ori_digit(o, 1) + ori_digit(o, 2) + ori_digit(o, 3)
            + ori_digit(o, 4) + ori_digit(o, 5) + ori_digit(o, 6),
{
    reveal_with_fuel(ori_digits_sum, 8);
}

proof fn lemma_ori_sum8(s: Seq<Corner>)
    ensures
        ori_sum(s, 7) == s[0].ori() + s[1].ori() + s[2].ori() + s[3].ori() + s[4].ori() + s[5].ori()
            + s[6].ori(),
        ori_sum(s, 8) == ori_sum(s, 7) + s[7].ori(),
{
    reveal_with_fuel(ori_sum, 9);
}

/// The one orientation below 3 that makes a sum a multiple of 3.
proof fn lemma_completing_ori(a: int, o: int)
    requires
        a >= 0,
        0 <= o < 3,
    ensures
        (a + o) % 3 == 0 <==> o == (3 - a % 3) % 3,
        0 <= (3 - a % 3) % 3 < 3,
        (a + (3 - a % 3) % 3) % 3 == 0,
{
    let q = a / 3;
    let r = a % 3;
    lemma_fundamental_div_mod(a, 3);
    vstd::arithmetic::div_mod::lemma_mod_multiples_vanish(q, r + o, 3);
    let c = (3 - r) % 3;
    if r == 0 {
        lemma_fundamental_div_mod_converse(3, 3, 1, 0);
    } else {
        lemma_fundamental_div_mod_converse(3 - r, 3, 0, 3 - r);
    }
    vstd::arithmetic::div_mod::lemma_mod_multiples_vanish(q, r + c, 3);
    if r + o < 3 {
        lemma_fundamental_div_mod_converse(r + o, 3, 0, r + o);
    } else {
        lemma_fundamental_div_mod_converse(r + o, 3, 1, r + o - 3);
    }
    if r + c < 3 {
        lemma_fundamental_div_mod_converse(r + c, 3, 0, r + c);
    } else {
        lemma_fundamental_div_mod_converse(r + c, 3, 1, r + c - 3);
    }
}

pub proof fn lemma_identity8()
    ensures
        strictly_increasing(identity8()),
        identity8().no_duplicates(),
        forall|y: nat| #[trigger] identity8().contains(y) <==> y < 8,
{
    assert forall|y: nat| y < 8 implies #[trigger] identity8().contains(y) by {
        assert(identity8()[y as int] == y);
    }
}

/// Eight distinct ids below 8 are the ids 0 to 7.
proof fn lemma_ids_cover(s: Seq<Corner>)
    requires
        corners_wf(s),
        ids_distinct(s),
    ensures
        ids_of(s).no_duplicates(),
        forall|y: nat| identity8().contains(y) <==> #[trigger] ids_of(s).contains(y),
{
    broadcast use vstd::seq_lib::seq_to_set_is_finite;

    let ids = ids_of(s);
    lemma_identity8();
    assert(ids.no_duplicates());
    ids.unique_seq_to_set();
    identity8().unique_seq_to_set();
    assert(ids.to_set().subset_of(identity8().to_set())) by {
        assert forall|y: nat| ids.to_set().contains(y) implies identity8().to_set().contains(y) by {
            let i = choose|i: int| 0 <= i < ids.len() && ids[i] == y;
            assert(s[i].wf());
        }
    }
    vstd::set_lib::lemma_subset_equality(ids.to_set(), identity8().to_set());
    assert forall|y: nat| identity8().contains(y) <==> #[trigger] ids.contains(y) by {
        assert(ids.to_set().contains(y) == identity8().to_set().contains(y));
    }
}

/// Whether some corner of the state has the id `y`.
pub open spec fn id_occurs(s: Seq<Corner>, y: nat) -> bool {
    exists|p: int| 0 <= p < 8 && s[p].id() == y
}

/// Eight well-formed corners have distinct ids exactly when every id below
/// 8 occurs among them.
pub proof fn lemma_distinct_iff_cover(s: Seq<Corner>)
    requires
        corners_wf(s),
    ensures
        ids_distinct(s) <==> forall|y: nat| y < 8 ==> #[trigger] id_occurs(s, y),
{
    broadcast use vstd::seq_lib::seq_to_set_is_finite;

    let ids = ids_of(s);
    lemma_identity8();
    if ids_distinct(s) {
        lemma_ids_cover(s);
        assert forall|y: nat| y < 8 implies #[trigger] id_occurs(s, y) by {
            assert(identity8().contains(y));
            assert(ids_of(s).contains(y));
            let i = choose|i: int| 0 <= i < ids.len() && ids[i] == y;
            assert(s[i].id() == y);
        }
    }
    if forall|y: nat| y < 8 ==> #[trigger] id_occurs(s, y) {
        assert(ids.to_set() =~= identity8().to_set()) by {
            assert forall|y: nat| ids.to_set().contains(y) implies identity8().to_set().contains(y) by {
                let i = choose|i: int| 0 <= i < ids.len() && ids[i] == y;
                assert(s[i].wf());
            }
            assert forall|y: nat| identity8().to_set().contains(y) implies ids.to_set().contains(y) by {
                assert(identity8().contains(y));
                assert(id_occurs(s, y));
                let p = choose|p: int| 0 <= p < 8 && s[p].id() == y;
                assert(ids[p] == y);
            }
        }
        identity8().unique_seq_to_set();
        ids.lemma_no_dup_set_cardinality();
        assert forall|i: int, j: int| 0 <= i < 8 && 0 <= j < 8 && i != j implies #[trigger] s[i].id()
            != #[trigger] s[j].id() by {
            assert(ids[i] == s[i].id() && ids[j] == s[j].id());
        }
    }
}

/// The dense index of a valid state is below 8! * 3^7, and the state with
/// that index is the state itself.
pub proof fn law_from_dense_of_dense(s: Seq<Corner>)
    requires
        valid_state(s),
    ensures
        dense_of(s) < 88_179_840,
        from_dense(dense_of(s)) == s,
{
    broadcast use group_corner;

    let ids = ids_of(s);
    let d = lehmer(ids);
    assert(digits_in_range(d)) by {
        assert forall|i: int| 0 <= i < d.len() implies #[trigger] d[i] < d.len() - i by {
            lemma_count_le_len(ids.subrange(i + 1, 8), ids[i]);
        }
    }
    lemma_perm_digits_of_number(d);
    assert forall|i: int| 0 <= i < 7 implies #[trigger] s[i].ori() < 3 by {
        assert(s[i].wf());
    }
    lemma_ori_digits_of_number(s);
    let p = perm_number(s);
    let o = ori_number(s, 7);
    let idx = dense_of(s);
    lemma_fundamental_div_mod_converse(idx as int, 2187, p as int, o as int);
    lemma_ids_cover(s);
    lemma_identity8();
    lemma_unlehmer_lehmer(ids, identity8());
    let t = from_dense(idx);
    lemma_ori_digits_sum7(o);
    lemma_ori_sum8(s);
    assert(s[7].wf());
    lemma_completing_ori(ori_sum(s, 7), s[7].ori() as int);
    assert forall|i: int| 0 <= i < 8 implies #[trigger] t[i] == s[i] by {
        assert(s[i].wf());
        assert(ids[i] == s[i].id());
        if i < 7 {
            assert(t[i] == Corner::with(s[i].id(), s[i].ori()));
        } else {
            assert(last_ori(o) == s[7].ori());
            assert(t[i] == Corner::with(s[i].id(), s[i].ori()));
        }
        Corner::lemma_with_fields(s[i].id(), s[i].ori());
    }
    assert(t =~= s);
}

/// Every index below 8! * 3^7 is the dense index of a valid state.
pub proof fn law_dense_of_from_dense(idx: nat)
    requires
        idx < 88_179_840,
    ensures
        valid_state(from_dense(idx)),
        dense_of(from_dense(idx)) == idx,
{
    broadcast use group_corner;

    let p = idx / 2187;
    let o = idx % 2187;
    lemma_fundamental_div_mod(idx as int, 2187);
    assert(p < 40320);
    let d = perm_digits(p);
    lemma_number_of_perm_digits(p);
    lemma_identity8();
    lemma_lehmer_unlehmer(d, identity8());
    let u = unlehmer(d, identity8());
    lemma_number_of_ori_digits(o);
    lemma_ori_digits_sum7(o);
    lemma_completing_ori(ori_digits_sum(o, 7) as int, 0);
    let t = from_dense(idx);
    assert forall|i: int| 0 <= i < 8 implies #[trigger] t[i].id() == u[i] && t[i].ori() == (if i < 7 {
        ori_digit(o, i)
    } else {
        last_ori(o)
    }) && t[i].wf() by {
        assert(u.contains(u[i]));
        assert(identity8().contains(u[i]));
        Corner::lemma_with_fields(
            u[i],
            if i < 7 {
                ori_digit(o, i)
            } else {
                last_ori(o)
            },
        );
    }
    assert(corners_wf(t));
    assert(ids_of(t) =~= u);
    assert(ids_distinct(t)) by {
        assert forall|i: int, j: int| 0 <= i < 8 && 0 <= j < 8 && i != j implies #[trigger] t[i].id()
            != #[trigger] t[j].id() by {
            assert(t[i].id() == u[i] && t[j].id() == u[j]);
        }
    }
    lemma_ori_sum8(t);
    assert(ori_sum(t, 7) == ori_digits_sum(o, 7));
    assert(twist_total(t) == 0);
    lemma_ori_number7(t);
    assert(ori_number(t, 7) == o);
    assert(perm_number(t) == p);
}

} // verus!
