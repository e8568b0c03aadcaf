//! Ranking permutations by their Lehmer code.
//!
//! The Lehmer code of a sequence of distinct numbers gives, for each
//! position, how many of the numbers after it are smaller. Reading the code
//! back against the sorted numbers rebuilds the sequence.

use vstd::prelude::*;

verus! {

/// How many elements of `s` are smaller than `x`.
pub open spec fn count_less(s: Seq<nat>, x: nat) -> nat
    decreases s.len(),
{
    if s.len() == 0 {
        0
    } else {
        count_less(s.drop_last(), x) + if s.last() < x {
            1nat
        } else {
            0nat
        }
    }
}

/// The Lehmer code: at each position, how many later elements are smaller.
pub open spec fn lehmer(s: Seq<nat>) -> Seq<nat> {
    Seq::new(s.len(), |i: int| count_less(s.subrange(i + 1, s.len() as int), s[i]))
}

/// Rebuilds a sequence from its Lehmer code `d`, taking each element out of
/// the remaining sorted elements `avail`.
pub open spec fn unlehmer(d: Seq<nat>, avail: Seq<nat>) -> Seq<nat>
    decreases d.len(),
{
    if d.len() == 0 {
        Seq::empty()
    } else {
        seq![avail[d[0] as int]] + unlehmer(d.drop_first(), avail.remove(d[0] as int))
    }
}

pub open spec fn strictly_increasing(s: Seq<nat>) -> bool {
    forall|i: int, j: int| 0 <= i < j < s.len() ==> s[i] < s[j]
}

/// Every digit is below the number of elements that remain when it is read.
pub open spec fn digits_in_range(d: Seq<nat>) -> bool {
    forall|i: int| 0 <= i < d.len() ==> #[trigger] d[i] < d.len() - i
}

pub proof fn lemma_count_concat(a: Seq<nat>, b: Seq<nat>, x: nat)
    ensures
        count_less(a + b, x) == count_less(a, x) + count_less(b, x),
    decreases b.len(),
{
    if b.len() == 0 {
        assert(a + b =~= a);
    } else {
        assert((a + b).drop_last() =~= a + b.drop_last());
        lemma_count_concat(a, b.drop_last(), x);
    }
}

pub proof fn lemma_count_le_len(s: Seq<nat>, x: nat)
    ensures
        count_less(s, x) <= s.len(),
    decreases s.len(),
{
    if s.len() > 0 {
        lemma_count_le_len(s.drop_last(), x);
    }
}

proof fn lemma_count_all_below(s: Seq<nat>, x: nat)
    requires
        forall|i: int| 0 <= i < s.len() ==> s[i] < x,
    ensures
        count_less(s, x) == s.len(),
    decreases s.len(),
{
    if s.len() > 0 {
        lemma_count_all_below(s.drop_last(), x);
    }
}

proof fn lemma_count_none_below(s: Seq<nat>, x: nat)
    requires
        forall|i: int| 0 <= i < s.len() ==> s[i] >= x,
    ensures
        count_less(s, x) == 0,
    decreases s.len(),
{
    if s.len() > 0 {
        lemma_count_none_below(s.drop_last(), x);
    }
}

/// In a sorted sequence, the index of an element is the number of smaller
/// elements.
proof fn lemma_count_sorted(a: Seq<nat>, k: int)
    requires
        strictly_increasing(a),
        0 <= k < a.len(),
    ensures
        count_less(a, a[k]) == k,
{
    let x = a[k];
    assert(a =~= a.subrange(0, k) + a.subrange(k, a.len() as int));
    lemma_count_concat(a.subrange(0, k), a.subrange(k, a.len() as int), x);
    lemma_count_all_below(a.subrange(0, k), x);
    lemma_count_none_below(a.subrange(k, a.len() as int), x);
}

/// Removing the element at `k` from a sorted sequence leaves exactly `k`
/// smaller elements.
proof fn lemma_count_sorted_removed(a: Seq<nat>, k: int)
    requires
        strictly_increasing(a),
        0 <= k < a.len(),
    ensures
        count_less(a.remove(k), a[k]) == k,
{
    let x = a[k];
    lemma_count_concat(a.subrange(0, k), a.subrange(k + 1, a.len() as int), x);
    lemma_count_all_below(a.subrange(0, k), x);
    lemma_count_none_below(a.subrange(k + 1, a.len() as int), x);
}

/// For a sequence without duplicates, counting the smaller elements only
/// depends on the set of its elements.
proof fn lemma_count_set(s: Seq<nat>, x: nat)
    requires
        s.no_duplicates(),
    ensures
        s.to_set().filter(|y: nat| y < x).finite(),
        count_less(s, x) == s.to_set().filter(|y: nat| y < x).len(),
    decreases s.len(),
{
    broadcast use vstd::seq_lib::seq_to_set_is_finite;

    let f = |y: nat| y < x;
    s.to_set().lemma_len_filter(f);
    if s.len() == 0 {
        assert(s.to_set().filter(f) =~= Set::empty());
    } else {
        let t = s.drop_last();
        let l = s.last();
        assert(t.no_duplicates());
        lemma_count_set(t, x);
        t.to_set().lemma_len_filter(f);
        assert(!t.to_set().contains(l));
        assert(s =~= t.push(l));
        t.lemma_push_to_set_commute(l);
        if l < x {
            assert(s.to_set().filter(f) =~= t.to_set().filter(f).insert(l));
        } else {
            assert(s.to_set().filter(f) =~= t.to_set().filter(f));
        }
    }
}

proof fn lemma_count_same_elements(a: Seq<nat>, b: Seq<nat>, x: nat)
    requires
        a.no_duplicates(),
        b.no_duplicates(),
        forall|y: nat| a.contains(y) <==> b.contains(y),
    ensures
        count_less(a, x) == count_less(b, x),
{
    lemma_count_set(a, x);
    lemma_count_set(b, x);
    assert(a.to_set() =~= b.to_set());
}

proof fn lemma_lehmer_tail(s: Seq<nat>)
    requires
        s.len() > 0,
    ensures
        lehmer(s).drop_first() == lehmer(s.drop_first()),
        lehmer(s)[0] == count_less(s.drop_first(), s[0]),
{
    let t = s.drop_first();
    assert forall|i: int| 0 <= i < t.len() implies #[trigger] lehmer(s).drop_first()[i] == lehmer(
        t,
    )[i] by {
        assert(s.subrange(i + 2, s.len() as int) =~= t.subrange(i + 1, t.len() as int));
    }
    assert(lehmer(s).drop_first() =~= lehmer(t));
}

/// Reading the Lehmer code of a sequence against its sorted elements gives
/// the sequence back.
pub proof fn lemma_unlehmer_lehmer(s: Seq<nat>, avail: Seq<nat>)
    requires
        s.no_duplicates(),
        strictly_increasing(avail),
        avail.len() == s.len(),
        forall|y: nat| avail.contains(y) <==> s.contains(y),
    ensures
        unlehmer(lehmer(s), avail) == s,
    decreases s.len(),
{
    if s.len() == 0 {
        assert(unlehmer(lehmer(s), avail) =~= s);
    } else {
        let x = s[0];
        let t = s.drop_first();
        let d = lehmer(s);
        lemma_lehmer_tail(s);
        assert(avail.contains(x));
        let k = choose|k: int| 0 <= k < avail.len() && avail[k] == x;
        lemma_count_sorted(avail, k);
        assert(avail.no_duplicates());
        lemma_count_same_elements(avail, s, x);
        assert(s =~= seq![x] + t);
        lemma_count_concat(seq![x], t, x);
        assert(count_less(seq![x], x) == 0) by {
            assert(seq![x].drop_last() =~= Seq::<nat>::empty());
            reveal_with_fuel(count_less, 2);
        }
        assert(d[0] == k);
        let rest = avail.remove(k);
        assert(strictly_increasing(rest));
        assert(t.no_duplicates());
        assert forall|y: nat| rest.contains(y) <==> t.contains(y) by {
            if rest.contains(y) {
                let j = choose|j: int| 0 <= j < rest.len() && rest[j] == y;
                if j < k {
                    assert(rest[j] == avail[j]);
                } else {
                    assert(rest[j] == avail[j + 1]);
                }
                assert(avail.contains(y));
                assert(y != x);
                let i = choose|i: int| 0 <= i < s.len() && s[i] == y;
                assert(i != 0);
                assert(t[i - 1] == y);
            }
            if t.contains(y) {
                let i = choose|i: int| 0 <= i < t.len() && t[i] == y;
                assert(s[i + 1] == y);
                assert(s.contains(y));
                let j = choose|j: int| 0 <= j < avail.len() && avail[j] == y;
                assert(j != k);
                if j < k {
                    assert(rest[j] == y);
                } else {
                    assert(rest[j - 1] == y);
                }
            }
        }
        lemma_unlehmer_lehmer(t, rest);
        assert(unlehmer(d, avail) =~= seq![x] + t);
    }
}

/// Rebuilding a sequence from digits in range and reading its Lehmer code
/// gives the digits back; the rebuilt sequence holds each available element
/// once.
pub proof fn lemma_lehmer_unlehmer(d: Seq<nat>, avail: Seq<nat>)
    requires
        digits_in_range(d),
        strictly_increasing(avail),
        avail.len() == d.len(),
    ensures
        lehmer(unlehmer(d, avail)) == d,
        unlehmer(d, avail).len() == d.len(),
        unlehmer(d, avail).no_duplicates(),
        forall|y: nat| #[trigger] unlehmer(d, avail).contains(y) <==> avail.contains(y),
    decreases d.len(),
{
    let u = unlehmer(d, avail);
    if d.len() == 0 {
        assert(u =~= Seq::<nat>::empty());
        assert(lehmer(u) =~= d);
    } else {
        let k = d[0] as int;
        let x = avail[k];
        let rest = avail.remove(k);
        let dt = d.drop_first();
        assert(digits_in_range(dt)) by {
            assert forall|i: int| 0 <= i < dt.len() implies #[trigger] dt[i] < dt.len() - i by {
                assert(dt[i] == d[i + 1]);
            }
        }
        assert(strictly_increasing(rest));
        lemma_lehmer_unlehmer(dt, rest);
        let ut = unlehmer(dt, rest);
        assert(u == seq![x] + ut);
        assert(u.drop_first() =~= ut);
        assert(u[0] == x);
        lemma_lehmer_tail(u);
        assert(rest.no_duplicates());
        lemma_count_same_elements(ut, rest, x);
        lemma_count_sorted_removed(avail, k);
        assert forall|y: nat| rest.contains(y) <==> (avail.contains(y) && y != x) by {
            if rest.contains(y) {
                let j = choose|j: int| 0 <= j < rest.len() && rest[j] == y;
                if j < k {
                    assert(rest[j] == avail[j]);
                } else {
                    assert(rest[j] == avail[j + 1]);
                }
            }
            if avail.contains(y) && y != x {
                let j = choose|j: int| 0 <= j < avail.len() && avail[j] == y;
                if j < k {
                    assert(rest[j] == y);
                } else {
                    assert(rest[j - 1] == y);
                }
            }
        }
        assert(!ut.contains(x));
        assert(lehmer(u) =~= d) by {
            assert forall|i: int| 0 <= i < d.len() implies #[trigger] lehmer(u)[i] == d[i] by {
                if i > 0 {
                    assert(lehmer(u)[i] == lehmer(u).drop_first()[i - 1]);
                    assert(d[i] == dt[i - 1]);
                }
            }
        }
        assert forall|y: nat| #[trigger] u.contains(y) <==> avail.contains(y) by {
            if u.contains(y) {
                let i = choose|i: int| 0 <= i < u.len() && u[i] == y;
                if i > 0 {
                    assert(ut[i - 1] == y);
                    assert(ut.contains(y));
                    assert(rest.contains(y));
                }
            }
            if avail.contains(y) {
                if y == x {
                    assert(u[0] == y);
                } else {
                    assert(rest.contains(y));
                    assert(ut.contains(y));
                    let i = choose|i: int| 0 <= i < ut.len() && ut[i] == y;
                    assert(u[i + 1] == y);
                }
            }
        }
        assert(u.no_duplicates()) by {
            assert forall|i: int, j: int| 0 <= i < u.len() && 0 <= j < u.len() && i != j implies u[i]
                != u[j] by {
                if i > 0 && j > 0 {
                    assert(u[i] == ut[i - 1] && u[j] == ut[j - 1]);
                } else if i == 0 {
                    assert(u[j] == ut[j - 1]);
                    assert(ut.contains(u[j]));
                } else {
                    assert(u[i] == ut[i - 1]);
                    assert(ut.contains(u[i]));
                }
            }
        }
    }
}

} // verus!
