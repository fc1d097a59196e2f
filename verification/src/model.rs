//! Mathematical model of the window sorter.
//!
//! `wsort_from` gives the entire output sequence produced from a given state
//! (not-yet-polled input, current window contents, configured window size).
//! The executable code in the crate root is proved to follow this model.

use vstd::prelude::*;

verus! {

use vstd::multiset::Multiset;

/// Effective window capacity: a window size of zero degenerates to a
/// pass-through, which behaves exactly like a window of one item.
pub open spec fn eff(k: nat) -> nat {
    if k == 0 {
        1
    } else {
        k
    }
}

/// `x` is a greatest element of the multiset `m`.
pub open spec fn is_max_of(m: Multiset<i64>, x: i64) -> bool {
    m.contains(x) && forall|y: i64| m.contains(y) ==> y <= x
}

/// The greatest element of a multiset; meaningful when `m` is non-empty
/// (see `lemma_max_exists`).
pub open spec fn mset_max(m: Multiset<i64>) -> i64 {
    choose|x: i64| is_max_of(m, x)
}

/// Every non-empty multiset of items has a greatest element,
/// and `mset_max` returns one.
pub proof fn lemma_max_exists(m: Multiset<i64>)
    requires
        m.len() > 0,
    ensures
        is_max_of(m, mset_max(m)),
    decreases m.len(),
{
    broadcast use vstd::multiset::group_multiset_axioms;

    vstd::multiset::lemma_multiset_empty_len(m);
    let e = m.choose();
    let rest = m.remove(e);
    assert(Multiset::singleton(e).subset_of(m));
    assert(rest.len() == m.len() - 1);
    if rest.len() == 0 {
        vstd::multiset::lemma_multiset_empty_len(rest);
        assert forall|y: i64| m.contains(y) implies y <= e by {
            assert(rest.count(y) == 0);
        }
        assert(is_max_of(m, e));
    } else {
        lemma_max_exists(rest);
        let mm = mset_max(rest);
        let cand: i64 = if e <= mm {
            mm
        } else {
            e
        };
        assert(m.contains(cand));
        assert forall|y: i64| m.contains(y) implies y <= cand by {
            if y != e {
                assert(rest.count(y) == m.count(y));
                assert(rest.contains(y));
                assert(y <= mm);
            }
        }
        assert(is_max_of(m, cand));
    }
}

/// Any two greatest elements of a multiset are equal.
pub proof fn lemma_max_unique(m: Multiset<i64>, a: i64, b: i64)
    requires
        is_max_of(m, a),
        is_max_of(m, b),
    ensures
        a == b,
{
}

/// The output sequence of the window sorter, starting from a state with
/// not-yet-polled input `rem`, window contents `w`, and window size `k`:
/// while the window is below its effective capacity and input remains, the
/// window is topped up from the input; then the greatest buffered item is
/// emitted; when both input and window are empty, the output ends.
pub open spec fn wsort_from(rem: Seq<i64>, w: Multiset<i64>, k: nat) -> Seq<i64>
    decreases rem.len() + w.len(), rem.len(),
{
    if w.len() < eff(k) && rem.len() > 0 {
        wsort_from(rem.drop_first(), w.insert(rem[0]), k)
    } else if w.len() > 0 {
        proof {
            broadcast use vstd::multiset::group_multiset_axioms;

            lemma_max_exists(w);
            assert(Multiset::singleton(mset_max(w)).subset_of(w));
        }
        seq![mset_max(w)] + wsort_from(rem, w.remove(mset_max(w)), k)
    } else {
        Seq::empty()
    }
}

/// How many items a single produce step moves from the input into the
/// window: the window is topped up to its effective capacity, or until the
/// input runs out.
pub open spec fn fill_count(rem: Seq<i64>, w: Multiset<i64>, k: nat) -> int {
    if w.len() < eff(k) {
        if rem.len() <= eff(k) - w.len() {
            rem.len() as int
        } else {
            eff(k) - w.len()
        }
    } else {
        0
    }
}

/// The window contents after the top-up of a single produce step.
pub open spec fn filled_window(rem: Seq<i64>, w: Multiset<i64>, k: nat) -> Multiset<i64> {
    w.add(rem.take(fill_count(rem, w, k)).to_multiset())
}

/// The not-yet-polled input after the top-up of a single produce step.
pub open spec fn filled_remaining(rem: Seq<i64>, w: Multiset<i64>, k: nat) -> Seq<i64> {
    rem.skip(fill_count(rem, w, k))
}

/// What a single produce step emits: the greatest item buffered after the
/// top-up, or nothing when input and window are both exhausted.
pub open spec fn step_output(rem: Seq<i64>, w: Multiset<i64>, k: nat) -> Option<i64> {
    if filled_window(rem, w, k).len() == 0 {
        None
    } else {
        Some(mset_max(filled_window(rem, w, k)))
    }
}

/// The window contents after a whole produce step: topped up, then with the
/// emitted item removed.
pub open spec fn step_window(rem: Seq<i64>, w: Multiset<i64>, k: nat) -> Multiset<i64> {
    if filled_window(rem, w, k).len() == 0 {
        filled_window(rem, w, k)
    } else {
        filled_window(rem, w, k).remove(mset_max(filled_window(rem, w, k)))
    }
}

/// The empty sequence holds the empty multiset.
pub proof fn lemma_empty_to_multiset(s: Seq<i64>)
    requires
        s.len() == 0,
    ensures
        s.to_multiset() == Multiset::<i64>::empty(),
{
    broadcast use vstd::seq_lib::group_to_multiset_ensures;

    vstd::multiset::lemma_multiset_empty_len(s.to_multiset());
}

/// After the top-up of a produce step, the window stands at its effective
/// capacity unless the input has run dry.
pub proof fn lemma_fill_invariant(rem: Seq<i64>, w: Multiset<i64>, k: nat)
    requires
        w.len() <= eff(k),
    ensures
        filled_window(rem, w, k).len() == eff(k) || filled_remaining(rem, w, k).len() == 0,
{
    broadcast use vstd::multiset::group_multiset_axioms;
    broadcast use vstd::seq_lib::group_to_multiset_ensures;

    let c = fill_count(rem, w, k);
    assert(rem.take(c).len() == c);
}

/// A single produce step agrees with the model: the output of `wsort_from`
/// is what the step emits, followed by the output from the stepped state.
pub proof fn lemma_wsort_step(rem: Seq<i64>, w: Multiset<i64>, k: nat)
    requires
        w.len() <= eff(k),
    ensures
        wsort_from(rem, w, k) == match step_output(rem, w, k) {
            None => Seq::<i64>::empty(),
            Some(m) => seq![m] + wsort_from(
                filled_remaining(rem, w, k),
                step_window(rem, w, k),
                k,
            ),
        },
    decreases rem.len(),
{
    broadcast use vstd::multiset::group_multiset_axioms;
    broadcast use vstd::seq_lib::group_to_multiset_ensures;

    let c = fill_count(rem, w, k);
    if c == 0 {
        lemma_empty_to_multiset(rem.take(0));
        assert(filled_window(rem, w, k) =~= w);
        assert(filled_remaining(rem, w, k) =~= rem);
        if w.len() == 0 {
            assert(wsort_from(rem, w, k) == Seq::<i64>::empty());
        }
    } else {
        let rem1 = rem.drop_first();
        let w1 = w.insert(rem[0]);
        assert(wsort_from(rem, w, k) == wsort_from(rem1, w1, k));
        lemma_wsort_step(rem1, w1, k);
        assert(fill_count(rem1, w1, k) == c - 1);
        assert(rem.take(c) =~= seq![rem[0]] + rem1.take(c - 1));
        vstd::seq_lib::lemma_multiset_commutative(seq![rem[0]], rem1.take(c - 1));
        assert(seq![rem[0]] =~= Seq::<i64>::empty().push(rem[0]));
        lemma_empty_to_multiset(Seq::<i64>::empty());
        assert(seq![rem[0]].to_multiset() =~= Multiset::<i64>::empty().insert(rem[0]));
        assert(filled_window(rem1, w1, k) =~= filled_window(rem, w, k));
        assert(filled_remaining(rem1, w1, k) =~= filled_remaining(rem, w, k));
        assert(step_output(rem1, w1, k) == step_output(rem, w, k));
        assert(step_window(rem1, w1, k) =~= step_window(rem, w, k));
    }
}

} // verus!
