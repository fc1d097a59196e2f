//! The guarantees of the window sorter, proved over the model `wsort_from`
//! that the executable code is specified against.

use vstd::prelude::*;

verus! {

use vstd::multiset::Multiset;
use crate::model::eff;
use crate::model::is_max_of;
use crate::model::lemma_empty_to_multiset;
use crate::model::lemma_max_exists;
use crate::model::lemma_max_unique;
use crate::model::mset_max;
use crate::model::wsort_from;

/// The produced sequence is descending: every earlier item is at least as
/// great as every later one.
pub open spec fn sorted_desc(s: Seq<i64>) -> bool {
    forall|p: int, q: int| 0 <= p < q < s.len() ==> s[p] >= s[q]
}

/// Permutation law: the multiset of items produced equals the multiset of
/// items consumed (the not-yet-polled input together with the window), and
/// the produced sequence has the same number of items.
pub proof fn lemma_permutation(rem: Seq<i64>, w: Multiset<i64>, k: nat)
    ensures
        wsort_from(rem, w, k).to_multiset() == rem.to_multiset().add(w),
        wsort_from(rem, w, k).len() == rem.len() + w.len(),
    decreases rem.len() + w.len(), rem.len(),
{
    broadcast use vstd::multiset::group_multiset_axioms;
    broadcast use vstd::seq_lib::group_to_multiset_ensures;

    if w.len() < eff(k) && rem.len() > 0 {
        lemma_permutation(rem.drop_first(), w.insert(rem[0]), k);
        assert(rem =~= seq![rem[0]] + rem.drop_first());
        vstd::seq_lib::lemma_multiset_commutative(seq![rem[0]], rem.drop_first());
        assert(seq![rem[0]] =~= Seq::<i64>::empty().push(rem[0]));
        lemma_empty_to_multiset(Seq::<i64>::empty());
        assert(rem.to_multiset() =~= rem.drop_first().to_multiset().insert(rem[0]));
        assert(rem.drop_first().to_multiset().add(w.insert(rem[0])) =~= rem.to_multiset().add(
            w,
        ));
    } else if w.len() > 0 {
        lemma_max_exists(w);
        let m = mset_max(w);
        assert(Multiset::singleton(m).subset_of(w));
        lemma_permutation(rem, w.remove(m), k);
        let tail = wsort_from(rem, w.remove(m), k);
        assert(wsort_from(rem, w, k) == seq![m] + tail);
        vstd::seq_lib::lemma_multiset_commutative(seq![m], tail);
        assert(seq![m] =~= Seq::<i64>::empty().push(m));
        lemma_empty_to_multiset(Seq::<i64>::empty());
        assert((seq![m] + tail).to_multiset() =~= rem.to_multiset().add(w));
    } else {
        assert(rem.len() == 0);
        lemma_empty_to_multiset(rem);
        vstd::multiset::lemma_multiset_empty_len(w);
        assert(wsort_from(rem, w, k) == Seq::<i64>::empty());
        lemma_empty_to_multiset(Seq::<i64>::empty());
        assert(Seq::<i64>::empty().to_multiset() =~= rem.to_multiset().add(w));
    }
}

/// Topping the window up from the input, one item at a time, does not change
/// the produced sequence: the model may be restarted from the topped-up state.
pub proof fn lemma_fill_prefix(rem: Seq<i64>, w: Multiset<i64>, k: nat, c: int)
    requires
        0 <= c <= rem.len(),
        w.len() + c <= eff(k),
    ensures
        wsort_from(rem, w, k) == wsort_from(rem.skip(c), w.add(rem.take(c).to_multiset()), k),
    decreases c,
{
    broadcast use vstd::multiset::group_multiset_axioms;
    broadcast use vstd::seq_lib::group_to_multiset_ensures;

    if c == 0 {
        lemma_empty_to_multiset(rem.take(0));
        assert(w.add(rem.take(0).to_multiset()) =~= w);
        assert(rem.skip(0) =~= rem);
    } else {
        let rem1 = rem.drop_first();
        let w1 = w.insert(rem[0]);
        assert(wsort_from(rem, w, k) == wsort_from(rem1, w1, k));
        lemma_fill_prefix(rem1, w1, k, c - 1);
        assert(rem1.skip(c - 1) =~= rem.skip(c));
        assert(rem.take(c) =~= seq![rem[0]] + rem1.take(c - 1));
        vstd::seq_lib::lemma_multiset_commutative(seq![rem[0]], rem1.take(c - 1));
        assert(seq![rem[0]] =~= Seq::<i64>::empty().push(rem[0]));
        lemma_empty_to_multiset(Seq::<i64>::empty());
        assert(w1.add(rem1.take(c - 1).to_multiset()) =~= w.add(rem.take(c).to_multiset()));
    }
}

/// Once the input is exhausted, the window drains in descending order.
pub proof fn lemma_drain_sorted(w: Multiset<i64>, k: nat)
    ensures
        sorted_desc(wsort_from(Seq::<i64>::empty(), w, k)),
    decreases w.len(),
{
    broadcast use vstd::multiset::group_multiset_axioms;
    broadcast use vstd::seq_lib::group_to_multiset_ensures;

    let none = Seq::<i64>::empty();
    if w.len() > 0 {
        lemma_max_exists(w);
        let m = mset_max(w);
        assert(Multiset::singleton(m).subset_of(w));
        lemma_drain_sorted(w.remove(m), k);
        let tail = wsort_from(none, w.remove(m), k);
        lemma_permutation(none, w.remove(m), k);
        lemma_empty_to_multiset(none);
        assert(wsort_from(none, w, k) == seq![m] + tail);
        assert forall|q: int| 0 <= q < tail.len() implies tail[q] <= m by {
            assert(tail.contains(tail[q]));
            assert(tail.to_multiset().count(tail[q]) > 0);
            assert(w.contains(tail[q]));
        }
        let out = seq![m] + tail;
        assert forall|p: int, q: int| 0 <= p < q < out.len() implies out[p] >= out[q] by {
            if p > 0 {
                assert(tail[p - 1] >= tail[q - 1]);
            } else {
                assert(out[q] == tail[q - 1]);
            }
        }
    }
}

/// Full-containment law: when the window size is at least the input length,
/// the output is the input sorted in descending order.
pub proof fn lemma_full_containment(s: Seq<i64>, k: nat)
    requires
        k >= s.len(),
    ensures
        sorted_desc(wsort_from(s, Multiset::<i64>::empty(), k)),
        wsort_from(s, Multiset::<i64>::empty(), k).to_multiset() == s.to_multiset(),
        wsort_from(s, Multiset::<i64>::empty(), k).len() == s.len(),
{
    broadcast use vstd::multiset::group_multiset_axioms;
    broadcast use vstd::seq_lib::group_to_multiset_ensures;

    let w0 = Multiset::<i64>::empty();
    lemma_fill_prefix(s, w0, k, s.len() as int);
    assert(s.take(s.len() as int) =~= s);
    assert(s.skip(s.len() as int) =~= Seq::<i64>::empty());
    assert(w0.add(s.to_multiset()) =~= s.to_multiset());
    lemma_drain_sorted(s.to_multiset(), k);
    lemma_permutation(s, w0, k);
    assert(s.to_multiset().add(w0) =~= s.to_multiset());
}

/// Degenerate-window law: a window size of zero or one yields the input
/// unchanged (pass-through).
pub proof fn lemma_degenerate_window(s: Seq<i64>, k: nat)
    requires
        k <= 1,
    ensures
        wsort_from(s, Multiset::<i64>::empty(), k) == s,
    decreases s.len(),
{
    broadcast use vstd::multiset::group_multiset_axioms;

    let w0 = Multiset::<i64>::empty();
    if s.len() == 0 {
        assert(wsort_from(s, w0, k) =~= s);
    } else {
        let w1 = w0.insert(s[0]);
        assert(wsort_from(s, w0, k) == wsort_from(s.drop_first(), w1, k));
        assert(w1.len() == 1);
        assert(is_max_of(w1, s[0]));
        lemma_max_exists(w1);
        lemma_max_unique(w1, s[0], mset_max(w1));
        assert(w1.remove(s[0]) =~= w0);
        lemma_degenerate_window(s.drop_first(), k);
        assert(wsort_from(s.drop_first(), w1, k) == seq![s[0]] + s.drop_first());
        assert(seq![s[0]] + s.drop_first() =~= s);
    }
}

/// Two items buffered together in the window are emitted in descending
/// order: the greater one's first occurrence in the output comes first.
pub proof fn lemma_emission_order(rem: Seq<i64>, w: Multiset<i64>, k: nat, a: i64, b: i64)
    requires
        w.contains(a),
        w.contains(b),
        a > b,
    ensures
        ({
            let out = wsort_from(rem, w, k);
            &&& out.index_of_first(a) is Some
            &&& out.index_of_first(b) is Some
            &&& out.index_of_first(a).unwrap() < out.index_of_first(b).unwrap()
        }),
    decreases rem.len() + w.len(), rem.len(),
{
    broadcast use vstd::multiset::group_multiset_axioms;
    broadcast use vstd::seq_lib::group_to_multiset_ensures;

    let out = wsort_from(rem, w, k);
    if w.len() < eff(k) && rem.len() > 0 {
        let w1 = w.insert(rem[0]);
        assert(w1.contains(a) && w1.contains(b));
        lemma_emission_order(rem.drop_first(), w1, k, a, b);
        assert(out == wsort_from(rem.drop_first(), w1, k));
    } else {
        assert(w.len() > 0);
        lemma_max_exists(w);
        let m = mset_max(w);
        assert(Multiset::singleton(m).subset_of(w));
        let tail = wsort_from(rem, w.remove(m), k);
        assert(out == seq![m] + tail);
        assert(out[0] == m);
        lemma_permutation(rem, w.remove(m), k);
        if m == a {
            // `a` leads the output; `b` still occurs later in the tail.
            assert(w.remove(m).count(b) == w.count(b));
            assert(tail.to_multiset().count(b) > 0);
            assert(tail.contains(b));
            let tb = choose|t: int| 0 <= t < tail.len() && tail[t] == b;
            assert(out[tb + 1] == b);
            assert(out.contains(a) && out.contains(b));
            out.index_of_first_ensures(a);
            out.index_of_first_ensures(b);
            let oa = out.index_of_first(a).unwrap();
            let ob = out.index_of_first(b).unwrap();
            assert(oa == 0) by {
                if oa > 0 {
                    assert(out[0] != a);
                }
            }
            assert(ob > 0) by {
                assert(out[ob] == b && b != a);
            }
        } else {
            // the emitted maximum is distinct from both; recurse on the tail.
            assert(m >= a);
            assert(w.remove(m).count(a) == w.count(a));
            assert(w.remove(m).count(b) == w.count(b));
            lemma_emission_order(rem, w.remove(m), k, a, b);
            tail.index_of_first_ensures(a);
            tail.index_of_first_ensures(b);
            let ta = tail.index_of_first(a).unwrap();
            let tb = tail.index_of_first(b).unwrap();
            assert(out.contains(a)) by {
                assert(out[ta + 1] == a);
            }
            assert(out.contains(b)) by {
                assert(out[tb + 1] == b);
            }
            out.index_of_first_ensures(a);
            out.index_of_first_ensures(b);
            let oa = out.index_of_first(a).unwrap();
            let ob = out.index_of_first(b).unwrap();
            assert(oa == ta + 1) by {
                assert(out[ta + 1] == a);
                assert forall|p: int| 0 <= p < ta + 1 implies out[p] != a by {
                    if p > 0 {
                        assert(out[p] == tail[p - 1]);
                    }
                }
                if oa < ta + 1 {
                    assert(out[oa] == a);
                }
            }
            assert(ob == tb + 1) by {
                assert(out[tb + 1] == b);
                assert forall|p: int| 0 <= p < tb + 1 implies out[p] != b by {
                    if p > 0 {
                        assert(out[p] == tail[p - 1]);
                    }
                }
                if ob < tb + 1 {
                    assert(out[ob] == b);
                }
            }
        }
    }
}

/// Window-local order law: two input positions that are buffered together in
/// the first window (both lie within the first `window_size` positions) are
/// emitted in descending-value order, the default direction of the sorter.
/// Positions that never share the window carry no such guarantee.
pub proof fn lemma_window_local_order(s: Seq<i64>, k: nat, i: int, j: int)
    requires
        0 <= i < s.len(),
        0 <= j < s.len(),
        i < k,
        j < k,
        s[i] > s[j],
    ensures
        ({
            let out = wsort_from(s, Multiset::<i64>::empty(), k);
            &&& out.index_of_first(s[i]) is Some
            &&& out.index_of_first(s[j]) is Some
            &&& out.index_of_first(s[i]).unwrap() < out.index_of_first(s[j]).unwrap()
        }),
{
    broadcast use vstd::multiset::group_multiset_axioms;
    broadcast use vstd::seq_lib::group_to_multiset_ensures;

    let w0 = Multiset::<i64>::empty();
    let c: int = if k <= s.len() {
        k as int
    } else {
        s.len() as int
    };
    lemma_fill_prefix(s, w0, k, c);
    let w1 = w0.add(s.take(c).to_multiset());
    assert(w1 =~= s.take(c).to_multiset());
    assert(s.take(c)[i] == s[i] && s.take(c)[j] == s[j]);
    assert(s.take(c).contains(s[i]) && s.take(c).contains(s[j]));
    lemma_emission_order(s.skip(c), w1, k, s[i], s[j]);
}

/// Number of positions before `upto` in `s` holding an item at least `v`.
spec fn ndom(s: Seq<i64>, v: i64, upto: int) -> int
    decreases upto,
{
    if upto <= 0 {
        0
    } else {
        ndom(s, v, upto - 1) + if s[upto - 1] >= v {
            1int
        } else {
            0int
        }
    }
}

/// Number of buffered items at least `v`.
spec fn wdom(w: Multiset<i64>, v: i64) -> int {
    w.filter(|x: i64| x >= v).len() as int
}

proof fn lemma_ndom_bounds(s: Seq<i64>, v: i64, upto: int)
    requires
        0 <= upto,
    ensures
        0 <= ndom(s, v, upto) <= upto,
    decreases upto,
{
    if upto > 0 {
        lemma_ndom_bounds(s, v, upto - 1);
    }
}

proof fn lemma_ndom_shift(s: Seq<i64>, v: i64, upto: int)
    requires
        0 <= upto,
        upto + 1 <= s.len(),
    ensures
        ndom(s.drop_first(), v, upto) == ndom(s, v, upto + 1) - (if s[0] >= v {
            1int
        } else {
            0int
        }),
    decreases upto,
{
    if upto > 0 {
        lemma_ndom_shift(s, v, upto - 1);
        assert(s.drop_first()[upto - 1] == s[upto]);
    } else {
        assert(ndom(s, v, 0) == 0);
        assert(ndom(s.drop_first(), v, 0) == 0);
    }
}

proof fn lemma_ndom_lower(s: Seq<i64>, v: i64, t: int, upto: int)
    requires
        0 <= t <= upto,
        forall|q: int| 0 <= q < t ==> s[q] >= v,
    ensures
        ndom(s, v, upto) >= t,
    decreases upto,
{
    if upto > t {
        lemma_ndom_lower(s, v, t, upto - 1);
    } else if t > 0 {
        lemma_ndom_lower(s, v, t - 1, upto - 1);
        assert(s[t - 1] >= v);
    }
}

proof fn lemma_wdom_empty(v: i64)
    ensures
        wdom(Multiset::<i64>::empty(), v) == 0,
{
    broadcast use vstd::multiset::group_multiset_axioms;

    assert(Multiset::<i64>::empty().filter(|x: i64| x >= v) =~= Multiset::<i64>::empty());
}

proof fn lemma_wdom_insert(w: Multiset<i64>, y: i64, v: i64)
    ensures
        wdom(w.insert(y), v) == wdom(w, v) + (if y >= v {
            1int
        } else {
            0int
        }),
{
    broadcast use vstd::multiset::group_multiset_axioms;

    if y >= v {
        assert(w.insert(y).filter(|x: i64| x >= v) =~= w.filter(|x: i64| x >= v).insert(y));
    } else {
        assert(w.insert(y).filter(|x: i64| x >= v) =~= w.filter(|x: i64| x >= v));
    }
}

proof fn lemma_wdom_remove(w: Multiset<i64>, y: i64, v: i64)
    requires
        w.contains(y),
    ensures
        wdom(w.remove(y), v) == wdom(w, v) - (if y >= v {
            1int
        } else {
            0int
        }),
{
    broadcast use vstd::multiset::group_multiset_axioms;

    if y >= v {
        assert(w.remove(y).filter(|x: i64| x >= v) =~= w.filter(|x: i64| x >= v).remove(y));
        assert(w.filter(|x: i64| x >= v).count(y) > 0);
        assert(Multiset::singleton(y).subset_of(w.filter(|x: i64| x >= v)));
    } else {
        assert(w.remove(y).filter(|x: i64| x >= v) =~= w.filter(|x: i64| x >= v));
    }
}

proof fn lemma_wdom_witness(w: Multiset<i64>, v: i64)
    requires
        wdom(w, v) >= 1,
    ensures
        exists|x: i64| w.contains(x) && x >= v,
{
    broadcast use vstd::multiset::group_multiset_axioms;

    let fw = w.filter(|x: i64| x >= v);
    vstd::multiset::lemma_multiset_empty_len(fw);
    let u = fw.choose();
    assert(fw.count(u) > 0);
    assert(w.contains(u) && u >= v);
}

/// The pending input is dominated: each pending item is preceded, among
/// buffered items and earlier pending items together, by enough items at
/// least as great that one of them is always still buffered when the window
/// has been topped up.
spec fn dominated(rem: Seq<i64>, w: Multiset<i64>, k: nat) -> bool {
    forall|j: int|
        0 <= j < rem.len() ==> wdom(w, rem[j]) + #[trigger] ndom(rem, rem[j], j) + eff(k) >= j + 1
            + w.len()
}

proof fn lemma_sorted_from_dominated(rem: Seq<i64>, w: Multiset<i64>, k: nat)
    requires
        dominated(rem, w, k),
    ensures
        sorted_desc(wsort_from(rem, w, k)),
    decreases rem.len() + w.len(), rem.len(),
{
    broadcast use vstd::multiset::group_multiset_axioms;
    broadcast use vstd::seq_lib::group_to_multiset_ensures;

    if w.len() < eff(k) && rem.len() > 0 {
        let rem1 = rem.drop_first();
        let w1 = w.insert(rem[0]);
        assert forall|j: int| 0 <= j < rem1.len() implies wdom(w1, rem1[j]) + #[trigger] ndom(
            rem1,
            rem1[j],
            j,
        ) + eff(k) >= j + 1 + w1.len() by {
            let v = rem1[j];
            assert(rem[j + 1] == v);
            lemma_wdom_insert(w, rem[0], v);
            lemma_ndom_shift(rem, v, j);
            assert(wdom(w, v) + ndom(rem, v, j + 1) + eff(k) >= (j + 1) + 1 + w.len());
        }
        lemma_sorted_from_dominated(rem1, w1, k);
        assert(wsort_from(rem, w, k) == wsort_from(rem1, w1, k));
    } else if w.len() > 0 {
        lemma_max_exists(w);
        let m = mset_max(w);
        assert(Multiset::singleton(m).subset_of(w));
        let w1 = w.remove(m);
        assert forall|j: int| 0 <= j < rem.len() implies wdom(w1, rem[j]) + #[trigger] ndom(
            rem,
            rem[j],
            j,
        ) + eff(k) >= j + 1 + w1.len() by {
            lemma_wdom_remove(w, m, rem[j]);
            assert(wdom(w, rem[j]) + ndom(rem, rem[j], j) + eff(k) >= j + 1 + w.len());
        }
        lemma_sorted_from_dominated(rem, w1, k);
        let tail = wsort_from(rem, w1, k);
        lemma_permutation(rem, w1, k);
        // in this branch the window was topped up, so every pending input
        // item is bounded by a buffered item, hence by the emitted maximum
        assert forall|j: int| 0 <= j < rem.len() implies rem[j] <= m by {
            assert(w.len() >= eff(k));
            lemma_ndom_bounds(rem, rem[j], j);
            assert(wdom(w, rem[j]) + ndom(rem, rem[j], j) + eff(k) >= j + 1 + w.len());
            lemma_wdom_witness(w, rem[j]);
            let x = choose|x: i64| w.contains(x) && x >= rem[j];
            assert(x <= m);
        }
        assert forall|q: int| 0 <= q < tail.len() implies tail[q] <= m by {
            assert(tail.contains(tail[q]));
            assert(tail.to_multiset().count(tail[q]) > 0);
            if w1.count(tail[q]) > 0 {
                assert(w.contains(tail[q]));
            } else {
                assert(rem.to_multiset().count(tail[q]) > 0);
                assert(rem.contains(tail[q]));
                let j = choose|j: int| 0 <= j < rem.len() && rem[j] == tail[q];
                assert(rem[j] <= m);
            }
        }
        let out = seq![m] + tail;
        assert(wsort_from(rem, w, k) == out);
        assert forall|p: int, q: int| 0 <= p < q < out.len() implies out[p] >= out[q] by {
            if p > 0 {
                assert(tail[p - 1] >= tail[q - 1]);
            } else {
                assert(out[q] == tail[q - 1]);
            }
        }
    }
}

/// Window-local order, global form: when every input pair at distance at
/// least `window_size` already stands in descending order — no item is a
/// full window late — the output is perfectly sorted.  (Pairs closer than
/// the window size are re-ordered by the window itself; a pair at distance
/// `window_size` or more is never re-ordered, so this hypothesis is also
/// necessary for a sorted output.)
pub proof fn lemma_sorts_almost_sorted_input(s: Seq<i64>, k: nat)
    requires
        forall|i: int, j: int| 0 <= i < j < s.len() && j - i >= k ==> s[i] >= s[j],
    ensures
        sorted_desc(wsort_from(s, Multiset::<i64>::empty(), k)),
{
    let w0 = Multiset::<i64>::empty();
    assert forall|j: int| 0 <= j < s.len() implies wdom(w0, s[j]) + #[trigger] ndom(s, s[j], j)
        + eff(k) >= j + 1 + w0.len() by {
        lemma_wdom_empty(s[j]);
        vstd::multiset::lemma_multiset_empty_len(w0);
        let t: int = if j + 1 - eff(k) >= 0 {
            j + 1 - eff(k)
        } else {
            0int
        };
        assert forall|q: int| 0 <= q < t implies s[q] >= s[j] by {
            assert(j - q >= eff(k));
        }
        lemma_ndom_lower(s, s[j], t, j);
    }
    lemma_sorted_from_dominated(s, w0, k);
}

} // verus!
