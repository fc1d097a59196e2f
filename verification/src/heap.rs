//! A binary max-heap stored in a vector, backing the lookahead window.
//!
//! `heap_push` and `heap_pop` preserve the heap ordering and are specified
//! purely in terms of the multiset of buffered items, so the rest of the
//! crate can reason about the window as a multiset.

use vstd::prelude::*;

verus! {

use vstd::multiset::Multiset;
use vstd::pervasive::VecAdditionalExecFns;
use crate::model::is_max_of;

/// Index of the parent of heap slot `i`.
pub open spec fn heap_parent(i: int) -> int {
    (i - 1) / 2
}

/// The binary max-heap ordering: every slot is bounded by its parent,
/// so the greatest item sits at the root.
pub open spec fn is_heap(s: Seq<i64>) -> bool {
    forall|i: int| 1 <= i < s.len() ==> #[trigger] s[i] <= s[heap_parent(i)]
}

/// In a heap, every slot is bounded by the root.
pub proof fn lemma_heap_root_is_max(s: Seq<i64>, i: int)
    requires
        is_heap(s),
        0 <= i < s.len(),
    ensures
        s[i] <= s[0],
    decreases i,
{
    if i > 0 {
        assert(s[i] <= s[heap_parent(i)]);
        lemma_heap_root_is_max(s, heap_parent(i));
    }
}

/// Exchanging two slots of a sequence leaves its multiset of items unchanged.
proof fn lemma_swap_multiset(s: Seq<i64>, i: int, j: int)
    requires
        0 <= i < s.len(),
        0 <= j < s.len(),
        i != j,
    ensures
        s.update(i, s[j]).update(j, s[i]).to_multiset() == s.to_multiset(),
{
    broadcast use vstd::multiset::group_multiset_axioms;

    let s1 = s.update(i, s[j]);
    let s2 = s1.update(j, s[i]);
    vstd::seq_lib::to_multiset_update(s, i, s[j]);
    vstd::seq_lib::to_multiset_update(s1, j, s[i]);
    broadcast use vstd::seq_lib::to_multiset_contains;

    assert(s.contains(s[i]));
    assert(s.contains(s[j]));
    assert(s1[j] == s[j]);
    assert(s2.to_multiset() =~= s.to_multiset());
}

/// Insert an item, preserving the heap ordering; the heap's contents gain
/// exactly that item.
pub fn heap_push(v: &mut Vec<i64>, x: i64)
    requires
        is_heap(old(v)@),
    ensures
        is_heap(final(v)@),
        final(v)@.to_multiset() == old(v)@.to_multiset().insert(x),
        final(v)@.len() == old(v)@.len() + 1,
{
    broadcast use vstd::seq_lib::group_to_multiset_ensures;
    broadcast use vstd::multiset::group_multiset_axioms;

    v.push(x);
    let mut i: usize = v.len() - 1;
    loop
        invariant
            0 <= i < v@.len(),
            v@.len() == old(v)@.len() + 1,
            v@.to_multiset() == old(v)@.to_multiset().insert(x),
            // heap ordering everywhere except that slot `i` may exceed its parent
            forall|j: int|
                1 <= j < v@.len() && j != i ==> #[trigger] v@[j] <= v@[heap_parent(j)],
            // the children of slot `i` are bounded by its parent as well
            i > 0 ==> forall|j: int|
                1 <= j < v@.len() && heap_parent(j) == i ==> #[trigger] v@[j] <= v@[
                    heap_parent(i as int)
                ],
        ensures
            is_heap(v@),
            v@.len() == old(v)@.len() + 1,
            v@.to_multiset() == old(v)@.to_multiset().insert(x),
        decreases i,
    {
        if i == 0 {
            break ;
        }
        let p: usize = (i - 1) / 2;
        if v[p] >= v[i] {
            break ;
        }
        let vi = v[i];
        let vp = v[p];
        let ghost pre = v@;
        v.set(i, vp);
        v.set(p, vi);
        proof {
            lemma_swap_multiset(pre, i as int, p as int);
            assert(v@ =~= pre.update(i as int, pre[p as int]).update(p as int, pre[i as int]));
        }
        i = p;
    }
}

/// Remove and return the greatest item, or `None` when the heap is empty;
/// the heap's contents lose exactly the returned item.
pub fn heap_pop(v: &mut Vec<i64>) -> (r: Option<i64>)
    requires
        is_heap(old(v)@),
    ensures
        is_heap(final(v)@),
        old(v)@.len() == 0 ==> r == None::<i64> && final(v)@ == old(v)@,
        old(v)@.len() > 0 ==> {
            &&& r == Some(old(v)@[0])
            &&& is_max_of(old(v)@.to_multiset(), old(v)@[0])
            &&& final(v)@.to_multiset() == old(v)@.to_multiset().remove(old(v)@[0])
            &&& final(v)@.len() == old(v)@.len() - 1
        },
{
    broadcast use vstd::seq_lib::group_to_multiset_ensures;
    broadcast use vstd::multiset::group_multiset_axioms;

    if v.len() == 0 {
        return None;
    }
    proof {
        assert forall|y: i64| old(v)@.to_multiset().contains(y) implies y <= old(v)@[0] by {
            let j = choose|j: int| 0 <= j < old(v)@.len() && old(v)@[j] == y;
            lemma_heap_root_is_max(old(v)@, j);
        }
        assert(old(v)@.to_multiset().contains(old(v)@[0]));
    }
    let top = v.swap_remove(0);
    proof {
        let moved = old(v)@.update(0, old(v)@.last()).drop_last();
        assert(v@ =~= moved);
        assert(old(v)@.update(0, old(v)@.last()).remove(old(v)@.len() - 1) =~= moved);
        assert(v@.to_multiset() =~= old(v)@.to_multiset().remove(old(v)@[0]));
    }
    if v.len() > 0 {
        sift_down(v);
    }
    Some(top)
}

/// Restore the heap ordering after the root has been replaced: the root item
/// trickles down until both of its children are bounded by it.
fn sift_down(v: &mut Vec<i64>)
    requires
        old(v)@.len() > 0,
        // heap ordering everywhere except that the children of the root
        // may exceed it
        forall|j: int|
            1 <= j < old(v)@.len() && heap_parent(j) != 0 ==> #[trigger] old(v)@[j] <= old(
                v,
            )@[heap_parent(j)],
    ensures
        is_heap(final(v)@),
        final(v)@.to_multiset() == old(v)@.to_multiset(),
        final(v)@.len() == old(v)@.len(),
{
    broadcast use vstd::seq_lib::group_to_multiset_ensures;
    broadcast use vstd::multiset::group_multiset_axioms;

    let mut i: usize = 0;
    loop
        invariant
            0 <= i < v@.len(),
            v@.len() == old(v)@.len(),
            v@.to_multiset() == old(v)@.to_multiset(),
            // heap ordering everywhere except that the children of slot `i`
            // may exceed it
            forall|j: int|
                1 <= j < v@.len() && heap_parent(j) != i ==> #[trigger] v@[j] <= v@[heap_parent(
                    j,
                )],
            // the children of slot `i` are bounded by its parent
            i > 0 ==> forall|j: int|
                1 <= j < v@.len() && heap_parent(j) == i ==> #[trigger] v@[j] <= v@[heap_parent(
                    i as int,
                )],
        ensures
            is_heap(v@),
            v@.len() == old(v)@.len(),
            v@.to_multiset() == old(v)@.to_multiset(),
        decreases v@.len() - i,
    {
        let left: usize = if i <= (usize::MAX - 1) / 2 {
            2 * i + 1
        } else {
            usize::MAX
        };
        if left >= v.len() {
            // no children
            break ;
        }
        let mut c: usize = left;
        if left < v.len() - 1 && v[left + 1] > v[left] {
            c = left + 1;
        }
        if v[i] >= v[c] {
            break ;
        }
        let vi = v[i];
        let vc = v[c];
        let ghost pre = v@;
        v.set(i, vc);
        v.set(c, vi);
        proof {
            lemma_swap_multiset(pre, i as int, c as int);
            assert(v@ =~= pre.update(i as int, pre[c as int]).update(c as int, pre[i as int]));
        }
        i = c;
    }
}

} // verus!
