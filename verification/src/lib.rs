//! An adapter that sorts items within a sliding window.
//!
//! The adapter buffers up to `window_size` items from its input in a binary
//! max-heap (the window), always emitting the greatest buffered item and
//! refilling the window from the input as items are consumed.  The default
//! direction is therefore from highest to lowest item; to sort the other way,
//! feed items through an order-reversing map such as negation.
//!
//! This is useful when a possibly large input is already mostly sorted, so
//! that buffering it entirely just to sort it would be wasteful: with a bound
//! on how far out of place an item can be, a window of that size un-scrambles
//! the input while holding only `window_size` items at a time.

use vstd::prelude::*;

mod heap;
pub mod laws;
pub mod model;

verus! {

use vstd::multiset::Multiset;
use crate::heap::heap_pop;
use crate::heap::heap_push;
use crate::heap::is_heap;
use crate::model::eff;
use crate::model::filled_remaining;
use crate::model::lemma_max_unique;
use crate::model::mset_max;
use crate::model::step_output;
use crate::model::step_window;
use crate::model::wsort_from;

/// An adapter that sorts the items of an input vector within a sliding
/// window.  See the crate-level documentation for more info.
pub struct WindowSort {
    input: Vec<i64>,
    pos: usize,
    window_size: usize,
    heap: Vec<i64>,
}

impl WindowSort {
    /// The input items that have not yet been polled into the window.
    pub closed spec fn remaining(self) -> Seq<i64> {
        self.input@.skip(self.pos as int)
    }

    /// The multiset of items currently buffered in the window.
    pub closed spec fn window(self) -> Multiset<i64> {
        self.heap@.to_multiset()
    }

    /// The configured window size.
    pub closed spec fn size(self) -> nat {
        self.window_size as nat
    }

    /// Internal invariant: the polling cursor is in bounds, the window is a
    /// well-ordered heap, and it never holds more items than the effective
    /// window capacity, nor more than have been polled so far.
    pub closed spec fn well_formed(self) -> bool {
        &&& self.pos <= self.input@.len()
        &&& is_heap(self.heap@)
        &&& self.heap@.len() <= eff(self.size())
        &&& self.heap@.len() <= self.pos
    }

    /// The terminal state: no input remains and the window is empty, so no
    /// further item will ever be produced.
    pub open spec fn is_exhausted(self) -> bool {
        self.remaining().len() == 0 && self.window().len() == 0
    }

    /// Produces the next item: tops up the window from the input until it
    /// holds `window_size` items (at least one, so that a window size of
    /// zero passes items through) or the input is exhausted, then removes
    /// and returns the greatest buffered item.  Returns `None` exactly when
    /// both input and window are empty, and from then on always will.
    #[verifier::rlimit(50)]
    pub fn next(&mut self) -> (r: Option<i64>)
        requires
            old(self).well_formed(),
        ensures
            final(self).well_formed(),
            final(self).size() == old(self).size(),
            r == step_output(old(self).remaining(), old(self).window(), old(self).size()),
            final(self).remaining() == filled_remaining(
                old(self).remaining(),
                old(self).window(),
                old(self).size(),
            ),
            final(self).window() == step_window(
                old(self).remaining(),
                old(self).window(),
                old(self).size(),
            ),
            r == None::<i64> ==> final(self).is_exhausted(),
            old(self).is_exhausted() ==> r == None::<i64> && final(self).is_exhausted(),
            r != None::<i64> ==> final(self).remaining().len() + final(self).window().len()
                == old(self).remaining().len() + old(self).window().len() - 1,
            // the window never outgrows the effective capacity, and after the
            // top-up it is short of it only because the input ran dry
            final(self).window().len() <= eff(old(self).size()),
            r != None::<i64> ==> final(self).window().len() == eff(old(self).size()) - 1
                || final(self).remaining().len() == 0,
    {
        broadcast use vstd::seq_lib::group_to_multiset_ensures;
        broadcast use vstd::multiset::group_multiset_axioms;

        let ghost rem0 = self.remaining();
        let ghost w0 = self.window();
        let ghost k0 = self.size();
        let ghost input0 = self.input@;
        let ghost pos0 = self.pos;
        let target: usize = if self.window_size == 0 {
            1
        } else {
            self.window_size
        };
        while self.heap.len() < target && self.pos < self.input.len()
            invariant
                self.input@ == input0,
                self.window_size as nat == k0,
                target == eff(k0),
                pos0 <= self.pos <= self.input@.len(),
                is_heap(self.heap@),
                self.heap@.len() <= target,
                self.heap@.len() <= self.pos,
                self.heap@.len() == w0.len() + self.pos - pos0,
                self.heap@.to_multiset() == w0.add(
                    rem0.take(self.pos - pos0).to_multiset(),
                ),
                rem0 == input0.skip(pos0 as int),
                w0.len() <= target,
            decreases self.input@.len() - self.pos,
        {
            let x = self.input[self.pos];
            self.pos = self.pos + 1;
            heap_push(&mut self.heap, x);
            proof {
                broadcast use vstd::seq_lib::group_to_multiset_ensures;
                broadcast use vstd::multiset::group_multiset_axioms;

                let n = self.pos - pos0;
                assert(x == rem0[n - 1]);
                assert(rem0.take(n as int) =~= rem0.take(n - 1).push(x));
                assert(rem0.take(n - 1).push(x).to_multiset() =~= rem0.take(
                    n - 1,
                ).to_multiset().insert(x));
                assert(self.heap@.to_multiset() =~= w0.add(rem0.take(n as int).to_multiset()));
            }
        }
        proof {
            let c = crate::model::fill_count(rem0, w0, k0);
            assert(self.pos - pos0 == c);
            assert(self.heap@.to_multiset() == crate::model::filled_window(rem0, w0, k0));
        }
        let ghost filled = self.heap@.to_multiset();
        let r = heap_pop(&mut self.heap);
        proof {
            if filled.len() > 0 {
                crate::model::lemma_max_exists(filled);
                lemma_max_unique(filled, r.unwrap(), mset_max(filled));
            }
            assert(self.remaining() =~= filled_remaining(rem0, w0, k0));
            crate::model::lemma_fill_invariant(rem0, w0, k0);
        }
        r
    }

    /// Reports exactly how many more items `next` will yield: the items
    /// still to be polled from the input plus the items currently buffered
    /// in the window.  Both the lower and the upper bound are exact.
    pub fn size_hint(&self) -> (r: (usize, Option<usize>))
        requires
            self.well_formed(),
        ensures
            r.0 == self.remaining().len() + self.window().len(),
            r.1 == Some(r.0),
    {
        proof {
            // the window holds exactly as many items as the heap's vector
            broadcast use vstd::seq_lib::group_to_multiset_ensures;

        }
        let count = (self.input.len() - self.pos) + self.heap.len();
        (count, Some(count))
    }

    /// Runs the sorter to exhaustion and returns every produced item, in
    /// production order.  The result is exactly the model output
    /// `wsort_from` for the starting state; in particular it is a
    /// permutation of the items that were still to be produced.
    #[verifier::loop_isolation(false)]
    pub fn drain(&mut self) -> (r: Vec<i64>)
        requires
            old(self).well_formed(),
        ensures
            final(self).well_formed(),
            final(self).size() == old(self).size(),
            final(self).is_exhausted(),
            r@ == wsort_from(old(self).remaining(), old(self).window(), old(self).size()),
            r@.to_multiset() == old(self).remaining().to_multiset().add(old(self).window()),
            r@.len() == old(self).remaining().len() + old(self).window().len(),
    {
        broadcast use vstd::seq_lib::group_to_multiset_ensures;
        broadcast use vstd::multiset::group_multiset_axioms;

        let ghost rem0 = self.remaining();
        let ghost w0 = self.window();
        let ghost k0 = self.size();
        let mut out: Vec<i64> = Vec::new();
        let mut done = false;
        while !done
            invariant
                self.well_formed(),
                self.size() == k0,
                wsort_from(rem0, w0, k0) == out@ + wsort_from(
                    self.remaining(),
                    self.window(),
                    k0,
                ),
                done ==> self.is_exhausted(),
            decreases self.remaining().len() + self.window().len() + (if done {
                0int
            } else {
                1int
            }),
        {
            proof {
                crate::model::lemma_wsort_step(self.remaining(), self.window(), k0);
            }
            let ghost pre_out = out@;
            let ghost pre_rem = self.remaining();
            let ghost pre_w = self.window();
            match self.next() {
                Some(x) => {
                    out.push(x);
                    proof {
                        assert(out@ =~= pre_out.push(x));
                        assert(pre_out + (seq![x] + wsort_from(
                            self.remaining(),
                            self.window(),
                            k0,
                        )) =~= out@ + wsort_from(self.remaining(), self.window(), k0));
                    }
                },
                None => {
                    done = true;
                    proof {
                        assert(wsort_from(pre_rem, pre_w, k0) =~= Seq::<i64>::empty());
                        assert(out@ + Seq::<i64>::empty() =~= out@);
                    }
                },
            }
        }
        proof {
            assert(wsort_from(self.remaining(), self.window(), k0) =~= Seq::<i64>::empty());
            assert(out@ + Seq::<i64>::empty() =~= out@);
            crate::laws::lemma_permutation(rem0, w0, k0);
        }
        out
    }
}

/// Sorts the items of `input` within a sliding window of `window_size`
/// items.  See the crate-level documentation for more info.
pub fn window_sort(input: Vec<i64>, window_size: usize) -> (r: WindowSort)
    ensures
        r.well_formed(),
        r.remaining() == input@,
        r.window() == Multiset::<i64>::empty(),
        r.size() == window_size as nat,
{
    let sorter = WindowSort { input, pos: 0, window_size, heap: Vec::new() };
    proof {
        crate::model::lemma_empty_to_multiset(sorter.heap@);
        assert(sorter.remaining() =~= sorter.input@);
    }
    sorter
}

/// Trait that extends item sources with functionality to sort their items
/// within a sliding window.  See the crate-level documentation for more
/// info.
pub trait WindowSortIterExt: Sized {
    /// The items the source yields, in order.
    spec fn items(self) -> Seq<i64>;

    /// Sorts the source's items within a sliding window.
    fn window_sort(self, window_size: usize) -> (r: WindowSort)
        ensures
            r.well_formed(),
            r.remaining() == self.items(),
            r.window() == Multiset::<i64>::empty(),
            r.size() == window_size as nat,
    ;
}

impl WindowSortIterExt for Vec<i64> {
    open spec fn items(self) -> Seq<i64> {
        self@
    }

    /// Sorts the vector's items within a sliding window.
    fn window_sort(self, window_size: usize) -> (r: WindowSort) {
        window_sort(self, window_size)
    }
}

} // verus!
