//! Priority queues: an array-backed binary max-heap with in-place heapsort,
//! and a pointer-based leftist max-heap.
//!
//! As in the sorting module, the ordering claims are conditioned on
//! `strict_order::<T>()` — the comparison behaves as a strict total order
//! and the executable operators agree with it — while the multiset claims
//! hold unconditionally.

use crate::sort::lemma_swap_multiset;
use crate::sort::lt_spec;
use crate::sort::sorted_range;
use crate::sort::strict_order;
use crate::sort::swap_in;
use vstd::multiset::Multiset;
use vstd::pervasive::VecAdditionalExecFns;
use vstd::prelude::*;
use vstd::seq_lib::to_multiset_build;
use vstd::seq_lib::to_multiset_contains;
use vstd::seq_lib::to_multiset_remove;
use vstd::seq_lib::to_multiset_update;
use vstd::std_specs::cmp::PartialOrdSpec;

verus! {

/// Every parent-child pair of `s` whose parent index is at least `b` is in
/// max-heap order.
pub open spec fn heap_from<T: PartialOrd>(s: Seq<T>, b: int) -> bool {
    forall|c: int| #![trigger s[c]] 0 < c < s.len() && (c - 1) / 2 >= b ==> !lt_spec(
        s[(c - 1) / 2],
        s[c],
    )
}

/// The whole array is in max-heap order.
pub open spec fn is_heap<T: PartialOrd>(s: Seq<T>) -> bool {
    heap_from(s, 0)
}

/// In a heap the root is a greatest element.
pub(crate) proof fn lemma_heap_max<T: PartialOrd>(s: Seq<T>, i: int)
    requires
        strict_order::<T>(),
        is_heap(s),
        0 <= i < s.len(),
    ensures
        !lt_spec(s[0], s[i]),
    decreases i,
{
    if i > 0 {
        let p = (i - 1) / 2;
        lemma_heap_max(s, p);
    }
}

/// A priority queue implemented with an array-backed binary max-heap:
/// popping hands out a greatest element, pushing and popping keep the heap
/// shape.
pub struct BinaryHeap<T> {
    data: Vec<T>,
}

impl<T> View for BinaryHeap<T> {
    type V = Seq<T>;

    closed spec fn view(&self) -> Seq<T> {
        self.data@
    }
}

impl<T: Ord + Default> BinaryHeap<T> {
    /// The heap shape, as far as the comparison is known to be an order.
    pub open spec fn wf(&self) -> bool {
        strict_order::<T>() ==> is_heap(self@)
    }

    /// An empty heap.
    pub fn new() -> (h: BinaryHeap<T>)
        ensures
            h.wf(),
            h@ == Seq::<T>::empty(),
    {
        BinaryHeap { data: Vec::new() }
    }

    /// An empty heap with room reserved for `capacity` elements.
    pub fn with_capacity(capacity: usize) -> (h: BinaryHeap<T>)
        ensures
            h.wf(),
            h@ == Seq::<T>::empty(),
    {
        BinaryHeap { data: Vec::with_capacity(capacity) }
    }

    /// Borrow the greatest element, or `None` when the heap is empty.
    pub fn peek(&self) -> (r: Option<&T>)
        requires
            self.wf(),
        ensures
            r.is_some() == (self@.len() > 0),
            r.is_some() ==> *r.unwrap() == self@[0],
            strict_order::<T>() && r.is_some() ==> forall|i: int|
                0 <= i < self@.len() ==> !lt_spec(*r.unwrap(), self@[i]),
    {
        if self.data.len() == 0 {
            None
        } else {
            proof {
                if strict_order::<T>() {
                    assert forall|i: int| 0 <= i < self@.len() implies !lt_spec(
                        self@[0],
                        self@[i],
                    ) by {
                        lemma_heap_max(self@, i);
                    }
                }
            }
            Some(&self.data[0])
        }
    }

    /// The number of stored elements.
    pub fn len(&self) -> (n: usize)
        ensures
            n == self@.len(),
    {
        self.data.len()
    }

    /// Whether no element is stored.
    pub fn is_empty(&self) -> (b: bool)
        ensures
            b == (self@.len() == 0),
    {
        self.len() == 0
    }

    /// Add an element, then bubble it up to its place.
    pub fn push(&mut self, item: T)
        requires
            old(self).wf(),
        ensures
            final(self).wf(),
            final(self)@.to_multiset() == old(self)@.to_multiset().insert(item),
            final(self)@.len() == old(self)@.len() + 1,
    {
        broadcast use to_multiset_build;

        let old_len = self.data.len();
        self.data.push(item);
        proof {
            if strict_order::<T>() {
                assert forall|c: int|
                    #![trigger self@[c]]
                    0 < c < self@.len() && c != old_len ==> !lt_spec(
                        self@[(c - 1) / 2],
                        self@[c],
                    ) by {}
            }
        }
        self.sift_up(0, old_len);
    }

    /// Bubble the element at `pos` up while it beats its parent. The rest
    /// of the array must already be in heap order, and any children of
    /// `pos` must already be below `pos`'s parent.
    fn sift_up(&mut self, start: usize, pos: usize)
        requires
            start == 0,
            pos < old(self)@.len(),
            strict_order::<T>() ==> forall|c: int|
                #![trigger old(self)@[c]]
                0 < c < old(self)@.len() && c != pos ==> !lt_spec(
                    old(self)@[(c - 1) / 2],
                    old(self)@[c],
                ),
            strict_order::<T>() ==> forall|c: int|
                #![trigger old(self)@[c]]
                0 < c < old(self)@.len() && (c - 1) / 2 == pos && pos > 0 ==> !lt_spec(
                    old(self)@[(pos - 1) / 2],
                    old(self)@[c],
                ),
        ensures
            final(self)@.to_multiset() == old(self)@.to_multiset(),
            final(self)@.len() == old(self)@.len(),
            strict_order::<T>() ==> is_heap(final(self)@),
    {
        let mut cur = pos;
        let mut settled = false;
        while !settled && cur > start
            invariant
                start == 0,
                cur < self@.len(),
                self@.len() == old(self)@.len(),
                self@.to_multiset() == old(self)@.to_multiset(),
                strict_order::<T>() ==> forall|c: int|
                    #![trigger self@[c]]
                    0 < c < self@.len() && c != cur ==> !lt_spec(self@[(c - 1) / 2], self@[c]),
                strict_order::<T>() ==> forall|c: int|
                    #![trigger self@[c]]
                    0 < c < self@.len() && (c - 1) / 2 == cur && cur > 0 ==> !lt_spec(
                        self@[(cur - 1) / 2],
                        self@[c],
                    ),
                strict_order::<T>() && settled && cur > 0 ==> !lt_spec(
                    self@[(cur - 1) / 2],
                    self@[cur as int],
                ),
            decreases cur + if settled {
                0int
            } else {
                1int
            },
        {
            let parent = (cur - 1) / 2;
            let moving_up = self.data[parent].lt(&self.data[cur]);
            if !moving_up {
                settled = true;
            } else {
                let ghost before = self@;
                swap_in(self.data.as_mut_slice(), parent, cur);
                proof {
                    lemma_swap_multiset(
                        before,
                        self@,
                        0,
                        before.len() as int,
                        parent as int,
                        cur as int,
                    );
                    assert(before.subrange(0, before.len() as int) =~= before);
                    assert(self@.subrange(0, self@.len() as int) =~= self@);
                }
                cur = parent;
            }
        }
    }

    /// Remove and hand back a greatest element, or `None` when the heap is
    /// empty; the last element takes the root's place and sinks down.
    pub fn pop(&mut self) -> (r: Option<T>)
        requires
            old(self).wf(),
        ensures
            final(self).wf(),
            r.is_some() == (old(self)@.len() > 0),
            r.is_none() ==> final(self)@ == old(self)@,
            r.is_some() ==> r.unwrap() == old(self)@[0] && final(self)@.len() == old(
                self,
            )@.len() - 1 && old(self)@.to_multiset() == final(self)@.to_multiset().insert(
                r.unwrap(),
            ),
            strict_order::<T>() && r.is_some() ==> forall|i: int|
                0 <= i < old(self)@.len() ==> !lt_spec(r.unwrap(), old(self)@[i]),
    {
        broadcast use to_multiset_build;
        broadcast use to_multiset_remove;
        broadcast use to_multiset_update;
        broadcast use to_multiset_contains;

        let ghost pre = self@;
        proof {
            if strict_order::<T>() && pre.len() > 0 {
                assert forall|i: int| 0 <= i < pre.len() implies !lt_spec(pre[0], pre[i]) by {
                    lemma_heap_max(pre, i);
                }
            }
        }
        match self.data.pop() {
            None => None,
            Some(mut item) => {
                proof {
                    assert(pre.drop_last() =~= pre.subrange(0, pre.len() - 1));
                }
                if self.data.len() > 0 {
                    self.data.set_and_swap(0, &mut item);
                    proof {
                        let dropped = pre.drop_last();
                        assert(self@ =~= dropped.update(0, pre.last()));
                        assert(dropped.contains(dropped[0]));
                        assert(pre =~= dropped.push(pre.last()));
                        assert(pre.to_multiset() == dropped.to_multiset().insert(pre.last()));
                        assert(self@.to_multiset() == dropped.to_multiset().remove(
                            dropped[0],
                        ).insert(pre.last()));
                        assert(self@.to_multiset().insert(dropped[0]) =~= dropped.to_multiset().insert(
                            pre.last(),
                        ));
                    }
                    self.sift_down(0);
                    proof {
                        assert(old(self)@.to_multiset() == self@.to_multiset().insert(item));
                    }
                } else {
                    proof {
                        assert(pre =~= self@.push(pre.last()));
                        assert(pre.to_multiset() == self@.to_multiset().insert(pre.last()));
                    }
                }
                Some(item)
            }
        }
    }

    /// Sink the element at `pos` down, always swapping with the greater
    /// child, until both children are below it. All pairs with a parent
    /// index beyond `pos` must already be in heap order.
    fn sift_down(&mut self, pos: usize)
        requires
            pos < old(self)@.len(),
            strict_order::<T>() ==> heap_from(old(self)@, pos + 1),
        ensures
            final(self)@.to_multiset() == old(self)@.to_multiset(),
            final(self)@.len() == old(self)@.len(),
            strict_order::<T>() ==> heap_from(final(self)@, pos as int),
    {
        let end = self.data.len();
        let mut cur = pos;
        let mut settled = false;
        while !settled && cur < end / 2
            invariant
                pos <= cur < end,
                end == self@.len(),
                self@.len() == old(self)@.len(),
                self@.to_multiset() == old(self)@.to_multiset(),
                strict_order::<T>() ==> forall|c: int|
                    #![trigger self@[c]]
                    0 < c < self@.len() && (c - 1) / 2 >= pos && (c - 1) / 2 != cur ==> !lt_spec(
                        self@[(c - 1) / 2],
                        self@[c],
                    ),
                strict_order::<T>() ==> forall|c: int|
                    #![trigger self@[c]]
                    0 < c < self@.len() && (c - 1) / 2 == cur && cur > pos ==> !lt_spec(
                        self@[(cur - 1) / 2],
                        self@[c],
                    ),
                strict_order::<T>() && settled ==> forall|c: int|
                    #![trigger self@[c]]
                    0 < c < self@.len() && (c - 1) / 2 == cur ==> !lt_spec(
                        self@[cur as int],
                        self@[c],
                    ),
            decreases end - cur + if settled {
                0int
            } else {
                1int
            },
        {
            let child = 2 * cur + 1;
            let m: usize;
            if child + 1 < end && !self.data[child + 1].lt(&self.data[child]) {
                m = child + 1;
                proof {
                    if strict_order::<T>() {
                        assert forall|c: int|
                            #![trigger self@[c]]
                            0 < c < self@.len() && (c - 1) / 2 == cur as int && c
                                != m as int implies !lt_spec(self@[m as int], self@[c]) by {
                            assert(c == child as int);
                        }
                    }
                }
            } else {
                m = child;
                proof {
                    if strict_order::<T>() {
                        assert forall|c: int|
                            #![trigger self@[c]]
                            0 < c < self@.len() && (c - 1) / 2 == cur as int && c
                                != m as int implies !lt_spec(self@[m as int], self@[c]) by {
                            assert(c == child as int + 1);
                        }
                    }
                }
            }
            let ghost chosen_best = strict_order::<T>() ==> forall|c: int|
                #![trigger self@[c]]
                0 < c < self@.len() && (c - 1) / 2 == cur as int && c != m as int ==> !lt_spec(
                    self@[m as int],
                    self@[c],
                );
            proof {
                assert(chosen_best);
            }
            let sinking = self.data[cur].lt(&self.data[m]);
            if !sinking {
                settled = true;
                proof {
                    if strict_order::<T>() {
                        assert forall|c: int|
                            #![trigger self@[c]]
                            0 < c < self@.len() && (c - 1) / 2 == cur as int implies !lt_spec(
                            self@[cur as int],
                            self@[c],
                        ) by {}
                    }
                }
            } else {
                let ghost before = self@;
                swap_in(self.data.as_mut_slice(), cur, m);
                proof {
                    lemma_swap_multiset(
                        before,
                        self@,
                        0,
                        before.len() as int,
                        cur as int,
                        m as int,
                    );
                    assert(before.subrange(0, before.len() as int) =~= before);
                    assert(self@.subrange(0, self@.len() as int) =~= self@);
                }
                cur = m;
            }
        }
    }

    /// Build the heap order over an arbitrary array bottom-up.
    pub fn rebuild(&mut self)
        ensures
            final(self)@.to_multiset() == old(self)@.to_multiset(),
            final(self)@.len() == old(self)@.len(),
            final(self).wf(),
    {
        let mut n = self.data.len() / 2;
        while n > 0
            invariant
                n <= self@.len(),
                self@.len() == old(self)@.len(),
                self@.to_multiset() == old(self)@.to_multiset(),
                strict_order::<T>() ==> heap_from(self@, n as int),
            decreases n,
        {
            n = n - 1;
            self.sift_down(n);
        }
    }
}

/// Sink the element at `pos` down within `seq[lo..hi]`, exactly as the
/// heap's own sink does but on a caller-chosen window.
#[verifier::rlimit(60)]
fn sift_down<T: Ord + Default>(seq: &mut [T], pos: usize, lo: usize, hi: usize)
    requires
        lo <= pos < hi,
        hi <= old(seq)@.len(),
        strict_order::<T>() ==> heap_from(
            old(seq)@.subrange(lo as int, hi as int),
            pos - lo + 1,
        ),
    ensures
        final(seq)@.len() == old(seq)@.len(),
        forall|i: int| 0 <= i < old(seq)@.len() && !(lo <= i < hi) ==> final(seq)@[i] == old(
            seq,
        )@[i],
        final(seq)@.subrange(lo as int, hi as int).to_multiset() == old(seq)@.subrange(
            lo as int,
            hi as int,
        ).to_multiset(),
        strict_order::<T>() ==> heap_from(final(seq)@.subrange(lo as int, hi as int), pos - lo),
{
    let end = hi - lo;
    let mut cur = pos - lo;
    let mut settled = false;
    while !settled && cur < end / 2
        invariant
            pos - lo <= cur < end,
            end == hi - lo,
            lo <= pos < hi,
            hi <= seq@.len(),
            seq@.len() == old(seq)@.len(),
            forall|i: int| 0 <= i < old(seq)@.len() && !(lo <= i < hi) ==> seq@[i] == old(
                seq,
            )@[i],
            seq@.subrange(lo as int, hi as int).to_multiset() == old(seq)@.subrange(
                lo as int,
                hi as int,
            ).to_multiset(),
            strict_order::<T>() ==> forall|c: int|
                #![trigger seq@.subrange(lo as int, hi as int)[c]]
                0 < c < end && (c - 1) / 2 >= pos - lo && (c - 1) / 2 != cur ==> !lt_spec(
                    seq@.subrange(lo as int, hi as int)[(c - 1) / 2],
                    seq@.subrange(lo as int, hi as int)[c],
                ),
            strict_order::<T>() ==> forall|c: int|
                #![trigger seq@.subrange(lo as int, hi as int)[c]]
                0 < c < end && (c - 1) / 2 == cur && cur > pos - lo ==> !lt_spec(
                    seq@.subrange(lo as int, hi as int)[(cur - 1) / 2],
                    seq@.subrange(lo as int, hi as int)[c],
                ),
            strict_order::<T>() && settled ==> forall|c: int|
                #![trigger seq@.subrange(lo as int, hi as int)[c]]
                0 < c < end && (c - 1) / 2 == cur ==> !lt_spec(
                    seq@.subrange(lo as int, hi as int)[cur as int],
                    seq@.subrange(lo as int, hi as int)[c],
                ),
        decreases end - cur + if settled {
            0int
        } else {
            1int
        },
    {
        let ghost v = seq@.subrange(lo as int, hi as int);
        let child = 2 * cur + 1;
        let m: usize;
        if child + 1 < end && !crate::sort::slice_ref(seq, lo + child + 1).lt(
            crate::sort::slice_ref(seq, lo + child),
        ) {
            m = child + 1;
            proof {
                if strict_order::<T>() {
                    assert forall|c: int|
                        #![trigger v[c]]
                        0 < c < end && (c - 1) / 2 == cur as int && c != m as int implies !lt_spec(
                        v[m as int],
                        v[c],
                    ) by {
                        assert(c == child as int);
                    }
                }
            }
        } else {
            m = child;
            proof {
                if strict_order::<T>() {
                    assert forall|c: int|
                        #![trigger v[c]]
                        0 < c < end && (c - 1) / 2 == cur as int && c != m as int implies !lt_spec(
                        v[m as int],
                        v[c],
                    ) by {
                        assert(c == child as int + 1);
                    }
                }
            }
        }
        let sinking = crate::sort::slice_ref(seq, lo + cur).lt(crate::sort::slice_ref(seq, lo + m));
        if !sinking {
            settled = true;
            proof {
                if strict_order::<T>() {
                    assert forall|c: int|
                        #![trigger v[c]]
                        0 < c < end && (c - 1) / 2 == cur as int implies !lt_spec(
                        v[cur as int],
                        v[c],
                    ) by {}
                }
            }
        } else {
            let ghost before = seq@;
            swap_in(seq, lo + cur, lo + m);
            proof {
                lemma_swap_multiset(
                    before,
                    seq@,
                    lo as int,
                    hi as int,
                    lo + cur as int,
                    lo + m as int,
                );
                assert(seq@.subrange(lo as int, hi as int) =~= v.update(cur as int, v[m as int]).update(
                    m as int,
                    v[cur as int],
                ));
            }
            cur = m;
        }
    }
}

/// In-place heapsort of `seq[lo..hi]`: the window is organised into a
/// max-heap bottom-up, then the greatest element is repeatedly swapped to
/// the shrinking end. The window afterwards holds the same elements,
/// everything outside it is untouched, and under `strict_order` the window
/// is sorted ascending.
pub fn heap_sort<T: Ord + Default>(seq: &mut [T], lo: usize, mut hi: usize)
    requires
        lo <= hi,
        hi <= old(seq)@.len(),
    ensures
        final(seq)@.len() == old(seq)@.len(),
        forall|i: int| 0 <= i < old(seq)@.len() && !(lo <= i < hi) ==> final(seq)@[i] == old(
            seq,
        )@[i],
        final(seq)@.subrange(lo as int, hi as int).to_multiset() == old(seq)@.subrange(
            lo as int,
            hi as int,
        ).to_multiset(),
        strict_order::<T>() ==> sorted_range(final(seq)@, lo as int, hi as int),
{
    broadcast use to_multiset_contains;

    let ghost hi0 = hi as int;
    let mut n = (hi - lo) / 2 + lo;
    while n > lo
        invariant
            lo <= n,
            n <= hi,
            hi as int == hi0,
            lo <= hi,
            hi <= seq@.len(),
            seq@.len() == old(seq)@.len(),
            forall|i: int| 0 <= i < old(seq)@.len() && !(lo <= i < hi0) ==> seq@[i] == old(
                seq,
            )@[i],
            seq@.subrange(lo as int, hi0).to_multiset() == old(seq)@.subrange(
                lo as int,
                hi0,
            ).to_multiset(),
            strict_order::<T>() ==> heap_from(seq@.subrange(lo as int, hi0), n - lo),
        decreases n,
    {
        n = n - 1;
        sift_down(seq, n, lo, hi);
    }
    while lo < hi
        invariant
            lo <= hi,
            hi as int <= hi0,
            hi0 <= seq@.len(),
            seq@.len() == old(seq)@.len(),
            forall|i: int| 0 <= i < old(seq)@.len() && !(lo <= i < hi0) ==> seq@[i] == old(
                seq,
            )@[i],
            seq@.subrange(lo as int, hi0).to_multiset() == old(seq)@.subrange(
                lo as int,
                hi0,
            ).to_multiset(),
            strict_order::<T>() ==> heap_from(seq@.subrange(lo as int, hi as int), 0),
            strict_order::<T>() ==> sorted_range(seq@, hi as int, hi0),
            strict_order::<T>() ==> forall|j: int, x: T|
                #![trigger lt_spec(seq@[j], x)]
                hi as int <= j < hi0 && seq@.subrange(lo as int, hi as int).to_multiset().count(x)
                    > 0 ==> !lt_spec(seq@[j], x),
        decreases hi,
    {
        broadcast use to_multiset_build;

        let ghost pre = seq@;
        let ghost v = seq@.subrange(lo as int, hi as int);
        proof {
            if strict_order::<T>() {
                assert forall|i: int| 0 <= i < v.len() implies !lt_spec(v[0], v[i]) by {
                    lemma_heap_max(v, i);
                }
            }
        }
        hi = hi - 1;
        swap_in(seq, lo, hi);
        let ghost mid = seq@;
        let ghost win_mid = mid.subrange(lo as int, hi as int);
        proof {
            lemma_swap_multiset(pre, mid, lo as int, hi0, lo as int, hi as int);
            lemma_swap_multiset(pre, mid, lo as int, hi as int + 1, lo as int, hi as int);
            assert(mid.subrange(lo as int, hi as int + 1) =~= win_mid.push(mid[hi as int]));
            assert(mid[hi as int] == v[0]);
            assert(v.to_multiset() == win_mid.to_multiset().insert(v[0]));
            if strict_order::<T>() {
                assert(heap_from(win_mid, 1)) by {
                    assert forall|c: int|
                        #![trigger win_mid[c]]
                        0 < c < win_mid.len() && (c - 1) / 2 >= 1 implies !lt_spec(
                        win_mid[(c - 1) / 2],
                        win_mid[c],
                    ) by {
                        assert(win_mid[c] == v[c]);
                        assert(win_mid[(c - 1) / 2] == v[(c - 1) / 2]);
                    }
                }
            }
        }
        if lo < hi {
            sift_down(seq, lo, lo, hi);
        }
        proof {
            if lo == hi {
                assert(seq@ == mid);
                assert(seq@.subrange(lo as int, hi as int) =~= win_mid);
            }
            let w = seq@.subrange(lo as int, hi as int);
            assert(w.to_multiset() == win_mid.to_multiset());
            assert forall|i: int| hi as int <= i < hi0 implies seq@[i] == mid[i] by {}
            assert(seq@.subrange(lo as int, hi0).to_multiset() == mid.subrange(
                lo as int,
                hi0,
            ).to_multiset()) by {
                assert(seq@.subrange(lo as int, hi0) =~= w + seq@.subrange(hi as int, hi0));
                assert(mid.subrange(lo as int, hi0) =~= win_mid + mid.subrange(hi as int, hi0));
                assert(seq@.subrange(hi as int, hi0) =~= mid.subrange(hi as int, hi0));
                vstd::seq_lib::lemma_multiset_commutative(w, seq@.subrange(hi as int, hi0));
                vstd::seq_lib::lemma_multiset_commutative(
                    win_mid,
                    mid.subrange(hi as int, hi0),
                );
            }
            if strict_order::<T>() {
                assert forall|j: int, x: T|
                    #![trigger lt_spec(seq@[j], x)]
                    hi as int <= j < hi0 && w.to_multiset().count(x) > 0 implies !lt_spec(
                    seq@[j],
                    x,
                ) by {
                    broadcast use vstd::multiset::group_multiset_axioms;

                    assert(w.to_multiset() == win_mid.to_multiset());
                    assert(w.to_multiset().count(x) > 0);
                    assert(win_mid.to_multiset().count(x) > 0);
                    assert(v.to_multiset().count(x) > 0);
                    to_multiset_contains(v, x);
                    assert(v.contains(x));
                    let vi = choose|vi: int| 0 <= vi < v.len() && v[vi] == x;
                    assert(!lt_spec(v[0], x));
                    if j == hi as int {
                        assert(seq@[j] == v[0]);
                    } else {
                        assert(seq@[j] == pre[j]);
                        assert(pre.subrange(lo as int, hi as int + 1) =~= v);
                        assert(!lt_spec(pre[j], x));
                    }
                }
                assert forall|i: int, j: int| hi as int <= i < j < hi0 implies !lt_spec(
                    seq@[j],
                    seq@[i],
                ) by {
                    if i == hi as int {
                        assert(seq@[i] == v[0]);
                        assert(v.to_multiset().count(v[0]) > 0) by {
                            broadcast use vstd::multiset::group_multiset_axioms;

                            assert(v.contains(v[0]));
                        }
                        assert(seq@[j] == pre[j]);
                        assert(!lt_spec(pre[j], v[0]));
                    } else {
                        assert(seq@[i] == pre[i] && seq@[j] == pre[j]);
                    }
                }
            }
        }
    }
}


/// A cell of the leftist heap: the element, the cached null-path length,
/// and two owned children.
#[derive(Debug)]
pub struct TreeNode<T> {
    elem: T,
    npl: i32,
    left: Option<Box<TreeNode<T>>>,
    right: Option<Box<TreeNode<T>>>,
}

/// The elements stored in an optional leftist subtree, as a multiset.
pub closed spec fn lh_ms<T>(t: Option<Box<TreeNode<T>>>) -> Multiset<T>
    decreases t,
{
    match t {
        None => Multiset::empty(),
        Some(n) => lh_ms(n.left).add(lh_ms(n.right)).insert(n.elem),
    }
}

/// Every element of `m` is at or below `top` in the comparison.
pub open spec fn all_at_most<T: PartialOrd>(m: Multiset<T>, top: T) -> bool {
    forall|x: T| #![trigger m.count(x)] m.count(x) > 0 ==> !lt_spec(top, x)
}

/// Max-heap order of an optional leftist subtree: each node is at least
/// everything below it.
pub closed spec fn lh_ok<T: PartialOrd>(t: Option<Box<TreeNode<T>>>) -> bool
    decreases t,
{
    match t {
        None => true,
        Some(n) => all_at_most(lh_ms(n.left).add(lh_ms(n.right)), n.elem) && lh_ok(n.left)
            && lh_ok(n.right),
    }
}

impl<T: Ord + Default> TreeNode<T> {
    /// The elements under this node, as a multiset.
    pub closed spec fn node_ms(self) -> Multiset<T> {
        lh_ms(self.left).add(lh_ms(self.right)).insert(self.elem)
    }

    /// The element held at this node.
    pub closed spec fn elem_of(self) -> T {
        self.elem
    }

    /// Whether this node is a lone cell without children.
    pub closed spec fn leaf_shaped(self) -> bool {
        self.left.is_none() && self.right.is_none()
    }

    /// A lone cell holding the element type's default value.
    pub fn new() -> (n: Self)
        ensures
            n.leaf_shaped(),
            n.node_ms() == Multiset::<T>::empty().insert(n.elem_of()),
    {
        let n = TreeNode { elem: T::default(), npl: -1, left: None, right: None };
        proof {
            broadcast use vstd::multiset::group_multiset_axioms;

            assert(n.node_ms() =~= Multiset::<T>::empty().insert(n.elem));
        }
        n
    }

    /// A lone cell holding the given element.
    pub fn with_elem(elem: T) -> (n: Self)
        ensures
            n.leaf_shaped(),
            n.elem_of() == elem,
            n.node_ms() == Multiset::<T>::empty().insert(elem),
    {
        let n = TreeNode { elem, npl: -1, left: None, right: None };
        proof {
            broadcast use vstd::multiset::group_multiset_axioms;

            assert(n.node_ms() =~= Multiset::<T>::empty().insert(elem));
        }
        n
    }
}

/// A priority queue implemented as a leftist max-heap: the root holds a
/// greatest element, and merging is the one structural operation.
#[derive(Debug)]
pub struct LeftistHeap<T>(Option<Box<TreeNode<T>>>);

impl<T: Ord + Default> LeftistHeap<T> {
    /// The stored elements, as a multiset.
    pub closed spec fn ms(&self) -> Multiset<T> {
        lh_ms(self.0)
    }

    /// The heap order, as far as the comparison is known to be an order.
    pub closed spec fn wf(&self) -> bool {
        strict_order::<T>() ==> lh_ok(self.0)
    }

    /// Whether the heap holds anything.
    pub closed spec fn has_elems(&self) -> bool {
        self.0.is_some()
    }

    /// A heap seeded with one cell holding the element type's default value.
    pub fn new() -> (h: Self)
        ensures
            h.wf(),
            h.ms().len() == 1,
            h.has_elems(),
    {
        let cell = TreeNode::new();
        let h = LeftistHeap(Some(Box::new(cell)));
        proof {
            broadcast use vstd::multiset::group_multiset_axioms;

            assert(cell.left.is_none() && cell.right.is_none());
            assert(lh_ms(cell.left) =~= Multiset::<T>::empty());
            assert(lh_ms(cell.right) =~= Multiset::<T>::empty());
            assert(h.0.unwrap() == cell);
            assert(h.ms() == lh_ms(cell.left).add(lh_ms(cell.right)).insert(cell.elem));
            assert(h.ms() == cell.node_ms());
            assert(h.ms() == Multiset::<T>::empty().insert(cell.elem_of()));
            assert forall|x: T|
                lh_ms(cell.left).add(lh_ms(cell.right)).count(x) > 0 implies !lt_spec(
                cell.elem,
                x,
            ) by {
                assert(lh_ms(cell.left).count(x) == 0);
                assert(lh_ms(cell.right).count(x) == 0);
            }
            assert(all_at_most(lh_ms(cell.left).add(lh_ms(cell.right)), cell.elem));
            assert(lh_ok(cell.left) && lh_ok(cell.right));
            assert(lh_ok(h.0));
        }
        h
    }

    /// Merge two leftist trees: the larger root wins, the loser is merged
    /// into its right spine, and the children are swapped wherever the
    /// leftist shape asks for it. The result holds the elements of both.
    pub fn merge(
        left_tree: Option<Box<TreeNode<T>>>,
        right_tree: Option<Box<TreeNode<T>>>,
    ) -> (r: Option<Box<TreeNode<T>>>)
        ensures
            lh_ms(r) == lh_ms(left_tree).add(lh_ms(right_tree)),
            strict_order::<T>() && lh_ok(left_tree) && lh_ok(right_tree) ==> lh_ok(r),
            left_tree is None ==> r == right_tree,
            right_tree is None ==> r == left_tree,
            left_tree.is_some() && right_tree.is_some() ==> r.is_some() && (r.unwrap().elem_of()
                == left_tree.unwrap().elem_of() || r.unwrap().elem_of()
                == right_tree.unwrap().elem_of()),
            strict_order::<T>() && left_tree.is_some() && right_tree.is_some() ==> !lt_spec(
                r.unwrap().elem_of(),
                left_tree.unwrap().elem_of(),
            ) && !lt_spec(r.unwrap().elem_of(), right_tree.unwrap().elem_of()),
        decreases lh_ms(left_tree).len() + lh_ms(right_tree).len(),
    {
        proof {
            broadcast use vstd::multiset::group_multiset_axioms;
        }
        match (left_tree, right_tree) {
            (None, b) => {
                proof {
                    assert(lh_ms(None::<Box<TreeNode<T>>>).add(lh_ms(b)) =~= lh_ms(b));
                }
                b
            }
            (a, None) => {
                proof {
                    assert(lh_ms(a).add(lh_ms(None::<Box<TreeNode<T>>>)) =~= lh_ms(a));
                }
                a
            }
            (Some(a), Some(b)) => {
                let ghost am = lh_ms(Some(a));
                let ghost bm = lh_ms(Some(b));
                let ghost ae = a.elem;
                let ghost be = b.elem;
                let a_loses = a.elem.lt(&b.elem);
                let (mut top, other) = if a_loses {
                    (b, a)
                } else {
                    (a, b)
                };
                let ghost top_m = lh_ms(Some(top));
                let ghost other_m = lh_ms(Some(other));
                proof {
                    assert(top_m.len() + other_m.len() == am.len() + bm.len());
                    assert(top_m.len() >= lh_ms(top.right).len() + 1);
                }
                let rsub = top.right.take();
                let merged = Self::merge(rsub, Some(other));
                top.right = merged;
                proof {
                    assert(lh_ms(Some(top)) =~= am.add(bm));
                    if lh_ms(top.right).len() == 0 {
                        assert(lh_ms(top.right) =~= Multiset::<T>::empty());
                        assert(lh_ms(top.right).count(other.elem) > 0);
                    }
                }
                let keep = match (&top.left, &top.right) {
                    (None, _) => false,
                    (Some(lc), Some(rc)) => lc.npl >= rc.npl,
                    (Some(_), None) => true,
                };
                if !keep {
                    core::mem::swap(&mut top.left, &mut top.right);
                }
                let new_npl = match &top.right {
                    Some(rc) => if rc.npl == i32::MAX {
                        i32::MAX
                    } else {
                        rc.npl + 1
                    },
                    None => 1,
                };
                top.npl = new_npl;
                proof {
                    assert(lh_ms(Some(top)) =~= am.add(bm));
                    if strict_order::<T>() && lh_ok(Some(a)) && lh_ok(Some(b))
                        && lh_ok(top.left) && lh_ok(top.right) {
                        assert(all_at_most(lh_ms(top.left).add(lh_ms(top.right)), top.elem))
                            by {
                            assert forall|x: T|
                                lh_ms(top.left).add(lh_ms(top.right)).count(x)
                                    > 0 implies !lt_spec(top.elem, x) by {
                                assert(lh_ms(Some(top)).count(x) > 0);
                                assert(am.add(bm).count(x) > 0);
                                assert(!lt_spec(top.elem, other.elem));
                                if other_m.count(x) > 0 {
                                    if x != other.elem {
                                        assert(lh_ms(other.left).add(
                                            lh_ms(other.right),
                                        ).count(x) > 0);
                                        assert(!lt_spec(other.elem, x));
                                    }
                                } else {
                                    assert(top_m.count(x) > 0);
                                    if x != top.elem {
                                        assert(!lt_spec(top.elem, x));
                                    }
                                }
                            }
                        }
                        assert(lh_ok(Some(top)));
                    }
                    assert(top.elem == ae || top.elem == be);
                    if strict_order::<T>() {
                        if a_loses {
                            assert(lt_spec(ae, be));
                            assert(!lt_spec(be, ae));
                            assert(!lt_spec(be, be));
                        } else {
                            assert(!lt_spec(ae, be));
                            assert(!lt_spec(ae, ae));
                        }
                    }
                }
                Some(top)
            }
        }
    }

    /// Add one element by merging a fresh cell in.
    pub fn insert(&mut self, elem: T)
        requires
            old(self).wf(),
        ensures
            final(self).wf(),
            final(self).ms() == old(self).ms().insert(elem),
            final(self).has_elems(),
    {
        proof {
            broadcast use vstd::multiset::group_multiset_axioms;
        }
        let cell = TreeNode::with_elem(elem);
        let v = Some(Box::new(cell));
        proof {
            broadcast use vstd::multiset::group_multiset_axioms;

            assert(cell.left.is_none() && cell.right.is_none());
            assert(lh_ms(cell.left) =~= Multiset::<T>::empty());
            assert(lh_ms(cell.right) =~= Multiset::<T>::empty());
            assert(lh_ms(v) == lh_ms(cell.left).add(lh_ms(cell.right)).insert(cell.elem));
            assert(lh_ms(v) == cell.node_ms());
            assert(lh_ms(v) == Multiset::<T>::empty().insert(elem));
            assert forall|x: T|
                lh_ms(cell.left).add(lh_ms(cell.right)).count(x) > 0 implies !lt_spec(
                cell.elem,
                x,
            ) by {
                assert(lh_ms(cell.left).count(x) == 0);
                assert(lh_ms(cell.right).count(x) == 0);
            }
            assert(all_at_most(lh_ms(cell.left).add(lh_ms(cell.right)), cell.elem));
            assert(lh_ok(cell.left) && lh_ok(cell.right));
            assert(v.unwrap() == cell);
            assert(lh_ok(v));
        }
        let old_root = self.0.take();
        self.0 = Self::merge(old_root, v);
        proof {
            assert(self.ms() =~= old(self).ms().insert(elem));
            if self.0.is_none() {
                assert(self.ms() =~= Multiset::<T>::empty());
                assert(self.ms().count(elem) > 0);
            }
        }
    }

    /// Borrow the greatest element, or `None` when the heap is empty.
    pub fn get(&self) -> (r: Option<&T>)
        requires
            self.wf(),
        ensures
            r.is_some() == self.has_elems(),
            r.is_some() ==> self.ms().count(*r.unwrap()) > 0,
            strict_order::<T>() && r.is_some() ==> forall|x: T|
                self.ms().count(x) > 0 ==> !lt_spec(*r.unwrap(), x),
    {
        proof {
            broadcast use vstd::multiset::group_multiset_axioms;
        }
        match &self.0 {
            Some(root) => {
                proof {
                    if strict_order::<T>() {
                        assert forall|x: T| self.ms().count(x) > 0 implies !lt_spec(
                            root.elem,
                            x,
                        ) by {
                            if x != root.elem {
                                assert(lh_ms(root.left).add(lh_ms(root.right)).count(x) > 0);
                            }
                        }
                    }
                }
                Some(&root.elem)
            }
            None => None,
        }
    }

    /// Remove and hand back the root element — under the heap order, a
    /// greatest one — by merging the root's children.
    pub fn remove(&mut self) -> (r: Option<T>)
        requires
            old(self).wf(),
        ensures
            final(self).wf(),
            r.is_some() == old(self).has_elems(),
            r.is_none() ==> final(self).ms() == old(self).ms(),
            r.is_some() ==> old(self).ms() == final(self).ms().insert(r.unwrap()),
            strict_order::<T>() && r.is_some() ==> forall|x: T|
                old(self).ms().count(x) > 0 ==> !lt_spec(r.unwrap(), x),
    {
        proof {
            broadcast use vstd::multiset::group_multiset_axioms;
        }
        match self.0.take() {
            Some(root) => {
                proof {
                    if strict_order::<T>() {
                        assert forall|x: T| old(self).ms().count(x) > 0 implies !lt_spec(
                            root.elem,
                            x,
                        ) by {
                            if x != root.elem {
                                assert(lh_ms(root.left).add(lh_ms(root.right)).count(x) > 0);
                            }
                        }
                    }
                }
                let inner = *root;
                self.0 = Self::merge(inner.left, inner.right);
                proof {
                    assert(old(self).ms() =~= final(self).ms().insert(inner.elem));
                }
                Some(inner.elem)
            }
            None => None,
        }
    }

    /// Hand the whole tree out and leave the heap empty.
    pub fn clear(&mut self) -> (r: Option<Box<TreeNode<T>>>)
        ensures
            final(self).ms() == Multiset::<T>::empty(),
            !final(self).has_elems(),
            lh_ms(r) == old(self).ms(),
            old(self).wf() && strict_order::<T>() ==> lh_ok(r),
    {
        self.0.take()
    }
}

} // verus!
