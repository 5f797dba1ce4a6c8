//! Sorting and selection over mutable slices: an in-place quicksort and the
//! Boyer-Moore majority vote.
//!
//! The element type is any `T: Ord`. What the executable comparisons mean is
//! known to the verifier only through `partial_cmp_spec`, so the ordering
//! claims are conditioned on `strict_order::<T>()`: the comparison behaves
//! as a strict total order and the executable operators agree with it (true
//! of the integer types). The permutation claims hold unconditionally.

use vstd::prelude::*;
use vstd::seq_lib::to_multiset_contains;
use vstd::seq_lib::to_multiset_update;
use vstd::std_specs::cmp::PartialEqSpec;
use vstd::std_specs::cmp::PartialOrdSpec;

verus! {

/// The comparison's own strict "less than".
pub open spec fn lt_spec<T: PartialOrd>(a: T, b: T) -> bool {
    a.partial_cmp_spec(&b) == Some(core::cmp::Ordering::Less)
}

/// The executable comparisons follow `partial_cmp_spec`, and that relation
/// is a strict weak order whose incomparability never separates elements:
/// asymmetric, transitive, and negatively transitive. The integer types
/// satisfy all of it.
pub open spec fn strict_order<T: PartialOrd>() -> bool {
    &&& T::obeys_partial_cmp_spec()
    &&& forall|a: T, b: T| #[trigger] lt_spec(a, b) ==> !lt_spec(b, a)
    &&& forall|a: T, b: T, c: T| lt_spec(a, b) && lt_spec(b, c) ==> lt_spec(a, c)
    &&& forall|a: T, b: T, c: T| #[trigger] lt_spec(a, c) ==> lt_spec(a, b) || #[trigger] lt_spec(
        b,
        c,
    )
}

/// The executable equality test agrees with the mathematical equality of
/// values (true of the integer types).
pub open spec fn eq_structural<T: PartialEq>() -> bool {
    &&& T::obeys_eq_spec()
    &&& forall|a: T, b: T| #[trigger] a.eq_spec(&b) <==> a == b
}

/// No pair of positions in `[lo, hi)` is inverted. Under `strict_order`
/// this is exactly "sorted ascending".
pub open spec fn sorted_range<T: PartialOrd>(s: Seq<T>, lo: int, hi: int) -> bool {
    forall|i: int, j: int| lo <= i < j < hi ==> !lt_spec(s[j], s[i])
}

/// How many entries of `s` are the value `x`.
pub open spec fn count_of<T>(s: Seq<T>, x: T) -> int
    decreases s.len(),
{
    if s.len() == 0 {
        0
    } else {
        count_of(s.drop_last(), x) + if s.last() == x {
            1int
        } else {
            0int
        }
    }
}

/// The `i32` comparison satisfies every premise of the ordering claims:
/// its `partial_cmp` is the integer comparison, a strict total order, and
/// its equality test is the equality of values. A client holding one of
/// the conditional sorting or heap claims discharges the condition with
/// this.
pub proof fn lemma_i32_strict_order()
    ensures
        strict_order::<i32>(),
        eq_structural::<i32>(),
{
    assert forall|a: i32, b: i32| #[trigger] lt_spec(a, b) implies !lt_spec(b, a) by {}
    assert forall|a: i32, b: i32, c: i32| lt_spec(a, b) && lt_spec(b, c) implies lt_spec(
        a,
        c,
    ) by {}
    assert forall|a: i32, b: i32, c: i32| #[trigger] lt_spec(a, c) implies lt_spec(a, b)
        || #[trigger] lt_spec(b, c) by {}
    assert forall|a: i32, b: i32| #[trigger] a.eq_spec(&b) <==> a == b by {}
}

/// Relies on `<[T]>::swap`: exchanges the elements at `a` and `b` in place.
#[verifier::external_body]
pub(crate) fn swap_in<T>(s: &mut [T], a: usize, b: usize)
    requires
        a < old(s)@.len(),
        b < old(s)@.len(),
    ensures
        final(s)@ == old(s)@.update(a as int, old(s)@[b as int]).update(b as int, old(s)@[a as int]),
{
    s.swap(a, b)
}

/// Exchanging two entries of a range leaves the range's multiset alone.
pub(crate) proof fn lemma_swap_multiset<T>(s1: Seq<T>, s2: Seq<T>, lo: int, hi: int, a: int, b: int)
    requires
        0 <= lo <= a < hi <= s1.len(),
        lo <= b < hi,
        s1.len() == s2.len(),
        s2 == s1.update(a, s1[b]).update(b, s1[a]),
    ensures
        s2.subrange(lo, hi).to_multiset() == s1.subrange(lo, hi).to_multiset(),
{
    broadcast use to_multiset_update;
    broadcast use to_multiset_contains;

    let t1 = s1.subrange(lo, hi);
    let t2 = s2.subrange(lo, hi);
    if a == b {
        assert(t2 =~= t1);
    } else {
        assert(t2 =~= t1.update(a - lo, t1[b - lo]).update(b - lo, t1[a - lo]));
        let u = t1.update(a - lo, t1[b - lo]);
        assert(t1.contains(t1[a - lo]));
        assert(u.contains(u[b - lo]));
        assert(u[b - lo] == t1[b - lo]);
        assert(t2.to_multiset() =~= t1.to_multiset());
    }
}

/// A permutation keeps every value-level property of the entries.
pub(crate) proof fn lemma_perm_all<T>(s1: Seq<T>, s2: Seq<T>, f: spec_fn(T) -> bool)
    requires
        s1.to_multiset() == s2.to_multiset(),
        forall|i: int| 0 <= i < s1.len() ==> f(s1[i]),
    ensures
        forall|i: int| 0 <= i < s2.len() ==> f(s2[i]),
{
    broadcast use to_multiset_contains;

    assert forall|i: int| 0 <= i < s2.len() implies f(s2[i]) by {
        assert(s2.contains(s2[i]));
        assert(s2.to_multiset().count(s2[i]) > 0);
        assert(s1.to_multiset().count(s2[i]) > 0);
        assert(s1.contains(s2[i]));
        let j = choose|j: int| 0 <= j < s1.len() && s1[j] == s2[i];
        assert(f(s1[j]));
    }
}

/// In-place quicksort of `slice[lo..hi]`: the range is partitioned around
/// its first element and the two sides are sorted recursively. The range
/// afterwards holds the same elements, everything outside it is untouched,
/// and under `strict_order` the range is sorted ascending.
pub fn quicksort<T: Ord + Default>(slice: &mut [T], lo: usize, hi: usize)
    requires
        hi <= old(slice)@.len(),
    ensures
        final(slice)@.len() == old(slice)@.len(),
        forall|i: int| 0 <= i < old(slice)@.len() && !(lo <= i < hi) ==> final(slice)@[i] == old(
            slice,
        )@[i],
        lo <= hi ==> final(slice)@.subrange(lo as int, hi as int).to_multiset() == old(
            slice,
        )@.subrange(lo as int, hi as int).to_multiset(),
        strict_order::<T>() && lo <= hi ==> sorted_range(final(slice)@, lo as int, hi as int),
    decreases hi - lo,
{
    if hi <= lo {
        return ;
    }
    if hi - lo < 2 {
        return ;
    }
    let ghost s0 = slice@;
    let ghost pv = slice@[lo as int];
    let mut mi: usize = lo;
    let mut k: usize = lo + 1;
    while k < hi
        invariant
            lo <= mi < k <= hi,
            hi <= slice@.len(),
            slice@.len() == s0.len(),
            slice@[lo as int] == pv,
            forall|i: int| 0 <= i < s0.len() && !(lo <= i < hi) ==> slice@[i] == s0[i],
            slice@.subrange(lo as int, hi as int).to_multiset() == s0.subrange(
                lo as int,
                hi as int,
            ).to_multiset(),
            strict_order::<T>() ==> forall|t: int| lo < t <= mi ==> lt_spec(slice@[t], pv),
            strict_order::<T>() ==> forall|t: int| mi < t < k ==> !lt_spec(slice@[t], pv),
        decreases hi - k,
    {
        let c = slice_ref(slice, k).lt(slice_ref(slice, lo));
        if c {
            mi = mi + 1;
            let ghost sbefore = slice@;
            swap_in(slice, mi, k);
            proof {
                lemma_swap_multiset(sbefore, slice@, lo as int, hi as int, mi as int, k as int);
                assert(slice@.subrange(lo as int, hi as int).to_multiset() == s0.subrange(
                    lo as int,
                    hi as int,
                ).to_multiset());
            }
        }
        k = k + 1;
    }
    let ghost sbefore = slice@;
    swap_in(slice, lo, mi);
    proof {
        lemma_swap_multiset(sbefore, slice@, lo as int, hi as int, lo as int, mi as int);
    }
    let ghost s1 = slice@;
    quicksort(slice, lo, mi);
    let ghost s2 = slice@;
    proof {
        assert(s2.subrange(lo as int, hi as int).to_multiset() == s1.subrange(
            lo as int,
            hi as int,
        ).to_multiset()) by {
            assert(s2.subrange(lo as int, hi as int) =~= s2.subrange(lo as int, mi as int) + s2.subrange(
                mi as int,
                hi as int,
            ));
            assert(s1.subrange(lo as int, hi as int) =~= s1.subrange(lo as int, mi as int) + s1.subrange(
                mi as int,
                hi as int,
            ));
            assert(s2.subrange(mi as int, hi as int) =~= s1.subrange(mi as int, hi as int));
            vstd::seq_lib::lemma_multiset_commutative(
                s2.subrange(lo as int, mi as int),
                s2.subrange(mi as int, hi as int),
            );
            vstd::seq_lib::lemma_multiset_commutative(
                s1.subrange(lo as int, mi as int),
                s1.subrange(mi as int, hi as int),
            );
        }
    }
    quicksort(slice, mi + 1, hi);
    proof {
        let s3 = slice@;
        assert(s3.subrange(lo as int, hi as int).to_multiset() == s2.subrange(
            lo as int,
            hi as int,
        ).to_multiset()) by {
            assert(s3.subrange(lo as int, hi as int) =~= s3.subrange(lo as int, mi as int + 1)
                + s3.subrange(mi as int + 1, hi as int));
            assert(s2.subrange(lo as int, hi as int) =~= s2.subrange(lo as int, mi as int + 1)
                + s2.subrange(mi as int + 1, hi as int));
            assert(s3.subrange(lo as int, mi as int + 1) =~= s2.subrange(lo as int, mi as int + 1));
            vstd::seq_lib::lemma_multiset_commutative(
                s3.subrange(lo as int, mi as int + 1),
                s3.subrange(mi as int + 1, hi as int),
            );
            vstd::seq_lib::lemma_multiset_commutative(
                s2.subrange(lo as int, mi as int + 1),
                s2.subrange(mi as int + 1, hi as int),
            );
        }
        if strict_order::<T>() {
            let s3 = slice@;
            // the pivot sits at `mi`; the left side is below it, the right
            // side is not, and both survive the recursive permutations
            assert(s1[mi as int] == pv);
            assert(s3[mi as int] == pv);
            lemma_perm_all(
                s1.subrange(lo as int, mi as int),
                s2.subrange(lo as int, mi as int),
                |x: T| lt_spec(x, pv),
            );
            lemma_perm_all(
                s2.subrange(mi as int + 1, hi as int),
                s3.subrange(mi as int + 1, hi as int),
                |x: T| !lt_spec(x, pv),
            );
            assert forall|i: int, j: int| lo <= i < j < hi implies !lt_spec(s3[j], s3[i]) by {
                if j <= mi as int {
                    assert(s3.subrange(lo as int, mi as int + 1) =~= s2.subrange(
                        lo as int,
                        mi as int + 1,
                    ));
                    assert(s3[i] == s2[i] && s3[j] == s2[j]) by {
                        assert(s3.subrange(lo as int, mi as int + 1)[i - lo] == s2.subrange(
                            lo as int,
                            mi as int + 1,
                        )[i - lo]);
                        assert(s3.subrange(lo as int, mi as int + 1)[j - lo] == s2.subrange(
                            lo as int,
                            mi as int + 1,
                        )[j - lo]);
                    }
                    if j < mi as int {
                        assert(s2[i] == s2.subrange(lo as int, mi as int)[i - lo]);
                        assert(s2[j] == s2.subrange(lo as int, mi as int)[j - lo]);
                        assert(!lt_spec(s2[j], s2[i]));
                    } else {
                        // j is the pivot position
                        assert(s2[j] == pv);
                        assert(s2[i] == s2.subrange(lo as int, mi as int)[i - lo]);
                        assert(lt_spec(s2[i], pv));
                        assert(!lt_spec(pv, s2[i]));
                    }
                } else if i >= mi as int + 1 {
                    assert(!lt_spec(s3[j], s3[i]));
                } else {
                    // i is at or left of the pivot, j strictly right of it
                    assert(!lt_spec(s3.subrange(mi as int + 1, hi as int)[j - (mi as int + 1)], pv));
                    assert(!lt_spec(s3[j], pv));
                    if i < mi as int {
                        assert(s3.subrange(lo as int, mi as int + 1) =~= s2.subrange(
                            lo as int,
                            mi as int + 1,
                        ));
                        assert(s3[i] == s2[i]) by {
                            assert(s3.subrange(lo as int, mi as int + 1)[i - lo] == s2.subrange(
                                lo as int,
                                mi as int + 1,
                            )[i - lo]);
                        }
                        assert(s2[i] == s2.subrange(lo as int, mi as int)[i - lo]);
                        assert(lt_spec(s3[i], pv));
                    } else {
                        assert(s3[i] == pv) by {
                            assert(s3.subrange(lo as int, mi as int + 1) =~= s2.subrange(
                                lo as int,
                                mi as int + 1,
                            ));
                            assert(s3.subrange(lo as int, mi as int + 1)[i - lo] == s2.subrange(
                                lo as int,
                                mi as int + 1,
                            )[i - lo]);
                        }
                    }
                }
            }
        }
    }
}

/// Extending a prefix by one entry raises the count of exactly that value.
pub(crate) proof fn lemma_count_push<T>(s: Seq<T>, i: int, x: T)
    requires
        0 <= i < s.len(),
    ensures
        count_of(s.subrange(0, i + 1), x) == count_of(s.subrange(0, i), x) + if s[i] == x {
            1int
        } else {
            0int
        },
{
    assert(s.subrange(0, i + 1).drop_last() =~= s.subrange(0, i));
    assert(s.subrange(0, i + 1).last() == s[i]);
}

/// Read-only access to one slice entry.
pub(crate) fn slice_ref<T>(s: &[T], i: usize) -> (r: &T)
    requires
        i < s@.len(),
    ensures
        *r == s@[i as int],
{
    &s[i]
}

/// Boyer-Moore majority vote: one pass with a candidate and a counter. If
/// some value fills more than half of the slice, that value is reported;
/// the slice itself is left untouched.
pub fn find_majory<T: Ord + Default + Copy>(slice: &mut [T]) -> (maj: T)
    ensures
        final(slice)@ == old(slice)@,
        eq_structural::<T>() ==> forall|x: T|
            2 * count_of(old(slice)@, x) > old(slice)@.len() ==> maj == x,
{
    let mut maj = T::default();
    let mut c: usize = 0;
    let n = slice.len();
    let mut i: usize = 0;
    while i < n
        invariant
            n == slice@.len(),
            slice@ == old(slice)@,
            i <= n,
            c <= i,
            eq_structural::<T>() ==> (forall|x: T|
                x != maj ==> 2 * count_of(slice@.subrange(0, i as int), x) <= i - c) && 2
                * count_of(slice@.subrange(0, i as int), maj) <= i + c,
        decreases n - i,
    {
        let e = *slice_ref(slice, i);
        let ghost maj0 = maj;
        let ghost c0 = c as int;
        if c == 0 {
            maj = e;
            c = 1;
        } else if maj.eq(&e) {
            c = c + 1;
        } else {
            c = c - 1;
        }
        proof {
            if eq_structural::<T>() {
                assert forall|x: T|
                    #![trigger count_of(slice@.subrange(0, i as int + 1), x)]
                    x != maj implies 2 * count_of(slice@.subrange(0, i as int + 1), x) <= (i + 1)
                    - c by {
                    lemma_count_push(slice@, i as int, x);
                }
                lemma_count_push(slice@, i as int, maj);
            }
        }
        i = i + 1;
    }
    proof {
        assert(slice@.subrange(0, n as int) =~= slice@);
    }
    maj
}

} // verus!
