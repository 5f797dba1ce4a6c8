//! Substring search over the UTF-8 bytes of the text: Knuth-Morris-Pratt,
//! the Boyer-Moore bad-character rule, and Karp-Rabin rolling hashing.
//!
//! A hit is stated as `match_at`: the pattern's bytes sit at the given byte
//! offset of the text. The Boyer-Moore and Karp-Rabin matchers report
//! exactly the first hit or `None`.

use crate::sort::slice_ref;
use vstd::pervasive::VecAdditionalExecFns;
use vstd::prelude::*;
use vstd::string::StringSliceAdditionalSpecFns;

verus! {

/// The pattern `p` occurs in `t` at offset `i`.
pub open spec fn match_at(t: Seq<u8>, p: Seq<u8>, i: int) -> bool {
    &&& 0 <= i
    &&& i + p.len() <= t.len()
    &&& t.subrange(i, i + p.len()) =~= p
}

/// `b` is the length of a border of `p[..k]`: a prefix of `p[..k]` that is
/// also its suffix.
pub open spec fn is_border(p: Seq<u8>, k: int, b: int) -> bool {
    &&& 0 <= b <= k <= p.len()
    &&& p.subrange(0, b) =~= p.subrange(k - b, k)
}

/// A non-empty border shrinks: dropping its last byte leaves a border of
/// the one-shorter prefix, and the dropped byte equals the prefix's last.
proof fn lemma_border_shrink(p: Seq<u8>, k: int, b: int)
    requires
        is_border(p, k, b),
        1 <= b,
        b < k,
    ensures
        is_border(p, k - 1, b - 1),
        p[b - 1] == p[k - 1],
{
    assert(p.subrange(0, b)[b - 1] == p.subrange(k - b, k)[b - 1]);
    assert forall|x: int|
        #![trigger p.subrange(0, b - 1)[x]]
        0 <= x < b - 1 implies p.subrange(0, b - 1)[x] == p.subrange(
        (k - 1) - (b - 1),
        k - 1,
    )[x] by {
        assert(p.subrange(0, b)[x] == p.subrange(k - b, k)[x]);
    }
    assert(p.subrange(0, b - 1) =~= p.subrange((k - 1) - (b - 1), k - 1));
}

/// Of two borders of the same prefix, the shorter is a border of the
/// longer.
proof fn lemma_border_interpolate(p: Seq<u8>, k: int, b: int, t: int)
    requires
        is_border(p, k, b),
        is_border(p, k, t),
        b <= t,
    ensures
        is_border(p, t, b),
{
    assert forall|x: int| 0 <= x < b implies p.subrange(0, b)[x] == p.subrange(t - b, t)[x] by {
        assert(p.subrange(0, b)[x] == p.subrange(k - b, k)[x]);
        assert(p.subrange(k - b, k)[x] == p[k - b + x]);
        assert(p.subrange(k - t, k)[(t - b) + x] == p[k - b + x]);
        assert(p.subrange(0, t)[(t - b) + x] == p.subrange(k - t, k)[(t - b) + x]);
        assert(p.subrange(t - b, t)[x] == p.subrange(0, t)[(t - b) + x]);
    }
    assert(p.subrange(0, b) =~= p.subrange(t - b, t));
}

/// Compare `p` against the bytes of `t` starting at `off`.
fn eq_at(t: &[u8], off: usize, p: &[u8]) -> (r: bool)
    requires
        off + p@.len() <= t@.len(),
    ensures
        r == match_at(t@, p@, off as int),
{
    let m = p.len();
    let tl = t.len();
    let mut k: usize = 0;
    let mut ok = true;
    while ok && k < m
        invariant
            k <= m,
            tl == t@.len(),
            off + m <= tl,
            m == p@.len(),
            ok ==> t@.subrange(off as int, off + k) == p@.subrange(0, k as int),
            !ok ==> !match_at(t@, p@, off as int),
        decreases m - k + if ok {
            1int
        } else {
            0int
        },
    {
        if *slice_ref(t, off + k) == *slice_ref(p, k) {
            proof {
                assert(t@.subrange(off as int, off + k + 1) =~= t@.subrange(off as int, off + k).push(
                    t@[off + k],
                ));
                assert(p@.subrange(0, k as int + 1) =~= p@.subrange(0, k as int).push(p@[k as int]));
            }
            k = k + 1;
        } else {
            proof {
                if match_at(t@, p@, off as int) {
                    assert(t@.subrange(off as int, off + m)[k as int] == p@[k as int]);
                }
            }
            ok = false;
        }
    }
    proof {
        if ok {
            assert(t@.subrange(off as int, off + m) =~= p@.subrange(0, m as int));
            assert(p@.subrange(0, m as int) =~= p@);
        }
    }
    ok
}

/// The bad-character table: for each byte value, the rightmost position in
/// the pattern holding it, or `-1` when the byte does not occur at all.
fn build_bc(p: &[u8]) -> (bc: Vec<i32>)
    requires
        p@.len() <= 0x7fff_ffff,
    ensures
        bc@.len() == 256,
        forall|b: int|
            #![trigger bc@[b]]
            0 <= b < 256 ==> {
                &&& -1 <= bc@[b] < p@.len()
                &&& (bc@[b] >= 0 ==> p@[bc@[b] as int] as int == b)
                &&& (forall|k: int| #![trigger p@[k]] bc@[b] < k < p@.len() ==> p@[k] as int != b)
            },
{
    let mut bc: Vec<i32> = vec![-1; 256];
    let m = p.len();
    let mut j: usize = 0;
    while j < m
        invariant
            bc@.len() == 256,
            j <= m,
            m == p@.len(),
            m <= 0x7fff_ffff,
            forall|b: int|
                #![trigger bc@[b]]
                0 <= b < 256 ==> {
                    &&& -1 <= bc@[b] < j
                    &&& (bc@[b] >= 0 ==> p@[bc@[b] as int] as int == b)
                    &&& (forall|k: int| #![trigger p@[k]] bc@[b] < k < j ==> p@[k] as int != b)
                },
        decreases m - j,
    {
        let ch = *slice_ref(p, j);
        bc.set(ch as usize, j as i32);
        j = j + 1;
    }
    bc
}

/// Boyer-Moore with the bad-character rule: scan the pattern right to left
/// under the current alignment and on a mismatch skip the alignments that
/// the mismatching text byte rules out. Reports the first hit.
pub fn bmbc_match(text: &str, pattern: &str) -> (r: Option<usize>)
    requires
        pattern.spec_bytes().len() >= 1,
        pattern.spec_bytes().len() <= 0x7fff_ffff,
        text.spec_bytes().len() + pattern.spec_bytes().len() < usize::MAX,
    ensures
        r matches Some(i) ==> match_at(text.spec_bytes(), pattern.spec_bytes(), i as int)
            && forall|s: int| 0 <= s < i ==> !match_at(text.spec_bytes(), pattern.spec_bytes(), s),
        r is None ==> forall|s: int| !match_at(text.spec_bytes(), pattern.spec_bytes(), s),
{
    let t = text.as_bytes();
    let p = pattern.as_bytes();
    proof {
        assert(t@ == text.spec_bytes());
        assert(p@ == pattern.spec_bytes());
    }
    let n = t.len();
    let m = p.len();
    let bc = build_bc(p);
    let mut i: usize = 0;
    let mut j: usize = m - 1;
    while i + j < n
        invariant
            j < m,
            m == p@.len(),
            n == t@.len(),
            t@ == text.spec_bytes(),
            p@ == pattern.spec_bytes(),
            1 <= m <= 0x7fff_ffff,
            n + m < usize::MAX,
            i <= n,
            bc@.len() == 256,
            forall|b: int|
                #![trigger bc@[b]]
                0 <= b < 256 ==> {
                    &&& -1 <= bc@[b] < p@.len()
                    &&& (bc@[b] >= 0 ==> p@[bc@[b] as int] as int == b)
                    &&& (forall|k: int| #![trigger p@[k]] bc@[b] < k < p@.len() ==> p@[k] as int != b)
                },
            forall|s: int| 0 <= s < i ==> !match_at(t@, p@, s),
            j < m - 1 ==> i + m <= n && t@.subrange(i + j + 1, i + m) == p@.subrange(
                j as int + 1,
                m as int,
            ),
        decreases n - i, j,
    {
        let tc = *slice_ref(t, i + j);
        let pc = *slice_ref(p, j);
        if tc == pc {
            if j == 0 {
                proof {
                    assert(t@.subrange(i as int, i + m) =~= p@) by {
                        if m > 1 {
                            assert forall|k: int| 0 <= k < m implies t@.subrange(i as int, i + m)[k]
                                == p@[k] by {
                                if k > 0 {
                                    assert(t@.subrange(i + 1, i + m)[k - 1] == p@.subrange(
                                        1,
                                        m as int,
                                    )[k - 1]);
                                }
                            }
                        }
                    }
                    assert(match_at(t@, p@, i as int));
                    assert(t@ == text.spec_bytes() && p@ == pattern.spec_bytes());
                    assert forall|s: int| 0 <= s < i implies !match_at(
                        text.spec_bytes(),
                        pattern.spec_bytes(),
                        s,
                    ) by {
                        assert(!match_at(t@, p@, s));
                    }
                }
                return Some(i);
            }
            proof {
                assert(t@.subrange(i + j, i + m) =~= p@.subrange(j as int, m as int)) by {
                    assert forall|k: int| 0 <= k < m - j implies t@.subrange(i + j, i + m)[k]
                        == p@.subrange(j as int, m as int)[k] by {
                        if k > 0 {
                            assert(t@.subrange(i + j + 1, i + m)[k - 1] == p@.subrange(
                                j as int + 1,
                                m as int,
                            )[k - 1]);
                        }
                    }
                }
            }
            j = j - 1;
        } else {
            let prev = bc[tc as usize];
            let ghost iold = i as int;
            proof {
                assert(!match_at(t@, p@, iold)) by {
                    if match_at(t@, p@, iold) {
                        assert(t@.subrange(iold, iold + m)[j as int] == p@[j as int]);
                    }
                }
            }
            if prev == -1 {
                proof {
                    assert forall|s: int| iold < s < iold + j + 1 implies !match_at(t@, p@, s) by {
                        if match_at(t@, p@, s) {
                            assert(t@.subrange(s, s + m)[iold + j - s] == p@[iold + j - s]);
                            assert(p@[iold + j - s] == tc);
                        }
                    }
                }
                i = i + j + 1;
            } else if (prev as usize) < j {
                proof {
                    assert(p@[prev as int] == tc);
                    assert forall|s: int| iold < s < iold + j - prev implies !match_at(
                        t@,
                        p@,
                        s,
                    ) by {
                        if match_at(t@, p@, s) {
                            assert(t@.subrange(s, s + m)[iold + j - s] == p@[iold + j - s]);
                            assert(p@[iold + j - s] == tc);
                        }
                    }
                }
                i = i + (j - prev as usize);
            } else {
                i = i + 1;
            }
            j = m - 1;
        }
    }
    proof {
        assert forall|s: int| !match_at(t@, p@, s) by {
            if s >= i {
                if match_at(t@, p@, s) {
                    assert(s + m <= n);
                }
            }
        }
    }
    None
}

/// The failure table: `next[0]` is the `-1` sentinel, and every other entry
/// is the length of a border of the prefix ending there, so a shift through
/// the table keeps the matched suffix intact.
fn build_next(p: &[u8]) -> (next: Vec<i32>)
    requires
        1 <= p@.len() <= 0x7fff_ffff,
    ensures
        next@.len() == p@.len(),
        forall|k: int| #![trigger next@[k]] 0 <= k < p@.len() ==> -1 <= next@[k] < k,
        forall|k: int| #![trigger next@[k]] 1 <= k < p@.len() ==> next@[k] >= 0,
        forall|k: int|
            #![trigger next@[k]]
            0 <= k < p@.len() && next@[k] >= 0 ==> is_border(p@, k, next@[k] as int),
        forall|k: int, b: int|
            #![trigger is_border(p@, k, b)]
            1 <= k < p@.len() && 0 <= b < k && is_border(p@, k, b) ==> b <= next@[k],
{
    let m = p.len();
    let mut next: Vec<i32> = vec![0; m];
    next.set(0, -1);
    proof {
        assert forall|k: int| 0 <= k < p@.len() && next@[k] >= 0 implies is_border(
            p@,
            k,
            next@[k] as int,
        ) by {
            assert(p@.subrange(0, 0) =~= p@.subrange(k, k));
        }
    }
    let mut j: usize = 0;
    let mut t: i32 = -1;
    while j < m - 1
        invariant
            m == p@.len(),
            1 <= m <= 0x7fff_ffff,
            next@.len() == m,
            j < m,
            -1 <= t,
            t < j as i32,
            t < 0x7fff_ffff,
            forall|k: int| #![trigger next@[k]] 0 <= k < m ==> -1 <= next@[k] < k,
            forall|k: int| #![trigger next@[k]] 1 <= k < m ==> next@[k] >= 0,
            forall|k: int|
                #![trigger next@[k]]
                0 <= k < m && next@[k] >= 0 ==> is_border(p@, k, next@[k] as int),
            t >= 0 ==> is_border(p@, j as int, t as int),
            forall|k: int, b: int|
                #![trigger is_border(p@, k, b)]
                1 <= k <= j && 0 <= b < k && is_border(p@, k, b) ==> b <= next@[k],
            forall|b: int|
                #![trigger is_border(p@, j as int, b)]
                0 <= b < j && is_border(p@, j as int, b) && b > t ==> p@[b] != p@[j as int],
        decreases m - 1 - j, t + 1,
    {
        if t < 0 || *slice_ref(p, j) == *slice_ref(p, t as usize) {
            proof {
                if t >= 0 {
                    // the border extends by the matching byte
                    let ti = t as int;
                    let ji = j as int;
                    assert forall|x: int|
                        #![trigger p@.subrange(0, ti + 1)[x]]
                        0 <= x < ti + 1 implies p@.subrange(0, ti + 1)[x] == p@.subrange(
                        ji + 1 - (ti + 1),
                        ji + 1,
                    )[x] by {
                        if x < ti {
                            assert(p@.subrange(0, ti)[x] == p@.subrange(ji - ti, ji)[x]);
                        }
                    }
                    assert(is_border(p@, ji + 1, ti + 1));
                } else {
                    assert(p@.subrange(0, 0) =~= p@.subrange(j as int + 1, j as int + 1));
                    assert(is_border(p@, j as int + 1, 0));
                }
                // nothing longer can border the extended prefix: a longer
                // border would shrink to a border of the old prefix that
                // still extends by the same byte
                assert forall|b: int|
                    #![trigger is_border(p@, j as int + 1, b)]
                    0 <= b < j + 1 && is_border(p@, j as int + 1, b) implies b <= t + 1 by {
                    if b > t + 1 {
                        lemma_border_shrink(p@, j as int + 1, b);
                        assert(is_border(p@, j as int, b - 1));
                        assert(p@[b - 1] == p@[j as int]);
                    }
                }
            }
            j = j + 1;
            t = t + 1;
            next.set(j, t);
        } else {
            let told = t;
            t = next[t as usize];
            proof {
                let ti = told as int;
                let ji = j as int;
                if t >= 0 {
                    // a border of a border is a border of the whole prefix
                    let bi = t as int;
                    assert(is_border(p@, ti, bi));
                    assert forall|x: int| 0 <= x < bi implies p@.subrange(0, bi)[x] == p@.subrange(
                        ji - bi,
                        ji,
                    )[x] by {
                        assert(p@.subrange(0, bi)[x] == p@.subrange(ti - bi, ti)[x]);
                        assert(p@.subrange(ti - bi, ti)[x] == p@[ti - bi + x]);
                        assert(p@.subrange(0, ti)[ti - bi + x] == p@.subrange(ji - ti, ji)[ti - bi
                            + x]);
                    }
                    assert(is_border(p@, ji, bi));
                }
                // the chase skips no usable border: anything between the
                // old and the new candidate would be a border of the old
                // candidate's prefix longer than its stored maximum
                assert forall|b: int|
                    #![trigger is_border(p@, ji, b)]
                    0 <= b < j && is_border(p@, ji, b) && b > t implies p@[b] != p@[ji] by {
                    if b < told {
                        assert(is_border(p@, ji, ti));
                        lemma_border_interpolate(p@, ji, b, ti);
                        assert(is_border(p@, ti, b));
                    } else if b == told {
                        assert(p@[ti] != p@[ji]);
                    }
                }
            }
        }
    }
    next
}

/// Knuth-Morris-Pratt: scan left to right, never moving back in the text;
/// on a mismatch the pattern slides along its own border structure. The
/// first hit is reported at its offset. One quirk of this matcher, pinned
/// by the contract: when there is no hit but a proper prefix of the
/// pattern runs off the text's end, the offset where that prefix starts is
/// reported instead of `None`.
pub fn kmp_match(text: &str, pattern: &str) -> (r: Option<usize>)
    requires
        1 <= pattern.spec_bytes().len() <= 0x7fff_ffff,
        text.spec_bytes().len() <= 0x7fff_ffff,
    ensures
        r matches Some(s) ==> (forall|q: int|
            0 <= q < s ==> !match_at(text.spec_bytes(), pattern.spec_bytes(), q)),
        r matches Some(s) ==> match_at(text.spec_bytes(), pattern.spec_bytes(), s as int) || (s
            < text.spec_bytes().len() && text.spec_bytes().len() < s + pattern.spec_bytes().len()
            && text.spec_bytes().subrange(s as int, text.spec_bytes().len() as int)
            =~= pattern.spec_bytes().subrange(0, text.spec_bytes().len() - s) && forall|q: int|
            !match_at(text.spec_bytes(), pattern.spec_bytes(), q)),
        r is None ==> forall|q: int| !match_at(text.spec_bytes(), pattern.spec_bytes(), q),
{
    let t = text.as_bytes();
    let p = pattern.as_bytes();
    let next = build_next(p);
    let n = t.len() as i32;
    let m = p.len() as i32;
    let mut i: i32 = 0;
    let mut j: i32 = 0;
    while j < m && i < n
        invariant
            n == t@.len(),
            m == p@.len(),
            1 <= m,
            t@ == text.spec_bytes(),
            p@ == pattern.spec_bytes(),
            next@.len() == m,
            forall|k: int| #![trigger next@[k]] 0 <= k < m ==> -1 <= next@[k] < k,
            forall|k: int| #![trigger next@[k]] 1 <= k < m ==> next@[k] >= 0,
            forall|k: int|
                #![trigger next@[k]]
                0 <= k < m && next@[k] >= 0 ==> is_border(p@, k, next@[k] as int),
            forall|k: int, b: int|
                #![trigger is_border(p@, k, b)]
                1 <= k < m && 0 <= b < k && is_border(p@, k, b) ==> b <= next@[k],
            0 <= i <= n,
            -1 <= j <= m,
            j <= i,
            i == n ==> j >= 0,
            j >= 0 ==> t@.subrange(i - j, i as int) =~= p@.subrange(0, j as int),
            forall|q: int| 0 <= q < i - j ==> !match_at(t@, p@, q),
        decreases n - i, j + 1,
    {
        if j < 0 || *slice_ref(t, i as usize) == *slice_ref(p, j as usize) {
            proof {
                if j >= 0 {
                    let ii = i as int;
                    let ji = j as int;
                    assert(t@.subrange(ii - ji, ii + 1) =~= t@.subrange(ii - ji, ii).push(t@[ii]));
                    assert(p@.subrange(0, ji + 1) =~= p@.subrange(0, ji).push(p@[ji]));
                } else {
                    assert(t@.subrange(i as int + 1, i as int + 1) =~= p@.subrange(0, 0));
                }
            }
            j = j + 1;
            i = i + 1;
        } else {
            let jold = j;
            j = next[j as usize];
            proof {
                let ii = i as int;
                let ji = jold as int;
                let jnew = j as int;
                // every alignment the shift skips would need a longer
                // border of the matched prefix than the table's maximum
                assert forall|q: int| 0 <= q < ii - jnew implies !match_at(t@, p@, q) by {
                    if q >= ii - ji && match_at(t@, p@, q) {
                        if q == ii - ji {
                            assert(t@.subrange(q, q + m as int)[ji] == p@[ji]);
                            assert(t@[ii] == p@[ji]);
                        } else {
                            let b2 = ii - q;
                            assert(0 < b2 < ji);
                            assert forall|x: int|
                                #![trigger p@.subrange(0, b2)[x]]
                                0 <= x < b2 implies p@.subrange(0, b2)[x] == p@.subrange(
                                ji - b2,
                                ji,
                            )[x] by {
                                assert(t@.subrange(q, q + m as int)[x] == p@[x]);
                                assert(t@[q + x] == p@[x]);
                                assert(t@.subrange(ii - ji, ii)[q + x - (ii - ji)] == p@.subrange(
                                    0,
                                    ji,
                                )[q + x - (ii - ji)]);
                                assert(t@[q + x] == p@[q + x - (ii - ji)]);
                            }
                            assert(p@.subrange(0, b2) =~= p@.subrange(ji - b2, ji));
                            assert(is_border(p@, ji, b2));
                            assert(b2 <= next@[ji]);
                        }
                    }
                }
                if j >= 0 {
                    let bi = j as int;
                    assert(is_border(p@, ji, bi));
                    assert forall|x: int| 0 <= x < bi implies t@.subrange(ii - bi, ii)[x]
                        == p@.subrange(0, bi)[x] by {
                        assert(p@.subrange(0, bi)[x] == p@.subrange(ji - bi, ji)[x]);
                        assert(p@.subrange(ji - bi, ji)[x] == p@[ji - bi + x]);
                        assert(p@.subrange(0, ji)[ji - bi + x] == p@[ji - bi + x]);
                        assert(t@.subrange(ii - ji, ii)[ji - bi + x] == p@.subrange(0, ji)[ji - bi
                            + x]);
                        assert(t@.subrange(ii - ji, ii)[ji - bi + x] == t@[ii - bi + x]);
                    }
                    assert(t@.subrange(ii - bi, ii) =~= p@.subrange(0, bi));
                }
            }
        }
    }
    proof {
        if j == m {
            let ii = i as int;
            assert(t@.subrange(ii - m, ii) =~= p@.subrange(0, m as int));
            assert(p@.subrange(0, m as int) =~= p@);
            assert(match_at(t@, p@, ii - m));
        }
    }
    if (i - j) as usize == text.len() {
        proof {
            assert forall|q: int| !match_at(t@, p@, q) by {
                if match_at(t@, p@, q) {
                    assert(q + m <= n);
                    assert(q < i - j);
                }
            }
        }
        None
    } else {
        proof {
            if j < m {
                // the loop stopped at the end of the text with part of the
                // pattern still open: what was matched is a proper prefix
                // of the pattern hanging off the end, and nothing fits
                assert(i == n);
                assert(t@.subrange(i - j, i as int) =~= p@.subrange(0, j as int));
                assert forall|q: int| !match_at(t@, p@, q) by {
                    if match_at(t@, p@, q) {
                        assert(q + m <= n);
                        assert(q < i - j);
                    }
                }
            }
        }
        Some((i - j) as usize)
    }
}

/// The modulus of the rolling hash.
pub const RK_BASE: usize = 65539;

/// The rolling hash of a byte sequence: a base-31 polynomial, reduced after
/// every step.
pub open spec fn rk_hash(s: Seq<u8>) -> int
    decreases s.len(),
{
    if s.len() == 0 {
        0
    } else {
        (rk_hash(s.drop_last()) * 31 + s.last()) % (RK_BASE as int)
    }
}

/// `31^e`, reduced after every step.
pub open spec fn rk_pow(e: int) -> int
    decreases e,
{
    if e <= 0 {
        1int % (RK_BASE as int)
    } else {
        (rk_pow(e - 1) * 31) % (RK_BASE as int)
    }
}

/// The hash stays within the modulus.
proof fn lemma_rk_range(s: Seq<u8>)
    ensures
        0 <= rk_hash(s) < RK_BASE as int,
    decreases s.len(),
{
    if s.len() > 0 {
        lemma_rk_range(s.drop_last());
    }
}

/// The hash only looks at the entries.
proof fn lemma_rk_congr(u: Seq<u8>, v: Seq<u8>)
    requires
        u.len() == v.len(),
        forall|k: int| 0 <= k < u.len() ==> u[k] == v[k],
    ensures
        rk_hash(u) == rk_hash(v),
    decreases u.len(),
{
    if u.len() > 0 {
        lemma_rk_congr(u.drop_last(), v.drop_last());
    }
}

/// Dropping the leading byte off a window: the full window's hash is the
/// leading byte's weighted contribution plus the rest.
proof fn lemma_rk_cons(a: u8, u: Seq<u8>)
    ensures
        rk_hash(seq![a] + u) == (a as int * rk_pow(u.len() as int) + rk_hash(u)) % (RK_BASE as int),
    decreases u.len(),
{
    let b = RK_BASE as int;
    let ai = a as int;
    if u.len() == 0 {
        lemma_rk_congr(seq![a] + u, seq![a]);
        assert(rk_hash((seq![a]).drop_last()) == 0);
        assert(rk_hash(seq![a]) == (0int * 31 + ai) % b);
        assert(rk_pow(u.len() as int) == 1) by {
            assert(rk_pow(0) == 1int % b);
            assert(1int % b == 1);
        }
        assert(ai * rk_pow(u.len() as int) == ai * 1int) by {
            assert(rk_pow(u.len() as int) == 1);
        }
        assert((ai * rk_pow(u.len() as int) + rk_hash(u)) % b == ai % b) by {
            assert(ai * rk_pow(u.len() as int) == ai * 1int);
            assert(rk_hash(u) == 0);
        }
    } else {
        let u0 = u.drop_last();
        let ci = u.last() as int;
        lemma_rk_cons(a, u0);
        assert((seq![a] + u).drop_last() =~= seq![a] + u0);
        assert((seq![a] + u).last() == u.last());
        let p0 = rk_pow(u0.len() as int);
        let h0 = rk_hash(u0);
        let x = ai * p0 + h0;
        // left side: fold one more byte onto the smaller window's hash
        assert(rk_hash(seq![a] + u) == ((x % b) * 31 + ci) % b);
        assert(((x % b) * 31 + ci) % b == (x * 31 + ci) % b) by {
            vstd::arithmetic::div_mod::lemma_mul_mod_noop_left(x, 31, b);
            vstd::arithmetic::div_mod::lemma_add_mod_noop((x % b) * 31, ci, b);
            vstd::arithmetic::div_mod::lemma_add_mod_noop(x * 31, ci, b);
            vstd::arithmetic::div_mod::lemma_mod_twice(ci, b);
            assert(((x % b) * 31) % b == (x * 31) % b);
            assert((((x % b) * 31) % b + ci % b) % b == ((x % b) * 31 + ci) % b);
            assert(((x * 31) % b + ci % b) % b == (x * 31 + ci) % b);
        }
        // right side: one more folding step on the power
        let p1 = rk_pow(u.len() as int);
        assert(p1 == (p0 * 31) % b);
        let h1 = rk_hash(u);
        assert(h1 == (h0 * 31 + ci) % b);
        assert((ai * p1 + h1) % b == (ai * (p0 * 31) + (h0 * 31 + ci)) % b) by {
            vstd::arithmetic::div_mod::lemma_mul_mod_noop_right(ai, p0 * 31, b);
            vstd::arithmetic::div_mod::lemma_add_mod_noop(ai * (p0 * 31), h0 * 31 + ci, b);
            vstd::arithmetic::div_mod::lemma_add_mod_noop(ai * ((p0 * 31) % b), h0 * 31 + ci, b);
            vstd::arithmetic::div_mod::lemma_add_mod_noop_right(
                (ai * ((p0 * 31) % b)) % b,
                h0 * 31 + ci,
                b,
            );
            vstd::arithmetic::div_mod::lemma_add_mod_noop_right(
                (ai * (p0 * 31)) % b,
                h0 * 31 + ci,
                b,
            );
            vstd::arithmetic::div_mod::lemma_mod_twice(h0 * 31 + ci, b);
            assert((ai * ((p0 * 31) % b)) % b == (ai * (p0 * 31)) % b);
            assert((ai * p1 + h1) % b == ((ai * p1) % b + h1 % b) % b) by {
                vstd::arithmetic::div_mod::lemma_add_mod_noop(ai * p1, h1, b);
                vstd::arithmetic::div_mod::lemma_mod_twice(ai * p1, b);
                vstd::arithmetic::div_mod::lemma_mod_twice(h1, b);
                vstd::arithmetic::div_mod::lemma_add_mod_noop_right((ai * p1) % b, h1, b);
            }
            assert(((ai * p1) % b + h1 % b) % b == ((ai * (p0 * 31)) % b + (h0 * 31 + ci) % b)
                % b) by {
                vstd::arithmetic::div_mod::lemma_mul_mod_noop_right(ai, p0 * 31, b);
                vstd::arithmetic::div_mod::lemma_mod_twice(ai * ((p0 * 31) % b), b);
                vstd::arithmetic::div_mod::lemma_mod_twice(h0 * 31 + ci, b);
            }
            assert(((ai * (p0 * 31)) % b + (h0 * 31 + ci) % b) % b == (ai * (p0 * 31) + (h0 * 31
                + ci)) % b) by {
                vstd::arithmetic::div_mod::lemma_add_mod_noop(ai * (p0 * 31), h0 * 31 + ci, b);
            }
        }
        // both sides are the unreduced polynomial, reduced once
        assert((ai * p0 + h0) * 31 + ci == ai * (p0 * 31) + (h0 * 31 + ci)) by (nonlinear_arith);
        assert(x * 31 + ci == ai * (p0 * 31) + (h0 * 31 + ci));
    }
}

/// Karp-Rabin: slide a window over the text, keep its rolling hash, and
/// compare bytes only when the window's hash meets the pattern's. Reports
/// the first hit.
#[verifier::rlimit(60)]
pub fn karp_rabin(text: &str, pattern: &str) -> (r: Option<usize>)
    ensures
        r matches Some(i) ==> match_at(text.spec_bytes(), pattern.spec_bytes(), i as int)
            && forall|s: int| 0 <= s < i ==> !match_at(text.spec_bytes(), pattern.spec_bytes(), s),
        r is None ==> forall|s: int| !match_at(text.spec_bytes(), pattern.spec_bytes(), s),
{
    let t = text.as_bytes();
    let p = pattern.as_bytes();
    if p.len() == 0 {
        proof {
            assert(t@.subrange(0, 0) =~= p@);
        }
        return Some(0);
    }
    let m = p.len();
    let mut power: usize = 1;
    let mut k: usize = 0;
    while k < m
        invariant
            k <= m,
            power as int == rk_pow(k as int),
            power < RK_BASE,
        decreases m - k,
    {
        power = (power * 31) % RK_BASE;
        k = k + 1;
    }
    let mut hash_code: usize = 0;
    let mut k: usize = 0;
    while k < m
        invariant
            k <= m,
            m == p@.len(),
            p@ == pattern.spec_bytes(),
            hash_code as int == rk_hash(p@.subrange(0, k as int)),
            hash_code < RK_BASE,
        decreases m - k,
    {
        let c = *slice_ref(p, k);
        hash_code = (hash_code * 31 + c as usize) % RK_BASE;
        proof {
            assert(p@.subrange(0, k as int + 1).drop_last() =~= p@.subrange(0, k as int));
            assert(p@.subrange(0, k as int + 1).last() == p@[k as int]);
        }
        k = k + 1;
    }
    proof {
        assert(p@.subrange(0, m as int) =~= p@);
    }
    let n = t.len();
    let mut source_code: usize = 0;
    let mut i: usize = 0;
    while i < n
        invariant
            i <= n,
            n == t@.len(),
            m == p@.len(),
            1 <= m,
            t@ == text.spec_bytes(),
            p@ == pattern.spec_bytes(),
            power as int == rk_pow(m as int),
            power < RK_BASE,
            hash_code as int == rk_hash(p@),
            source_code < RK_BASE,
            source_code as int == rk_hash(
                t@.subrange(if i <= m { 0int } else { i - m }, i as int),
            ),
            forall|s: int| 0 <= s && s + m <= i as int ==> !match_at(t@, p@, s),
        decreases n - i,
    {
        let ghost lo = if i <= m {
            0int
        } else {
            i - m
        };
        let c = *slice_ref(t, i);
        source_code = (source_code * 31 + c as usize) % RK_BASE;
        proof {
            assert(t@.subrange(lo, i as int + 1).drop_last() =~= t@.subrange(lo, i as int));
            assert(t@.subrange(lo, i as int + 1).last() == t@[i as int]);
        }
        if i + 1 < m {
            proof {
                assert(t@.subrange(0, i as int + 1) == t@.subrange(lo, i as int + 1));
            }
            i = i + 1;
        } else {
            if i >= m {
                let lead = *slice_ref(t, i - m);
                proof {
                    assert((lead as int) * (power as int) <= 255 * 65538) by (nonlinear_arith)
                        requires
                            lead as int <= 255,
                            power as int <= 65538,
                    ;
                }
                let subtrahend = (lead as usize * power) % RK_BASE;
                source_code = (source_code + RK_BASE - subtrahend) % RK_BASE;
                proof {
                    let b = RK_BASE as int;
                    let u = t@.subrange(i - m + 1, i as int + 1);
                    assert(seq![t@[i - m]] + u =~= t@.subrange(i - m, i as int + 1));
                    lemma_rk_cons(t@[i - m], u);
                    lemma_rk_range(u);
                    let aa = (lead as int) * rk_pow(m as int);
                    let h = rk_hash(u);
                    // the window hash splits into the lead's weighted term
                    // plus the rest; removing the reduced lead term and
                    // renormalising leaves exactly the rest
                    assert(u.len() == m);
                    assert(rk_hash(t@.subrange(i - m, i as int + 1)) == (aa + h) % b);
                    vstd::arithmetic::div_mod::lemma_add_mod_noop(aa, h, b);
                    vstd::arithmetic::div_mod::lemma_mod_twice(h, b);
                    assert((aa + h) % b == (aa % b + h) % b);
                    vstd::arithmetic::div_mod::lemma_mod_bound(aa, b);
                    vstd::arithmetic::div_mod::lemma_mod_bound(aa % b + h, b);
                    assert(((aa % b + h) % b + b - aa % b) % b == h) by {
                        vstd::arithmetic::div_mod::lemma_mod_add_multiples_vanish(
                            (aa % b + h) % b - aa % b,
                            b,
                        );
                        vstd::arithmetic::div_mod::lemma_sub_mod_noop(aa % b + h, aa % b, b);
                        assert(((aa % b + h) % b - aa % b) % b == (h % b)) by {
                            vstd::arithmetic::div_mod::lemma_sub_mod_noop(aa % b + h, aa % b, b);
                            vstd::arithmetic::div_mod::lemma_mod_twice(aa % b, b);
                            assert(((aa % b + h) % b - (aa % b) % b) % b == ((aa % b + h) - (aa % b))
                                % b);
                            vstd::arithmetic::div_mod::lemma_mod_add_multiples_vanish(h, b);
                        }
                        vstd::arithmetic::div_mod::lemma_small_mod(h as nat, b as nat);
                    }
                    assert(subtrahend as int == aa % b) by {
                        vstd::arithmetic::div_mod::lemma_mul_mod_noop_right(
                            lead as int,
                            rk_pow(m as int),
                            b,
                        );
                        assert(rk_pow(m as int) % b == rk_pow(m as int)) by {
                            if m as int <= 0 {
                            } else {
                                vstd::arithmetic::div_mod::lemma_mod_twice(
                                    rk_pow(m as int - 1) * 31,
                                    b,
                                );
                            }
                        }
                    }
                }
            }
            let ghost w = i as int + 1 - m;
            proof {
                assert(source_code as int == rk_hash(t@.subrange(w, i as int + 1)));
            }
            if source_code == hash_code {
                if eq_at(t, i + 1 - m, p) {
                    proof {
                        assert forall|s: int| 0 <= s < w implies !match_at(
                            text.spec_bytes(),
                            pattern.spec_bytes(),
                            s,
                        ) by {
                            assert(!match_at(t@, p@, s));
                        }
                    }
                    return Some(i + 1 - m);
                }
            }
            proof {
                if match_at(t@, p@, w) {
                    let u = t@.subrange(w, i as int + 1);
                    assert(u.len() == p@.len());
                    assert forall|k2: int| 0 <= k2 < u.len() implies u[k2] == p@[k2] by {
                        assert(t@.subrange(w, w + p@.len())[k2] == p@[k2]);
                    }
                    lemma_rk_congr(u, p@);
                }
            }
            i = i + 1;
        }
    }
    proof {
        assert forall|s: int| !match_at(t@, p@, s) by {
            if match_at(t@, p@, s) {
                assert(s + m <= n);
            }
        }
    }
    None
}

} // verus!
