//! The subnet-aggregation trie.
//!
//! Each node of the trie owns a 512-bit bitmap ("heap") laid out as a
//! complete binary tree over positions 1..511: leaf positions `256 + v`
//! stand for the single octet value `v`, and an internal position `p`
//! stands for the whole block of octet values below it.  A set bit at `p`
//! means the block of `p` is fully covered; merging replaces two set
//! sibling bits by their parent.  The bitmap is stored as eight 64-bit
//! words: position `p` lives in word `p / 64` at bit `p % 64`.

use vstd::prelude::*;

verus! {

use vstd::arithmetic::power2::{pow2, lemma2_to64, lemma_pow2_unfold, lemma_pow2_pos};
use vstd::arithmetic::mul::lemma_mul_inequality;

// ---------------------------------------------------------------------------
// Bitmap positions as mathematical integers
// ---------------------------------------------------------------------------

/// True when position `pos` (in 0..512) is set in the eight-word bitmap.
pub open spec fn pos_set(heap: Seq<u64>, pos: int) -> bool {
    0 <= pos < 512 && (heap[pos / 64] >> ((pos % 64) as u64)) & 1u64 == 1u64
}

/// The sibling of a position: the other child of its parent.
pub open spec fn sib(pos: int) -> int {
    if pos % 2 == 0 {
        pos + 1
    } else {
        pos - 1
    }
}

/// True when `q` lies on the parent chain of `x` (including `x` itself).
pub open spec fn on_path(x: int, q: int) -> bool
    decreases x,
{
    if x <= 0 {
        false
    } else if x == q {
        true
    } else {
        on_path(x / 2, q)
    }
}

/// True when some bit on the parent chain of `pos` (including `pos`) is set.
pub open spec fn covered_from(heap: Seq<u64>, pos: int) -> bool
    decreases pos,
{
    if pos <= 0 {
        false
    } else {
        pos_set(heap, pos) || covered_from(heap, pos / 2)
    }
}

/// True when octet value `v` is covered by this bitmap: its leaf bit or one
/// of the block bits above it is set.
pub open spec fn covers(heap: Seq<u64>, v: int) -> bool {
    covered_from(heap, 256 + v)
}

/// No bit is set strictly above another set bit.
pub open spec fn heap_no_anc(heap: Seq<u64>) -> bool {
    forall|p: int| #[trigger] pos_set(heap, p) ==> !covered_from(heap, p / 2)
}

/// No two sibling positions are simultaneously set.
pub open spec fn heap_no_sib(heap: Seq<u64>) -> bool {
    forall|q: int|
        1 <= q < 256 ==> !(#[trigger] pos_set(heap, 2 * q) && pos_set(heap, 2 * q + 1))
}

/// Like [`heap_no_sib`], except that the pair containing `pos` is exempt.
pub open spec fn heap_no_sib_except(heap: Seq<u64>, pos: int) -> bool {
    forall|q: int|
        1 <= q < 256 && 2 * q != pos && 2 * q + 1 != pos ==> !(#[trigger] pos_set(heap, 2 * q)
            && pos_set(heap, 2 * q + 1))
}

/// The invariant every bitmap reachable through `set` + `merge` satisfies:
/// the unused position 0 is clear, and every covered octet value has exactly
/// one representative bit on its path (no ancestor pairs, no sibling pairs).
pub open spec fn heap_wf(heap: Seq<u64>) -> bool {
    &&& heap.len() == 8
    &&& !pos_set(heap, 0)
    &&& heap_no_anc(heap)
    &&& heap_no_sib(heap)
}

// ---------------------------------------------------------------------------
// Facts about parent chains
// ---------------------------------------------------------------------------

pub proof fn lemma_on_path_le(x: int, q: int)
    requires
        on_path(x, q),
    ensures
        1 <= q <= x,
    decreases x,
{
    if x != q {
        lemma_on_path_le(x / 2, q);
    }
}

/// A strict descendant of `q` descends through one of `q`'s two children.
pub proof fn lemma_on_path_via_child(x: int, q: int)
    requires
        on_path(x, q),
        x != q,
        q >= 1,
    ensures
        on_path(x, 2 * q) || on_path(x, 2 * q + 1),
    decreases x,
{
    if x / 2 == q {
        assert(x == 2 * q || x == 2 * q + 1);
    } else {
        lemma_on_path_via_child(x / 2, q);
    }
}

/// A set bit anywhere on the chain of `x` covers `x`.
pub proof fn lemma_on_path_set_covered(heap: Seq<u64>, x: int, q: int)
    requires
        on_path(x, q),
        pos_set(heap, q),
    ensures
        covered_from(heap, x),
    decreases x,
{
    if x != q {
        lemma_on_path_set_covered(heap, x / 2, q);
    }
}

/// Conversely, a covered chain holds a set bit somewhere.
pub proof fn lemma_covered_has_bit(heap: Seq<u64>, x: int)
    requires
        covered_from(heap, x),
    ensures
        exists|q: int| on_path(x, q) && pos_set(heap, q),
    decreases x,
{
    if pos_set(heap, x) {
        assert(on_path(x, x) && pos_set(heap, x));
    } else {
        lemma_covered_has_bit(heap, x / 2);
        let q = choose|q: int| on_path(x / 2, q) && pos_set(heap, q);
        assert(on_path(x, q) && pos_set(heap, q));
    }
}

/// Coverage only looks at bits on the chain.
pub proof fn lemma_covered_same_chain(h1: Seq<u64>, h2: Seq<u64>, x: int)
    requires
        forall|q: int| #[trigger] on_path(x, q) ==> pos_set(h1, q) == pos_set(h2, q),
    ensures
        covered_from(h1, x) == covered_from(h2, x),
    decreases x,
{
    if x > 0 {
        assert(on_path(x, x));
        assert forall|q: int| #[trigger] on_path(x / 2, q) implies pos_set(h1, q) == pos_set(
            h2,
            q,
        ) by {
            assert(on_path(x, q));
        }
        lemma_covered_same_chain(h1, h2, x / 2);
    }
}

/// Setting one bit `b` extends coverage exactly to the chains through `b`.
pub proof fn lemma_set_bit_covered(h1: Seq<u64>, h2: Seq<u64>, b: int, x: int)
    requires
        1 <= b < 512,
        forall|q: int|
            #![trigger pos_set(h1, q)]
            #![trigger pos_set(h2, q)]
            pos_set(h2, q) <==> (pos_set(h1, q) || q == b),
    ensures
        covered_from(h2, x) <==> (covered_from(h1, x) || on_path(x, b)),
    decreases x,
{
    if x > 0 {
        assert(pos_set(h2, x) <==> (pos_set(h1, x) || x == b));
        lemma_set_bit_covered(h1, h2, b, x / 2);
    }
}

/// One merge step (clear `p` and its sibling, set the parent) does not
/// change which chains are covered, provided the chain in question cannot
/// reach the parent except through `p` or its sibling.
pub proof fn lemma_merge_step_covered(h1: Seq<u64>, h2: Seq<u64>, p: int, x: int)
    requires
        2 <= p < 512,
        pos_set(h1, p),
        pos_set(h1, sib(p)),
        forall|q: int|
            #![trigger pos_set(h1, q)]
            #![trigger pos_set(h2, q)]
            pos_set(h2, q) <==> ((pos_set(h1, q) && q != p && q != sib(p)) || q == p / 2),
        on_path(x, p / 2) ==> (on_path(x, p) || on_path(x, sib(p))),
    ensures
        covered_from(h2, x) == covered_from(h1, x),
    decreases x,
{
    let s = sib(p);
    if x <= 0 {
    } else if x == p || x == s {
        assert(x / 2 == p / 2);
        assert(pos_set(h2, p / 2));
        assert(covered_from(h2, x / 2));
        assert(covered_from(h2, x));
        assert(covered_from(h1, x));
    } else if x == p / 2 {
        // The chain hypothesis rules this case out: p / 2 lies on its own
        // chain but on neither child's chain, as both children exceed it.
        assert(on_path(x, p / 2));
        if on_path(x, p) {
            lemma_on_path_le(x, p);
            assert(false);
        } else {
            lemma_on_path_le(x, s);
            assert(false);
        }
    } else {
        assert(pos_set(h2, x) == pos_set(h1, x));
        assert(on_path(x / 2, p / 2) ==> (on_path(x / 2, p) || on_path(x / 2, s))) by {
            if on_path(x / 2, p / 2) {
                assert(on_path(x, p / 2));
                if on_path(x, p) {
                    assert(on_path(x / 2, p));
                } else {
                    assert(on_path(x, s));
                    assert(on_path(x / 2, s));
                }
            }
        }
        lemma_merge_step_covered(h1, h2, p, x / 2);
    }
}

// ---------------------------------------------------------------------------
// Word-level bit reasoning
// ---------------------------------------------------------------------------

proof fn bv_or_bit(w: u64, b: u64, q: u64)
    by (bit_vector)
    requires
        b < 64,
        q < 64,
    ensures
        (((w | (1u64 << b)) >> q) & 1u64 == 1u64) <==> (((w >> q) & 1u64 == 1u64) || q == b),
{
}

proof fn bv_clear_bit(w: u64, b: u64, q: u64)
    by (bit_vector)
    requires
        b < 64,
        q < 64,
    ensures
        (((w & !(1u64 << b)) >> q) & 1u64 == 1u64) <==> (((w >> q) & 1u64 == 1u64) && q != b),
{
}

proof fn bv_test_bit(w: u64, b: u64)
    by (bit_vector)
    requires
        b < 64,
    ensures
        (w & (1u64 << b) == (1u64 << b)) <==> ((w >> b) & 1u64 == 1u64),
{
}

proof fn bv_xor_one(x: u16)
    by (bit_vector)
    ensures
        x % 2 == 0 ==> x ^ 1 == x + 1,
        x % 2 == 1 ==> x ^ 1 == x - 1,
{
}

proof fn bv_shr_one(x: u16)
    by (bit_vector)
    ensures
        x >> 1u16 == x / 2,
{
}

// ---------------------------------------------------------------------------
// Exec primitives
// ---------------------------------------------------------------------------

/// Splits a bitmap position into its word index and the single-bit mask
/// within that word.  Positions above 511 do not exist.
pub fn to_position(octet: u16) -> (r: Result<(usize, u64), &'static str>)
    ensures
        octet <= 511 ==> r == Ok::<(usize, u64), &'static str>(
            ((octet / 64) as usize, 1u64 << ((octet % 64) as u64)),
        ),
        octet > 511 ==> r.is_err(),
{
    if octet > 511 {
        return Err("Subnetized octet can not have value > 512!");
    }
    // because heap is split to eight 64bit arrays
    Ok(((octet / 64) as usize, 1u64 << ((octet % 64) as u64)))
}

/// True when every bit of `flag` is set in `bits`.
pub fn is_flag_set(bits: u64, flag: u64) -> (r: bool)
    ensures
        r == (bits & flag == flag),
{
    bits & flag == flag
}

/// The other half of the block that `subnet` belongs to.
pub fn neighbor(subnet: u16) -> (r: u16)
    ensures
        r == subnet ^ 1u16,
        subnet as int % 2 == 0 ==> r == subnet as int + 1,
        subnet as int % 2 == 1 ==> r == subnet as int - 1,
        r as int == sib(subnet as int),
{
    proof {
        bv_xor_one(subnet);
    }
    subnet ^ 1
}

/// `floor(log2(n))`, as a recursive specification.
pub open spec fn ilog2(n: int) -> int
    decreases n,
{
    if n < 2 {
        0
    } else {
        1 + ilog2(n / 2)
    }
}

/// The largest `k` with `2^k <= number`; undefined on zero.
pub fn floor_log2(number: u64) -> (r: Result<u8, &'static str>)
    ensures
        number == 0 ==> r.is_err(),
        number > 0 ==> r == Ok::<u8, &'static str>(ilog2(number as int) as u8),
{
    if number == 0 {
        return Err("Undefined log2 of `0` called.");
    }
    let mut n: u64 = number;
    let mut k: u8 = 0;
    proof {
        lemma2_to64();
    }
    while n >= 2
        invariant
            1 <= n,
            k <= 63,
            ilog2(number as int) == k + ilog2(n as int),
            pow2(k as nat) * n as int <= number as int,
        decreases n,
    {
        proof {
            let m = n as int / 2;
            lemma_pow2_unfold((k + 1) as nat);
            lemma_pow2_pos(k as nat);
            assert(pow2((k + 1) as nat) * m <= number as int) by (nonlinear_arith)
                requires
                    pow2((k + 1) as nat) == 2 * pow2(k as nat),
                    pow2(k as nat) > 0,
                    pow2(k as nat) * n as int <= number as int,
                    2 * m <= n as int,
                    m >= 0,
            ;
            if k == 63 {
                lemma2_to64();
                assert(pow2(63) * n as int >= pow2(63) * 2) by (nonlinear_arith)
                    requires
                        n >= 2,
                        pow2(63) > 0,
                ;
                assert(false);
            }
        }
        n = n / 2;
        k = k + 1;
    }
    Ok(k)
}

// ---------------------------------------------------------------------------
// Shared bitmap operations
// ---------------------------------------------------------------------------

/// Reads one position of the bitmap.
fn heap_test_bit(heap: &[u64; 8], subnet: u16) -> (r: bool)
    requires
        subnet < 512,
    ensures
        r == pos_set(heap@, subnet as int),
{
    let (idx, bit) = to_position(subnet).unwrap();
    proof {
        bv_test_bit(heap@[subnet as int / 64], (subnet % 64) as u64);
    }
    is_flag_set(heap[idx], bit)
}

/// Sets one position of the bitmap.
fn heap_set_bit(heap: &mut [u64; 8], subnet: u16)
    requires
        subnet < 512,
    ensures
        forall|q: int|
            #![trigger pos_set(old(heap)@, q)]
            #![trigger pos_set(final(heap)@, q)]
            pos_set(final(heap)@, q) <==> (pos_set(old(heap)@, q) || q == subnet),
{
    let (idx, bit) = to_position(subnet).unwrap();
    heap[idx] = heap[idx] | bit;
    proof {
        let p = subnet as int;
        assert forall|q: int| pos_set(heap@, q) <==> (pos_set(old(heap)@, q) || q == p) by {
            if 0 <= q < 512 {
                if q / 64 == p / 64 {
                    bv_or_bit(old(heap)@[p / 64], (p % 64) as u64, (q % 64) as u64);
                    assert(q % 64 == p % 64 && q / 64 == p / 64 ==> q == p);
                } else {
                    assert(heap@[q / 64] == old(heap)@[q / 64]);
                }
            }
        }
    }
}

/// Clears one position of the bitmap.
fn heap_unset_bit(heap: &mut [u64; 8], subnet: u16)
    requires
        subnet < 512,
    ensures
        forall|q: int|
            #![trigger pos_set(old(heap)@, q)]
            #![trigger pos_set(final(heap)@, q)]
            pos_set(final(heap)@, q) <==> (pos_set(old(heap)@, q) && q != subnet),
{
    let (idx, bit) = to_position(subnet).unwrap();
    let inv_bit = !bit;
    heap[idx] = heap[idx] & inv_bit;
    proof {
        let p = subnet as int;
        assert forall|q: int| pos_set(heap@, q) <==> (pos_set(old(heap)@, q) && q != p) by {
            if 0 <= q < 512 {
                if q / 64 == p / 64 {
                    bv_clear_bit(old(heap)@[p / 64], (p % 64) as u64, (q % 64) as u64);
                    assert(q % 64 == p % 64 && q / 64 == p / 64 ==> q == p);
                } else {
                    assert(heap@[q / 64] == old(heap)@[q / 64]);
                }
            }
        }
    }
}

/// Walks the parent chain of `pos` and reports whether any bit on it is set.
fn heap_covered_from(heap: &[u64; 8], pos: u16) -> (r: bool)
    requires
        1 <= pos < 512,
    ensures
        r == covered_from(heap@, pos as int),
{
    let mut cur: u16 = pos;
    loop
        invariant
            1 <= cur < 512,
            covered_from(heap@, pos as int) == covered_from(heap@, cur as int),
        decreases cur,
    {
        let (idx, bit) = to_position(cur).unwrap();
        proof {
            bv_test_bit(heap@[cur as int / 64], (cur % 64) as u64);
            bv_shr_one(cur);
        }
        if is_flag_set(heap[idx], bit) {
            return true;
        }
        proof {
            assert(covered_from(heap@, cur as int) == covered_from(heap@, cur as int / 2));
        }
        cur = cur >> 1;
        if cur < 1 {
            proof {
                assert(covered_from(heap@, 0int) == false);
            }
            return false;
        }
    }
}

/// The precondition of a merge pass starting at `pos`: the bitmap is
/// well-formed except that the sibling pair containing `pos` may be set.
pub open spec fn merge_pre(heap: Seq<u64>, pos: int) -> bool {
    &&& heap.len() == 8
    &&& !pos_set(heap, 0)
    &&& heap_no_anc(heap)
    &&& heap_no_sib_except(heap, pos)
}

/// Merges set sibling pairs upward, starting from `subnet`: while a
/// position and its sibling are both set, both are cleared and their parent
/// is set.  Restores full well-formedness and changes no octet's coverage.
fn heap_merge_up(heap: &mut [u64; 8], subnet: u16)
    requires
        1 <= subnet < 512,
        merge_pre(old(heap)@, subnet as int),
    ensures
        heap_wf(final(heap)@),
        forall|v: int| 0 <= v < 256 ==> #[trigger] covers(final(heap)@, v) == covers(
            old(heap)@,
            v,
        ),
{
    let mut current_subnet: u16 = subnet;
    loop
        invariant
            1 <= current_subnet < 512,
            heap@.len() == 8,
            !pos_set(heap@, 0),
            heap_no_anc(heap@),
            heap_no_sib_except(heap@, current_subnet as int),
            forall|v: int| 0 <= v < 256 ==> #[trigger] covers(heap@, v) == covers(old(heap)@, v),
        ensures
            heap_wf(heap@),
            forall|v: int| 0 <= v < 256 ==> #[trigger] covers(heap@, v) == covers(old(heap)@, v),
        decreases current_subnet,
    {
        let parent = current_subnet >> 1;
        proof {
            bv_shr_one(current_subnet);
        }
        if heap_test_bit(heap, current_subnet) && heap_test_bit(heap, neighbor(current_subnet)) {
            proof {
                // Both halves set: position 0 is clear, so we sit above it.
                if current_subnet == 1 {
                    assert(sib(1int) == 0);
                    assert(false);
                }
            }
            let ghost h0 = heap@;
            let ghost p = current_subnet as int;
            let ghost s = sib(p);
            heap_set_bit(heap, parent);
            let ghost h1 = heap@;
            heap_unset_bit(heap, current_subnet);
            let ghost h2 = heap@;
            heap_unset_bit(heap, neighbor(current_subnet));
            proof {
                let h3 = heap@;
                assert(p / 2 != p && p / 2 != s);
                assert forall|q: int|
                    pos_set(h3, q) <==> ((#[trigger] pos_set(h0, q) && q != p && q != s) || q == p
                        / 2) by {
                    assert(pos_set(h1, q) <==> (pos_set(h0, q) || q == p / 2));
                    assert(pos_set(h2, q) <==> (pos_set(h1, q) && q != p));
                    assert(pos_set(h3, q) <==> (pos_set(h2, q) && q != s));
                }
                lemma_merge_invariants(h0, h3, p);
                assert forall|v: int| 0 <= v < 256 implies #[trigger] covers(h3, v) == covers(
                    old(heap)@,
                    v,
                ) by {
                    assert(covers(h3, v) == covers(h0, v));
                }
            }
        } else {
            // Neither half of the pair of `current_subnet` is left doubled,
            // so the one exemption in the invariant closes.
            proof {
                let p = current_subnet as int;
                assert forall|q: int|
                    1 <= q < 256 implies !(#[trigger] pos_set(heap@, 2 * q) && pos_set(
                    heap@,
                    2 * q + 1,
                )) by {
                    if 2 * q == p || 2 * q + 1 == p {
                        assert(sib(2 * q) == 2 * q + 1 && sib(2 * q + 1) == 2 * q);
                    }
                }
            }
            break ;
        }
        current_subnet = parent;
        if parent < 1 {
            break ;
        }
    }
}

/// The bookkeeping for one merge step: from a bitmap `h0` that is
/// well-formed except possibly at the pair of `p`, with both `p` and its
/// sibling set, to `h2` where the pair is cleared and the parent set.
proof fn lemma_merge_invariants(h0: Seq<u64>, h2: Seq<u64>, p: int)
    requires
        2 <= p < 512,
        h0.len() == 8,
        h2.len() == 8,
        !pos_set(h0, 0),
        heap_no_anc(h0),
        heap_no_sib_except(h0, p),
        pos_set(h0, p),
        pos_set(h0, sib(p)),
        forall|q: int|
            #![trigger pos_set(h0, q)]
            #![trigger pos_set(h2, q)]
            pos_set(h2, q) <==> ((pos_set(h0, q) && q != p && q != sib(p)) || q == p / 2),
    ensures
        !pos_set(h2, 0),
        heap_no_anc(h2),
        heap_no_sib_except(h2, p / 2),
        forall|v: int| 0 <= v < 256 ==> #[trigger] covers(h2, v) == covers(h0, v),
{
    let s = sib(p);
    let par = p / 2;
    assert(1 <= par);
    assert(s != par && p != par);

    // Coverage of every octet value is unchanged.
    assert forall|v: int| 0 <= v < 256 implies #[trigger] covers(h2, v) == covers(h0, v) by {
        let x = 256 + v;
        assert(on_path(x, par) ==> (on_path(x, p) || on_path(x, s))) by {
            if on_path(x, par) {
                assert(x != par);
                lemma_on_path_via_child(x, par);
                assert(2 * par == p || 2 * par == s);
                assert(2 * par + 1 == p || 2 * par + 1 == s);
            }
        }
        lemma_merge_step_covered(h0, h2, p, x);
    }

    // No ancestor of a set bit is set.
    assert forall|q: int| #[trigger] pos_set(h2, q) implies !covered_from(h2, q / 2) by {
        if q == par {
            // Bits strictly above the parent are untouched, and none of
            // them was set, since `p` itself had no set ancestor.
            assert(!covered_from(h0, par)) by {
                assert(!covered_from(h0, p / 2));
            }
            assert forall|r: int| #[trigger] on_path(par / 2, r) implies pos_set(h0, r)
                == pos_set(h2, r) by {
                lemma_on_path_le(par / 2, r);
            }
            lemma_covered_same_chain(h0, h2, par / 2);
            assert(!covered_from(h0, par / 2));
        } else {
            assert(pos_set(h0, q) && q != p && q != s);
            assert(!covered_from(h0, q / 2));
            if covered_from(h2, q / 2) {
                lemma_covered_has_bit(h2, q / 2);
                let b = choose|b: int| on_path(q / 2, b) && pos_set(h2, b);
                if b == par {
                    assert(on_path(q, par));
                    assert(q != par);
                    lemma_on_path_via_child(q, par);
                    assert(2 * par == p || 2 * par == s);
                    assert(2 * par + 1 == p || 2 * par + 1 == s);
                    if on_path(q, p) {
                        assert(q != p);
                        assert(on_path(q / 2, p));
                        lemma_on_path_set_covered(h0, q / 2, p);
                    } else {
                        assert(on_path(q, s));
                        assert(q != s);
                        assert(on_path(q / 2, s));
                        lemma_on_path_set_covered(h0, q / 2, s);
                    }
                    assert(false);
                } else {
                    assert(pos_set(h0, b));
                    lemma_on_path_set_covered(h0, q / 2, b);
                    assert(false);
                }
            }
        }
    }

    // Sibling pairs: the cleared pair is fine, only the parent's pair may
    // now be set on both sides.
    assert forall|q: int|
        1 <= q < 256 && 2 * q != par && 2 * q + 1 != par implies !(#[trigger] pos_set(h2, 2 * q)
        && pos_set(h2, 2 * q + 1)) by {
        if pos_set(h2, 2 * q) && pos_set(h2, 2 * q + 1) {
            assert(2 * q == p || 2 * q == s || pos_set(h0, 2 * q));
            assert(2 * q + 1 == p || 2 * q + 1 == s || pos_set(h0, 2 * q + 1));
            assert(sib(2 * q) == 2 * q + 1 && sib(2 * q + 1) == 2 * q);
            assert(!(2 * q == p || 2 * q == s)) by {
                if 2 * q == p {
                    assert(!pos_set(h2, p));
                }
                if 2 * q == s {
                    assert(!pos_set(h2, s));
                }
            }
            assert(!(2 * q + 1 == p || 2 * q + 1 == s)) by {
                if 2 * q + 1 == p {
                    assert(!pos_set(h2, p));
                }
                if 2 * q + 1 == s {
                    assert(!pos_set(h2, s));
                }
            }
            assert(pos_set(h0, 2 * q) && pos_set(h0, 2 * q + 1));
            assert(2 * q != p && 2 * q + 1 != p);
            assert(false);
        }
    }
}

// ---------------------------------------------------------------------------
// Blocks of octet values
// ---------------------------------------------------------------------------

/// How many octet values the block at position `p` spans.
pub open spec fn block_size(p: int) -> int {
    pow2((8 - ilog2(p)) as nat) as int
}

/// The first octet value of the block at position `p`.
pub open spec fn block_lo(p: int) -> int {
    (p - pow2(ilog2(p) as nat)) * block_size(p)
}

pub proof fn lemma_ilog2_bounds(p: int)
    requires
        1 <= p < 512,
    ensures
        0 <= ilog2(p) <= 8,
        pow2(ilog2(p) as nat) <= p < 2 * pow2(ilog2(p) as nat),
    decreases p,
{
    lemma2_to64();
    if p >= 2 {
        lemma_ilog2_bounds(p / 2);
        lemma_pow2_unfold((ilog2(p / 2) + 1) as nat);
    }
}

/// The chain of every position ends at the root.
pub proof fn lemma_on_path_to_one(q: int)
    requires
        q >= 1,
    ensures
        on_path(q, 1),
    decreases q,
{
    if q > 1 {
        lemma_on_path_to_one(q / 2);
    }
}

/// Leaf positions have no descendants: a chain from a leaf meets a leaf
/// only at its start.
pub proof fn lemma_on_path_leaf(x: int, b: int)
    requires
        on_path(x, b),
        x < 512,
        b >= 256,
    ensures
        x == b,
{
    lemma_on_path_le(x, b);
    if x != b {
        assert(on_path(x / 2, b));
        lemma_on_path_le(x / 2, b);
    }
}

/// A bitmap with no set position covers nothing.
pub proof fn lemma_empty_not_covered(heap: Seq<u64>, x: int)
    requires
        forall|q: int| !pos_set(heap, q),
    ensures
        !covered_from(heap, x),
    decreases x,
{
    if x > 0 {
        lemma_empty_not_covered(heap, x / 2);
    }
}

proof fn bv_and_low_mask(x: u16, k: u16)
    by (bit_vector)
    requires
        k < 16,
    ensures
        x & (((1u16 << k) - 1) as u16) == x % (1u16 << k),
{
}

/// Splits a set position into the start of its block within the octet
/// range and the number of prefix bits it occupies.
pub fn calculate_partial_cidr(heap_bit: u16) -> (r: (u8, u8))
    requires
        1 <= heap_bit < 512,
    ensures
        r.0 == block_lo(heap_bit as int),
        r.1 == ilog2(heap_bit as int),
{
    let partial_mask: u8 = floor_log2(heap_bit as u64).unwrap();
    proof {
        assert(ilog2(heap_bit as u64 as int) == ilog2(heap_bit as int));
        lemma_ilog2_bounds(heap_bit as int);
        lemma2_to64();
        vstd::bits::lemma_u16_shl_is_mul(1u16, partial_mask as u16);
        vstd::bits::lemma_u16_shr_is_div(256u16, partial_mask as u16);
        vstd::arithmetic::power2::lemma_pow2_adds(
            partial_mask as nat,
            (8 - partial_mask) as nat,
        );
        bv_and_low_mask(heap_bit, partial_mask as u16);
    }
    let mask_bit_complement: u16 = 1u16 << (partial_mask as u16);
    let cidr_padding: u16 = 256u16 >> (partial_mask as u16);
    let range_idx: u16 = heap_bit & (mask_bit_complement - 1);
    proof {
        let e = ilog2(heap_bit as int);
        // 256 / 2^e == 2^(8-e)
        assert(pow2(e as nat) * pow2((8 - e) as nat) == 256);
        assert(256int / pow2(e as nat) as int == pow2((8 - e) as nat) as int)
            by (nonlinear_arith)
            requires
                pow2(e as nat) * pow2((8 - e) as nat) == 256,
                pow2(e as nat) > 0,
        ;
        // masking keeps the offset within the block
        assert(heap_bit as int % pow2(e as nat) as int == heap_bit as int - pow2(e as nat))
            by (nonlinear_arith)
            requires
                pow2(e as nat) <= heap_bit as int,
                (heap_bit as int) < 2 * pow2(e as nat),
        ;
        assert((cidr_padding as int * range_idx as int) < 256 && cidr_padding as int
            * range_idx as int == block_lo(heap_bit as int)) by (nonlinear_arith)
            requires
                cidr_padding as int == pow2((8 - e) as nat),
                range_idx as int == heap_bit as int - pow2(e as nat),
                pow2(e as nat) <= heap_bit as int,
                (heap_bit as int) < 2 * pow2(e as nat),
                pow2(e as nat) * pow2((8 - e) as nat) == 256,
                block_lo(heap_bit as int) == (heap_bit as int - pow2(e as nat)) * pow2(
                    (8 - e) as nat,
                ),
        ;
    }
    ((cidr_padding * range_idx) as u8, partial_mask)
}

// ---------------------------------------------------------------------------
// Word equality from bit equality
// ---------------------------------------------------------------------------

proof fn bv_and1_dichotomy(x: u64)
    by (bit_vector)
    ensures
        x & 1u64 == 0u64 || x & 1u64 == 1u64,
{
}

proof fn bv_high_bit(w: u64)
    by (bit_vector)
    ensures
        (w >> 63u64) == (w >> 63u64) & 1u64,
{
}

proof fn bv_shift_step(w: u64, j: u64)
    by (bit_vector)
    requires
        j < 63,
    ensures
        w >> j == ((w >> (j + 1)) << 1u64) | ((w >> j) & 1u64),
{
}

proof fn bv_shr_zero(w: u64)
    by (bit_vector)
    ensures
        w >> 0u64 == w,
{
}

proof fn lemma_shr_eq_from(w1: u64, w2: u64, j: u64)
    requires
        j <= 63,
        forall|q: u64| j <= q < 64 ==> ((#[trigger] (w1 >> q)) & 1u64) == ((w2 >> q) & 1u64),
    ensures
        w1 >> j == w2 >> j,
    decreases 64 - j,
{
    if j == 63 {
        bv_high_bit(w1);
        bv_high_bit(w2);
        assert((w1 >> 63u64) & 1u64 == (w2 >> 63u64) & 1u64);
    } else {
        lemma_shr_eq_from(w1, w2, (j + 1) as u64);
        bv_shift_step(w1, j);
        bv_shift_step(w2, j);
        assert((w1 >> j) & 1u64 == (w2 >> j) & 1u64);
    }
}

/// Two words with the same bits are the same word.
proof fn lemma_u64_bits_eq(w1: u64, w2: u64)
    requires
        forall|q: u64| q < 64 ==> ((#[trigger] (w1 >> q)) & 1u64) == ((w2 >> q) & 1u64),
    ensures
        w1 == w2,
{
    lemma_shr_eq_from(w1, w2, 0);
    bv_shr_zero(w1);
    bv_shr_zero(w2);
}

/// In a well-formed bitmap whose root position is set, the first word is
/// exactly `2`: the root bit shadows every other position.
pub proof fn lemma_wf_full_word(heap: Seq<u64>)
    requires
        heap_wf(heap),
        pos_set(heap, 1),
    ensures
        heap[0] == 2,
{
    assert forall|q: u64| q < 64 implies ((#[trigger] (heap[0] >> q)) & 1u64) == ((2u64 >> q)
        & 1u64) by {
        assert((2u64 >> q) & 1u64 == if q == 1 {
            1u64
        } else {
            0u64
        }) by (bit_vector)
            requires
                q < 64,
        ;
        bv_and1_dichotomy(heap[0] >> q);
        if q == 1 {
            assert(pos_set(heap, 1));
        } else if q == 0 {
            assert(!pos_set(heap, 0));
        } else {
            assert(!pos_set(heap, q as int)) by {
                if pos_set(heap, q as int) {
                    lemma_on_path_to_one(q as int / 2);
                    lemma_on_path_set_covered(heap, q as int / 2, 1);
                }
            }
            assert(q as int / 64 == 0 && q as int % 64 == q as int);
        }
    }
    lemma_u64_bits_eq(heap[0], 2u64);
}

/// Conversely, a first word of exactly `2` means the root position is set.
pub proof fn lemma_full_word_root(heap: Seq<u64>)
    requires
        heap.len() == 8,
        heap[0] == 2,
    ensures
        pos_set(heap, 1),
{
    assert((2u64 >> 1u64) & 1u64 == 1u64) by (bit_vector);
}

/// A set root position covers every octet value.
pub proof fn lemma_root_covers_all(heap: Seq<u64>, v: int)
    requires
        pos_set(heap, 1),
        0 <= v < 256,
    ensures
        covers(heap, v),
{
    lemma_on_path_to_one(256 + v);
    lemma_on_path_set_covered(heap, 256 + v, 1);
}

proof fn bv_zero_word(s: u64)
    by (bit_vector)
    ensures
        (0u64 >> s) & 1u64 == 0u64,
{
}

/// An all-zero bitmap has no set position.
pub proof fn lemma_zero_heap_clear(heap: Seq<u64>)
    requires
        heap.len() == 8,
        forall|i: int| 0 <= i < 8 ==> heap[i] == 0u64,
    ensures
        forall|q: int| !pos_set(heap, q),
        heap_wf(heap),
        forall|v: int| 0 <= v < 256 ==> !covers(heap, v),
{
    assert forall|q: int| !pos_set(heap, q) by {
        if 0 <= q < 512 {
            bv_zero_word(((q % 64) as u64));
        }
    }
    assert forall|v: int| 0 <= v < 256 implies !covers(heap, v) by {
        lemma_empty_not_covered(heap, 256 + v);
    }
    assert forall|p: int| #[trigger] pos_set(heap, p) implies !covered_from(heap, p / 2) by {}
}

/// Setting an uncovered leaf keeps the bitmap mergeable at that leaf and
/// extends coverage by exactly that octet value.
proof fn lemma_set_leaf(h0: Seq<u64>, h1: Seq<u64>, leaf: int)
    requires
        heap_wf(h0),
        h1.len() == 8,
        256 <= leaf < 512,
        !covered_from(h0, leaf),
        forall|q: int|
            #![trigger pos_set(h0, q)]
            #![trigger pos_set(h1, q)]
            pos_set(h1, q) <==> (pos_set(h0, q) || q == leaf),
    ensures
        merge_pre(h1, leaf),
        forall|v: int| 0 <= v < 256 ==> (#[trigger] covers(h1, v) <==> (covers(h0, v) || 256 + v
            == leaf)),
{
    // coverage
    assert forall|v: int| 0 <= v < 256 implies (#[trigger] covers(h1, v) <==> (covers(h0, v)
        || 256 + v == leaf)) by {
        lemma_set_bit_covered(h0, h1, leaf, 256 + v);
        if on_path(256 + v, leaf) {
            lemma_on_path_leaf(256 + v, leaf);
        }
        if 256 + v == leaf {
            assert(on_path(leaf, leaf));
        }
    }
    // no ancestor of a set bit is set
    assert forall|q: int| #[trigger] pos_set(h1, q) implies !covered_from(h1, q / 2) by {
        lemma_set_bit_covered(h0, h1, leaf, q / 2);
        if q == leaf {
            assert(!covered_from(h0, leaf / 2));
            if on_path(leaf / 2, leaf) {
                lemma_on_path_le(leaf / 2, leaf);
            }
        } else {
            assert(pos_set(h0, q));
            assert(!covered_from(h0, q / 2));
            if on_path(q / 2, leaf) {
                lemma_on_path_le(q / 2, leaf);
            }
        }
    }
    // sibling pairs away from the leaf are untouched
    assert forall|q: int|
        1 <= q < 256 && 2 * q != leaf && 2 * q + 1 != leaf implies !(#[trigger] pos_set(h1, 2 * q)
        && pos_set(h1, 2 * q + 1)) by {}
    assert(!pos_set(h1, 0));
}

// ---------------------------------------------------------------------------
// The terminal octet
// ---------------------------------------------------------------------------

/// The node for the fourth octet of an address: one bitmap over the 256
/// possible values, no children.
#[derive(Debug)]
pub struct LastNode {
    pub octet: u8,
    pub heap: [u64; 8],
}

impl LastNode {
    /// An empty terminal node.
    pub fn new(octet: u8) -> (r: LastNode)
        ensures
            r.octet == octet,
            heap_wf(r.heap@),
            forall|q: int| !pos_set(r.heap@, q),
            forall|v: int| 0 <= v < 256 ==> !covers(r.heap@, v),
    {
        let r = LastNode { octet, heap: [0u64;8] };
        proof {
            lemma_zero_heap_clear(r.heap@);
        }
        r
    }

    /// An empty terminal node, pre-seeded with the network (`.0`) and/or
    /// broadcast (`.255`) value as configured.
    pub fn new_with_opts(octet: u8, zeroed: bool, broadcast: bool) -> (r: LastNode)
        ensures
            r.octet == octet,
            heap_wf(r.heap@),
            forall|v: int| 0 <= v < 256 ==> (#[trigger] covers(r.heap@, v) <==> ((zeroed && v
                == 0) || (broadcast && v == 255))),
    {
        let mut node = Self::new(octet);
        let ghost h_start = node.heap@;
        if zeroed {
            node.set_heap_bit(256u16 + 0);
        }
        let ghost h_mid = node.heap@;
        if broadcast {
            node.set_heap_bit(256u16 + 255);
        }
        proof {
            let h = node.heap@;
            assert forall|q: int| #![trigger pos_set(h, q)] pos_set(h, q) <==> ((zeroed && q
                == 256) || (broadcast && q == 511)) by {
                assert(!pos_set(h_start, q));
            }
            assert forall|v: int| 0 <= v < 256 implies (#[trigger] covers(h, v) <==> ((zeroed
                && v == 0) || (broadcast && v == 255))) by {
                if covers(h, v) {
                    lemma_covered_has_bit(h, 256 + v);
                    let b = choose|b: int| on_path(256 + v, b) && pos_set(h, b);
                    lemma_on_path_leaf(256 + v, b);
                }
                if zeroed && v == 0 {
                    assert(on_path(256, 256) && pos_set(h, 256));
                    lemma_on_path_set_covered(h, 256 + v, 256);
                }
                if broadcast && v == 255 {
                    assert(on_path(511, 511) && pos_set(h, 511));
                    lemma_on_path_set_covered(h, 256 + v, 511);
                }
            }
            assert forall|p: int| #[trigger] pos_set(h, p) implies !covered_from(h, p / 2) by {
                if covered_from(h, p / 2) {
                    lemma_covered_has_bit(h, p / 2);
                    let b = choose|b: int| on_path(p / 2, b) && pos_set(h, b);
                    lemma_on_path_le(p / 2, b);
                }
            }
            assert forall|q: int|
                1 <= q < 256 implies !(#[trigger] pos_set(h, 2 * q) && pos_set(
                h,
                2 * q + 1,
            )) by {}
            assert(!pos_set(h, 0));
        }
        node
    }

    /// Whether the single position `subnet` is set in this node's bitmap.
    pub fn contains_subnet_in_heap(&self, subnet: u16) -> (r: bool)
        requires
            subnet < 512,
        ensures
            r == pos_set(self.heap@, subnet as int),
    {
        heap_test_bit(&self.heap, subnet)
    }


    /// Sets the single position `subnet`.
    pub fn set_heap_bit(&mut self, subnet: u16)
        requires
            subnet < 512,
        ensures
            final(self).octet == old(self).octet,
            forall|q: int|
                #![trigger pos_set(old(self).heap@, q)]
                #![trigger pos_set(final(self).heap@, q)]
                pos_set(final(self).heap@, q) <==> (pos_set(old(self).heap@, q) || q == subnet),
    {
        heap_set_bit(&mut self.heap, subnet);
    }

    /// Clears the single position `subnet`.
    pub fn unset_heap_bit(&mut self, subnet: u16)
        requires
            subnet < 512,
        ensures
            final(self).octet == old(self).octet,
            forall|q: int|
                #![trigger pos_set(old(self).heap@, q)]
                #![trigger pos_set(final(self).heap@, q)]
                pos_set(final(self).heap@, q) <==> (pos_set(old(self).heap@, q) && q != subnet),
    {
        heap_unset_bit(&mut self.heap, subnet);
    }

    /// Merges set sibling pairs upward starting at `subnet`.
    pub fn subnetize(&mut self, subnet: u16)
        requires
            1 <= subnet < 512,
            merge_pre(old(self).heap@, subnet as int),
        ensures
            final(self).octet == old(self).octet,
            heap_wf(final(self).heap@),
            forall|v: int| 0 <= v < 256 ==> #[trigger] covers(final(self).heap@, v) == covers(
                old(self).heap@,
                v,
            ),
    {
        heap_merge_up(&mut self.heap, subnet);
    }

    /// Covers the octet value `octet`: sets its leaf bit (unless it is
    /// already covered) and merges upward.
    pub fn expand(&mut self, octet: u8)
        requires
            heap_wf(old(self).heap@),
        ensures
            final(self).octet == old(self).octet,
            heap_wf(final(self).heap@),
            forall|v: int| 0 <= v < 256 ==> (#[trigger] covers(final(self).heap@, v) <==> (
            covers(old(self).heap@, v) || v == octet)),
            covers(old(self).heap@, octet as int) ==> *final(self) == *old(self),
    {
        if self.contains(&octet) {
            return ;
        }
        let ghost h0 = self.heap@;
        let (idx, bit) = to_position(octet as u16 + 256u16).unwrap();
        self.heap[idx] = self.heap[idx] | bit;
        proof {
            let p = octet as int + 256;
            assert forall|q: int|
                #![trigger pos_set(h0, q)]
                #![trigger pos_set(self.heap@, q)]
                pos_set(self.heap@, q) <==> (pos_set(h0, q) || q == p) by {
                if 0 <= q < 512 {
                    if q / 64 == p / 64 {
                        bv_or_bit(h0[p / 64], (p % 64) as u64, (q % 64) as u64);
                        assert(q % 64 == p % 64 && q / 64 == p / 64 ==> q == p);
                    } else {
                        assert(self.heap@[q / 64] == h0[q / 64]);
                    }
                }
            }
            lemma_set_leaf(h0, self.heap@, p);
        }
        self.subnetize(octet as u16 + 256u16);
    }

    /// Adds the final octet of an address; paths longer than one octet do
    /// not belong here and are ignored.
    pub fn add(&mut self, octets: &[u8])
        requires
            octets@.len() >= 1,
            heap_wf(old(self).heap@),
        ensures
            final(self).octet == old(self).octet,
            heap_wf(final(self).heap@),
            octets@.len() > 1 ==> *final(self) == *old(self),
            octets@.len() == 1 ==> forall|v: int|
                0 <= v < 256 ==> (#[trigger] covers(final(self).heap@, v) <==> (covers(
                    old(self).heap@,
                    v,
                ) || v == octets@[0])),
            octets@.len() == 1 && covers(old(self).heap@, octets@[0] as int) ==> *final(self)
                == *old(self),
    {
        if octets.len() > 1 {
            return ;
        }
        self.expand(octets[0]);
    }

    /// Whether the octet value `octet` is covered, either by its own leaf
    /// bit or by a merged block above it.
    pub fn contains(&self, octet: &u8) -> (r: bool)
        ensures
            r == covers(self.heap@, *octet as int),
    {
        heap_covered_from(&self.heap, *octet as u16 + 256u16)
    }

    /// Whether the whole octet range has been merged into one block.
    pub fn is_subnet(&self) -> (r: bool)
        ensures
            r == (self.heap@[0] == 2u64),
            heap_wf(self.heap@) ==> r == pos_set(self.heap@, 1),
    {
        proof {
            if self.heap@[0] == 2 {
                lemma_full_word_root(self.heap@);
            }
            if heap_wf(self.heap@) && pos_set(self.heap@, 1) {
                lemma_wf_full_word(self.heap@);
            }
        }
        2 == self.heap[0]
    }
}


// ---------------------------------------------------------------------------
// Emission of (prefix, mask) pairs
// ---------------------------------------------------------------------------

/// The prefix a node hands to its own bitmap and to its children: the
/// inherited prefix with the node's octet spliced in below `mask` bits.
pub open spec fn child_prefix(prefix: u32, octet: u8, mask: u8) -> u32 {
    prefix | ((octet as u32) << ((24 - mask) as u32))
}

/// The pair emitted for set position `p` of a bitmap whose accumulated
/// prefix is `prefix` and whose own octet sits at `mask - 8` bits.
pub open spec fn cidr_pair(prefix: u32, mask: u8, p: int) -> (u32, u8) {
    (
        prefix | ((block_lo(p) as u32) << ((24 - mask) as u32)),
        (mask + ilog2(p)) as u8,
    )
}

/// The pairs emitted for the set positions below `n`, in ascending
/// position order.
pub open spec fn heap_pairs_upto(heap: Seq<u64>, prefix: u32, mask: u8, n: int) -> Seq<(u32, u8)>
    decreases n,
{
    if n <= 1 {
        Seq::empty()
    } else {
        heap_pairs_upto(heap, prefix, mask, n - 1) + if pos_set(heap, n - 1) {
            seq![cidr_pair(prefix, mask, n - 1)]
        } else {
            Seq::empty()
        }
    }
}

/// All pairs emitted for one bitmap.
pub open spec fn heap_pairs(heap: Seq<u64>, prefix: u32, mask: u8) -> Seq<(u32, u8)> {
    heap_pairs_upto(heap, prefix, mask, 512)
}

/// Scans a bitmap in ascending position order and appends one pair for
/// each set position.
fn scan_heap_pairs(heap: &[u64; 8], prefix: u32, mask: u8, out: &mut Vec<(u32, u8)>)
    requires
        mask <= 24,
    ensures
        final(out)@ == old(out)@ + heap_pairs(heap@, prefix, mask),
{
    let mut idx: u16 = 1;
    proof {
        assert(out@ =~= old(out)@ + heap_pairs_upto(heap@, prefix, mask, 1));
    }
    while idx < 512
        invariant
            1 <= idx <= 512,
            mask <= 24,
            out@ == old(out)@ + heap_pairs_upto(heap@, prefix, mask, idx as int),
        decreases 512 - idx,
    {
        if heap_test_bit(heap, idx) {
            let (octet, p_mask) = calculate_partial_cidr(idx);
            proof {
                lemma_ilog2_bounds(idx as int);
            }
            let ip_address: u32 = prefix | ((octet as u32) << ((24 - mask) as u32));
            out.push((ip_address, mask + p_mask));
        }
        proof {
            let j = idx as int;
            assert(heap_pairs_upto(heap@, prefix, mask, j + 1) == heap_pairs_upto(
                heap@,
                prefix,
                mask,
                j,
            ) + if pos_set(heap@, j) {
                seq![cidr_pair(prefix, mask, j)]
            } else {
                Seq::<(u32, u8)>::empty()
            });
            if !pos_set(heap@, idx as int) {
                assert(out@ =~= old(out)@ + heap_pairs_upto(heap@, prefix, mask, j + 1));
            } else {
                assert(out@ =~= old(out)@ + heap_pairs_upto(heap@, prefix, mask, j + 1));
            }
        }
        idx = idx + 1;
    }
}

/// A one-shot cursor over an already-computed sequence of CIDR pairs.
/// Its view is the sequence of pairs not yet handed out.
pub struct CidrIter {
    pub pairs: Vec<(u32, u8)>,
    pub pos: usize,
}

impl View for CidrIter {
    type V = Seq<(u32, u8)>;

    open spec fn view(&self) -> Seq<(u32, u8)> {
        if self.pos <= self.pairs@.len() {
            self.pairs@.skip(self.pos as int)
        } else {
            Seq::empty()
        }
    }
}

impl CidrIter {
    /// Wraps a finished pair list in a cursor.
    fn from_pairs(pairs: Vec<(u32, u8)>) -> (r: CidrIter)
        ensures
            r@ == pairs@,
    {
        let r = CidrIter { pairs, pos: 0 };
        proof {
            assert(r@ =~= r.pairs@);
        }
        r
    }

    /// Hands out the next pair, or `None` once the walk is exhausted.
    pub fn next(&mut self) -> (r: Option<(u32, u8)>)
        ensures
            old(self)@.len() > 0 ==> r == Some(old(self)@[0]) && final(self)@ == old(
                self,
            )@.drop_first(),
            old(self)@.len() == 0 ==> r.is_none() && final(self)@ == old(self)@,
    {
        if self.pos < self.pairs.len() {
            let pr = self.pairs[self.pos];
            self.pos = self.pos + 1;
            proof {
                assert(self@ =~= old(self)@.drop_first());
            }
            Some(pr)
        } else {
            None
        }
    }
}

impl LastNode {
    /// Enumerates the covered blocks of this terminal octet as CIDR pairs,
    /// in ascending position order of the bitmap.
    pub fn walk(&self, prefix: u32, mask: u8) -> (r: CidrIter)
        requires
            mask <= 16,
        ensures
            r@ == heap_pairs(self.heap@, child_prefix(prefix, self.octet, mask), (mask + 8) as u8),
    {
        let cur_prefix: u32 = prefix | ((self.octet as u32) << ((24 - mask) as u32));
        let cur_mask: u8 = mask + 8;
        let mut pairs: Vec<(u32, u8)> = Vec::new();
        scan_heap_pairs(&self.heap, cur_prefix, cur_mask, &mut pairs);
        CidrIter::from_pairs(pairs)
    }
}


// ---------------------------------------------------------------------------
// The trie nodes
// ---------------------------------------------------------------------------

/// A node of the trie: an inner octet with children, or the terminal
/// octet.  The two cases carry their own bitmap; only inner nodes own a
/// (sorted) table of materialised children.
pub enum OctetNode {
    Standard(StandardNode),
    Last(LastNode),
}

/// A non-terminal octet node.  `level` counts the octets still to come
/// below the immediate child level: the node under the tree root has
/// level 1, its children level 0, and their children are [`LastNode`]s.
/// The seed flags are handed down to freshly created terminal nodes.
pub struct StandardNode {
    pub octet: u8,
    pub level: u8,
    pub heap: [u64; 8],
    pub subnodes: Vec<(u8, OctetNode)>,
    pub seed_zeroed: bool,
    pub seed_broadcast: bool,
}

/// The octet value a node stands for.
pub open spec fn node_octet(n: OctetNode) -> u8 {
    match n {
        OctetNode::Standard(s) => s.octet,
        OctetNode::Last(l) => l.octet,
    }
}

/// Whether the root position of a node's bitmap is set, i.e. the node is a
/// fully merged block.
pub open spec fn node_root_set(n: OctetNode) -> bool {
    match n {
        OctetNode::Standard(s) => pos_set(s.heap@, 1),
        OctetNode::Last(l) => pos_set(l.heap@, 1),
    }
}

/// Child keys strictly ascending (hence unique): walks are deterministic.
pub open spec fn keys_sorted(sub: Seq<(u8, OctetNode)>) -> bool {
    forall|i: int, j: int|
        #![trigger sub[i], sub[j]]
        0 <= i < j < sub.len() ==> sub[i].0 < sub[j].0
}

/// The first child stored under key `w`, if any.
pub open spec fn find_child(sub: Seq<(u8, OctetNode)>, w: u8) -> Option<OctetNode>
    decreases sub.len(),
{
    if sub.len() <= 0 {
        Option::None
    } else if sub[0].0 == w {
        Option::Some(sub[0].1)
    } else {
        find_child(sub.drop_first(), w)
    }
}

/// A well-formed terminal node under the given seeding policy: its bitmap
/// is canonical and the configured seeds are covered.
pub open spec fn last_wf(l: LastNode, z: bool, b: bool) -> bool {
    &&& heap_wf(l.heap@)
    &&& (z ==> covers(l.heap@, 0))
    &&& (b ==> covers(l.heap@, 255))
}

/// A well-formed inner child node standing at level `lvl`.  Terminal
/// nodes never appear here: they hang directly off level-0 nodes.
pub open spec fn wf_child(n: OctetNode, lvl: int, z: bool, b: bool) -> bool
    decreases lvl, 2int,
{
    match n {
        OctetNode::Last(_) => false,
        OctetNode::Standard(s) => if lvl >= 0 {
            wf_standard(s, lvl, z, b)
        } else {
            false
        },
    }
}

/// A well-formed inner node: bitmap canonical, children sorted, and every
/// materialised child partial (not a full block), not shadowed by the
/// node's own bitmap, labelled with its key, and itself well-formed.
pub open spec fn wf_standard(s: StandardNode, lvl: int, z: bool, b: bool) -> bool
    decreases lvl, 1int,
{
    &&& s.level == lvl
    &&& 0 <= lvl <= 1
    &&& s.seed_zeroed == z
    &&& s.seed_broadcast == b
    &&& heap_wf(s.heap@)
    &&& keys_sorted(s.subnodes@)
    &&& (forall|i: int|
        #![trigger s.subnodes@[i]]
        0 <= i < s.subnodes@.len() ==> {
            &&& node_octet(s.subnodes@[i].1) == s.subnodes@[i].0
            &&& !covers(s.heap@, s.subnodes@[i].0 as int)
            &&& !node_root_set(s.subnodes@[i].1)
            &&& wf_slot(s.subnodes@[i].1, lvl, z, b)
        })
}

/// What a parent of level `lvl` asks of the inside of a child: an inner
/// child one level down, or a well-formed terminal node below level 0.
pub open spec fn wf_slot(c: OctetNode, lvl: int, z: bool, b: bool) -> bool
    decreases lvl, 0int,
{
    if lvl >= 1 {
        wf_child(c, lvl - 1, z, b)
    } else {
        match c {
            OctetNode::Last(l) => last_wf(l, z, b),
            OctetNode::Standard(_) => false,
        }
    }
}

/// Shorthand: an inner node well-formed under its own level and flags.
pub open spec fn std_wf(s: StandardNode) -> bool {
    wf_standard(s, s.level as int, s.seed_zeroed, s.seed_broadcast)
}

/// Whether `path` (one byte per remaining octet) is covered by the subtree
/// rooted at this node.
pub open spec fn node_covers(n: OctetNode, path: Seq<u8>) -> bool
    decreases path.len(), 1int,
{
    match n {
        OctetNode::Last(l) => last_covers(l, path),
        OctetNode::Standard(s) => std_covers(s, path),
    }
}

/// Coverage at a terminal node: a single remaining octet, covered by the
/// bitmap.
pub open spec fn last_covers(l: LastNode, path: Seq<u8>) -> bool {
    path.len() == 1 && covers(l.heap@, path[0] as int)
}

/// Coverage at an inner node: the path has the right length and its head
/// is covered by the node's own bitmap, or a child covers the rest.
pub open spec fn std_covers(s: StandardNode, path: Seq<u8>) -> bool
    decreases path.len(), 0int,
{
    &&& path.len() == s.level as int + 2
    &&& (covers(s.heap@, path[0] as int) || (if path.len() >= 1 {
        match find_child(s.subnodes@, path[0]) {
            Option::Some(c) => node_covers(c, path.drop_first()),
            Option::None => false,
        }
    } else {
        false
    }))
}

// ---------------------------------------------------------------------------
// Lookup lemmas for the child table
// ---------------------------------------------------------------------------

proof fn lemma_find_child_skip(sub: Seq<(u8, OctetNode)>, w: u8, j: int)
    requires
        0 <= j <= sub.len(),
        forall|k: int| 0 <= k < j ==> (#[trigger] sub[k]).0 != w,
    ensures
        find_child(sub, w) == find_child(sub.skip(j), w),
    decreases j,
{
    if j > 0 {
        assert(sub[0].0 != w);
        assert(sub.len() > 0);
        let rest = sub.drop_first();
        assert(find_child(sub, w) == find_child(rest, w));
        assert forall|k: int| 0 <= k < j - 1 implies (#[trigger] rest[k]).0 != w by {
            assert(rest[k] == sub[k + 1]);
        }
        lemma_find_child_skip(rest, w, j - 1);
        assert(rest.skip(j - 1) =~= sub.skip(j));
    } else {
        assert(sub.skip(0) =~= sub);
    }
}

proof fn lemma_find_child_at(sub: Seq<(u8, OctetNode)>, w: u8, i: int)
    requires
        0 <= i < sub.len(),
        sub[i].0 == w,
        forall|k: int| 0 <= k < i ==> (#[trigger] sub[k]).0 != w,
    ensures
        find_child(sub, w) == Option::Some(sub[i].1),
    decreases i,
{
    lemma_find_child_skip(sub, w, i);
    assert(sub.skip(i)[0] == sub[i]);
    assert(sub.skip(i).len() > 0);
}

proof fn lemma_find_child_none(sub: Seq<(u8, OctetNode)>, w: u8)
    requires
        forall|k: int| 0 <= k < sub.len() ==> (#[trigger] sub[k]).0 != w,
    ensures
        find_child(sub, w) is None,
{
    lemma_find_child_skip(sub, w, sub.len() as int);
    assert(sub.skip(sub.len() as int).len() == 0);
}

proof fn lemma_find_child_insert(
    sub: Seq<(u8, OctetNode)>,
    idx: int,
    w: u8,
    c: OctetNode,
    wq: u8,
)
    requires
        0 <= idx <= sub.len(),
        forall|k: int| 0 <= k < sub.len() ==> (#[trigger] sub[k]).0 != w,
    ensures
        find_child(sub.insert(idx, (w, c)), wq) == if wq == w {
            Option::Some(c)
        } else {
            find_child(sub, wq)
        },
    decreases idx,
{
    let new = sub.insert(idx, (w, c));
    if idx == 0 {
        assert(new[0] == (w, c));
        if wq != w {
            assert(new.drop_first() =~= sub);
        }
    } else {
        assert(new[0] == sub[0]);
        let rest = sub.drop_first();
        assert forall|k: int| 0 <= k < rest.len() implies (#[trigger] rest[k]).0 != w by {
            assert(rest[k] == sub[k + 1]);
        }
        lemma_find_child_insert(rest, idx - 1, w, c, wq);
        assert(new.drop_first() =~= rest.insert(idx - 1, (w, c)));
        if wq == w {
            assert(new[0].0 != wq);
        } else {
            if sub[0].0 == wq {
            } else {
                assert(find_child(new, wq) == find_child(new.drop_first(), wq));
            }
        }
    }
}

proof fn lemma_find_child_remove(sub: Seq<(u8, OctetNode)>, idx: int, wq: u8)
    requires
        0 <= idx < sub.len(),
        forall|k: int| 0 <= k < sub.len() && k != idx ==> (#[trigger] sub[k]).0 != sub[idx].0,
    ensures
        find_child(sub.remove(idx), wq) == if wq == sub[idx].0 {
            Option::None
        } else {
            find_child(sub, wq)
        },
    decreases idx,
{
    let new = sub.remove(idx);
    if idx == 0 {
        assert(new =~= sub.drop_first());
        if wq == sub[0].0 {
            assert forall|k: int| 0 <= k < new.len() implies (#[trigger] new[k]).0 != wq by {
                assert(new[k] == sub[k + 1]);
            }
            lemma_find_child_none(new, wq);
        }
    } else {
        assert(new[0] == sub[0]);
        let rest = sub.drop_first();
        assert forall|k: int|
            0 <= k < rest.len() && k != idx - 1 implies (#[trigger] rest[k]).0 != rest[
            idx - 1].0 by {
            assert(rest[k] == sub[k + 1]);
            assert(rest[idx - 1] == sub[idx]);
        }
        lemma_find_child_remove(rest, idx - 1, wq);
        assert(new.drop_first() =~= rest.remove(idx - 1));
        assert(rest[idx - 1] == sub[idx]);
        if wq == sub[idx].0 {
            assert(sub[0].0 != wq);
        }
    }
}

/// Linear search for a child key, mirroring the lookup the specification
/// function [`find_child`] performs.
fn find_idx(sub: &Vec<(u8, OctetNode)>, w: u8) -> (r: Option<usize>)
    ensures
        match r {
            Option::Some(i) => i < sub@.len() && sub@[i as int].0 == w && find_child(sub@, w)
                == Option::Some(sub@[i as int].1),
            Option::None => (forall|k: int|
                0 <= k < sub@.len() ==> (#[trigger] sub@[k]).0 != w) && find_child(sub@, w)
                is None,
        },
{
    let mut i: usize = 0;
    while i < sub.len()
        invariant
            i <= sub@.len(),
            forall|k: int| 0 <= k < i ==> (#[trigger] sub@[k]).0 != w,
        decreases sub@.len() - i,
    {
        if sub[i].0 == w {
            proof {
                lemma_find_child_at(sub@, w, i as int);
            }
            return Some(i);
        }
        i = i + 1;
    }
    proof {
        lemma_find_child_none(sub@, w);
    }
    None
}

/// The index at which `w` keeps the key order, all smaller keys before it.
fn insert_pos(sub: &Vec<(u8, OctetNode)>, w: u8) -> (r: usize)
    requires
        keys_sorted(sub@),
    ensures
        r <= sub@.len(),
        forall|k: int| 0 <= k < r ==> (#[trigger] sub@[k]).0 < w,
        forall|k: int| r <= k < sub@.len() ==> (#[trigger] sub@[k]).0 >= w,
    decreases sub@.len(),
{
    let mut i: usize = 0;
    while i < sub.len()
        invariant
            i <= sub@.len(),
            forall|k: int| 0 <= k < i ==> (#[trigger] sub@[k]).0 < w,
            keys_sorted(sub@),
        decreases sub@.len() - i,
    {
        if sub[i].0 >= w {
            proof {
                assert forall|k: int| i <= k < sub@.len() implies (#[trigger] sub@[k]).0 >= w by {
                    if k > i {
                        assert(sub@[i as int].0 < sub@[k].0);
                    }
                }
            }
            return i;
        }
        i = i + 1;
    }
    i
}


// ---------------------------------------------------------------------------
// Inner octet nodes
// ---------------------------------------------------------------------------

/// No materialised child is a fully merged block.
pub open spec fn children_partial(s: StandardNode) -> bool {
    forall|i: int|
        0 <= i < s.subnodes@.len() ==> !node_root_set(#[trigger] s.subnodes@[i].1)
}

proof fn bv_or_zero(x: u64, y: u64)
    by (bit_vector)
    ensures
        (x | y == 0) <==> (x == 0 && y == 0),
{
}

impl OctetNode {
    /// The bitmap of either node kind.
    pub open spec fn spec_heap(&self) -> Seq<u64> {
        match self {
            OctetNode::Standard(s) => s.heap@,
            OctetNode::Last(l) => l.heap@,
        }
    }

    /// Whether this node is one fully merged block.
    pub fn is_subnet(&self) -> (r: bool)
        ensures
            r == (self.spec_heap()[0] == 2u64),
            r ==> node_root_set(*self),
            heap_wf(self.spec_heap()) ==> r == node_root_set(*self),
    {
        proof {
            if self.spec_heap()[0] == 2 {
                lemma_full_word_root(self.spec_heap());
            }
            if heap_wf(self.spec_heap()) && node_root_set(*self) {
                lemma_wf_full_word(self.spec_heap());
            }
        }
        match self {
            OctetNode::Standard(s) => 2 == s.heap[0],
            OctetNode::Last(l) => l.is_subnet(),
        }
    }
}

impl StandardNode {
    /// An empty inner node for the given level, with seeding off.
    pub fn new(octet: u8, level: u8) -> (r: StandardNode)
        ensures
            r == (StandardNode {
                octet,
                level,
                heap: r.heap,
                subnodes: r.subnodes,
                seed_zeroed: false,
                seed_broadcast: false,
            }),
            r.subnodes@.len() == 0,
            forall|q: int| !pos_set(r.heap@, q),
            heap_wf(r.heap@),
            level <= 1 ==> std_wf(r),
            forall|p: Seq<u8>| !std_covers(r, p),
    {
        Self::new_with_opts(octet, level, false, false)
    }

    /// An empty inner node that will seed terminal nodes as configured.
    pub fn new_with_opts(octet: u8, level: u8, zeroed: bool, broadcast: bool) -> (r: StandardNode)
        ensures
            r == (StandardNode {
                octet,
                level,
                heap: r.heap,
                subnodes: r.subnodes,
                seed_zeroed: zeroed,
                seed_broadcast: broadcast,
            }),
            r.subnodes@.len() == 0,
            forall|q: int| !pos_set(r.heap@, q),
            heap_wf(r.heap@),
            level <= 1 ==> std_wf(r),
            forall|p: Seq<u8>| !std_covers(r, p),
    {
        let r = StandardNode {
            octet,
            level,
            heap: [0u64;8],
            subnodes: Vec::new(),
            seed_zeroed: zeroed,
            seed_broadcast: broadcast,
        };
        proof {
            lemma_zero_heap_clear(r.heap@);
            assert forall|p: Seq<u8>| !std_covers(r, p) by {
                if std_covers(r, p) {
                    assert(!covers(r.heap@, p[0] as int));
                }
            }
        }
        r
    }

    /// Whether the single position `subnet` is set in this node's bitmap.
    pub fn contains_subnet_in_heap(&self, subnet: u16) -> (r: bool)
        requires
            subnet < 512,
        ensures
            r == pos_set(self.heap@, subnet as int),
    {
        heap_test_bit(&self.heap, subnet)
    }




    /// Whether the whole octet range of this node has been merged into
    /// one block.
    pub fn is_subnet(&self) -> (r: bool)
        ensures
            r == (self.heap@[0] == 2u64),
            heap_wf(self.heap@) ==> r == pos_set(self.heap@, 1),
    {
        proof {
            if self.heap@[0] == 2 {
                lemma_full_word_root(self.heap@);
            }
            if heap_wf(self.heap@) && pos_set(self.heap@, 1) {
                lemma_wf_full_word(self.heap@);
            }
        }
        self.heap[0] == 2
    }

    /// Sets the single position `subnet`.
    pub fn set_heap_bit(&mut self, subnet: u16)
        requires
            subnet < 512,
        ensures
            *final(self) == (StandardNode { heap: final(self).heap, ..*old(self) }),
            forall|q: int|
                #![trigger pos_set(old(self).heap@, q)]
                #![trigger pos_set(final(self).heap@, q)]
                pos_set(final(self).heap@, q) <==> (pos_set(old(self).heap@, q) || q == subnet),
    {
        heap_set_bit(&mut self.heap, subnet);
    }

    /// Clears the single position `subnet`.
    pub fn unset_heap_bit(&mut self, subnet: u16)
        requires
            subnet < 512,
        ensures
            *final(self) == (StandardNode { heap: final(self).heap, ..*old(self) }),
            forall|q: int|
                #![trigger pos_set(old(self).heap@, q)]
                #![trigger pos_set(final(self).heap@, q)]
                pos_set(final(self).heap@, q) <==> (pos_set(old(self).heap@, q) && q != subnet),
    {
        heap_unset_bit(&mut self.heap, subnet);
    }

    /// Whether no position at all is set.
    pub fn is_heap_empty(&self) -> (r: bool)
        ensures
            r == (forall|i: int| 0 <= i < 8 ==> self.heap@[i] == 0u64),
    {
        let mut acc: u64 = 0;
        let mut i: usize = 0;
        while i < 8
            invariant
                i <= 8,
                (acc == 0) <==> (forall|k: int| 0 <= k < i ==> self.heap@[k] == 0u64),
            decreases 8 - i,
        {
            proof {
                bv_or_zero(acc, self.heap@[i as int]);
            }
            acc = acc | self.heap[i];
            i = i + 1;
        }
        acc == 0u64
    }

    /// Merges set sibling pairs upward starting at `subnet`.
    pub fn merge_subnets(&mut self, subnet: u16)
        requires
            1 <= subnet < 512,
            merge_pre(old(self).heap@, subnet as int),
        ensures
            *final(self) == (StandardNode { heap: final(self).heap, ..*old(self) }),
            heap_wf(final(self).heap@),
            forall|v: int| 0 <= v < 256 ==> #[trigger] covers(final(self).heap@, v) == covers(
                old(self).heap@,
                v,
            ),
    {
        heap_merge_up(&mut self.heap, subnet);
    }

    /// Whether `octet` is already inside some merged block: a bit on the
    /// path of its leaf position is set, or — for robustness against a
    /// missed dismissal — the child stored under it is itself full.
    pub fn is_part_of_aggregated_subnet(&self, octet: u8) -> (r: bool)
        requires
            children_partial(*self),
        ensures
            r == covers(self.heap@, octet as int),
    {
        if heap_covered_from(&self.heap, octet as u16 + 256u16) {
            return true;
        }
        match find_idx(&self.subnodes, octet) {
            Option::None => false,
            Option::Some(i) => {
                let r = self.subnodes[i].1.is_subnet();
                proof {
                    if r {
                        assert(node_root_set(self.subnodes@[i as int].1));
                    }
                }
                r
            },
        }
    }

    /// Whether `octet` is covered by this node's bitmap or has a
    /// materialised child.
    pub fn contains(&self, octet: &u8) -> (r: bool)
        requires
            children_partial(*self),
        ensures
            r == (covers(self.heap@, *octet as int) || find_child(self.subnodes@, *octet)
                is Some),
    {
        if self.is_part_of_aggregated_subnet(*octet) {
            return true;
        }
        find_idx(&self.subnodes, *octet).is_some()
    }

    /// A mutable handle on the child stored under `octet`, if any.
    pub fn get_node(&mut self, octet: &u8) -> (r: Option<&mut OctetNode>)
        ensures
            match r {
                Option::None => *final(self) == *old(self) && find_child(
                    old(self).subnodes@,
                    *octet,
                ) is None,
                Option::Some(nref) => exists|i: int|
                    0 <= i < old(self).subnodes@.len() && old(self).subnodes@[i].0 == *octet
                        && *nref == old(self).subnodes@[i].1 && *final(self) == (StandardNode {
                        subnodes: final(self).subnodes,
                        ..*old(self)
                    }) && final(self).subnodes@ == old(self).subnodes@.update(
                        i,
                        (*octet, *final(nref)),
                    ),
            },
    {
        match find_idx(&self.subnodes, *octet) {
            Option::None => None,
            Option::Some(i) => {
                let r = &mut self.subnodes[i].1;
                Some(r)
            },
        }
    }

    /// Makes sure a child for `octet` exists, creating a fresh one of the
    /// kind this level calls for (with seeding applied at the terminal
    /// level) unless the octet is already covered.
    pub fn expand(&mut self, octet: u8)
        requires
            std_wf(*old(self)),
        ensures
            std_wf(*final(self)),
            *final(self) == (StandardNode { subnodes: final(self).subnodes, ..*old(self) }),
            covers(old(self).heap@, octet as int) ==> *final(self) == *old(self),
            find_child(old(self).subnodes@, octet) is Some ==> *final(self) == *old(self),
            !covers(old(self).heap@, octet as int) ==> find_child(final(self).subnodes@, octet)
                is Some,
            !covers(old(self).heap@, octet as int) && find_child(old(self).subnodes@, octet)
                is Some ==> find_child(final(self).subnodes@, octet) == find_child(
                old(self).subnodes@,
                octet,
            ),
            forall|p: Seq<u8>|
                #![trigger std_covers(*final(self), p)]
                #![trigger std_covers(*old(self), p)]
                std_covers(*final(self), p) <==> (std_covers(*old(self), p) || (old(
                    self,
                ).level == 0 && p.len() == 2 && p[0] == octet && ((old(self).seed_zeroed && p[1]
                    == 0) || (old(self).seed_broadcast && p[1] == 255)))),
    {
        if self.is_part_of_aggregated_subnet(octet) {
            proof {
                assert forall|p: Seq<u8>|
                    std_covers(*self, p) && p.len() == 2 && p[0] == octet implies true by {}
                assert forall|p: Seq<u8>|
                    #![trigger std_covers(*self, p)]
                    old(self).level == 0 && p.len() == 2 && p[0] == octet && ((old(
                        self,
                    ).seed_zeroed && p[1] == 0) || (old(self).seed_broadcast && p[1]
                        == 255)) implies std_covers(*self, p) by {
                    assert(covers(self.heap@, p[0] as int));
                }
            }
            return ;
        }
        match find_idx(&self.subnodes, octet) {
            Option::Some(_) => {
                proof {
                    // An existing terminal child already covers its seeds.
                    let c = find_child(self.subnodes@, octet).unwrap();
                    let i = choose|i: int|
                        0 <= i < self.subnodes@.len() && #[trigger] self.subnodes@[i].0 == octet;
                    assert forall|p: Seq<u8>|
                        #![trigger std_covers(*self, p)]
                        old(self).level == 0 && p.len() == 2 && p[0] == octet && ((old(
                            self,
                        ).seed_zeroed && p[1] == 0) || (old(self).seed_broadcast && p[1]
                            == 255)) implies std_covers(*self, p) by {
                        assert(node_covers(c, p.drop_first()));
                    }
                }
            },
            Option::None => {
                let pos = insert_pos(&self.subnodes, octet);
                let child: OctetNode = if self.level == 0 {
                    OctetNode::Last(
                        LastNode::new_with_opts(octet, self.seed_zeroed, self.seed_broadcast),
                    )
                } else {
                    OctetNode::Standard(
                        StandardNode::new_with_opts(
                            octet,
                            self.level - 1,
                            self.seed_zeroed,
                            self.seed_broadcast,
                        ),
                    )
                };
                proof {
                    if node_root_set(child) {
                        match child {
                            OctetNode::Last(ref l) => {
                                lemma_root_covers_all(l.heap@, 1);
                            },
                            OctetNode::Standard(ref st) => {},
                        }
                    }
                }
                let ghost oldsub = self.subnodes@;
                self.subnodes.insert(pos, (octet, child));
                proof {
                    let newsub = self.subnodes@;
                    assert(newsub == oldsub.insert(pos as int, (octet, child)));
                    assert forall|wq: u8|
                        find_child(newsub, wq) == (if wq == octet {
                            Option::Some(child)
                        } else {
                            find_child(oldsub, wq)
                        }) by {
                        lemma_find_child_insert(oldsub, pos as int, octet, child, wq);
                    }
                    // sortedness and per-entry well-formedness
                    assert forall|i: int, j: int|
                        #![trigger newsub[i], newsub[j]]
                        0 <= i < j < newsub.len() implies newsub[i].0 < newsub[j].0 by {
                        if i < pos {
                            assert(newsub[i] == oldsub[i]);
                        } else if i > pos {
                            assert(newsub[i] == oldsub[i - 1]);
                        }
                        if j < pos {
                            assert(newsub[j] == oldsub[j]);
                        } else if j > pos {
                            assert(newsub[j] == oldsub[j - 1]);
                        }
                    }
                    assert forall|i: int|
                        #![trigger newsub[i]]
                        0 <= i < newsub.len() implies {
                        &&& node_octet(newsub[i].1) == newsub[i].0
                        &&& !covers(self.heap@, newsub[i].0 as int)
                        &&& !node_root_set(newsub[i].1)
                        &&& wf_slot(
                            newsub[i].1,
                            old(self).level as int,
                            old(self).seed_zeroed,
                            old(self).seed_broadcast,
                        )
                    } by {
                        if i < pos {
                            assert(newsub[i] == oldsub[i]);
                        } else if i > pos {
                            assert(newsub[i] == oldsub[i - 1]);
                        }
                    }
                    // the coverage equation
                    assert forall|p: Seq<u8>|
                        #![trigger std_covers(*self, p)]
                        #![trigger std_covers(*old(self), p)]
                        std_covers(*self, p) <==> (std_covers(*old(self), p) || (old(
                            self,
                        ).level == 0 && p.len() == 2 && p[0] == octet && ((old(
                            self,
                        ).seed_zeroed && p[1] == 0) || (old(self).seed_broadcast && p[1]
                            == 255)))) by {
                        if p.len() == old(self).level as int + 2 {
                            if p[0] == octet {
                                assert(find_child(newsub, p[0]) == Option::Some(child));
                                assert(find_child(oldsub, p[0]) is None);
                                match child {
                                    OctetNode::Last(l) => {
                                        assert(node_covers(child, p.drop_first())
                                            == last_covers(l, p.drop_first()));
                                        assert(p.drop_first().len() == 1 ==> p.drop_first()[0]
                                            == p[1]);
                                    },
                                    OctetNode::Standard(st) => {
                                        assert(!std_covers(st, p.drop_first()));
                                    },
                                }
                            } else {
                                assert(find_child(newsub, p[0]) == find_child(oldsub, p[0]));
                            }
                        }
                    }
                }
            },
        }
    }
}


proof fn bv_xor_one_u8(x: u8)
    by (bit_vector)
    ensures
        x % 2 == 0 ==> x ^ 1 == x + 1,
        x % 2 == 1 ==> x ^ 1 == x - 1,
{
}


// ---------------------------------------------------------------------------
// The insertion equations
// ---------------------------------------------------------------------------

/// What one insertion adds at a node, phrased over whole paths: the path
/// itself, and — where the terminal level sits below an inner child —
/// the seeded network and broadcast paths of its /24.
pub open spec fn head_clauses(p: Seq<u8>, target: Seq<u8>, z: bool, b: bool) -> bool {
    ||| p == target
    ||| (z && p == target.update(target.len() - 1, 0u8))
    ||| (b && p == target.update(target.len() - 1, 255u8))
}

/// The same clauses one level down, for the child that consumes the tail
/// of the path.  At level 0 the seeds are contributed by the creation of
/// the terminal node instead, so only deeper levels carry them here.
pub open spec fn tail_clauses(rest: Seq<u8>, target: Seq<u8>, lvl: int, z: bool, b: bool) -> bool {
    ||| rest == target.drop_first()
    ||| (lvl >= 1 && z && rest == target.drop_first().update(target.len() - 2, 0u8))
    ||| (lvl >= 1 && b && rest == target.drop_first().update(target.len() - 2, 255u8))
}

/// When the head octet of the path is already covered, the whole
/// insertion is absorbed: the path and its seed companions are covered.
proof fn lemma_add_absorbed(s: StandardNode, target: Seq<u8>)
    requires
        target.len() == s.level as int + 2,
        covers(s.heap@, target[0] as int),
    ensures
        std_covers(s, target),
        forall|p: Seq<u8>|
            head_clauses(p, target, s.seed_zeroed, s.seed_broadcast) ==> #[trigger] std_covers(
                s,
                p,
            ),
{
    assert forall|p: Seq<u8>|
        head_clauses(p, target, s.seed_zeroed, s.seed_broadcast) implies #[trigger] std_covers(
        s,
        p,
    ) by {
        assert(p.len() == target.len());
        assert(p[0] == target[0]);
        assert(covers(s.heap@, p[0] as int));
    }
}

/// A full child covers every tail of the right length.
proof fn lemma_full_child_covers(child: OctetNode, rest: Seq<u8>, lvl: int)
    requires
        node_root_set(child),
        rest.len() == lvl + 1,
        match child {
            OctetNode::Last(_) => lvl == 0,
            OctetNode::Standard(st) => st.level as int == lvl - 1,
        },
    ensures
        node_covers(child, rest),
{
    match child {
        OctetNode::Last(l) => {
            lemma_root_covers_all(l.heap@, rest[0] as int);
        },
        OctetNode::Standard(st) => {
            lemma_root_covers_all(st.heap@, rest[0] as int);
        },
    }
}

/// Two sequences with the same head are equal exactly when their tails are.
proof fn lemma_seq_head_tail_eq(p: Seq<u8>, q: Seq<u8>)
    requires
        p.len() == q.len(),
        p.len() >= 1,
        p[0] == q[0],
    ensures
        (p == q) <==> (p.drop_first() == q.drop_first()),
{
    if p.drop_first() == q.drop_first() {
        assert forall|k: int| 0 <= k < p.len() implies p[k] == q[k] by {
            if k > 0 {
                assert(p.drop_first()[k - 1] == q.drop_first()[k - 1]);
            }
        }
        assert(p =~= q);
    }
    if p == q {
        assert(p.drop_first() =~= q.drop_first());
    }
}

/// Equivalence between the path-level clauses at a node and at the child
/// that consumes the tail, for paths entering through the target's head.
proof fn lemma_clause_shift(p: Seq<u8>, target: Seq<u8>, lvl: int, z: bool, b: bool)
    requires
        target.len() == lvl + 2,
        0 <= lvl <= 1,
        p.len() == target.len(),
        p[0] == target[0],
    ensures
        head_clauses(p, target, z, b) <==> (tail_clauses(p.drop_first(), target, lvl, z, b) || (
        lvl == 0 && p.len() == 2 && ((z && p[1] == 0) || (b && p[1] == 255)))),
{
    let rest = p.drop_first();
    let dt = target.drop_first();
    lemma_seq_head_tail_eq(p, target);
    let tu0 = target.update(target.len() - 1, 0u8);
    let tu255 = target.update(target.len() - 1, 255u8);
    assert(tu0[0] == target[0] && tu255[0] == target[0]);
    lemma_seq_head_tail_eq(p, tu0);
    lemma_seq_head_tail_eq(p, tu255);
    assert(tu0.drop_first() =~= dt.update(target.len() - 2, 0u8));
    assert(tu255.drop_first() =~= dt.update(target.len() - 2, 255u8));
    if lvl == 0 {
        // tails have length one: equality to the updated tail is just a
        // check of the single element
        assert(dt.update(0, 0u8) =~= seq![0u8]);
        assert(dt.update(0, 255u8) =~= seq![255u8]);
        assert((rest == seq![0u8]) <==> (rest.len() == 1 && rest[0] == 0)) by {
            if rest.len() == 1 && rest[0] == 0 {
                assert(rest =~= seq![0u8]);
            }
        }
        assert((rest == seq![255u8]) <==> (rest.len() == 1 && rest[0] == 255)) by {
            if rest.len() == 1 && rest[0] == 255 {
                assert(rest =~= seq![255u8]);
            }
        }
        assert(p[1] == rest[0]);
    }
}

/// Every head clause enters through the target's head octet.
proof fn lemma_clause_head(p: Seq<u8>, target: Seq<u8>, z: bool, b: bool)
    requires
        target.len() >= 2,
        head_clauses(p, target, z, b),
    ensures
        p.len() == target.len(),
        p[0] == target[0],
{
}


// ---------------------------------------------------------------------------
// Observational sameness of nodes
// ---------------------------------------------------------------------------

/// Two nodes with the same shape, bitmaps and children, compared down to
/// the given level.  A child table rebuilt entry by entry is `same` as
/// the one it came from even where plain equality of the backing
/// vectors is not available.
pub open spec fn node_same_at(a: OctetNode, b: OctetNode, lvl: int) -> bool
    decreases lvl, 1int,
{
    match (a, b) {
        (OctetNode::Last(x), OctetNode::Last(y)) => x == y,
        (OctetNode::Standard(x), OctetNode::Standard(y)) => if lvl >= 0 {
            std_same_at(x, y, lvl)
        } else {
            false
        },
        _ => false,
    }
}

/// Sameness of two inner nodes of level `lvl`.
pub open spec fn std_same_at(x: StandardNode, y: StandardNode, lvl: int) -> bool
    decreases lvl, 0int,
{
    &&& x.octet == y.octet
    &&& x.level == y.level
    &&& x.heap == y.heap
    &&& x.seed_zeroed == y.seed_zeroed
    &&& x.seed_broadcast == y.seed_broadcast
    &&& x.subnodes@.len() == y.subnodes@.len()
    &&& (forall|i: int|
        0 <= i < x.subnodes@.len() ==> (#[trigger] x.subnodes@[i]).0 == y.subnodes@[i].0 && (
        if lvl >= 1 {
            node_same_at(x.subnodes@[i].1, y.subnodes@[i].1, lvl - 1)
        } else {
            x.subnodes@[i].1 == y.subnodes@[i].1
        }))
}

pub proof fn lemma_same_refl(a: OctetNode, lvl: int)
    requires
        lvl >= 0,
    ensures
        node_same_at(a, a, lvl),
    decreases lvl,
{
    match a {
        OctetNode::Last(_) => {},
        OctetNode::Standard(x) => {
            assert forall|i: int|
                0 <= i < x.subnodes@.len() implies (#[trigger] x.subnodes@[i]).0 == x.subnodes@[
                i].0 && (if lvl >= 1 {
                node_same_at(x.subnodes@[i].1, x.subnodes@[i].1, lvl - 1)
            } else {
                x.subnodes@[i].1 == x.subnodes@[i].1
            }) by {
                if lvl >= 1 {
                    lemma_same_refl(x.subnodes@[i].1, lvl - 1);
                }
            }
        },
    }
}

proof fn lemma_same_find_child(
    xs: Seq<(u8, OctetNode)>,
    ys: Seq<(u8, OctetNode)>,
    w: u8,
    lvl: int,
)
    requires
        xs.len() == ys.len(),
        forall|i: int|
            0 <= i < xs.len() ==> (#[trigger] xs[i]).0 == ys[i].0 && (if lvl >= 1 {
                node_same_at(xs[i].1, ys[i].1, lvl - 1)
            } else {
                xs[i].1 == ys[i].1
            }),
    ensures
        find_child(xs, w) is Some <==> find_child(ys, w) is Some,
        find_child(xs, w) is Some ==> (if lvl >= 1 {
            node_same_at(find_child(xs, w).unwrap(), find_child(ys, w).unwrap(), lvl - 1)
        } else {
            find_child(xs, w).unwrap() == find_child(ys, w).unwrap()
        }),
    decreases xs.len(),
{
    if xs.len() > 0 {
        assert(xs[0].0 == ys[0].0);
        if xs[0].0 != w {
            let xr = xs.drop_first();
            let yr = ys.drop_first();
            assert forall|i: int|
                0 <= i < xr.len() implies (#[trigger] xr[i]).0 == yr[i].0 && (if lvl >= 1 {
                node_same_at(xr[i].1, yr[i].1, lvl - 1)
            } else {
                xr[i].1 == yr[i].1
            }) by {
                assert(xr[i] == xs[i + 1]);
                assert(yr[i] == ys[i + 1]);
            }
            lemma_same_find_child(xr, yr, w, lvl);
        }
    }
}

/// Same nodes cover the same paths.
pub proof fn lemma_same_covers(a: OctetNode, b: OctetNode, lvl: int, path: Seq<u8>)
    requires
        lvl >= 0,
        node_same_at(a, b, lvl),
    ensures
        node_covers(a, path) == node_covers(b, path),
    decreases lvl,
{
    match (a, b) {
        (OctetNode::Last(x), OctetNode::Last(y)) => {},
        (OctetNode::Standard(x), OctetNode::Standard(y)) => {
            if path.len() == x.level as int + 2 {
                lemma_same_find_child(x.subnodes@, y.subnodes@, path[0], lvl);
                match find_child(x.subnodes@, path[0]) {
                    Option::Some(cx) => {
                        let cy = find_child(y.subnodes@, path[0]).unwrap();
                        if lvl >= 1 {
                            lemma_same_covers(cx, cy, lvl - 1, path.drop_first());
                        }
                    },
                    Option::None => {},
                }
            }
        },
        _ => {},
    }
}


impl StandardNode {
    /// Inserts the remaining octets of one address below this node: the
    /// head octet picks the child, the rest is handed down.  A child that
    /// becomes a full block afterwards is absorbed into this node's own
    /// bitmap (merging with the sibling block where both halves are now
    /// covered) and dropped from the table.
    #[verifier::rlimit(60)]
    pub fn add(&mut self, octet: &[u8])
        requires
            std_wf(*old(self)),
            octet@.len() == old(self).level as int + 2,
        ensures
            std_wf(*final(self)),
            final(self).octet == old(self).octet,
            final(self).level == old(self).level,
            final(self).seed_zeroed == old(self).seed_zeroed,
            final(self).seed_broadcast == old(self).seed_broadcast,
            std_covers(*old(self), octet@) ==> std_same_at(
                *final(self),
                *old(self),
                old(self).level as int,
            ),
            forall|p: Seq<u8>|
                #![trigger std_covers(*final(self), p)]
                #![trigger std_covers(*old(self), p)]
                std_covers(*final(self), p) <==> (std_covers(*old(self), p) || head_clauses(
                    p,
                    octet@,
                    old(self).seed_zeroed,
                    old(self).seed_broadcast,
                )),
        decreases octet@.len(),
    {
        let ghost target = octet@;
        let ghost lvl = old(self).level as int;
        let ghost z = old(self).seed_zeroed;
        let ghost bb = old(self).seed_broadcast;
        if octet.len() == 0 {
            return ;
        }
        let w = octet[0];
        let ghost ww = w as int;
        if self.is_part_of_aggregated_subnet(w) {
            proof {
                lemma_add_absorbed(*self, target);
                lemma_same_refl(OctetNode::Standard(*self), lvl);
            }
            return ;
        }
        let ghost s0 = *old(self);
        self.expand(w);
        let ghost s1 = *self;
        let ghost presub = s1.subnodes@;
        let i = find_idx(&self.subnodes, w).unwrap();
        proof {
            assert forall|k: int|
                0 <= k < presub.len() && k != i as int implies (#[trigger] presub[k]).0
                != presub[i as int].0 by {
                if k < i as int {
                    assert(presub[k].0 < presub[i as int].0);
                } else {
                    assert(presub[i as int].0 < presub[k].0);
                }
            }
        }
        let entry = self.subnodes.remove(i);
        let ghost s2 = *self;
        let ghost c_mid = entry.1;
        proof {
            assert(entry == presub[i as int]);
            assert(find_child(presub, w) == Option::Some(c_mid));
            assert forall|wq: u8|
                #[trigger] find_child(s2.subnodes@, wq) == (if wq == w {
                    Option::<OctetNode>::None
                } else {
                    find_child(presub, wq)
                }) by {
                lemma_find_child_remove(presub, i as int, wq);
            }
            assert(wf_slot(c_mid, lvl, z, bb));
            assert(node_octet(c_mid) == w);
            assert(!node_root_set(c_mid));
            assert(!covers(s1.heap@, ww));
            assert(s1.heap == s0.heap);
        }
        let key = entry.0;
        let ghost dt = target.drop_first();
        let child: OctetNode = match entry.1 {
            OctetNode::Last(mut l) => {
                let ghost l0 = l;
                proof {
                    assert(lvl == 0);
                    assert(last_wf(l0, z, bb));
                    assert(c_mid == OctetNode::Last(l0));
                }
                let rest_sl = &octet[1..octet.len()];
                proof {
                    assert(rest_sl@ =~= dt);
                }
                l.add(rest_sl);
                let c = OctetNode::Last(l);
                proof {
                    assert(dt.len() == 1);
                    assert(last_wf(l, z, bb)) by {
                        assert(covers(l0.heap@, 0) ==> covers(l.heap@, 0));
                        assert(covers(l0.heap@, 255) ==> covers(l.heap@, 255));
                    }
                    assert(wf_slot(c, lvl, z, bb));
                    assert(node_octet(c) == w);
                    assert(heap_wf(c.spec_heap()));
                    assert forall|rest: Seq<u8>|
                        rest.len() == target.len() - 1 implies (#[trigger] node_covers(c, rest)
                            <==> (node_covers(c_mid, rest) || tail_clauses(
                            rest,
                            target,
                            lvl,
                            z,
                            bb,
                        ))) by {
                        assert((rest == dt) <==> (rest.len() == 1 && rest[0] == dt[0])) by {
                            if rest.len() == 1 && rest[0] == dt[0] {
                                assert(rest =~= dt);
                            }
                        }
                        assert(node_covers(c, rest) == last_covers(l, rest));
                        assert(node_covers(c_mid, rest) == last_covers(l0, rest));
                        assert(covers(l.heap@, rest[0] as int) <==> (covers(
                            l0.heap@,
                            rest[0] as int,
                        ) || rest[0] == dt[0]));
                    }
                    if node_covers(c_mid, dt) {
                        assert(covers(l0.heap@, dt[0] as int));
                        assert(l == l0);
                        assert(c == c_mid);
                    }
                }
                c
            },
            OctetNode::Standard(mut st) => {
                let ghost st0 = st;
                proof {
                    assert(lvl >= 1);
                    assert(wf_child(c_mid, lvl - 1, z, bb));
                    assert(wf_standard(st0, lvl - 1, z, bb));
                    assert(std_wf(st0));
                }
                let rest_sl = &octet[1..octet.len()];
                proof {
                    assert(rest_sl@ =~= dt);
                }
                st.add(rest_sl);
                let c = OctetNode::Standard(st);
                proof {
                    assert(std_wf(st));
                    assert(st.level as int == lvl - 1);
                    assert(wf_slot(c, lvl, z, bb));
                    assert(node_octet(c) == w);
                    assert(heap_wf(c.spec_heap()));
                    assert forall|rest: Seq<u8>|
                        rest.len() == target.len() - 1 implies (#[trigger] node_covers(c, rest)
                            <==> (node_covers(c_mid, rest) || tail_clauses(
                            rest,
                            target,
                            lvl,
                            z,
                            bb,
                        ))) by {
                        assert(std_covers(st, rest) <==> (std_covers(st0, rest) || head_clauses(
                            rest,
                            dt,
                            z,
                            bb,
                        )));
                        assert(head_clauses(rest, dt, z, bb) == tail_clauses(
                            rest,
                            target,
                            lvl,
                            z,
                            bb,
                        )) by {
                            assert(dt.len() - 1 == target.len() - 2);
                        }
                    }
                    if node_covers(c_mid, dt) {
                        assert(std_same_at(st, st0, lvl - 1));
                        assert(node_same_at(c, c_mid, lvl - 1));
                    }
                }
                c
            },
        };
        proof {
            assert(children_partial(s2));
        }
        if child.is_subnet() {
            proof {
                assert(node_root_set(child));
                if std_covers(s0, target) {
                    assert(node_covers(c_mid, dt)) by {
                        assert(!covers(s0.heap@, target[0] as int));
                        assert(find_child(s0.subnodes@, w) is Some);
                        assert(s1 == s0);
                    }
                    if lvl >= 1 {
                        assert(node_same_at(child, c_mid, lvl - 1));
                        match (child, c_mid) {
                            (OctetNode::Standard(x), OctetNode::Standard(y)) => {
                                assert(x.heap == y.heap);
                            },
                            _ => {},
                        }
                    } else {
                        assert(child == c_mid);
                    }
                    assert(false);
                }
            }
            self.set_heap_bit(w as u16 + 256u16);
            proof {
                lemma_set_leaf(s0.heap@, self.heap@, 256 + ww);
                assert(children_partial(*self));
            }
            let ghost h1 = self.heap@;
            let nb: u8 = w ^ 1;
            proof {
                bv_xor_one_u8(w);
            }
            if self.is_part_of_aggregated_subnet(w) && self.is_part_of_aggregated_subnet(nb) {
                self.merge_subnets(w as u16 + 256u16);
            } else {
                proof {
                    let p = 256 + ww;
                    assert(covers(h1, ww)) by {
                        assert(pos_set(h1, p));
                        assert(on_path(p, p));
                        lemma_on_path_set_covered(h1, p, p);
                    }
                    assert(!covers(h1, nb as int));
                    assert(!pos_set(h1, 256 + nb as int));
                    assert(sib(p) == 256 + nb as int);
                    assert forall|q: int|
                        1 <= q < 256 implies !(#[trigger] pos_set(h1, 2 * q) && pos_set(
                        h1,
                        2 * q + 1,
                    )) by {
                        if 2 * q == p || 2 * q + 1 == p {
                            assert(sib(2 * q) == 2 * q + 1 && sib(2 * q + 1) == 2 * q);
                        }
                    }
                    assert(heap_wf(self.heap@));
                }
            }
            proof {
                let sf = *self;
                let hf = sf.heap@;
                assert(heap_wf(hf));
                assert forall|x: int| 0 <= x < 256 implies #[trigger] covers(hf, x) == (covers(
                    s0.heap@,
                    x,
                ) || x == ww) by {}
                // the remaining children keep the slot invariant
                assert forall|k: int|
                    #![trigger sf.subnodes@[k]]
                    0 <= k < sf.subnodes@.len() implies {
                    &&& node_octet(sf.subnodes@[k].1) == sf.subnodes@[k].0
                    &&& !covers(hf, sf.subnodes@[k].0 as int)
                    &&& !node_root_set(sf.subnodes@[k].1)
                    &&& wf_slot(sf.subnodes@[k].1, lvl, z, bb)
                } by {
                    if k < i as int {
                        assert(sf.subnodes@[k] == presub[k]);
                    } else {
                        assert(sf.subnodes@[k] == presub[k + 1]);
                    }
                    assert(sf.subnodes@[k].0 != w);
                }
                assert(keys_sorted(sf.subnodes@)) by {
                    assert forall|a: int, c: int|
                        #![trigger sf.subnodes@[a], sf.subnodes@[c]]
                        0 <= a < c < sf.subnodes@.len() implies sf.subnodes@[a].0 < sf.subnodes@[
                        c].0 by {
                        if a < i as int {
                            assert(sf.subnodes@[a] == presub[a]);
                        } else {
                            assert(sf.subnodes@[a] == presub[a + 1]);
                        }
                        if c < i as int {
                            assert(sf.subnodes@[c] == presub[c]);
                        } else {
                            assert(sf.subnodes@[c] == presub[c + 1]);
                        }
                    }
                }
                assert(std_wf(sf));
                assert forall|p: Seq<u8>|
                    #![trigger std_covers(sf, p)]
                    #![trigger std_covers(s0, p)]
                    std_covers(sf, p) <==> (std_covers(s0, p) || head_clauses(
                        p,
                        target,
                        z,
                        bb,
                    )) by {
                    if head_clauses(p, target, z, bb) {
                        lemma_clause_head(p, target, z, bb);
                    }
                    if p.len() == lvl + 2 {
                        let rest = p.drop_first();
                        if p[0] == w {
                            assert(covers(hf, ww));
                            assert(std_covers(sf, p));
                            assert(node_covers(child, rest)) by {
                                lemma_full_child_covers(child, rest, lvl);
                            }
                            lemma_clause_shift(p, target, lvl, z, bb);
                            assert(std_covers(s1, p) == node_covers(c_mid, rest));
                            assert(std_covers(s0, p) || head_clauses(p, target, z, bb));
                        } else {
                            assert(covers(hf, p[0] as int) == covers(s0.heap@, p[0] as int));
                            assert(find_child(sf.subnodes@, p[0]) == find_child(presub, p[0]));
                            assert(std_covers(sf, p) == std_covers(s1, p));
                            if head_clauses(p, target, z, bb) {
                                lemma_clause_head(p, target, z, bb);
                                assert(false);
                            }
                        }
                    }
                }
            }
        } else {
            proof {
                assert(!node_root_set(child));
            }
            self.subnodes.insert(i, (key, child));
            proof {
                let sf = *self;
                assert(sf.subnodes@ == s2.subnodes@.insert(i as int, (key, child)));
                assert(sf.subnodes@ =~= presub.update(i as int, (w, child)));
                assert forall|wq: u8|
                    #[trigger] find_child(sf.subnodes@, wq) == (if wq == w {
                        Option::Some(child)
                    } else {
                        find_child(presub, wq)
                    }) by {
                    assert forall|k: int|
                        0 <= k < s2.subnodes@.len() implies (#[trigger] s2.subnodes@[k]).0
                        != w by {
                        if k < i as int {
                            assert(s2.subnodes@[k] == presub[k]);
                        } else {
                            assert(s2.subnodes@[k] == presub[k + 1]);
                        }
                    }
                    lemma_find_child_insert(s2.subnodes@, i as int, w, child, wq);
                }
                assert(keys_sorted(sf.subnodes@)) by {
                    assert forall|a: int, c: int|
                        #![trigger sf.subnodes@[a], sf.subnodes@[c]]
                        0 <= a < c < sf.subnodes@.len() implies sf.subnodes@[a].0 < sf.subnodes@[
                        c].0 by {
                        assert(sf.subnodes@[a].0 == presub[a].0);
                        assert(sf.subnodes@[c].0 == presub[c].0);
                    }
                }
                assert forall|k: int|
                    #![trigger sf.subnodes@[k]]
                    0 <= k < sf.subnodes@.len() implies {
                    &&& node_octet(sf.subnodes@[k].1) == sf.subnodes@[k].0
                    &&& !covers(sf.heap@, sf.subnodes@[k].0 as int)
                    &&& !node_root_set(sf.subnodes@[k].1)
                    &&& wf_slot(sf.subnodes@[k].1, lvl, z, bb)
                } by {
                    if k != i as int {
                        assert(sf.subnodes@[k] == presub[k]);
                    }
                }
                assert(std_wf(sf));
                assert forall|p: Seq<u8>|
                    #![trigger std_covers(sf, p)]
                    #![trigger std_covers(s0, p)]
                    std_covers(sf, p) <==> (std_covers(s0, p) || head_clauses(
                        p,
                        target,
                        z,
                        bb,
                    )) by {
                    if head_clauses(p, target, z, bb) {
                        lemma_clause_head(p, target, z, bb);
                    }
                    if p.len() == lvl + 2 {
                        let rest = p.drop_first();
                        if p[0] == w {
                            assert(std_covers(sf, p) == node_covers(child, rest));
                            assert(std_covers(s1, p) == node_covers(c_mid, rest));
                            lemma_clause_shift(p, target, lvl, z, bb);
                        } else {
                            assert(covers(sf.heap@, p[0] as int) == covers(
                                s0.heap@,
                                p[0] as int,
                            ));
                            assert(find_child(sf.subnodes@, p[0]) == find_child(presub, p[0]));
                            assert(std_covers(sf, p) == std_covers(s1, p));
                            if head_clauses(p, target, z, bb) {
                                lemma_clause_head(p, target, z, bb);
                                assert(false);
                            }
                        }
                    }
                }
                if std_covers(s0, target) {
                    assert(node_covers(c_mid, dt)) by {
                        assert(!covers(s0.heap@, target[0] as int));
                        assert(find_child(s0.subnodes@, w) is Some);
                        assert(s1 == s0);
                    }
                    assert(std_same_at(sf, s0, lvl)) by {
                        assert(sf.heap == s0.heap);
                        assert forall|k: int|
                            0 <= k < sf.subnodes@.len() implies (#[trigger] sf.subnodes@[k]).0
                            == s0.subnodes@[k].0 && (if lvl >= 1 {
                            node_same_at(sf.subnodes@[k].1, s0.subnodes@[k].1, lvl - 1)
                        } else {
                            sf.subnodes@[k].1 == s0.subnodes@[k].1
                        }) by {
                            assert(s0.subnodes@ == presub);
                            if k == i as int {
                                assert(sf.subnodes@[k] == (w, child));
                                assert(presub[k].1 == c_mid);
                            } else {
                                assert(sf.subnodes@[k] == presub[k]);
                                if lvl >= 1 {
                                    lemma_same_refl(presub[k].1, lvl - 1);
                                }
                            }
                        }
                    }
                }
            }
        }
    }
}


// ---------------------------------------------------------------------------
// Walking a subtree
// ---------------------------------------------------------------------------

/// The depth of a node used as the termination measure for walks.
pub open spec fn node_depth(n: OctetNode) -> int {
    match n {
        OctetNode::Standard(s) => s.level as int + 1,
        OctetNode::Last(_) => 0,
    }
}

/// The pairs a subtree emits: the node's own bitmap first, then each
/// child in ascending key order.
pub open spec fn node_pairs(n: OctetNode, prefix: u32, mask: u8) -> Seq<(u32, u8)>
    decreases 32 - mask, 0int, 0int,
{
    if mask > 16 {
        Seq::empty()
    } else {
        match n {
            OctetNode::Last(l) => heap_pairs(
                l.heap@,
                child_prefix(prefix, l.octet, mask),
                (mask + 8) as u8,
            ),
            OctetNode::Standard(s) => heap_pairs(
                s.heap@,
                child_prefix(prefix, s.octet, mask),
                (mask + 8) as u8,
            ) + children_pairs_upto(
                s.subnodes@,
                child_prefix(prefix, s.octet, mask),
                (mask + 8) as u8,
                s.subnodes@.len() as int,
            ),
        }
    }
}

/// The pairs of the first `k` children, concatenated in order.
pub open spec fn children_pairs_upto(
    sub: Seq<(u8, OctetNode)>,
    prefix: u32,
    mask: u8,
    k: int,
) -> Seq<(u32, u8)>
    decreases 32 - mask, 1int, k,
{
    if mask > 24 || k <= 0 || k > sub.len() {
        Seq::empty()
    } else {
        children_pairs_upto(sub, prefix, mask, k - 1) + node_pairs(sub[k - 1].1, prefix, mask)
    }
}

/// The requirement for walking a node handed the accumulated `prefix` and
/// `mask`: the subtree structure is sound and the mask leaves room for
/// the octets below.
pub open spec fn walk_pre(n: OctetNode, mask: u8) -> bool {
    match n {
        OctetNode::Last(_) => mask <= 16,
        OctetNode::Standard(s) => std_wf(s) && mask as int + 8 * (s.level as int) <= 8,
    }
}

/// Appends the pairs of the subtree at `n` to `out`, depth-first with the
/// node's own bitmap first and children in ascending key order.
fn walk_node_into(n: &OctetNode, prefix: u32, mask: u8, out: &mut Vec<(u32, u8)>)
    requires
        walk_pre(*n, mask),
    ensures
        final(out)@ == old(out)@ + node_pairs(*n, prefix, mask),
    decreases node_depth(*n),
{
    match n {
        OctetNode::Last(l) => {
            let cur_prefix: u32 = prefix | ((l.octet as u32) << ((24 - mask) as u32));
            scan_heap_pairs(&l.heap, cur_prefix, mask + 8, out);
        },
        OctetNode::Standard(s) => {
            let cur_prefix: u32 = prefix | ((s.octet as u32) << ((24 - mask) as u32));
            let cur_mask: u8 = mask + 8;
            scan_heap_pairs(&s.heap, cur_prefix, cur_mask, out);
            let ghost base = out@;
            let mut i: usize = 0;
            proof {
                assert(base =~= base + children_pairs_upto(s.subnodes@, cur_prefix, cur_mask, 0));
            }
            while i < s.subnodes.len()
                invariant
                    i <= s.subnodes@.len(),
                    out@ == base + children_pairs_upto(
                        s.subnodes@,
                        cur_prefix,
                        cur_mask,
                        i as int,
                    ),
                    walk_pre(OctetNode::Standard(*s), mask),
                    *n == OctetNode::Standard(*s),
                    cur_mask == mask + 8,
                    cur_prefix == child_prefix(prefix, s.octet, mask),
                decreases s.subnodes@.len() - i,
            {
                proof {
                    assert(wf_slot(s.subnodes@[i as int].1, s.level as int, s.seed_zeroed, s.seed_broadcast));
                    assert(walk_pre(s.subnodes@[i as int].1, cur_mask));
                    assert(*n == OctetNode::Standard(*s));
                    assert(node_depth(s.subnodes@[i as int].1) < node_depth(*n));
                }
                walk_node_into(&s.subnodes[i].1, cur_prefix, cur_mask, out);
                i = i + 1;
                proof {
                    assert(out@ =~= base + children_pairs_upto(
                        s.subnodes@,
                        cur_prefix,
                        cur_mask,
                        i as int,
                    ));
                }
            }
        },
    }
}

impl StandardNode {
    /// Enumerates the aggregated blocks of this subtree as CIDR pairs:
    /// the node's own bitmap first, then each surviving child in
    /// ascending octet order.
    pub fn walk(&self, prefix: u32, mask: u8) -> (r: CidrIter)
        requires
            std_wf(*self),
            mask as int + 8 * (self.level as int) <= 8,
        ensures
            r@ == node_pairs(OctetNode::Standard(*self), prefix, mask),
    {
        let mut pairs: Vec<(u32, u8)> = Vec::new();
        let cur_prefix: u32 = prefix | ((self.octet as u32) << ((24 - mask) as u32));
        let cur_mask: u8 = mask + 8;
        scan_heap_pairs(&self.heap, cur_prefix, cur_mask, &mut pairs);
        let ghost base = pairs@;
        let mut i: usize = 0;
        proof {
            assert(base =~= base + children_pairs_upto(self.subnodes@, cur_prefix, cur_mask, 0));
        }
        while i < self.subnodes.len()
            invariant
                i <= self.subnodes@.len(),
                pairs@ == base + children_pairs_upto(
                    self.subnodes@,
                    cur_prefix,
                    cur_mask,
                    i as int,
                ),
                std_wf(*self),
                mask as int + 8 * (self.level as int) <= 8,
                cur_mask == mask + 8,
                cur_prefix == child_prefix(prefix, self.octet, mask),
            decreases self.subnodes@.len() - i,
        {
            proof {
                assert(wf_slot(
                    self.subnodes@[i as int].1,
                    self.level as int,
                    self.seed_zeroed,
                    self.seed_broadcast,
                ));
            }
            walk_node_into(&self.subnodes[i].1, cur_prefix, cur_mask, &mut pairs);
            i = i + 1;
            proof {
                assert(pairs@ =~= base + children_pairs_upto(
                    self.subnodes@,
                    cur_prefix,
                    cur_mask,
                    i as int,
                ));
            }
        }
        CidrIter::from_pairs(pairs)
    }
}

impl OctetNode {
    /// Adds the remaining octets of an address below this node.
    pub fn add(&mut self, octets: &[u8])
        requires
            match *old(self) {
                OctetNode::Last(l) => heap_wf(l.heap@) && octets@.len() == 1,
                OctetNode::Standard(s) => std_wf(s) && octets@.len() == s.level as int + 2,
            },
        ensures
            match (*old(self), *final(self)) {
                (OctetNode::Last(l0), OctetNode::Last(l1)) => heap_wf(l1.heap@) && l1.octet
                    == l0.octet && (forall|v: int|
                    0 <= v < 256 ==> (#[trigger] covers(l1.heap@, v) <==> (covers(l0.heap@, v)
                        || v == octets@[0]))),
                (OctetNode::Standard(s0), OctetNode::Standard(s1)) => std_wf(s1) && s1.octet
                    == s0.octet && s1.level == s0.level && s1.seed_zeroed == s0.seed_zeroed
                    && s1.seed_broadcast == s0.seed_broadcast && (forall|p: Seq<u8>|
                    #![trigger std_covers(s1, p)]
                    #![trigger std_covers(s0, p)]
                    std_covers(s1, p) <==> (std_covers(s0, p) || head_clauses(
                        p,
                        octets@,
                        s0.seed_zeroed,
                        s0.seed_broadcast,
                    ))),
                _ => false,
            },
    {
        match self {
            OctetNode::Last(l) => l.add(octets),
            OctetNode::Standard(s) => s.add(octets),
        }
    }

    /// Whether `octet` is covered at this node or has a materialised
    /// child.
    pub fn contains(&self, octet: &u8) -> (r: bool)
        requires
            match *self {
                OctetNode::Last(_) => true,
                OctetNode::Standard(s) => children_partial(s),
            },
        ensures
            r == match *self {
                OctetNode::Last(l) => covers(l.heap@, *octet as int),
                OctetNode::Standard(s) => covers(s.heap@, *octet as int) || find_child(
                    s.subnodes@,
                    *octet,
                ) is Some,
            },
    {
        match self {
            OctetNode::Last(l) => l.contains(octet),
            OctetNode::Standard(s) => s.contains(octet),
        }
    }

    /// A mutable handle on the child stored under `octet`, if any.
    /// Terminal nodes have no children.
    pub fn get_node(&mut self, octet: &u8) -> (r: Option<&mut OctetNode>)
        ensures
            r is None ==> *final(self) == *old(self),
    {
        match self {
            OctetNode::Last(_) => None,
            OctetNode::Standard(s) => s.get_node(octet),
        }
    }

    /// Enumerates the aggregated blocks of this subtree as CIDR pairs.
    pub fn walk(&self, prefix: u32, mask: u8) -> (r: CidrIter)
        requires
            walk_pre(*self, mask),
        ensures
            r@ == node_pairs(*self, prefix, mask),
    {
        match self {
            OctetNode::Last(l) => l.walk(prefix, mask),
            OctetNode::Standard(s) => s.walk(prefix, mask),
        }
    }
}




// ---------------------------------------------------------------------------
// The tree root
// ---------------------------------------------------------------------------

/// The root of the aggregation trie: a sorted table from first octet to
/// the inner node for that /8, plus the seeding policy handed to freshly
/// created terminal nodes.  Root entries are never dismissed: a fully
/// aggregated /8 simply stays as a full node.
pub struct IPTree {
    pub octets: Vec<(u8, OctetNode)>,
    pub zeroed: bool,
    pub broadcast: bool,
}

/// The root invariant: keys sorted, and each entry a well-formed inner
/// node of level 1 labelled with its key.
pub open spec fn tree_wf(t: IPTree) -> bool {
    &&& keys_sorted(t.octets@)
    &&& (forall|i: int|
        #![trigger t.octets@[i]]
        0 <= i < t.octets@.len() ==> node_octet(t.octets@[i].1) == t.octets@[i].0 && wf_child(
            t.octets@[i].1,
            1,
            t.zeroed,
            t.broadcast,
        ))
}

/// Whether a four-octet address path is covered by the tree.
pub open spec fn tree_covers(t: IPTree, path: Seq<u8>) -> bool {
    &&& path.len() == 4
    &&& match find_child(t.octets@, path[0]) {
        Option::Some(c) => node_covers(c, path.drop_first()),
        Option::None => false,
    }
}

/// The pairs a full walk of the tree emits, root children in ascending
/// first-octet order.
pub open spec fn tree_pairs(t: IPTree) -> Seq<(u32, u8)> {
    children_pairs_upto(t.octets@, 0u32, 0u8, t.octets@.len() as int)
}

/// Observational sameness of two trees.
pub open spec fn tree_same(x: IPTree, y: IPTree) -> bool {
    &&& x.zeroed == y.zeroed
    &&& x.broadcast == y.broadcast
    &&& x.octets@.len() == y.octets@.len()
    &&& (forall|i: int|
        0 <= i < x.octets@.len() ==> (#[trigger] x.octets@[i]).0 == y.octets@[i].0
            && node_same_at(x.octets@[i].1, y.octets@[i].1, 1))
}

/// Dropping the shared head octet carries the insertion clauses one
/// level down unchanged.
proof fn lemma_clause_drop(p: Seq<u8>, target: Seq<u8>, z: bool, b: bool)
    requires
        target.len() >= 3,
        p.len() == target.len(),
        p[0] == target[0],
    ensures
        head_clauses(p, target, z, b) <==> head_clauses(
            p.drop_first(),
            target.drop_first(),
            z,
            b,
        ),
{
    let dt = target.drop_first();
    lemma_seq_head_tail_eq(p, target);
    let tu0 = target.update(target.len() - 1, 0u8);
    let tu255 = target.update(target.len() - 1, 255u8);
    lemma_seq_head_tail_eq(p, tu0);
    lemma_seq_head_tail_eq(p, tu255);
    assert(tu0.drop_first() =~= dt.update(dt.len() - 1, 0u8));
    assert(tu255.drop_first() =~= dt.update(dt.len() - 1, 255u8));
}

impl IPTree {
    /// An empty tree with the default seeding policy: both the network
    /// and the broadcast value of a fresh /24 are pre-seeded.
    pub fn new() -> (r: IPTree)
        ensures
            tree_wf(r),
            r.octets@.len() == 0,
            r.zeroed,
            r.broadcast,
            forall|p: Seq<u8>| !tree_covers(r, p),
    {
        Self::new_with_opts(true, true)
    }

    /// An empty tree with the given seeding policy.
    pub fn new_with_opts(zeroed: bool, broadcast: bool) -> (r: IPTree)
        ensures
            tree_wf(r),
            r.octets@.len() == 0,
            r.zeroed == zeroed,
            r.broadcast == broadcast,
            forall|p: Seq<u8>| !tree_covers(r, p),
    {
        IPTree { octets: Vec::new(), zeroed, broadcast }
    }

    /// Makes sure a root entry for the first octet exists.
    fn expand(&mut self, octet: u8)
        requires
            tree_wf(*old(self)),
        ensures
            tree_wf(*final(self)),
            final(self).zeroed == old(self).zeroed,
            final(self).broadcast == old(self).broadcast,
            find_child(final(self).octets@, octet) is Some,
            find_child(old(self).octets@, octet) is Some ==> *final(self) == *old(self),
            forall|p: Seq<u8>|
                #![trigger tree_covers(*final(self), p)]
                #![trigger tree_covers(*old(self), p)]
                tree_covers(*final(self), p) == tree_covers(*old(self), p),
            forall|wq: u8|
                wq != octet ==> #[trigger] find_child(final(self).octets@, wq) == find_child(
                    old(self).octets@,
                    wq,
                ),
            find_child(old(self).octets@, octet) is None ==> find_child(
                final(self).octets@,
                octet,
            ) == Option::Some(
                OctetNode::Standard(find_child(final(self).octets@, octet).unwrap()->Standard_0),
            ) && !node_root_set(find_child(final(self).octets@, octet).unwrap()),
    {
        match find_idx(&self.octets, octet) {
            Option::Some(_) => {},
            Option::None => {
                let pos = insert_pos(&self.octets, octet);
                let node = StandardNode::new_with_opts(octet, 1, self.zeroed, self.broadcast);
                let child = OctetNode::Standard(node);
                let ghost oldsub = self.octets@;
                self.octets.insert(pos, (octet, child));
                proof {
                    let newsub = self.octets@;
                    assert forall|wq: u8|
                        #[trigger] find_child(newsub, wq) == (if wq == octet {
                            Option::Some(child)
                        } else {
                            find_child(oldsub, wq)
                        }) by {
                        lemma_find_child_insert(oldsub, pos as int, octet, child, wq);
                    }
                    assert forall|i: int, j: int|
                        #![trigger newsub[i], newsub[j]]
                        0 <= i < j < newsub.len() implies newsub[i].0 < newsub[j].0 by {
                        if i < pos {
                            assert(newsub[i] == oldsub[i]);
                        } else if i > pos {
                            assert(newsub[i] == oldsub[i - 1]);
                        }
                        if j < pos {
                            assert(newsub[j] == oldsub[j]);
                        } else if j > pos {
                            assert(newsub[j] == oldsub[j - 1]);
                        }
                    }
                    assert forall|i: int|
                        #![trigger newsub[i]]
                        0 <= i < newsub.len() implies node_octet(newsub[i].1) == newsub[i].0
                        && wf_child(newsub[i].1, 1, self.zeroed, self.broadcast) by {
                        if i < pos {
                            assert(newsub[i] == oldsub[i]);
                        } else if i > pos {
                            assert(newsub[i] == oldsub[i - 1]);
                        }
                    }
                    assert forall|p: Seq<u8>|
                        #![trigger tree_covers(*self, p)]
                        #![trigger tree_covers(*old(self), p)]
                        tree_covers(*self, p) == tree_covers(*old(self), p) by {
                        if p.len() == 4 {
                            if p[0] == octet {
                                assert(!std_covers(node, p.drop_first()));
                            }
                        }
                    }
                }
            },
        }
    }

    /// Drops every entry, returning the tree to its empty state.
    pub fn clear(&mut self)
        ensures
            tree_wf(*final(self)),
            final(self).octets@.len() == 0,
            final(self).zeroed == old(self).zeroed,
            final(self).broadcast == old(self).broadcast,
            forall|p: Seq<u8>| !tree_covers(*final(self), p),
    {
        self.octets = Vec::new();
    }

    /// Inserts one address, given as its four octets.  Anything that is
    /// not exactly four octets long is ignored.
    pub fn add(&mut self, octet: &[u8])
        requires
            tree_wf(*old(self)),
        ensures
            tree_wf(*final(self)),
            final(self).zeroed == old(self).zeroed,
            final(self).broadcast == old(self).broadcast,
            octet@.len() != 4 ==> *final(self) == *old(self),
            octet@.len() == 4 && tree_covers(*old(self), octet@) ==> tree_same(
                *final(self),
                *old(self),
            ),
            octet@.len() == 4 ==> forall|p: Seq<u8>|
                #![trigger tree_covers(*final(self), p)]
                #![trigger tree_covers(*old(self), p)]
                tree_covers(*final(self), p) <==> (tree_covers(*old(self), p) || head_clauses(
                    p,
                    octet@,
                    old(self).zeroed,
                    old(self).broadcast,
                )),
    {
        if octet.len() != 4 {
            return ;
        }
        let ghost target = octet@;
        let ghost z = old(self).zeroed;
        let ghost bb = old(self).broadcast;
        let w = octet[0];
        let ghost t0 = *old(self);
        self.expand(w);
        let ghost t1 = *self;
        let ghost presub = t1.octets@;
        let i = find_idx(&self.octets, w).unwrap();
        proof {
            assert forall|k: int|
                0 <= k < presub.len() && k != i as int implies (#[trigger] presub[k]).0
                != presub[i as int].0 by {
                if k < i as int {
                    assert(presub[k].0 < presub[i as int].0);
                } else {
                    assert(presub[i as int].0 < presub[k].0);
                }
            }
        }
        let entry = self.octets.remove(i);
        let ghost t2 = *self;
        let ghost c_mid = entry.1;
        proof {
            assert(entry == presub[i as int]);
            assert(find_child(presub, w) == Option::Some(c_mid));
            assert forall|wq: u8|
                #[trigger] find_child(t2.octets@, wq) == (if wq == w {
                    Option::<OctetNode>::None
                } else {
                    find_child(presub, wq)
                }) by {
                lemma_find_child_remove(presub, i as int, wq);
            }
            assert(wf_child(c_mid, 1, z, bb));
        }
        let key = entry.0;
        let ghost dt = target.drop_first();
        let child: OctetNode = match entry.1 {
            OctetNode::Standard(mut st) => {
                let ghost st0 = st;
                proof {
                    assert(std_wf(st0));
                }
                let rest_sl = &octet[1..octet.len()];
                proof {
                    assert(rest_sl@ =~= dt);
                }
                st.add(rest_sl);
                let c = OctetNode::Standard(st);
                proof {
                    assert(std_wf(st));
                    assert(wf_child(c, 1, z, bb));
                    assert(node_octet(c) == w);
                    assert forall|rest: Seq<u8>|
                        rest.len() == 3 implies (#[trigger] node_covers(c, rest) <==> (
                        node_covers(c_mid, rest) || head_clauses(rest, dt, z, bb))) by {
                        assert(std_covers(st, rest) <==> (std_covers(st0, rest) || head_clauses(
                            rest,
                            dt,
                            z,
                            bb,
                        )));
                    }
                    if node_covers(c_mid, dt) {
                        assert(std_same_at(st, st0, 1));
                        assert(node_same_at(c, c_mid, 1));
                    }
                }
                c
            },
            OctetNode::Last(l) => {
                proof {
                    assert(false);
                }
                OctetNode::Last(l)
            },
        };
        self.octets.insert(i, (key, child));
        proof {
            let tf = *self;
            assert(tf.octets@ == t2.octets@.insert(i as int, (key, child)));
            assert(tf.octets@ =~= presub.update(i as int, (w, child)));
            assert forall|wq: u8|
                #[trigger] find_child(tf.octets@, wq) == (if wq == w {
                    Option::Some(child)
                } else {
                    find_child(presub, wq)
                }) by {
                assert forall|k: int|
                    0 <= k < t2.octets@.len() implies (#[trigger] t2.octets@[k]).0 != w by {
                    if k < i as int {
                        assert(t2.octets@[k] == presub[k]);
                    } else {
                        assert(t2.octets@[k] == presub[k + 1]);
                    }
                }
                lemma_find_child_insert(t2.octets@, i as int, w, child, wq);
            }
            assert(keys_sorted(tf.octets@)) by {
                assert forall|a: int, c: int|
                    #![trigger tf.octets@[a], tf.octets@[c]]
                    0 <= a < c < tf.octets@.len() implies tf.octets@[a].0 < tf.octets@[c].0 by {
                    assert(tf.octets@[a].0 == presub[a].0);
                    assert(tf.octets@[c].0 == presub[c].0);
                }
            }
            assert forall|k: int|
                #![trigger tf.octets@[k]]
                0 <= k < tf.octets@.len() implies node_octet(tf.octets@[k].1) == tf.octets@[k].0
                && wf_child(tf.octets@[k].1, 1, z, bb) by {
                if k != i as int {
                    assert(tf.octets@[k] == presub[k]);
                }
            }
            assert(tree_wf(tf));
            assert forall|p: Seq<u8>|
                #![trigger tree_covers(tf, p)]
                #![trigger tree_covers(t0, p)]
                tree_covers(tf, p) <==> (tree_covers(t0, p) || head_clauses(
                    p,
                    target,
                    z,
                    bb,
                )) by {
                if head_clauses(p, target, z, bb) {
                    lemma_clause_head(p, target, z, bb);
                }
                if p.len() == 4 {
                    let rest = p.drop_first();
                    if p[0] == w {
                        lemma_clause_drop(p, target, z, bb);
                        assert(tree_covers(tf, p) == node_covers(child, rest));
                        assert(tree_covers(t1, p) == node_covers(c_mid, rest));
                        assert(tree_covers(t1, p) == tree_covers(t0, p));
                    } else {
                        assert(find_child(tf.octets@, p[0]) == find_child(presub, p[0]));
                        assert(tree_covers(tf, p) == tree_covers(t1, p));
                        assert(tree_covers(t1, p) == tree_covers(t0, p));
                        if head_clauses(p, target, z, bb) {
                            lemma_clause_head(p, target, z, bb);
                            assert(false);
                        }
                    }
                }
            }
            if tree_covers(t0, target) {
                assert(find_child(t0.octets@, w) is Some);
                assert(t1 == t0);
                assert(node_covers(c_mid, dt));
                assert(tree_same(tf, t0)) by {
                    assert forall|k: int|
                        0 <= k < tf.octets@.len() implies (#[trigger] tf.octets@[k]).0
                        == t0.octets@[k].0 && node_same_at(tf.octets@[k].1, t0.octets@[k].1, 1) by {
                        assert(t0.octets@ == presub);
                        if k == i as int {
                            assert(tf.octets@[k] == (w, child));
                            assert(presub[k].1 == c_mid);
                        } else {
                            assert(tf.octets@[k] == presub[k]);
                            lemma_same_refl(presub[k].1, 1);
                        }
                    }
                }
            }
        }
    }

    /// Whether a root entry for the first octet `octet` exists.
    pub fn contains(&self, octet: u8) -> (r: bool)
        ensures
            r == (find_child(self.octets@, octet) is Some),
    {
        find_idx(&self.octets, octet).is_some()
    }

    /// A mutable handle on the root node stored under `octet`, if any.
    pub fn get_node(&mut self, octet: u8) -> (r: Option<&mut OctetNode>)
        ensures
            match r {
                Option::None => *final(self) == *old(self) && find_child(
                    old(self).octets@,
                    octet,
                ) is None,
                Option::Some(nref) => exists|i: int|
                    0 <= i < old(self).octets@.len() && old(self).octets@[i].0 == octet && *nref
                        == old(self).octets@[i].1 && final(self).zeroed == old(self).zeroed
                        && final(self).broadcast == old(self).broadcast && final(self).octets@
                        == old(self).octets@.update(i, (octet, *final(nref))),
            },
    {
        match find_idx(&self.octets, octet) {
            Option::None => None,
            Option::Some(i) => {
                let r = &mut self.octets[i].1;
                Some(r)
            },
        }
    }

    /// Enumerates the aggregated set as a one-shot sequence of CIDR
    /// pairs, root children in ascending first-octet order.  Walking
    /// consumes the returned cursor only; a fresh walk starts over.
    pub fn walk(&self) -> (r: CidrIter)
        requires
            tree_wf(*self),
        ensures
            r@ == tree_pairs(*self),
    {
        let mut pairs: Vec<(u32, u8)> = Vec::new();
        let mut i: usize = 0;
        proof {
            assert(pairs@ =~= children_pairs_upto(self.octets@, 0u32, 0u8, 0));
        }
        while i < self.octets.len()
            invariant
                i <= self.octets@.len(),
                tree_wf(*self),
                pairs@ == children_pairs_upto(self.octets@, 0u32, 0u8, i as int),
            decreases self.octets@.len() - i,
        {
            proof {
                assert(wf_child(self.octets@[i as int].1, 1, self.zeroed, self.broadcast));
            }
            walk_node_into(&self.octets[i].1, 0u32, 0u8, &mut pairs);
            i = i + 1;
            proof {
                assert(pairs@ =~= children_pairs_upto(self.octets@, 0u32, 0u8, i as int));
            }
        }
        CidrIter::from_pairs(pairs)
    }
}


// ---------------------------------------------------------------------------
// Laws of the aggregate
// ---------------------------------------------------------------------------

proof fn lemma_same_node_pairs(a: OctetNode, b: OctetNode, lvl: int, prefix: u32, mask: u8)
    requires
        lvl >= 0,
        node_same_at(a, b, lvl),
    ensures
        node_pairs(a, prefix, mask) == node_pairs(b, prefix, mask),
    decreases lvl, 1int, 0int,
{
    match (a, b) {
        (OctetNode::Last(x), OctetNode::Last(y)) => {},
        (OctetNode::Standard(x), OctetNode::Standard(y)) => {
            if mask <= 16 {
                lemma_same_children_pairs(
                    x.subnodes@,
                    y.subnodes@,
                    child_prefix(prefix, x.octet, mask),
                    (mask + 8) as u8,
                    x.subnodes@.len() as int,
                    lvl,
                );
            }
        },
        _ => {},
    }
}

proof fn lemma_same_children_pairs(
    xs: Seq<(u8, OctetNode)>,
    ys: Seq<(u8, OctetNode)>,
    prefix: u32,
    mask: u8,
    k: int,
    lvl: int,
)
    requires
        lvl >= 0,
        k <= xs.len(),
        xs.len() == ys.len(),
        forall|i: int|
            0 <= i < xs.len() ==> (#[trigger] xs[i]).0 == ys[i].0 && (if lvl >= 1 {
                node_same_at(xs[i].1, ys[i].1, lvl - 1)
            } else {
                xs[i].1 == ys[i].1
            }),
    ensures
        children_pairs_upto(xs, prefix, mask, k) == children_pairs_upto(ys, prefix, mask, k),
    decreases lvl, 0int, k,
{
    if !(mask > 24 || k <= 0 || k > xs.len()) {
        lemma_same_children_pairs(xs, ys, prefix, mask, k - 1, lvl);
        if lvl >= 1 {
            lemma_same_node_pairs(xs[k - 1].1, ys[k - 1].1, lvl - 1, prefix, mask);
        }
    }
}

/// Same trees walk to the same pairs.  Together with the idempotence
/// clause of [`IPTree::add`] this says that re-inserting an address that
/// is already covered leaves the walk output untouched.
pub proof fn lemma_tree_same_pairs(x: IPTree, y: IPTree)
    requires
        tree_same(x, y),
    ensures
        tree_pairs(x) == tree_pairs(y),
{
    lemma_tree_same_pairs_upto(x, y, x.octets@.len() as int);
}

proof fn lemma_tree_same_pairs_upto(x: IPTree, y: IPTree, k: int)
    requires
        tree_same(x, y),
        k <= x.octets@.len(),
    ensures
        children_pairs_upto(x.octets@, 0u32, 0u8, k) == children_pairs_upto(
            y.octets@,
            0u32,
            0u8,
            k,
        ),
    decreases k,
{
    if k > 0 {
        lemma_tree_same_pairs_upto(x, y, k - 1);
        lemma_same_node_pairs(x.octets@[k - 1].1, y.octets@[k - 1].1, 1, 0u32, 0u8);
    }
}

/// The set of paths one insertion makes covered.
pub open spec fn step_set(target: Seq<u8>, z: bool, b: bool) -> Set<Seq<u8>> {
    Set::new(|p: Seq<u8>| head_clauses(p, target, z, b))
}

/// The set of paths a batch of insertions makes covered, in order.
pub open spec fn added_set(addrs: Seq<Seq<u8>>, z: bool, b: bool) -> Set<Seq<u8>>
    decreases addrs.len(),
{
    if addrs.len() == 0 {
        Set::empty()
    } else {
        step_set(addrs[0], z, b) + added_set(addrs.drop_first(), z, b)
    }
}

proof fn lemma_added_set_member(addrs: Seq<Seq<u8>>, z: bool, b: bool, x: Seq<u8>)
    ensures
        added_set(addrs, z, b).contains(x) <==> exists|t: Seq<u8>|
            #[trigger] addrs.contains(t) && head_clauses(x, t, z, b),
    decreases addrs.len(),
{
    if addrs.len() > 0 {
        lemma_added_set_member(addrs.drop_first(), z, b, x);
        if added_set(addrs, z, b).contains(x) {
            if step_set(addrs[0], z, b).contains(x) {
                assert(addrs.contains(addrs[0]) && head_clauses(x, addrs[0], z, b));
            } else {
                let t = choose|t: Seq<u8>|
                    #[trigger] addrs.drop_first().contains(t) && head_clauses(x, t, z, b);
                let j = choose|j: int|
                    0 <= j < addrs.drop_first().len() && addrs.drop_first()[j] == t;
                assert(addrs[j + 1] == t);
                assert(addrs.contains(t));
            }
        }
        if exists|t: Seq<u8>| #[trigger] addrs.contains(t) && head_clauses(x, t, z, b) {
            let t = choose|t: Seq<u8>| #[trigger] addrs.contains(t) && head_clauses(x, t, z, b);
            let j = choose|j: int| 0 <= j < addrs.len() && addrs[j] == t;
            if j == 0 {
                assert(step_set(addrs[0], z, b).contains(x));
            } else {
                assert(addrs.drop_first()[j - 1] == t);
                assert(addrs.drop_first().contains(t));
            }
        }
    }
}

/// Insertion order does not matter: two batches holding the same
/// addresses (as a multiset) make the same set of paths covered, so the
/// final covered set — and with it the canonical walk — is independent
/// of the order in which addresses arrive.
pub proof fn lemma_added_set_permutation(s1: Seq<Seq<u8>>, s2: Seq<Seq<u8>>, z: bool, b: bool)
    requires
        s1.to_multiset() == s2.to_multiset(),
    ensures
        added_set(s1, z, b) == added_set(s2, z, b),
{
    broadcast use vstd::seq_lib::group_seq_properties;

    assert forall|x: Seq<u8>| #[trigger] added_set(s1, z, b).contains(x) == added_set(
        s2,
        z,
        b,
    ).contains(x) by {
        lemma_added_set_member(s1, z, b, x);
        lemma_added_set_member(s2, z, b, x);
        if added_set(s1, z, b).contains(x) {
            let t = choose|t: Seq<u8>| #[trigger] s1.contains(t) && head_clauses(x, t, z, b);
            assert(s1.to_multiset().contains(t));
            assert(s2.to_multiset().contains(t));
            assert(s2.contains(t) && head_clauses(x, t, z, b));
        }
        if added_set(s2, z, b).contains(x) {
            let t = choose|t: Seq<u8>| #[trigger] s2.contains(t) && head_clauses(x, t, z, b);
            assert(s2.to_multiset().contains(t));
            assert(s1.to_multiset().contains(t));
            assert(s1.contains(t) && head_clauses(x, t, z, b));
        }
    }
    assert(added_set(s1, z, b) =~= added_set(s2, z, b));
}

/// With seeding off an insertion covers exactly the inserted address:
/// nothing beyond the inserted set is ever reported.
pub proof fn lemma_step_set_exact(target: Seq<u8>, p: Seq<u8>)
    ensures
        step_set(target, false, false).contains(p) <==> p == target,
{
}


// ---------------------------------------------------------------------------
// What an emitted pair covers
// ---------------------------------------------------------------------------

/// Whether an emitted pair covers a 32-bit address.
pub open spec fn pair_covers(pr: (u32, u8), addr: int) -> bool {
    pr.1 <= 32 && pr.0 <= addr < pr.0 + pow2((32 - pr.1) as nat)
}

proof fn lemma_ilog2_half(x: int)
    requires
        x >= 2,
    ensures
        ilog2(x) == 1 + ilog2(x / 2),
{
}

proof fn lemma_ilog2_unique(x: int, e: int)
    requires
        x >= 1,
        e >= 0,
        pow2(e as nat) <= x < 2 * pow2(e as nat),
    ensures
        ilog2(x) == e,
    decreases x,
{
    lemma_pow2_pos(e as nat);
    if e == 0 {
        lemma2_to64();
    } else {
        lemma_pow2_unfold(e as nat);
        assert(pow2((e - 1) as nat) <= x / 2 < 2 * pow2((e - 1) as nat));
        lemma_ilog2_unique(x / 2, e - 1);
    }
}

/// Walking to an ancestor is division by the depth difference.
proof fn lemma_on_path_div(x: int, p: int)
    requires
        x >= 1,
        p >= 1,
        on_path(x, p),
    ensures
        ilog2(x) >= ilog2(p),
        x / (pow2((ilog2(x) - ilog2(p)) as nat) as int) == p,
    decreases x,
{
    if x == p {
        lemma2_to64();
        assert(pow2((ilog2(x) - ilog2(p)) as nat) == 1);
        assert(x / 1int == x);
    } else {
        lemma_on_path_le(x, p);
        assert(x >= 2) by {
            if x == 1 {
                assert(p == 1);
            }
        }
        lemma_on_path_div(x / 2, p);
        lemma_ilog2_half(x);
        let dd = ilog2(x / 2) - ilog2(p);
        lemma_pow2_pos(dd as nat);
        vstd::arithmetic::div_mod::lemma_div_denominator(x, 2, pow2(dd as nat) as int);
        assert(2 * pow2(dd as nat) == pow2((dd + 1) as nat)) by {
            lemma_pow2_unfold((dd + 1) as nat);
        }
        assert(x / (pow2((dd + 1) as nat) as int) == (x / 2) / (pow2(dd as nat) as int));
        assert(ilog2(x) - ilog2(p) == dd + 1);
        assert(x / (pow2((ilog2(x) - ilog2(p)) as nat) as int) == p);
    }
}

/// And conversely, every division stop lies on the chain.
proof fn lemma_div_on_path(x: int, k: int)
    requires
        x >= 1,
        k >= 0,
        x / (pow2(k as nat) as int) >= 1,
    ensures
        on_path(x, x / (pow2(k as nat) as int)),
    decreases k,
{
    if k == 0 {
        lemma2_to64();
        assert(x / (pow2(0) as int) == x);
    } else {
        lemma_pow2_pos((k - 1) as nat);
        vstd::arithmetic::div_mod::lemma_div_denominator(x, 2, pow2((k - 1) as nat) as int);
        assert(2 * pow2((k - 1) as nat) == pow2(k as nat)) by {
            lemma_pow2_unfold(k as nat);
        }
        assert(x / (pow2(k as nat) as int) == (x / 2) / (pow2((k - 1) as nat) as int));
        if x >= 2 {
            lemma_div_on_path(x / 2, k - 1);
            let q = x / (pow2(k as nat) as int);
            assert(on_path(x / 2, q));
            assert(q <= x / 2) by {
                lemma_on_path_le(x / 2, q);
            }
        } else {
            lemma_pow2_pos(k as nat);
            assert(pow2(k as nat) >= 2) by {
                vstd::arithmetic::power2::lemma_pow2_strictly_increases(0, k as nat);
                lemma2_to64();
            }
            assert(x / (pow2(k as nat) as int) == 0) by {
                vstd::arithmetic::div_mod::lemma_basic_div(x, pow2(k as nat) as int);
            }
        }
    }
}

/// Two ancestors of one position sit on one chain themselves.
proof fn lemma_on_path_common(x: int, p: int, q: int)
    requires
        on_path(x, p),
        on_path(x, q),
    ensures
        on_path(p, q) || on_path(q, p),
    decreases x,
{
    if x == p || x == q {
    } else {
        lemma_on_path_common(x / 2, p, q);
    }
}

/// A position's block is exactly the octet range its chain reaches.
pub proof fn lemma_block_path(w: int, p: int)
    requires
        0 <= w < 256,
        1 <= p < 512,
    ensures
        on_path(256 + w, p) <==> (block_lo(p) <= w < block_lo(p) + block_size(p)),
{
    let d = ilog2(p);
    lemma_ilog2_bounds(p);
    let k = (8 - d) as nat;
    lemma_pow2_pos(k);
    lemma_pow2_pos(d as nat);
    vstd::arithmetic::power2::lemma_pow2_adds(d as nat, k);
    lemma2_to64();
    assert(pow2(d as nat) * (pow2(k) as int) == 256);
    lemma_ilog2_unique(256 + w, 8);
    // the block bounds in address form
    assert(block_lo(p) == p * (pow2(k) as int) - 256) by (nonlinear_arith)
        requires
            block_lo(p) == (p - pow2(d as nat)) * (pow2(k) as int) && pow2(d as nat) * (pow2(k) as int) == 256,
    ;
    assert(block_size(p) == pow2(k));
    if on_path(256 + w, p) {
        lemma_on_path_div(256 + w, p);
        assert((256 + w) / (pow2(k) as int) == p);
        assert(p * (pow2(k) as int) <= 256 + w < (p + 1) * (pow2(k) as int)) by (nonlinear_arith)
            requires
                (256 + w) / (pow2(k) as int) == p,
                pow2(k) > 0,
                256 + w >= 0,
        ;
        assert((p + 1) * (pow2(k) as int) == p * (pow2(k) as int) + pow2(k)) by (nonlinear_arith);
        assert(block_lo(p) <= w);
        assert(w < block_lo(p) + block_size(p));
    }
    if block_lo(p) <= w < block_lo(p) + block_size(p) {
        assert(p * (pow2(k) as int) <= 256 + w) by {
            assert(block_lo(p) == p * (pow2(k) as int) - 256);
        }
        assert((p + 1) * (pow2(k) as int) == p * (pow2(k) as int) + pow2(k)) by (nonlinear_arith);
        assert(256 + w < (p + 1) * (pow2(k) as int)) by {
            assert(w < block_lo(p) + block_size(p));
        }
        assert((256 + w) / (pow2(k) as int) == p) by (nonlinear_arith)
            requires
                p * (pow2(k) as int) <= 256 + w,
                256 + w < (p + 1) * (pow2(k) as int),
                pow2(k) > 0,
        ;
        lemma_div_on_path(256 + w, 8 - d);
        assert(on_path(256 + w, p));
    }
}

/// The blocks of two distinct set positions of a canonical bitmap are
/// disjoint, and an octet is covered exactly when a set position's block
/// holds it.
pub proof fn lemma_covered_block(heap: Seq<u64>, w: int)
    requires
        heap_wf(heap),
        0 <= w < 256,
    ensures
        covers(heap, w) <==> exists|p: int|
            1 <= p < 512 && #[trigger] pos_set(heap, p) && block_lo(p) <= w < block_lo(p)
                + block_size(p),
{
    if covers(heap, w) {
        lemma_covered_has_bit(heap, 256 + w);
        let p = choose|p: int| on_path(256 + w, p) && pos_set(heap, p);
        lemma_on_path_le(256 + w, p);
        lemma_block_path(w, p);
    }
    if exists|p: int|
        1 <= p < 512 && #[trigger] pos_set(heap, p) && block_lo(p) <= w < block_lo(p)
            + block_size(p) {
        let p = choose|p: int|
            1 <= p < 512 && #[trigger] pos_set(heap, p) && block_lo(p) <= w < block_lo(p)
                + block_size(p);
        lemma_block_path(w, p);
        lemma_on_path_set_covered(heap, 256 + w, p);
    }
}

/// Under the one-representative invariant, no octet lies in the blocks
/// of two distinct set positions.
pub proof fn lemma_blocks_disjoint(heap: Seq<u64>, p: int, q: int, w: int)
    requires
        heap_wf(heap),
        pos_set(heap, p),
        pos_set(heap, q),
        p != q,
        0 <= w < 256,
    ensures
        !(block_lo(p) <= w < block_lo(p) + block_size(p) && block_lo(q) <= w < block_lo(q)
            + block_size(q)),
{
    assert(1 <= p < 512 && 1 <= q < 512) by {
        assert(!pos_set(heap, 0));
    }
    if block_lo(p) <= w < block_lo(p) + block_size(p) && block_lo(q) <= w < block_lo(q)
        + block_size(q) {
        lemma_block_path(w, p);
        lemma_block_path(w, q);
        lemma_on_path_common(256 + w, p, q);
        if on_path(p, q) {
            assert(p != q);
            assert(on_path(p / 2, q));
            lemma_on_path_set_covered(heap, p / 2, q);
        } else {
            assert(q != p);
            assert(on_path(q / 2, p));
            lemma_on_path_set_covered(heap, q / 2, p);
        }
    }
}


/// Some pair of the sequence covers the address.
pub open spec fn some_pair_covers(ps: Seq<(u32, u8)>, addr: int) -> bool {
    exists|i: int| 0 <= i < ps.len() && pair_covers(#[trigger] ps[i], addr)
}

/// No address is covered by two different pairs of the sequence.
pub open spec fn pairs_disjoint(ps: Seq<(u32, u8)>) -> bool {
    forall|i: int, j: int, addr: int|
        #![trigger pair_covers(ps[i], addr), pair_covers(ps[j], addr)]
        0 <= i < j < ps.len() ==> !(pair_covers(ps[i], addr) && pair_covers(ps[j], addr))
}

/// A prefix whose low `e` bits are clear.
pub open spec fn aligned_to(a: u32, e: int) -> bool {
    0 <= e <= 32 && (a as int) % (pow2(e as nat) as int) == 0
}

proof fn lemma_block_bounds(p: int)
    requires
        1 <= p < 512,
    ensures
        0 <= block_lo(p),
        1 <= block_size(p),
        block_lo(p) + block_size(p) <= 256,
{
    let d = ilog2(p);
    lemma_ilog2_bounds(p);
    let k = (8 - d) as nat;
    lemma_pow2_pos(k);
    lemma_pow2_pos(d as nat);
    vstd::arithmetic::power2::lemma_pow2_adds(d as nat, k);
    lemma2_to64();
    assert(pow2(d as nat) * pow2(k) == 256);
    assert(block_lo(p) >= 0) by (nonlinear_arith)
        requires
            block_lo(p) == (p - pow2(d as nat)) * (pow2(k) as int),
            p >= pow2(d as nat),
            pow2(k) > 0,
    ;
    assert(block_lo(p) + block_size(p) <= 256) by (nonlinear_arith)
        requires
            block_lo(p) == (p - pow2(d as nat)) * (pow2(k) as int),
            block_size(p) == pow2(k) as int,
            p < 2 * pow2(d as nat),
            pow2(d as nat) * pow2(k) == 256,
            pow2(k) > 0,
    ;
}

proof fn bv_or_is_plus(a: u32, b: u32, s: u32)
    by (bit_vector)
    requires
        s <= 24,
        b < 256,
        (a as u64) % (1u64 << ((s + 8) as u64)) == 0,
    ensures
        (a | (b << s)) as int == a as int + (b as int) * ((1u32 << s) as int),
{
}

/// What one emitted pair covers: the address block of its position,
/// relative to the node's accumulated prefix.
proof fn lemma_cidr_pair_block(cp: u32, cm: u8, p: int, addr: int)
    requires
        1 <= p < 512,
        8 <= cm <= 24,
        aligned_to(cp, 32 - cm),
    ensures
        pair_covers(cidr_pair(cp, cm, p), addr) <==> (cp + block_lo(p) * (pow2(
            (24 - cm) as nat,
        ) as int) <= addr < cp + (block_lo(p) + block_size(p)) * (pow2((24 - cm) as nat) as int)),
{
    let d = ilog2(p);
    lemma_ilog2_bounds(p);
    lemma_block_bounds(p);
    let s = (24 - cm) as u32;
    let unit = pow2((24 - cm) as nat) as int;
    vstd::bits::lemma_u32_pow2_no_overflow(s as nat);
    vstd::bits::lemma_u64_pow2_no_overflow((s + 8) as nat);
    vstd::bits::lemma_u32_shl_is_mul(1u32, s);
    vstd::bits::lemma_u64_shl_is_mul(1u64, (s + 8) as u64);
    vstd::arithmetic::power2::lemma_pow2_adds((24 - cm) as nat, 8);
    assert((1u32 << s) as int == unit);
    assert((1u64 << ((s + 8) as u64)) as int == pow2((32 - cm) as nat) as int);
    assert((cp as u64) % (1u64 << ((s + 8) as u64)) == 0) by {
        assert((cp as u64) as int == cp as int);
    }
    bv_or_is_plus(cp, block_lo(p) as u32, s);
    let ip = cidr_pair(cp, cm, p).0;
    assert(ip as int == cp as int + block_lo(p) * unit) by {
        assert((block_lo(p) as u32) as int == block_lo(p));
        assert((block_lo(p) as u32) < 256);
    }
    let m = cidr_pair(cp, cm, p).1;
    assert(m as int == cm + d);
    assert(m <= 32);
    // the span of the pair equals the block width in addresses
    assert(pow2((32 - m) as nat) as int == block_size(p) * unit) by {
        vstd::arithmetic::power2::lemma_pow2_adds((8 - d) as nat, (24 - cm) as nat);
        assert((32 - m) as nat == ((8 - d) + (24 - cm)) as nat);
        assert(pow2((32 - m) as nat) == pow2((8 - d) as nat) * pow2((24 - cm) as nat));
        lemma_pow2_pos((8 - d) as nat);
        lemma_pow2_pos((24 - cm) as nat);
        assert(block_size(p) == pow2((8 - d) as nat) as int);
        assert((pow2((8 - d) as nat) * pow2((24 - cm) as nat)) as int == (pow2(
            (8 - d) as nat,
        ) as int) * (pow2((24 - cm) as nat) as int)) by (nonlinear_arith);
    }
    assert(cp as int + (block_lo(p) + block_size(p)) * unit == ip as int + block_size(p)
        * unit) by (nonlinear_arith)
        requires
            ip as int == cp as int + block_lo(p) * unit,
    ;
}


proof fn lemma_block_div(lo: int, sz: int, unit: int, r: int)
    by (nonlinear_arith)
    requires
        unit > 0,
        lo * unit <= r < (lo + sz) * unit,
    ensures
        lo <= r / unit < lo + sz,
{
}

proof fn lemma_div_block(lo: int, sz: int, unit: int, r: int)
    by (nonlinear_arith)
    requires
        unit > 0,
        r >= 0,
        lo <= r / unit < lo + sz,
    ensures
        lo * unit <= r < (lo + sz) * unit,
{
}

/// The pairs scanned out of one bitmap so far: each is the address block
/// of one set position, the blocks of different pairs are disjoint, and
/// together they cover exactly the addresses whose octet is covered by a
/// position already scanned.
proof fn lemma_heap_pairs_cover(h: Seq<u64>, cp: u32, cm: u8, n: int)
    requires
        heap_wf(h),
        8 <= cm <= 24,
        aligned_to(cp, 32 - cm),
        1 <= n <= 512,
    ensures
        forall|i: int|
            0 <= i < heap_pairs_upto(h, cp, cm, n).len() ==> exists|p: int|
                1 <= p < n && pos_set(h, p) && #[trigger] heap_pairs_upto(h, cp, cm, n)[i]
                    == cidr_pair(cp, cm, p),
        forall|addr: int|
            #[trigger] some_pair_covers(heap_pairs_upto(h, cp, cm, n), addr) <==> exists|p: int|
                1 <= p < n && #[trigger] pos_set(h, p) && cp + block_lo(p) * (pow2(
                    (24 - cm) as nat,
                ) as int) <= addr < cp + (block_lo(p) + block_size(p)) * (pow2(
                    (24 - cm) as nat,
                ) as int),
        pairs_disjoint(heap_pairs_upto(h, cp, cm, n)),
    decreases n,
{
    let unit = pow2((24 - cm) as nat) as int;
    lemma_pow2_pos((24 - cm) as nat);
    if n == 1 {
        assert(heap_pairs_upto(h, cp, cm, 1).len() == 0);
    } else {
        lemma_heap_pairs_cover(h, cp, cm, n - 1);
        let prev = heap_pairs_upto(h, cp, cm, n - 1);
        let cur = heap_pairs_upto(h, cp, cm, n);
        if pos_set(h, n - 1) {
            assert(cur =~= prev.push(cidr_pair(cp, cm, n - 1)));
            let np = cidr_pair(cp, cm, n - 1);
            lemma_block_bounds(n - 1);
            // membership of every pair
            assert forall|i: int| 0 <= i < cur.len() implies exists|p: int|
                1 <= p < n && pos_set(h, p) && #[trigger] cur[i] == cidr_pair(cp, cm, p) by {
                if i < prev.len() {
                    assert(cur[i] == prev[i]);
                    let p = choose|p: int|
                        1 <= p < n - 1 && pos_set(h, p) && #[trigger] prev[i] == cidr_pair(
                            cp,
                            cm,
                            p,
                        );
                    assert(1 <= p < n && pos_set(h, p) && cur[i] == cidr_pair(cp, cm, p));
                } else {
                    assert(cur[i] == np);
                    assert(1 <= n - 1 < n && pos_set(h, n - 1) && cur[i] == cidr_pair(
                        cp,
                        cm,
                        n - 1,
                    ));
                }
            }
            // coverage
            assert forall|addr: int|
                #[trigger] some_pair_covers(cur, addr) <==> exists|p: int|
                    1 <= p < n && #[trigger] pos_set(h, p) && cp + block_lo(p) * unit <= addr
                        < cp + (block_lo(p) + block_size(p)) * unit by {
                lemma_cidr_pair_block(cp, cm, n - 1, addr);
                if some_pair_covers(cur, addr) {
                    let i = choose|i: int| 0 <= i < cur.len() && pair_covers(#[trigger] cur[i], addr);
                    if i < prev.len() {
                        assert(pair_covers(prev[i], addr));
                        assert(some_pair_covers(prev, addr));
                    } else {
                        assert(pair_covers(np, addr));
                        assert(pos_set(h, n - 1));
                    }
                }
                if exists|p: int|
                    1 <= p < n && #[trigger] pos_set(h, p) && cp + block_lo(p) * unit <= addr
                        < cp + (block_lo(p) + block_size(p)) * unit {
                    let p = choose|p: int|
                        1 <= p < n && #[trigger] pos_set(h, p) && cp + block_lo(p) * unit
                            <= addr < cp + (block_lo(p) + block_size(p)) * unit;
                    if p < n - 1 {
                        assert(some_pair_covers(prev, addr));
                        let i = choose|i: int|
                            0 <= i < prev.len() && pair_covers(#[trigger] prev[i], addr);
                        assert(pair_covers(cur[i], addr));
                        assert(some_pair_covers(cur, addr));
                    } else {
                        assert(pair_covers(np, addr));
                        assert(pair_covers(cur[cur.len() - 1], addr));
                        assert(some_pair_covers(cur, addr));
                    }
                }
            }
            // disjointness
            assert forall|i: int, j: int, addr: int|
                #![trigger pair_covers(cur[i], addr), pair_covers(cur[j], addr)]
                0 <= i < j < cur.len() implies !(pair_covers(cur[i], addr) && pair_covers(
                cur[j],
                addr,
            )) by {
                if pair_covers(cur[i], addr) && pair_covers(cur[j], addr) {
                    if j < prev.len() {
                        assert(pair_covers(prev[i], addr) && pair_covers(prev[j], addr));
                    } else {
                        let p = choose|p: int|
                            1 <= p < n - 1 && pos_set(h, p) && #[trigger] prev[i] == cidr_pair(
                                cp,
                                cm,
                                p,
                            );
                        lemma_block_bounds(p);
                        lemma_cidr_pair_block(cp, cm, p, addr);
                        lemma_cidr_pair_block(cp, cm, n - 1, addr);
                        let r = addr - cp;
                        let w = r / unit;
                        lemma_block_div(block_lo(p), block_size(p), unit, r);
                        lemma_block_div(block_lo(n - 1), block_size(n - 1), unit, r);
                        assert(0 <= w < 256);
                        lemma_blocks_disjoint(h, p, n - 1, w);
                    }
                }
            }
        } else {
            assert(cur =~= prev);
            assert forall|addr: int|
                #[trigger] some_pair_covers(cur, addr) <==> exists|p: int|
                    1 <= p < n && #[trigger] pos_set(h, p) && cp + block_lo(p) * unit <= addr
                        < cp + (block_lo(p) + block_size(p)) * unit by {
                if exists|p: int|
                    1 <= p < n && #[trigger] pos_set(h, p) && cp + block_lo(p) * unit <= addr
                        < cp + (block_lo(p) + block_size(p)) * unit {
                    let p = choose|p: int|
                        1 <= p < n && #[trigger] pos_set(h, p) && cp + block_lo(p) * unit
                            <= addr < cp + (block_lo(p) + block_size(p)) * unit;
                    assert(p != n - 1);
                }
            }
        }
    }
}

/// One bitmap's pairs partition its window: they are pairwise disjoint
/// and cover exactly the addresses whose octet within the window is
/// covered by the bitmap.
proof fn lemma_heap_pairs_partition(h: Seq<u64>, cp: u32, cm: u8)
    requires
        heap_wf(h),
        8 <= cm <= 24,
        aligned_to(cp, 32 - cm),
    ensures
        forall|addr: int|
            #[trigger] some_pair_covers(heap_pairs(h, cp, cm), addr) <==> (cp <= addr < cp
                + pow2((32 - cm) as nat) && covers(
                h,
                (addr - cp) / (pow2((24 - cm) as nat) as int),
            )),
        pairs_disjoint(heap_pairs(h, cp, cm)),
{
    let unit = pow2((24 - cm) as nat) as int;
    lemma_pow2_pos((24 - cm) as nat);
    vstd::arithmetic::power2::lemma_pow2_adds((24 - cm) as nat, 8);
    lemma2_to64();
    assert(pow2((32 - cm) as nat) as int == 256 * unit) by (nonlinear_arith)
        requires
            unit == pow2((24 - cm) as nat) as int,
            pow2((32 - cm) as nat) == pow2((24 - cm) as nat) * pow2(8),
            pow2(8) == 256,
    ;
    lemma_heap_pairs_cover(h, cp, cm, 512);
    assert forall|addr: int|
        #[trigger] some_pair_covers(heap_pairs(h, cp, cm), addr) <==> (cp <= addr < cp + pow2(
        (32 - cm) as nat,
    ) && covers(h, (addr - cp) / unit)) by {
        let r = addr - cp;
        let w = r / unit;
        if some_pair_covers(heap_pairs(h, cp, cm), addr) {
            let p = choose|p: int|
                1 <= p < 512 && #[trigger] pos_set(h, p) && cp + block_lo(p) * unit <= addr
                    < cp + (block_lo(p) + block_size(p)) * unit;
            lemma_block_bounds(p);
            lemma_block_div(block_lo(p), block_size(p), unit, r);
            assert(0 <= w < 256);
            assert(addr < cp + 256 * unit) by (nonlinear_arith)
                requires
                    addr < cp + (block_lo(p) + block_size(p)) * unit,
                    block_lo(p) + block_size(p) <= 256,
                    unit > 0,
            ;
            lemma_covered_block(h, w);
        }
        if cp <= addr < cp + pow2((32 - cm) as nat) && covers(h, w) {
            assert(0 <= w < 256) by (nonlinear_arith)
                requires
                    0 <= r < 256 * unit,
                    w == r / unit,
                    unit > 0,
            ;
            lemma_covered_block(h, w);
            let p = choose|p: int|
                1 <= p < 512 && #[trigger] pos_set(h, p) && block_lo(p) <= w < block_lo(p)
                    + block_size(p);
            lemma_block_bounds(p);
            lemma_div_block(block_lo(p), block_size(p), unit, r);
            assert(1 <= p < 512 && pos_set(h, p) && cp + block_lo(p) * unit <= addr < cp + (
            block_lo(p) + block_size(p)) * unit);
        }
    }
}


/// The octets of a window-relative address, most significant first.
pub open spec fn suffix_octets(rest: int, depth: int) -> Seq<u8> {
    Seq::new(
        depth as nat,
        |j: int| ((rest / (pow2(((depth - 1 - j) * 8) as nat) as int)) % 256) as u8,
    )
}

/// How many octets of an address a subtree consumes.
pub open spec fn node_depth_octets(n: OctetNode) -> int {
    match n {
        OctetNode::Last(_) => 1,
        OctetNode::Standard(s) => s.level as int + 2,
    }
}

/// Splitting off the leading octet of a window-relative address.
proof fn lemma_suffix_split(rest: int, depth: int)
    requires
        depth >= 2,
        0 <= rest < pow2((8 * depth) as nat),
    ensures
        0 <= rest / (pow2((8 * (depth - 1)) as nat) as int) < 256,
        suffix_octets(rest, depth) == seq![
            ((rest / (pow2((8 * (depth - 1)) as nat) as int)) % 256) as u8,
        ] + suffix_octets(
            rest - (rest / (pow2((8 * (depth - 1)) as nat) as int)) * (pow2(
                (8 * (depth - 1)) as nat,
            ) as int),
            depth - 1,
        ),
{
    let big = pow2((8 * (depth - 1)) as nat) as int;
    lemma_pow2_pos((8 * (depth - 1)) as nat);
    let w0 = rest / big;
    vstd::arithmetic::power2::lemma_pow2_adds((8 * (depth - 1)) as nat, 8);
    lemma2_to64();
    assert(pow2((8 * depth) as nat) as int == big * 256) by (nonlinear_arith)
        requires
            pow2((8 * depth) as nat) == pow2((8 * (depth - 1)) as nat) * pow2(8),
            big == pow2((8 * (depth - 1)) as nat) as int,
            pow2(8) == 256,
    ;
    assert(0 <= w0 < 256) by (nonlinear_arith)
        requires
            0 <= rest < big * 256,
            w0 == rest / big,
            big > 0,
    ;
    let tail_rest = rest - w0 * big;
    vstd::arithmetic::div_mod::lemma_fundamental_div_mod(rest, big);
    assert(tail_rest == rest % big);
    vstd::arithmetic::div_mod::lemma_mod_bound(rest, big);
    assert(0 <= tail_rest < big);
    let lhs = suffix_octets(rest, depth);
    let rhs = seq![((rest / big) % 256) as u8] + suffix_octets(tail_rest, depth - 1);
    assert forall|j: int| 0 <= j < depth implies lhs[j] == rhs[j] by {
        let e = ((depth - 1 - j) * 8) as nat;
        lemma_pow2_pos(e);
        if j == 0 {
            assert(e == (8 * (depth - 1)) as nat);
            assert(lhs[0] == ((rest / big) % 256) as u8);
        } else {
            // the leading octet is a multiple of 256 at this scale and
            // falls out of the remainder
            let eu = pow2(e) as int;
            assert(8 * (depth - 1) - e >= 8) by {
                assert(e <= ((depth - 2) * 8) as nat);
            }
            vstd::arithmetic::power2::lemma_pow2_adds(e, ((8 * (depth - 1)) - e) as nat);
            let q = pow2(((8 * (depth - 1)) - e) as nat) as int;
            assert(big == eu * q) by (nonlinear_arith)
                requires
                    pow2((8 * (depth - 1)) as nat) == pow2(e) * pow2(
                        ((8 * (depth - 1)) - e) as nat,
                    ),
                    big == pow2((8 * (depth - 1)) as nat) as int,
                    eu == pow2(e) as int,
                    q == pow2(((8 * (depth - 1)) - e) as nat) as int,
            ;
            vstd::arithmetic::div_mod::lemma_hoist_over_denominator(
                tail_rest,
                w0 * q,
                eu as nat,
            );
            assert(tail_rest / eu + (w0 * q) == (tail_rest + (w0 * q) * eu) / eu);
            assert(tail_rest + (w0 * q) * eu == rest) by (nonlinear_arith)
                requires
                    rest == w0 * big + tail_rest,
                    big == eu * q,
            ;
            assert(rest / eu == w0 * q + tail_rest / eu);
            // q carries a factor 256
            vstd::arithmetic::power2::lemma_pow2_adds(8, (((8 * (depth - 1)) - e) - 8) as nat);
            let q2 = pow2((((8 * (depth - 1)) - e) - 8) as nat) as int;
            assert(q == 256 * q2) by (nonlinear_arith)
                requires
                    pow2(((8 * (depth - 1)) - e) as nat) == pow2(8) * pow2(
                        (((8 * (depth - 1)) - e) - 8) as nat,
                    ),
                    q == pow2(((8 * (depth - 1)) - e) as nat) as int,
                    q2 == pow2((((8 * (depth - 1)) - e) - 8) as nat) as int,
                    pow2(8) == 256,
            ;
            assert(rest / eu == 256 * (w0 * q2) + tail_rest / eu) by (nonlinear_arith)
                requires
                    rest / eu == w0 * q + tail_rest / eu,
                    q == 256 * q2,
            ;
            vstd::arithmetic::div_mod::lemma_mod_multiples_vanish(
                w0 * q2,
                tail_rest / eu,
                256,
            );
            assert((rest / eu) % 256 == (tail_rest / eu) % 256);
            assert(rhs[j] == ((tail_rest / (pow2((((depth - 1) - 1 - (j - 1)) * 8) as nat) as int))
                % 256) as u8);
            assert((((depth - 1) - 1 - (j - 1)) * 8) as nat == e);
        }
    }
    assert(lhs =~= rhs);
}


proof fn lemma_find_child_exists(sub: Seq<(u8, OctetNode)>, w: u8)
    requires
        find_child(sub, w) is Some,
    ensures
        exists|i: int|
            0 <= i < sub.len() && (#[trigger] sub[i]).0 == w && sub[i].1 == find_child(
                sub,
                w,
            ).unwrap(),
    decreases sub.len(),
{
    if sub.len() > 0 {
        if sub[0].0 == w {
        } else {
            lemma_find_child_exists(sub.drop_first(), w);
            let i = choose|i: int|
                0 <= i < sub.drop_first().len() && (#[trigger] sub.drop_first()[i]).0 == w
                    && sub.drop_first()[i].1 == find_child(sub.drop_first(), w).unwrap();
            assert(sub[i + 1] == sub.drop_first()[i]);
        }
    }
}

proof fn lemma_aligned_weaken(a: int, e: nat, f: nat)
    requires
        f <= e,
        a >= 0,
        a % (pow2(e) as int) == 0,
    ensures
        a % (pow2(f) as int) == 0,
{
    lemma_pow2_pos(e);
    lemma_pow2_pos(f);
    vstd::arithmetic::power2::lemma_pow2_adds(f, (e - f) as nat);
    let q = a / (pow2(e) as int);
    vstd::arithmetic::div_mod::lemma_fundamental_div_mod(a, pow2(e) as int);
    assert(a == (pow2(f) as int) * (q * (pow2((e - f) as nat) as int))) by (nonlinear_arith)
        requires
            a == (pow2(e) as int) * q,
            pow2(e) == pow2(f) * pow2((e - f) as nat),
    ;
    vstd::arithmetic::div_mod::lemma_mod_multiples_basic(
        q * (pow2((e - f) as nat) as int),
        pow2(f) as int,
    );
}

/// The shape a node must have to stand at walk mask `mask`, and the
/// facts the partition argument needs about its inside.
pub open spec fn walk_part_pre(n: OctetNode, mask: u8) -> bool {
    match n {
        OctetNode::Last(l) => heap_wf(l.heap@) && mask == 16,
        OctetNode::Standard(s) => std_wf(s) && mask as int + 8 * (s.level as int) == 8,
    }
}

/// One child window of the table entry `i`, as seen from the caller.
pub open spec fn child_slot_covers(
    sub: Seq<(u8, OctetNode)>,
    pfx: int,
    pmask: int,
    i: int,
    addr: int,
) -> bool {
    let unit = pow2((24 - pmask) as nat) as int;
    let ccp = pfx + (sub[i].0 as int) * unit;
    &&& ccp <= addr < ccp + unit
    &&& node_covers(sub[i].1, suffix_octets(addr - ccp, node_depth_octets(sub[i].1)))
}

/// The pairs of one subtree partition its window: they are pairwise
/// disjoint and cover exactly the addresses of the window whose
/// remaining octets the subtree covers.
proof fn lemma_node_pairs_partition(n: OctetNode, prefix: u32, mask: u8)
    requires
        walk_part_pre(n, mask),
        aligned_to(prefix, 32 - mask as int),
    ensures
        pairs_disjoint(node_pairs(n, prefix, mask)),
        (child_prefix(prefix, node_octet(n), mask) as int) == prefix as int + (node_octet(
            n,
        ) as int) * (pow2((24 - mask) as nat) as int),
        forall|addr: int|
            #[trigger] some_pair_covers(node_pairs(n, prefix, mask), addr) <==> ((child_prefix(
                prefix,
                node_octet(n),
                mask,
            ) as int) <= addr < (child_prefix(prefix, node_octet(n), mask) as int) + pow2(
                (24 - mask as int) as nat,
            ) && node_covers(
                n,
                suffix_octets(
                    addr - (child_prefix(prefix, node_octet(n), mask) as int),
                    node_depth_octets(n),
                ),
            )),
    decreases node_depth(n), 0int, 0int,
{
    let s32 = (24 - mask) as u32;
    let unit = pow2((24 - mask) as nat) as int;
    lemma_pow2_pos((24 - mask) as nat);
    vstd::bits::lemma_u32_pow2_no_overflow(s32 as nat);
    vstd::bits::lemma_u64_pow2_no_overflow((s32 + 8) as nat);
    vstd::bits::lemma_u32_shl_is_mul(1u32, s32);
    vstd::bits::lemma_u64_shl_is_mul(1u64, (s32 + 8) as u64);
    assert((prefix as u64) % (1u64 << ((s32 + 8) as u64)) == 0) by {
        assert((prefix as u64) as int == prefix as int);
        assert((1u64 << ((s32 + 8) as u64)) as int == pow2((32 - mask as int) as nat) as int);
    }
    bv_or_is_plus(prefix, node_octet(n) as u32, s32);
    let cpw = child_prefix(prefix, node_octet(n), mask);
    assert(cpw as int == prefix as int + (node_octet(n) as int) * unit);
    // the window start inherits the coarser alignment
    assert(aligned_to(cpw, 24 - mask as int)) by {
        lemma_aligned_weaken(prefix as int, (32 - mask as int) as nat, (24 - mask as int) as nat);
        vstd::arithmetic::div_mod::lemma_mod_multiples_vanish(
            node_octet(n) as int,
            prefix as int,
            unit,
        );
        assert((unit * (node_octet(n) as int) + prefix as int) % unit == (prefix as int) % unit);
        assert(cpw as int == unit * (node_octet(n) as int) + prefix as int) by (nonlinear_arith)
            requires
                cpw as int == prefix as int + (node_octet(n) as int) * unit,
        ;
    }
    match n {
        OctetNode::Last(l) => {
            lemma_heap_pairs_partition(l.heap@, cpw, 24);
            assert(node_pairs(n, prefix, mask) == heap_pairs(l.heap@, cpw, 24));
            lemma2_to64();
            assert forall|addr: int|
                #[trigger] some_pair_covers(node_pairs(n, prefix, mask), addr) <==> ((cpw as int)
                    <= addr < (cpw as int) + pow2((24 - mask as int) as nat) && node_covers(
                    n,
                    suffix_octets(addr - (cpw as int), 1),
                )) by {
                let rest = addr - (cpw as int);
                if 0 <= rest < 256 {
                    vstd::arithmetic::div_mod::lemma_small_mod(rest as nat, 256);
                    assert(suffix_octets(rest, 1)[0] == rest as u8);
                    assert(suffix_octets(rest, 1).len() == 1);
                    assert((addr - (cpw as int)) / (pow2(0) as int) == rest);
                }
            }
        },
        OctetNode::Standard(s) => {
            let cm = (mask + 8) as u8;
            lemma_heap_pairs_partition(s.heap@, cpw, cm);
            let hp = heap_pairs(s.heap@, cpw, cm);
            let chp = children_pairs_upto(s.subnodes@, cpw, cm, s.subnodes@.len() as int);
            assert(node_pairs(n, prefix, mask) == hp + chp);
            let depth = s.level as int + 2;
            let sub_unit = pow2((24 - cm as int) as nat) as int;
            lemma_pow2_pos((24 - cm as int) as nat);
            vstd::arithmetic::power2::lemma_pow2_adds((24 - cm as int) as nat, 8);
            lemma2_to64();
            assert(unit == 256 * sub_unit) by (nonlinear_arith)
                requires
                    pow2((24 - mask as int) as nat) == pow2((24 - cm as int) as nat) * pow2(8),
                    unit == pow2((24 - mask as int) as nat) as int,
                    sub_unit == pow2((24 - cm as int) as nat) as int,
                    pow2(8) == 256,
            ;
            assert(sub_unit == pow2((8 * (depth - 1)) as nat) as int);
            assert(unit == pow2((8 * depth) as nat) as int) by {
                vstd::arithmetic::power2::lemma_pow2_adds((8 * (depth - 1)) as nat, 8);
                assert(pow2((8 * depth) as nat) == pow2((8 * (depth - 1)) as nat) * pow2(8));
                assert(pow2((8 * (depth - 1)) as nat) * pow2(8) == 256 * pow2(
                    (8 * (depth - 1)) as nat,
                )) by (nonlinear_arith)
                    requires
                        pow2(8) == 256,
                ;
            }
            lemma_children_partition(
                s.subnodes@,
                cpw,
                cm,
                s.subnodes@.len() as int,
                s.level as int,
                s.seed_zeroed,
                s.seed_broadcast,
            );
            // union
            assert forall|addr: int|
                #[trigger] some_pair_covers(node_pairs(n, prefix, mask), addr) <==> ((cpw as int)
                    <= addr < (cpw as int) + pow2((24 - mask as int) as nat) && node_covers(
                    n,
                    suffix_octets(addr - (cpw as int), depth),
                )) by {
                let rest = addr - (cpw as int);
                let w0 = rest / sub_unit;
                lemma_split_node_cover(s, cpw, cm, depth, sub_unit, unit, addr);
                if some_pair_covers(node_pairs(n, prefix, mask), addr) {
                    let i = choose|i: int|
                        0 <= i < node_pairs(n, prefix, mask).len() && pair_covers(
                            #[trigger] node_pairs(n, prefix, mask)[i],
                            addr,
                        );
                    if i < hp.len() {
                        assert(pair_covers(hp[i], addr));
                        assert(some_pair_covers(hp, addr));
                    } else {
                        assert(pair_covers(chp[i - hp.len()], addr));
                        assert(some_pair_covers(chp, addr));
                    }
                } else {
                    if some_pair_covers(hp, addr) {
                        let i = choose|i: int| 0 <= i < hp.len() && pair_covers(#[trigger] hp[i], addr);
                        assert(pair_covers(node_pairs(n, prefix, mask)[i], addr));
                        assert(false);
                    }
                    if some_pair_covers(chp, addr) {
                        let i = choose|i: int|
                            0 <= i < chp.len() && pair_covers(#[trigger] chp[i], addr);
                        assert(pair_covers(node_pairs(n, prefix, mask)[hp.len() + i], addr));
                        assert(false);
                    }
                }
            }
            // disjointness, including across the bitmap and the children
            assert forall|i: int, j: int, addr: int|
                #![trigger pair_covers(node_pairs(n, prefix, mask)[i], addr), pair_covers(node_pairs(n, prefix, mask)[j], addr)]
                0 <= i < j < node_pairs(n, prefix, mask).len() implies !(pair_covers(
                node_pairs(n, prefix, mask)[i],
                addr,
            ) && pair_covers(node_pairs(n, prefix, mask)[j], addr)) by {
                let np = node_pairs(n, prefix, mask);
                if pair_covers(np[i], addr) && pair_covers(np[j], addr) {
                    lemma_split_node_cover(s, cpw, cm, depth, sub_unit, unit, addr);
                    if j < hp.len() {
                        assert(pair_covers(hp[i], addr) && pair_covers(hp[j], addr));
                    } else if i >= hp.len() {
                        assert(pair_covers(chp[i - hp.len()], addr) && pair_covers(
                            chp[j - hp.len()],
                            addr,
                        ));
                    } else {
                        // one pair from the bitmap, one from a child: the
                        // bitmap covers the head octet, but a child key is
                        // never covered
                        assert(pair_covers(hp[i], addr));
                        assert(some_pair_covers(hp, addr));
                        assert(pair_covers(chp[j - hp.len()], addr));
                        assert(some_pair_covers(chp, addr));
                        assert(false);
                    }
                }
            }
        },
    }
}

/// The two halves of a node's emission meet the two branches of its
/// coverage: the bitmap half covers exactly the window addresses whose
/// head octet the bitmap covers, the children half exactly those whose
/// head octet leads to a child that covers the rest — and a head octet
/// never satisfies both.
proof fn lemma_split_node_cover(
    s: StandardNode,
    cpw: u32,
    cm: u8,
    depth: int,
    sub_unit: int,
    unit: int,
    addr: int,
)
    requires
        std_wf(s),
        8 <= cm <= 24,
        cm as int + 8 * (s.level as int) == 16,
        aligned_to(cpw, 32 - cm as int),
        depth == s.level as int + 2,
        sub_unit == pow2((24 - cm as int) as nat) as int,
        unit == 256 * sub_unit,
        unit == pow2((8 * depth) as nat) as int,
        sub_unit == pow2((8 * (depth - 1)) as nat) as int,
        forall|a2: int|
            #[trigger] some_pair_covers(heap_pairs(s.heap@, cpw, cm), a2) <==> ((cpw as int) <= a2
                < (cpw as int) + pow2((32 - cm as int) as nat) && covers(
                s.heap@,
                (a2 - (cpw as int)) / sub_unit,
            )),
        forall|a2: int|
            #[trigger] some_pair_covers(
                children_pairs_upto(s.subnodes@, cpw, cm, s.subnodes@.len() as int),
                a2,
            ) <==> exists|i: int|
                0 <= i < s.subnodes@.len() && #[trigger] child_slot_covers(
                    s.subnodes@,
                    cpw as int,
                    cm as int,
                    i,
                    a2,
                ),
    ensures
        some_pair_covers(heap_pairs(s.heap@, cpw, cm), addr) <==> ((cpw as int) <= addr < (
        cpw as int) + unit && covers(s.heap@, (addr - (cpw as int)) / sub_unit)),
        some_pair_covers(
            children_pairs_upto(s.subnodes@, cpw, cm, s.subnodes@.len() as int),
            addr,
        ) <==> ((cpw as int) <= addr < (cpw as int) + unit && !covers(
            s.heap@,
            (addr - (cpw as int)) / sub_unit,
        ) && node_covers(OctetNode::Standard(s), suffix_octets(addr - (cpw as int), depth))),
        ((cpw as int) <= addr < (cpw as int) + unit && node_covers(
            OctetNode::Standard(s),
            suffix_octets(addr - (cpw as int), depth),
        )) <==> (some_pair_covers(heap_pairs(s.heap@, cpw, cm), addr) || some_pair_covers(
            children_pairs_upto(s.subnodes@, cpw, cm, s.subnodes@.len() as int),
            addr,
        )),
{
    let rest = addr - (cpw as int);
    let w0 = rest / sub_unit;
    lemma_pow2_pos((24 - cm as int) as nat);
    vstd::arithmetic::power2::lemma_pow2_adds((24 - cm as int) as nat, 8);
    lemma2_to64();
    assert(pow2((32 - cm as int) as nat) as int == unit) by (nonlinear_arith)
        requires
            pow2((32 - cm as int) as nat) == pow2((24 - cm as int) as nat) * pow2(8),
            sub_unit == pow2((24 - cm as int) as nat) as int,
            unit == 256 * sub_unit,
            pow2(8) == 256,
    ;
    if (cpw as int) <= addr < (cpw as int) + unit {
        assert(0 <= rest < 256 * sub_unit);
        assert(0 <= w0 < 256) by (nonlinear_arith)
            requires
                0 <= rest < 256 * sub_unit,
                w0 == rest / sub_unit,
                sub_unit > 0,
        ;
        lemma_suffix_split(rest, depth);
        vstd::arithmetic::div_mod::lemma_small_mod(w0 as nat, 256);
        let sfx = suffix_octets(rest, depth);
        assert(sfx[0] == w0 as u8);
        assert(sfx.len() == depth);
        let tail = suffix_octets(rest - w0 * sub_unit, depth - 1);
        assert(sfx.drop_first() =~= tail);
        // the children half
        if some_pair_covers(
            children_pairs_upto(s.subnodes@, cpw, cm, s.subnodes@.len() as int),
            addr,
        ) {
            let i = choose|i: int|
                0 <= i < s.subnodes@.len() && #[trigger] child_slot_covers(
                    s.subnodes@,
                    cpw as int,
                    cm as int,
                    i,
                    addr,
                );
            let key = s.subnodes@[i].0;
            assert(w0 == key as int) by (nonlinear_arith)
                requires
                    (cpw as int) + (key as int) * sub_unit <= addr < (cpw as int) + (key as int)
                        * sub_unit + sub_unit,
                    rest == addr - (cpw as int),
                    w0 == rest / sub_unit,
                    sub_unit > 0,
            ;
            assert(!covers(s.heap@, key as int));
            assert forall|k: int| 0 <= k < i implies (#[trigger] s.subnodes@[k]).0 != key by {
                assert(s.subnodes@[k].0 < s.subnodes@[i].0);
            }
            lemma_find_child_at(s.subnodes@, key, i);
            assert(node_depth_octets(s.subnodes@[i].1) == depth - 1) by {
                assert(wf_slot(s.subnodes@[i].1, s.level as int, s.seed_zeroed, s.seed_broadcast));
            }
            let ccp = (cpw as int) + (key as int) * sub_unit;
            assert(rest - w0 * sub_unit == addr - ccp) by (nonlinear_arith)
                requires
                    w0 == key as int,
                    rest == addr - (cpw as int),
                    ccp == (cpw as int) + (key as int) * sub_unit,
            ;
            assert(suffix_octets(addr - ccp, node_depth_octets(s.subnodes@[i].1)) == tail);
            assert(node_covers(s.subnodes@[i].1, tail));
            assert(std_covers(s, sfx)) by {
                assert(find_child(s.subnodes@, sfx[0]) == Option::Some(s.subnodes@[i].1));
            }
            assert(node_covers(OctetNode::Standard(s), sfx));
        }
        if !covers(s.heap@, w0) && node_covers(OctetNode::Standard(s), sfx) {
            assert(std_covers(s, sfx));
            assert(find_child(s.subnodes@, w0 as u8) is Some);
            lemma_find_child_exists(s.subnodes@, w0 as u8);
            let i = choose|i: int|
                0 <= i < s.subnodes@.len() && (#[trigger] s.subnodes@[i]).0 == w0 as u8
                    && s.subnodes@[i].1 == find_child(s.subnodes@, w0 as u8).unwrap();
            assert(node_depth_octets(s.subnodes@[i].1) == depth - 1) by {
                assert(wf_slot(s.subnodes@[i].1, s.level as int, s.seed_zeroed, s.seed_broadcast));
            }
            vstd::arithmetic::div_mod::lemma_fundamental_div_mod(rest, sub_unit);
            vstd::arithmetic::div_mod::lemma_mod_bound(rest, sub_unit);
            assert(rest == sub_unit * w0 + rest % sub_unit);
            assert(0 <= rest % sub_unit < sub_unit);
            assert(sub_unit * w0 == w0 * sub_unit) by (nonlinear_arith);
            assert((cpw as int) + w0 * sub_unit <= addr < (cpw as int) + w0 * sub_unit
                + sub_unit);
            assert(rest - w0 * sub_unit == addr - ((cpw as int) + w0 * sub_unit));
            assert(child_slot_covers(s.subnodes@, cpw as int, cm as int, i, addr));
        }
    } else {
        assert(!some_pair_covers(heap_pairs(s.heap@, cpw, cm), addr));
        if some_pair_covers(
            children_pairs_upto(s.subnodes@, cpw, cm, s.subnodes@.len() as int),
            addr,
        ) {
            let i = choose|i: int|
                0 <= i < s.subnodes@.len() && #[trigger] child_slot_covers(
                    s.subnodes@,
                    cpw as int,
                    cm as int,
                    i,
                    addr,
                );
            let key = s.subnodes@[i].0 as int;
            assert((cpw as int) + key * sub_unit >= cpw as int) by (nonlinear_arith)
                requires
                    key >= 0,
                    sub_unit > 0,
            ;
            assert((cpw as int) + key * sub_unit + sub_unit <= (cpw as int) + unit)
                by (nonlinear_arith)
                requires
                    key < 256,
                    sub_unit > 0,
                    unit == 256 * sub_unit,
            ;
            assert(false);
        }
    }
}

/// The pairs of the first `k` children partition their windows.
proof fn lemma_children_partition(
    sub: Seq<(u8, OctetNode)>,
    pfx: u32,
    pmask: u8,
    k: int,
    lvl: int,
    z: bool,
    b: bool,
)
    requires
        keys_sorted(sub),
        forall|i: int|
            #![trigger sub[i]]
            0 <= i < sub.len() ==> node_octet(sub[i].1) == sub[i].0 && wf_slot(
                sub[i].1,
                lvl,
                z,
                b,
            ),
        0 <= lvl <= 2,
        pmask as int + 8 * lvl == 16,
        aligned_to(pfx, 32 - pmask as int),
        0 <= k <= sub.len(),
    ensures
        pairs_disjoint(children_pairs_upto(sub, pfx, pmask, k)),
        forall|addr: int|
            #[trigger] some_pair_covers(children_pairs_upto(sub, pfx, pmask, k), addr)
                <==> exists|i: int|
                0 <= i < k && #[trigger] child_slot_covers(sub, pfx as int, pmask as int, i, addr),
    decreases lvl, 1int, k,
{
    let unit = pow2((24 - pmask as int) as nat) as int;
    lemma_pow2_pos((24 - pmask as int) as nat);
    if k == 0 {
        assert(children_pairs_upto(sub, pfx, pmask, 0).len() == 0);
    } else {
        lemma_children_partition(sub, pfx, pmask, k - 1, lvl, z, b);
        let prev = children_pairs_upto(sub, pfx, pmask, k - 1);
        let cur = children_pairs_upto(sub, pfx, pmask, k);
        let e = sub[k - 1];
        let cps = node_pairs(e.1, pfx, pmask);
        assert(cur == prev + cps);
        assert(walk_part_pre(e.1, pmask)) by {
            assert(wf_slot(e.1, lvl, z, b));
        }
        lemma_node_pairs_partition(e.1, pfx, pmask);
        let ccp = (pfx as int) + (e.0 as int) * unit;
        assert((child_prefix(pfx, node_octet(e.1), pmask) as int) == ccp);
        assert(node_depth_octets(e.1) == lvl + 1) by {
            assert(wf_slot(e.1, lvl, z, b));
        }
        // union
        assert forall|addr: int|
            #[trigger] some_pair_covers(cur, addr) <==> exists|i: int|
                0 <= i < k && #[trigger] child_slot_covers(
                    sub,
                    pfx as int,
                    pmask as int,
                    i,
                    addr,
                ) by {
            if some_pair_covers(cur, addr) {
                let i = choose|i: int| 0 <= i < cur.len() && pair_covers(#[trigger] cur[i], addr);
                if i < prev.len() {
                    assert(pair_covers(prev[i], addr));
                    assert(some_pair_covers(prev, addr));
                    let j = choose|j: int|
                        0 <= j < k - 1 && #[trigger] child_slot_covers(
                            sub,
                            pfx as int,
                            pmask as int,
                            j,
                            addr,
                        );
                    assert(child_slot_covers(sub, pfx as int, pmask as int, j, addr));
                } else {
                    assert(pair_covers(cps[i - prev.len()], addr));
                    assert(some_pair_covers(cps, addr));
                    assert(child_slot_covers(sub, pfx as int, pmask as int, k - 1, addr));
                }
            }
            if exists|i: int|
                0 <= i < k && #[trigger] child_slot_covers(
                    sub,
                    pfx as int,
                    pmask as int,
                    i,
                    addr,
                ) {
                let i = choose|i: int|
                    0 <= i < k && #[trigger] child_slot_covers(
                        sub,
                        pfx as int,
                        pmask as int,
                        i,
                        addr,
                    );
                if i < k - 1 {
                    assert(some_pair_covers(prev, addr));
                    let j = choose|j: int|
                        0 <= j < prev.len() && pair_covers(#[trigger] prev[j], addr);
                    assert(pair_covers(cur[j], addr));
                    assert(some_pair_covers(cur, addr));
                } else {
                    assert(some_pair_covers(cps, addr));
                    let j = choose|j: int|
                        0 <= j < cps.len() && pair_covers(#[trigger] cps[j], addr);
                    assert(pair_covers(cur[prev.len() + j], addr));
                    assert(some_pair_covers(cur, addr));
                }
            }
        }
        // disjointness: earlier children sit in lower windows
        assert forall|i: int, j: int, addr: int|
            #![trigger pair_covers(cur[i], addr), pair_covers(cur[j], addr)]
            0 <= i < j < cur.len() implies !(pair_covers(cur[i], addr) && pair_covers(
            cur[j],
            addr,
        )) by {
            if pair_covers(cur[i], addr) && pair_covers(cur[j], addr) {
                if j < prev.len() {
                    assert(pair_covers(prev[i], addr) && pair_covers(prev[j], addr));
                } else if i >= prev.len() {
                    assert(pair_covers(cps[i - prev.len()], addr) && pair_covers(
                        cps[j - prev.len()],
                        addr,
                    ));
                } else {
                    assert(pair_covers(prev[i], addr));
                    assert(some_pair_covers(prev, addr));
                    let ei = choose|ei: int|
                        0 <= ei < k - 1 && #[trigger] child_slot_covers(
                            sub,
                            pfx as int,
                            pmask as int,
                            ei,
                            addr,
                        );
                    assert(pair_covers(cps[j - prev.len()], addr));
                    assert(some_pair_covers(cps, addr));
                    // the two windows are separated by the key order
                    let ki = sub[ei].0 as int;
                    let kj = e.0 as int;
                    assert(ki < kj) by {
                        assert(sub[ei].0 < sub[k - 1].0);
                    }
                    assert(addr < (pfx as int) + ki * unit + unit);
                    assert(ccp <= addr);
                    assert((pfx as int) + ki * unit + unit <= ccp) by (nonlinear_arith)
                        requires
                            ki < kj,
                            unit > 0,
                            ccp == (pfx as int) + kj * unit,
                    ;
                    assert(false);
                }
            }
        }
    }
}


/// The walk partitions the address space: every 32-bit address is
/// covered by a pair of the walk exactly when the tree covers its four
/// octets, and no address is covered by two pairs.  In other words, the
/// union of the blocks `[p, p + 2^(32-m))` of the emitted pairs is
/// exactly the covered set, and the blocks are pairwise disjoint.
pub proof fn lemma_tree_walk_partition(t: IPTree)
    requires
        tree_wf(t),
    ensures
        pairs_disjoint(tree_pairs(t)),
        forall|addr: int|
            0 <= addr < 0x1_0000_0000 ==> (#[trigger] some_pair_covers(tree_pairs(t), addr)
                <==> tree_covers(t, suffix_octets(addr, 4))),
        forall|addr: int|
            #[trigger] some_pair_covers(tree_pairs(t), addr) ==> 0 <= addr < 0x1_0000_0000,
{
    let unit = pow2(24) as int;
    lemma2_to64();
    lemma_pow2_pos(24);
    lemma_pow2_pos(32);
    assert forall|i: int|
        #![trigger t.octets@[i]]
        0 <= i < t.octets@.len() implies node_octet(t.octets@[i].1) == t.octets@[i].0 && wf_slot(
        t.octets@[i].1,
        2,
        t.zeroed,
        t.broadcast,
    ) by {
        assert(wf_child(t.octets@[i].1, 1, t.zeroed, t.broadcast));
    }
    assert(aligned_to(0u32, 32)) by {
        assert((0u32 as int) % (pow2(32) as int) == 0);
    }
    lemma_children_partition(
        t.octets@,
        0u32,
        0u8,
        t.octets@.len() as int,
        2,
        t.zeroed,
        t.broadcast,
    );
    assert(tree_pairs(t) == children_pairs_upto(t.octets@, 0u32, 0u8, t.octets@.len() as int));
    assert(pow2((24 - 0) as nat) as int == unit);
    // every pair sits inside some /8 window, hence in the address space
    assert forall|addr: int|
        #[trigger] some_pair_covers(tree_pairs(t), addr) implies 0 <= addr
        < 0x1_0000_0000 by {
        let i = choose|i: int|
            0 <= i < t.octets@.len() && #[trigger] child_slot_covers(t.octets@, 0, 0, i, addr);
        let key = t.octets@[i].0 as int;
        assert(0 <= key * unit && (key + 1) * unit <= 0x1_0000_0000) by (nonlinear_arith)
            requires
                0 <= key < 256,
                unit == 0x100_0000,
        ;
    }
    assert forall|addr: int|
        0 <= addr < 0x1_0000_0000 implies (#[trigger] some_pair_covers(tree_pairs(t), addr)
        <==> tree_covers(t, suffix_octets(addr, 4))) by {
        let w0 = addr / unit;
        assert(pow2((8 * 4) as nat) as int == 0x1_0000_0000);
        lemma_suffix_split(addr, 4);
        vstd::arithmetic::div_mod::lemma_small_mod(w0 as nat, 256);
        let sfx = suffix_octets(addr, 4);
        assert(sfx[0] == w0 as u8);
        let tail = suffix_octets(addr - w0 * unit, 3);
        assert(sfx.drop_first() =~= tail);
        assert(pow2((8 * 3) as nat) as int == unit);
        if some_pair_covers(tree_pairs(t), addr) {
            let i = choose|i: int|
                0 <= i < t.octets@.len() && #[trigger] child_slot_covers(
                    t.octets@,
                    0,
                    0,
                    i,
                    addr,
                );
            let key = t.octets@[i].0;
            assert(w0 == key as int) by (nonlinear_arith)
                requires
                    (key as int) * unit <= addr < (key as int) * unit + unit,
                    w0 == addr / unit,
                    unit > 0,
            ;
            assert forall|k: int| 0 <= k < i implies (#[trigger] t.octets@[k]).0 != key by {
                assert(t.octets@[k].0 < t.octets@[i].0);
            }
            lemma_find_child_at(t.octets@, key, i);
            assert(node_depth_octets(t.octets@[i].1) == 3) by {
                assert(wf_slot(t.octets@[i].1, 2, t.zeroed, t.broadcast));
            }
            assert(addr - w0 * unit == addr - ((key as int) * unit + 0));
            assert(suffix_octets(addr - (0 + (key as int) * unit), 3) == tail);
            assert(node_covers(t.octets@[i].1, tail));
            assert(tree_covers(t, sfx)) by {
                assert(find_child(t.octets@, sfx[0]) == Option::Some(t.octets@[i].1));
            }
        }
        if tree_covers(t, sfx) {
            assert(find_child(t.octets@, w0 as u8) is Some);
            lemma_find_child_exists(t.octets@, w0 as u8);
            let i = choose|i: int|
                0 <= i < t.octets@.len() && (#[trigger] t.octets@[i]).0 == w0 as u8 && t.octets@[
                i].1 == find_child(t.octets@, w0 as u8).unwrap();
            assert(node_depth_octets(t.octets@[i].1) == 3) by {
                assert(wf_slot(t.octets@[i].1, 2, t.zeroed, t.broadcast));
            }
            vstd::arithmetic::div_mod::lemma_fundamental_div_mod(addr, unit);
            vstd::arithmetic::div_mod::lemma_mod_bound(addr, unit);
            assert(addr == unit * w0 + addr % unit);
            assert(unit * w0 == w0 * unit) by (nonlinear_arith);
            assert(0 + (w0 as int) * unit <= addr < 0 + (w0 as int) * unit + unit);
            assert(node_covers(t.octets@[i].1, sfx.drop_first()));
            assert(suffix_octets(addr - (0 + (w0 as int) * unit), 3) == tail);
            assert(child_slot_covers(t.octets@, 0, 0, i, addr));
            assert(some_pair_covers(tree_pairs(t), addr));
        }
    }
}


proof fn lemma_ilog2_double(p: int)
    requires
        p >= 1,
    ensures
        ilog2(2 * p) == 1 + ilog2(p),
        ilog2(2 * p + 1) == 1 + ilog2(p),
{
    assert((2 * p) / 2 == p);
    assert((2 * p + 1) / 2 == p);
}

proof fn lemma_child_blocks(p: int)
    requires
        1 <= p < 256,
    ensures
        block_lo(2 * p) == block_lo(p),
        block_size(2 * p) * 2 == block_size(p),
        block_lo(2 * p + 1) == block_lo(p) + block_size(2 * p),
        block_size(2 * p + 1) == block_size(2 * p),
{
    let d = ilog2(p);
    lemma_ilog2_bounds(p);
    lemma_ilog2_double(p);
    lemma_pow2_unfold((d + 1) as nat);
    vstd::arithmetic::power2::lemma_pow2_adds((7 - d) as nat, 1);
    lemma2_to64();
    lemma_pow2_pos((7 - d) as nat);
    assert(d <= 7) by {
        if d == 8 {
            assert(pow2(8) <= p);
        }
    }
    assert(pow2((8 - d) as nat) == 2 * pow2((7 - d) as nat));
    assert(block_lo(2 * p) == block_lo(p)) by (nonlinear_arith)
        requires
            block_lo(2 * p) == (2 * p - pow2((d + 1) as nat)) * (pow2((7 - d) as nat) as int),
            block_lo(p) == (p - pow2(d as nat)) * (pow2((8 - d) as nat) as int),
            pow2((d + 1) as nat) == 2 * pow2(d as nat),
            pow2((8 - d) as nat) == 2 * pow2((7 - d) as nat),
    ;
    assert(block_lo(2 * p + 1) == block_lo(p) + pow2((7 - d) as nat)) by (nonlinear_arith)
        requires
            block_lo(2 * p + 1) == (2 * p + 1 - pow2((d + 1) as nat)) * (pow2(
                (7 - d) as nat,
            ) as int),
            block_lo(p) == (p - pow2(d as nat)) * (pow2((8 - d) as nat) as int),
            pow2((d + 1) as nat) == 2 * pow2(d as nat),
            pow2((8 - d) as nat) == 2 * pow2((7 - d) as nat),
    ;
}

/// A block that is covered without help from above carries its own bit,
/// or is split — but a complete split always pairs two siblings, which
/// the merge invariant forbids.  So the bit itself must be set.
proof fn lemma_full_block_bit(heap: Seq<u64>, p: int)
    requires
        heap_wf(heap),
        1 <= p < 512,
        forall|w: int|
            block_lo(p) <= w < block_lo(p) + block_size(p) ==> #[trigger] covers(heap, w),
        !covered_from(heap, p / 2),
    ensures
        pos_set(heap, p),
    decreases 512 - p,
{
    lemma_block_bounds(p);
    if p >= 256 {
        let w = block_lo(p);
        lemma_ilog2_bounds(p);
        assert(ilog2(p) == 8) by {
            lemma2_to64();
            lemma_ilog2_unique(p, 8);
        }
        assert(block_size(p) == 1) by {
            lemma2_to64();
        }
        assert(covers(heap, w));
        lemma_covered_has_bit(heap, 256 + w);
        let q = choose|q: int| on_path(256 + w, q) && pos_set(heap, q);
        lemma_block_path(w, p);
        assert(on_path(256 + w, p));
        assert(256 + w == p) by {
            lemma_on_path_leaf(256 + w, p);
        }
        if q != p {
            lemma_on_path_le(256 + w, q);
            assert(on_path((256 + w) / 2, q));
            lemma_on_path_set_covered(heap, p / 2, q);
            assert(false);
        }
    } else {
        if !pos_set(heap, p) {
            lemma_child_blocks(p);
            assert(!covered_from(heap, (2 * p) / 2)) by {
                assert((2 * p) / 2 == p);
            }
            assert(!covered_from(heap, (2 * p + 1) / 2)) by {
                assert((2 * p + 1) / 2 == p);
            }
            assert forall|w: int|
                block_lo(2 * p) <= w < block_lo(2 * p) + block_size(2 * p) implies #[trigger] covers(
                heap,
                w,
            ) by {}
            assert forall|w: int|
                block_lo(2 * p + 1) <= w < block_lo(2 * p + 1) + block_size(
                    2 * p + 1,
                ) implies #[trigger] covers(heap, w) by {}
            lemma_full_block_bit(heap, 2 * p);
            lemma_full_block_bit(heap, 2 * p + 1);
            assert(false);
        }
    }
}

/// The bitmap left behind by `set` and merge is canonical: a position is
/// set exactly when its whole block is covered while its sibling block
/// is not (the root position stands alone).  The set positions — and
/// with them the emitted pairs — are therefore a function of the covered
/// set alone, whatever the order of the insertions that produced it.
pub proof fn lemma_heap_canonical(heap: Seq<u64>, p: int)
    requires
        heap_wf(heap),
        1 <= p < 512,
    ensures
        pos_set(heap, p) <==> ((forall|w: int|
            block_lo(p) <= w < block_lo(p) + block_size(p) ==> #[trigger] covers(heap, w)) && (p
            == 1 || !(forall|w: int|
            block_lo(sib(p)) <= w < block_lo(sib(p)) + block_size(sib(p))
                ==> #[trigger] covers(heap, w)))),
{
    lemma_block_bounds(p);
    if pos_set(heap, p) {
        // the block itself is covered through this very bit
        assert forall|w: int|
            block_lo(p) <= w < block_lo(p) + block_size(p) implies #[trigger] covers(
            heap,
            w,
        ) by {
            lemma_block_path(w, p);
            lemma_on_path_set_covered(heap, 256 + w, p);
        }
        if p != 1 {
            let q = sib(p);
            assert(1 <= q < 512);
            lemma_block_bounds(q);
            if forall|w: int|
                block_lo(q) <= w < block_lo(q) + block_size(q) ==> #[trigger] covers(heap, w) {
                assert(q / 2 == p / 2);
                assert(!covered_from(heap, q / 2)) by {
                    assert(!covered_from(heap, p / 2));
                }
                lemma_full_block_bit(heap, q);
                assert(p == 2 * (p / 2) || p == 2 * (p / 2) + 1);
                assert(!(pos_set(heap, 2 * (p / 2)) && pos_set(heap, 2 * (p / 2) + 1)));
                assert(false);
            }
        }
    }
    if (forall|w: int|
        block_lo(p) <= w < block_lo(p) + block_size(p) ==> #[trigger] covers(heap, w)) && (p == 1
        || !(forall|w: int|
        block_lo(sib(p)) <= w < block_lo(sib(p)) + block_size(sib(p)) ==> #[trigger] covers(
            heap,
            w,
        ))) {
        if covered_from(heap, p / 2) {
            // a set strict ancestor would cover the sibling block too
            lemma_covered_has_bit(heap, p / 2);
            let q = choose|q: int| on_path(p / 2, q) && pos_set(heap, q);
            assert(p != 1) by {
                if p == 1 {
                    lemma_on_path_le(p / 2, q);
                }
            }
            let sb = sib(p);
            assert(1 <= sb < 512);
            lemma_block_bounds(sb);
            assert forall|w: int|
                block_lo(sb) <= w < block_lo(sb) + block_size(sb) implies #[trigger] covers(
                heap,
                w,
            ) by {
                lemma_block_path(w, sb);
                assert(on_path(256 + w, sb));
                assert(on_path(256 + w, q)) by {
                    assert(sb != q) by {
                        lemma_on_path_le(p / 2, q);
                    }
                    assert(sb / 2 == p / 2);
                    assert(on_path(sb, q)) by {
                        assert(on_path(sb / 2, q));
                    }
                    lemma_on_path_chain(256 + w, sb, q);
                }
                lemma_on_path_set_covered(heap, 256 + w, q);
            }
            assert(false);
        }
        lemma_full_block_bit(heap, p);
    }
}

/// Chains compose: an ancestor of an ancestor is an ancestor.
proof fn lemma_on_path_chain(x: int, y: int, q: int)
    requires
        on_path(x, y),
        on_path(y, q),
    ensures
        on_path(x, q),
    decreases x,
{
    if x != y {
        lemma_on_path_chain(x / 2, y, q);
    }
}


proof fn lemma_heap_pairs_congruent(h1: Seq<u64>, h2: Seq<u64>, cp: u32, cm: u8, n: int)
    requires
        forall|p: int| 1 <= p < 512 ==> pos_set(h1, p) == pos_set(h2, p),
        n <= 512,
    ensures
        heap_pairs_upto(h1, cp, cm, n) == heap_pairs_upto(h2, cp, cm, n),
    decreases n,
{
    if n > 1 {
        lemma_heap_pairs_congruent(h1, h2, cp, cm, n - 1);
        assert(pos_set(h1, n - 1) == pos_set(h2, n - 1));
    }
}

/// The canonical form is unique: two well-formed bitmaps covering the
/// same octet values hold the same bits, so they emit the same pairs.
/// At the terminal octet this is order independence in full — however a
/// set of values was inserted, the walk output is the same.
pub proof fn lemma_heap_walk_canonical(h1: Seq<u64>, h2: Seq<u64>, cp: u32, cm: u8)
    requires
        heap_wf(h1),
        heap_wf(h2),
        forall|w: int| 0 <= w < 256 ==> covers(h1, w) == covers(h2, w),
    ensures
        forall|p: int| 1 <= p < 512 ==> pos_set(h1, p) == pos_set(h2, p),
        heap_pairs(h1, cp, cm) == heap_pairs(h2, cp, cm),
{
    assert forall|p: int| 1 <= p < 512 implies pos_set(h1, p) == pos_set(h2, p) by {
        lemma_heap_canonical(h1, p);
        lemma_heap_canonical(h2, p);
        lemma_block_bounds(p);
        if p != 1 {
            assert(1 <= sib(p) < 512);
            lemma_block_bounds(sib(p));
        }
    }
    lemma_heap_pairs_congruent(h1, h2, cp, cm, 512);
}

} // verus!
