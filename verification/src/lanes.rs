//! Lane-wise vector operations.
//!
//! A vector is a run of at most 64 lanes. Comparing two vectors lane by lane
//! gives a bitmask: bit `i` is set exactly when lane `i` compared equal.

use vstd::prelude::*;
use vstd::std_specs::bits::{axiom_u64_trailing_zeros, u64_trailing_zeros};

verus! {

/// The most lanes a vector may have: one per bit of a bitmask.
pub const MAX_LANES: usize = 64;

/// Bit `i` of the bitmask `m` is set.
pub open spec fn lane_bit(m: u64, i: int) -> bool {
    0 <= i < 64 && ((m >> (i as u64)) & 1u64) == 1u64
}

proof fn lemma_bit_after_set(m: u64, i: u64, j: u64)
    by (bit_vector)
    requires
        i < 64,
        j < 64,
    ensures
        (((m | (1u64 << i)) >> j) & 1u64) == 1u64 <==> (i == j || ((m >> j) & 1u64) == 1u64),
{
}

proof fn lemma_bit_of_zero(j: u64)
    by (bit_vector)
    requires
        j < 64,
    ensures
        ((0u64 >> j) & 1u64) == 0u64,
{
}

proof fn lemma_bit_of_covered(eq: u64, mask: u64, j: u64)
    by (bit_vector)
    requires
        j < 64,
        (eq & mask) == mask,
        ((mask >> j) & 1u64) == 1u64,
    ensures
        ((eq >> j) & 1u64) == 1u64,
{
}

proof fn lemma_bit_of_uncovered(eq: u64, mask: u64, j: u64)
    by (bit_vector)
    requires
        j < 64,
        (((mask & !eq) >> j) & 1u64) == 1u64,
    ensures
        ((mask >> j) & 1u64) == 1u64,
        ((eq >> j) & 1u64) != 1u64,
{
}

proof fn lemma_uncovered_is_nonzero(eq: u64, mask: u64)
    by (bit_vector)
    requires
        (eq & mask) != mask,
    ensures
        (mask & !eq) != 0u64,
{
}

/// No bit of the empty bitmask is set.
pub proof fn lemma_no_lane_in_zero()
    ensures
        forall|i: int| !#[trigger] lane_bit(0u64, i),
{
    assert forall|i: int| !#[trigger] lane_bit(0u64, i) by {
        if 0 <= i < 64 {
            lemma_bit_of_zero(i as u64);
        }
    }
}

/// Compares lane `i` of `lanes` with the byte at `at + i` of `window`, for
/// every lane, and packs the outcomes into a bitmask.
pub fn equal_lanes(window: &[u8], at: usize, lanes: &[u8]) -> (m: u64)
    requires
        lanes.len() <= MAX_LANES,
        at + lanes.len() <= window.len(),
    ensures
        forall|i: int| #[trigger]
            lane_bit(m, i) <==> (0 <= i < lanes.len() && window@[at + i] == lanes@[i]),
{
    let mut m: u64 = 0;
    let mut i: usize = 0;
    proof {
        lemma_no_lane_in_zero();
    }
    while i < lanes.len()
        invariant
            i <= lanes.len() <= MAX_LANES,
            at + lanes.len() <= window.len(),
            forall|j: int| #[trigger]
                lane_bit(m, j) <==> (0 <= j < i && window@[at + j] == lanes@[j]),
        decreases lanes.len() - i,
    {
        if window[at + i] == lanes[i] {
            let ghost before = m;
            m = m | (1u64 << (i as u64));
            proof {
                assert forall|j: int| #[trigger]
                    lane_bit(m, j) <==> (0 <= j < i + 1 && window@[at + j] == lanes@[j]) by {
                    if 0 <= j < 64 {
                        lemma_bit_after_set(before, i as u64, j as u64);
                        assert(lane_bit(before, j) <==> (0 <= j < i && window@[at + j]
                            == lanes@[j]));
                    }
                }
            }
        }
        i += 1;
    }
    m
}

/// Packs a vector of booleans into a bitmask.
pub fn mask_lanes(mask: &[bool]) -> (m: u64)
    requires
        mask.len() <= MAX_LANES,
    ensures
        forall|i: int| #[trigger] lane_bit(m, i) <==> (0 <= i < mask.len() && mask@[i]),
{
    let mut m: u64 = 0;
    let mut i: usize = 0;
    proof {
        lemma_no_lane_in_zero();
    }
    while i < mask.len()
        invariant
            i <= mask.len() <= MAX_LANES,
            forall|j: int| #[trigger] lane_bit(m, j) <==> (0 <= j < i && mask@[j]),
        decreases mask.len() - i,
    {
        if mask[i] {
            let ghost before = m;
            m = m | (1u64 << (i as u64));
            proof {
                assert forall|j: int| #[trigger]
                    lane_bit(m, j) <==> (0 <= j < i + 1 && mask@[j]) by {
                    if 0 <= j < 64 {
                        lemma_bit_after_set(before, i as u64, j as u64);
                        assert(lane_bit(before, j) <==> (0 <= j < i && mask@[j]));
                    }
                }
            }
        }
        i += 1;
    }
    m
}

/// Every lane that `mask` selects is set in `eq`.
pub fn covers(eq: u64, mask: u64) -> (r: bool)
    ensures
        r <==> (forall|i: int| #[trigger] lane_bit(mask, i) ==> lane_bit(eq, i)),
{
    let r = (eq & mask) == mask;
    proof {
        if r {
            assert forall|i: int| #[trigger] lane_bit(mask, i) implies lane_bit(eq, i) by {
                lemma_bit_of_covered(eq, mask, i as u64);
            }
        } else {
            let gap = mask & !eq;
            lemma_uncovered_is_nonzero(eq, mask);
            axiom_u64_trailing_zeros(gap);
            let t = u64_trailing_zeros(gap);
            lemma_bit_of_uncovered(eq, mask, t as u64);
            assert(lane_bit(mask, t as int) && !lane_bit(eq, t as int));
        }
    }
    r
}

/// The lowest lane set in the bitmask, or 64 where none is.
pub fn lowest_lane(m: u64) -> (r: usize)
    ensures
        r <= 64,
        r == 64 <==> m == 0,
        r < 64 ==> lane_bit(m, r as int),
        forall|i: int| 0 <= i < r ==> !#[trigger] lane_bit(m, i),
{
    proof {
        axiom_u64_trailing_zeros(m);
        assert forall|i: int| 0 <= i < u64_trailing_zeros(m) implies !#[trigger] lane_bit(m, i) by {
            assert(((m >> (i as u64)) & 1u64) == 0u64);
        }
    }
    m.trailing_zeros() as usize
}

} // verus!
