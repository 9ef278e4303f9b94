//! Testing one position of the haystack: the scalar window test, the scalar
//! search over a short region, and the chunk-wise vector probe.

use crate::lanes::{covers, equal_lanes, lane_bit, lowest_lane, mask_lanes};
use crate::matching::{cell_accepts, is_first_match_from, matches_at, no_match_from};
use crate::pattern::{lane_byte, lane_mask, PreparedPattern};
use vstd::prelude::*;

verus! {

/// Whether the pattern matches the region at `at`, tested cell by cell.
pub fn window_accepts(region: &[u8], at: usize, pattern: &[Option<u8>]) -> (r: bool)
    requires
        at + pattern.len() <= region.len(),
    ensures
        r == matches_at(region@, pattern@, at as int),
{
    let mut i: usize = 0;
    while i < pattern.len()
        invariant
            i <= pattern.len(),
            at + pattern.len() <= region.len(),
            forall|j: int| 0 <= j < i ==> cell_accepts(#[trigger] pattern@[j], region@[at + j]),
        decreases pattern.len() - i,
    {
        match pattern[i] {
            Some(v) => {
                if region[at + i] != v {
                    assert(!cell_accepts(pattern@[i as int], region@[at + i]));
                    return false;
                }
            },
            None => {},
        }
        i += 1;
    }
    true
}

/// The lowest offset of the region at which the pattern matches, found by
/// sliding a window over it one byte at a time.
pub fn find_pattern(region: &[u8], pattern: &[Option<u8>]) -> (r: Option<usize>)
    ensures
        match r {
            Some(o) => is_first_match_from(region@, pattern@, 0, o as int),
            None => no_match_from(region@, pattern@, 0),
        },
{
    if region.len() < pattern.len() {
        return None;
    }
    let last: usize = region.len() - pattern.len();
    let mut o: usize = 0;
    while o <= last
        invariant
            last == region.len() - pattern.len(),
            o <= last + 1,
            forall|k: int| 0 <= k < o ==> !#[trigger] matches_at(region@, pattern@, k),
        decreases last + 1 - o,
    {
        if window_accepts(region, o, pattern) {
            return Some(o);
        }
        o += 1;
    }
    None
}

/// What a probe of one position found.
#[derive(Debug, Clone, Copy, PartialEq, Eq, Structural)]
pub enum Probe {
    /// The trimmed pattern matches at the probed position.
    Hit,
    /// It matches neither there nor at any of the positions that follow
    /// within the given distance.
    Skip(usize),
}

/// `lane` is the lowest lane of the `w`-byte window at `at` that holds
/// `byte`, or `w` where no lane does.
pub open spec fn is_first_lane_with(hay: Seq<u8>, at: int, w: int, byte: u8, lane: int) -> bool {
    &&& 0 <= lane <= w
    &&& lane < w ==> hay[at + lane] == byte
    &&& forall|c: int| at <= c < at + lane ==> #[trigger] hay[c] != byte
}

/// What `probe` answers at `at`. It is a hit when the trimmed pattern
/// matches there. Else the distance is that to the lowest lane of the window
/// that holds the pattern's first byte (the window's width where none does),
/// and 1 where lane 0 holds it.
pub open spec fn probe_outcome(hay: Seq<u8>, at: int, pattern: PreparedPattern, r: Probe) -> bool {
    let first = lane_byte(pattern.orig_pat@, 0);
    let w = pattern.width as int;
    match r {
        Probe::Hit => matches_at(hay, pattern.orig_pat@, at),
        Probe::Skip(n) => {
            &&& !matches_at(hay, pattern.orig_pat@, at)
            &&& if hay[at] == first {
                n == 1
            } else {
                is_first_lane_with(hay, at, w, first, n as int)
            }
        },
    }
}

/// After a skip, no position that was skipped is a match.
pub proof fn lemma_skip_is_safe(hay: Seq<u8>, at: int, pattern: PreparedPattern, n: usize)
    requires
        pattern.wf(),
        0 <= at,
        at + pattern.padded_size <= hay.len(),
        probe_outcome(hay, at, pattern, Probe::Skip(n)),
    ensures
        1 <= n <= pattern.width,
        forall|c: int| at <= c < at + n ==> !#[trigger] matches_at(hay, pattern.orig_pat@, c),
{
    let q = pattern.orig_pat@;
    let first = lane_byte(q, 0);
    assert forall|c: int| at <= c < at + n implies !#[trigger] matches_at(hay, q, c) by {
        if c > at && matches_at(hay, q, c) {
            assert(cell_accepts(q[0], hay[c + 0]));
            assert(hay[c] != first);
        }
    }
}

/// Probes the position `at` with the chunk table. The first chunk's
/// first-byte vector finds the lowest lane of the window that can start a
/// match; where that is lane 0, every chunk is compared in full under its
/// mask.
pub fn probe(data: &[u8], at: usize, pattern: &PreparedPattern) -> (r: Probe)
    requires
        pattern.wf(),
        at + pattern.padded_size <= data.len(),
    ensures
        probe_outcome(data@, at as int, *pattern, r),
{
    let w: usize = pattern.width;
    let ghost q = pattern.orig_pat@;
    proof {
        crate::pattern::lemma_padded_bounds(pattern.size as nat, w as nat);
        assert(pattern.table().len() == pattern.chunks@.len());
        pattern.lemma_chunk_lane(0, 0);
    }
    let filter = equal_lanes(data, at, pattern.chunks[0].first_byte.as_slice());
    let lane: usize = lowest_lane(filter);
    proof {
        assert forall|i: int| 0 <= i < w implies (#[trigger] lane_bit(filter, i) <==> data@[at
            + i] == lane_byte(q, 0)) by {
            pattern.lemma_chunk_lane(0, i);
        }
    }
    if filter == 0 {
        proof {
            assert forall|c: int| at <= c < at + w implies #[trigger] data@[c] != lane_byte(
                q,
                0,
            ) by {
                assert(!lane_bit(filter, c - at));
            }
            assert(!cell_accepts(q[0], data@[at + 0]));
        }
        return Probe::Skip(w);
    }
    if lane != 0 {
        proof {
            assert(lane_bit(filter, lane as int));
            assert forall|c: int| at <= c < at + lane implies #[trigger] data@[c] != lane_byte(
                q,
                0,
            ) by {
                assert(!lane_bit(filter, c - at));
            }
            assert(!cell_accepts(q[0], data@[at + 0]));
        }
        return Probe::Skip(lane);
    }
    assert(lane_bit(filter, 0));
    let mut k: usize = 0;
    let mut base: usize = 0;
    while k < pattern.chunks.len()
        invariant
            pattern.wf(),
            w == pattern.width,
            q == pattern.orig_pat@,
            at + pattern.padded_size <= data.len(),
            k <= pattern.chunks.len(),
            base == k * w,
            pattern.chunks@.len() * w == pattern.padded_size,
            data@[at as int] == lane_byte(q, 0),
            forall|j: int| 0 <= j < base && lane_mask(q, j) ==> #[trigger] data@[at + j] == lane_byte(q, j),
        decreases pattern.chunks.len() - k,
    {
        proof {
            pattern.lemma_chunk_lane(k as int, 0);
            assert((k + 1) * w == k * w + w) by (nonlinear_arith);
        }
        let chunk = &pattern.chunks[k];
        let eq = equal_lanes(data, at + base, chunk.bytes.as_slice());
        let mask = mask_lanes(chunk.mask.as_slice());
        if !covers(eq, mask) {
            proof {
                let i = choose|i: int| #[trigger] lane_bit(mask, i) && !lane_bit(eq, i);
                pattern.lemma_chunk_lane(k as int, i);
                let j = base + i;
                assert(lane_mask(q, j));
                assert(data@[at + j] != lane_byte(q, j));
                assert(!cell_accepts(q[j], data@[at + j]));
            }
            return Probe::Skip(1);
        }
        proof {
            assert forall|j: int| 0 <= j < base + w && lane_mask(q, j) implies #[trigger] data@[at
                + j] == lane_byte(q, j) by {
                if j >= base {
                    let i = j - base;
                    pattern.lemma_chunk_lane(k as int, i);
                    assert(lane_bit(mask, i));
                    assert(lane_bit(eq, i));
                }
            }
        }
        k += 1;
        base += w;
    }
    proof {
        assert forall|i: int| 0 <= i < q.len() implies cell_accepts(
            #[trigger] q[i],
            data@[at + i],
        ) by {
            if q[i] is Some {
                assert(lane_mask(q, i));
                assert(data@[at + i] == lane_byte(q, i));
            }
        }
    }
    Probe::Hit
}

} // verus!
