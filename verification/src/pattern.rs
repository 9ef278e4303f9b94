//! The prepared form of a pattern: wildcards at both ends trimmed away, and
//! the rest cut into fixed-width chunks of byte and mask vectors.

use crate::lanes::MAX_LANES;
use crate::matching::{has_byte, is_first_byte, is_last_byte, wildcards};
use vstd::prelude::*;
use vstd::slice::{slice_subrange, slice_to_vec};

verus! {

/// A pattern that owns its cells: `Some` for a concrete byte, `None` for a
/// wildcard.
pub type OwnedPattern = Vec<Option<u8>>;

/// A borrowed pattern.
pub type Pattern<'a> = &'a [Option<u8>];

/// Why a pattern cannot be prepared.
#[derive(Debug, Clone, Copy, PartialEq, Eq, Structural)]
pub enum PatternError {
    /// The pattern holds no concrete byte: it is empty or made of wildcards
    /// only.
    EmptyOrAllWildcard,
}

/// The number of lanes of the vectors a pattern is cut into.
#[derive(Debug, Clone, Copy, PartialEq, Eq, Structural)]
pub enum LaneWidth {
    W16,
    W32,
    W64,
}

impl LaneWidth {
    /// The number of lanes, as a number.
    pub open spec fn lanes_spec(self) -> usize {
        match self {
            LaneWidth::W16 => 16,
            LaneWidth::W32 => 32,
            LaneWidth::W64 => 64,
        }
    }

    /// The number of lanes, as a number.
    #[verifier::when_used_as_spec(lanes_spec)]
    pub fn lanes(self) -> (w: usize)
        ensures
            w == self.lanes_spec(),
    {
        match self {
            LaneWidth::W16 => 16,
            LaneWidth::W32 => 32,
            LaneWidth::W64 => 64,
        }
    }
}

/// The byte that lane `j` of the padded pattern carries: the cell's byte, or
/// zero for a wildcard and past the pattern's end.
pub open spec fn lane_byte(q: Seq<Option<u8>>, j: int) -> u8 {
    if 0 <= j < q.len() {
        match q[j] {
            Some(v) => v,
            None => 0u8,
        }
    } else {
        0u8
    }
}

/// Whether lane `j` of the padded pattern carries a concrete byte.
pub open spec fn lane_mask(q: Seq<Option<u8>>, j: int) -> bool {
    0 <= j < q.len() && q[j] is Some
}

/// How many chunks of `w` lanes it takes to hold `size` cells.
pub open spec fn chunk_count(size: nat, w: nat) -> nat {
    if size % w == 0 {
        size / w
    } else {
        size / w + 1
    }
}

/// `size` rounded up to a multiple of `w`.
pub open spec fn padded_len(size: nat, w: nat) -> nat {
    chunk_count(size, w) * w
}

/// The pattern's bytes, zero-padded to `padded` lanes.
pub open spec fn byte_image(q: Seq<Option<u8>>, padded: nat) -> Seq<u8> {
    Seq::new(padded, |j: int| lane_byte(q, j))
}

/// The pattern's validity mask, padded with `false` to `padded` lanes.
pub open spec fn mask_image(q: Seq<Option<u8>>, padded: nat) -> Seq<bool> {
    Seq::new(padded, |j: int| lane_mask(q, j))
}

/// The three vectors of a chunk, as sequences of lanes.
pub struct ChunkLanes {
    pub first_byte: Seq<u8>,
    pub mask: Seq<bool>,
    pub bytes: Seq<u8>,
}

/// The lanes of chunk `k` of the pattern `q` cut at width `w`: its slice of
/// the byte image, its slice of the mask image, and the byte of its lane 0
/// repeated over all lanes.
pub open spec fn chunk_lanes(q: Seq<Option<u8>>, w: nat, k: int) -> ChunkLanes {
    ChunkLanes {
        first_byte: Seq::new(w, |i: int| lane_byte(q, k * w)),
        mask: mask_image(q, padded_len(q.len(), w)).subrange(k * w, k * w + w),
        bytes: byte_image(q, padded_len(q.len(), w)).subrange(k * w, k * w + w),
    }
}

/// The chunk table of the pattern `q` cut at width `w`.
pub open spec fn chunk_table(q: Seq<Option<u8>>, w: nat) -> Seq<ChunkLanes> {
    Seq::new(chunk_count(q.len(), w), |k: int| chunk_lanes(q, w, k))
}

/// One chunk of a prepared pattern.
pub struct PatternChunk {
    /// The byte of lane 0 of `bytes`, in every lane.
    pub first_byte: Vec<u8>,
    /// `true` in the lanes that carry a concrete byte.
    pub mask: Vec<bool>,
    /// The pattern bytes; zero in wildcard lanes and past the pattern's end.
    pub bytes: Vec<u8>,
}

impl View for PatternChunk {
    type V = ChunkLanes;

    open spec fn view(&self) -> ChunkLanes {
        ChunkLanes { first_byte: self.first_byte@, mask: self.mask@, bytes: self.bytes@ }
    }
}

/// A pattern made ready for searching.
pub struct PreparedPattern {
    /// The chunk table.
    pub chunks: Vec<PatternChunk>,
    /// The pattern without its leading and trailing wildcards.
    pub orig_pat: OwnedPattern,
    /// The length of `orig_pat`.
    pub size: usize,
    /// `size` rounded up to a multiple of `width`.
    pub padded_size: usize,
    /// How many leading wildcards were stripped.
    pub start_offset: usize,
    /// How many trailing wildcards were stripped.
    pub trailing: usize,
    /// The number of lanes of each vector of the chunk table.
    pub width: usize,
}

impl PreparedPattern {
    /// The chunk table as sequences of lanes.
    pub open spec fn table(&self) -> Seq<ChunkLanes> {
        Seq::new(self.chunks@.len(), |k: int| self.chunks@[k]@)
    }

    /// The pattern as the caller wrote it: the stripped wildcards put back at
    /// both ends of the trimmed pattern.
    pub open spec fn cells(&self) -> Seq<Option<u8>> {
        wildcards(self.start_offset as nat) + self.orig_pat@ + wildcards(self.trailing as nat)
    }

    /// The invariant of a prepared pattern.
    pub open spec fn wf(&self) -> bool {
        &&& self.width == 16 || self.width == 32 || self.width == 64
        &&& self.size == self.orig_pat@.len()
        &&& self.size >= 1
        &&& self.orig_pat@[0] is Some
        &&& self.orig_pat@[self.size - 1] is Some
        &&& self.padded_size == padded_len(self.size as nat, self.width as nat)
        &&& self.table() == chunk_table(self.orig_pat@, self.width as nat)
        &&& self.start_offset + self.size + self.trailing <= usize::MAX
    }

    /// This is the prepared form of `pat` at width `w`.
    pub open spec fn is_preparation_of(&self, pat: Seq<Option<u8>>, w: nat) -> bool {
        &&& self.wf()
        &&& self.width == w
        &&& is_first_byte(pat, self.start_offset as int)
        &&& is_last_byte(pat, self.start_offset + self.size - 1)
        &&& self.orig_pat@ == pat.subrange(
            self.start_offset as int,
            self.start_offset + self.size,
        )
        &&& self.trailing == pat.len() - self.start_offset - self.size
    }
}

/// The index of the last concrete byte of the pattern, if it has one.
pub fn last_byte_index(pat: &[Option<u8>]) -> (r: Option<usize>)
    ensures
        match r {
            Some(i) => is_last_byte(pat@, i as int),
            None => !has_byte(pat@),
        },
{
    let mut i: usize = pat.len();
    while i > 0
        invariant
            i <= pat.len(),
            forall|j: int| i <= j < pat.len() ==> (#[trigger] pat@[j]) is None,
        decreases i,
    {
        i -= 1;
        if pat[i].is_some() {
            return Some(i);
        }
    }
    None
}

/// The index of the first concrete byte of the pattern, if it has one.
pub fn first_byte_index(pat: &[Option<u8>]) -> (r: Option<usize>)
    ensures
        match r {
            Some(i) => is_first_byte(pat@, i as int),
            None => !has_byte(pat@),
        },
{
    let mut i: usize = 0;
    while i < pat.len()
        invariant
            i <= pat.len(),
            forall|j: int| 0 <= j < i ==> (#[trigger] pat@[j]) is None,
        decreases pat.len() - i,
    {
        if pat[i].is_some() {
            return Some(i);
        }
        i += 1;
    }
    None
}

/// Rounds `size` up to a multiple of `w`; returns the number of chunks and the
/// padded size.
pub fn round_up(size: usize, w: usize) -> (r: (usize, usize))
    requires
        w >= 1,
        size + w <= usize::MAX,
    ensures
        r.0 == chunk_count(size as nat, w as nat),
        r.1 == padded_len(size as nat, w as nat),
        size <= r.1 < size + w,
{
    let rest: usize = size % w;
    proof {
        lemma_padded_bounds(size as nat, w as nat);
    }
    if rest == 0 {
        (size / w, size)
    } else {
        (size / w + 1, size + (w - rest))
    }
}

/// Builds the zero-padded byte image and the mask image of a trimmed pattern.
pub fn pad_images(q: &[Option<u8>], padded: usize) -> (r: (Vec<u8>, Vec<bool>))
    ensures
        r.0@ == byte_image(q@, padded as nat),
        r.1@ == mask_image(q@, padded as nat),
{
    let mut bytes: Vec<u8> = Vec::new();
    let mut mask: Vec<bool> = Vec::new();
    let mut j: usize = 0;
    while j < padded
        invariant
            j <= padded,
            bytes@ == byte_image(q@, j as nat),
            mask@ == mask_image(q@, j as nat),
        decreases padded - j,
    {
        let cell: Option<u8> = if j < q.len() {
            q[j]
        } else {
            None
        };
        match cell {
            Some(v) => {
                bytes.push(v);
                mask.push(true);
            },
            None => {
                bytes.push(0u8);
                mask.push(false);
            },
        }
        j += 1;
        proof {
            assert(bytes@ =~= byte_image(q@, j as nat));
            assert(mask@ =~= mask_image(q@, j as nat));
        }
    }
    (bytes, mask)
}

/// A vector of `w` lanes that all hold `byte`.
pub fn broadcast_byte(byte: u8, w: usize) -> (v: Vec<u8>)
    ensures
        v@ == Seq::new(w as nat, |i: int| byte),
{
    let mut v: Vec<u8> = Vec::new();
    let mut i: usize = 0;
    while i < w
        invariant
            i <= w,
            v@ == Seq::new(i as nat, |k: int| byte),
        decreases w - i,
    {
        v.push(byte);
        i += 1;
        proof {
            assert(v@ =~= Seq::new(i as nat, |k: int| byte));
        }
    }
    v
}

/// Cuts the chunk of `w` lanes that starts at lane `base` out of the two
/// images.
pub fn cut_chunk(bytes: &Vec<u8>, mask: &Vec<bool>, base: usize, w: usize) -> (c: PatternChunk)
    requires
        w >= 1,
        base + w <= bytes.len(),
        bytes.len() == mask.len(),
    ensures
        c.bytes@ == bytes@.subrange(base as int, base + w),
        c.mask@ == mask@.subrange(base as int, base + w),
        c.first_byte@ == Seq::new(w as nat, |i: int| bytes@[base as int]),
{
    PatternChunk {
        first_byte: broadcast_byte(bytes[base], w),
        mask: slice_to_vec(slice_subrange(mask.as_slice(), base, base + w)),
        bytes: slice_to_vec(slice_subrange(bytes.as_slice(), base, base + w)),
    }
}

impl PreparedPattern {
    /// Prepares a pattern for searching at the given width: strips the
    /// wildcards at both ends, pads what is left to whole chunks and cuts it
    /// into the chunk table. A pattern without a concrete byte is rejected.
    pub fn prepare(pat: Pattern, width: LaneWidth) -> (r: Result<
        PreparedPattern,
        PatternError,
    >)
        requires
            pat.len() + MAX_LANES <= usize::MAX,
        ensures
            match r {
                Ok(p) => has_byte(pat@) && p.is_preparation_of(pat@, width.lanes() as nat),
                Err(e) => !has_byte(pat@) && e == PatternError::EmptyOrAllWildcard,
            },
    {
        let last: usize = match last_byte_index(pat) {
            Some(i) => i,
            None => {
                return Err(PatternError::EmptyOrAllWildcard);
            },
        };
        let start_offset: usize = match first_byte_index(pat) {
            Some(i) => i,
            None => {
                return Err(PatternError::EmptyOrAllWildcard);
            },
        };
        let trimmed: &[Option<u8>] = slice_subrange(pat, start_offset, last + 1);
        let size: usize = trimmed.len();
        let w: usize = width.lanes();
        let (count, padded_size) = round_up(size, w);
        let (bytes, mask) = pad_images(trimmed, padded_size);

        let mut chunks: Vec<PatternChunk> = Vec::new();
        let mut k: usize = 0;
        let mut base: usize = 0;
        while k < count
            invariant
                w >= 1,
                k <= count,
                base == k * w,
                count * w == padded_size,
                count == chunk_count(trimmed@.len(), w as nat),
                padded_size == padded_len(trimmed@.len(), w as nat),
                bytes@ == byte_image(trimmed@, padded_size as nat),
                mask@ == mask_image(trimmed@, padded_size as nat),
                chunks@.len() == k,
                forall|n: int|
                    0 <= n < k ==> (#[trigger] chunks@[n])@ == chunk_lanes(trimmed@, w as nat, n),
            decreases count - k,
        {
            proof {
                assert((k + 1) * w == k * w + w) by (nonlinear_arith);
                assert((k + 1) * w <= count * w) by (nonlinear_arith)
                    requires
                        k + 1 <= count,
                        w >= 1,
                ;
            }
            let chunk = cut_chunk(&bytes, &mask, base, w);
            proof {
                let want = chunk_lanes(trimmed@, w as nat, k as int);
                assert(chunk@.first_byte =~= want.first_byte);
                assert(chunk@.mask == want.mask);
                assert(chunk@.bytes == want.bytes);
            }
            chunks.push(chunk);
            k += 1;
            base += w;
        }
        let prepared = PreparedPattern {
            chunks,
            orig_pat: slice_to_vec(trimmed),
            size,
            padded_size,
            start_offset,
            trailing: pat.len() - 1 - last,
            width: w,
        };
        proof {
            assert(prepared.table() =~= chunk_table(prepared.orig_pat@, w as nat));
        }
        Ok(prepared)
    }
}

/// The padded length is the least multiple of the width that holds the
/// pattern.
pub proof fn lemma_padded_bounds(size: nat, w: nat)
    requires
        w >= 1,
    ensures
        size <= padded_len(size, w) < size + w,
        padded_len(size, w) % w == 0,
        size >= 1 ==> chunk_count(size, w) >= 1,
        size % w == 0 ==> padded_len(size, w) == size,
        size % w != 0 ==> padded_len(size, w) == size + (w - size % w),
{
    vstd::arithmetic::div_mod::lemma_fundamental_div_mod(size as int, w as int);
    vstd::arithmetic::mul::lemma_mul_is_commutative(w as int, size as int / w as int);
    vstd::arithmetic::mul::lemma_mul_is_distributive_add_other_way(
        w as int,
        size as int / w as int,
        1,
    );
    vstd::arithmetic::div_mod::lemma_mod_multiples_basic(chunk_count(size, w) as int, w as int);
    if size >= 1 && size % w == 0 {
        assert(size / w >= 1) by (nonlinear_arith)
            requires
                size >= 1,
                w >= 1,
                size == w * (size / w),
        ;
    }
}

impl PreparedPattern {
    /// What the invariant says of one lane of one chunk.
    pub proof fn lemma_chunk_lane(&self, k: int, i: int)
        requires
            self.wf(),
            0 <= k < self.chunks@.len(),
            0 <= i < self.width,
        ensures
            self.chunks@.len() * self.width == self.padded_size,
            k * self.width + self.width <= self.padded_size,
            0 <= k * self.width,
            self.chunks@[k].first_byte@.len() == self.width,
            self.chunks@[k].mask@.len() == self.width,
            self.chunks@[k].bytes@.len() == self.width,
            self.chunks@[k].first_byte@[i] == lane_byte(self.orig_pat@, k * self.width),
            self.chunks@[k].mask@[i] == lane_mask(self.orig_pat@, k * self.width + i),
            self.chunks@[k].bytes@[i] == lane_byte(self.orig_pat@, k * self.width + i),
    {
        let w = self.width as int;
        let n = self.chunks@.len() as int;
        assert(self.table().len() == n);
        assert(n == chunk_count(self.size as nat, self.width as nat));
        assert(self.table()[k] == chunk_lanes(self.orig_pat@, self.width as nat, k));
        assert(self.table()[k] == self.chunks@[k]@);
        assert(k * w + w <= n * w && 0 <= k * w) by (nonlinear_arith)
            requires
                0 <= k < n,
                w >= 1,
        ;
    }
}

} // verus!
