//! What holds of the searcher and of pattern preparation as a whole, stated
//! over the model of matching and proved from the functions' contracts.

use crate::matching::{
    has_byte, lemma_leading_wildcards, lemma_match_in_subrange, lemma_scan_first_match,
    lemma_scan_without_match, lemma_trailing_wildcards, matches_at, scan_from, wildcards,
};
use crate::pattern::{lemma_padded_bounds, PreparedPattern};
use crate::searcher::PatternSearcher;
use vstd::prelude::*;

verus! {

/// The searcher agrees with the sliding-window scan: a call that yields an
/// offset yields the scan's first entry from the floor on, and leaves the
/// rest of the scan to the calls that follow; a call that yields nothing
/// means the scan lists nothing.
pub proof fn theorem_next_follows_scan(
    before: PatternSearcher,
    r: Option<usize>,
    after: PatternSearcher,
)
    requires
        before.steps_to(r, &after),
    ensures
        scan_from(before.haystack(), before.cells(), before.floor() as int) == match r {
            Some(o) => seq![o as int] + scan_from(
                after.haystack(),
                after.cells(),
                after.floor() as int,
            ),
            None => Seq::<int>::empty(),
        },
{
    match r {
        Some(o) => {
            lemma_scan_first_match(
                before.haystack(),
                before.cells(),
                before.floor() as int,
                o as int,
            );
        },
        None => {
            lemma_scan_without_match(before.haystack(), before.cells(), before.floor() as int);
        },
    }
}

/// Two calls in a row that both yield an offset yield strictly increasing
/// offsets.
pub proof fn theorem_offsets_increase(
    s0: PatternSearcher,
    a: usize,
    s1: PatternSearcher,
    b: usize,
    s2: PatternSearcher,
)
    requires
        s0.steps_to(Some(a), &s1),
        s1.steps_to(Some(b), &s2),
    ensures
        a < b,
{
}

/// Once a call has yielded nothing, every later call yields nothing.
pub proof fn theorem_none_is_final(
    s0: PatternSearcher,
    s1: PatternSearcher,
    r: Option<usize>,
    s2: PatternSearcher,
)
    requires
        s0.steps_to(None, &s1),
        s1.steps_to(r, &s2),
    ensures
        r is None,
{
    if let Some(o) = r {
        assert(matches_at(s0.haystack(), s0.cells(), o as int));
    }
}

/// Every offset that is yielded is a match that lies inside the haystack
/// with the whole pattern as written, wildcards at both ends included.
pub proof fn theorem_offset_in_bounds(before: PatternSearcher, o: usize, after: PatternSearcher)
    requires
        before.steps_to(Some(o), &after),
    ensures
        matches_at(before.haystack(), before.cells(), o as int),
        0 <= o <= before.haystack().len() - before.cells().len(),
{
}

/// What a call yields depends on the haystack, the pattern and the floor
/// alone: two searchers that agree on these yield the same, whatever the
/// widths of their vectors, and agree again after a match.
pub proof fn theorem_width_independent(
    a: PatternSearcher,
    ra: Option<usize>,
    a_after: PatternSearcher,
    b: PatternSearcher,
    rb: Option<usize>,
    b_after: PatternSearcher,
)
    requires
        a.haystack() == b.haystack(),
        a.cells() == b.cells(),
        a.floor() == b.floor(),
        a.steps_to(ra, &a_after),
        b.steps_to(rb, &b_after),
    ensures
        ra == rb,
        ra is Some ==> a_after.floor() == b_after.floor(),
        a_after.haystack() == b_after.haystack(),
        a_after.cells() == b_after.cells(),
{
    match (ra, rb) {
        (Some(x), Some(y)) => {
            if x < y {
                assert(!matches_at(b.haystack(), b.cells(), x as int));
            }
            if y < x {
                assert(!matches_at(a.haystack(), a.cells(), y as int));
            }
        },
        (Some(x), None) => {
            assert(!matches_at(b.haystack(), b.cells(), x as int));
        },
        (None, Some(y)) => {
            assert(!matches_at(a.haystack(), a.cells(), y as int));
        },
        (None, None) => {},
    }
}

/// Preparing the same pattern at the same width twice gives the same
/// prepared pattern: the same trimmed cells, sizes and offsets, and chunk
/// tables that agree lane for lane.
pub proof fn theorem_preparation_is_determined(
    a: PreparedPattern,
    b: PreparedPattern,
    pat: Seq<Option<u8>>,
    w: nat,
)
    requires
        a.is_preparation_of(pat, w),
        b.is_preparation_of(pat, w),
    ensures
        a.start_offset == b.start_offset,
        a.trailing == b.trailing,
        a.size == b.size,
        a.padded_size == b.padded_size,
        a.width == b.width,
        a.orig_pat@ == b.orig_pat@,
        a.table() == b.table(),
{
    let sa = a.start_offset as int;
    let sb = b.start_offset as int;
    if sa < sb {
        assert(pat[sa] is None);
    }
    if sb < sa {
        assert(pat[sb] is None);
    }
    let la = sa + a.size - 1;
    let lb = sb + b.size - 1;
    if la < lb {
        assert(pat[lb] is None);
    }
    if lb < la {
        assert(pat[la] is None);
    }
}

/// The shape of every prepared pattern: the trimmed pattern is not empty and
/// starts and ends with a concrete byte, the padded size is the least
/// multiple of the width that holds it, there is one chunk for each `width`
/// lanes of it, and the leading wildcards are fewer than the cells of the
/// pattern as written.
pub proof fn theorem_prepared_shape(p: PreparedPattern)
    requires
        p.wf(),
    ensures
        p.size >= 1,
        p.size == p.orig_pat@.len(),
        p.orig_pat@.first() is Some,
        p.orig_pat@.last() is Some,
        p.size <= p.padded_size < p.size + p.width,
        p.padded_size % p.width == 0,
        p.chunks@.len() * p.width == p.padded_size,
        p.cells().len() == p.start_offset + p.size + p.trailing,
        p.start_offset < p.cells().len(),
        has_byte(p.cells()),
{
    lemma_padded_bounds(p.size as nat, p.width as nat);
    assert(p.table().len() == p.chunks@.len());
    p.lemma_chunk_lane(0, 0);
    assert(p.cells()[p.start_offset as int] == p.orig_pat@[0]);
}

/// Wildcards put in front of a pattern shift every offset of the scan down
/// by their number: the scan for the longer pattern from `from` lists what
/// the scan for the shorter lists from `from + n`, each less `n`.
pub proof fn theorem_leading_wildcards_shift(
    hay: Seq<u8>,
    pat: Seq<Option<u8>>,
    n: nat,
    from: int,
)
    requires
        0 <= from,
    ensures
        scan_from(hay, wildcards(n) + pat, from) == scan_from(hay, pat, from + n).map_values(
            |o: int| o - n,
        ),
    decreases hay.len() + 1 - from,
{
    let wide = wildcards(n) + pat;
    let shift = |o: int| o - n;
    if from + wide.len() > hay.len() {
        assert(scan_from(hay, pat, from + n).map_values(shift) =~= Seq::<int>::empty());
    } else {
        theorem_leading_wildcards_shift(hay, pat, n, from + 1);
        lemma_leading_wildcards(hay, pat, n, from);
        let rest = scan_from(hay, pat, from + n + 1);
        if matches_at(hay, pat, from + n) {
            assert((seq![from + n] + rest).map_values(shift) =~= seq![from] + rest.map_values(
                shift,
            ));
        }
    }
}

/// Wildcards put behind a pattern change no offset of the scan: they only
/// take away from the haystack's end the room that they need.
pub proof fn theorem_trailing_wildcards_keep(
    hay: Seq<u8>,
    pat: Seq<Option<u8>>,
    n: nat,
    from: int,
)
    requires
        0 <= from,
        n <= hay.len(),
    ensures
        scan_from(hay, pat + wildcards(n), from) == scan_from(
            hay.subrange(0, hay.len() - n),
            pat,
            from,
        ),
    decreases hay.len() + 1 - from,
{
    let wide = pat + wildcards(n);
    let short = hay.subrange(0, hay.len() - n);
    if from + wide.len() <= hay.len() {
        theorem_trailing_wildcards_keep(hay, pat, n, from + 1);
        lemma_trailing_wildcards(hay, pat, n, from);
        lemma_match_in_subrange(hay, pat, 0, hay.len() - n, from);
    }
}

} // verus!
