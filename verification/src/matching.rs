//! The mathematical model of matching: what it means for a pattern to match a
//! haystack at an offset, and the sliding-window scan that lists every match.

use vstd::prelude::*;

verus! {

/// A cell accepts a byte when it is a wildcard or holds exactly that byte.
pub open spec fn cell_accepts(cell: Option<u8>, byte: u8) -> bool {
    match cell {
        Some(v) => v == byte,
        None => true,
    }
}

/// The pattern lies wholly inside the haystack at `at`, and each of its cells
/// accepts the byte under it.
pub open spec fn matches_at(hay: Seq<u8>, pat: Seq<Option<u8>>, at: int) -> bool {
    &&& 0 <= at
    &&& at + pat.len() <= hay.len()
    &&& forall|i: int| 0 <= i < pat.len() ==> cell_accepts(#[trigger] pat[i], hay[at + i])
}

/// The pattern holds at least one concrete byte.
pub open spec fn has_byte(pat: Seq<Option<u8>>) -> bool {
    exists|i: int| 0 <= i < pat.len() && (#[trigger] pat[i]) is Some
}

/// `i` is the index of the first concrete byte of the pattern.
pub open spec fn is_first_byte(pat: Seq<Option<u8>>, i: int) -> bool {
    &&& 0 <= i < pat.len()
    &&& pat[i] is Some
    &&& forall|j: int| 0 <= j < i ==> (#[trigger] pat[j]) is None
}

/// `i` is the index of the last concrete byte of the pattern.
pub open spec fn is_last_byte(pat: Seq<Option<u8>>, i: int) -> bool {
    &&& 0 <= i < pat.len()
    &&& pat[i] is Some
    &&& forall|j: int| i < j < pat.len() ==> (#[trigger] pat[j]) is None
}

/// A run of `n` wildcards.
pub open spec fn wildcards(n: nat) -> Seq<Option<u8>> {
    Seq::new(n, |i: int| None::<u8>)
}

/// No offset from `from` on is a match.
pub open spec fn no_match_from(hay: Seq<u8>, pat: Seq<Option<u8>>, from: int) -> bool {
    forall|k: int| from <= k ==> !#[trigger] matches_at(hay, pat, k)
}

/// `at` is the lowest matching offset that is not below `from`.
pub open spec fn is_first_match_from(
    hay: Seq<u8>,
    pat: Seq<Option<u8>>,
    from: int,
    at: int,
) -> bool {
    &&& from <= at
    &&& matches_at(hay, pat, at)
    &&& forall|k: int| from <= k < at ==> !#[trigger] matches_at(hay, pat, k)
}

/// The sliding-window scan: try every offset from `from` upwards, one byte at
/// a time, and list those that match.
pub open spec fn scan_from(hay: Seq<u8>, pat: Seq<Option<u8>>, from: int) -> Seq<int>
    decreases hay.len() + 1 - from,
{
    if from < 0 || from + pat.len() > hay.len() {
        Seq::empty()
    } else {
        let rest = scan_from(hay, pat, from + 1);
        if matches_at(hay, pat, from) {
            seq![from] + rest
        } else {
            rest
        }
    }
}

/// Every offset that the scan lists over the whole haystack.
pub open spec fn scan(hay: Seq<u8>, pat: Seq<Option<u8>>) -> Seq<int> {
    scan_from(hay, pat, 0)
}

/// Where nothing matches from `from` on, the scan from there lists nothing.
pub proof fn lemma_scan_without_match(hay: Seq<u8>, pat: Seq<Option<u8>>, from: int)
    requires
        0 <= from,
        no_match_from(hay, pat, from),
    ensures
        scan_from(hay, pat, from) == Seq::<int>::empty(),
    decreases hay.len() + 1 - from,
{
    if from + pat.len() <= hay.len() {
        assert(!matches_at(hay, pat, from));
        lemma_scan_without_match(hay, pat, from + 1);
    }
}

/// The scan from `from` lists the first match and then goes on one byte past
/// it.
pub proof fn lemma_scan_first_match(hay: Seq<u8>, pat: Seq<Option<u8>>, from: int, at: int)
    requires
        0 <= from,
        is_first_match_from(hay, pat, from, at),
    ensures
        scan_from(hay, pat, from) == seq![at] + scan_from(hay, pat, at + 1),
    decreases at - from,
{
    if from < at {
        assert(!matches_at(hay, pat, from));
        lemma_scan_first_match(hay, pat, from + 1, at);
    }
}

/// Wildcards put in front of a pattern move each of its matches down by
/// their number, as far as the haystack's start allows.
pub proof fn lemma_leading_wildcards(hay: Seq<u8>, pat: Seq<Option<u8>>, n: nat, at: int)
    ensures
        matches_at(hay, wildcards(n) + pat, at) <==> (0 <= at && matches_at(hay, pat, at + n)),
{
    let wide = wildcards(n) + pat;
    if matches_at(hay, wide, at) {
        assert forall|i: int| 0 <= i < pat.len() implies cell_accepts(
            #[trigger] pat[i],
            hay[at + n + i],
        ) by {
            assert(cell_accepts(wide[n + i], hay[at + (n + i)]));
        }
    }
    if 0 <= at && matches_at(hay, pat, at + n) {
        assert forall|i: int| 0 <= i < wide.len() implies cell_accepts(
            #[trigger] wide[i],
            hay[at + i],
        ) by {
            if i >= n {
                assert(cell_accepts(pat[i - n], hay[at + n + (i - n)]));
            }
        }
    }
}

/// Wildcards put behind a pattern leave each of its matches where it is, as
/// far as the haystack's end allows.
pub proof fn lemma_trailing_wildcards(hay: Seq<u8>, pat: Seq<Option<u8>>, n: nat, at: int)
    ensures
        matches_at(hay, pat + wildcards(n), at) <==> (matches_at(hay, pat, at) && at + pat.len()
            + n <= hay.len()),
{
    let wide = pat + wildcards(n);
    if matches_at(hay, wide, at) {
        assert forall|i: int| 0 <= i < pat.len() implies cell_accepts(
            #[trigger] pat[i],
            hay[at + i],
        ) by {
            assert(cell_accepts(wide[i], hay[at + i]));
        }
    }
    if matches_at(hay, pat, at) && at + pat.len() + n <= hay.len() {
        assert forall|i: int| 0 <= i < wide.len() implies cell_accepts(
            #[trigger] wide[i],
            hay[at + i],
        ) by {
            if i < pat.len() {
                assert(cell_accepts(pat[i], hay[at + i]));
            }
        }
    }
}

/// A match inside a slice of the haystack is a match in the haystack that
/// ends before the slice does.
pub proof fn lemma_match_in_subrange(
    hay: Seq<u8>,
    pat: Seq<Option<u8>>,
    lo: int,
    hi: int,
    at: int,
)
    requires
        0 <= lo <= hi <= hay.len(),
    ensures
        matches_at(hay.subrange(lo, hi), pat, at) <==> (0 <= at && matches_at(hay, pat, lo + at)
            && lo + at + pat.len() <= hi),
{
    let part = hay.subrange(lo, hi);
    if matches_at(part, pat, at) {
        assert forall|i: int| 0 <= i < pat.len() implies cell_accepts(
            #[trigger] pat[i],
            hay[lo + at + i],
        ) by {
            assert(part[at + i] == hay[lo + at + i]);
        }
    }
    if 0 <= at && matches_at(hay, pat, lo + at) && lo + at + pat.len() <= hi {
        assert forall|i: int| 0 <= i < pat.len() implies cell_accepts(
            #[trigger] pat[i],
            part[at + i],
        ) by {
            assert(part[at + i] == hay[lo + at + i]);
        }
    }
}

} // verus!
