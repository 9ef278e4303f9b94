//! The searcher: a cursor over a haystack that yields, call by call, the
//! offsets at which a pattern matches.

use crate::lanes::MAX_LANES;
use crate::matching::{
    has_byte, is_first_match_from, lemma_leading_wildcards, lemma_match_in_subrange,
    lemma_scan_first_match, lemma_scan_without_match, lemma_trailing_wildcards, matches_at,
    no_match_from, scan_from, wildcards,
};
use crate::pattern::{lemma_padded_bounds, LaneWidth, Pattern, PatternError, PreparedPattern};
use crate::probe::{find_pattern, lemma_skip_is_safe, probe, Probe};
use vstd::prelude::*;
use vstd::slice::slice_subrange;

verus! {

/// The trimmed pattern matches at the absolute position `c`, and the
/// wildcards stripped from both ends have room around it.
pub open spec fn hit(hay: Seq<u8>, p: PreparedPattern, c: int) -> bool {
    &&& p.start_offset <= c
    &&& matches_at(hay, p.orig_pat@, c)
    &&& c + p.size + p.trailing <= hay.len()
}

/// The pattern as written matches at `o` exactly when the trimmed pattern
/// hits at `o` plus the number of leading wildcards.
pub proof fn lemma_hit(hay: Seq<u8>, p: PreparedPattern, o: int)
    requires
        p.wf(),
    ensures
        matches_at(hay, p.cells(), o) <==> hit(hay, p, o + p.start_offset),
{
    let q = p.orig_pat@;
    let tail = q + wildcards(p.trailing as nat);
    assert(p.cells() =~= wildcards(p.start_offset as nat) + tail);
    lemma_leading_wildcards(hay, tail, p.start_offset as nat, o);
    lemma_trailing_wildcards(hay, q, p.trailing as nat, o + p.start_offset);
}

/// The prepared form of a pattern stands for exactly that pattern.
pub proof fn lemma_cells_of_preparation(p: PreparedPattern, pat: Seq<Option<u8>>, w: nat)
    requires
        p.is_preparation_of(pat, w),
    ensures
        p.cells() == pat,
{
    assert(p.cells() =~= pat);
}

/// A lazy producer of match offsets over one haystack.
pub struct PatternSearcher<'data> {
    data: &'data [u8],
    cursor: usize,
    pattern: PreparedPattern,
}

impl<'data> PatternSearcher<'data> {
    #[verifier::type_invariant]
    spec fn inv(self) -> bool {
        &&& self.pattern.wf()
        &&& self.pattern.start_offset <= self.cursor
    }

    /// The haystack that is searched.
    pub closed spec fn haystack(&self) -> Seq<u8> {
        self.data@
    }

    /// The pattern that is searched for, as the caller wrote it.
    pub closed spec fn cells(&self) -> Seq<Option<u8>> {
        self.pattern.cells()
    }

    /// The lowest offset that has not been ruled out or yielded yet.
    pub closed spec fn floor(&self) -> nat {
        (self.cursor - self.pattern.start_offset) as nat
    }

    /// The number of lanes of the vectors that the searcher compares with.
    pub closed spec fn width(&self) -> nat {
        self.pattern.width as nat
    }

    /// One call of `next` that returns `r` takes this searcher to `after`:
    /// `r` is the lowest match not below the floor, and the floor moves one
    /// byte past it; or there is no such match, and `r` is `None`.
    pub open spec fn steps_to(&self, r: Option<usize>, after: &Self) -> bool {
        &&& after.haystack() == self.haystack()
        &&& after.cells() == self.cells()
        &&& after.width() == self.width()
        &&& match r {
            Some(o) => {
                &&& is_first_match_from(self.haystack(), self.cells(), self.floor() as int, o as int)
                &&& after.floor() == o + 1
            },
            None => {
                &&& no_match_from(self.haystack(), self.cells(), self.floor() as int)
                &&& after.floor() >= self.floor()
            },
        }
    }

    /// A searcher for `pattern` in `data`, with vectors of 16 lanes. A
    /// pattern without a concrete byte is rejected.
    pub fn new(data: &'data [u8], pattern: Pattern) -> (r: Result<Self, PatternError>)
        requires
            pattern.len() + MAX_LANES <= usize::MAX,
        ensures
            match r {
                Ok(s) => {
                    &&& has_byte(pattern@)
                    &&& s.haystack() == data@
                    &&& s.cells() == pattern@
                    &&& s.floor() == 0
                    &&& s.width() == 16
                },
                Err(e) => !has_byte(pattern@) && e == PatternError::EmptyOrAllWildcard,
            },
    {
        Self::with_width(data, pattern, LaneWidth::W16)
    }

    /// A searcher for `pattern` in `data`, with vectors of the given width.
    /// A pattern without a concrete byte is rejected.
    pub fn with_width(data: &'data [u8], pattern: Pattern, width: LaneWidth) -> (r: Result<
        Self,
        PatternError,
    >)
        requires
            pattern.len() + MAX_LANES <= usize::MAX,
        ensures
            match r {
                Ok(s) => {
                    &&& has_byte(pattern@)
                    &&& s.haystack() == data@
                    &&& s.cells() == pattern@
                    &&& s.floor() == 0
                    &&& s.width() == width.lanes()
                },
                Err(e) => !has_byte(pattern@) && e == PatternError::EmptyOrAllWildcard,
            },
    {
        match PreparedPattern::prepare(pattern, width) {
            Ok(prepared) => {
                proof {
                    lemma_cells_of_preparation(prepared, pattern@, width.lanes() as nat);
                }
                Ok(PatternSearcher { data, cursor: prepared.start_offset, pattern: prepared })
            },
            Err(e) => Err(e),
        }
    }

    /// The next match: the lowest offset, not below the floor, at which the
    /// pattern matches the haystack. The search goes on one byte past it, so
    /// that overlapping matches are found. `None` where no match is left.
    pub fn next(&mut self) -> (r: Option<usize>)
        ensures
            old(self).steps_to(r, final(self)),
    {
        proof {
            use_type_invariant(&*self);
            lemma_padded_bounds(self.pattern.size as nat, self.pattern.width as nat);
        }
        let ghost hay = self.data@;
        let ghost first = self.cursor;
        let size: usize = self.pattern.size;
        let padded_size: usize = self.pattern.padded_size;
        let start_offset: usize = self.pattern.start_offset;
        if self.data.len() < self.pattern.trailing {
            proof {
                self.lemma_exhausted(*old(self));
            }
            return None;
        }
        let limit: usize = self.data.len() - self.pattern.trailing;
        loop
            invariant
                self.pattern == old(self).pattern,
                self.data@ == hay,
                old(self).data@ == hay,
                self.pattern.wf(),
                size == self.pattern.size,
                padded_size == self.pattern.padded_size,
                start_offset == self.pattern.start_offset,
                limit == self.data@.len() - self.pattern.trailing,
                size <= padded_size,
                self.pattern.width <= padded_size,
                size >= 1,
                first == old(self).cursor,
                start_offset <= first <= self.cursor,
                forall|c: int| first <= c < self.cursor ==> !#[trigger] hit(hay, self.pattern, c),
            decreases limit - self.cursor,
        {
            if limit < self.cursor || limit - self.cursor < size {
                proof {
                    assert forall|c: int| first <= c implies !#[trigger] hit(
                        hay,
                        self.pattern,
                        c,
                    ) by {}
                    self.lemma_exhausted(*old(self));
                }
                return None;
            }
            if limit - self.cursor < padded_size {
                let region = slice_subrange(self.data, self.cursor, limit);
                let ghost at = self.cursor;
                proof {
                    assert forall|o: int|
                        matches_at(region@, self.pattern.orig_pat@, o) <==> (0 <= o && hit(
                            hay,
                            self.pattern,
                            #[trigger] (at + o),
                        )) by {
                        lemma_match_in_subrange(
                            hay,
                            self.pattern.orig_pat@,
                            at as int,
                            limit as int,
                            o,
                        );
                    }
                }
                match find_pattern(region, self.pattern.orig_pat.as_slice()) {
                    Some(o) => {
                        let found: usize = self.cursor + o;
                        proof {
                            assert(hit(hay, self.pattern, at + o));
                            assert forall|c: int| first <= c < found implies !#[trigger] hit(
                                hay,
                                self.pattern,
                                c,
                            ) by {
                                if c >= at {
                                    assert(!matches_at(region@, self.pattern.orig_pat@, c - at));
                                    assert(c == at + (c - at));
                                }
                            }
                            self.lemma_found(*old(self), found as int);
                        }
                        self.cursor = found + 1;
                        return Some(found - start_offset);
                    },
                    None => {
                        proof {
                            assert forall|c: int| first <= c implies !#[trigger] hit(
                                hay,
                                self.pattern,
                                c,
                            ) by {
                                if c >= at {
                                    assert(!matches_at(region@, self.pattern.orig_pat@, c - at));
                                    assert(c == at + (c - at));
                                }
                            }
                            self.lemma_exhausted(*old(self));
                        }
                        return None;
                    },
                }
            }
            match probe(self.data, self.cursor, &self.pattern) {
                Probe::Hit => {
                    let found: usize = self.cursor;
                    proof {
                        self.lemma_found(*old(self), found as int);
                    }
                    self.cursor = found + 1;
                    return Some(found - start_offset);
                },
                Probe::Skip(n) => {
                    proof {
                        lemma_skip_is_safe(hay, self.cursor as int, self.pattern, n);
                    }
                    self.cursor = self.cursor + n;
                },
            }
        }
    }

    /// Every match that is left, in increasing order: what `next` would yield
    /// call by call until it returns `None`. It is the sliding-window scan of
    /// the haystack from the floor on.
    pub fn remaining_matches(&mut self) -> (r: Vec<usize>)
        ensures
            final(self).haystack() == old(self).haystack(),
            final(self).cells() == old(self).cells(),
            final(self).width() == old(self).width(),
            final(self).floor() >= old(self).floor(),
            r@.map_values(|o: usize| o as int) == scan_from(
                old(self).haystack(),
                old(self).cells(),
                old(self).floor() as int,
            ),
            no_match_from(final(self).haystack(), final(self).cells(), final(self).floor() as int),
    {
        let ghost hay = self.haystack();
        let ghost cells = self.cells();
        let ghost all = scan_from(hay, cells, self.floor() as int);
        let mut found: Vec<usize> = Vec::new();
        assert(found@.map_values(|o: usize| o as int) =~= Seq::<int>::empty());
        loop
            invariant
                hay == old(self).haystack(),
                cells == old(self).cells(),
                all == scan_from(hay, cells, old(self).floor() as int),
                self.haystack() == hay,
                self.cells() == cells,
                self.width() == old(self).width(),
                self.floor() >= old(self).floor(),
                all == found@.map_values(|o: usize| o as int) + scan_from(
                    hay,
                    cells,
                    self.floor() as int,
                ),
            decreases hay.len() + 1 - self.floor(),
        {
            let ghost floor = self.floor();
            let ghost before = found@;
            match self.next() {
                Some(o) => {
                    found.push(o);
                    proof {
                        lemma_scan_first_match(hay, cells, floor as int, o as int);
                        assert(found@.map_values(|o: usize| o as int) =~= before.map_values(
                            |o: usize| o as int,
                        ) + seq![o as int]);
                    }
                },
                None => {
                    proof {
                        lemma_scan_without_match(hay, cells, floor as int);
                        assert(no_match_from(hay, cells, self.floor() as int));
                    }
                    return found;
                },
            }
        }
    }

    /// Where the trimmed pattern hits nowhere from the cursor of `before` on,
    /// the pattern as written has no match from the floor of `before` on.
    proof fn lemma_exhausted(&self, before: Self)
        requires
            self.pattern.wf(),
            self.pattern == before.pattern,
            self.data@ == before.data@,
            before.pattern.start_offset <= before.cursor,
            forall|c: int| before.cursor <= c ==> !#[trigger] hit(self.data@, self.pattern, c),
        ensures
            no_match_from(before.haystack(), before.cells(), before.floor() as int),
    {
        assert forall|k: int| before.floor() <= k implies !#[trigger] matches_at(
            before.haystack(),
            before.cells(),
            k,
        ) by {
            lemma_hit(self.data@, self.pattern, k);
        }
    }

    /// Where the trimmed pattern hits at `found` and nowhere between the
    /// cursor of `before` and `found`, the pattern as written has its first
    /// match from the floor of `before` at `found` less its leading
    /// wildcards.
    proof fn lemma_found(&self, before: Self, found: int)
        requires
            self.pattern.wf(),
            self.pattern == before.pattern,
            self.data@ == before.data@,
            before.pattern.start_offset <= before.cursor <= found,
            hit(self.data@, self.pattern, found),
            forall|c: int| before.cursor <= c < found ==> !#[trigger] hit(self.data@, self.pattern, c),
        ensures
            is_first_match_from(
                before.haystack(),
                before.cells(),
                before.floor() as int,
                found - self.pattern.start_offset,
            ),
    {
        let s = self.pattern.start_offset as int;
        lemma_hit(self.data@, self.pattern, found - s);
        assert forall|k: int| before.floor() <= k < found - s implies !#[trigger] matches_at(
            before.haystack(),
            before.cells(),
            k,
        ) by {
            lemma_hit(self.data@, self.pattern, k);
        }
    }
}

} // verus!
