use vstd::prelude::*;

use crate::all_refs::candidates;
use crate::all_refs::lemma_candidates_bounds;
use crate::all_refs::run_limit;
use crate::all_refs::AllRefs;
use crate::iters::capped_pick;
use crate::iters::lemma_capped_pick_range;
use crate::lookahead::Lookahead;
use crate::picker::run_scores;
use crate::picker::spec_drop_far_threes;
use crate::picker::spec_longest;
use crate::picker::Picker;
use crate::spec_run;
use crate::Code;
use crate::Ref;
use crate::decodes::lemma_candidates_match;
use crate::decodes::matches_at;

verus! {

/// The candidate that `picker` picks, the search stopping at a run of 258.
pub open spec fn spec_pick(picker: Picker, c: Seq<Ref>) -> Option<Ref> {
    match picker {
        Picker::Longest => spec_longest(c, 258),
        Picker::DropFarThrees => spec_drop_far_threes(c, 258),
    }
}

/// An encoder's way of choosing codes: the references it can find, how it looks ahead, and
/// how it picks among candidates.
pub struct Technique<'a, 'p: 'a, 'd: 'a> {
    pub all_refs: &'a AllRefs<'p, 'd>,
    pub lookahead: Lookahead,
    pub picker: Picker,
}

impl<'a, 'p, 'd> Technique<'a, 'p, 'd> {
    /// The data's length.
    pub open spec fn len(&self) -> int {
        self.all_refs.data_bytes().len() as int
    }

    /// The byte at data position `pos`, and the reference picked there, if any.
    pub open spec fn spec_best(&self, pos: int) -> (u8, Option<Ref>) {
        (
            self.all_refs.data_bytes()[pos],
            if pos + 2 < self.len() {
                spec_pick(
                    self.picker,
                    candidates(self.all_refs.bytes(), self.all_refs.preroll_len() + pos),
                )
            } else {
                None
            },
        )
    }

    pub fn data_len(&self) -> (r: usize)
        ensures
            r == self.len(),
    {
        self.all_refs.data_len()
    }

    /// The picked reference reaches back 1 to 32768 bytes, and runs from 3 bytes to no
    /// further than the data.
    pub proof fn lemma_best_bounds(&self, pos: int)
        requires
            0 <= pos,
            self.all_refs.bytes().len() == self.all_refs.preroll_len() + self.len(),
        ensures
            self.spec_best(pos).1 matches Some(r) ==> 1 <= r.dist <= 32768 && 3 <= spec_run(r) && pos
                + spec_run(r) <= self.len(),
    {
        let s = self.all_refs.bytes();
        let plen = self.all_refs.preroll_len() as int;
        if pos + 2 < self.len() {
            let c = candidates(s, plen + pos);
            if let Some(r) = self.spec_best(pos).1 {
                lemma_capped_pick_range(run_scores(c), 258);
                let k = capped_pick(run_scores(c), 258);
                assert(c[k] == r);
                lemma_candidates_bounds(s, plen + pos);
                assert(spec_run(c[k]) <= run_limit(s, plen + pos));
            }
        }
    }

    /// The byte at `pos` is the literal there, and the reference picked there stands for the
    /// bytes there.
    pub proof fn lemma_best_matches(&self, pos: int)
        requires
            0 <= pos < self.len(),
            self.all_refs.bytes().len() == self.all_refs.preroll_len() + self.len(),
            forall|i: int|
                0 <= i < self.len() ==> #[trigger] self.all_refs.bytes()[self.all_refs.preroll_len() + i]
                    == self.all_refs.data_bytes()[i],
        ensures
            matches_at(
                self.all_refs.bytes(),
                self.all_refs.preroll_len() + pos,
                Code::Literal(self.spec_best(pos).0),
            ),
            self.spec_best(pos).1 matches Some(r) ==> matches_at(
                self.all_refs.bytes(),
                self.all_refs.preroll_len() + pos,
                Code::Reference(r),
            ),
    {
        let s = self.all_refs.bytes();
        let plen = self.all_refs.preroll_len() as int;
        assert(s[plen + pos] == self.all_refs.data_bytes()[pos]);
        if pos + 2 < self.len() {
            let c = candidates(s, plen + pos);
            if let Some(r) = self.spec_best(pos).1 {
                lemma_capped_pick_range(run_scores(c), 258);
                let k = capped_pick(run_scores(c), 258);
                assert(c[k] == r);
                lemma_candidates_match(s, plen + pos);
                assert(matches_at(s, plen + pos, Code::Reference(c[k])));
            }
        }
    }

    /// The byte at `pos`, and the reference picked there.
    pub fn best_candidate(&self, pos: usize) -> (r: (u8, Option<Ref>))
        requires
            self.all_refs.wf(),
            pos < self.len(),
        ensures
            r == self.spec_best(pos as int),
    {
        proof {
            self.all_refs.lemma_bytes_len();
        }
        let cursor = self.all_refs.at(pos);
        let picked = match cursor.all_refs() {
            Some(found) => self.picker.picker(found.as_slice(), 258),
            None => None,
        };
        (self.byte_at(pos), picked)
    }

    /// The data's byte at `pos`.
    pub fn byte_at(&self, pos: usize) -> (r: u8)
        requires
            self.all_refs.wf(),
            pos < self.len(),
        ensures
            r == self.all_refs.data_bytes()[pos as int],
    {
        proof {
            self.all_refs.lemma_bytes_len();
        }
        match self.all_refs.at(pos).current_literal() {
            Code::Literal(b) => b,
            Code::Reference(_) => 0,
        }
    }

    /// The codes guessed at `pos`.
    pub fn codes_at(&self, pos: usize) -> (r: Vec<Code>)
        requires
            self.all_refs.wf(),
            pos < self.len(),
        ensures
            r@ == self.lookahead.spec_lookahead(*self, pos as int),
    {
        self.lookahead.lookahead(self, pos)
    }
}


} // verus!
