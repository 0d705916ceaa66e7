use vstd::prelude::*;

use crate::iters::capped_max_by;
use crate::iters::capped_pick;
use crate::iters::lemma_capped_pick_prefix;
use crate::iters::lemma_capped_pick_range;
use crate::spec_run;
use crate::Ref;

verus! {

/// How a reference is picked among the candidates.
#[derive(Copy, Clone, Debug, Eq, PartialEq, Structural)]
pub enum Picker {
    Longest,
    DropFarThrees,
}

/// The runs of the candidates, as scores.
pub open spec fn run_scores(candidates: Seq<Ref>) -> Seq<u64> {
    Seq::new(candidates.len(), |i: int| spec_run(candidates[i]) as u64)
}

/// The longest candidate, the first of several equally long; the search stops at the first
/// that reaches `cap`.
pub open spec fn spec_longest(candidates: Seq<Ref>, cap: u16) -> Option<Ref> {
    if candidates.len() == 0 {
        None
    } else {
        Some(candidates[capped_pick(run_scores(candidates), cap as u64)])
    }
}

/// The longest candidate, unless it is a run of three from more than 4096 bytes back.
pub open spec fn spec_drop_far_threes(candidates: Seq<Ref>, cap: u16) -> Option<Ref> {
    match spec_longest(candidates, cap) {
        Some(r) => if spec_run(r) > 3 || r.dist <= 4096 {
            Some(r)
        } else {
            None
        },
        None => None,
    }
}

impl Picker {
    pub fn picker(&self, candidates: &[Ref], cap: u16) -> (r: Option<Ref>)
        ensures
            r == match *self {
                Picker::Longest => spec_longest(candidates@, cap),
                Picker::DropFarThrees => spec_drop_far_threes(candidates@, cap),
            },
    {
        match *self {
            Picker::Longest => longest(candidates, cap),
            Picker::DropFarThrees => drop_far_threes(candidates, cap),
        }
    }
}

/// The longest candidate; see `spec_longest`.
pub fn longest(candidates: &[Ref], cap: u16) -> (r: Option<Ref>)
    ensures
        r == spec_longest(candidates@, cap),
{
    let cap64 = cap as u64;
    let score = |r: &Ref| -> (s: u64)
        ensures
            s == spec_run(*r),
        { r.run() as u64 };
    let r = capped_max_by(candidates, &cap64, score);
    proof {
        if let Some(v) = r {
            let scores = choose|scores: Seq<u64>|
                {
                    &&& 1 <= scores.len() <= candidates@.len()
                    &&& forall|j: int|
                        0 <= j < scores.len() ==> call_ensures(score, (&candidates@[j],), #[trigger] scores[j])
                    &&& forall|j: int| 0 <= j < scores.len() - 1 ==> #[trigger] scores[j] < cap64
                    &&& scores.len() < candidates@.len() ==> scores.last() >= cap64
                    &&& v == candidates@[capped_pick(scores, cap64)]
                };
            let full = run_scores(candidates@);
            let k = scores.len() as int;
            assert forall|j: int| 0 <= j < k implies scores[j] == full[j] by {
                assert(call_ensures(score, (&candidates@[j],), scores[j]));
            }
            assert(scores =~= full.take(k));
            lemma_capped_pick_prefix(full, k, cap64);
        }
    }
    r
}

/// The longest candidate, unless it is a run of three from far back; see
/// `spec_drop_far_threes`.
pub fn drop_far_threes(candidates: &[Ref], cap: u16) -> (r: Option<Ref>)
    ensures
        r == spec_drop_far_threes(candidates@, cap),
{
    match longest(candidates, cap) {
        Some(r) => if r.run() > 3 || r.dist <= 4096 {
            Some(r)
        } else {
            None
        },
        None => None,
    }
}

} // verus!
