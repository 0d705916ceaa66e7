use vstd::prelude::*;

verus! {

/// Where a capped search for the best score stops: the first score that reaches `cap`, or,
/// if none does, the first of the highest scores.
pub open spec fn capped_pick(scores: Seq<u64>, cap: u64) -> int
    decreases scores.len(),
{
    if scores.len() <= 1 {
        0
    } else {
        let m = capped_pick(scores.drop_last(), cap);
        if scores[m] >= cap || scores.last() <= scores[m] {
            m
        } else {
            scores.len() - 1
        }
    }
}

/// The pick lies among the scores.
pub proof fn lemma_capped_pick_range(scores: Seq<u64>, cap: u64)
    requires
        scores.len() >= 1,
    ensures
        0 <= capped_pick(scores, cap) < scores.len(),
    decreases scores.len(),
{
    if scores.len() > 1 {
        lemma_capped_pick_range(scores.drop_last(), cap);
    }
}

/// Once the pick reaches the cap, later scores do not move it.
pub proof fn lemma_capped_pick_stays(scores: Seq<u64>, cap: u64, k: int)
    requires
        1 <= k <= scores.len(),
        scores[capped_pick(scores.take(k), cap)] >= cap,
    ensures
        capped_pick(scores, cap) == capped_pick(scores.take(k), cap),
    decreases scores.len() - k,
{
    lemma_capped_pick_range(scores.take(k), cap);
    if k < scores.len() {
        assert(scores.take(k + 1).drop_last() =~= scores.take(k));
        assert(scores.take(k)[capped_pick(scores.take(k), cap)] == scores[capped_pick(scores.take(k), cap)]);
        lemma_capped_pick_stays(scores, cap, k + 1);
    } else {
        assert(scores.take(k) =~= scores);
    }
}

/// The pick of a search that stopped early, at the first score that reached the cap, is the
/// pick of the whole.
pub proof fn lemma_capped_pick_prefix(full: Seq<u64>, k: int, cap: u64)
    requires
        1 <= k <= full.len(),
        k < full.len() ==> full[k - 1] >= cap && forall|j: int| 0 <= j < k - 1 ==> #[trigger] full[j] < cap,
    ensures
        capped_pick(full, cap) == capped_pick(full.take(k), cap),
{
    if k < full.len() {
        let s = full.take(k);
        if k > 1 {
            lemma_capped_pick_range(s.drop_last(), cap);
            assert(s.drop_last() =~= full.take(k - 1));
            assert(s.drop_last()[capped_pick(s.drop_last(), cap)] < cap);
        }
        assert(capped_pick(s, cap) == k - 1);
        lemma_capped_pick_stays(full, cap, k);
    } else {
        assert(full.take(k) =~= full);
    }
}

/// The item with the highest score, the first of them if several share it; the search stops at
/// the first item whose score reaches `cap`. `None` for no items.
pub fn capped_max_by<T: Copy, F: Fn(&T) -> u64>(items: &[T], cap: &u64, func: F) -> (r: Option<T>)
    requires
        forall|t: &T| #[trigger] func.requires((t,)),
    ensures
        items@.len() == 0 <==> r is None,
        r matches Some(v) ==> exists|scores: Seq<u64>|
            {
                &&& 1 <= scores.len() <= items@.len()
                &&& forall|j: int| 0 <= j < scores.len() ==> call_ensures(func, (&items@[j],), #[trigger] scores[j])
                &&& forall|j: int| 0 <= j < scores.len() - 1 ==> #[trigger] scores[j] < *cap
                &&& scores.len() < items@.len() ==> scores.last() >= *cap
                &&& v == items@[capped_pick(scores, *cap)]
            },
{
    if items.len() == 0 {
        return None;
    }
    let mut max = items[0];
    let mut max_score = func(&max);
    let ghost mut scores: Seq<u64> = seq![max_score];
    let ghost mut m: int = 0;
    proof {
        assert(items@[0] == max);
    }

    if max_score >= *cap {
        proof {
            assert(capped_pick(scores, *cap) == 0);
        }
        return Some(max);
    }

    let mut i: usize = 1;
    while i < items.len()
        invariant
            1 <= i <= items@.len(),
            forall|t: &T| #[trigger] func.requires((t,)),
            scores.len() == i,
            forall|j: int| 0 <= j < scores.len() ==> call_ensures(func, (&items@[j],), #[trigger] scores[j]),
            forall|j: int| 0 <= j < scores.len() ==> #[trigger] scores[j] < *cap,
            m == capped_pick(scores, *cap),
            0 <= m < i,
            max == items@[m],
            max_score == scores[m],
        decreases items@.len() - i,
    {
        let candidate = items[i];
        let candidate_score = func(&candidate);
        let ghost before = scores;
        proof {
            scores = scores.push(candidate_score);
            assert(scores.drop_last() =~= before);
            assert(items@[i as int] == candidate);
        }
        if candidate_score > max_score {
            max = candidate;
            max_score = candidate_score;
            proof {
                m = i as int;
            }
            if max_score >= *cap {
                proof {
                    assert(scores.len() == i + 1);
                }
                return Some(max);
            }
        }
        i += 1;
    }

    Some(max)
}

} // verus!
