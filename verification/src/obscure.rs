use vstd::prelude::*;

verus! {

/// Whether `needle` lies strictly inside one of the spans `(start, len)` of `haystack`.
pub open spec fn obscured(haystack: Seq<(usize, u16)>, needle: usize) -> bool {
    exists|i: int| 0 <= i < haystack.len() && #[trigger] haystack[i].0 < needle < haystack[i].0 + haystack[i].1
}

/// The spans' ends fit in a `usize`.
pub open spec fn spans_fit(haystack: Seq<(usize, u16)>) -> bool {
    forall|i: int| 0 <= i < haystack.len() ==> #[trigger] haystack[i].0 + haystack[i].1 <= usize::MAX
}

/// The positions of `from` that no span of `by` obscures, in order.
pub fn obscure(from: &[usize], by: &[(usize, u16)]) -> (r: Vec<usize>)
    requires
        spans_fit(by@),
    ensures
        r@ == from@.filter(|x: usize| !obscured(by@, x)),
{
    let mut ret: Vec<usize> = Vec::new();
    let mut i: usize = 0;
    while i < from.len()
        invariant
            i <= from@.len(),
            spans_fit(by@),
            ret@ == from@.take(i as int).filter(|x: usize| !obscured(by@, x)),
        decreases from@.len() - i,
    {
        let item = from[i];
        proof {
            assert(from@.take(i + 1).drop_last() =~= from@.take(i as int));
            assert(from@.take(i + 1).last() == item);
            reveal(Seq::filter);
        }
        if !contains(by, item) {
            ret.push(item);
        }
        i += 1;
    }
    proof {
        assert(from@.take(i as int) =~= from@);
    }
    ret
}

/// Whether a span of `haystack` obscures `needle`.
pub fn contains(haystack: &[(usize, u16)], needle: usize) -> (r: bool)
    requires
        spans_fit(haystack@),
    ensures
        r == obscured(haystack@, needle),
{
    let mut i: usize = 0;
    while i < haystack.len()
        invariant
            i <= haystack@.len(),
            spans_fit(haystack@),
            forall|j: int| 0 <= j < i ==> !(#[trigger] haystack@[j].0 < needle < haystack@[j].0 + haystack@[j].1),
        decreases haystack@.len() - i,
    {
        let (start, len) = haystack[i];
        proof {
            assert(haystack@[i as int].0 + haystack@[i as int].1 <= usize::MAX);
        }
        if needle > start && needle < start + len as usize {
            return true;
        }
        i += 1;
    }
    false
}

} // verus!
