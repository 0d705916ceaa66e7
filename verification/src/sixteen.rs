use vstd::prelude::*;

verus! {

/// How many leading bytes two strings share, where the first is taken to match already:
/// checking stops at the shorter string's end, or at 258 bytes.
pub fn matching(left: &[u8], right: &[u8]) -> (r: u16)
    ensures
        ({
            let shortest = if left.len() < right.len() { left.len() as int } else { right.len() as int };
            let shortest = if shortest < 258 { shortest } else { 258 };
            &&& 0 < shortest ==> 1 <= r
            &&& r <= shortest
            &&& forall|i: int| 1 <= i < r ==> left[i] == right[i]
            &&& r < shortest ==> left[r as int] != right[r as int]
        }),
{
    let mut shortest: usize = if left.len() < right.len() { left.len() } else { right.len() };
    if shortest > 258 {
        shortest = 258;
    }
    let shortest = shortest as u16;
    let mut i: u16 = 1;
    while i < shortest
        invariant
            1 <= i,
            shortest <= 258,
            shortest <= left.len(),
            shortest <= right.len(),
            forall|k: int| 1 <= k < i ==> left[k] == right[k],
        decreases shortest - i,
    {
        if left[i as usize] != right[i as usize] {
            return i;
        }
        i += 1;
    }
    shortest
}

} // verus!
