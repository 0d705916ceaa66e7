use vstd::prelude::*;

use crate::spec_emitted;
use crate::Code;
use crate::WindowSettings;

verus! {

/// The largest distance of the references among `codes`, `None` if there are none.
pub open spec fn spec_max_distance(codes: Seq<Code>) -> Option<u16>
    decreases codes.len(),
{
    if codes.len() == 0 {
        None
    } else {
        let rest = spec_max_distance(codes.drop_last());
        match codes.last() {
            Code::Literal(_) => rest,
            Code::Reference(r) => match rest {
                Some(d) => Some(if r.dist > d {
                    r.dist
                } else {
                    d
                }),
                None => Some(r.dist),
            },
        }
    }
}

/// The distance of a reference.
pub open spec fn ref_dist(c: Code) -> Option<u16> {
    match c {
        Code::Reference(r) => Some(r.dist),
        Code::Literal(_) => None,
    }
}

/// Whether some code among `codes` is a reference.
pub open spec fn has_reference(codes: Seq<Code>) -> bool {
    exists|i: int| 0 <= i < codes.len() && #[trigger] codes[i] is Reference
}

/// Walks the codes from the `i`th on, `pos` bytes into the block: whether a reference reaches
/// before the start of the block, and whether one (before that) reaches exactly its first
/// byte. The walk stops once it is more than 32768 bytes into the block.
pub open spec fn range_walk(codes: Seq<Code>, i: int, pos: int, hit_zero: bool) -> (bool, bool)
    decreases codes.len() - i,
{
    if i >= codes.len() || i < 0 {
        (false, hit_zero)
    } else {
        let (outside, hit) = match codes[i] {
            Code::Reference(r) => (r.dist > pos, hit_zero || r.dist == pos),
            Code::Literal(_) => (false, hit_zero),
        };
        if outside {
            (true, hit)
        } else {
            let next = pos + spec_emitted(codes[i]);
            if next > 32768 {
                (false, hit)
            } else {
                range_walk(codes, i + 1, next, hit)
            }
        }
    }
}

pub fn max_distance(codes: &[Code]) -> (r: Option<u16>)
    ensures
        r == spec_max_distance(codes@),
{
    let mut best: Option<u16> = None;
    let mut i: usize = 0;
    while i < codes.len()
        invariant
            i <= codes@.len(),
            best == spec_max_distance(codes@.take(i as int)),
        decreases codes@.len() - i,
    {
        proof {
            assert(codes@.take(i + 1).drop_last() =~= codes@.take(i as int));
        }
        if let Code::Reference(r) = codes[i] {
            best = match best {
                Some(d) => Some(if r.dist > d {
                    r.dist
                } else {
                    d
                }),
                None => Some(r.dist),
            };
        }
        i += 1;
    }
    proof {
        assert(codes@.take(i as int) =~= codes@);
    }
    best
}

/// Whether some code references before the start of the block, and whether some code
/// references exactly its first byte.
pub fn outside_range_or_hit_zero(codes: &[Code]) -> (r: (bool, bool))
    ensures
        r == range_walk(codes@, 0, 0, false),
{
    let mut pos: u16 = 0;
    let mut hit_zero = false;
    let mut i: usize = 0;
    while i < codes.len()
        invariant
            i <= codes@.len(),
            pos <= 32768,
            range_walk(codes@, i as int, pos as int, hit_zero) == range_walk(codes@, 0, 0, false),
        decreases codes@.len() - i,
    {
        let code = codes[i];
        if let Code::Reference(r) = code {
            if r.dist == pos {
                hit_zero = true;
            }
            if r.dist > pos {
                return (true, hit_zero);
            }
        }
        pos = pos + code.emitted_bytes();
        if pos > 32768 {
            return (false, hit_zero);
        }
        i += 1;
    }
    (false, hit_zero)
}

/// The encoder settings that the codes of a block show: the window is as large as the
/// furthest reference, and the first-byte bug is suspected when there is no preroll and no
/// reference reaches the block's first byte.
pub fn guess_settings(preroll: &[u8], codes: &[Code]) -> (r: WindowSettings)
    requires
        has_reference(codes@),
    ensures
        spec_max_distance(codes@) == Some(r.window_size),
        r.first_byte_bug == (preroll@.len() == 0 && !range_walk(codes@, 0, 0, false).1),
{
    proof {
        lemma_max_distance_some(codes@);
    }
    let window_size = max_distance(codes).unwrap();
    let (_, hits_first_byte) = outside_range_or_hit_zero(codes);
    WindowSettings { window_size, first_byte_bug: preroll.len() == 0 && !hits_first_byte }
}

/// A sequence with a reference has a largest distance.
pub proof fn lemma_max_distance_some(codes: Seq<Code>)
    ensures
        spec_max_distance(codes) is Some <==> has_reference(codes),
    decreases codes.len(),
{
    if codes.len() > 0 {
        lemma_max_distance_some(codes.drop_last());
        if has_reference(codes.drop_last()) {
            let i = choose|i: int| 0 <= i < codes.drop_last().len() && #[trigger] codes.drop_last()[i] is Reference;
            assert(codes[i] is Reference);
        }
        if has_reference(codes) && !(codes.last() is Reference) {
            let i = choose|i: int| 0 <= i < codes.len() && #[trigger] codes[i] is Reference;
            assert(codes.drop_last()[i] is Reference);
        }
        if codes.last() is Reference {
            assert(codes[codes.len() - 1] is Reference);
        }
    }
}

/// The largest distance is the distance of one of the references, and no reference is further.
pub proof fn lemma_max_distance_is_max(codes: Seq<Code>)
    ensures
        spec_max_distance(codes) matches Some(d) ==> {
            &&& exists|i: int| 0 <= i < codes.len() && ref_dist(#[trigger] codes[i]) == Some(d)
            &&& forall|i: int| 0 <= i < codes.len() ==> (#[trigger] codes[i] matches Code::Reference(r) ==> r.dist <= d)
        },
    decreases codes.len(),
{
    if codes.len() > 0 {
        let rest = codes.drop_last();
        lemma_max_distance_is_max(rest);
        if let Some(d) = spec_max_distance(codes) {
            assert forall|i: int| 0 <= i < codes.len() implies (#[trigger] codes[i] matches Code::Reference(r) ==> r.dist
                <= d) by {
                if i < codes.len() - 1 {
                    assert(codes[i] == rest[i]);
                    if codes[i] is Reference {
                        assert(has_reference(rest));
                        lemma_max_distance_some(rest);
                    }
                } else {
                    assert(codes[i] == codes.last());
                }
            }
            if spec_max_distance(rest) == Some(d) {
                let i = choose|i: int| 0 <= i < rest.len() && ref_dist(#[trigger] rest[i]) == Some(d);
                assert(codes[i] == rest[i]);
            } else {
                assert(codes[codes.len() - 1] == codes.last());
            }
        }
    }
}

} // verus!
