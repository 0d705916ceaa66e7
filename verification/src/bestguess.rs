use vstd::prelude::*;

use crate::all_refs::candidates;
use crate::all_refs::lemma_candidates_bounds;
use crate::all_refs::run_limit;
use crate::all_refs::AllRefs;
use crate::spec_emitted;
use crate::spec_run;
use crate::trace::emitted_sum;
use crate::usize_from;
use crate::errors::Error;
use crate::Code;
use crate::Ref;
use crate::circles::keep_last;
use crate::decodes::all_match;
use crate::decodes::lemma_all_match_cons;
use crate::decodes::lemma_candidates_match;
use crate::decodes::lemma_literals_match;
use crate::decodes::lemma_matching_codes_decode;
use crate::decodes::matches_at;
use crate::serialise::inflate;

verus! {

/// `a` is tried before `b`: it is longer, or as long and nearer.
pub open spec fn tried_before(a: Ref, b: Ref) -> bool {
    a.run_minus_3 > b.run_minus_3 || (a.run_minus_3 == b.run_minus_3 && a.dist < b.dist)
}

/// Where `x` goes in `t`: before the first item it is tried before.
pub open spec fn insert_at(t: Seq<Ref>, x: Ref, from: int) -> int
    decreases t.len() - from,
{
    if from >= t.len() {
        t.len() as int
    } else if tried_before(x, t[from]) {
        from
    } else {
        insert_at(t, x, from + 1)
    }
}

/// `x` put into `t` after everything that is not tried after it.
pub open spec fn insert_ref(t: Seq<Ref>, x: Ref) -> Seq<Ref> {
    let j = insert_at(t, x, 0);
    t.take(j) + seq![x] + t.skip(j)
}

/// The candidates in the order they are tried: longest first, then nearest first; the
/// order among equals is kept.
pub open spec fn sorted_refs(s: Seq<Ref>) -> Seq<Ref>
    decreases s.len(),
{
    if s.len() == 0 {
        s
    } else {
        insert_ref(sorted_refs(s.drop_last()), s.last())
    }
}

proof fn lemma_insert_at_range(t: Seq<Ref>, x: Ref, from: int)
    requires
        0 <= from <= t.len(),
    ensures
        from <= insert_at(t, x, from) <= t.len(),
        forall|k: int| from <= k < insert_at(t, x, from) ==> !tried_before(x, #[trigger] t[k]),
        insert_at(t, x, from) < t.len() ==> tried_before(x, t[insert_at(t, x, from)]),
    decreases t.len() - from,
{
    if from < t.len() && !tried_before(x, t[from]) {
        lemma_insert_at_range(t, x, from + 1);
    }
}

/// Sorting keeps the items, and their number.
pub proof fn lemma_sorted_refs_items(s: Seq<Ref>)
    ensures
        sorted_refs(s).len() == s.len(),
        forall|x: Ref| #[trigger] sorted_refs(s).contains(x) <==> s.contains(x),
    decreases s.len(),
{
    if s.len() > 0 {
        let t = sorted_refs(s.drop_last());
        lemma_sorted_refs_items(s.drop_last());
        lemma_insert_at_range(t, s.last(), 0);
        let j = insert_at(t, s.last(), 0);
        let r = sorted_refs(s);
        assert(r == t.take(j) + seq![s.last()] + t.skip(j));
        assert forall|x: Ref| #[trigger] r.contains(x) <==> s.contains(x) by {
            if r.contains(x) {
                let i = choose|i: int| 0 <= i < r.len() && r[i] == x;
                if i < j {
                    assert(t[i] == x);
                    assert(t.contains(x));
                    let k = choose|k: int| 0 <= k < s.drop_last().len() && s.drop_last()[k] == x;
                    assert(s[k] == x);
                } else if i == j {
                    assert(s[s.len() - 1] == x);
                } else {
                    assert(t[i - 1] == x);
                    assert(t.contains(x));
                    let k = choose|k: int| 0 <= k < s.drop_last().len() && s.drop_last()[k] == x;
                    assert(s[k] == x);
                }
            }
            if s.contains(x) {
                let i = choose|i: int| 0 <= i < s.len() && s[i] == x;
                if i == s.len() - 1 {
                    assert(r[j] == x);
                } else {
                    assert(s.drop_last()[i] == x);
                    assert(t.contains(x));
                    let k = choose|k: int| 0 <= k < t.len() && t[k] == x;
                    if k < j {
                        assert(r[k] == x);
                    } else {
                        assert(r[k + 1] == x);
                    }
                }
            }
        }
    }
}

/// Sorts the candidates into the order they are tried.
pub fn sorted_candidates(candidates: Vec<Ref>) -> (r: Vec<Ref>)
    ensures
        r@ == sorted_refs(candidates@),
{
    let mut us: Vec<Ref> = Vec::new();
    let mut i: usize = 0;
    while i < candidates.len()
        invariant
            i <= candidates@.len(),
            us@ == sorted_refs(candidates@.take(i as int)),
        decreases candidates@.len() - i,
    {
        let x = candidates[i];
        proof {
            assert(candidates@.take(i + 1).drop_last() =~= candidates@.take(i as int));
            assert(candidates@.take(i + 1).last() == x);
            lemma_sorted_refs_items(candidates@.take(i as int));
        }
        let mut j: usize = 0;
        while j < us.len() && !(x.run_minus_3 > us[j].run_minus_3 || (x.run_minus_3
            == us[j].run_minus_3 && x.dist < us[j].dist))
            invariant
                j <= us@.len(),
                insert_at(us@, x, 0) == insert_at(us@, x, j as int),
            decreases us@.len() - j,
        {
            j += 1;
        }
        proof {
            assert(insert_at(us@, x, j as int) == j);
            assert(us@.insert(j as int, x) =~= insert_ref(us@, x));
        }
        us.insert(j, x);
        i += 1;
    }
    assert(candidates@.take(candidates@.len() as int) =~= candidates@);
    us
}

/// The first place `x` appears in `s`, if it does.
pub open spec fn first_index(s: Seq<Ref>, x: Ref, from: int) -> Option<int>
    decreases s.len() - from,
{
    if from >= s.len() {
        None
    } else if s[from] == x {
        Some(from)
    } else {
        first_index(s, x, from + 1)
    }
}

proof fn lemma_first_index(s: Seq<Ref>, x: Ref, from: int)
    requires
        0 <= from,
    ensures
        first_index(s, x, from) matches Some(j) ==> from <= j < s.len() && s[j] == x,
        first_index(s, x, from) is None ==> forall|k: int| from <= k < s.len() ==> s[k] != x,
    decreases s.len() - from,
{
    if from < s.len() && s[from] != x {
        lemma_first_index(s, x, from + 1);
    }
}

/// A reference one back, as long as references go: a run of one repeated byte.
pub open spec fn is_long_repeat(r: Ref) -> bool {
    r.dist == 1 && r.run_minus_3 == 255
}

/// The hint for a reference: `0` for the first candidate tried, else its place in the
/// order plus one (the literal takes `1`).
pub open spec fn spec_reference_score(actual: Ref, candidates: Seq<Ref>) -> Result<usize, Error> {
    if is_long_repeat(actual) {
        Ok(0)
    } else {
        match first_index(sorted_refs(candidates), actual, 0) {
            None => Err(Error::ReferenceNotFound),
            Some(j) => if j == 0 {
                Ok(0)
            } else {
                Ok((1 + j) as usize)
            },
        }
    }
}

fn find_reference_score(actual_dist: u16, actual_run_minus_3: u8, candidates: Vec<Ref>) -> (r: Result<usize, Error>)
    ensures
        r == spec_reference_score(Ref { dist: actual_dist, run_minus_3: actual_run_minus_3 }, candidates@),
{
    let actual = Ref { dist: actual_dist, run_minus_3: actual_run_minus_3 };
    if 255 == actual_run_minus_3 && 1 == actual_dist {
        return Ok(0);
    }
    let n = candidates.len();
    let cand = sorted_candidates(candidates);
    proof {
        lemma_sorted_refs_items(candidates@);
    }
    let mut j: usize = 0;
    while j < cand.len()
        invariant
            j <= cand@.len(),
            cand@.len() == n,
            cand@ == sorted_refs(candidates@),
            actual == (Ref { dist: actual_dist, run_minus_3: actual_run_minus_3 }),
            !is_long_repeat(actual),
            first_index(cand@, actual, 0) == first_index(cand@, actual, j as int),
        decreases cand@.len() - j,
    {
        if cand[j] == actual {
            if j == 0 {
                return Ok(0);
            }
            return Ok(1 + j);
        }
        j += 1;
    }
    Err(Error::ReferenceNotFound)
}

/// The hint for one code: `None` for a literal where there was nothing else to pick; `1`
/// for a literal that passed over the candidates; the score of a reference.
pub open spec fn spec_reduce_code(orig: Code, candidates: Seq<Ref>) -> Result<Option<usize>, Error> {
    match orig {
        Code::Literal(_) => if candidates.len() == 0 {
            Ok(None)
        } else {
            Ok(Some(1))
        },
        Code::Reference(r) => match spec_reference_score(r, candidates) {
            Ok(s) => Ok(Some(s)),
            Err(e) => Err(e),
        },
    }
}

fn reduce_code(orig: &Code, candidates: Vec<Ref>) -> (r: Result<Option<usize>, Error>)
    ensures
        r == spec_reduce_code(*orig, candidates@),
{
    match *orig {
        Code::Literal(_) => {
            if candidates.len() == 0 {
                Ok(None)
            } else {
                Ok(Some(1))
            }
        },
        Code::Reference(r) => {
            match find_reference_score(r.dist, r.run_minus_3, candidates) {
                Ok(s) => Ok(Some(s)),
                Err(e) => Err(e),
            }
        },
    }
}

/// What the hints say at one position: `None` where the hints run out or point past the
/// candidates; else the code (`None` for the literal) and the next hint to read.
pub open spec fn spec_increase_code(candidates: Seq<Ref>, hints: Seq<usize>, h: int) -> Option<(Option<Code>, int)> {
    if candidates.len() == 0 {
        Some((None, h))
    } else if is_long_repeat(candidates[0]) {
        Some((Some(Code::Reference(candidates[0])), h))
    } else if h >= hints.len() {
        None
    } else {
        let sorted = sorted_refs(candidates);
        let x = hints[h];
        if x == 0 {
            Some((Some(Code::Reference(sorted[0])), h + 1))
        } else if x == 1 {
            Some((None, h + 1))
        } else if x - 1 < sorted.len() {
            Some((Some(Code::Reference(sorted[x - 1])), h + 1))
        } else {
            None
        }
    }
}

fn increase_code(candidates: Vec<Ref>, hints: &[usize], h: &mut usize) -> (r: Option<Code>)
    requires
        *old(h) <= hints@.len(),
        spec_increase_code(candidates@, hints@, *old(h) as int) is Some,
    ensures
        spec_increase_code(candidates@, hints@, *old(h) as int) == Some((r, *final(h) as int)),
        *final(h) <= hints@.len(),
{
    if candidates.len() > 0 {
        let first = candidates[0];
        if 1 == first.dist && 255 == first.run_minus_3 {
            return Some(Code::Reference(first));
        }
        let n = candidates.len();
        let sorted = sorted_candidates(candidates);
        proof {
            lemma_sorted_refs_items(candidates@);
        }
        let x = hints[*h];
        *h = *h + 1;
        if x == 0 {
            Some(Code::Reference(sorted[0]))
        } else if x == 1 {
            None
        } else {
            Some(Code::Reference(sorted[x - 1]))
        }
    } else {
        None
    }
}

/// The hints for `codes` from the `i`th on, which start at `pos` in the data; `s` is the
/// preroll (of length `plen`) followed by the data (of length `dlen`). Codes where fewer
/// than three bytes are left give no hint.
pub open spec fn spec_reduce(s: Seq<u8>, plen: int, dlen: int, codes: Seq<Code>, i: int, pos: int) -> Result<Seq<usize>, Error>
    decreases codes.len() - i,
{
    if i >= codes.len() {
        Ok(Seq::empty())
    } else {
        let next = spec_reduce(s, plen, dlen, codes, i + 1, pos + spec_emitted(codes[i]));
        if pos + 2 < dlen {
            match spec_reduce_code(codes[i], candidates(s, plen + pos)) {
                Err(e) => Err(e),
                Ok(None) => next,
                Ok(Some(h)) => match next {
                    Ok(t) => Ok(seq![h] + t),
                    Err(e) => Err(e),
                },
            }
        } else {
            next
        }
    }
}

/// The codes that the hints from the `h`th on give from `pos` on; `None` where the hints
/// run out or point past the candidates.
pub open spec fn spec_increase(s: Seq<u8>, plen: int, dlen: int, hints: Seq<usize>, h: int, pos: int) -> Option<Seq<Code>>
    decreases dlen - pos,
{
    if pos + 2 < dlen {
        match spec_increase_code(candidates(s, plen + pos), hints, h) {
            None => None,
            Some((oc, h2)) => {
                let c = match oc {
                    Some(c) => c,
                    None => Code::Literal(s[plen + pos]),
                };
                if pos + spec_emitted(c) > dlen {
                    None
                } else {
                    match spec_increase(s, plen, dlen, hints, h2, pos + spec_emitted(c)) {
                        None => None,
                        Some(t) => Some(seq![c] + t),
                    }
                }
            },
        }
    } else if pos <= dlen {
        Some(Seq::new((dlen - pos) as nat, |j: int| Code::Literal(s[plen + pos + j])))
    } else {
        None
    }
}

/// `acc` in front of a result.
pub open spec fn prefixed<T>(acc: Seq<T>, r: Result<Seq<T>, Error>) -> Result<Seq<T>, Error> {
    match r {
        Ok(t) => Ok(acc + t),
        Err(e) => Err(e),
    }
}

/// The hints that `increase_entropy` turns back into `codes`: for each code, where the
/// candidates at its position sit in the order they are tried.
pub fn reduce_entropy(preroll: &[u8], data: &[u8], codes: &[Code]) -> (r: Result<Vec<usize>, Error>)
    requires
        emitted_sum(codes@) <= usize::MAX,
    ensures
        match r {
            Ok(v) => spec_reduce(preroll@ + data@, preroll@.len() as int, data@.len() as int, codes@, 0, 0) == Ok::<Seq<usize>, Error>(v@),
            Err(e) => spec_reduce(preroll@ + data@, preroll@.len() as int, data@.len() as int, codes@, 0, 0) == Err::<Seq<usize>, Error>(e),
        },
{
    let guesser = AllRefs::new(preroll, data);
    let ghost s = preroll@ + data@;
    let ghost plen = preroll@.len() as int;
    let ghost dlen = data@.len() as int;
    let mut ret: Vec<usize> = Vec::new();
    let mut pos: usize = 0;
    let mut i: usize = 0;
    proof {
        assert(codes@.take(0) =~= Seq::<Code>::empty());
        assert(prefixed(ret@, spec_reduce(s, plen, dlen, codes@, 0, 0)) =~= spec_reduce(s, plen, dlen, codes@, 0, 0)) by {
            assert(ret@ =~= Seq::<usize>::empty());
            if let Ok(t) = spec_reduce(s, plen, dlen, codes@, 0, 0) {
                assert(ret@ + t =~= t);
            }
        }
    }
    while i < codes.len()
        invariant
            i <= codes@.len(),
            guesser.wf(),
            guesser.bytes() == s,
            guesser.preroll_len() == plen,
            guesser.data_bytes() == data@,
            s == preroll@ + data@,
            plen == preroll@.len(),
            dlen == data@.len(),
            pos == emitted_sum(codes@.take(i as int)),
            emitted_sum(codes@) <= usize::MAX,
            spec_reduce(s, plen, dlen, codes@, 0, 0) == prefixed(ret@, spec_reduce(s, plen, dlen, codes@, i as int, pos as int)),
        decreases codes@.len() - i,
    {
        let orig = codes[i];
        let cursor = guesser.at(pos);
        let reduced = match cursor.all_refs() {
            Some(candidates) => reduce_code(&orig, candidates),
            None => Ok(None),
        };
        proof {
            assert(codes@.take(i + 1).drop_last() =~= codes@.take(i as int));
            assert(codes@.take(i + 1).last() == orig);
            crate::trace::lemma_emitted_sum_add(codes@.take(i + 1), codes@.skip(i + 1));
            assert(codes@.take(i + 1) + codes@.skip(i + 1) =~= codes@);
            crate::trace::lemma_emitted_sum_bounds(codes@.skip(i + 1));
        }
        let next_pos = pos + usize_from(orig.emitted_bytes());
        match reduced {
            Err(e) => {
                return Err(e);
            },
            Ok(None) => {},
            Ok(Some(h)) => {
                proof {
                    let rest = spec_reduce(s, plen, dlen, codes@, i + 1, next_pos as int);
                    if let Ok(t) = rest {
                        assert(ret@.push(h) + t =~= ret@ + (seq![h] + t));
                    }
                }
                ret.push(h);
            },
        }
        pos = next_pos;
        i += 1;
    }
    proof {
        assert(ret@ + Seq::<usize>::empty() =~= ret@);
    }
    Ok(ret)
}

/// Turns hints back into codes; the literal wherever the hints say to pass over the
/// candidates, and literals for the last bytes.
pub fn increase_entropy(preroll: &[u8], data: &[u8], hints: &[usize]) -> (r: Vec<Code>)
    requires
        spec_increase(preroll@ + data@, preroll@.len() as int, data@.len() as int, hints@, 0, 0) is Some,
    ensures
        spec_increase(preroll@ + data@, preroll@.len() as int, data@.len() as int, hints@, 0, 0) == Some(r@),
{
    let guesser = AllRefs::new(preroll, data);
    let ghost s = preroll@ + data@;
    let ghost plen = preroll@.len() as int;
    let ghost dlen = data@.len() as int;
    let ghost whole = spec_increase(s, plen, dlen, hints@, 0, 0)->Some_0;
    let mut ret: Vec<Code> = Vec::new();
    let mut pos: usize = 0;
    let mut h: usize = 0;
    let n = guesser.data_len();
    assert(ret@ + whole =~= whole);
    loop
        invariant
            n == dlen,
            guesser.wf(),
            guesser.bytes() == s,
            guesser.preroll_len() == plen,
            guesser.data_bytes() == data@,
            s == preroll@ + data@,
            plen == preroll@.len(),
            dlen == data@.len(),
            pos <= dlen,
            h <= hints@.len(),
            spec_increase(s, plen, dlen, hints@, h as int, pos as int) is Some,
            whole == ret@ + spec_increase(s, plen, dlen, hints@, h as int, pos as int)->Some_0,
        ensures
            pos <= dlen,
            !(pos + 2 < dlen),
            whole == ret@ + spec_increase(s, plen, dlen, hints@, h as int, pos as int)->Some_0,
        decreases dlen - pos,
    {
        let cursor = guesser.at(pos);
        let ghost h0 = h as int;
        let orig = match cursor.all_refs() {
            Some(candidates) => {
                proof {
                    lemma_candidates_bounds(s, plen + pos);
                    lemma_sorted_refs_items(candidates@);
                }
                match increase_code(candidates, hints, &mut h) {
                    Some(c) => c,
                    None => cursor.current_literal(),
                }
            },
            None => break,
        };
        proof {
            let cands = candidates(s, plen + pos);
            assert(s[plen + pos] == data@[pos as int]);
            if let Code::Reference(r) = orig {
                let sorted = sorted_refs(cands);
                if cands.len() > 0 && is_long_repeat(cands[0]) {
                    assert(cands.contains(r));
                } else {
                    assert(sorted.contains(r));
                }
                assert(cands.contains(r));
                let k = choose|k: int| 0 <= k < cands.len() && cands[k] == r;
                assert(spec_run(cands[k]) <= run_limit(s, plen + pos));
            }
            assert(pos + spec_emitted(orig) <= dlen);
            let rest = spec_increase(s, plen, dlen, hints@, h as int, pos + spec_emitted(orig))->Some_0;
            assert(spec_increase(s, plen, dlen, hints@, h0, pos as int)->Some_0 == seq![orig] + rest);
            assert(ret@.push(orig) + rest =~= ret@ + (seq![orig] + rest));
        }
        ret.push(orig);
        pos = pos + usize_from(orig.emitted_bytes());
    }
    let ghost tail_start = pos as int;
    let ghost done = ret@;
    while pos < guesser.data_len()
        invariant
            guesser.wf(),
            guesser.bytes() == s,
            guesser.preroll_len() == plen,
            guesser.data_bytes() == data@,
            s == preroll@ + data@,
            plen == preroll@.len(),
            dlen == data@.len(),
            tail_start <= pos <= dlen,
            ret@ == done + Seq::new((pos - tail_start) as nat, |j: int| Code::Literal(s[plen + tail_start + j])),
        decreases dlen - pos,
    {
        let c = guesser.at(pos).current_literal();
        proof {
            assert(s[plen + pos] == data@[pos as int]);
            assert(ret@.push(c) =~= done + Seq::new((pos + 1 - tail_start) as nat, |j: int| Code::Literal(s[plen + tail_start + j])));
        }
        ret.push(c);
        pos += 1;
    }
    assert(ret@ =~= whole);
    ret
}

/// Each literal of `codes` is the byte of `s` at its place, counting from `plen`; and the
/// codes cover the `dlen` bytes that follow `plen` exactly.
pub open spec fn literals_in_place(s: Seq<u8>, plen: int, dlen: int, codes: Seq<Code>) -> bool {
    &&& emitted_sum(codes) == dlen
    &&& forall|i: int|
        0 <= i < codes.len() ==> (#[trigger] codes[i] matches Code::Literal(b) ==> s[plen
            + emitted_sum(codes.take(i))] == b)
}

/// At the `i`th code, with three bytes left, a reference one back of the longest run stands
/// on both sides or on neither: where the code is one, or the nearest candidate is one, the
/// code is that candidate.
pub open spec fn long_repeat_agrees(s: Seq<u8>, plen: int, dlen: int, codes: Seq<Code>, i: int) -> bool {
    let pos = emitted_sum(codes.take(i));
    let cands = candidates(s, plen + pos);
    (pos + 2 < dlen && ((codes[i] matches Code::Reference(r) && is_long_repeat(r)) || (cands.len() > 0
        && is_long_repeat(cands[0])))) ==> (cands.len() > 0 && codes[i] == Code::Reference(cands[0]))
}

/// Every code agrees so with the candidates at its place.
pub open spec fn long_repeats_agree(s: Seq<u8>, plen: int, dlen: int, codes: Seq<Code>) -> bool {
    forall|i: int| 0 <= i < codes.len() ==> #[trigger] long_repeat_agrees(s, plen, dlen, codes, i)
}

/// The hints that `increase_entropy` reads back for `codes` from the `i`th on, which start at
/// `pos`: those `spec_reduce` gives, but for the places where the nearest candidate is a
/// reference one back of the longest run, which it takes without reading a hint.
pub open spec fn spec_consumed(s: Seq<u8>, plen: int, dlen: int, codes: Seq<Code>, i: int, pos: int) -> Seq<usize>
    decreases codes.len() - i,
{
    if i >= codes.len() {
        Seq::empty()
    } else {
        let next = spec_consumed(s, plen, dlen, codes, i + 1, pos + spec_emitted(codes[i]));
        let cands = candidates(s, plen + pos);
        if pos + 2 < dlen && !(cands.len() > 0 && is_long_repeat(cands[0])) {
            match spec_reduce_code(codes[i], cands) {
                Ok(Some(h)) => seq![h] + next,
                _ => next,
            }
        } else {
            next
        }
    }
}

proof fn lemma_prefix_sums(codes: Seq<Code>, i: int)
    requires
        0 <= i < codes.len(),
    ensures
        emitted_sum(codes.take(i + 1)) == emitted_sum(codes.take(i)) + spec_emitted(codes[i]),
        emitted_sum(codes.take(i + 1)) <= emitted_sum(codes),
        0 <= emitted_sum(codes.take(i)),
{
    assert(codes.take(i + 1).drop_last() =~= codes.take(i));
    assert(codes.take(i + 1).last() == codes[i]);
    crate::trace::lemma_emitted_sum_add(codes.take(i + 1), codes.skip(i + 1));
    assert(codes.take(i + 1) + codes.skip(i + 1) =~= codes);
    crate::trace::lemma_emitted_sum_bounds(codes.skip(i + 1));
    crate::trace::lemma_emitted_sum_bounds(codes.take(i));
}

/// Past the last place with three bytes left, every code is the literal in place.
proof fn lemma_tail_literals(s: Seq<u8>, plen: int, dlen: int, codes: Seq<Code>, i: int)
    requires
        0 <= i <= codes.len(),
        literals_in_place(s, plen, dlen, codes),
        emitted_sum(codes.take(i)) + 2 >= dlen,
    ensures
        emitted_sum(codes.take(i)) <= dlen,
        codes.skip(i) == Seq::new(
            (dlen - emitted_sum(codes.take(i))) as nat,
            |j: int| Code::Literal(s[plen + emitted_sum(codes.take(i)) + j]),
        ),
    decreases codes.len() - i,
{
    let pos = emitted_sum(codes.take(i));
    if i == codes.len() {
        assert(codes.take(i) =~= codes);
        assert(codes.skip(i) =~= Seq::<Code>::empty());
    } else {
        lemma_prefix_sums(codes, i);
        let c = codes[i];
        if let Code::Reference(r) = c {
            assert(false);
        }
        lemma_tail_literals(s, plen, dlen, codes, i + 1);
        assert(codes.skip(i) =~= seq![c] + codes.skip(i + 1));
        assert(codes.skip(i) =~= Seq::new((dlen - pos) as nat, |j: int| Code::Literal(s[plen + pos + j])));
    }
}

proof fn lemma_undo_from(s: Seq<u8>, plen: int, dlen: int, codes: Seq<Code>, hints: Seq<usize>, i: int, h: int)
    requires
        0 <= i <= codes.len(),
        0 <= h <= hints.len(),
        0 <= plen,
        s.len() == plen + dlen,
        literals_in_place(s, plen, dlen, codes),
        long_repeats_agree(s, plen, dlen, codes),
        spec_reduce(s, plen, dlen, codes, i, emitted_sum(codes.take(i))) is Ok,
        h + spec_consumed(s, plen, dlen, codes, i, emitted_sum(codes.take(i))).len() <= hints.len(),
        hints.subrange(h, h + spec_consumed(s, plen, dlen, codes, i, emitted_sum(codes.take(i))).len())
            == spec_consumed(s, plen, dlen, codes, i, emitted_sum(codes.take(i))),
    ensures
        spec_increase(s, plen, dlen, hints, h, emitted_sum(codes.take(i))) == Some(codes.skip(i)),
    decreases codes.len() - i,
{
    let pos = emitted_sum(codes.take(i));
    if i == codes.len() {
        assert(codes.take(i) =~= codes);
        assert(codes.skip(i) =~= Seq::<Code>::empty());
        assert(Seq::new((dlen - pos) as nat, |j: int| Code::Literal(s[plen + pos + j])) =~= Seq::<Code>::empty());
        return;
    }
    lemma_prefix_sums(codes, i);
    let c = codes[i];
    let next = emitted_sum(codes.take(i + 1));
    if pos + 2 >= dlen {
        lemma_tail_literals(s, plen, dlen, codes, i);
        return;
    }
    let cands = candidates(s, plen + pos);
    assert(long_repeat_agrees(s, plen, dlen, codes, i));
    let q = spec_consumed(s, plen, dlen, codes, i, pos);
    let q2 = spec_consumed(s, plen, dlen, codes, i + 1, next);
    assert(codes.skip(i) =~= seq![c] + codes.skip(i + 1));
    if cands.len() > 0 && is_long_repeat(cands[0]) {
        assert(c == Code::Reference(cands[0]));
        assert(q == q2);
        assert(spec_increase_code(cands, hints, h) == Some((Some(Code::Reference(cands[0])), h)));
        lemma_undo_from(s, plen, dlen, codes, hints, i + 1, h);
        assert(spec_increase(s, plen, dlen, hints, h, pos) == Some(seq![c] + codes.skip(i + 1)));
        return;
    }
    assert(!(c matches Code::Reference(r) && is_long_repeat(r)));
    match c {
        Code::Literal(b) => {
            assert(s[plen + pos] == b);
            assert(spec_emitted(c) == 1);
            assert(next == pos + 1);
            if cands.len() == 0 {
                assert(q == q2);
                assert(spec_increase_code(cands, hints, h) == Some((None::<Code>, h)));
                lemma_undo_from(s, plen, dlen, codes, hints, i + 1, h);
                assert(spec_increase(s, plen, dlen, hints, h, pos) == Some(seq![c] + codes.skip(i + 1)));
            } else {
                assert(q == seq![1usize] + q2);
                assert(hints[h] == hints.subrange(h, h + q.len())[0]);
                assert(hints.subrange(h + 1, h + 1 + q2.len()) =~= q2) by {
                    assert forall|k: int| 0 <= k < q2.len() implies hints.subrange(h + 1, h + 1 + q2.len())[k]
                        == q2[k] by {
                        assert(hints.subrange(h, h + q.len())[k + 1] == q[k + 1]);
                    }
                }
                assert(spec_increase_code(cands, hints, h) == Some((None::<Code>, h + 1)));
                lemma_undo_from(s, plen, dlen, codes, hints, i + 1, h + 1);
                assert(spec_increase(s, plen, dlen, hints, h, pos) == Some(seq![c] + codes.skip(i + 1)));
            }
        },
        Code::Reference(r) => {
            let sorted = sorted_refs(cands);
            lemma_candidates_bounds(s, plen + pos);
            lemma_sorted_refs_items(cands);
            lemma_first_index(sorted, r, 0);
            let j = first_index(sorted, r, 0)->Some_0;
            let x: usize = if j == 0 { 0 } else { (1 + j) as usize };
            assert(q == seq![x] + q2);
            assert(hints[h] == hints.subrange(h, h + q.len())[0]);
            assert(hints.subrange(h + 1, h + 1 + q2.len()) =~= q2) by {
                assert forall|k: int| 0 <= k < q2.len() implies hints.subrange(h + 1, h + 1 + q2.len())[k] == q2[k] by {
                    assert(hints.subrange(h, h + q.len())[k + 1] == q[k + 1]);
                }
            }
            assert(sorted.len() == cands.len());
            assert(sorted[j] == r);
            assert(spec_increase_code(cands, hints, h) == Some((Some(Code::Reference(r)), h + 1)));
            assert(next <= dlen);
            lemma_undo_from(s, plen, dlen, codes, hints, i + 1, h + 1);
            assert(spec_increase(s, plen, dlen, hints, h, pos) == Some(seq![c] + codes.skip(i + 1)));
        },
    }
}

/// Turning the hints that `reduce_entropy` gives back into codes gives the codes again,
/// wherever their literals are the data's bytes in place, a reference one back of the
/// longest run stands on both sides or on neither, and the hints such references get (and
/// `increase_entropy` never reads) do not shift the ones it does read: those lead the hints.
/// So it holds wherever no hint is read after such a reference, as for a byte followed by
/// runs of it alone.
pub proof fn lemma_increase_undoes_reduce(preroll: Seq<u8>, data: Seq<u8>, codes: Seq<Code>)
    requires
        literals_in_place(preroll + data, preroll.len() as int, data.len() as int, codes),
        spec_reduce(preroll + data, preroll.len() as int, data.len() as int, codes, 0, 0) is Ok,
        long_repeats_agree(preroll + data, preroll.len() as int, data.len() as int, codes),
        ({
            let hints = spec_reduce(preroll + data, preroll.len() as int, data.len() as int, codes, 0, 0)->Ok_0;
            let read = spec_consumed(preroll + data, preroll.len() as int, data.len() as int, codes, 0, 0);
            read.len() <= hints.len() && hints.take(read.len() as int) == read
        }),
    ensures
        spec_increase(
            preroll + data,
            preroll.len() as int,
            data.len() as int,
            spec_reduce(preroll + data, preroll.len() as int, data.len() as int, codes, 0, 0)->Ok_0,
            0,
            0,
        ) == Some(codes),
{
    let s = preroll + data;
    let hints = spec_reduce(s, preroll.len() as int, data.len() as int, codes, 0, 0)->Ok_0;
    let read = spec_consumed(s, preroll.len() as int, data.len() as int, codes, 0, 0);
    assert(codes.take(0) =~= Seq::<Code>::empty());
    assert(hints.subrange(0, read.len() as int) =~= hints.take(read.len() as int));
    assert(codes.skip(0) =~= codes);
    lemma_undo_from(s, preroll.len() as int, data.len() as int, codes, hints, 0, 0);
}

proof fn lemma_increase_matches(s: Seq<u8>, plen: int, dlen: int, hints: Seq<usize>, h: int, pos: int)
    requires
        0 <= plen,
        s.len() == plen + dlen,
        0 <= pos,
        spec_increase(s, plen, dlen, hints, h, pos) is Some,
    ensures
        all_match(s, plen + pos, spec_increase(s, plen, dlen, hints, h, pos)->Some_0),
        emitted_sum(spec_increase(s, plen, dlen, hints, h, pos)->Some_0) == dlen - pos,
    decreases dlen - pos,
{
    let codes = spec_increase(s, plen, dlen, hints, h, pos)->Some_0;
    if pos + 2 < dlen {
        let cands = candidates(s, plen + pos);
        let (oc, h2) = spec_increase_code(cands, hints, h)->Some_0;
        let c = match oc {
            Some(c) => c,
            None => Code::Literal(s[plen + pos]),
        };
        let next = pos + spec_emitted(c);
        lemma_increase_matches(s, plen, dlen, hints, h2, next);
        lemma_all_match_cons(s, plen + pos, c, spec_increase(s, plen, dlen, hints, h2, next)->Some_0);
        if let Code::Reference(r) = c {
            lemma_candidates_match(s, plen + pos);
            lemma_sorted_refs_items(cands);
            assert(cands.contains(r)) by {
                if !(cands.len() > 0 && is_long_repeat(cands[0])) {
                    assert(sorted_refs(cands).contains(r));
                }
            }
            let k = choose|k: int| 0 <= k < cands.len() && cands[k] == r;
            assert(matches_at(s, plen + pos, Code::Reference(cands[k])));
        }
    } else {
        lemma_literals_match(s, plen + pos, (dlen - pos) as nat);
    }
}

/// Whatever the hints, the codes `increase_entropy` turns them into decode, after the
/// preroll, back to the data.
pub proof fn lemma_increase_decodes(preroll: Seq<u8>, data: Seq<u8>, hints: Seq<usize>)
    requires
        spec_increase(preroll + data, preroll.len() as int, data.len() as int, hints, 0, 0) is Some,
    ensures
        inflate(
            keep_last(preroll, 32768),
            32768,
            spec_increase(preroll + data, preroll.len() as int, data.len() as int, hints, 0, 0)->Some_0,
        ) == Some((keep_last(preroll + data, 32768), data)),
{
    let s = preroll + data;
    let plen = preroll.len() as int;
    let codes = spec_increase(s, plen, data.len() as int, hints, 0, 0)->Some_0;
    lemma_increase_matches(s, plen, data.len() as int, hints, 0, 0);
    lemma_matching_codes_decode(s, plen, codes);
    assert(s.take(plen) =~= preroll);
    assert(s.take(plen + data.len()) =~= s);
    assert(s.subrange(plen, plen + data.len()) =~= data);
}

} // verus!

