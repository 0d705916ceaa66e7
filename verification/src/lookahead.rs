use vstd::prelude::*;

use crate::iters::capped_pick;
use crate::iters::lemma_capped_pick_range;
use crate::iters::lemma_capped_pick_stays;
use crate::picker::run_scores;
use crate::picker::spec_drop_far_threes;
use crate::spec_run;
use crate::Ref;
use crate::Code;
use crate::technique::Technique;
use crate::decodes::all_match;
use crate::decodes::lemma_all_match_cons;

verus! {

/// How far ahead an encoder looks before it settles on a code.
#[derive(Copy, Clone, Debug, Eq, PartialEq, Structural)]
pub enum Lookahead {
    Greedy,
    Gzip,
    ThreeZip,
}

/// The longest candidate, the first of several equally long, unless it is a run of three from
/// more than 4096 bytes back.
pub fn best(candidates: &[Ref]) -> (r: Option<Ref>)
    ensures
        r == spec_drop_far_threes(candidates@, 258),
{
    if candidates.len() == 0 {
        return None;
    }
    let ghost scores = run_scores(candidates@);
    let mut best = candidates[0];
    let ghost mut m: int = 0;
    proof {
        assert(scores.take(1).drop_last() =~= Seq::<u64>::empty());
        assert(capped_pick(scores.take(1), 258) == 0);
    }
    let mut i: usize = 1;
    proof {
        if candidates@.len() == 1 {
            assert(scores.take(1) =~= scores);
        }
    }
    while i < candidates.len()
        invariant_except_break
            1 <= i <= candidates@.len(),
            m == capped_pick(scores.take(i as int), 258),
            i == candidates@.len() ==> scores.take(i as int) =~= scores,
        invariant
            scores == run_scores(candidates@),
            0 <= m < candidates@.len(),
            best == candidates@[m],
        ensures
            m == capped_pick(scores, 258),
        decreases candidates@.len() - i,
    {
        let candidate = candidates[i];
        proof {
            lemma_capped_pick_range(scores.take(i as int), 258);
            assert(scores.take(i + 1).drop_last() =~= scores.take(i as int));
            assert(scores.take(i as int)[m] == scores[m]);
            assert(scores[i as int] == spec_run(candidate));
            assert(scores[m] == spec_run(best));
        }
        if candidate.run() > best.run() {
            best = candidate;
            proof {
                m = i as int;
            }
        }
        if best.run() == 258 {
            proof {
                assert(scores.take(i + 1)[m] == scores[m]);
                lemma_capped_pick_stays(scores, 258, i + 1);
            }
            break;
        }
        i += 1;
        proof {
            if i == candidates@.len() {
                assert(scores.take(i as int) =~= scores);
            }
        }
    }
    if best.dist > 4096 && 3 == best.run() {
        None
    } else {
        Some(best)
    }
}

/// What `greedy` guesses: the picked reference, or the literal.
pub open spec fn spec_greedy(t: Technique, pos: int) -> Seq<Code> {
    match t.spec_best(pos) {
        (_, Some(r)) => seq![Code::Reference(r)],
        (b, None) => seq![Code::Literal(b)],
    }
}

/// Takes the picked reference, or the literal.
pub fn greedy(t: &Technique, pos: usize) -> (r: Vec<Code>)
    requires
        t.all_refs.wf(),
        pos < t.len(),
    ensures
        r@ == spec_greedy(*t, pos as int),
{
    let code = match t.best_candidate(pos) {
        (_, Some(r)) => Code::Reference(r),
        (b, None) => Code::Literal(b),
    };
    let mut v = Vec::new();
    v.push(code);
    assert(v@ =~= spec_greedy(*t, pos as int));
    v
}

/// The codes gzip's lazy matching settles on, with `cur` the reference found one byte before
/// `pos`, and `lit` the byte there: a literal and a look further while a longer reference
/// starts at the next byte, then the reference held.
pub open spec fn gzip_from(t: Technique, pos: int, lit: u8, cur: Ref) -> Seq<Code>
    decreases (if pos < t.len() {
        t.len() - pos
    } else {
        0
    }),
{
    if pos + 2 < t.len() {
        match t.spec_best(pos) {
            (b, Some(new)) => if spec_run(new) > spec_run(cur) {
                seq![Code::Literal(lit)] + gzip_from(t, pos + 1, b, new)
            } else {
                seq![Code::Reference(cur)]
            },
            (_, None) => seq![Code::Reference(cur)],
        }
    } else {
        seq![Code::Reference(cur)]
    }
}

/// What `gzip` guesses.
pub open spec fn spec_gzip_guess(t: Technique, pos: int) -> Seq<Code> {
    match t.spec_best(pos) {
        (lit, Some(start)) => gzip_from(t, pos + 1, lit, start),
        (b, None) => seq![Code::Literal(b)],
    }
}

/// Like gzip: a reference is held while the next byte starts a longer one, which then takes
/// its place after a literal.
pub fn gzip(t: &Technique, pos: usize) -> (r: Vec<Code>)
    requires
        t.all_refs.wf(),
        pos < t.len(),
    ensures
        r@ == spec_gzip_guess(*t, pos as int),
{
    proof {
        t.all_refs.lemma_bytes_len();
        t.lemma_best_bounds(pos as int);
    }
    let mut ret: Vec<Code> = Vec::new();
    let (mut curr_lit, mut curr_ref) = match t.best_candidate(pos) {
        (lit, Some(start)) => (lit, start),
        (b, None) => {
            let mut v = Vec::new();
            v.push(Code::Literal(b));
            assert(v@ =~= spec_gzip_guess(*t, pos as int));
            return v;
        },
    };
    let ghost whole = spec_gzip_guess(*t, pos as int);
    let n = t.data_len();
    let mut p = pos;
    assert(ret@ + gzip_from(*t, p + 1, curr_lit, curr_ref) =~= whole);
    loop
        invariant
            t.all_refs.wf(),
            t.all_refs.bytes().len() == t.all_refs.preroll_len() + t.len(),
            p + spec_run(curr_ref) <= t.len(),
            spec_run(curr_ref) >= 3,
            n == t.len(),
            whole == spec_gzip_guess(*t, pos as int),
            whole == ret@ + gzip_from(*t, p + 1, curr_lit, curr_ref),
        decreases t.len() - p,
    {
        p += 1;
        proof {
            t.lemma_best_bounds(p as int);
        }
        let ghost before = ret@;
        match t.best_candidate(p) {
            (b, Some(new)) => {
                if new.run() > curr_ref.run() {
                    ret.push(Code::Literal(curr_lit));
                    proof {
                        assert(ret@ + gzip_from(*t, p + 1, b, new) =~= before + gzip_from(*t, p as int, curr_lit, curr_ref));
                    }
                    curr_lit = b;
                    curr_ref = new;
                } else {
                    ret.push(Code::Reference(curr_ref));
                    assert(ret@ =~= whole);
                    return ret;
                }
            },
            (_, None) => {
                ret.push(Code::Reference(curr_ref));
                assert(ret@ =~= whole);
                return ret;
            },
        }
    }
}

/// What `three_zip` guesses.
pub open spec fn spec_three_zip(t: Technique, pos: int) -> Seq<Code> {
    match t.spec_best(pos) {
        (b, None) => seq![Code::Literal(b)],
        (first_literal, Some(first_best)) => if spec_run(first_best) > 3 {
            seq![Code::Reference(first_best)]
        } else {
            let (second_literal, second) = t.spec_best(pos + 1);
            let second_best = match second {
                Some(x) => if spec_run(x) > 3 { Some(x) } else { None },
                None => None,
            };
            if second_best matches Some(r) && spec_run(r) == 258 {
                seq![Code::Literal(first_literal), Code::Reference(second_best->Some_0)]
            } else {
                let third_best = match t.spec_best(pos + 2).1 {
                    Some(x) => if spec_run(x) > 4 { Some(x) } else { None },
                    None => None,
                };
                match second_best {
                    Some(second_run) => match third_best {
                        Some(third_run) => if spec_run(third_run) > spec_run(second_run) {
                            seq![Code::Literal(first_literal), Code::Literal(second_literal), Code::Reference(third_run)]
                        } else {
                            seq![Code::Literal(first_literal), Code::Reference(second_run)]
                        },
                        None => seq![Code::Literal(first_literal), Code::Reference(second_run)],
                    },
                    None => match third_best {
                        Some(third_run) => seq![Code::Literal(first_literal), Code::Literal(second_literal), Code::Reference(third_run)],
                        None => seq![Code::Reference(first_best)],
                    },
                }
            }
        },
    }
}

/// Looks up to two bytes ahead of a run of three for a longer run, which is then taken
/// after literals.
pub fn three_zip(t: &Technique, pos: usize) -> (r: Vec<Code>)
    requires
        t.all_refs.wf(),
        pos < t.len(),
    ensures
        r@ == spec_three_zip(*t, pos as int),
{
    proof {
        t.all_refs.lemma_bytes_len();
        t.lemma_best_bounds(pos as int);
    }
    let n = t.data_len();
    let mut v: Vec<Code> = Vec::new();
    let (first_literal, first_best) = match t.best_candidate(pos) {
        (_, Some(r)) if r.run() > 3 => {
            v.push(Code::Reference(r));
            assert(v@ =~= spec_three_zip(*t, pos as int));
            return v;
        },
        (l, Some(r)) => (l, r),
        (b, None) => {
            v.push(Code::Literal(b));
            assert(v@ =~= spec_three_zip(*t, pos as int));
            return v;
        },
    };
    let (second_literal, second) = t.best_candidate(pos + 1);
    let second_best = match second {
        Some(x) => if x.run() > 3 {
            Some(x)
        } else {
            None
        },
        None => None,
    };
    if let Some(r) = second_best {
        if r.run() == 258 {
            v.push(Code::Literal(first_literal));
            v.push(Code::Reference(r));
            assert(v@ =~= spec_three_zip(*t, pos as int));
            return v;
        }
    }
    let (_, third) = t.best_candidate(pos + 2);
    let third_best = match third {
        Some(x) => if x.run() > 4 {
            Some(x)
        } else {
            None
        },
        None => None,
    };
    match second_best {
        Some(second_run) => match third_best {
            Some(third_run) if third_run.run() > second_run.run() => {
                v.push(Code::Literal(first_literal));
                v.push(Code::Literal(second_literal));
                v.push(Code::Reference(third_run));
            },
            _ => {
                v.push(Code::Literal(first_literal));
                v.push(Code::Reference(second_run));
            },
        },
        None => match third_best {
            Some(third_run) => {
                v.push(Code::Literal(first_literal));
                v.push(Code::Literal(second_literal));
                v.push(Code::Reference(third_run));
            },
            None => {
                v.push(Code::Reference(first_best));
            },
        },
    }
    assert(v@ =~= spec_three_zip(*t, pos as int));
    v
}

impl Lookahead {
    /// What this lookahead guesses at `pos`.
    pub open spec fn spec_lookahead(&self, t: Technique, pos: int) -> Seq<Code> {
        match *self {
            Lookahead::Greedy => spec_greedy(t, pos),
            Lookahead::Gzip => spec_gzip_guess(t, pos),
            Lookahead::ThreeZip => spec_three_zip(t, pos),
        }
    }

    /// The codes this lookahead guesses at `pos`.
    pub fn lookahead(&self, t: &Technique, pos: usize) -> (r: Vec<Code>)
        requires
            t.all_refs.wf(),
            pos < t.len(),
        ensures
            r@ == self.spec_lookahead(*t, pos as int),
    {
        match *self {
            Lookahead::Greedy => greedy(t, pos),
            Lookahead::Gzip => gzip(t, pos),
            Lookahead::ThreeZip => three_zip(t, pos),
        }
    }
}

proof fn lemma_one_matches(t: Technique, pos: int, c: Code)
    requires
        crate::decodes::matches_at(t.all_refs.bytes(), t.all_refs.preroll_len() + pos, c),
    ensures
        all_match(t.all_refs.bytes(), t.all_refs.preroll_len() + pos, seq![c]),
{
    lemma_all_match_cons(t.all_refs.bytes(), t.all_refs.preroll_len() + pos, c, Seq::empty());
    assert(seq![c] + Seq::<Code>::empty() =~= seq![c]);
}

proof fn lemma_gzip_from_matches(t: Technique, p: int, lit: u8, cur: Ref)
    requires
        t.all_refs.wf(),
        1 <= p <= t.len(),
        lit == t.spec_best(p - 1).0,
        t.spec_best(p - 1).1 == Some(cur),
    ensures
        all_match(t.all_refs.bytes(), t.all_refs.preroll_len() + p - 1, gzip_from(t, p, lit, cur)),
    decreases t.len() - p,
{
    let s = t.all_refs.bytes();
    let plen = t.all_refs.preroll_len() as int;
    t.all_refs.lemma_bytes_len();
    t.lemma_best_matches(p - 1);
    if p + 2 < t.len() {
        t.lemma_best_matches(p);
        if let (b, Some(new)) = t.spec_best(p) {
            if spec_run(new) > spec_run(cur) {
                lemma_gzip_from_matches(t, p + 1, b, new);
                lemma_all_match_cons(s, plen + p - 1, Code::Literal(lit), gzip_from(t, p + 1, b, new));
                return;
            }
        }
    }
    lemma_one_matches(t, p - 1, Code::Reference(cur));
}

/// Every code a lookahead guesses at `pos`, laid from `pos` on, stands for the data's bytes
/// there: its literals are the bytes in place, and its references copy bytes equal to those
/// they stand for.
pub proof fn lemma_guesses_match(l: Lookahead, t: Technique, pos: int)
    requires
        t.all_refs.wf(),
        0 <= pos < t.len(),
    ensures
        all_match(t.all_refs.bytes(), t.all_refs.preroll_len() + pos, l.spec_lookahead(t, pos)),
{
    let s = t.all_refs.bytes();
    let plen = t.all_refs.preroll_len() as int;
    t.all_refs.lemma_bytes_len();
    t.lemma_best_matches(pos);
    match l {
        Lookahead::Greedy => {
            match t.spec_best(pos) {
                (_, Some(r)) => lemma_one_matches(t, pos, Code::Reference(r)),
                (b, None) => lemma_one_matches(t, pos, Code::Literal(b)),
            }
        },
        Lookahead::Gzip => {
            match t.spec_best(pos) {
                (lit, Some(start)) => lemma_gzip_from_matches(t, pos + 1, lit, start),
                (b, None) => lemma_one_matches(t, pos, Code::Literal(b)),
            }
        },
        Lookahead::ThreeZip => {
            match t.spec_best(pos) {
                (b, None) => lemma_one_matches(t, pos, Code::Literal(b)),
                (first_literal, Some(first_best)) => {
                    lemma_one_matches(t, pos, Code::Reference(first_best));
                    if spec_run(first_best) > 3 {
                    } else {
                        t.lemma_best_bounds(pos);
                        t.lemma_best_matches(pos + 1);
                        t.lemma_best_matches(pos + 2);
                        let (second_literal, second) = t.spec_best(pos + 1);
                        let fl = Code::Literal(first_literal);
                        let sl = Code::Literal(second_literal);
                        if let Some(r2) = second {
                            lemma_one_matches(t, pos + 1, Code::Reference(r2));
                            lemma_all_match_cons(s, plen + pos, fl, seq![Code::Reference(r2)]);
                            assert(seq![fl] + seq![Code::Reference(r2)] =~= seq![fl, Code::Reference(r2)]);
                        }
                        if let Some(r3) = t.spec_best(pos + 2).1 {
                            lemma_one_matches(t, pos + 2, Code::Reference(r3));
                            lemma_all_match_cons(s, plen + pos + 1, sl, seq![Code::Reference(r3)]);
                            assert(seq![sl] + seq![Code::Reference(r3)] =~= seq![sl, Code::Reference(r3)]);
                            lemma_all_match_cons(s, plen + pos, fl, seq![sl, Code::Reference(r3)]);
                            assert(seq![fl] + seq![sl, Code::Reference(r3)] =~= seq![fl, sl, Code::Reference(r3)]);
                        }
                    }
                },
            }
        },
    }
}

proof fn lemma_gzip_from_lazy(t: Technique, p: int, lit: u8, cur: Ref)
    requires
        1 <= p,
        lit == t.spec_best(p - 1).0,
        t.spec_best(p - 1).1 == Some(cur),
    ensures
        ({
            let g = gzip_from(t, p, lit, cur);
            let q0 = p - 1;
            &&& g.len() >= 1
            &&& forall|i: int|
                0 <= i < g.len() - 1 ==> #[trigger] g[i] == Code::Literal(t.spec_best(q0 + i).0) && t.spec_best(
                    q0 + i,
                ).1 is Some && t.spec_best(q0 + i + 1).1 is Some && spec_run(t.spec_best(q0 + i + 1).1->Some_0)
                    > spec_run(t.spec_best(q0 + i).1->Some_0)
            &&& t.spec_best(q0 + g.len() - 1).1 is Some
            &&& g[g.len() - 1] == Code::Reference(t.spec_best(q0 + g.len() - 1).1->Some_0)
            &&& t.spec_best(q0 + g.len()).1 is Some ==> spec_run(t.spec_best(q0 + g.len()).1->Some_0) <= spec_run(
                t.spec_best(q0 + g.len() - 1).1->Some_0,
            )
        }),
    decreases (if p < t.len() {
        t.len() - p
    } else {
        0
    }),
{
    if p + 2 < t.len() {
        if let (b, Some(new)) = t.spec_best(p) {
            if spec_run(new) > spec_run(cur) {
                lemma_gzip_from_lazy(t, p + 1, b, new);
                let g = gzip_from(t, p, lit, cur);
                let g2 = gzip_from(t, p + 1, b, new);
                assert(g == seq![Code::Literal(lit)] + g2);
                assert forall|i: int| 0 <= i < g.len() - 1 implies #[trigger] g[i] == Code::Literal(
                    t.spec_best(p - 1 + i).0,
                ) && t.spec_best(p - 1 + i).1 is Some && t.spec_best(p - 1 + i + 1).1 is Some && spec_run(
                    t.spec_best(p - 1 + i + 1).1->Some_0,
                ) > spec_run(t.spec_best(p - 1 + i).1->Some_0) by {
                    if i > 0 {
                        assert(g[i] == g2[i - 1]);
                        assert(p - 1 + i == p + (i - 1));
                    }
                }
                assert(g[g.len() - 1] == g2[g2.len() - 1]);
                return;
            }
        }
    }
}

/// gzip's lazy matching, as guessed at `pos`: every code but the last is the literal in place,
/// given up because the next byte starts a strictly longer reference than the one held; the
/// last is the reference picked at its place (or, with none at `pos`, the literal there), and
/// the byte after it starts no longer reference.
pub proof fn lemma_gzip_guess_lazy(t: Technique, pos: int)
    requires
        0 <= pos,
    ensures
        ({
            let g = spec_gzip_guess(t, pos);
            &&& g.len() >= 1
            &&& forall|i: int|
                0 <= i < g.len() - 1 ==> #[trigger] g[i] == Code::Literal(t.spec_best(pos + i).0) && t.spec_best(
                    pos + i,
                ).1 is Some && t.spec_best(pos + i + 1).1 is Some && spec_run(t.spec_best(pos + i + 1).1->Some_0)
                    > spec_run(t.spec_best(pos + i).1->Some_0)
            &&& t.spec_best(pos).1 is None ==> g == seq![Code::Literal(t.spec_best(pos).0)]
            &&& t.spec_best(pos).1 is Some ==> {
                &&& t.spec_best(pos + g.len() - 1).1 is Some
                &&& g[g.len() - 1] == Code::Reference(t.spec_best(pos + g.len() - 1).1->Some_0)
                &&& t.spec_best(pos + g.len()).1 is Some ==> spec_run(t.spec_best(pos + g.len()).1->Some_0)
                    <= spec_run(t.spec_best(pos + g.len() - 1).1->Some_0)
            }
        }),
{
    if let (lit, Some(start)) = t.spec_best(pos) {
        lemma_gzip_from_lazy(t, pos + 1, lit, start);
    }
}

/// What three-zip guesses at `pos`: the literal where nothing is picked; the reference picked
/// when it runs more than three; otherwise (a run of three) two literals and the reference two
/// bytes on only when that one runs more than four and longer than any run of more than three
/// at the next byte, one literal and the next byte's reference only when that one runs more
/// than three and no run two bytes on beats it (or it is as long as runs go), and else the run
/// of three itself, which is kept only when the next byte has no run longer than three and
/// the byte after no run longer than four.
pub proof fn lemma_three_zip_choices(t: Technique, pos: int)
    ensures
        ({
            let g = spec_three_zip(t, pos);
            let b0 = t.spec_best(pos).0;
            let r0 = t.spec_best(pos).1;
            let r1 = t.spec_best(pos + 1).1;
            let r2 = t.spec_best(pos + 2).1;
            &&& 1 <= g.len() <= 3
            &&& r0 is None ==> g == seq![Code::Literal(b0)]
            &&& (r0 is Some && spec_run(r0->Some_0) > 3) ==> g == seq![Code::Reference(r0->Some_0)]
            &&& g.len() == 3 ==> {
                &&& r0 is Some && spec_run(r0->Some_0) == 3
                &&& g[0] == Code::Literal(b0)
                &&& g[1] == Code::Literal(t.spec_best(pos + 1).0)
                &&& r2 is Some && g[2] == Code::Reference(r2->Some_0) && spec_run(r2->Some_0) > 4
                &&& (r1 is Some && spec_run(r1->Some_0) > 3) ==> spec_run(r1->Some_0) < spec_run(r2->Some_0)
                    && spec_run(r1->Some_0) < 258
            }
            &&& g.len() == 2 ==> {
                &&& r0 is Some && spec_run(r0->Some_0) == 3
                &&& g[0] == Code::Literal(b0)
                &&& r1 is Some && g[1] == Code::Reference(r1->Some_0) && spec_run(r1->Some_0) > 3
                &&& (spec_run(r1->Some_0) < 258 && r2 is Some && spec_run(r2->Some_0) > 4) ==> spec_run(r2->Some_0)
                    <= spec_run(r1->Some_0)
            }
            &&& (g.len() == 1 && r0 is Some) ==> {
                &&& g == seq![Code::Reference(r0->Some_0)]
                &&& spec_run(r0->Some_0) == 3 ==> (r1 is Some ==> spec_run(r1->Some_0) <= 3) && (r2 is Some
                    ==> spec_run(r2->Some_0) <= 4)
            }
        }),
{
}

} // verus!

