use vstd::prelude::*;

use crate::all_refs::candidates;
use crate::all_refs::lemma_candidates_bounds;
use crate::all_refs::run_limit;
use crate::all_refs::AllRefs;
use crate::errors::Error;
use crate::iters::lemma_capped_pick_range;
use crate::lookahead::best;
use crate::picker::run_scores;
use crate::picker::spec_drop_far_threes;
use crate::spec_run;
use crate::usize_from;
use crate::Code;
use crate::Ref;
use crate::circles::keep_last;
use crate::decodes::all_match;
use crate::decodes::lemma_all_match_cons;
use crate::decodes::lemma_candidates_match;
use crate::decodes::lemma_literals_match;
use crate::decodes::lemma_matching_codes_decode;
use crate::decodes::matches_at;
use crate::serialise::inflate;
use crate::spec_emitted;
use crate::trace::emitted_sum;

verus! {

/// The candidates that do not reach back exactly `d` bytes.
pub open spec fn without_dist(c: Seq<Ref>, d: int) -> Seq<Ref>
    decreases c.len(),
{
    if c.len() == 0 {
        c
    } else {
        let rest = without_dist(c.drop_last(), d);
        if c.last().dist == d {
            rest
        } else {
            rest.push(c.last())
        }
    }
}

proof fn lemma_without_dist_items(c: Seq<Ref>, d: int)
    ensures
        forall|x: Ref| #[trigger] without_dist(c, d).contains(x) ==> c.contains(x),
    decreases c.len(),
{
    if c.len() > 0 {
        lemma_without_dist_items(c.drop_last(), d);
        let rest = without_dist(c.drop_last(), d);
        assert forall|x: Ref| #[trigger] without_dist(c, d).contains(x) implies c.contains(x) by {
            if rest.contains(x) {
                assert(c.drop_last().contains(x));
                let k = choose|k: int| 0 <= k < c.drop_last().len() && c.drop_last()[k] == x;
                assert(c[k] == x);
            } else {
                assert(x == c.last());
                assert(c[c.len() - 1] == x);
            }
        }
    }
}

/// What gzip would pick at data position `pos`: the best candidate, passing over one that
/// reaches exactly the first byte of the data.
pub open spec fn best_at(s: Seq<u8>, plen: int, pos: int) -> Option<Ref> {
    spec_drop_far_threes(without_dist(candidates(s, plen + pos), pos), 258)
}

/// The literals for the data from `p` on.
pub open spec fn literals_from(s: Seq<u8>, plen: int, dlen: int, p: int) -> Seq<Code> {
    Seq::new(if p < dlen { (dlen - p) as nat } else { 0 }, |j: int| Code::Literal(s[plen + p + j]))
}

/// The codes of gzip's lazy matching from data position `pos` on, with `saved` the reference
/// found one byte back and held to see whether a longer one starts here.
pub open spec fn spec_gzip(s: Seq<u8>, plen: int, dlen: int, pos: int, saved: Option<Ref>) -> Seq<Code>
    decreases (if pos < dlen {
        dlen - pos
    } else {
        0
    }),
{
    if pos + 2 < dlen {
        match best_at(s, plen, pos) {
            Some(b) => match saved {
                Some(sv) => if spec_run(b) > spec_run(sv) {
                    seq![Code::Literal(s[plen + pos - 1])] + spec_gzip(s, plen, dlen, pos + 1, Some(b))
                } else {
                    seq![Code::Reference(sv)] + spec_gzip(s, plen, dlen, pos + spec_run(sv) - 1, None)
                },
                None => spec_gzip(s, plen, dlen, pos + 1, Some(b)),
            },
            None => match saved {
                Some(sv) => seq![Code::Reference(sv)] + spec_gzip(
                    s,
                    plen,
                    dlen,
                    pos + spec_run(sv) - 1,
                    None,
                ),
                None => seq![Code::Literal(s[plen + pos])] + spec_gzip(s, plen, dlen, pos + 1, None),
            },
        }
    } else {
        match saved {
            Some(sv) => seq![Code::Reference(sv)] + literals_from(s, plen, dlen, pos + spec_run(sv)),
            None => literals_from(s, plen, dlen, pos),
        }
    }
}

/// The pick is one of the candidates, so it runs no further than the data.
proof fn lemma_best_at_bounds(s: Seq<u8>, plen: int, dlen: int, pos: int)
    requires
        0 <= plen,
        0 <= pos,
        s.len() == plen + dlen,
        pos + 2 < dlen,
    ensures
        best_at(s, plen, pos) matches Some(b) ==> 3 <= spec_run(b) && pos + spec_run(b) <= dlen,
{
    let c = candidates(s, plen + pos);
    let f = without_dist(c, pos);
    if let Some(b) = best_at(s, plen, pos) {
        lemma_capped_pick_range(run_scores(f), 258);
        let k = crate::iters::capped_pick(run_scores(f), 258);
        assert(f[k] == b);
        assert(f.contains(b));
        lemma_without_dist_items(c, pos);
        let j = choose|j: int| 0 <= j < c.len() && c[j] == b;
        lemma_candidates_bounds(s, plen + pos);
        assert(spec_run(c[j]) <= run_limit(s, plen + pos));
    }
}

/// The codes gzip writes for `data` after `preroll`, emulating its lazy matching: a reference
/// is held back one byte, and given up for a literal if a longer one starts there. A
/// reference that reaches exactly the first byte of the data is never taken.
pub fn gzip(preroll: &[u8], data: &[u8]) -> (r: Result<Vec<Code>, Error>)
    ensures
        r matches Ok(v) && v@ == spec_gzip(preroll@ + data@, preroll@.len() as int, data@.len() as int, 0, None),
{
    let guesser = AllRefs::new(preroll, data);
    let ghost s = preroll@ + data@;
    let ghost plen = preroll@.len() as int;
    let ghost dlen = data@.len() as int;
    let ghost whole = spec_gzip(s, plen, dlen, 0, None);
    let n = data.len();
    let mut ret: Vec<Code> = Vec::new();
    let mut saved: Option<Ref> = None;
    let mut pos: usize = 0;
    assert(ret@ + whole =~= whole);
    while pos < n
        invariant
            n == dlen,
            guesser.wf(),
            guesser.bytes() == s,
            guesser.preroll_len() == plen,
            guesser.data_bytes() == data@,
            s == preroll@ + data@,
            plen == preroll@.len(),
            dlen == data@.len(),
            pos <= dlen,
            saved matches Some(sv) ==> 1 <= pos && 3 <= spec_run(sv) && pos - 1 + spec_run(sv) <= dlen,
            whole == ret@ + spec_gzip(s, plen, dlen, pos as int, saved),
        ensures
            pos <= dlen,
            pos + 2 >= dlen,
            saved matches Some(sv) ==> 1 <= pos && 3 <= spec_run(sv) && pos - 1 + spec_run(sv) <= dlen,
            whole == ret@ + spec_gzip(s, plen, dlen, pos as int, saved),
        decreases dlen - pos,
    {
        let cursor = guesser.at(pos);
        let found = match cursor.all_refs() {
            Some(candidates) => candidates,
            None => break,
        };
        let mut filtered: Vec<Ref> = Vec::new();
        let mut i: usize = 0;
        while i < found.len()
            invariant
                i <= found@.len(),
                filtered@ == without_dist(found@.take(i as int), pos as int),
            decreases found@.len() - i,
        {
            proof {
                assert(found@.take(i + 1).drop_last() =~= found@.take(i as int));
            }
            if usize_from(found[i].dist) != pos {
                filtered.push(found[i]);
            }
            i += 1;
        }
        proof {
            assert(found@.take(found@.len() as int) =~= found@);
            lemma_best_at_bounds(s, plen, dlen, pos as int);
        }
        let picked = best(filtered.as_slice());
        let ghost before = ret@;
        let ghost here = spec_gzip(s, plen, dlen, pos as int, saved);
        match picked {
            Some(b) => match saved {
                Some(saved_ref) => {
                    if b.run() > saved_ref.run() {
                        ret.push(Code::Literal(data[pos - 1]));
                        proof {
                            assert(s[plen + pos - 1] == data@[pos - 1]);
                        }
                        saved = Some(b);
                        pos += 1;
                    } else {
                        ret.push(Code::Reference(saved_ref));
                        saved = None;
                        pos = pos - 1 + usize_from(saved_ref.run());
                    }
                },
                None => {
                    saved = Some(b);
                    pos += 1;
                },
            },
            None => match saved {
                Some(saved_ref) => {
                    ret.push(Code::Reference(saved_ref));
                    saved = None;
                    pos = pos - 1 + usize_from(saved_ref.run());
                },
                None => {
                    proof {
                        assert(s[plen + pos] == data@[pos as int]);
                    }
                    ret.push(Code::Literal(data[pos]));
                    pos += 1;
                },
            },
        }
        proof {
            assert(whole == ret@ + spec_gzip(s, plen, dlen, pos as int, saved)) by {
                assert(before + here == whole);
                assert((ret@ + spec_gzip(s, plen, dlen, pos as int, saved)) =~= before + here);
            }
        }
    }
    let ghost done = ret@;
    let ghost rest = spec_gzip(s, plen, dlen, pos as int, saved);
    assert(pos + 2 >= dlen);
    let mut p: usize = pos;
    if let Some(saved_ref) = saved {
        ret.push(Code::Reference(saved_ref));
        let end = pos - 1 + usize_from(saved_ref.run());
        p = if end < n {
            end + 1
        } else {
            n
        };
    }
    let ghost start = p as int;
    let ghost mid = ret@;
    assert(done + rest == mid + literals_from(s, plen, dlen, start)) by {
        assert(literals_from(s, plen, dlen, start) =~= literals_from(
            s,
            plen,
            dlen,
            match saved {
                Some(sv) => pos + spec_run(sv),
                None => pos as int,
            },
        ));
        if let Some(sv) = saved {
            assert(mid == done.push(Code::Reference(sv)));
            assert(done + rest =~= mid + literals_from(s, plen, dlen, start));
        } else {
            assert(mid == done);
        }
    }
    while p < n
        invariant
            n == dlen,
            s == preroll@ + data@,
            plen == preroll@.len(),
            dlen == data@.len(),
            start <= p <= dlen,
            ret@ == mid + Seq::new((p - start) as nat, |j: int| Code::Literal(s[plen + start + j])),
        decreases dlen - p,
    {
        proof {
            assert(s[plen + p] == data@[p as int]);
        }
        ret.push(Code::Literal(data[p]));
        p += 1;
        assert(ret@ =~= mid + Seq::new((p - start) as nat, |j: int| Code::Literal(s[plen + start + j])));
    }
    assert(ret@ =~= whole);
    Ok(ret)
}

/// What gzip picks stands for the bytes where it is picked.
proof fn lemma_best_at_matches(s: Seq<u8>, plen: int, dlen: int, pos: int)
    requires
        0 <= plen,
        0 <= pos,
        s.len() == plen + dlen,
        pos + 2 < dlen,
    ensures
        best_at(s, plen, pos) matches Some(b) ==> matches_at(s, plen + pos, Code::Reference(b)) && pos
            + spec_run(b) <= dlen && 3 <= spec_run(b),
{
    lemma_best_at_bounds(s, plen, dlen, pos);
    let c = candidates(s, plen + pos);
    let f = without_dist(c, pos);
    if let Some(b) = best_at(s, plen, pos) {
        lemma_capped_pick_range(run_scores(f), 258);
        let k = crate::iters::capped_pick(run_scores(f), 258);
        assert(f[k] == b);
        assert(f.contains(b));
        lemma_without_dist_items(c, pos);
        let j = choose|j: int| 0 <= j < c.len() && c[j] == b;
        lemma_candidates_match(s, plen + pos);
        assert(matches_at(s, plen + pos, Code::Reference(c[j])));
    }
}

proof fn lemma_gzip_matches(s: Seq<u8>, plen: int, dlen: int, pos: int, saved: Option<Ref>)
    requires
        0 <= plen,
        s.len() == plen + dlen,
        0 <= pos <= dlen,
        saved matches Some(sv) ==> 1 <= pos && pos + 1 < dlen && best_at(s, plen, pos - 1) == Some(sv),
    ensures
        ({
            let q = if saved is Some { pos - 1 } else { pos };
            let codes = spec_gzip(s, plen, dlen, pos, saved);
            all_match(s, plen + q, codes) && emitted_sum(codes) == dlen - q
        }),
    decreases (if pos < dlen {
        dlen - pos
    } else {
        0
    }),
{
    let codes = spec_gzip(s, plen, dlen, pos, saved);
    if let Some(sv) = saved {
        lemma_best_at_matches(s, plen, dlen, pos - 1);
    }
    if pos + 2 < dlen {
        lemma_best_at_matches(s, plen, dlen, pos);
        match best_at(s, plen, pos) {
            Some(b) => match saved {
                Some(sv) => if spec_run(b) > spec_run(sv) {
                    let lit = Code::Literal(s[plen + pos - 1]);
                    lemma_gzip_matches(s, plen, dlen, pos + 1, Some(b));
                    lemma_all_match_cons(s, plen + pos - 1, lit, spec_gzip(s, plen, dlen, pos + 1, Some(b)));
                } else {
                    let next = pos + spec_run(sv) - 1;
                    lemma_gzip_matches(s, plen, dlen, next, None);
                    lemma_all_match_cons(s, plen + pos - 1, Code::Reference(sv), spec_gzip(s, plen, dlen, next, None));
                },
                None => {
                    lemma_gzip_matches(s, plen, dlen, pos + 1, Some(b));
                },
            },
            None => match saved {
                Some(sv) => {
                    let next = pos + spec_run(sv) - 1;
                    lemma_gzip_matches(s, plen, dlen, next, None);
                    lemma_all_match_cons(s, plen + pos - 1, Code::Reference(sv), spec_gzip(s, plen, dlen, next, None));
                },
                None => {
                    let lit = Code::Literal(s[plen + pos]);
                    lemma_gzip_matches(s, plen, dlen, pos + 1, None);
                    lemma_all_match_cons(s, plen + pos, lit, spec_gzip(s, plen, dlen, pos + 1, None));
                },
            },
        }
    } else {
        match saved {
            Some(sv) => {
                let tail = literals_from(s, plen, dlen, pos + spec_run(sv));
                assert(tail =~= Seq::<Code>::empty());
                lemma_all_match_cons(s, plen + pos - 1, Code::Reference(sv), tail);
            },
            None => {
                lemma_literals_match(s, plen + pos, (dlen - pos) as nat);
                assert(literals_from(s, plen, dlen, pos) =~= Seq::new(
                    (dlen - pos) as nat,
                    |j: int| Code::Literal(s[plen + pos + j]),
                ));
            },
        }
    }
}

/// What gzip's lazy matching writes for the data decodes, after the preroll, back to the data.
pub proof fn lemma_gzip_decodes(preroll: Seq<u8>, data: Seq<u8>)
    ensures
        inflate(
            keep_last(preroll, 32768),
            32768,
            spec_gzip(preroll + data, preroll.len() as int, data.len() as int, 0, None),
        ) == Some((keep_last(preroll + data, 32768), data)),
{
    let s = preroll + data;
    let plen = preroll.len() as int;
    let codes = spec_gzip(s, plen, data.len() as int, 0, None);
    lemma_gzip_matches(s, plen, data.len() as int, 0, None);
    lemma_matching_codes_decode(s, plen, codes);
    assert(s.take(plen) =~= preroll);
    assert(s.take(plen + data.len()) =~= s);
    assert(s.subrange(plen, plen + data.len()) =~= data);
}

/// Where the `k`th code lies, counting from `q0`.
pub open spec fn code_start(codes: Seq<Code>, q0: int, k: int) -> int {
    q0 + emitted_sum(codes.take(k))
}

proof fn lemma_cons_start(c: Code, rest: Seq<Code>, q0: int, k: int)
    requires
        1 <= k <= rest.len() + 1,
    ensures
        code_start(seq![c] + rest, q0, k) == code_start(rest, q0 + spec_emitted(c), k - 1),
{
    assert((seq![c] + rest).take(k) =~= seq![c] + rest.take(k - 1));
    crate::trace::lemma_emitted_sum_add(seq![c], rest.take(k - 1));
    crate::trace::lemma_emitted_sum_one(c);
}

/// The two rules of gzip's lazy matching, over the codes from `pos` on (from `pos - 1` when a
/// reference is held).
pub open spec fn lazy_rules(s: Seq<u8>, plen: int, dlen: int, codes: Seq<Code>, q0: int) -> bool {
    &&& forall|k: int|
        0 <= k && k + 1 < codes.len() && #[trigger] codes[k] is Literal && codes[k + 1] is Reference
            && best_at(s, plen, code_start(codes, q0, k)) is Some ==> spec_run(
            best_at(s, plen, code_start(codes, q0, k))->Some_0,
        ) < spec_run(codes[k + 1]->Reference_0)
    &&& forall|k: int|
        0 <= k < codes.len() && #[trigger] codes[k] is Reference ==> {
            let q = code_start(codes, q0, k);
            &&& best_at(s, plen, q) == Some(codes[k]->Reference_0)
            &&& (q + 3 < dlen && best_at(s, plen, q + 1) is Some) ==> spec_run(best_at(s, plen, q + 1)->Some_0)
                <= spec_run(codes[k]->Reference_0)
        }
}

proof fn lemma_lazy_cons(s: Seq<u8>, plen: int, dlen: int, c: Code, rest: Seq<Code>, q0: int)
    requires
        lazy_rules(s, plen, dlen, rest, q0 + spec_emitted(c)),
        c is Reference ==> {
            &&& best_at(s, plen, q0) == Some(c->Reference_0)
            &&& (q0 + 3 < dlen && best_at(s, plen, q0 + 1) is Some) ==> spec_run(best_at(s, plen, q0 + 1)->Some_0)
                <= spec_run(c->Reference_0)
        },
        (c is Literal && rest.len() > 0 && rest[0] is Reference && best_at(s, plen, q0) is Some) ==> spec_run(
            best_at(s, plen, q0)->Some_0,
        ) < spec_run(rest[0]->Reference_0),
    ensures
        lazy_rules(s, plen, dlen, seq![c] + rest, q0),
{
    let codes = seq![c] + rest;
    assert(codes.take(0) =~= Seq::<Code>::empty());
    assert(code_start(codes, q0, 0) == q0);
    assert forall|k: int|
        0 <= k && k + 1 < codes.len() && #[trigger] codes[k] is Literal && codes[k + 1] is Reference && best_at(
            s,
            plen,
            code_start(codes, q0, k),
        ) is Some implies spec_run(best_at(s, plen, code_start(codes, q0, k))->Some_0) < spec_run(
        codes[k + 1]->Reference_0,
    ) by {
        if k > 0 {
            lemma_cons_start(c, rest, q0, k);
            assert(codes[k] == rest[k - 1]);
            assert(codes[k + 1] == rest[k]);
        }
    }
    assert forall|k: int| 0 <= k < codes.len() && #[trigger] codes[k] is Reference implies {
        let q = code_start(codes, q0, k);
        &&& best_at(s, plen, q) == Some(codes[k]->Reference_0)
        &&& (q + 3 < dlen && best_at(s, plen, q + 1) is Some) ==> spec_run(best_at(s, plen, q + 1)->Some_0)
            <= spec_run(codes[k]->Reference_0)
    } by {
        if k > 0 {
            lemma_cons_start(c, rest, q0, k);
            assert(codes[k] == rest[k - 1]);
        }
    }
}

proof fn lemma_literals_lazy(s: Seq<u8>, plen: int, dlen: int, p: int, q0: int)
    ensures
        lazy_rules(s, plen, dlen, literals_from(s, plen, dlen, p), q0),
{
}

/// The codes from `pos` on: the first is the held reference or a literal given up for a
/// longer one.
proof fn lemma_gzip_first(s: Seq<u8>, plen: int, dlen: int, pos: int, sv: Ref)
    ensures
        spec_gzip(s, plen, dlen, pos, Some(sv)).len() > 0,
        spec_gzip(s, plen, dlen, pos, Some(sv))[0] is Literal || spec_gzip(s, plen, dlen, pos, Some(sv))[0]
            == Code::Reference(sv),
{
}

#[verifier::spinoff_prover]
#[verifier::rlimit(60)]
proof fn lemma_gzip_lazy_from(s: Seq<u8>, plen: int, dlen: int, pos: int, saved: Option<Ref>)
    requires
        0 <= plen,
        s.len() == plen + dlen,
        0 <= pos <= dlen,
        saved matches Some(sv) ==> 1 <= pos && pos + 1 < dlen && best_at(s, plen, pos - 1) == Some(sv),
    ensures
        lazy_rules(s, plen, dlen, spec_gzip(s, plen, dlen, pos, saved), if saved is Some { pos - 1 } else { pos }),
    decreases (if pos < dlen {
        dlen - pos
    } else {
        0
    }),
{
    if let Some(sv) = saved {
        lemma_best_at_bounds(s, plen, dlen, pos - 1);
    }
    if pos + 2 < dlen {
        lemma_best_at_bounds(s, plen, dlen, pos);
        match best_at(s, plen, pos) {
            Some(b) => match saved {
                Some(sv) => if spec_run(b) > spec_run(sv) {
                    let lit = Code::Literal(s[plen + pos - 1]);
                    let rest = spec_gzip(s, plen, dlen, pos + 1, Some(b));
                    lemma_gzip_lazy_from(s, plen, dlen, pos + 1, Some(b));
                    lemma_gzip_first(s, plen, dlen, pos + 1, b);
                    lemma_lazy_cons(s, plen, dlen, lit, rest, pos - 1);
                } else {
                    let next = pos + spec_run(sv) - 1;
                    lemma_gzip_lazy_from(s, plen, dlen, next, None);
                    lemma_lazy_cons(s, plen, dlen, Code::Reference(sv), spec_gzip(s, plen, dlen, next, None), pos - 1);
                },
                None => {
                    lemma_gzip_lazy_from(s, plen, dlen, pos + 1, Some(b));
                },
            },
            None => match saved {
                Some(sv) => {
                    let next = pos + spec_run(sv) - 1;
                    lemma_gzip_lazy_from(s, plen, dlen, next, None);
                    lemma_lazy_cons(s, plen, dlen, Code::Reference(sv), spec_gzip(s, plen, dlen, next, None), pos - 1);
                },
                None => {
                    let lit = Code::Literal(s[plen + pos]);
                    lemma_gzip_lazy_from(s, plen, dlen, pos + 1, None);
                    lemma_lazy_cons(s, plen, dlen, lit, spec_gzip(s, plen, dlen, pos + 1, None), pos);
                },
            },
        }
    } else {
        match saved {
            Some(sv) => {
                lemma_literals_lazy(s, plen, dlen, pos + spec_run(sv), pos - 1 + spec_run(sv));
                lemma_lazy_cons(
                    s,
                    plen,
                    dlen,
                    Code::Reference(sv),
                    literals_from(s, plen, dlen, pos + spec_run(sv)),
                    pos - 1,
                );
            },
            None => {
                lemma_literals_lazy(s, plen, dlen, pos, pos);
            },
        }
    }
}

/// The two rules gzip's lazy matching keeps, over the codes it writes for `data` after
/// `preroll`, each code at its place in the data: a literal is followed by a reference only
/// when nothing was picked at the literal's place or the reference is strictly longer than
/// what was; and every reference is what is picked at its place, held against the next byte
/// and kept because what that byte starts is no longer (or too near the end to look at).
pub proof fn lemma_gzip_lazy(preroll: Seq<u8>, data: Seq<u8>)
    ensures
        ({
            let s = preroll + data;
            let plen = preroll.len() as int;
            let dlen = data.len() as int;
            let codes = spec_gzip(s, plen, dlen, 0, None);
            &&& forall|k: int|
                0 <= k && k + 1 < codes.len() && #[trigger] codes[k] is Literal && codes[k + 1] is Reference
                    && best_at(s, plen, emitted_sum(codes.take(k))) is Some ==> spec_run(
                    best_at(s, plen, emitted_sum(codes.take(k)))->Some_0,
                ) < spec_run(codes[k + 1]->Reference_0)
            &&& forall|k: int|
                0 <= k < codes.len() && #[trigger] codes[k] is Reference ==> {
                    let q = emitted_sum(codes.take(k));
                    &&& best_at(s, plen, q) == Some(codes[k]->Reference_0)
                    &&& (q + 3 < dlen && best_at(s, plen, q + 1) is Some) ==> spec_run(best_at(s, plen, q + 1)->Some_0)
                        <= spec_run(codes[k]->Reference_0)
                }
        }),
{
    let s = preroll + data;
    let plen = preroll.len() as int;
    let dlen = data.len() as int;
    lemma_gzip_lazy_from(s, plen, dlen, 0, None);
    let codes = spec_gzip(s, plen, dlen, 0, None);
    assert forall|k: int| 0 <= k <= codes.len() implies #[trigger] code_start(codes, 0, k) == emitted_sum(
        codes.take(k),
    ) by {
    }
    assert forall|k: int|
        0 <= k && k + 1 < codes.len() && #[trigger] codes[k] is Literal && codes[k + 1] is Reference && best_at(
            s,
            plen,
            emitted_sum(codes.take(k)),
        ) is Some implies spec_run(best_at(s, plen, emitted_sum(codes.take(k)))->Some_0) < spec_run(
        codes[k + 1]->Reference_0,
    ) by {
        assert(code_start(codes, 0, k) == emitted_sum(codes.take(k)));
    }
    assert forall|k: int| 0 <= k < codes.len() && #[trigger] codes[k] is Reference implies {
        let q = emitted_sum(codes.take(k));
        &&& best_at(s, plen, q) == Some(codes[k]->Reference_0)
        &&& (q + 3 < dlen && best_at(s, plen, q + 1) is Some) ==> spec_run(best_at(s, plen, q + 1)->Some_0)
            <= spec_run(codes[k]->Reference_0)
    } by {
        assert(code_start(codes, 0, k) == emitted_sum(codes.take(k)));
    }
}

} // verus!

