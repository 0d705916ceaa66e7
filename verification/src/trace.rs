use vstd::prelude::*;

use crate::circles::keep_last;
use crate::circles::CircularBuffer;
use crate::serialise::decompressed_codes;
use crate::serialise::inflate;
use crate::spec_emitted;
use crate::Code;
use crate::Trace;

verus! {

/// What a guesser answers: the codes guessed at byte `pos` of `data`, which follows `preroll`.
pub type GuessModel = spec_fn(Seq<u8>, Seq<u8>, int) -> Seq<Code>;

/// The guesser `f` accepts every position, and always answers what `g` says.
pub open spec fn guesses_as<F: Fn(&[u8], &[u8], usize) -> Vec<Code>>(f: F, g: GuessModel) -> bool {
    &&& forall|preroll: &[u8], data: &[u8], pos: usize| #[trigger] call_requires(f, (preroll, data, pos))
    &&& forall|preroll: &[u8], data: &[u8], pos: usize, r: Vec<Code>|
        #[trigger] call_ensures(f, (preroll, data, pos), r) ==> r@ == g(preroll@, data@, pos as int)
}

/// A guesser that always answers as some model does.
#[verifier::opaque]
pub open spec fn deterministic<F: Fn(&[u8], &[u8], usize) -> Vec<Code>>(f: F) -> bool {
    exists|g: GuessModel| guesses_as(f, g)
}

/// The model a deterministic guesser answers by.
pub open spec fn model_of<F: Fn(&[u8], &[u8], usize) -> Vec<Code>>(f: F) -> GuessModel {
    choose|g: GuessModel| guesses_as(f, g)
}

/// Asks the guesser at `pos`.
fn ask<F: Fn(&[u8], &[u8], usize) -> Vec<Code>>(guesser: &F, preroll: &[u8], data: &[u8], pos: usize) -> (r: Vec<Code>)
    requires
        deterministic(*guesser),
    ensures
        r@ == model_of(*guesser)(preroll@, data@, pos as int),
{
    proof {
        reveal(deterministic);
        assert(guesses_as(*guesser, model_of(*guesser)));
    }
    guesser(preroll, data, pos)
}

/// How many bytes the codes stand for.
pub open spec fn emitted_sum(codes: Seq<Code>) -> int
    decreases codes.len(),
{
    if codes.len() == 0 {
        0
    } else {
        emitted_sum(codes.drop_last()) + spec_emitted(codes.last())
    }
}

pub proof fn lemma_emitted_pos(c: Code)
    ensures
        1 <= spec_emitted(c) <= 258,
{
}

pub proof fn lemma_emitted_sum_one(c: Code)
    ensures
        emitted_sum(seq![c]) == spec_emitted(c),
{
    assert(seq![c].drop_last() =~= Seq::<Code>::empty());
    assert(seq![c].last() == c);
    assert(emitted_sum(Seq::<Code>::empty()) == 0);
}

pub proof fn lemma_emitted_sum_add(a: Seq<Code>, b: Seq<Code>)
    ensures
        emitted_sum(a + b) == emitted_sum(a) + emitted_sum(b),
    decreases b.len(),
{
    if b.len() == 0 {
        assert(a + b =~= a);
    } else {
        lemma_emitted_sum_add(a, b.drop_last());
        assert((a + b).drop_last() =~= a + b.drop_last());
        assert((a + b).last() == b.last());
    }
}

pub proof fn lemma_emitted_sum_bounds(codes: Seq<Code>)
    ensures
        codes.len() <= emitted_sum(codes) <= 258 * codes.len(),
    decreases codes.len(),
{
    if codes.len() > 0 {
        lemma_emitted_sum_bounds(codes.drop_last());
        lemma_emitted_pos(codes.last());
    }
}

/// How many of `left`, from the `k`th on, agree with `right` from `start + k` on, plus `k`.
pub open spec fn common_from(left: Seq<Code>, right: Seq<Code>, start: int, k: int) -> int
    decreases left.len() - k,
{
    if k < 0 || k >= left.len() || start + k < 0 || start + k >= right.len() || left[k] != right[start + k] {
        k
    } else {
        common_from(left, right, start, k + 1)
    }
}

pub proof fn lemma_common_from(left: Seq<Code>, right: Seq<Code>, start: int, k: int)
    requires
        0 <= k <= left.len(),
        0 <= start,
        start + k <= right.len(),
        forall|j: int| 0 <= j < k ==> left[j] == right[start + j],
    ensures
        k <= common_from(left, right, start, k) <= left.len(),
        start + common_from(left, right, start, k) <= right.len(),
        forall|j: int| 0 <= j < common_from(left, right, start, k) ==> left[j] == right[start + j],
        common_from(left, right, start, k) < left.len() && start + common_from(left, right, start, k)
            < right.len() ==> left[common_from(left, right, start, k)] != right[start + common_from(
            left,
            right,
            start,
            k,
        )],
    decreases left.len() - k,
{
    if k < left.len() && start + k < right.len() && left[k] == right[start + k] {
        lemma_common_from(left, right, start, k + 1);
    }
}

pub proof fn lemma_common_from_range(left: Seq<Code>, right: Seq<Code>, start: int, k: int)
    requires
        0 <= k <= left.len(),
    ensures
        k <= common_from(left, right, start, k) <= left.len(),
    decreases left.len() - k,
{
    if k < left.len() && start + k >= 0 && start + k < right.len() && left[k] == right[start + k] {
        lemma_common_from_range(left, right, start, k + 1);
    }
}

/// The trace of `codes`, from the `i`th on, against the guesses from byte `pos` of `data` on:
/// `Correct` for each code the guesser guessed, and the actual code where it guessed wrong,
/// after which it guesses again from where that code ends. `None` where the guesser guesses
/// nothing, or more codes than there are.
pub open spec fn spec_trace(
    g: GuessModel,
    preroll: Seq<u8>,
    data: Seq<u8>,
    codes: Seq<Code>,
    pos: int,
    i: int,
) -> Option<Seq<Trace>>
    decreases (if pos < data.len() {
        data.len() - pos
    } else {
        0
    }),
{
    if pos >= data.len() {
        Some(Seq::empty())
    } else {
        let guesses = g(preroll, data, pos);
        if guesses.len() == 0 {
            None
        } else {
            let m = common_from(guesses, codes, i, 0);
            let matched = Seq::new(m as nat, |_k: int| Trace::Correct);
            let adv = emitted_sum(guesses.take(m));
            proof {
                lemma_common_from_range(guesses, codes, i, 0);
                lemma_emitted_sum_bounds(guesses.take(m));
                lemma_emitted_sum_bounds(guesses);
            }
            if m == guesses.len() {
                proof {
                    assert(guesses.take(m) =~= guesses);
                }
                match spec_trace(g, preroll, data, codes, pos + adv, i + m) {
                    Some(t) => Some(matched + t),
                    None => None,
                }
            } else if i + m < 0 || i + m >= codes.len() {
                None
            } else {
                let c = codes[i + m];
                proof {
                    lemma_emitted_pos(c);
                }
                match spec_trace(g, preroll, data, codes, pos + adv + spec_emitted(c), i + m + 1) {
                    Some(t) => Some(matched.push(Trace::Actual(c)) + t),
                    None => None,
                }
            }
        }
    }
}

/// The codes a trace stands for with the guesses `guesses`, from the `k`th: each `Correct` is
/// the guess, an actual code ends the guesses. The codes, how many of the trace were used, and
/// how many bytes they stand for; `None` when the trace runs out.
pub open spec fn restore_guesses(guesses: Seq<Code>, trace: Seq<Trace>, k: int) -> Option<(Seq<Code>, int, int)>
    decreases guesses.len() - k,
{
    if k < 0 || k >= guesses.len() {
        Some((Seq::empty(), 0, 0))
    } else if k >= trace.len() {
        None
    } else {
        match trace[k] {
            Trace::Correct => match restore_guesses(guesses, trace, k + 1) {
                Some((out, n, adv)) => Some((seq![guesses[k]] + out, n + 1, adv + spec_emitted(guesses[k]))),
                None => None,
            },
            Trace::Actual(c) => Some((seq![c], 1, spec_emitted(c))),
        }
    }
}

pub proof fn lemma_restore_guesses_adv(guesses: Seq<Code>, trace: Seq<Trace>, k: int)
    ensures
        restore_guesses(guesses, trace, k) matches Some((out, n, adv)) ==> 0 <= n && 0 <= adv && (0 <= k
            < guesses.len() ==> adv >= 1 && n >= 1),
    decreases guesses.len() - k,
{
    if 0 <= k < guesses.len() && k < trace.len() {
        lemma_restore_guesses_adv(guesses, trace, k + 1);
        lemma_emitted_pos(guesses[k]);
        if let Trace::Actual(c) = trace[k] {
            lemma_emitted_pos(c);
        }
    }
}

pub proof fn lemma_restore_adv_bound(guesses: Seq<Code>, trace: Seq<Trace>, k: int)
    requires
        0 <= k,
    ensures
        restore_guesses(guesses, trace, k) matches Some((out, n, adv)) ==> adv <= 258 * (if k < guesses.len() {
            guesses.len() - k
        } else {
            0
        }),
    decreases guesses.len() - k,
{
    if 0 <= k < guesses.len() && k < trace.len() {
        lemma_restore_adv_bound(guesses, trace, k + 1);
        lemma_emitted_pos(guesses[k]);
        if let Trace::Actual(c) = trace[k] {
            lemma_emitted_pos(c);
        }
    }
}

/// The codes a trace stands for, guessing from byte `pos` of `data` on; `None` where the
/// guesser guesses nothing, or the trace runs out.
pub open spec fn spec_restore(g: GuessModel, preroll: Seq<u8>, data: Seq<u8>, trace: Seq<Trace>, pos: int) -> Option<
    Seq<Code>,
>
    decreases (if pos < data.len() {
        data.len() - pos
    } else {
        0
    }),
{
    if pos >= data.len() {
        Some(Seq::empty())
    } else {
        let guesses = g(preroll, data, pos);
        if guesses.len() == 0 {
            None
        } else {
            proof {
                lemma_restore_guesses_adv(guesses, trace, 0);
            }
            match restore_guesses(guesses, trace, 0) {
                None => None,
                Some((out, n, adv)) => match spec_restore(g, preroll, data, trace.skip(n), pos + adv) {
                    Some(rest) => Some(out + rest),
                    None => None,
                },
            }
        }
    }
}

/// The bytes `codes` stand for after `preroll`, through a 32 KiB window.
pub open spec fn decoded(preroll: Seq<u8>, codes: Seq<Code>) -> Seq<u8> {
    inflate(keep_last(preroll, 32768), 32768, codes)->Some_0.1
}

/// How many of `left` agree with `right` from `*right_pos` on; `*right_pos` moves past them.
pub fn shared_prefix(left: &[Code], right: &[Code], right_pos: &mut usize) -> (r: usize)
    requires
        *old(right_pos) <= right@.len(),
    ensures
        r == common_from(left@, right@, *old(right_pos) as int, 0),
        *final(right_pos) == *old(right_pos) + r,
        *final(right_pos) <= right@.len(),
{
    proof {
        lemma_common_from(left@, right@, *right_pos as int, 0);
    }
    let ghost start = *right_pos as int;
    let mut end: usize = 0;
    while end < left.len()
        invariant
            start == *old(right_pos),
            0 <= start <= right@.len(),
            end <= left@.len(),
            *right_pos == start + end,
            *right_pos <= right@.len(),
            forall|j: int| 0 <= j < end ==> left@[j] == right@[start + j],
            common_from(left@, right@, start, end as int) == common_from(left@, right@, start, 0),
        decreases left@.len() - end,
    {
        if *right_pos >= right.len() || right[*right_pos] != left[end] {
            return end;
        }
        *right_pos = *right_pos + 1;
        end += 1;
    }
    end
}


/// Decoding gives as many bytes as the codes stand for.
pub proof fn lemma_inflate_len(window: Seq<u8>, cap: nat, codes: Seq<Code>)
    ensures
        inflate(window, cap, codes) matches Some((_, out)) ==> out.len() == emitted_sum(codes),
    decreases codes.len(),
{
    if codes.len() > 0 {
        lemma_inflate_len(window, cap, codes.drop_last());
        if let Some((w, out)) = inflate(window, cap, codes.drop_last()) {
            if let Code::Reference(r) = codes.last() {
                crate::circles::lemma_lz_copy_len(w, r.dist as nat, crate::spec_run(r) as nat);
            }
        }
    }
}

/// Records `Correct` for each of the first `m` guesses; the position after them.
fn push_matched(ret: &mut Vec<Trace>, guesses: &[Code], m: usize, pos: usize, limit: usize) -> (r: usize)
    requires
        m <= guesses@.len(),
        pos + emitted_sum(guesses@.take(m as int)) <= limit,
    ensures
        r == pos + emitted_sum(guesses@.take(m as int)),
        final(ret)@ == old(ret)@ + Seq::new(m as nat, |_j: int| Trace::Correct),
{
    let ghost before = ret@;
    let mut p = pos;
    let mut k: usize = 0;
    proof {
        assert(guesses@.take(0) =~= Seq::<Code>::empty());
        assert(ret@ =~= before + Seq::new(0, |_j: int| Trace::Correct));
    }
    while k < m
        invariant
            k <= m,
            m <= guesses@.len(),
            p == pos + emitted_sum(guesses@.take(k as int)),
            pos + emitted_sum(guesses@.take(m as int)) <= limit,
            before == old(ret)@,
            ret@ == before + Seq::new(k as nat, |_j: int| Trace::Correct),
        decreases m - k,
    {
        proof {
            assert(guesses@.take(k + 1).drop_last() =~= guesses@.take(k as int));
            assert(guesses@.take(k + 1).last() == guesses@[k as int]);
            assert(emitted_sum(guesses@.take(k + 1)) == emitted_sum(guesses@.take(k as int)) + spec_emitted(
                guesses@[k as int],
            ));
            lemma_emitted_sum_add(guesses@.take(k + 1), guesses@.subrange(k + 1, m as int));
            assert(guesses@.take(k + 1) + guesses@.subrange(k + 1, m as int) =~= guesses@.take(m as int));
            lemma_emitted_sum_bounds(guesses@.subrange(k + 1, m as int));
        }
        ret.push(Trace::Correct);
        p += crate::usize_from(guesses[k].emitted_bytes());
        k += 1;
        proof {
            assert(ret@ =~= before + Seq::new(k as nat, |_j: int| Trace::Correct));
        }
    }
    p
}

/// Walks the codes against a guesser: `Correct` for each code it guessed, the code itself
/// where it guessed wrong.
#[verifier::spinoff_prover]
#[verifier::rlimit(60)]
pub fn trace<F: Fn(&[u8], &[u8], usize) -> Vec<Code>>(preroll: &[u8], codes: &[Code], guesser: F) -> (r: Vec<Trace>)
    requires
        deterministic(guesser),
        inflate(keep_last(preroll@, 32768), 32768, codes@) is Some,
        spec_trace(model_of(guesser), preroll@, decoded(preroll@, codes@), codes@, 0, 0) is Some,
    ensures
        r@ == spec_trace(model_of(guesser), preroll@, decoded(preroll@, codes@), codes@, 0, 0)->Some_0,
{
    let mut data: Vec<u8> = Vec::new();
    let mut prebuf = CircularBuffer::with_capacity(32768);
    prebuf.extend(preroll);
    proof {
        assert(Seq::<u8>::empty() + preroll@ =~= preroll@);
    }
    let _ = decompressed_codes(&mut data, &mut prebuf, codes);
    proof {
        assert(data@ =~= decoded(preroll@, codes@));
        lemma_inflate_len(keep_last(preroll@, 32768), 32768, codes@);
        lemma_emitted_sum_add(codes@.take(0), codes@.skip(0));
        assert(codes@.take(0) =~= Seq::<Code>::empty());
        assert(codes@.skip(0) =~= codes@);
    }
    let ghost total = spec_trace(model_of(guesser), preroll@, data@, codes@, 0, 0)->Some_0;
    let mut ret: Vec<Trace> = Vec::new();
    let mut pos: usize = 0;
    let mut i: usize = 0;
    while pos < data.len()
        invariant
            data@ == decoded(preroll@, codes@),
            data@.len() == emitted_sum(codes@),
            total == spec_trace(model_of(guesser), preroll@, data@, codes@, 0, 0)->Some_0,
            deterministic(guesser),
            i <= codes@.len(),
            pos == emitted_sum(codes@.take(i as int)),
            spec_trace(model_of(guesser), preroll@, data@, codes@, pos as int, i as int) matches Some(rest) && ret@ + rest
                == total,
        decreases data@.len() - pos,
    {
        let ghost rest = spec_trace(model_of(guesser), preroll@, data@, codes@, pos as int, i as int)->Some_0;
        let guesses = ask(&guesser, preroll, data.as_slice(), pos);
        let ghost i0 = i as int;
        let ghost pos0 = pos as int;
        let m = shared_prefix(guesses.as_slice(), codes, &mut i);
        proof {
            lemma_common_from(guesses@, codes@, i0, 0);
            lemma_emitted_sum_add(codes@.take(i0), codes@.subrange(i0, i0 + m));
            assert(codes@.take(i0) + codes@.subrange(i0, i0 + m) =~= codes@.take(i0 + m));
            assert(codes@.subrange(i0, i0 + m) =~= guesses@.take(m as int));
            lemma_emitted_sum_add(codes@.take(i0 + m), codes@.skip(i0 + m));
            assert(codes@.take(i0 + m) + codes@.skip(i0 + m) =~= codes@);
            lemma_emitted_sum_bounds(codes@.skip(i0 + m));
        }
        let ghost before = ret@;
        pos = push_matched(&mut ret, guesses.as_slice(), m, pos, data.len());
        if m == guesses.len() {
            proof {
                assert(guesses@.take(m as int) =~= guesses@);
                lemma_emitted_sum_bounds(guesses@);
                assert(before + Seq::new(m as nat, |_j: int| Trace::Correct) + spec_trace(
                    model_of(guesser),
                    preroll@,
                    data@,
                    codes@,
                    pos as int,
                    i as int,
                )->Some_0 =~= before + rest);
            }
            continue;
        }
        let code = codes[i];
        proof {
            lemma_emitted_sum_bounds(guesses@.take(m as int));
            lemma_emitted_sum_add(codes@.take(i as int), codes@.subrange(i as int, i + 1));
            assert(codes@.take(i as int) + codes@.subrange(i as int, i + 1) =~= codes@.take(i + 1));
            assert(codes@.subrange(i as int, i + 1).drop_last() =~= Seq::<Code>::empty());
            assert(codes@.subrange(i as int, i + 1).last() == code);
            assert(emitted_sum(Seq::<Code>::empty()) == 0);
            lemma_emitted_sum_add(codes@.take(i + 1), codes@.skip(i + 1));
            assert(codes@.take(i + 1) + codes@.skip(i + 1) =~= codes@);
            lemma_emitted_sum_bounds(codes@.skip(i + 1));
        }
        ret.push(Trace::Actual(code));
        pos += crate::usize_from(code.emitted_bytes());
        i += 1;
        proof {
            assert(before + Seq::new(m as nat, |_j: int| Trace::Correct).push(Trace::Actual(code)) + spec_trace(
                model_of(guesser),
                preroll@,
                data@,
                codes@,
                pos as int,
                i as int,
            )->Some_0 =~= before + rest);
        }
    }
    proof {
        assert(ret@ + Seq::<Trace>::empty() =~= ret@);
    }
    ret
}


fn restore_guesses_exec(guesses: &[Code], trace: &[Trace], j: usize, ret: &mut Vec<Code>) -> (r: (usize, u128))
    requires
        j <= trace@.len(),
        restore_guesses(guesses@, trace@.skip(j as int), 0) is Some,
    ensures
        ({
            let (out, n, adv) = restore_guesses(guesses@, trace@.skip(j as int), 0)->Some_0;
            &&& final(ret)@ == old(ret)@ + out
            &&& r.0 == j + n
            &&& r.0 <= trace@.len()
            &&& r.1 == adv
            &&& r.1 <= 258 * guesses@.len()
        }),
{
    let ghost t0 = trace@.skip(j as int);
    let ghost before = ret@;
    let mut jj = j;
    let mut adv: u128 = 0;
    let mut k: usize = 0;
    let ghost mut done: Seq<Code> = Seq::empty();
    proof {
        assert(ret@ =~= before + done);
    }
    while k < guesses.len()
        invariant_except_break
            k <= guesses@.len(),
            restore_guesses(guesses@, t0, k as int) is Some,
            restore_guesses(guesses@, t0, 0) == Some(
                (
                    done + restore_guesses(guesses@, t0, k as int)->Some_0.0,
                    k + restore_guesses(guesses@, t0, k as int)->Some_0.1,
                    adv + restore_guesses(guesses@, t0, k as int)->Some_0.2,
                ),
            ),
            jj == j + k,
            adv <= 258 * k,
        invariant
            t0 == trace@.skip(j as int),
            j <= trace@.len(),
            jj <= trace@.len(),
            before == old(ret)@,
            ret@ == before + done,
        ensures
            restore_guesses(guesses@, t0, 0) == Some((done, jj - j, adv as int)),
            adv <= 258 * guesses@.len(),
        decreases guesses@.len() - k,
    {
        proof {
            lemma_emitted_pos(guesses@[k as int]);
        }
        let hint = trace[jj];
        jj += 1;
        let orig = match hint {
            Trace::Correct => guesses[k],
            Trace::Actual(other) => other,
        };
        proof {
            lemma_emitted_pos(orig);
            done = done + seq![orig];
        }
        adv += orig.emitted_bytes() as u128;
        ret.push(orig);
        if let Trace::Actual(_) = hint {
            proof {
                assert(ret@ =~= before + done);
            }
            break;
        }
        k += 1;
        proof {
            assert(ret@ =~= before + done);
            assert(done == done.drop_last() + seq![guesses@[k - 1]]);
        }
    }
    proof {
        if k == guesses.len() && !(restore_guesses(guesses@, t0, 0) == Some((done, jj - j, adv as int))) {
            assert(restore_guesses(guesses@, t0, k as int) == Some((Seq::<Code>::empty(), 0int, 0int)));
            assert(done + Seq::<Code>::empty() =~= done);
        }
    }
    (jj, adv)
}

/// The codes a trace stands for, guessing with the same guesser over the data the codes
/// decode to.
#[verifier::spinoff_prover]
#[verifier::rlimit(60)]
pub fn restore<F: Fn(&[u8], &[u8], usize) -> Vec<Code>>(preroll: &[u8], data: &[u8], trace: &[Trace], guesser: F) -> (r: Vec<Code>)
    requires
        deterministic(guesser),
        spec_restore(model_of(guesser), preroll@, data@, trace@, 0) is Some,
    ensures
        r@ == spec_restore(model_of(guesser), preroll@, data@, trace@, 0)->Some_0,
{
    let ghost total = spec_restore(model_of(guesser), preroll@, data@, trace@, 0)->Some_0;
    let mut ret: Vec<Code> = Vec::new();
    let mut pos: u128 = 0;
    let mut j: usize = 0;
    proof {
        assert(trace@.skip(0) =~= trace@);
        assert(ret@ + total =~= total);
    }
    while pos < data.len() as u128
        invariant
            j <= trace@.len(),
            pos <= data@.len() + 258 * 0x1_0000_0000_0000_0000,
            total == spec_restore(model_of(guesser), preroll@, data@, trace@, 0)->Some_0,
            deterministic(guesser),
            spec_restore(model_of(guesser), preroll@, data@, trace@.skip(j as int), pos as int) matches Some(rest) && ret@
                + rest == total,
        decreases (if pos < data@.len() {
            data@.len() - pos
        } else {
            0
        }),
    {
        let ghost rest = spec_restore(model_of(guesser), preroll@, data@, trace@.skip(j as int), pos as int)->Some_0;
        let ghost pos0 = pos as int;
        let guesses = ask(&guesser, preroll, data, pos as usize);
        let ghost before = ret@;
        let ghost j0 = j as int;
        proof {
            lemma_restore_guesses_adv(guesses@, trace@.skip(j as int), 0);
        }
        let glen = guesses.len();
        let (new_j, adv) = restore_guesses_exec(guesses.as_slice(), trace, j, &mut ret);
        proof {
            let (out, n, a) = restore_guesses(guesses@, trace@.skip(j0), 0)->Some_0;
            assert(trace@.skip(j0).skip(n) =~= trace@.skip(new_j as int));
            let rest2 = spec_restore(model_of(guesser), preroll@, data@, trace@.skip(new_j as int), pos0 + a)->Some_0;
            assert(before + out + rest2 =~= before + rest);
            lemma_restore_adv_bound(guesses@, trace@.skip(j0), 0);
        }
        proof {
            let gl = glen as int;
            assert(258 * gl <= 258 * 0xffff_ffff_ffff_ffffint) by (nonlinear_arith)
                requires
                    0 <= gl <= 0xffff_ffff_ffff_ffffint,
            ;
        }
        pos = pos + adv;
        j = new_j;
    }
    proof {
        assert(ret@ + Seq::<Code>::empty() =~= ret@);
    }
    ret
}


proof fn lemma_restore_prefix(guesses: Seq<Code>, t: Seq<Trace>, k: int, m: int)
    requires
        0 <= k <= m <= guesses.len(),
        m <= t.len(),
        forall|j: int| k <= j < m ==> t[j] == Trace::Correct,
    ensures
        m == guesses.len() ==> restore_guesses(guesses, t, k) == Some(
            (guesses.subrange(k, m), m - k, emitted_sum(guesses.subrange(k, m))),
        ),
        m < guesses.len() && m < t.len() && t[m] is Actual ==> restore_guesses(guesses, t, k) == Some(
            (
                guesses.subrange(k, m) + seq![t[m]->Actual_0],
                m + 1 - k,
                emitted_sum(guesses.subrange(k, m)) + spec_emitted(t[m]->Actual_0),
            ),
        ),
    decreases m - k,
{
    if k < m {
        lemma_restore_prefix(guesses, t, k + 1, m);
        assert(guesses.subrange(k, m) =~= seq![guesses[k]] + guesses.subrange(k + 1, m));
        lemma_emitted_sum_add(seq![guesses[k]], guesses.subrange(k + 1, m));
        lemma_emitted_sum_one(guesses[k]);
        if m < guesses.len() && m < t.len() && t[m] is Actual {
            assert(seq![guesses[k]] + (guesses.subrange(k + 1, m) + seq![t[m]->Actual_0]) =~= guesses.subrange(k, m)
                + seq![t[m]->Actual_0]);
        }
    } else {
        assert(guesses.subrange(k, m) =~= Seq::<Code>::empty());
        assert(Seq::<Code>::empty() + seq![t[m]->Actual_0] =~= seq![t[m]->Actual_0]) ;
    }
}

/// `restore` undoes `trace`: restoring the trace of some codes, with the same guesser over
/// the data the codes stand for, gives back the codes.
pub proof fn lemma_restore_trace(
    g: GuessModel,
    preroll: Seq<u8>,
    data: Seq<u8>,
    codes: Seq<Code>,
    pos: int,
    i: int,
)
    requires
        0 <= i <= codes.len(),
        spec_trace(g, preroll, data, codes, pos, i) is Some,
        pos + emitted_sum(codes.skip(i)) == data.len(),
    ensures
        spec_restore(g, preroll, data, spec_trace(g, preroll, data, codes, pos, i)->Some_0, pos) == Some(codes.skip(i)),
    decreases (if pos < data.len() {
        data.len() - pos
    } else {
        0
    }),
{
    let t = spec_trace(g, preroll, data, codes, pos, i)->Some_0;
    if pos >= data.len() {
        lemma_emitted_sum_bounds(codes.skip(i));
        assert(codes.skip(i) =~= Seq::<Code>::empty());
    } else {
        let guesses = g(preroll, data, pos);
        lemma_common_from(guesses, codes, i, 0);
        let m = common_from(guesses, codes, i, 0);
        let matched = Seq::new(m as nat, |_k: int| Trace::Correct);
        assert(codes.subrange(i, i + m) =~= guesses.take(m));
        lemma_emitted_sum_bounds(guesses.take(m));
        lemma_restore_guesses_adv(guesses, t, 0);
        if m == guesses.len() {
            assert(guesses.take(m) =~= guesses);
            let adv = emitted_sum(guesses);
            lemma_emitted_sum_bounds(guesses);
            let t2 = spec_trace(g, preroll, data, codes, pos + adv, i + m)->Some_0;
            assert(t == matched + t2);
            lemma_restore_prefix(guesses, t, 0, m);
            assert(guesses.subrange(0, m) =~= guesses);
            assert(t.skip(m) =~= t2);
            assert(codes.skip(i) =~= guesses + codes.skip(i + m));
            lemma_emitted_sum_add(guesses, codes.skip(i + m));
            lemma_restore_trace(g, preroll, data, codes, pos + adv, i + m);
        } else {
            let c = codes[i + m];
            let adv = emitted_sum(guesses.take(m));
            lemma_emitted_pos(c);
            let t2 = spec_trace(g, preroll, data, codes, pos + adv + spec_emitted(c), i + m + 1)->Some_0;
            assert(t == matched.push(Trace::Actual(c)) + t2);
            assert(t[m] == Trace::Actual(c));
            lemma_restore_prefix(guesses, t, 0, m);
            assert(guesses.subrange(0, m) =~= guesses.take(m));
            assert(t.skip(m + 1) =~= t2);
            assert(codes.skip(i) =~= guesses.take(m) + seq![c] + codes.skip(i + m + 1));
            lemma_emitted_sum_add(guesses.take(m) + seq![c], codes.skip(i + m + 1));
            lemma_emitted_sum_add(guesses.take(m), seq![c]);
            lemma_emitted_sum_one(c);
            lemma_restore_trace(g, preroll, data, codes, pos + adv + spec_emitted(c), i + m + 1);
        }
    }
}


/// What `trace` and `restore` promise together: whenever the codes decode and can be traced,
/// restoring their trace over the decoded bytes gives back exactly the codes.
pub proof fn lemma_restore_undoes_trace(g: GuessModel, preroll: Seq<u8>, codes: Seq<Code>)
    requires
        inflate(keep_last(preroll, 32768), 32768, codes) is Some,
        spec_trace(g, preroll, decoded(preroll, codes), codes, 0, 0) is Some,
    ensures
        spec_restore(
            g,
            preroll,
            decoded(preroll, codes),
            spec_trace(g, preroll, decoded(preroll, codes), codes, 0, 0)->Some_0,
            0,
        ) == Some(codes),
{
    lemma_inflate_len(keep_last(preroll, 32768), 32768, codes);
    assert(codes.skip(0) =~= codes);
    lemma_restore_trace(g, preroll, decoded(preroll, codes), codes, 0, 0);
}


/// Traces the codes, and restores them from the trace with the same guesser, which gives
/// them back; the trace.
pub fn validate<F: Fn(&[u8], &[u8], usize) -> Vec<Code> + Copy>(preroll: &[u8], codes: &[Code], guesser: F) -> (r: Vec<Trace>)
    requires
        deterministic(guesser),
        inflate(keep_last(preroll@, 32768), 32768, codes@) is Some,
        spec_trace(model_of(guesser), preroll@, decoded(preroll@, codes@), codes@, 0, 0) is Some,
    ensures
        r@ == spec_trace(model_of(guesser), preroll@, decoded(preroll@, codes@), codes@, 0, 0)->Some_0,
{
    let traced = trace(preroll, codes, guesser);
    let mut data: Vec<u8> = Vec::new();
    let mut prebuf = CircularBuffer::with_capacity(32768);
    prebuf.extend(preroll);
    proof {
        assert(Seq::<u8>::empty() + preroll@ =~= preroll@);
    }
    let _ = decompressed_codes(&mut data, &mut prebuf, codes);
    proof {
        assert(data@ =~= decoded(preroll@, codes@));
        lemma_restore_undoes_trace(model_of(guesser), preroll@, codes@);
    }
    let restored = restore(preroll, data.as_slice(), traced.as_slice(), guesser);
    assert(restored@ == codes@);
    traced
}

} // verus!

