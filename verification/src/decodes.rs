use vstd::prelude::*;

use crate::all_refs::candidates;
use crate::all_refs::key3;
use crate::all_refs::key_at;
use crate::all_refs::lemma_key3_injective;
use crate::all_refs::match_len;
use crate::all_refs::offsets_down;
use crate::all_refs::ref_from;
use crate::all_refs::run_limit;
use crate::all_refs::window_start;
use crate::circles::keep_last;
use crate::circles::lz_copy;
use crate::circles::lemma_lz_copy_len;
use crate::serialise::code_bytes;
use crate::serialise::inflate;
use crate::spec_emitted;
use crate::spec_run;
use crate::trace::emitted_sum;
use crate::Code;
use crate::Ref;

verus! {

/// The code, laid at index `p` of `s`, stands for the bytes of `s` there: a literal is the
/// byte at `p`; a reference reaches back no further than `p` and 32768 bytes, and each byte
/// it copies is the one `dist` bytes before it.
pub open spec fn matches_at(s: Seq<u8>, p: int, c: Code) -> bool {
    match c {
        Code::Literal(b) => 0 <= p < s.len() && s[p] == b,
        Code::Reference(r) => {
            &&& 1 <= r.dist <= 32768
            &&& r.dist <= p
            &&& p + spec_run(r) <= s.len()
            &&& forall|k: int| 0 <= k < spec_run(r) ==> #[trigger] s[p + k] == s[p + k - r.dist]
        },
    }
}

/// Each code, laid one after another from index `p` of `s`, stands for the bytes there.
pub open spec fn all_match(s: Seq<u8>, p: int, codes: Seq<Code>) -> bool
    decreases codes.len(),
{
    if codes.len() == 0 {
        true
    } else {
        matches_at(s, p, codes[0]) && all_match(s, p + spec_emitted(codes[0]), codes.skip(1))
    }
}

/// Decoding `a` then `b` is decoding them together.
pub proof fn lemma_inflate_concat(window: Seq<u8>, cap: nat, a: Seq<Code>, b: Seq<Code>)
    ensures
        inflate(window, cap, a + b) == match inflate(window, cap, a) {
            Some((w1, o1)) => match inflate(w1, cap, b) {
                Some((w2, o2)) => Some((w2, o1 + o2)),
                None => None,
            },
            None => None,
        },
    decreases b.len(),
{
    if b.len() == 0 {
        assert(a + b =~= a);
        if let Some((w1, o1)) = inflate(window, cap, a) {
            assert(o1 + Seq::<u8>::empty() =~= o1);
        }
    } else {
        lemma_inflate_concat(window, cap, a, b.drop_last());
        assert((a + b).drop_last() =~= a + b.drop_last());
        assert((a + b).last() == b.last());
        if let Some((w1, o1)) = inflate(window, cap, a) {
            if let Some((w2, o2)) = inflate(w1, cap, b.drop_last()) {
                if let Some(o) = code_bytes(w2, b.last()) {
                    assert(o1 + o2 + o =~= o1 + (o2 + o));
                }
            }
        }
    }
}

/// Keeping the last `n` before appending, and again after, keeps the last `n` of the whole.
pub proof fn lemma_keep_last_append(x: Seq<u8>, y: Seq<u8>, n: nat)
    ensures
        keep_last(keep_last(x, n) + y, n) == keep_last(x + y, n),
{
    assert(keep_last(keep_last(x, n) + y, n) =~= keep_last(x + y, n));
}

/// A reference whose bytes each match the one `d` before them copies the bytes that follow.
pub proof fn lemma_lz_copy_matches(s: Seq<u8>, p: int, w: Seq<u8>, d: nat, len: nat)
    requires
        w.len() <= p <= s.len(),
        w == s.subrange(p - w.len(), p),
        1 <= d <= w.len(),
        p + len <= s.len(),
        forall|k: int| 0 <= k < len ==> #[trigger] s[p + k] == s[p + k - d],
    ensures
        lz_copy(w, d, len) == s.subrange(p, p + len),
    decreases len,
{
    if len > 0 {
        lemma_lz_copy_matches(s, p, w, d, (len - 1) as nat);
        let prev = lz_copy(w, d, (len - 1) as nat);
        lemma_lz_copy_len(w, d, (len - 1) as nat);
        let i = w.len() + len - 1 - d;
        assert((w + prev)[i] == s[p + len - 1 - d]) by {
            if i < w.len() {
                assert(w[i] == s[p - w.len() + i]);
            } else {
                assert(prev[i - w.len()] == s[p + i - w.len()]);
            }
        }
        assert(s[p + (len - 1)] == s[p + (len - 1) - d]);
        assert(lz_copy(w, d, len) =~= s.subrange(p, p + len));
    }
}

/// Codes that stand for the bytes of `s` from `p` on decode, after the 32 KiB window before
/// `p`, to exactly those bytes.
pub proof fn lemma_matching_codes_decode(s: Seq<u8>, p: int, codes: Seq<Code>)
    requires
        0 <= p <= s.len(),
        all_match(s, p, codes),
    ensures
        p + emitted_sum(codes) <= s.len(),
        inflate(keep_last(s.take(p), 32768), 32768, codes) == Some(
            (
                keep_last(s.take(p + emitted_sum(codes)), 32768),
                s.subrange(p, p + emitted_sum(codes)),
            ),
        ),
    decreases codes.len(),
{
    let w = keep_last(s.take(p), 32768);
    if codes.len() == 0 {
        assert(s.subrange(p, p) =~= Seq::<u8>::empty());
        return;
    }
    let c = codes[0];
    let rest = codes.skip(1);
    let e = spec_emitted(c);
    let q = p + e;
    assert(codes =~= seq![c] + rest);
    crate::trace::lemma_emitted_sum_add(seq![c], rest);
    crate::trace::lemma_emitted_sum_one(c);
    assert(seq![c].drop_last() =~= Seq::<Code>::empty());
    let o = s.subrange(p, q);
    assert(q <= s.len());
    match c {
        Code::Literal(b) => {
            assert(o =~= seq![b]);
        },
        Code::Reference(r) => {
            assert(w == s.subrange(p - w.len(), p)) by {
                assert(w =~= s.subrange(p - w.len(), p));
            }
            lemma_lz_copy_matches(s, p, w, r.dist as nat, spec_run(r) as nat);
        },
    }
    assert(code_bytes(w, c) == Some(o));
    assert(inflate(w, 32768, seq![c]) == Some((keep_last(w + o, 32768), o))) by {
        assert(inflate(w, 32768, Seq::<Code>::empty()) == Some((w, Seq::<u8>::empty())));
        assert(Seq::<u8>::empty() + o =~= o);
    }
    lemma_keep_last_append(s.take(p), o, 32768);
    assert(s.take(p) + o =~= s.take(q));
    lemma_matching_codes_decode(s, q, rest);
    lemma_inflate_concat(w, 32768, seq![c], rest);
    assert(emitted_sum(codes) == e + emitted_sum(rest));
    crate::trace::lemma_emitted_sum_bounds(rest);
    assert(q + emitted_sum(rest) <= s.len());
    assert(o + s.subrange(q, q + emitted_sum(rest)) =~= s.subrange(p, p + emitted_sum(codes)));
}

proof fn lemma_offsets_keyed(s: Seq<u8>, k: u32, hi: int, lo: int)
    ensures
        forall|i: int|
            0 <= i < offsets_down(s, k, hi, lo).len() ==> key_at(s, #[trigger] offsets_down(s, k, hi, lo)[i])
                == k,
    decreases hi - lo,
{
    if hi > lo {
        lemma_offsets_keyed(s, k, hi - 1, lo);
        let rest = offsets_down(s, k, hi - 1, lo);
        if key_at(s, hi - 1) == k {
            let all = offsets_down(s, k, hi, lo);
            assert(all == seq![hi - 1] + rest);
            assert forall|i: int| 0 <= i < all.len() implies key_at(s, #[trigger] all[i]) == k by {
                if i > 0 {
                    assert(all[i] == rest[i - 1]);
                }
            }
        }
    }
}

pub proof fn lemma_match_len_matches(s: Seq<u8>, pos: int, dist: int, limit: int, c: int)
    requires
        c <= limit,
    ensures
        forall|k: int| c <= k < match_len(s, pos, dist, limit, c) ==> #[trigger] s[pos + k] == s[pos + k - dist],
    decreases limit - c,
{
    if c < limit && s[pos + c] == s[pos + c - dist] {
        lemma_match_len_matches(s, pos, dist, limit, c + 1);
    }
}

/// Every candidate at `pos` stands for the bytes there.
pub proof fn lemma_candidates_match(s: Seq<u8>, pos: int)
    requires
        0 <= pos,
        pos + 2 < s.len(),
    ensures
        forall|i: int|
            0 <= i < candidates(s, pos).len() ==> matches_at(
                s,
                pos,
                Code::Reference(#[trigger] candidates(s, pos)[i]),
            ),
{
    let k = key_at(s, pos);
    let lo = window_start(pos);
    let offs = offsets_down(s, k, pos, lo);
    crate::all_refs::lemma_candidates_bounds(s, pos);
    lemma_offsets_keyed(s, k, pos, lo);
    crate::all_refs::lemma_offsets_range(s, k, pos, lo);
    assert forall|i: int| 0 <= i < candidates(s, pos).len() implies matches_at(
        s,
        pos,
        Code::Reference(#[trigger] candidates(s, pos)[i]),
    ) by {
        let off = offs[i];
        let r = candidates(s, pos)[i];
        assert(r == ref_from(s, pos, off));
        let d = pos - off;
        assert(r.dist == d);
        lemma_key3_injective(s[off], s[off + 1], s[off + 2], s[pos], s[pos + 1], s[pos + 2]);
        assert(key_at(s, off) == k);
        lemma_match_len_matches(s, pos, d, run_limit(s, pos), 3);
        crate::all_refs::lemma_match_len_range(s, pos, d, run_limit(s, pos), 3);
        assert(spec_run(r) == match_len(s, pos, d, run_limit(s, pos), 3));
        assert forall|j: int| 0 <= j < spec_run(r) implies #[trigger] s[pos + j] == s[pos + j - r.dist] by {
            if j < 3 {
                assert(pos + j - d == off + j);
                if j == 0 {
                    assert(s[pos] == s[off]);
                } else if j == 1 {
                    assert(s[pos + 1] == s[off + 1]);
                } else {
                    assert(s[pos + 2] == s[off + 2]);
                }
            }
        }
    }
}

/// A code in front of codes that match stands for the bytes when it does.
pub proof fn lemma_all_match_cons(s: Seq<u8>, p: int, c: Code, rest: Seq<Code>)
    ensures
        all_match(s, p, seq![c] + rest) == (matches_at(s, p, c) && all_match(s, p + spec_emitted(c), rest)),
        emitted_sum(seq![c] + rest) == spec_emitted(c) + emitted_sum(rest),
{
    let codes = seq![c] + rest;
    assert(codes[0] == c);
    assert(codes.skip(1) =~= rest);
    crate::trace::lemma_emitted_sum_add(seq![c], rest);
    crate::trace::lemma_emitted_sum_one(c);
}

/// The literals of `s` from `p` on stand for those bytes.
pub proof fn lemma_literals_match(s: Seq<u8>, p: int, n: nat)
    requires
        0 <= p,
        p + n <= s.len(),
    ensures
        all_match(s, p, Seq::new(n, |j: int| Code::Literal(s[p + j]))),
        emitted_sum(Seq::new(n, |j: int| Code::Literal(s[p + j]))) == n,
    decreases n,
{
    let lits = Seq::new(n, |j: int| Code::Literal(s[p + j]));
    if n > 0 {
        lemma_literals_match(s, p + 1, (n - 1) as nat);
        let rest = Seq::new((n - 1) as nat, |j: int| Code::Literal(s[p + 1 + j]));
        assert(lits =~= seq![Code::Literal(s[p])] + rest);
        lemma_all_match_cons(s, p, Code::Literal(s[p]), rest);
    } else {
        assert(lits =~= Seq::<Code>::empty());
    }
}

} // verus!

