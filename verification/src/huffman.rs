use vstd::prelude::*;
use vstd::arithmetic::power2::pow2;
use vstd::arithmetic::power2::lemma2_to64;

use crate::bit::bits_value;
use crate::bit::lemma_bits_value_bound;
use crate::bit::BitSource;
use crate::bit::remaining;
use crate::code_tree::decode_bits;
use crate::code_tree::leaf_list;
use crate::code_tree::lemma_decoded_in_leaves;
use crate::code_tree::lemma_decode_bits_len;
use crate::code_tree::lemma_decode_bits_prefix;
use crate::code_tree::CodeTree;
use crate::code_tree::Node;
use crate::code_tree::spec_code_tree;
use crate::code_tree::tree_levels;
use crate::code_tree::leaves_of_length;
use crate::code_tree::pair_up;
use crate::errors::Error;

verus! {

/// How many extra bits follow a run-length symbol.
pub open spec fn run_extra_bits(sym: int) -> nat {
    if 265 <= sym <= 284 {
        ((sym - 261) / 4) as nat
    } else {
        0
    }
}

/// The shortest run a run-length symbol stands for; the extra bits are added to it.
pub open spec fn run_base(sym: int) -> int {
    if sym <= 264 {
        sym - 254
    } else if sym <= 284 {
        ((sym - 265) % 4 + 4) * pow2(run_extra_bits(sym)) as int + 3
    } else {
        258
    }
}

/// How many extra bits follow a distance symbol.
pub open spec fn dist_extra_bits(sym: int) -> nat {
    if 4 <= sym <= 29 {
        (sym / 2 - 1) as nat
    } else {
        0
    }
}

/// The shortest distance a distance symbol stands for; the extra bits are added to it.
pub open spec fn dist_base(sym: int) -> int {
    if sym <= 3 {
        sym + 1
    } else {
        (sym % 2 + 2) * pow2(dist_extra_bits(sym)) as int + 1
    }
}

/// The symbol that `encode_run_length` picks for a run.
pub open spec fn spec_run_symbol(length: int) -> int {
    if length <= 10 {
        257 + length - 3
    } else if length <= 18 {
        265 + (length - 11) / 2
    } else if length <= 34 {
        269 + (length - 19) / 4
    } else if length <= 66 {
        273 + (length - 35) / 8
    } else if length <= 130 {
        277 + (length - 67) / 16
    } else if length <= 257 {
        281 + (length - 131) / 32
    } else {
        285
    }
}

/// The extra bits that `extra_run_length` picks for a run, as (count, value).
pub open spec fn spec_run_extra(length: int) -> Option<(u8, u16)> {
    if length <= 10 {
        None
    } else if length <= 18 {
        Some((1u8, ((length - 11) % 2) as u16))
    } else if length <= 34 {
        Some((2u8, ((length - 19) % 4) as u16))
    } else if length <= 66 {
        Some((3u8, ((length - 35) % 8) as u16))
    } else if length <= 130 {
        Some((4u8, ((length - 67) % 16) as u16))
    } else if length <= 257 {
        Some((5u8, ((length - 131) % 32) as u16))
    } else {
        None
    }
}

pub fn encode_run_length(length: u16) -> (r: u16)
    requires
        3 <= length <= 258,
    ensures
        r == spec_run_symbol(length as int),
        257 <= r <= 285,
{
    match length {
        3..=10 => 257 + length - 3,
        11..=18 => 265 + (length - 11) / 2,
        19..=34 => 269 + (length - 19) / 4,
        35..=66 => 273 + (length - 35) / 8,
        67..=130 => 277 + (length - 67) / 16,
        131..=257 => 281 + (length - 131) / 32,
        _ => 285,
    }
}

/// The extra bits after the run-length symbol: `Some((bit count, value))`, or `None` when
/// the symbol says it all.
pub fn extra_run_length(length: u16) -> (r: Option<(u8, u16)>)
    requires
        3 <= length <= 258,
    ensures
        r == spec_run_extra(length as int),
{
    match length {
        3..=10 => None,
        11..=18 => Some((1, (length - 11) % 2)),
        19..=34 => Some((2, (length - 19) % 4)),
        35..=66 => Some((3, (length - 35) % 8)),
        67..=130 => Some((4, (length - 67) % 16)),
        131..=257 => Some((5, (length - 131) % 32)),
        _ => None,
    }
}

/// Reads the extra bits of run-length symbol `sym`, and returns the run, between 3 and 258.
pub fn decode_run_length<B: BitSource>(reader: &mut B, sym: u16) -> (r: Result<u16, Error>)
    requires
        old(reader).inv(),
        old(reader).errors_at_end() || old(reader).consumed() + run_extra_bits(sym as int)
            <= old(reader).all_bits().len(),
    ensures
        final(reader).inv(),
        final(reader).all_bits() == old(reader).all_bits(),
        final(reader).errors_at_end() == old(reader).errors_at_end(),
        final(reader).mark() == old(reader).mark(),
        ({
            let c = old(reader).consumed() as int;
            let eb = run_extra_bits(sym as int);
            match r {
                Ok(run) => {
                    &&& 257 <= sym <= 285
                    &&& c + eb <= old(reader).all_bits().len()
                    &&& run == run_base(sym as int) + bits_value(old(reader).all_bits().subrange(c, c + eb))
                    &&& final(reader).consumed() == c + eb
                    &&& 3 <= run <= 258
                },
                Err(e) => {
                    ||| (sym < 257 || sym > 287) && e == Error::RunSymbolOutOfRange && final(reader).consumed() == c
                    ||| (sym == 286 || sym == 287) && e == Error::ReservedRunSymbol && final(reader).consumed() == c
                    ||| (265 <= sym <= 284 && c + eb > old(reader).all_bits().len() && e == Error::UnexpectedEof)
                },
            }
        }),
{
    if !(sym >= 257 && sym <= 287) {
        return Err(Error::RunSymbolOutOfRange);
    }
    proof {
        reader.lemma_inv();
    }
    if sym <= 264 {
        proof {
            lemma2_to64();
            assert(old(reader).all_bits().subrange(old(reader).consumed() as int, old(reader).consumed() as int)
                =~= Seq::<bool>::empty());
        }
        return Ok(sym - 254);
    }
    if sym <= 284 {
        let extra_bits = ((sym - 261) / 4) as u8;
        let hb = ((sym - 265) as u8) % 4 + 4;
        let high_part = hb << extra_bits;
        let ghost c = reader.consumed() as int;
        let ghost all = reader.all_bits();
        let low_part = reader.read_part(extra_bits)? as u8;
        proof {
            lemma2_to64();
            assert(extra_bits <= 5);
            assert(hb * pow2(extra_bits as nat) <= 255) by {
                assert(pow2(extra_bits as nat) <= 32) by {
                    if extra_bits < 5 {
                        vstd::arithmetic::power2::lemma_pow2_strictly_increases(extra_bits as nat, 5);
                    }
                }
                assert(hb <= 7);
                assert(hb * pow2(extra_bits as nat) <= 7 * 32) by (nonlinear_arith)
                    requires
                        hb <= 7,
                        pow2(extra_bits as nat) <= 32,
                ;
            }
            vstd::bits::lemma_u8_shl_is_mul(hb, extra_bits);
            lemma_bits_value_bound(all.subrange(c, c + extra_bits));
            assert(bits_value(all.subrange(c, c + extra_bits)) < 32) by {
                if extra_bits < 5 {
                    vstd::arithmetic::power2::lemma_pow2_strictly_increases(extra_bits as nat, 5);
                }
            }
            assert(run_extra_bits(sym as int) == extra_bits);
            assert((sym - 265) as u8 % 4 == (sym as int - 265) % 4);
            assert(high_part as int + low_part as int + 3 <= 258) by {
                if sym < 281 {
                    assert(extra_bits <= 4);
                    assert(pow2(extra_bits as nat) <= 16) by {
                        if extra_bits < 4 {
                            vstd::arithmetic::power2::lemma_pow2_strictly_increases(extra_bits as nat, 4);
                        }
                    }
                    assert(bits_value(all.subrange(c, c + extra_bits)) < 16);
                    assert(hb * pow2(extra_bits as nat) <= 7 * 16) by (nonlinear_arith)
                        requires
                            hb <= 7,
                            pow2(extra_bits as nat) <= 16,
                    ;
                } else {
                    assert(extra_bits == 5);
                }
            }
        }
        return Ok(u16::from(high_part) + u16::from(low_part) + 3);
    }
    if sym == 285 {
        proof {
            assert(old(reader).all_bits().subrange(old(reader).consumed() as int, old(reader).consumed() as int)
                =~= Seq::<bool>::empty());
        }
        return Ok(258);
    }
    Err(Error::ReservedRunSymbol)
}

/// Returns: Some(code, bit count, bits); never None.
pub fn encode_distance(distance: u16) -> (r: Option<(u8, u8, u16)>)
    requires
        1 <= distance <= 32768,
    ensures
        r matches Some((code, bits, val)) && {
            &&& code <= 29
            &&& bits == dist_extra_bits(code as int)
            &&& val < pow2(bits as nat)
            &&& dist_base(code as int) + val == distance
        },
{
    if distance <= 4 {
        proof {
            lemma2_to64();
        }
        Some((distance as u8 - 1, 0, 0))
    } else {
        let mut extra_bits: u8 = 1;
        let mut code: u8 = 4;
        let mut base: u16 = 4;

        proof {
            lemma2_to64();
        }
        while base * 2 < distance
            invariant
                1 <= extra_bits <= 13,
                code == 2 * extra_bits + 2,
                base == pow2((extra_bits + 1) as nat),
                base < distance,
                distance <= 32768,
            decreases 32768 - base,
        {
            proof {
                lemma2_to64();
                vstd::arithmetic::power2::lemma_pow2_pos((extra_bits + 1) as nat);
                vstd::arithmetic::power2::lemma_pow2_unfold((extra_bits + 2) as nat);
                if extra_bits + 1 > 13 {
                    if extra_bits + 1 > 14 {
                        vstd::arithmetic::power2::lemma_pow2_strictly_increases(14, (extra_bits + 1) as nat);
                    }
                    assert(false);
                }
            }
            extra_bits += 1;
            code += 2;
            base *= 2;
        }

        let half = base / 2;
        let delta = distance - base - 1;
        proof {
            lemma2_to64();
            vstd::arithmetic::power2::lemma_pow2_unfold((extra_bits + 1) as nat);
            assert(half == pow2(extra_bits as nat));
            assert(dist_extra_bits(code as int) == extra_bits);
            assert(dist_extra_bits((code + 1) as int) == extra_bits);
            assert(code as int % 2 == 0);
            let c = code as int;
            let h = half as int;
            assert(dist_base(c) == (c % 2 + 2) * h + 1);
            assert((c % 2 + 2) * h == 2 * h) by (nonlinear_arith)
                requires
                    c % 2 == 0,
            ;
            assert(dist_base(c + 1) == ((c + 1) % 2 + 2) * h + 1);
            assert(((c + 1) % 2 + 2) * h == 3 * h) by (nonlinear_arith)
                requires
                    c % 2 == 0,
            ;
            assert(base == 2 * h);
        }

        if distance <= base + half {
            proof {
                vstd::arithmetic::div_mod::lemma_small_mod(delta as nat, half as nat);
            }
            Some((code, extra_bits, delta % half))
        } else {
            proof {
                let d = delta as int;
                let h = half as int;
                assert(d % h == d - h) by (nonlinear_arith)
                    requires
                        h <= d < 2 * h,
                        h > 0,
                ;
            }
            Some((code + 1, extra_bits, delta % half))
        }
    }
}

/// Reads the extra bits of distance symbol `sym`, and returns the distance.
pub fn decode_distance<B: BitSource>(reader: &mut B, sym: u16) -> (r: Result<u16, Error>)
    requires
        old(reader).inv(),
        old(reader).errors_at_end() || old(reader).consumed() + dist_extra_bits(sym as int)
            <= old(reader).all_bits().len(),
    ensures
        final(reader).inv(),
        final(reader).all_bits() == old(reader).all_bits(),
        final(reader).errors_at_end() == old(reader).errors_at_end(),
        final(reader).mark() == old(reader).mark(),
        ({
            let c = old(reader).consumed() as int;
            let eb = dist_extra_bits(sym as int);
            match r {
                Ok(dist) => {
                    &&& sym <= 29
                    &&& c + eb <= old(reader).all_bits().len()
                    &&& dist == dist_base(sym as int) + bits_value(old(reader).all_bits().subrange(c, c + eb))
                    &&& final(reader).consumed() == c + eb
                    &&& 1 <= dist <= 32768
                },
                Err(e) => {
                    ||| sym > 31 && e == Error::InvalidDistanceSymbol && final(reader).consumed() == c
                    ||| (sym == 30 || sym == 31) && e == Error::ReservedDistanceSymbol && final(reader).consumed() == c
                    ||| (4 <= sym <= 29 && c + eb > old(reader).all_bits().len() && e == Error::UnexpectedEof)
                },
            }
        }),
{
    proof {
        reader.lemma_inv();
    }
    if sym > 31 {
        return Err(Error::InvalidDistanceSymbol);
    }
    if sym <= 3 {
        proof {
            assert(old(reader).all_bits().subrange(old(reader).consumed() as int, old(reader).consumed() as int)
                =~= Seq::<bool>::empty());
        }
        return Ok(sym + 1);
    }
    if sym <= 29 {
        let num_extra_bits = (sym / 2 - 1) as u8;
        let hb = sym % 2 + 2;
        let ghost c = reader.consumed() as int;
        let ghost all = reader.all_bits();
        let low = reader.read_part(num_extra_bits)?;
        proof {
            lemma2_to64();
            assert(num_extra_bits <= 13);
            assert(pow2(num_extra_bits as nat) <= 8192) by {
                if num_extra_bits < 13 {
                    vstd::arithmetic::power2::lemma_pow2_strictly_increases(num_extra_bits as nat, 13);
                }
            }
            assert(hb * pow2(num_extra_bits as nat) <= 3 * 8192) by (nonlinear_arith)
                requires
                    hb <= 3,
                    pow2(num_extra_bits as nat) <= 8192,
            ;
            vstd::bits::lemma_u16_shl_is_mul(hb, num_extra_bits as u16);
            lemma_bits_value_bound(all.subrange(c, c + num_extra_bits));
            assert(dist_extra_bits(sym as int) == num_extra_bits);
            assert(hb * pow2(num_extra_bits as nat) + pow2(num_extra_bits as nat) <= 32768) by {
                if sym < 29 {
                    assert(hb * pow2(num_extra_bits as nat) + pow2(num_extra_bits as nat) <= 4 * pow2(
                        num_extra_bits as nat,
                    )) by (nonlinear_arith)
                        requires
                            hb <= 3,
                    ;
                    if num_extra_bits < 13 {
                        vstd::arithmetic::power2::lemma_pow2_strictly_increases(num_extra_bits as nat, 13);
                    }
                    if num_extra_bits < 12 {
                        vstd::arithmetic::power2::lemma_pow2_strictly_increases(num_extra_bits as nat, 12);
                    }
                } else {
                    assert(hb == 3);
                }
            }
        }
        return Ok(((hb) << (num_extra_bits as u16)) + 1 + low);
    }
    Err(Error::ReservedDistanceSymbol)
}

/// The run length a symbol and its extra bits stand for is the run that was encoded.
pub proof fn lemma_run_length_round_trip(length: u16)
    requires
        3 <= length <= 258,
    ensures
        257 <= spec_run_symbol(length as int) <= 285,
        run_extra_bits(spec_run_symbol(length as int)) == match spec_run_extra(length as int) {
            Some((bits, _)) => bits as nat,
            None => 0nat,
        },
        run_base(spec_run_symbol(length as int)) + match spec_run_extra(length as int) {
            Some((_, val)) => val as int,
            None => 0int,
        } == length,
        spec_run_extra(length as int) matches Some((bits, val)) ==> val < pow2(bits as nat),
{
    lemma2_to64();
    let l = length as int;
    let s = spec_run_symbol(l);
    if l <= 10 {
    } else if l <= 18 {
        assert(s == 265 + (l - 11) / 2);
        assert(run_extra_bits(s) == 1);
        assert(run_base(s) == ((l - 11) / 2 + 4) * 2 + 3);
    } else if l <= 34 {
        assert(run_extra_bits(s) == 2);
        assert(run_base(s) == ((l - 19) / 4 + 4) * 4 + 3);
    } else if l <= 66 {
        assert(run_extra_bits(s) == 3);
        assert(run_base(s) == ((l - 35) / 8 + 4) * 8 + 3);
    } else if l <= 130 {
        assert(run_extra_bits(s) == 4);
        assert(run_base(s) == ((l - 67) / 16 + 4) * 16 + 3);
    } else if l <= 257 {
        assert(run_extra_bits(s) == 5);
        assert(run_base(s) == ((l - 131) / 32 + 4) * 32 + 3);
    } else {
    }
}

/// Consecutive run-length symbols cover consecutive runs.
#[verifier::spinoff_prover]
pub proof fn lemma_run_chain(s: int)
    requires
        257 <= s < 284,
    ensures
        run_base(s) + pow2(run_extra_bits(s)) == run_base(s + 1),
{
    lemma2_to64();
    if s <= 263 {
        assert(run_base(s) == s - 254);
        assert(run_base(s + 1) == s - 253);
        assert(run_extra_bits(s) == 0);
    } else if s == 264 {
        assert(run_extra_bits(265) == 1);
        assert(run_base(265) == 4 * pow2(1) + 3);
    } else {
        let e = run_extra_bits(s);
        let k = (s - 265) % 4;
        let p = pow2(e) as int;
        assert(run_base(s) == (k + 4) * p + 3);
        assert(s + 1 <= 284);
        if k < 3 {
            assert(run_extra_bits(s + 1) == e);
            assert((s + 1 - 265) % 4 == k + 1);
            assert(run_base(s + 1) == (k + 5) * p + 3);
            assert((k + 4) * p + p == (k + 5) * p) by (nonlinear_arith);
        } else {
            assert(run_extra_bits(s + 1) == e + 1);
            assert((s + 1 - 265) % 4 == 0);
            vstd::arithmetic::power2::lemma_pow2_unfold(e + 1);
            assert(run_base(s + 1) == 4 * pow2(e + 1) + 3);
            assert((k + 4) * p == 7 * p) by (nonlinear_arith)
                requires
                    k == 3,
            ;
        }
    }
}

/// Every run-length symbol before another covers only shorter runs.
pub proof fn lemma_run_before(a: int, b: int)
    requires
        257 <= a < b <= 284,
    ensures
        run_base(a) + pow2(run_extra_bits(a)) <= run_base(b),
    decreases b - a,
{
    lemma_run_chain(b - 1);
    if a < b - 1 {
        lemma_run_before(a, b - 1);
        vstd::arithmetic::power2::lemma_pow2_pos(run_extra_bits(b - 1));
    }
}

/// A run length, written as the symbol `encode_run_length` gives and the extra bits
/// `extra_run_length` gives, reads back as itself: `decode_run_length` takes exactly those
/// extra bits after the symbol, and their value added to the symbol's base is the length.
pub proof fn lemma_run_length_decodes(length: u16, bits: Seq<bool>, c: int)
    requires
        3 <= length <= 258,
        0 <= c,
        match spec_run_extra(length as int) {
            Some((n, v)) => c + n <= bits.len() && bits_value(bits.subrange(c, c + n)) == v,
            None => c <= bits.len(),
        },
    ensures
        257 <= spec_run_symbol(length as int) <= 285,
        run_extra_bits(spec_run_symbol(length as int)) == match spec_run_extra(length as int) {
            Some((n, _)) => n as nat,
            None => 0nat,
        },
        run_base(spec_run_symbol(length as int)) + bits_value(
            bits.subrange(c, c + run_extra_bits(spec_run_symbol(length as int))),
        ) == length,
{
    lemma_run_length_round_trip(length);
    if spec_run_extra(length as int) is None {
        assert(bits.subrange(c, c) =~= Seq::<bool>::empty());
    }
}

/// A distance, written as a symbol and extra bits that `encode_distance` can give, reads back
/// as itself: `decode_distance` takes exactly those extra bits after the symbol, and their
/// value added to the symbol's base is the distance; and no other symbol's range of
/// distances holds it.
pub proof fn lemma_distance_decodes(distance: u16, code: u8, n: u8, val: u16, bits: Seq<bool>, c: int)
    requires
        1 <= distance <= 32768,
        code <= 29,
        n == dist_extra_bits(code as int),
        val < pow2(n as nat),
        dist_base(code as int) + val == distance,
        0 <= c,
        c + n <= bits.len(),
        bits_value(bits.subrange(c, c + n)) == val,
    ensures
        dist_base(code as int) + bits_value(bits.subrange(c, c + dist_extra_bits(code as int))) == distance,
        forall|other: int|
            0 <= other <= 29 && #[trigger] dist_base(other) <= distance < dist_base(other) + pow2(
                dist_extra_bits(other),
            ) ==> other == code,
{
    assert forall|other: int|
        0 <= other <= 29 && #[trigger] dist_base(other) <= distance < dist_base(other) + pow2(
            dist_extra_bits(other),
        ) implies other == code by {
        lemma_distance_symbol_unique(code as int, val as nat, other, (distance - dist_base(other)) as nat);
    }
}

/// A run-length symbol and extra bits that `encode_run_length` and `extra_run_length` give back.
pub proof fn lemma_run_symbol_round_trip(sym: int, extra: nat)
    requires
        257 <= sym <= 285,
        extra < pow2(run_extra_bits(sym)),
        !(sym == 284 && extra == 31),
    ensures
        3 <= run_base(sym) + extra <= 258,
        spec_run_symbol(run_base(sym) + extra) == sym,
        spec_run_extra(run_base(sym) + extra) == if run_extra_bits(sym) == 0 {
            None::<(u8, u16)>
        } else {
            Some((run_extra_bits(sym) as u8, extra as u16))
        },
{
    lemma2_to64();
    let len = run_base(sym) + extra;
    assert(run_extra_bits(284) == 5);
    assert(run_base(284) == 7 * pow2(5) + 3);
    assert(run_base(284) == 227);
    if sym == 285 {
        assert(extra == 0);
    } else {
        assert(run_base(257) == 3);
        if sym > 257 {
            lemma_run_before(257, sym);
        }
        if sym < 284 {
            lemma_run_before(sym, 284);
        }
        assert(len <= 258);
        let l16 = len as u16;
        lemma_run_length_round_trip(l16);
        let other = spec_run_symbol(len);
        let other_extra: int = match spec_run_extra(len) {
            Some((_, val)) => val as int,
            None => 0int,
        };
        if other == 285 {
            assert(len == 258);
            assert(false);
        }
        assert(run_base(other) + other_extra == len);
        assert(other_extra < pow2(run_extra_bits(other)));
        if other < sym {
            lemma_run_before(other, sym);
            assert(false);
        }
        if sym < other {
            lemma_run_before(sym, other);
            assert(false);
        }
    }
}

/// Consecutive distance symbols cover consecutive distances.
pub proof fn lemma_dist_chain(s: int)
    requires
        0 <= s < 29,
    ensures
        dist_base(s) + pow2(dist_extra_bits(s)) == dist_base(s + 1),
{
    lemma2_to64();
    if s <= 2 {
    } else if s == 3 {
        assert(dist_extra_bits(4) == 1);
        assert(dist_base(4) == 2 * pow2(1) + 1);
    } else {
        let e = dist_extra_bits(s);
        let p = pow2(e) as int;
        if s % 2 == 0 {
            assert(dist_extra_bits(s + 1) == e);
            assert((s + 1) % 2 == 1);
            assert(dist_base(s) == 2 * p + 1);
            assert(dist_base(s + 1) == 3 * p + 1);
        } else {
            assert(dist_extra_bits(s + 1) == e + 1);
            assert((s + 1) % 2 == 0);
            vstd::arithmetic::power2::lemma_pow2_unfold(e + 1);
            assert(dist_base(s) == 3 * p + 1);
            assert(dist_base(s + 1) == 2 * pow2(e + 1) + 1);
        }
    }
}

/// Every distance symbol before another covers only shorter distances.
pub proof fn lemma_dist_before(a: int, b: int)
    requires
        0 <= a < b <= 29,
    ensures
        dist_base(a) + pow2(dist_extra_bits(a)) <= dist_base(b),
    decreases b - a,
{
    lemma_dist_chain(b - 1);
    if a < b - 1 {
        lemma_dist_before(a, b - 1);
        vstd::arithmetic::power2::lemma_pow2_pos(dist_extra_bits(b - 1));
    }
}

/// The distance a symbol and its extra bits stand for determines the symbol and the bits.
pub proof fn lemma_distance_symbol_unique(sym: int, extra: nat, other: int, other_extra: nat)
    requires
        0 <= sym <= 29,
        0 <= other <= 29,
        extra < pow2(dist_extra_bits(sym)),
        other_extra < pow2(dist_extra_bits(other)),
        dist_base(sym) + extra == dist_base(other) + other_extra,
    ensures
        sym == other,
        extra == other_extra,
{
    if other < sym {
        lemma_dist_before(other, sym);
    }
    if sym < other {
        lemma_dist_before(sym, other);
    }
}


/// Which of the stored lengths of the code-length code belongs to code-length symbol `p`:
/// they are stored for symbols 16, 17, 18, 0, 8, 7, 9, 6, 10, 5, 11, 4, 12, 3, 13, 2, 14, 1, 15.
pub open spec fn code_length_slot(p: int) -> int {
    if p >= 16 {
        p - 16
    } else if p == 0 {
        3
    } else if p >= 8 {
        4 + 2 * (p - 8)
    } else {
        19 - 2 * p
    }
}

/// The lengths of the code-length code, when `hclen` of them are stored, three bits each,
/// from bit `start` on; the symbols whose slot is not stored get length 0.
pub open spec fn code_length_lengths(bits: Seq<bool>, start: int, hclen: int) -> Seq<u8> {
    Seq::new(
        19,
        |p: int|
            if code_length_slot(p) < hclen {
                bits_value(bits.subrange(start + 3 * code_length_slot(p), start + 3 * code_length_slot(p) + 3)) as u8
            } else {
                0u8
            },
    )
}

/// Reads the `hclen` stored lengths of the code-length code.
fn read_code_length_lengths<B: BitSource>(reader: &mut B, hclen: u16) -> (r: Result<Vec<u8>, Error>)
    requires
        old(reader).inv(),
        4 <= hclen <= 19,
        old(reader).errors_at_end() || old(reader).consumed() + 3 * hclen <= old(reader).all_bits().len(),
    ensures
        final(reader).inv(),
        final(reader).all_bits() == old(reader).all_bits(),
        final(reader).errors_at_end() == old(reader).errors_at_end(),
        final(reader).mark() == old(reader).mark(),
        match r {
            Ok(v) => {
                &&& old(reader).consumed() + 3 * hclen <= old(reader).all_bits().len()
                &&& v@ == code_length_lengths(old(reader).all_bits(), old(reader).consumed() as int, hclen as int)
                &&& final(reader).consumed() == old(reader).consumed() + 3 * hclen
            },
            Err(e) => {
                &&& e == Error::UnexpectedEof
                &&& old(reader).consumed() + 3 * hclen > old(reader).all_bits().len()
                &&& final(reader).consumed() == old(reader).all_bits().len()
            },
        },
{
    let ghost all = reader.all_bits();
    let ghost c0 = reader.consumed() as int;
    let mut lens: Vec<u8> = Vec::new();
    let mut p: usize = 0;
    while p < 19
        invariant
            p <= 19,
            lens@.len() == p,
            forall|q: int| 0 <= q < p ==> lens@[q] == 0,
        decreases 19 - p,
    {
        lens.push(0);
        p += 1;
    }
    let mut j: u16 = 0;
    while j < hclen
        invariant
            reader.inv(),
            reader.all_bits() == all,
            reader.errors_at_end() == old(reader).errors_at_end(),
            reader.mark() == old(reader).mark(),
            all == old(reader).all_bits(),
            c0 == old(reader).consumed(),
            4 <= hclen <= 19,
            j <= hclen,
            reader.consumed() == c0 + 3 * j,
            reader.errors_at_end() || c0 + 3 * hclen <= all.len(),
            lens@.len() == 19,
            forall|q: int|
                0 <= q < 19 ==> #[trigger] lens@[q] == if code_length_slot(q) < j {
                    bits_value(all.subrange(c0 + 3 * code_length_slot(q), c0 + 3 * code_length_slot(q) + 3)) as u8
                } else {
                    0u8
                },
        decreases hclen - j,
    {
        let pos: usize = if j < 3 {
            16 + j as usize
        } else if j == 3 {
            0
        } else if (j - 4) % 2 == 0 {
            8 + (j as usize - 4) / 2
        } else {
            7 - (j as usize - 4) / 2
        };
        proof {
            assert(0 <= pos < 19);
            assert(code_length_slot(pos as int) == j);
            assert forall|q: int| 0 <= q < 19 && code_length_slot(q) == j implies q == pos by {}
        }
        let ghost c = reader.consumed() as int;
        let v = reader.read_part(3)?;
        proof {
            lemma2_to64();
            lemma_bits_value_bound(all.subrange(c, c + 3));
            assert(v < 8);
        }
        lens.set(pos, v as u8);
        j += 1;
    }
    proof {
        reader.lemma_inv();
        assert(lens@ =~= code_length_lengths(all, c0, hclen as int));
    }
    Ok(lens)
}


/// A run of `count` copies of `v`.
pub open spec fn repeat(v: u8, count: nat) -> Seq<u8> {
    Seq::new(count, |_i: int| v)
}

/// Expands the run-length coded code lengths read with the code-length code `(l, r)` from
/// bit `pos` on, after `lens`, until there are at least `n`: the lengths and the position
/// after the last instruction. Symbols 0 to 15 are lengths; 16 repeats the previous length
/// 3 to 6 times (two extra bits), 17 gives 3 to 10 zeros (three extra bits), 18 gives 11 to
/// 138 zeros (seven extra bits). A run that goes past `n` is an error.
pub open spec fn expand_lengths(l: Node, r: Node, bits: Seq<bool>, n: nat, lens: Seq<u8>, pos: nat) -> Result<
    (Seq<u8>, nat),
    Error,
>
    decreases (if lens.len() < n {
        n - lens.len()
    } else {
        0
    }),
{
    if lens.len() >= n {
        if lens.len() > n {
            Err(Error::RunExceedsCodes)
        } else {
            Ok((lens, pos))
        }
    } else {
        match decode_bits(l, r, bits.skip(pos as int)) {
            None => Err(Error::UnexpectedEof),
            Some((sym, k)) => {
                let p = pos + k;
                if sym <= 15 {
                    expand_lengths(l, r, bits, n, lens.push(sym as u8), p)
                } else if sym <= 18 {
                    let extra: nat = if sym == 16 {
                        2
                    } else if sym == 17 {
                        3
                    } else {
                        7
                    };
                    let base: nat = if sym == 18 {
                        11
                    } else {
                        3
                    };
                    if sym == 16 && lens.len() == 0 {
                        Err(Error::NoValueToCopy)
                    } else if p + extra > bits.len() {
                        Err(Error::UnexpectedEof)
                    } else {
                        let count = base + bits_value(bits.subrange(p as int, (p + extra) as int));
                        let v = if sym == 16 {
                            lens.last()
                        } else {
                            0u8
                        };
                        expand_lengths(l, r, bits, n, lens + repeat(v, count), p + extra)
                    }
                } else {
                    Err(Error::InvalidState)
                }
            },
        }
    }
}

/// The position at which expanding code lengths stops: where the lengths are complete or
/// one too many, where the symbol or its repeat count turns out to be wrong, or the end of
/// the input when it runs out.
pub open spec fn expand_stop(l: Node, r: Node, bits: Seq<bool>, n: nat, lens: Seq<u8>, pos: nat) -> nat
    decreases (if lens.len() < n {
        n - lens.len()
    } else {
        0
    }),
{
    if lens.len() >= n {
        pos
    } else {
        match decode_bits(l, r, bits.skip(pos as int)) {
            None => bits.len(),
            Some((sym, k)) => {
                let p = pos + k;
                if sym <= 15 {
                    expand_stop(l, r, bits, n, lens.push(sym as u8), p)
                } else if sym <= 18 {
                    let extra: nat = if sym == 16 {
                        2
                    } else if sym == 17 {
                        3
                    } else {
                        7
                    };
                    let base: nat = if sym == 18 {
                        11
                    } else {
                        3
                    };
                    if sym == 16 && lens.len() == 0 {
                        p
                    } else if p + extra > bits.len() {
                        bits.len()
                    } else {
                        let count = base + bits_value(bits.subrange(p as int, (p + extra) as int));
                        let v = if sym == 16 {
                            lens.last()
                        } else {
                            0u8
                        };
                        expand_stop(l, r, bits, n, lens + repeat(v, count), p + extra)
                    }
                } else {
                    p
                }
            },
        }
    }
}

/// Expanding ends with exactly `n` lengths, after those it started with.
pub proof fn lemma_expand_lengths_len(l: Node, r: Node, bits: Seq<bool>, n: nat, lens: Seq<u8>, pos: nat)
    ensures
        expand_lengths(l, r, bits, n, lens, pos) matches Ok((out, end)) ==> out.len() == n && end >= pos && (pos
            <= bits.len() ==> end <= bits.len()),
    decreases (if lens.len() < n {
        n - lens.len()
    } else {
        0
    }),
{
    if lens.len() < n {
        if let Some((sym, k)) = decode_bits(l, r, bits.skip(pos as int)) {
            lemma_decode_bits_len(l, r, bits.skip(pos as int));
            let p = pos + k;
            if sym <= 15 {
                lemma_expand_lengths_len(l, r, bits, n, lens.push(sym as u8), p);
            } else if sym <= 18 {
                let extra: nat = if sym == 16 {
                    2
                } else if sym == 17 {
                    3
                } else {
                    7
                };
                let base: nat = if sym == 18 {
                    11
                } else {
                    3
                };
                if !(sym == 16 && lens.len() == 0) && p + extra <= bits.len() {
                    let count = base + bits_value(bits.subrange(p as int, (p + extra) as int));
                    let v = if sym == 16 {
                        lens.last()
                    } else {
                        0u8
                    };
                    lemma_expand_lengths_len(l, r, bits, n, lens + repeat(v, count), p + extra);
                }
            }
        }
    }
}

/// Expanding reads only the bits it steps over: other bits that agree there, shifted by
/// `off`, expand to the same lengths.
pub proof fn lemma_expand_lengths_shift(
    l: Node,
    r: Node,
    bits: Seq<bool>,
    bits2: Seq<bool>,
    off: int,
    n: nat,
    lens: Seq<u8>,
    pos: nat,
)
    requires
        expand_lengths(l, r, bits, n, lens, pos) matches Ok((out, end)) && {
            &&& 0 <= off <= pos <= bits.len()
            &&& end <= off + bits2.len()
            &&& forall|j: int| pos <= j < end ==> bits2[j - off] == #[trigger] bits[j]
        },
    ensures
        expand_lengths(l, r, bits2, n, lens, (pos - off) as nat) == match expand_lengths(l, r, bits, n, lens, pos) {
            Ok((out, end)) => Ok::<(Seq<u8>, nat), Error>((out, (end - off) as nat)),
            Err(e) => Err(e),
        },
    decreases (if lens.len() < n {
        n - lens.len()
    } else {
        0
    }),
{
    let (out, end) = expand_lengths(l, r, bits, n, lens, pos)->Ok_0;
    let pos2 = (pos - off) as nat;
    if lens.len() < n {
        let (sym, k) = decode_bits(l, r, bits.skip(pos as int))->Some_0;
        lemma_decode_bits_len(l, r, bits.skip(pos as int));
        let p = pos + k;
        let extra: nat = if sym == 16 {
            2
        } else if sym == 17 {
            3
        } else {
            7
        };
        let base: nat = if sym == 18 {
            11
        } else {
            3
        };
        let next_lens = if sym <= 15 {
            lens.push(sym as u8)
        } else {
            let count = base + bits_value(bits.subrange(p as int, (p + extra) as int));
            let v = if sym == 16 {
                lens.last()
            } else {
                0u8
            };
            lens + repeat(v, count)
        };
        let next_pos = if sym <= 15 {
            p
        } else {
            p + extra
        };
        lemma_expand_lengths_len(l, r, bits, n, next_lens, next_pos);
        assert(expand_lengths(l, r, bits, n, next_lens, next_pos) == Ok::<(Seq<u8>, nat), Error>((out, end)));
        assert(end >= next_pos);
        assert forall|j: int| 0 <= j < k implies bits.skip(pos as int)[j] == bits2.skip(pos2 as int)[j] by {
            assert(bits2[pos + j - off] == bits[pos + j]);
        }
        lemma_decode_bits_prefix(l, r, bits.skip(pos as int), bits2.skip(pos2 as int));
        if sym > 15 {
            assert(bits.subrange(p as int, (p + extra) as int) =~= bits2.subrange(p - off, p + extra - off)) by {
                assert forall|j: int| 0 <= j < extra implies #[trigger] bits.subrange(p as int, (p + extra) as int)[j]
                    == bits2.subrange(p - off, p + extra - off)[j] by {
                    assert(bits2[p + j - off] == bits[p + j]);
                }
            }
        }
        lemma_expand_lengths_shift(l, r, bits, bits2, off, n, next_lens, next_pos);
    }
}

/// The header of a dynamic block reads only its own bits: cut out, it reads the same.
pub proof fn lemma_read_codes_shift(bits: Seq<bool>, p: int)
    requires
        0 <= p <= bits.len(),
        spec_read_codes(bits, p) is Ok,
    ensures
        p + 14 <= spec_read_codes(bits, p)->Ok_0.2 <= bits.len(),
        spec_read_codes(bits.subrange(p, spec_read_codes(bits, p)->Ok_0.2 as int), 0) == match spec_read_codes(bits, p) {
            Ok((lit, dist, end)) => Ok::<((Node, Node), Option<(Node, Node)>, nat), Error>((lit, dist, (end - p) as nat)),
            Err(e) => Err(e),
        },
{
    let (lit, dist, hend) = spec_read_codes(bits, p)->Ok_0;
    let b2 = bits.subrange(p, hend as int);
    let hlit = bits_value(bits.subrange(p, p + 5)) + 257;
    let hdist = bits_value(bits.subrange(p + 5, p + 10)) + 1;
    let hclen = bits_value(bits.subrange(p + 10, p + 14)) + 4;
    let (cl, cr) = spec_code_tree(code_length_lengths(bits, p + 14, hclen as int))->Ok_0;
    let start = (p + 14 + 3 * hclen) as nat;
    lemma_expand_lengths_len(cl, cr, bits, (hlit + hdist) as nat, Seq::empty(), start);
    assert(hend >= start);
    assert(b2.subrange(0, 5) =~= bits.subrange(p, p + 5));
    assert(b2.subrange(5, 10) =~= bits.subrange(p + 5, p + 10));
    assert(b2.subrange(10, 14) =~= bits.subrange(p + 10, p + 14));
    assert(code_length_lengths(b2, 14, hclen as int) =~= code_length_lengths(bits, p + 14, hclen as int)) by {
        assert forall|q: int| 0 <= q < 19 implies #[trigger] code_length_lengths(b2, 14, hclen as int)[q]
            == code_length_lengths(bits, p + 14, hclen as int)[q] by {
            let j = code_length_slot(q);
            if j < hclen {
                assert(b2.subrange(14 + 3 * j, 14 + 3 * j + 3) =~= bits.subrange(p + 14 + 3 * j, p + 14 + 3 * j + 3));
            }
        }
    }
    lemma_expand_lengths_shift(cl, cr, bits, b2, p, (hlit + hdist) as nat, Seq::empty(), start);
}

/// What a pending run adds to the lengths written so far.
spec fn pending(written: Seq<u8>, run_val: Option<u8>, run_len: u16) -> Seq<u8> {
    written + repeat(
        match run_val {
            Some(v) => v,
            None => 0u8,
        },
        run_len as nat,
    )
}

/// Reads `n` code lengths with the code-length code `tree`.
fn read_length_list<B: BitSource>(reader: &mut B, tree: &CodeTree, n: usize) -> (r: Result<Vec<u8>, Error>)
    requires
        old(reader).inv(),
        1 <= n <= 320,
        forall|j: int| 0 <= j < tree.symbols().len() ==> #[trigger] tree.symbols()[j] < 19,
        old(reader).errors_at_end() || !(expand_lengths(
            tree.left(),
            tree.right(),
            old(reader).all_bits(),
            n as nat,
            Seq::empty(),
            old(reader).consumed(),
        ) matches Err(Error::UnexpectedEof)),
    ensures
        final(reader).inv(),
        final(reader).all_bits() == old(reader).all_bits(),
        final(reader).errors_at_end() == old(reader).errors_at_end(),
        final(reader).mark() == old(reader).mark(),
        match expand_lengths(tree.left(), tree.right(), old(reader).all_bits(), n as nat, Seq::empty(), old(reader).consumed()) {
            Ok((lens, end)) => r matches Ok(v) && v@ == lens && final(reader).consumed() == end,
            Err(e) => r == Err::<Vec<u8>, Error>(e) && final(reader).consumed() == expand_stop(
                tree.left(),
                tree.right(),
                old(reader).all_bits(),
                n as nat,
                Seq::empty(),
                old(reader).consumed(),
            ),
        },
{
    let ghost all = reader.all_bits();
    let ghost l = tree.left();
    let ghost rt = tree.right();
    let ghost total = expand_lengths(l, rt, all, n as nat, Seq::empty(), reader.consumed());
    let ghost stop = expand_stop(l, rt, all, n as nat, Seq::empty(), reader.consumed());
    let mut code_lens: Vec<u8> = Vec::new();
    let mut p: usize = 0;
    while p < n
        invariant
            p <= n,
            code_lens@.len() == p,
        decreases n - p,
    {
        code_lens.push(0);
        p += 1;
    }

    let mut run_val: Option<u8> = None;
    let mut run_len: u16 = 0;
    let mut i: usize = 0;
    proof {
        assert(pending(code_lens@.take(0), run_val, run_len) =~= Seq::<u8>::empty());
    }
    while i < n
        invariant
            reader.inv(),
            reader.all_bits() == all,
            all == old(reader).all_bits(),
            reader.errors_at_end() == old(reader).errors_at_end(),
            reader.mark() == old(reader).mark(),
            l == tree.left(),
            rt == tree.right(),
            forall|j: int| 0 <= j < tree.symbols().len() ==> #[trigger] tree.symbols()[j] < 19,
            total == expand_lengths(l, rt, all, n as nat, Seq::empty(), old(reader).consumed()),
            reader.errors_at_end() || !(total matches Err(Error::UnexpectedEof)),
            1 <= n <= 320,
            i <= n,
            code_lens@.len() == n,
            run_len > 0 ==> run_val is Some,
            run_val is None <==> (i == 0 && run_len == 0),
            run_len == 0 ==> (run_val matches Some(v) ==> i > 0 && code_lens@[i - 1] == v),
            expand_lengths(l, rt, all, n as nat, pending(code_lens@.take(i as int), run_val, run_len), reader.consumed())
                == total,
            stop == expand_stop(l, rt, all, n as nat, Seq::empty(), old(reader).consumed()),
            expand_stop(l, rt, all, n as nat, pending(code_lens@.take(i as int), run_val, run_len), reader.consumed())
                == stop,
        decreases 2 * (n - i) + (if run_len == 0 {
            1int
        } else {
            0int
        }),
    {
        let ghost before = pending(code_lens@.take(i as int), run_val, run_len);
        if run_len > 0 {
            match run_val {
                Some(val) => {
                    code_lens.set(i, val);
                },
                None => {
                    return Err(Error::InvalidState);
                },
            }
            run_len -= 1;
            i += 1;
            proof {
                assert(pending(code_lens@.take(i as int), run_val, run_len) =~= before);
            }
        } else {
            proof {
                reader.lemma_inv();
                assert(before =~= code_lens@.take(i as int));
                assert(remaining(reader) == all.skip(reader.consumed() as int));
            }
            let ghost c = reader.consumed();
            let sym = tree.decode_symbol(reader)?;
            proof {
                let (s, k) = decode_bits(l, rt, all.skip(c as int)).unwrap();
                lemma_decoded_in_leaves(Node::Internal(Box::new(l), Box::new(rt)), all.skip(c as int), s);
                assert(leaf_list(Node::Internal(Box::new(l), Box::new(rt))) == tree.symbols());
                assert(sym < 19);
                reader.lemma_inv();
            }
            if sym <= 15 {
                code_lens.set(i, sym as u8);
                run_val = Some(sym as u8);
                i += 1;
                proof {
                    assert(pending(code_lens@.take(i as int), run_val, run_len) =~= before.push(sym as u8));
                }
            } else if sym == 16 {
                if run_val.is_none() {
                    return Err(Error::NoValueToCopy);
                }
                let x = reader.read_part(2)?;
                proof {
                    lemma2_to64();
                    lemma_bits_value_bound(all.subrange(reader.consumed() - 2, reader.consumed() as int));
                }
                run_len = x + 3;
                proof {
                    assert(before.last() == code_lens@[i - 1]);
                    assert(pending(code_lens@.take(i as int), run_val, run_len) =~= before + repeat(
                        before.last(),
                        run_len as nat,
                    ));
                }
            } else if sym == 17 {
                run_val = Some(0);
                let x = reader.read_part(3)?;
                proof {
                    lemma2_to64();
                    lemma_bits_value_bound(all.subrange(reader.consumed() - 3, reader.consumed() as int));
                }
                run_len = x + 3;
                proof {
                    assert(pending(code_lens@.take(i as int), run_val, run_len) =~= before + repeat(
                        0u8,
                        run_len as nat,
                    ));
                }
            } else if sym == 18 {
                run_val = Some(0);
                let x = reader.read_part(7)?;
                proof {
                    lemma2_to64();
                    lemma_bits_value_bound(all.subrange(reader.consumed() - 7, reader.consumed() as int));
                }
                run_len = x + 11;
                proof {
                    assert(pending(code_lens@.take(i as int), run_val, run_len) =~= before + repeat(
                        0u8,
                        run_len as nat,
                    ));
                }
            } else {
                return Err(Error::InvalidState);
            }
        }
    }

    if run_len != 0 {
        return Err(Error::RunExceedsCodes);
    }
    proof {
        assert(pending(code_lens@.take(i as int), run_val, run_len) =~= code_lens@);
    }
    Ok(code_lens)
}


/// The code lengths of a dynamic block's header starting at bit `start`: the literal/length
/// lengths followed by the distance lengths, how many of them are literal/length lengths,
/// and the position after the header.
pub open spec fn spec_code_lengths(bits: Seq<bool>, start: int) -> Result<(Seq<u8>, nat, nat), Error> {
    if start + 14 > bits.len() {
        Err(Error::UnexpectedEof)
    } else {
        let hlit = bits_value(bits.subrange(start, start + 5)) + 257;
        let hdist = bits_value(bits.subrange(start + 5, start + 10)) + 1;
        let hclen = bits_value(bits.subrange(start + 10, start + 14)) + 4;
        if start + 14 + 3 * hclen > bits.len() {
            Err(Error::UnexpectedEof)
        } else {
            match spec_code_tree(code_length_lengths(bits, start + 14, hclen as int)) {
                Err(e) => Err(e),
                Ok((l, r)) => match expand_lengths(
                    l,
                    r,
                    bits,
                    (hlit + hdist) as nat,
                    Seq::empty(),
                    (start + 14 + 3 * hclen) as nat,
                ) {
                    Err(e) => Err(e),
                    Ok((lens, end)) => Ok((lens, hlit as nat, end)),
                },
            }
        }
    }
}

/// How many of `s` lie between `lo` and `hi`, both included.
pub open spec fn count_between(s: Seq<u8>, lo: int, hi: int) -> nat
    decreases s.len(),
{
    if s.len() == 0 {
        0
    } else {
        count_between(s.drop_last(), lo, hi) + if lo <= s.last() <= hi {
            1nat
        } else {
            0nat
        }
    }
}

/// The lengths the distance tree is built from: none when the only length is 0; when one
/// code has length 1 and no other is used, 32 lengths with a second one-bit code added at
/// the end, so that the tree is complete; else the lengths as given.
pub open spec fn spec_distance_lengths(d: Seq<u8>) -> Option<Seq<u8>> {
    if d.len() == 1 && d[0] == 0 {
        None
    } else if count_between(d, 1, 1) == 1 && count_between(d, 2, 255) == 0 {
        Some(
            Seq::new(
                32,
                |k: int|
                    if k == 31 {
                        1u8
                    } else if k < d.len() {
                        d[k]
                    } else {
                        0u8
                    },
            ),
        )
    } else {
        Some(d)
    }
}

/// The literal/length tree, the distance tree if there is one, and the position after the
/// header, of a dynamic block's header starting at bit `start`.
pub open spec fn spec_read_codes(bits: Seq<bool>, start: int) -> Result<
    ((Node, Node), Option<(Node, Node)>, nat),
    Error,
> {
    match spec_code_lengths(bits, start) {
        Err(e) => Err(e),
        Ok((lens, hlit, end)) => match spec_code_tree(lens.take(hlit as int)) {
            Err(e) => Err(e),
            Ok(lit) => match spec_distance_lengths(lens.skip(hlit as int)) {
                None => Ok((lit, None, end)),
                Some(d) => match spec_code_tree(d) {
                    Err(e) => Err(e),
                    Ok(dist) => Ok((lit, Some(dist), end)),
                },
            },
        },
    }
}

/// The position at which reading a dynamic block's header starting at bit `start` stops:
/// after the header when it reads, else where its error shows, or at the end of the input
/// when it runs out.
pub open spec fn read_codes_stop(bits: Seq<bool>, start: int) -> nat {
    if start + 14 > bits.len() {
        bits.len()
    } else {
        let hlit = bits_value(bits.subrange(start, start + 5)) + 257;
        let hdist = bits_value(bits.subrange(start + 5, start + 10)) + 1;
        let hclen = bits_value(bits.subrange(start + 10, start + 14)) + 4;
        let lengths_start = (start + 14 + 3 * hclen) as nat;
        if lengths_start > bits.len() {
            bits.len()
        } else {
            match spec_code_tree(code_length_lengths(bits, start + 14, hclen as int)) {
                Err(_) => lengths_start,
                Ok((l, r)) => match expand_lengths(l, r, bits, (hlit + hdist) as nat, Seq::empty(), lengths_start) {
                    Err(_) => expand_stop(l, r, bits, (hlit + hdist) as nat, Seq::empty(), lengths_start),
                    Ok((_, end)) => end,
                },
            }
        }
    }
}

/// Whether `t` is the tree `n`.
pub open spec fn tree_is(t: CodeTree, n: (Node, Node)) -> bool {
    t.left() == n.0 && t.right() == n.1
}

/// Works out which lengths the distance tree is built from.
pub fn distance_tree_lengths(dist_code_len: &[u8]) -> (r: Option<Vec<u8>>)
    requires
        1 <= dist_code_len@.len() <= 32,
    ensures
        r matches Some(v) ==> Some(v@) == spec_distance_lengths(dist_code_len@),
        r is None ==> spec_distance_lengths(dist_code_len@) is None,
{
    let d = dist_code_len;
    if 1 == d.len() && 0 == d[0] {
        return None;
    }
    let mut one_count: usize = 0;
    let mut other_positive_count: usize = 0;
    let mut i: usize = 0;
    while i < d.len()
        invariant
            i <= d@.len() <= 32,
            one_count == count_between(d@.take(i as int), 1, 1),
            other_positive_count == count_between(d@.take(i as int), 2, 255),
            one_count <= i,
            other_positive_count <= i,
        decreases d@.len() - i,
    {
        proof {
            assert(d@.take(i + 1).drop_last() =~= d@.take(i as int));
        }
        if d[i] == 1 {
            one_count += 1;
        } else if d[i] > 1 {
            other_positive_count += 1;
        }
        i += 1;
    }
    proof {
        assert(d@.take(i as int) =~= d@);
    }
    let mut lens: Vec<u8> = Vec::new();
    if 1 == one_count && 0 == other_positive_count {
        let to_copy = if d.len() < 31 {
            d.len()
        } else {
            31
        };
        let mut k: usize = 0;
        while k < 32
            invariant
                k <= 32,
                to_copy == if d@.len() < 31 {
                    d@.len()
                } else {
                    31
                },
                lens@.len() == k,
                forall|j: int|
                    0 <= j < k ==> #[trigger] lens@[j] == if j == 31 {
                        1u8
                    } else if j < d@.len() {
                        d@[j]
                    } else {
                        0u8
                    },
            decreases 32 - k,
        {
            if k == 31 {
                lens.push(1);
            } else if k < to_copy {
                lens.push(d[k]);
            } else {
                lens.push(0);
            }
            k += 1;
        }
        proof {
            assert(Some(lens@) =~= spec_distance_lengths(d@));
        }
    } else {
        let mut k: usize = 0;
        while k < d.len()
            invariant
                k <= d@.len(),
                lens@ == d@.take(k as int),
            decreases d@.len() - k,
        {
            lens.push(d[k]);
            k += 1;
            proof {
                assert(lens@ =~= d@.take(k as int));
            }
        }
        proof {
            assert(lens@ =~= d@);
        }
    }
    Some(lens)
}

/// Reads the header of a dynamic block: the literal/length tree, and the distance tree,
/// which is missing when the block uses no back-references.
pub fn read_codes<B: BitSource>(reader: &mut B) -> (r: Result<(CodeTree, Option<CodeTree>), Error>)
    requires
        old(reader).inv(),
        old(reader).errors_at_end() || !(spec_read_codes(old(reader).all_bits(), old(reader).consumed() as int) matches Err(
            Error::UnexpectedEof,
        )),
    ensures
        final(reader).inv(),
        final(reader).all_bits() == old(reader).all_bits(),
        final(reader).errors_at_end() == old(reader).errors_at_end(),
        final(reader).mark() == old(reader).mark(),
        match spec_read_codes(old(reader).all_bits(), old(reader).consumed() as int) {
            Ok((lit, dist, end)) => r matches Ok((lt, dt)) && {
                &&& tree_is(lt, lit)
                &&& lt.wf()
                &&& forall|j: int| 0 <= j < lt.symbols().len() ==> #[trigger] lt.symbols()[j] < 288
                &&& dist is None <==> dt is None
                &&& dt matches Some(t) ==> {
                    &&& tree_is(t, dist.unwrap())
                    &&& t.wf()
                    &&& forall|j: int| 0 <= j < t.symbols().len() ==> #[trigger] t.symbols()[j] < 32
                }
                &&& final(reader).consumed() == end
            },
            Err(e) => r == Err::<(CodeTree, Option<CodeTree>), Error>(e) && final(reader).consumed()
                == read_codes_stop(old(reader).all_bits(), old(reader).consumed() as int),
        },
{
    let ghost all = reader.all_bits();
    let ghost c0 = reader.consumed() as int;
    proof {
        reader.lemma_inv();
    }
    proof {
        lemma2_to64();
        lemma_bits_value_bound(all.subrange(c0, c0 + 5));
        lemma_bits_value_bound(all.subrange(c0 + 5, c0 + 10));
        lemma_bits_value_bound(all.subrange(c0 + 10, c0 + 14));
    }
    let hlit_bits = reader.read_part(5)?;
    let num_lit_len_codes = hlit_bits + 257;
    let hdist_bits = reader.read_part(5)?;
    let num_distance_codes = hdist_bits + 1;
    let hclen_bits = reader.read_part(4)?;
    let num_code_len_codes = hclen_bits + 4;

    let code_len_code_len = read_code_length_lengths(reader, num_code_len_codes)?;
    let code_len_code = CodeTree::new(code_len_code_len.as_slice())?;

    let code_lens_len = num_lit_len_codes as usize + num_distance_codes as usize;
    let ghost cl_start = reader.consumed();
    let mut code_lens = read_length_list(reader, &code_len_code, code_lens_len)?;
    proof {
        lemma_expand_lengths_len(
            code_len_code.left(),
            code_len_code.right(),
            all,
            code_lens_len as nat,
            Seq::empty(),
            cl_start,
        );
    }

    let dist_code_len = code_lens.split_off(num_lit_len_codes as usize);
    let lit_len_code = CodeTree::new(code_lens.as_slice())?;

    match distance_tree_lengths(dist_code_len.as_slice()) {
        None => Ok((lit_len_code, None)),
        Some(lens) => {
            let dist_tree = CodeTree::new(lens.as_slice())?;
            Ok((lit_len_code, Some(dist_tree)))
        },
    }
}


/// The code lengths of the fixed literal/length code: 8 bits for 0 to 143, 9 bits for 144
/// to 255, 7 bits for 256 to 279, 8 bits for 280 to 287.
pub open spec fn fixed_length_lengths() -> Seq<u8> {
    Seq::new(
        288,
        |k: int|
            if k < 144 {
                8u8
            } else if k < 256 {
                9u8
            } else if k < 280 {
                7u8
            } else {
                8u8
            },
    )
}

/// The code lengths of the fixed distance code: five bits for each of the 32 symbols.
pub open spec fn fixed_distance_lengths() -> Seq<u8> {
    Seq::new(32, |_k: int| 5u8)
}

proof fn lemma_fixed_leaves(len: int, m: int)
    requires
        1 <= len <= 15,
        0 <= m <= 288,
    ensures
        leaves_of_length(fixed_length_lengths(), len, m).len() == if len == 7 {
            if m <= 256 {
                0
            } else if m <= 280 {
                m - 256
            } else {
                24
            }
        } else if len == 8 {
            if m <= 144 {
                m
            } else if m <= 280 {
                144
            } else {
                m - 136
            }
        } else if len == 9 {
            if m <= 144 {
                0
            } else if m <= 256 {
                m - 144
            } else {
                112
            }
        } else {
            0
        },
    decreases m,
{
    if m > 0 {
        lemma_fixed_leaves(len, m - 1);
    }
}

proof fn lemma_distance_leaves(len: int, m: int)
    requires
        1 <= len <= 15,
        0 <= m <= 32,
    ensures
        leaves_of_length(fixed_distance_lengths(), len, m).len() == if len == 5 {
            m
        } else {
            0
        },
    decreases m,
{
    if m > 0 {
        lemma_distance_leaves(len, m - 1);
    }
}

/// One level of a canonical tree, from the level below it.
proof fn lemma_level_step(lengths: Seq<u8>, i: int, prev_len: nat, leaves: nat)
    requires
        0 <= i < 16,
        tree_levels(lengths, i + 1) matches Ok(p) && p.len() == prev_len,
        prev_len % 2 == 0,
        i > 0 ==> leaves_of_length(lengths, i, lengths.len() as int).len() == leaves,
        i == 0 ==> leaves == 0,
    ensures
        tree_levels(lengths, i) matches Ok(n) && {
            &&& n.len() == leaves + prev_len / 2
            &&& (i == 0 && prev_len >= 2 ==> n[0] is Internal)
        },
{
    let prev = tree_levels(lengths, i + 1)->Ok_0;
    if i == 0 {
        assert(tree_levels(lengths, i) == Ok::<Seq<Node>, Error>(Seq::<Node>::empty() + pair_up(prev)));
        assert((Seq::<Node>::empty() + pair_up(prev))[0] == pair_up(prev)[0]);
    }
}

pub proof fn lemma_fixed_length_tree()
    ensures
        spec_code_tree(fixed_length_lengths()) is Ok,
{
    let lens = fixed_length_lengths();
    assert(tree_levels(lens, 16) == Ok::<Seq<Node>, Error>(Seq::empty()));
    lemma_fixed_leaves(15, 288);
    lemma_level_step(lens, 15, 0, 0);
    lemma_fixed_leaves(14, 288);
    lemma_level_step(lens, 14, 0, 0);
    lemma_fixed_leaves(13, 288);
    lemma_level_step(lens, 13, 0, 0);
    lemma_fixed_leaves(12, 288);
    lemma_level_step(lens, 12, 0, 0);
    lemma_fixed_leaves(11, 288);
    lemma_level_step(lens, 11, 0, 0);
    lemma_fixed_leaves(10, 288);
    lemma_level_step(lens, 10, 0, 0);
    lemma_fixed_leaves(9, 288);
    lemma_level_step(lens, 9, 0, 112);
    lemma_fixed_leaves(8, 288);
    lemma_level_step(lens, 8, 112, 152);
    lemma_fixed_leaves(7, 288);
    lemma_level_step(lens, 7, 208, 24);
    lemma_fixed_leaves(6, 288);
    lemma_level_step(lens, 6, 128, 0);
    lemma_fixed_leaves(5, 288);
    lemma_level_step(lens, 5, 64, 0);
    lemma_fixed_leaves(4, 288);
    lemma_level_step(lens, 4, 32, 0);
    lemma_fixed_leaves(3, 288);
    lemma_level_step(lens, 3, 16, 0);
    lemma_fixed_leaves(2, 288);
    lemma_level_step(lens, 2, 8, 0);
    lemma_fixed_leaves(1, 288);
    lemma_level_step(lens, 1, 4, 0);
    lemma_level_step(lens, 0, 2, 0);
}

pub proof fn lemma_fixed_distance_tree()
    ensures
        spec_code_tree(fixed_distance_lengths()) is Ok,
{
    let lens = fixed_distance_lengths();
    assert(tree_levels(lens, 16) == Ok::<Seq<Node>, Error>(Seq::empty()));
    lemma_distance_leaves(15, 32);
    lemma_level_step(lens, 15, 0, 0);
    lemma_distance_leaves(14, 32);
    lemma_level_step(lens, 14, 0, 0);
    lemma_distance_leaves(13, 32);
    lemma_level_step(lens, 13, 0, 0);
    lemma_distance_leaves(12, 32);
    lemma_level_step(lens, 12, 0, 0);
    lemma_distance_leaves(11, 32);
    lemma_level_step(lens, 11, 0, 0);
    lemma_distance_leaves(10, 32);
    lemma_level_step(lens, 10, 0, 0);
    lemma_distance_leaves(9, 32);
    lemma_level_step(lens, 9, 0, 0);
    lemma_distance_leaves(8, 32);
    lemma_level_step(lens, 8, 0, 0);
    lemma_distance_leaves(7, 32);
    lemma_level_step(lens, 7, 0, 0);
    lemma_distance_leaves(6, 32);
    lemma_level_step(lens, 6, 0, 0);
    lemma_distance_leaves(5, 32);
    lemma_level_step(lens, 5, 0, 32);
    lemma_distance_leaves(4, 32);
    lemma_level_step(lens, 4, 32, 0);
    lemma_distance_leaves(3, 32);
    lemma_level_step(lens, 3, 16, 0);
    lemma_distance_leaves(2, 32);
    lemma_level_step(lens, 2, 8, 0);
    lemma_distance_leaves(1, 32);
    lemma_level_step(lens, 1, 4, 0);
    lemma_level_step(lens, 0, 2, 0);
}

/// The fixed literal/length tree.
pub fn fixed_length_tree() -> (r: CodeTree)
    ensures
        spec_code_tree(fixed_length_lengths()) == Ok::<(Node, Node), Error>((r.left(), r.right())),
        r.wf(),
        forall|j: int| 0 <= j < r.symbols().len() ==> #[trigger] r.symbols()[j] < 288,
{
    let mut lens: Vec<u8> = Vec::new();
    let mut i: usize = 0;
    while i < 288
        invariant
            i <= 288,
            lens@.len() == i,
            forall|j: int| 0 <= j < i ==> #[trigger] lens@[j] == fixed_length_lengths()[j],
        decreases 288 - i,
    {
        let len: u8 = if i < 144 {
            8
        } else if i < 256 {
            9
        } else if i < 280 {
            7
        } else {
            8
        };
        lens.push(len);
        i += 1;
    }
    proof {
        assert(lens@ =~= fixed_length_lengths());
        lemma_fixed_length_tree();
    }
    CodeTree::new(lens.as_slice()).unwrap()
}

/// The fixed distance tree.
pub fn fixed_distance_tree() -> (r: CodeTree)
    ensures
        spec_code_tree(fixed_distance_lengths()) == Ok::<(Node, Node), Error>((r.left(), r.right())),
        r.wf(),
        forall|j: int| 0 <= j < r.symbols().len() ==> #[trigger] r.symbols()[j] < 32,
{
    let mut lens: Vec<u8> = Vec::new();
    let mut i: usize = 0;
    while i < 32
        invariant
            i <= 32,
            lens@.len() == i,
            forall|j: int| 0 <= j < i ==> #[trigger] lens@[j] == 5u8,
        decreases 32 - i,
    {
        lens.push(5);
        i += 1;
    }
    proof {
        assert(lens@ =~= fixed_distance_lengths());
        lemma_fixed_distance_tree();
    }
    CodeTree::new(lens.as_slice()).unwrap()
}

} // verus!
