use vstd::prelude::*;
use vstd::arithmetic::power2::pow2;
use vstd::arithmetic::power2::lemma2_to64;

use crate::bit::bits_of_bytes;
use crate::bit::bits_value;
use crate::bit::le_u16;
use crate::bit::lemma_bits_value_bound;
use crate::bit::lemma_low_bits_of_value;
use crate::bit::low_bits;
use crate::bit::zeros;
use crate::code_tree::decode_bits;
use crate::code_tree::leaf_list;
use crate::code_tree::lemma_decode_bits_len;
use crate::code_tree::lemma_decoded_is_code;
use crate::code_tree::lemma_spec_code_tree_wf;
use crate::code_tree::spec_code_tree;
use crate::code_tree::Node;
use crate::errors::Error;
use crate::huffman::dist_base;
use crate::huffman::dist_extra_bits;
use crate::huffman::code_length_lengths;
use crate::huffman::fixed_distance_lengths;
use crate::huffman::fixed_length_lengths;
use crate::huffman::lemma_distance_symbol_unique;
use crate::huffman::lemma_expand_lengths_len;
use crate::huffman::lemma_fixed_distance_tree;
use crate::huffman::lemma_fixed_length_tree;
use crate::huffman::lemma_read_codes_shift;
use crate::huffman::spec_code_lengths;
use crate::huffman::spec_distance_lengths;
use crate::huffman::spec_read_codes;
use crate::huffman::lemma_run_symbol_round_trip;
use crate::huffman::run_base;
use crate::huffman::run_extra_bits;
use crate::huffman::spec_run_extra;
use crate::huffman::spec_run_symbol;
use crate::parse::fixed_dist;
use crate::parse::fixed_lit;
use crate::parse::lemma_block_advances;
use crate::parse::lemma_scan_step_advances;
use crate::parse::spec_stream;
use crate::parse::spec_block;
use crate::parse::spec_stored;
use crate::parse::scan_codes;
use crate::parse::scan_step;
use crate::parse::Step;
use crate::serialise::block_bits;
use crate::serialise::body_bits;
use crate::serialise::stream_bits;
use crate::serialise::valid_block;
use crate::serialise::code_bits;
use crate::serialise::codes_bits;
use crate::serialise::lemma_dist_symbol;
use crate::serialise::nodes_code;
use crate::serialise::spec_dist_symbol;
use crate::spec_run;
use crate::valid_codes;
use crate::BlockView;
use crate::Code;
use crate::Ref;

verus! {

/// No symbol appears twice in the tree with halves `t`.
pub open spec fn distinct_leaves(t: (Node, Node)) -> bool {
    (leaf_list(t.0) + leaf_list(t.1)).no_duplicates()
}

/// Whether the symbol at bit `pos` is the run-length symbol 284 with extra bits 31: a run
/// of 258, which is written back with symbol 285 instead.
pub open spec fn long_284_at(lit: (Node, Node), bits: Seq<bool>, pos: nat) -> bool {
    &&& pos <= bits.len()
    &&& decode_bits(lit.0, lit.1, bits.skip(pos as int)) matches Some((sym, k)) && {
        &&& sym == 284
        &&& pos + k + 5 <= bits.len()
        &&& bits_value(bits.subrange((pos + k) as int, (pos + k + 5) as int)) == 31
    }
}

/// Whether some code of the body from bit `pos` on is a run of 258 coded with symbol 284.
pub open spec fn codes_long_284(lit: (Node, Node), dist: Option<(Node, Node)>, bits: Seq<bool>, pos: nat) -> bool
    decreases bits.len() - pos,
{
    proof {
        lemma_scan_step_advances(lit, dist, bits, pos);
    }
    match scan_step(lit, dist, bits, pos) {
        Step::Next(_, p) => long_284_at(lit, bits, pos) || codes_long_284(lit, dist, bits, p),
        _ => false,
    }
}

/// Writing codes after codes that were written whole appends their bits.
pub proof fn lemma_codes_bits_concat(lit: (Node, Node), dist: Option<(Node, Node)>, a: Seq<Code>, b: Seq<Code>)
    requires
        codes_bits(lit, dist, a) is Some,
        codes_bits(lit, dist, a)->Some_0 is Ok,
    ensures
        codes_bits(lit, dist, a + b) == match codes_bits(lit, dist, b) {
            Some(Ok(y)) => Some(Ok::<Seq<bool>, Error>(codes_bits(lit, dist, a)->Some_0->Ok_0 + y)),
            other => other,
        },
    decreases b.len(),
{
    let x = codes_bits(lit, dist, a)->Some_0->Ok_0;
    if b.len() == 0 {
        assert(a + b =~= a);
        assert(x + Seq::<bool>::empty() =~= x);
    } else {
        lemma_codes_bits_concat(lit, dist, a, b.drop_last());
        assert((a + b).drop_last() =~= a + b.drop_last());
        assert((a + b).last() == b.last());
        if let Some(Ok(y)) = codes_bits(lit, dist, b.drop_last()) {
            if let Some(Ok(c)) = code_bits(lit, dist, b.last()) {
                assert(x + y + c =~= x + (y + c));
            }
        }
    }
}

/// A code in front of a body whose bits are known.
proof fn lemma_body_bits_cons(lit: (Node, Node), dist: Option<(Node, Node)>, c: Code, rest: Seq<Code>)
    requires
        code_bits(lit, dist, c) is Some,
        code_bits(lit, dist, c)->Some_0 is Ok,
        body_bits(lit, dist, rest) is Some,
        body_bits(lit, dist, rest)->Some_0 is Ok,
    ensures
        body_bits(lit, dist, seq![c] + rest) == Some(
            Ok::<Seq<bool>, Error>(code_bits(lit, dist, c)->Some_0->Ok_0 + body_bits(lit, dist, rest)->Some_0->Ok_0),
        ),
{
    let b = code_bits(lit, dist, c)->Some_0->Ok_0;
    assert(seq![c].drop_last() =~= Seq::<Code>::empty());
    assert(seq![c].last() == c);
    assert(codes_bits(lit, dist, Seq::<Code>::empty()) == Some(Ok::<Seq<bool>, Error>(Seq::<bool>::empty())));
    assert(codes_bits(lit, dist, seq![c]) == Some(Ok::<Seq<bool>, Error>(Seq::<bool>::empty() + b)));
    assert(Seq::<bool>::empty() + b =~= b);
    lemma_codes_bits_concat(lit, dist, seq![c], rest);
    let y = codes_bits(lit, dist, rest)->Some_0->Ok_0;
    let e = nodes_code(lit, 256)->Some_0;
    assert(b + y + e =~= b + (y + e));
}


/// The end-of-block symbol is written back as the bits it was read from.
proof fn lemma_end_bits(lit: (Node, Node), dist: Option<(Node, Node)>, bits: Seq<bool>, pos: nat)
    requires
        scan_step(lit, dist, bits, pos) is End,
        distinct_leaves(lit),
    ensures
        nodes_code(lit, 256) == Some(bits.subrange(pos as int, scan_step(lit, dist, bits, pos)->End_0 as int)),
{
    let here = bits.skip(pos as int);
    lemma_decode_bits_len(lit.0, lit.1, here);
    lemma_decoded_is_code(lit.0, lit.1, here);
    let (sym, k) = decode_bits(lit.0, lit.1, here)->Some_0;
    assert(here.take(k as int) =~= bits.subrange(pos as int, (pos + k) as int));
}

/// A code is written back as the bits it was read from, unless it is a run of 258 coded
/// with symbol 284.
proof fn lemma_step_bits(lit: (Node, Node), dist: Option<(Node, Node)>, bits: Seq<bool>, pos: nat)
    requires
        scan_step(lit, dist, bits, pos) is Next,
        distinct_leaves(lit),
        dist matches Some(d) ==> distinct_leaves(d),
        !long_284_at(lit, bits, pos),
    ensures
        ({
            let c = scan_step(lit, dist, bits, pos)->Next_0;
            let p = scan_step(lit, dist, bits, pos)->Next_1;
            &&& code_bits(lit, dist, c) == Some(Ok::<Seq<bool>, Error>(bits.subrange(pos as int, p as int)))
            &&& c matches Code::Reference(r) ==> crate::valid_ref(r)
        }),
{
    let here = bits.skip(pos as int);
    let (sym, k) = decode_bits(lit.0, lit.1, here)->Some_0;
    lemma_decode_bits_len(lit.0, lit.1, here);
    lemma_decoded_is_code(lit.0, lit.1, here);
    let p = pos + k;
    assert(here.take(k as int) =~= bits.subrange(pos as int, p as int));
    assert(nodes_code(lit, sym as int) == Some(bits.subrange(pos as int, p as int)));
    if sym >= 256 {
        lemma2_to64();
        let re = run_extra_bits(sym as int);
        let p2 = p + re;
        let ebits = bits.subrange(p as int, p2 as int);
        let e = bits_value(ebits);
        let run = run_base(sym as int) + e;
        lemma_bits_value_bound(ebits);
        assert(!(sym == 284 && e == 31));
        lemma_run_symbol_round_trip(sym as int, e);
        let d = dist->Some_0;
        let there = bits.skip(p2 as int);
        let (ds, k2) = decode_bits(d.0, d.1, there)->Some_0;
        lemma_decode_bits_len(d.0, d.1, there);
        lemma_decoded_is_code(d.0, d.1, there);
        let p3 = p2 + k2;
        assert(there.take(k2 as int) =~= bits.subrange(p2 as int, p3 as int));
        assert(nodes_code(d, ds as int) == Some(bits.subrange(p2 as int, p3 as int)));
        let de = dist_extra_bits(ds as int);
        let p4 = p3 + de;
        let dbits = bits.subrange(p3 as int, p4 as int);
        let dv = bits_value(dbits);
        lemma_bits_value_bound(dbits);
        let distance = dist_base(ds as int) + dv;
        assert(distance <= 32768) by {
            if ds < 29 {
                crate::huffman::lemma_dist_before(ds as int, 29);
            }
            assert(dist_extra_bits(29) == 13);
            assert(dist_base(29) == 3 * pow2(13) + 1);
        }
        lemma_dist_symbol(distance);
        let sds = spec_dist_symbol(distance);
        lemma_distance_symbol_unique(ds as int, dv, sds, (distance - dist_base(sds)) as nat);
        let r = Ref { dist: distance as u16, run_minus_3: (run - 3) as u8 };
        assert(spec_run(r) == run);
        assert(re <= 5);
        assert(de <= 13);
        lemma_low_bits_of_value(ebits);
        lemma_low_bits_of_value(dbits);
        let extra = match spec_run_extra(run) {
            Some((n, v)) => low_bits(v, n as nat),
            None => Seq::empty(),
        };
        assert(extra =~= ebits);
        assert(bits.subrange(pos as int, p as int) + ebits + bits.subrange(p2 as int, p3 as int) + dbits
            =~= bits.subrange(pos as int, p4 as int));
    }
}

/// Writing back the codes read from a block body gives back the body's bits, except for a
/// run of 258 that was coded with symbol 284.
pub proof fn lemma_scan_round_trip(
    lit: (Node, Node),
    dist: Option<(Node, Node)>,
    bits: Seq<bool>,
    pos: nat,
    prefix: Seq<Code>,
)
    requires
        scan_codes(lit, dist, bits, pos, prefix) is Ok,
        distinct_leaves(lit),
        dist matches Some(d) ==> distinct_leaves(d),
        !codes_long_284(lit, dist, bits, pos),
    ensures
        ({
            let (codes, end) = scan_codes(lit, dist, bits, pos, prefix)->Ok_0;
            let rest = codes.skip(prefix.len() as int);
            &&& prefix.len() <= codes.len()
            &&& codes.take(prefix.len() as int) == prefix
            &&& pos <= end <= bits.len()
            &&& valid_codes(rest)
            &&& body_bits(lit, dist, rest) == Some(Ok::<Seq<bool>, Error>(bits.subrange(pos as int, end as int)))
        }),
    decreases bits.len() - pos,
{
    let (codes, end) = scan_codes(lit, dist, bits, pos, prefix)->Ok_0;
    let rest = codes.skip(prefix.len() as int);
    lemma_scan_step_advances(lit, dist, bits, pos);
    match scan_step(lit, dist, bits, pos) {
        Step::End(p) => {
            lemma_end_bits(lit, dist, bits, pos);
            assert(rest =~= Seq::<Code>::empty());
            assert(codes.take(prefix.len() as int) =~= prefix);
            assert(codes_bits(lit, dist, rest) == Some(Ok::<Seq<bool>, Error>(Seq::<bool>::empty())));
            assert(Seq::<bool>::empty() + bits.subrange(pos as int, p as int) =~= bits.subrange(pos as int, p as int));
        },
        Step::Next(c, p) => {
            lemma_step_bits(lit, dist, bits, pos);
            let longer = prefix.push(c);
            lemma_scan_round_trip(lit, dist, bits, p, longer);
            let rest2 = codes.skip(longer.len() as int);
            lemma_body_bits_cons(lit, dist, c, rest2);
            assert(codes.take(longer.len() as int)[prefix.len() as int] == c);
            assert(rest =~= seq![c] + rest2);
            assert(codes.take(prefix.len() as int) =~= codes.take(longer.len() as int).take(prefix.len() as int));
            assert(bits.subrange(pos as int, p as int) + bits.subrange(p as int, end as int) =~= bits.subrange(
                pos as int,
                end as int,
            ));
            assert forall|i: int| 0 <= i < rest.len() implies (#[trigger] rest[i] matches Code::Reference(r)
                ==> crate::valid_ref(r)) by {
                if i > 0 {
                    assert(rest[i] == rest2[i - 1]);
                }
            }
        },
        Step::Fail(_) => {},
    }
}


/// The value of two bits.
proof fn lemma_two_bits(x: Seq<bool>)
    requires
        x.len() == 2,
    ensures
        bits_value(x) == (if x[0] {
            1int
        } else {
            0int
        }) + (if x[1] {
            2int
        } else {
            0int
        }),
{
    lemma2_to64();
    let e = Seq::<bool>::empty();
    let a = x.drop_last();
    assert(a =~= e.push(x[0]));
    assert(x =~= a.push(x[1]));
    assert(bits_value(e) == 0);
    crate::bit::lemma_bits_value_push(e, x[0]);
    crate::bit::lemma_bits_value_push(a, x[1]);
}

/// The bits of some whole bytes of a stream are the bits of those bytes.
pub proof fn lemma_bits_of_bytes_subrange(bytes: Seq<u8>, b: int, c: int)
    requires
        0 <= b <= c <= bytes.len(),
    ensures
        bits_of_bytes(bytes).subrange(8 * b, 8 * c) == bits_of_bytes(bytes.subrange(b, c)),
{
    let x = bits_of_bytes(bytes).subrange(8 * b, 8 * c);
    let y = bits_of_bytes(bytes.subrange(b, c));
    assert(x.len() == y.len());
    assert forall|i: int| 0 <= i < x.len() implies x[i] == y[i] by {
        let n = c - b;
        assert((8 * b + i) / 8 == b + i / 8 && (8 * b + i) % 8 == i % 8 && i / 8 < n) by (nonlinear_arith)
            requires
                0 <= i < 8 * n,
                0 <= b,
        ;
    }
    assert(x =~= y);
}

/// The trees a dynamic block's header gives name each symbol at most once.
pub proof fn lemma_read_codes_distinct(bits: Seq<bool>, p: int)
    requires
        0 <= p <= bits.len(),
        spec_read_codes(bits, p) is Ok,
    ensures
        distinct_leaves(spec_read_codes(bits, p)->Ok_0.0),
        spec_read_codes(bits, p)->Ok_0.1 matches Some(d) ==> distinct_leaves(d),
{
    let (lens, hlit, end) = spec_code_lengths(bits, p)->Ok_0;
    let hclen = bits_value(bits.subrange(p + 10, p + 14)) + 4;
    let hdist = bits_value(bits.subrange(p + 5, p + 10)) + 1;
    let (cl, cr) = spec_code_tree(code_length_lengths(bits, p + 14, hclen as int))->Ok_0;
    lemma_expand_lengths_len(cl, cr, bits, (hlit + hdist) as nat, Seq::empty(), (p + 14 + 3 * hclen) as nat);
    lemma2_to64();
    lemma_bits_value_bound(bits.subrange(p, p + 5));
    lemma_bits_value_bound(bits.subrange(p + 5, p + 10));
    assert(lens.len() <= 320);
    lemma_spec_code_tree_wf(lens.take(hlit as int));
    if let Some(d) = spec_distance_lengths(lens.skip(hlit as int)) {
        assert(d.len() <= 32);
        lemma_spec_code_tree_wf(d);
    }
}

/// Whether a block is one that is not written back bit for bit: a block coded with trees that
/// holds a run of 258 coded with symbol 284.
#[verifier::opaque]
pub open spec fn block_exception(bytes: Seq<u8>, pos: nat) -> bool {
    let bits = bits_of_bytes(bytes);
    let t = bits_value(bits.subrange(pos as int, pos + 2int));
    let p = pos + 2;
    if t == 1 {
        codes_long_284(fixed_lit(), Some(fixed_dist()), bits, p)
    } else if t == 2 {
        spec_read_codes(bits, p as int) matches Ok((lit, dist, hend)) && codes_long_284(lit, dist, bits, hend)
    } else {
        false
    }
}

proof fn lemma_stored_round_trip(bytes: Seq<u8>, p: nat)
    requires
        spec_stored(bytes, p) matches Ok((BlockView::Stored(data), _)),
        p <= bits_of_bytes(bytes).len(),
    ensures
        ({
            let (bv, end) = spec_stored(bytes, p)->Ok_0;
            let data = bv->Stored_0;
            let len = data.len() as u16;
            let nlen = len ^ 0xffffu16;
            &&& p <= end <= bits_of_bytes(bytes).len()
            &&& data.len() <= 0xffff
            &&& zeros(((8 - p % 8) % 8) as nat) + bits_of_bytes(
                seq![len as u8, (len >> 8u16) as u8, nlen as u8, (nlen >> 8u16) as u8] + data,
            ) == bits_of_bytes(bytes).subrange(p as int, end as int)
        }),
{
    let bits = bits_of_bytes(bytes);
    let (bv, end) = spec_stored(bytes, p)->Ok_0;
    let k = (8 - p % 8) % 8;
    let b = (p + k) / 8;
    assert((p + k) % 8 == 0);
    assert(p + k == 8 * b);
    let lo = bytes[b as int];
    let hi = bytes[b + 1];
    let clo = bytes[b + 2];
    let chi = bytes[b + 3];
    let len = le_u16(lo, hi);
    let check = le_u16(clo, chi);
    let data = bytes.subrange(b + 4, b + 4 + len);
    assert(bv == BlockView::Stored(data));
    let nlen = len ^ 0xffffu16;
    let dl = data.len() as u16;
    assert(dl == len);
    assert(lo == len as u8 && hi == (len >> 8u16) as u8 && clo == nlen as u8 && chi == (nlen >> 8u16) as u8)
        by (bit_vector)
        requires
            len == ((hi as u16) << 8u16) | (lo as u16),
            check == ((chi as u16) << 8u16) | (clo as u16),
            check == len ^ 0xffffu16,
            nlen == len ^ 0xffffu16,
    ;
    let hdr = seq![dl as u8, (dl >> 8u16) as u8, nlen as u8, (nlen >> 8u16) as u8];
    assert(bytes.subrange(b as int, b + 4 + len) =~= hdr + data);
    lemma_bits_of_bytes_subrange(bytes, b as int, b + 4 + len);
    assert(!(exists|i: int| 0 <= i < k && #[trigger] bits[p + i]));
    assert(8 * b <= bits.len());
    assert forall|i: int| 0 <= i < k implies #[trigger] bits.subrange(p as int, (p + k) as int)[i] == zeros(
        k as nat,
    )[i] by {
        assert(!bits[p + i]);
    }
    assert(bits.subrange(p as int, (p + k) as int) =~= zeros(k as nat));
    assert(bits.subrange(p as int, end as int) =~= bits.subrange(p as int, (p + k) as int) + bits.subrange(
        8 * b,
        8 * (b + 4 + len),
    ));
}

proof fn lemma_fixed_round_trip(bits: Seq<bool>, p: nat)
    requires
        scan_codes(fixed_lit(), Some(fixed_dist()), bits, p, Seq::empty()) is Ok,
        !codes_long_284(fixed_lit(), Some(fixed_dist()), bits, p),
    ensures
        ({
            let (codes, end) = scan_codes(fixed_lit(), Some(fixed_dist()), bits, p, Seq::empty())->Ok_0;
            &&& p <= end <= bits.len()
            &&& valid_codes(codes)
            &&& body_bits(fixed_lit(), Some(fixed_dist()), codes) == Some(
                Ok::<Seq<bool>, Error>(bits.subrange(p as int, end as int)),
            )
        }),
{
    lemma_fixed_length_tree();
    lemma_fixed_distance_tree();
    lemma_spec_code_tree_wf(fixed_length_lengths());
    lemma_spec_code_tree_wf(fixed_distance_lengths());
    lemma_scan_round_trip(fixed_lit(), Some(fixed_dist()), bits, p, Seq::empty());
    let codes = scan_codes(fixed_lit(), Some(fixed_dist()), bits, p, Seq::empty())->Ok_0.0;
    assert(codes.skip(0) =~= codes);
}

proof fn lemma_dynamic_round_trip(bits: Seq<bool>, p: nat)
    requires
        p <= bits.len(),
        spec_read_codes(bits, p as int) matches Ok((lit, dist, hend)) && {
            &&& scan_codes(lit, dist, bits, hend, Seq::empty()) is Ok
            &&& !codes_long_284(lit, dist, bits, hend)
        },
    ensures
        ({
            let (lit, dist, hend) = spec_read_codes(bits, p as int)->Ok_0;
            let (codes, end) = scan_codes(lit, dist, bits, hend, Seq::empty())->Ok_0;
            let trees = bits.subrange(p as int, hend as int);
            &&& p <= hend <= end <= bits.len()
            &&& valid_codes(codes)
            &&& spec_read_codes(trees, 0) == Ok::<((Node, Node), Option<(Node, Node)>, nat), Error>(
                (lit, dist, (hend - p) as nat),
            )
            &&& body_bits(lit, dist, codes) == Some(Ok::<Seq<bool>, Error>(bits.subrange(hend as int, end as int)))
        }),
{
    let (lit, dist, hend) = spec_read_codes(bits, p as int)->Ok_0;
    lemma_read_codes_shift(bits, p as int);
    lemma_read_codes_distinct(bits, p as int);
    lemma_scan_round_trip(lit, dist, bits, hend, Seq::empty());
    let codes = scan_codes(lit, dist, bits, hend, Seq::empty())->Ok_0.0;
    assert(codes.skip(0) =~= codes);
    let q = p as int;
    let hclen = bits_value(bits.subrange(q + 10, q + 14)) + 4;
    let hlit = bits_value(bits.subrange(q, q + 5)) + 257;
    let hdist = bits_value(bits.subrange(q + 5, q + 10)) + 1;
    let (sc, sr) = spec_code_tree(code_length_lengths(bits, q + 14, hclen as int))->Ok_0;
    lemma_expand_lengths_len(sc, sr, bits, (hlit + hdist) as nat, Seq::empty(), (q + 14 + 3 * hclen) as nat);
}

/// What the round trip says of one block.
pub open spec fn block_written_back(bytes: Seq<u8>, pos: nat) -> bool {
    let (bv, end) = spec_block(bytes, pos)->Ok_0;
    &&& pos < end <= bits_of_bytes(bytes).len()
    &&& valid_block(bv)
    &&& block_bits(bv, pos) == Some(Ok::<Seq<bool>, Error>(bits_of_bytes(bytes).subrange(pos as int, end as int)))
}

proof fn lemma_block_round_trip_stored(bytes: Seq<u8>, pos: nat)
    requires
        spec_block(bytes, pos) is Ok,
        !block_exception(bytes, pos),
        pos + 2 <= bits_of_bytes(bytes).len(),
        bits_of_bytes(bytes).subrange(pos as int, pos + 2int) == seq![false, false],
        bits_value(bits_of_bytes(bytes).subrange(pos as int, pos + 2int)) == 0,
    ensures
        block_written_back(bytes, pos),
{
    reveal(spec_block);
    reveal(block_bits);
    reveal(block_exception);
    let bits = bits_of_bytes(bytes);
    let p = pos + 2;
    lemma_stored_round_trip(bytes, p);
    let (bv, end) = spec_stored(bytes, p)->Ok_0;
    let data = bv->Stored_0;
    let len = data.len() as u16;
    let nlen = len ^ 0xffffu16;
    let z = zeros(((8 - p % 8) % 8) as nat);
    let body = bits_of_bytes(seq![len as u8, (len >> 8u16) as u8, nlen as u8, (nlen >> 8u16) as u8] + data);
    assert(bits.subrange(pos as int, end as int) =~= seq![false, false] + bits.subrange(p as int, end as int));
    assert(seq![false, false] + z + body =~= seq![false, false] + (z + body));
    assert(block_bits(bv, pos) == Some(Ok::<Seq<bool>, Error>(seq![false, false] + z + body)));
}

proof fn lemma_block_round_trip_fixed(bytes: Seq<u8>, pos: nat)
    requires
        spec_block(bytes, pos) is Ok,
        !block_exception(bytes, pos),
        pos + 2 <= bits_of_bytes(bytes).len(),
        bits_of_bytes(bytes).subrange(pos as int, pos + 2int) == seq![true, false],
        bits_value(bits_of_bytes(bytes).subrange(pos as int, pos + 2int)) == 1,
    ensures
        block_written_back(bytes, pos),
{
    reveal(spec_block);
    reveal(block_bits);
    reveal(block_exception);
    let bits = bits_of_bytes(bytes);
    let p = pos + 2;
    lemma_fixed_round_trip(bits, p);
    let end = scan_codes(fixed_lit(), Some(fixed_dist()), bits, p, Seq::empty())->Ok_0.1;
    assert(bits.subrange(pos as int, end as int) =~= seq![true, false] + bits.subrange(p as int, end as int));
}

proof fn lemma_block_round_trip_dynamic(bytes: Seq<u8>, pos: nat)
    requires
        spec_block(bytes, pos) is Ok,
        !block_exception(bytes, pos),
        pos + 2 <= bits_of_bytes(bytes).len(),
        bits_of_bytes(bytes).subrange(pos as int, pos + 2int) == seq![false, true],
        bits_value(bits_of_bytes(bytes).subrange(pos as int, pos + 2int)) == 2,
    ensures
        block_written_back(bytes, pos),
{
    reveal(spec_block);
    reveal(block_bits);
    reveal(block_exception);
    let bits = bits_of_bytes(bytes);
    let p = pos + 2;
    lemma_dynamic_round_trip(bits, p);
    let (lit, dist, hend) = spec_read_codes(bits, p as int)->Ok_0;
    let end = scan_codes(lit, dist, bits, hend, Seq::empty())->Ok_0.1;
    assert(bits.subrange(pos as int, end as int) =~= seq![false, true] + bits.subrange(p as int, hend as int)
        + bits.subrange(hend as int, end as int));
}

/// Writing back a block that was read gives back the bits it was read from, whenever the block
/// is not an exception: the bits at the same position in the output are those of the input.
pub proof fn lemma_block_round_trip(bytes: Seq<u8>, pos: nat)
    requires
        spec_block(bytes, pos) is Ok,
        !block_exception(bytes, pos),
    ensures
        ({
            let (bv, end) = spec_block(bytes, pos)->Ok_0;
            &&& pos < end <= bits_of_bytes(bytes).len()
            &&& valid_block(bv)
            &&& block_bits(bv, pos) == Some(Ok::<Seq<bool>, Error>(bits_of_bytes(bytes).subrange(pos as int, end as int)))
        }),
{
    reveal(spec_block);
    reveal(block_bits);
    reveal(block_exception);
    let bits = bits_of_bytes(bytes);
    let tb = bits.subrange(pos as int, pos + 2int);
    lemma_two_bits(tb);
    let t = bits_value(tb);
    if t == 0 {
        assert(tb =~= seq![false, false]);
        lemma_block_round_trip_stored(bytes, pos);
    } else if t == 1 {
        assert(tb =~= seq![true, false]);
        lemma_block_round_trip_fixed(bytes, pos);
    } else {
        assert(tb =~= seq![false, true]);
        lemma_block_round_trip_dynamic(bytes, pos);
    }
}


/// Whether some block of the stream from bit `pos` on is an exception to the round trip.
pub open spec fn stream_exception(bytes: Seq<u8>, pos: nat) -> bool
    decreases bits_of_bytes(bytes).len() - pos,
{
    let bits = bits_of_bytes(bytes);
    if pos >= bits.len() {
        false
    } else {
        proof {
            lemma_block_advances(bytes, pos + 1);
        }
        match spec_block(bytes, pos + 1) {
            Err(_) => false,
            Ok((_, end)) => block_exception(bytes, pos + 1) || (!bits[pos as int] && stream_exception(bytes, end)),
        }
    }
}

/// Writing back the blocks of a stream that was read, each after its last-block bit, then
/// padding to a byte boundary, gives back the stream's bits, unless some block is an exception.
pub proof fn lemma_stream_round_trip(bytes: Seq<u8>, pos: nat)
    requires
        spec_stream(bytes, pos) is Ok,
        !stream_exception(bytes, pos),
    ensures
        ({
            let (blocks, fin) = spec_stream(bytes, pos)->Ok_0;
            &&& pos < fin <= bits_of_bytes(bytes).len()
            &&& forall|i: int| 0 <= i < blocks.len() ==> #[trigger] valid_block(blocks[i].1)
            &&& stream_bits(blocks, pos) == Some(Ok::<Seq<bool>, Error>(bits_of_bytes(bytes).subrange(pos as int, fin as int)))
        }),
    decreases bits_of_bytes(bytes).len() - pos,
{
    let bits = bits_of_bytes(bytes);
    let (blocks, fin) = spec_stream(bytes, pos)->Ok_0;
    let last = bits[pos as int];
    lemma_block_advances(bytes, pos + 1);
    lemma_block_round_trip(bytes, pos + 1);
    let (bv, end) = spec_block(bytes, pos + 1)->Ok_0;
    let b = bits.subrange(pos + 1int, end as int);
    assert(blocks[0] == (last, bv));
    if last {
        let k = (8 - end % 8) % 8;
        assert(blocks.drop_first() =~= Seq::<(bool, BlockView)>::empty());
        assert(end + k <= bits.len()) by {
            assert(bits.len() % 8 == 0);
        }
        assert forall|i: int| 0 <= i < k implies #[trigger] bits.subrange(end as int, end + k)[i] == zeros(k as nat)[i] by {
            assert(!bits[end + i]);
        }
        assert(bits.subrange(end as int, end + k) =~= zeros(k as nat));
        assert(stream_bits(Seq::<(bool, BlockView)>::empty(), end) == Some(Ok::<Seq<bool>, Error>(zeros(k as nat))));
        assert(seq![last] + b + zeros(k as nat) =~= bits.subrange(pos as int, fin as int));
    } else {
        lemma_stream_round_trip(bytes, end);
        let (rest, fin2) = spec_stream(bytes, end)->Ok_0;
        assert(blocks.drop_first() =~= rest);
        assert(seq![last] + b + bits.subrange(end as int, fin as int) =~= bits.subrange(pos as int, fin as int));
        assert forall|i: int| 0 <= i < blocks.len() implies #[trigger] valid_block(blocks[i].1) by {
            if i > 0 {
                assert(blocks[i] == rest[i - 1]);
            }
        }
    }
}

} // verus!
