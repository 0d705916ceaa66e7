use vstd::prelude::*;
use vstd::arithmetic::power2::pow2;
use vstd::arithmetic::power2::lemma2_to64;

use crate::circles::keep_last;
use crate::circles::lz_copy;
use crate::circles::CircularBuffer;
use crate::bit::bits_of_bytes;
use crate::bit::low_bits;
use crate::bit::zeros;
use crate::bit::BitSource;
use crate::bit::BitVec;
use crate::bit::BitWriter;
use crate::bit::lemma_stack_source;
use crate::code_tree::code_of;
use crate::code_tree::CodeTree;
use crate::code_tree::Node;
use crate::errors::Error;
use crate::huffman::dist_base;
use crate::huffman::dist_extra_bits;
use crate::huffman::encode_distance;
use crate::huffman::encode_run_length;
use crate::huffman::extra_run_length;
use crate::huffman::fixed_distance_tree;
use crate::huffman::fixed_length_tree;
use crate::huffman::lemma_distance_symbol_unique;
use crate::huffman::lemma_dist_chain;
use crate::huffman::read_codes;
use crate::huffman::spec_read_codes;
use crate::huffman::spec_run_extra;
use crate::huffman::spec_run_symbol;
use crate::parse::fixed_dist;
use crate::parse::fixed_lit;
use crate::parse::tree_nodes;
use crate::spec_run;
use crate::valid_codes;
use crate::Block;
use crate::BlockView;
use crate::Code;

verus! {

/// What one code adds to the output, given the window before it; `None` when it reaches
/// outside the window.
pub open spec fn code_bytes(window: Seq<u8>, code: Code) -> Option<Seq<u8>> {
    match code {
        Code::Literal(b) => Some(seq![b]),
        Code::Reference(r) => if 0 < r.dist <= window.len() {
            Some(lz_copy(window, r.dist as nat, spec_run(r) as nat))
        } else {
            None
        },
    }
}

/// Decodes `codes` after a window of `cap` bytes holding `window`: the window afterwards,
/// and the bytes produced; `None` when a reference reaches outside the window.
pub open spec fn inflate(window: Seq<u8>, cap: nat, codes: Seq<Code>) -> Option<(Seq<u8>, Seq<u8>)>
    decreases codes.len(),
{
    if codes.len() == 0 {
        Some((window, Seq::empty()))
    } else {
        match inflate(window, cap, codes.drop_last()) {
            None => None,
            Some((w, out)) => match code_bytes(w, codes.last()) {
                None => None,
                Some(o) => Some((keep_last(w + o, cap), out + o)),
            },
        }
    }
}

/// Writes out the bytes a block stands for, and keeps the dictionary up to date.
pub fn decompressed_block(into: &mut Vec<u8>, dictionary: &mut CircularBuffer, block: &Block) -> (r: Result<
    (),
    Error,
>)
    requires
        old(dictionary).wf(),
    ensures
        final(dictionary).wf(),
        final(dictionary).cap() == old(dictionary).cap(),
        match block {
            Block::Uncompressed(data) => {
                &&& r is Ok
                &&& final(into)@ == old(into)@ + data@
                &&& final(dictionary).window() == keep_last(old(dictionary).window() + data@, old(dictionary).cap())
            },
            Block::FixedHuffman(codes) | Block::DynamicHuffman { codes, .. } => match inflate(
                old(dictionary).window(),
                old(dictionary).cap(),
                codes@,
            ) {
                Some((w, out)) => r is Ok && final(into)@ == old(into)@ + out && final(dictionary).window() == w,
                None => r == Err::<(), Error>(Error::DistanceOutOfRange),
            },
        },
{
    match block {
        Block::Uncompressed(data) => {
            dictionary.extend(data.as_slice());
            into.extend_from_slice(data.as_slice());
            proof {
                assert(final(into)@ =~= old(into)@ + data@);
            }
            Ok(())
        },
        Block::FixedHuffman(codes) => decompressed_codes(into, dictionary, codes.as_slice()),
        Block::DynamicHuffman { codes, .. } => decompressed_codes(into, dictionary, codes.as_slice()),
    }
}

/// Writes out the bytes the codes stand for, and keeps the dictionary up to date.
pub fn decompressed_codes(into: &mut Vec<u8>, dictionary: &mut CircularBuffer, codes: &[Code]) -> (r: Result<
    (),
    Error,
>)
    requires
        old(dictionary).wf(),
    ensures
        final(dictionary).wf(),
        final(dictionary).cap() == old(dictionary).cap(),
        match inflate(old(dictionary).window(), old(dictionary).cap(), codes@) {
            Some((w, out)) => r is Ok && final(into)@ == old(into)@ + out && final(dictionary).window() == w,
            None => r == Err::<(), Error>(Error::DistanceOutOfRange),
        },
{
    let ghost w0 = dictionary.window();
    let ghost cap = dictionary.cap();
    let mut i: usize = 0;
    while i < codes.len()
        invariant
            dictionary.wf(),
            dictionary.cap() == cap,
            cap == old(dictionary).cap(),
            w0 == old(dictionary).window(),
            i <= codes@.len(),
            inflate(w0, cap, codes@.take(i as int)) matches Some((w, out)) && into@ == old(into)@ + out
                && dictionary.window() == w,
        decreases codes@.len() - i,
    {
        proof {
            assert(codes@.take(i + 1).drop_last() =~= codes@.take(i as int));
        }
        let ghost before = into@;
        match codes[i] {
            Code::Literal(byte) => {
                dictionary.push(byte);
                into.push(byte);
                proof {
                    assert(dictionary.window().push(byte) =~= dictionary.window() + seq![byte]);
                }
            },
            Code::Reference(r) => {
                let run = r.run();
                let res = dictionary.copy(r.dist, run, into);
                if res.is_err() {
                    proof {
                        lemma_inflate_none_extends(w0, cap, codes@, (i + 1) as nat);
                        assert(codes@.take(codes@.len() as int) =~= codes@);
                    }
                    return res;
                }
            },
        }
        proof {
            assert(into@ =~= old(into)@ + inflate(w0, cap, codes@.take(i + 1)).unwrap().1);
        }
        i += 1;
    }
    proof {
        assert(codes@.take(codes@.len() as int) =~= codes@);
    }
    Ok(())
}

/// Once decoding fails, decoding more codes fails too.
pub proof fn lemma_inflate_none_extends(window: Seq<u8>, cap: nat, codes: Seq<Code>, k: nat)
    requires
        k <= codes.len(),
        inflate(window, cap, codes.take(k as int)) is None,
    ensures
        inflate(window, cap, codes) is None,
    decreases codes.len() - k,
{
    if k < codes.len() {
        assert(codes.take(k as int + 1).drop_last() =~= codes.take(k as int));
        lemma_inflate_none_extends(window, cap, codes, k + 1);
    } else {
        assert(codes.take(k as int) =~= codes);
    }
}


/// The code of symbol `s` in the tree with halves `t`.
pub open spec fn nodes_code(t: (Node, Node), s: int) -> Option<Seq<bool>> {
    code_of(Node::Internal(Box::new(t.0), Box::new(t.1)), s as u16)
}

/// The distance symbol that a distance is coded with: the one whose range holds it.
pub open spec fn spec_dist_symbol(d: int) -> int {
    choose|s: int| 0 <= s <= 29 && #[trigger] dist_base(s) <= d < dist_base(s) + pow2(dist_extra_bits(s))
}

proof fn lemma_dist_covers(s: int, d: int)
    requires
        0 <= s <= 29,
        dist_base(s) <= d <= 32768,
    ensures
        exists|t: int| 0 <= t <= 29 && #[trigger] dist_base(t) <= d < dist_base(t) + pow2(dist_extra_bits(t)),
    decreases 29 - s,
{
    if d < dist_base(s) + pow2(dist_extra_bits(s)) {
        assert(dist_base(s) <= d < dist_base(s) + pow2(dist_extra_bits(s)));
    } else {
        if s == 29 {
            lemma2_to64();
            assert(dist_extra_bits(29) == 13);
            assert(dist_base(29) == 3 * pow2(13) + 1);
            assert(false);
        }
        lemma_dist_chain(s);
        lemma_dist_covers(s + 1, d);
    }
}

/// Every distance a stream can hold has a symbol.
pub proof fn lemma_dist_symbol(d: int)
    requires
        1 <= d <= 32768,
    ensures
        0 <= spec_dist_symbol(d) <= 29,
        dist_base(spec_dist_symbol(d)) <= d < dist_base(spec_dist_symbol(d)) + pow2(dist_extra_bits(spec_dist_symbol(d))),
{
    assert(dist_base(0) == 1);
    lemma_dist_covers(0, d);
}

/// The optional tree's halves.
pub open spec fn opt_nodes(t: Option<&CodeTree>) -> Option<(Node, Node)> {
    match t {
        Some(t) => Some(tree_nodes(*t)),
        None => None,
    }
}

/// The bits one code is written as with the trees `lit` and `dist`: `None` where a run or
/// distance symbol it needs has no code.
pub open spec fn code_bits(lit: (Node, Node), dist: Option<(Node, Node)>, c: Code) -> Option<Result<Seq<bool>, Error>> {
    match c {
        Code::Literal(b) => match nodes_code(lit, b as int) {
            Some(bits) => Some(Ok(bits)),
            None => Some(Err(Error::InvalidLiteral)),
        },
        Code::Reference(r) => {
            let run = spec_run(r);
            match nodes_code(lit, spec_run_symbol(run)) {
                None => None,
                Some(run_bits) => {
                    let extra = match spec_run_extra(run) {
                        Some((n, v)) => low_bits(v, n as nat),
                        None => Seq::empty(),
                    };
                    match dist {
                        None => Some(Err(Error::ReferenceWithoutDistanceTree)),
                        Some(d) => {
                            let ds = spec_dist_symbol(r.dist as int);
                            match nodes_code(d, ds) {
                                None => None,
                                Some(dist_bits) => Some(
                                    Ok(
                                        run_bits + extra + dist_bits + low_bits(
                                            (r.dist - dist_base(ds)) as u16,
                                            dist_extra_bits(ds),
                                        ),
                                    ),
                                ),
                            }
                        },
                    }
                },
            }
        },
    }
}

/// The bits the codes are written as, one after another; the first error stops them.
pub open spec fn codes_bits(lit: (Node, Node), dist: Option<(Node, Node)>, codes: Seq<Code>) -> Option<
    Result<Seq<bool>, Error>,
>
    decreases codes.len(),
{
    if codes.len() == 0 {
        Some(Ok(Seq::empty()))
    } else {
        match codes_bits(lit, dist, codes.drop_last()) {
            Some(Ok(prefix)) => match code_bits(lit, dist, codes.last()) {
                Some(Ok(b)) => Some(Ok(prefix + b)),
                other => other,
            },
            other => other,
        }
    }
}

/// A block body: its codes, then the end-of-block symbol.
pub open spec fn body_bits(lit: (Node, Node), dist: Option<(Node, Node)>, codes: Seq<Code>) -> Option<
    Result<Seq<bool>, Error>,
> {
    match codes_bits(lit, dist, codes) {
        Some(Ok(b)) => match nodes_code(lit, 256) {
            Some(e) => Some(Ok(b + e)),
            None => None,
        },
        other => other,
    }
}

/// The bits a block is written as (after the bit that says whether it is the last), when
/// `offset` bits have been written before it: `None` where writing it would fail for want of
/// a code, or of bits to read its trees from.
#[verifier::opaque]
pub open spec fn block_bits(b: BlockView, offset: nat) -> Option<Result<Seq<bool>, Error>> {
    match b {
        BlockView::Stored(data) => if data.len() > 0xffff {
            Some(Err(Error::DataTooLong))
        } else {
            let len = data.len() as u16;
            let nlen = len ^ 0xffffu16;
            Some(
                Ok(
                    seq![false, false] + zeros(((8 - (offset + 2) % 8) % 8) as nat) + bits_of_bytes(
                        seq![len as u8, (len >> 8u16) as u8, nlen as u8, (nlen >> 8u16) as u8] + data,
                    ),
                ),
            )
        },
        BlockView::Fixed(codes) => match body_bits(fixed_lit(), Some(fixed_dist()), codes) {
            Some(Ok(body)) => Some(Ok(seq![true, false] + body)),
            other => other,
        },
        BlockView::Dynamic(trees, codes) => match spec_read_codes(trees, 0) {
            Err(Error::UnexpectedEof) => None,
            Err(e) => Some(Err(e)),
            Ok((lit, dist, _)) => match body_bits(lit, dist, codes) {
                Some(Ok(body)) => Some(Ok(seq![false, true] + trees + body)),
                other => other,
            },
        },
    }
}

/// The bits a whole stream of blocks is written as, when `offset` bits have been written
/// before it: each block after the bit that says whether it is the last, then clear bits up to
/// a byte boundary.
pub open spec fn stream_bits(blocks: Seq<(bool, BlockView)>, offset: nat) -> Option<Result<Seq<bool>, Error>>
    decreases blocks.len(),
{
    if blocks.len() == 0 {
        Some(Ok(zeros(((8 - offset % 8) % 8) as nat)))
    } else {
        let (last, bv) = blocks[0];
        match block_bits(bv, offset + 1) {
            Some(Ok(b)) => match stream_bits(blocks.drop_first(), offset + 1 + b.len()) {
                Some(Ok(rest)) => Some(Ok(seq![last] + b + rest)),
                other => other,
            },
            other => other,
        }
    }
}

fn encode_run(into: &mut BitWriter, length_tree: &Vec<Option<BitVec>>, run: u16) -> (r: Result<(), Error>)
    requires
        old(into).wf(),
        3 <= run <= 258,
        length_tree@.len() == 288,
        length_tree@[spec_run_symbol(run as int)] matches Some(v) && v.wf(),
    ensures
        final(into).wf(),
        r is Ok,
        final(into).written() == old(into).written() + length_tree@[spec_run_symbol(run as int)]->Some_0@ + match spec_run_extra(
            run as int,
        ) {
            Some((n, v)) => low_bits(v, n as nat),
            None => Seq::empty(),
        },
{
    let sym = encode_run_length(run);
    match &length_tree[sym as usize] {
        Some(v) => into.write_vec(v)?,
        None => {},
    }
    if let Some((bits, val)) = extra_run_length(run) {
        into.write_bits_val(bits, val)?;
    } else {
        proof {
            assert(into.written() =~= into.written() + Seq::<bool>::empty());
        }
    }
    Ok(())
}

fn encode_dist(into: &mut BitWriter, tree: Option<&Vec<Option<BitVec>>>, dist: u16) -> (r: Result<(), Error>)
    requires
        old(into).wf(),
        1 <= dist <= 32768,
        tree matches Some(t) ==> (t@.len() == 288 && (t@[spec_dist_symbol(dist as int)] matches Some(v) && v.wf())),
    ensures
        final(into).wf(),
        tree is None ==> r == Err::<(), Error>(Error::ReferenceWithoutDistanceTree),
        tree matches Some(t) ==> {
            let ds = spec_dist_symbol(dist as int);
            &&& r is Ok
            &&& final(into).written() == old(into).written() + t@[ds]->Some_0@ + low_bits(
                (dist - dist_base(ds)) as u16,
                dist_extra_bits(ds),
            )
        },
{
    if let Some((code, bits, val)) = encode_distance(dist) {
        proof {
            let ds = spec_dist_symbol(dist as int);
            assert(0 <= code <= 29 && dist_base(code as int) <= dist < dist_base(code as int) + pow2(
                dist_extra_bits(code as int),
            ));
            let e = (dist - dist_base(ds)) as nat;
            lemma_distance_symbol_unique(code as int, val as nat, ds, e);
        }
        let distance_tree = match tree {
            Some(t) => t,
            None => {
                return Err(Error::ReferenceWithoutDistanceTree);
            },
        };
        match &distance_tree[code as usize] {
            Some(v) => into.write_vec(v)?,
            None => {},
        }
        if bits > 0 {
            into.write_bits_val(bits, val)?;
        } else {
            proof {
                assert(low_bits(val, 0) =~= Seq::<bool>::empty());
                assert(into.written() =~= into.written() + low_bits(val, 0));
            }
        }
    }
    Ok(())
}


/// Whether `inv` holds the codes of the tree with halves `t`, by symbol.
pub open spec fn inverts(inv: Seq<Option<BitVec>>, t: (Node, Node)) -> bool {
    &&& inv.len() == 288
    &&& forall|s: int|
        0 <= s < 288 ==> match #[trigger] inv[s] {
            Some(v) => v.wf() && v.clean() && nodes_code(t, s) == Some(v@),
            None => nodes_code(t, s) is None,
        }
}

/// Once writing codes fails, writing more codes fails the same way.
pub proof fn lemma_codes_bits_stop(lit: (Node, Node), dist: Option<(Node, Node)>, codes: Seq<Code>, k: int)
    requires
        0 <= k <= codes.len(),
        !(codes_bits(lit, dist, codes.take(k)) matches Some(Ok(_))),
    ensures
        codes_bits(lit, dist, codes) == codes_bits(lit, dist, codes.take(k)),
    decreases codes.len() - k,
{
    if k < codes.len() {
        assert(codes.take(k + 1).drop_last() =~= codes.take(k));
        lemma_codes_bits_stop(lit, dist, codes, k + 1);
    } else {
        assert(codes.take(k) =~= codes);
    }
}

fn write_code(
    into: &mut BitWriter,
    length_inv: &Vec<Option<BitVec>>,
    dist_inv: Option<&Vec<Option<BitVec>>>,
    code: Code,
    Ghost(lit): Ghost<(Node, Node)>,
    Ghost(dist): Ghost<Option<(Node, Node)>>,
) -> (r: Result<(), Error>)
    requires
        old(into).wf(),
        inverts(length_inv@, lit),
        dist_inv is Some <==> dist is Some,
        dist_inv matches Some(t) ==> inverts(t@, dist->Some_0),
        code matches Code::Reference(r) ==> 1 <= r.dist <= 32768,
        code_bits(lit, dist, code) is Some,
    ensures
        final(into).wf(),
        match code_bits(lit, dist, code) {
            Some(Ok(b)) => r is Ok && final(into).written() == old(into).written() + b,
            Some(Err(e)) => r == Err::<(), Error>(e),
            None => true,
        },
{
    match code {
        Code::Literal(byte) => {
            match &length_inv[byte as usize] {
                Some(v) => into.write_vec(v),
                None => Err(Error::InvalidLiteral),
            }
        },
        Code::Reference(r) => {
            let run = r.run();
            encode_run(into, length_inv, run)?;
            proof {
                assert(into.written() == old(into).written() + nodes_code(lit, spec_run_symbol(run as int))->Some_0
                    + match spec_run_extra(run as int) {
                    Some((n, v)) => low_bits(v, n as nat),
                    None => Seq::empty(),
                });
            }
            let ghost mid = into.written();
            proof {
                lemma_dist_symbol(r.dist as int);
            }
            let res = encode_dist(into, dist_inv, r.dist);
            proof {
                if res is Ok {
                    let d = dist->Some_0;
                    let ds = spec_dist_symbol(r.dist as int);
                    assert(into.written() =~= mid + nodes_code(d, ds)->Some_0 + low_bits(
                        (r.dist - dist_base(ds)) as u16,
                        dist_extra_bits(ds),
                    ));
                }
            }
            res
        },
    }
}

fn compressed_codes(
    into: &mut BitWriter,
    length_tree: &CodeTree,
    distance_tree: Option<&CodeTree>,
    codes: &[Code],
) -> (r: Result<(), Error>)
    requires
        old(into).wf(),
        length_tree.wf(),
        forall|i: int| 0 <= i < length_tree.symbols().len() ==> #[trigger] length_tree.symbols()[i] < 288,
        distance_tree matches Some(t) ==> t.wf() && forall|i: int|
            0 <= i < t.symbols().len() ==> #[trigger] t.symbols()[i] < 288,
        valid_codes(codes@),
        body_bits(tree_nodes(*length_tree), opt_nodes(distance_tree), codes@) is Some,
    ensures
        final(into).wf(),
        match body_bits(tree_nodes(*length_tree), opt_nodes(distance_tree), codes@) {
            Some(Ok(b)) => r is Ok && final(into).written() == old(into).written() + b,
            Some(Err(e)) => r == Err::<(), Error>(e),
            None => true,
        },
{
    let ghost lit = tree_nodes(*length_tree);
    let ghost dist = opt_nodes(distance_tree);
    let length_inv = length_tree.invert();
    let dist_inv = match distance_tree {
        Some(tree) => Some(tree.invert()),
        None => None,
    };
    let mut i: usize = 0;
    while i < codes.len()
        invariant
            into.wf(),
            i <= codes@.len(),
            inverts(length_inv@, lit),
            dist_inv is Some <==> dist is Some,
            dist_inv matches Some(t) ==> inverts(t@, dist->Some_0),
            valid_codes(codes@),
            lit == tree_nodes(*length_tree),
            dist == opt_nodes(distance_tree),
            body_bits(lit, dist, codes@) is Some,
            codes_bits(lit, dist, codes@.take(i as int)) matches Some(Ok(b)) && into.written() == old(into).written() + b,
        decreases codes@.len() - i,
    {
        proof {
            assert(codes@.take(i + 1).drop_last() =~= codes@.take(i as int));
            assert(codes@.take(i + 1).last() == codes@[i as int]);
            if !(codes_bits(lit, dist, codes@.take(i + 1)) matches Some(Ok(_))) {
                lemma_codes_bits_stop(lit, dist, codes@, i + 1);
            }
        }
        let res = write_code(into, &length_inv, dist_inv.as_ref(), codes[i], Ghost(lit), Ghost(dist));
        if res.is_err() {
            proof {
                lemma_codes_bits_stop(lit, dist, codes@, i + 1);
            }
            return res;
        }
        i += 1;
    }
    proof {
        assert(codes@.take(i as int) =~= codes@);
    }
    into.write_vec(length_inv[256].as_ref().unwrap())?;
    Ok(())
}


/// The references of a block are ones a stream can hold.
pub open spec fn valid_block(b: BlockView) -> bool {
    match b {
        BlockView::Stored(_) => true,
        BlockView::Fixed(codes) => valid_codes(codes),
        BlockView::Dynamic(_, codes) => valid_codes(codes),
    }
}

/// Writes a block (after the bit that says whether it is the last), as `parse` reads it.
pub fn compressed_block(into: &mut BitWriter, block: &Block) -> (r: Result<(), Error>)
    requires
        old(into).wf(),
        crate::parse::block_wf(*block),
        valid_block(block@),
        block_bits(block@, old(into).written().len()) is Some,
    ensures
        final(into).wf(),
        match block_bits(block@, old(into).written().len()) {
            Some(Ok(b)) => r is Ok && final(into).written() == old(into).written() + b,
            Some(Err(e)) => r == Err::<(), Error>(e),
            None => true,
        },
{
    proof {
        reveal(block_bits);
    }
    match block {
        Block::Uncompressed(data) => {
            into.write_bits_val(2, 0)?;
            proof {
                assert(((0u16 >> 0u16) & 1u16 == 1u16) == false && ((0u16 >> 1u16) & 1u16 == 1u16) == false)
                    by (bit_vector);
                assert(low_bits(0, 2) =~= seq![false, false]);
                into.lemma_pending_len();
            }
            into.write_length_prefixed(data.as_slice())?;
            proof {
                assert(into.written() =~= old(into).written() + block_bits(block@, old(into).written().len())->Some_0->Ok_0);
            }
            Ok(())
        },
        Block::FixedHuffman(codes) => {
            into.write_bits_val(2, 1)?;
            proof {
                assert(((1u16 >> 0u16) & 1u16 == 1u16) == true && ((1u16 >> 1u16) & 1u16 == 1u16) == false)
                    by (bit_vector);
                assert(low_bits(1, 2) =~= seq![true, false]);
            }
            let lt = fixed_length_tree();
            let dt = fixed_distance_tree();
            let ghost mid = into.written();
            let res = compressed_codes(into, &lt, Some(&dt), codes.as_slice());
            proof {
                if res is Ok {
                    assert(into.written() =~= old(into).written() + block_bits(block@, old(into).written().len())->Some_0->Ok_0);
                }
            }
            res
        },
        Block::DynamicHuffman { trees, codes } => {
            into.write_bits_val(2, 2)?;
            proof {
                assert(((2u16 >> 0u16) & 1u16 == 1u16) == false && ((2u16 >> 1u16) & 1u16 == 1u16) == true)
                    by (bit_vector);
                assert(low_bits(2, 2) =~= seq![false, true]);
            }
            into.write_vec(trees)?;
            let mut it = trees.iter();
            proof {
                lemma_stack_source(&it);
                assert(it.all_bits().skip(0) =~= it.all_bits());
            }
            let (length, distance) = read_codes(&mut it)?;
            let res = compressed_codes(into, &length, distance.as_ref(), codes.as_slice());
            proof {
                if res is Ok {
                    assert(into.written() =~= old(into).written() + block_bits(block@, old(into).written().len())->Some_0->Ok_0);
                }
            }
            res
        },
    }
}


/// The window a decompressor of byte-at-a-time output keeps: 32 KiB, and a run and its
/// length symbol's worth more.
pub const DECOMPRESSED_WINDOW: u16 = 32 * 1024 + 256 + 3 + 1;

/// Decoding from an empty window leaves the last `cap` bytes of the output in the window.
pub proof fn lemma_inflate_from_empty(cap: nat, codes: Seq<Code>)
    requires
        inflate(Seq::empty(), cap, codes) is Some,
    ensures
        inflate(Seq::empty(), cap, codes)->Some_0.0 == keep_last(inflate(Seq::empty(), cap, codes)->Some_0.1, cap),
    decreases codes.len(),
{
    if codes.len() == 0 {
        assert(keep_last(Seq::<u8>::empty(), cap) =~= Seq::<u8>::empty());
    } else {
        let prefix = codes.drop_last();
        if inflate(Seq::empty(), cap, prefix) is None {
            assert(false);
        }
        lemma_inflate_from_empty(cap, prefix);
        let (w, out) = inflate(Seq::empty(), cap, prefix)->Some_0;
        let o = code_bytes(w, codes.last())->Some_0;
        crate::decodes::lemma_keep_last_append(out, o, cap);
    }
}

/// The bytes that codes stand for, handed out one at a time.
pub struct DecompressedBytes {
    cap: usize,
    dictionary: CircularBuffer,
    codes: Vec<Code>,
    next_code: usize,
    produced: Ghost<Seq<u8>>,
}

impl DecompressedBytes {
    /// The codes being decoded.
    pub closed spec fn codes(&self) -> Seq<Code> {
        self.codes@
    }

    /// The bytes handed out so far.
    pub closed spec fn produced(&self) -> Seq<u8> {
        self.produced@
    }

    /// All the bytes the codes stand for, if they decode.
    pub open spec fn total(&self) -> Option<Seq<u8>> {
        match inflate(Seq::empty(), DECOMPRESSED_WINDOW as nat, self.codes()) {
            Some((_, out)) => Some(out),
            None => None,
        }
    }

    pub closed spec fn wf(&self) -> bool {
        &&& self.dictionary.wf()
        &&& self.dictionary.cap() == DECOMPRESSED_WINDOW
        &&& self.next_code <= self.codes@.len()
        &&& self.cap <= 258
        &&& inflate(Seq::empty(), DECOMPRESSED_WINDOW as nat, self.codes@.take(self.next_code as int)) matches Some(
            (w, out),
        ) && {
            &&& self.dictionary.window() == w
            &&& self.cap <= out.len()
            &&& self.produced@ + out.skip(out.len() - self.cap) == out
        }
    }

    pub fn new(codes: Vec<Code>) -> (r: Self)
        ensures
            r.wf(),
            r.codes() == codes@,
            r.produced() == Seq::<u8>::empty(),
    {
        let dictionary = CircularBuffer::with_capacity(DECOMPRESSED_WINDOW);
        let r = DecompressedBytes { cap: 0, dictionary, codes, next_code: 0, produced: Ghost(Seq::empty()) };
        proof {
            assert(r.codes@.take(0) =~= Seq::<Code>::empty());
            let out = Seq::<u8>::empty();
            assert(out.skip(0) =~= out);
            assert(Seq::<u8>::empty() + out.skip(0) =~= out);
        }
        r
    }

    /// The next byte the codes stand for, or `None` after the last.
    pub fn next(&mut self) -> (r: Option<u8>)
        requires
            old(self).wf(),
            old(self).total() is Some,
        ensures
            final(self).wf(),
            final(self).codes() == old(self).codes(),
            ({
                let total = old(self).total()->Some_0;
                let k = old(self).produced().len();
                &&& r == if k < total.len() { Some(total[k as int]) } else { None::<u8> }
                &&& final(self).produced() == match r {
                    Some(b) => old(self).produced().push(b),
                    None => old(self).produced(),
                }
            }),
    {
        let ghost cap_n = DECOMPRESSED_WINDOW as nat;
        let ghost codes = self.codes@;
        let ghost total = self.total()->Some_0;
        proof {
            crate::decodes::lemma_inflate_concat(Seq::empty(), cap_n, codes.take(self.next_code as int), codes.skip(self.next_code as int));
            assert(codes.take(self.next_code as int) + codes.skip(self.next_code as int) =~= codes);
        }
        if self.cap == 0 {
            if self.next_code >= self.codes.len() {
                proof {
                    assert(codes.take(self.next_code as int) =~= codes);
                    let out = inflate(Seq::empty(), cap_n, codes)->Some_0.1;
                    assert(out.skip(out.len() as int) =~= Seq::<u8>::empty());
                    assert(self.produced@ =~= out);
                }
                return None;
            }
            let i = self.next_code;
            let ghost before = self.codes@.take(i as int);
            proof {
                assert(codes.take(i + 1).drop_last() =~= before);
                assert(codes.take(i + 1).last() == codes[i as int]);
                lemma_inflate_none_extends_back(cap_n, codes, (i + 1) as nat);
                lemma_inflate_from_empty(cap_n, before);
            }
            let ghost out0 = inflate(Seq::empty(), cap_n, before)->Some_0.1;
            match self.codes[i] {
                Code::Literal(byte) => {
                    self.dictionary.push(byte);
                    self.cap = 1;
                    proof {
                        assert(self.dictionary.window().push(byte) =~= self.dictionary.window() + seq![byte]);
                    }
                },
                Code::Reference(r) => {
                    let run = r.run();
                    let mut scratch: Vec<u8> = Vec::new();
                    let res = self.dictionary.copy(r.dist, run, &mut scratch);
                    proof {
                        crate::circles::lemma_lz_copy_len(inflate(Seq::empty(), cap_n, before)->Some_0.0, r.dist as nat, run as nat);
                    }
                    self.cap = run as usize;
                },
            }
            self.next_code = i + 1;
            proof {
                assert(self.dictionary.window() == inflate(Seq::empty(), cap_n, codes.take(i + 1))->Some_0.0);
                let out1 = inflate(Seq::empty(), cap_n, codes.take(i + 1))->Some_0.1;
                let o = out1.skip(out0.len() as int);
                assert(out1 == out0 + o);
                assert(o.len() == self.cap);
                assert(self.produced@ =~= out0);
                assert(out1.skip(out1.len() - self.cap) =~= o);
            }
        }
        let ghost out = inflate(Seq::empty(), cap_n, codes.take(self.next_code as int))->Some_0.1;
        proof {
            lemma_inflate_from_empty(cap_n, codes.take(self.next_code as int));
            crate::circles::lemma_keep_last_len(out, cap_n);
            crate::decodes::lemma_inflate_concat(Seq::empty(), cap_n, codes.take(self.next_code as int), codes.skip(self.next_code as int));
            assert(codes.take(self.next_code as int) + codes.skip(self.next_code as int) =~= codes);
            assert(total == out + inflate(inflate(Seq::empty(), cap_n, codes.take(self.next_code as int))->Some_0.0, cap_n, codes.skip(self.next_code as int))->Some_0.1);
        }
        let pos = self.cap as u16;
        self.cap = self.cap - 1;
        let b = self.dictionary.get_at_dist(pos);
        proof {
            let k = self.produced@.len();
            assert(b == out[out.len() - pos]);
            assert(out[out.len() - pos] == out[k as int]);
            assert(total[k as int] == out[k as int]);
            self.produced@ = self.produced@.push(b);
            assert(self.produced@ + out.skip(out.len() - self.cap) =~= out);
            assert(self.dictionary.window() == inflate(Seq::empty(), cap_n, codes.take(self.next_code as int))->Some_0.0);
            assert(self.cap <= out.len());
        }
        Some(b)
    }
}

/// Decoding a prefix of codes that decode succeeds.
proof fn lemma_inflate_none_extends_back(cap: nat, codes: Seq<Code>, k: nat)
    requires
        k <= codes.len(),
        inflate(Seq::empty(), cap, codes) is Some,
    ensures
        inflate(Seq::empty(), cap, codes.take(k as int)) is Some,
{
    if inflate(Seq::empty(), cap, codes.take(k as int)) is None {
        lemma_inflate_none_extends(Seq::empty(), cap, codes, k);
    }
}

} // verus!

