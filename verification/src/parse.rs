use vstd::prelude::*;

use crate::bit::bits_of_bytes;
use crate::bit::bits_value;
use crate::bit::le_u16;
use crate::bit::lemma_bits_of_bytes_injective;
use crate::bit::lemma_reader_source;
use crate::bit::remaining;
use crate::bit::BitReader;
use crate::bit::BitSource;
use crate::code_tree::decode_bits;
use crate::code_tree::lemma_decode_bits_len;
use crate::code_tree::spec_code_tree;
use crate::code_tree::CodeTree;
use crate::code_tree::Node;
use crate::errors::Error;
use crate::huffman::decode_distance;
use crate::huffman::decode_run_length;
use crate::huffman::dist_base;
use crate::huffman::dist_extra_bits;
use crate::huffman::fixed_distance_lengths;
use crate::huffman::fixed_distance_tree;
use crate::huffman::fixed_length_lengths;
use crate::huffman::fixed_length_tree;
use crate::huffman::read_codes;
use crate::huffman::run_base;
use crate::huffman::run_extra_bits;
use crate::huffman::lemma_read_codes_shift;
use crate::huffman::spec_read_codes;
use crate::Block;
use crate::BlockView;
use crate::Code;
use crate::Ref;

verus! {

/// The two halves of a tree.
pub open spec fn tree_nodes(t: CodeTree) -> (Node, Node) {
    (t.left(), t.right())
}

/// The halves of the fixed literal/length tree.
pub open spec fn fixed_lit() -> (Node, Node) {
    spec_code_tree(fixed_length_lengths())->Ok_0
}

/// The halves of the fixed distance tree.
pub open spec fn fixed_dist() -> (Node, Node) {
    spec_code_tree(fixed_distance_lengths())->Ok_0
}

/// What reading one symbol of a block body gives.
pub enum Step {
    /// The end-of-block symbol, and the position after it.
    End(nat),
    /// A code, and the position after it.
    Next(Code, nat),
    /// Reading failed.
    Fail(Error),
}

/// Reads one code of a Huffman-coded block body at bit `pos` with the literal/length tree
/// `lit` and the distance tree `dist`. A symbol below 256 is a literal, 256 ends the block,
/// one from 257 to 285 is a run length, followed by its extra bits, a distance symbol and the
/// distance's extra bits.
pub open spec fn scan_step(lit: (Node, Node), dist: Option<(Node, Node)>, bits: Seq<bool>, pos: nat) -> Step {
    if pos > bits.len() {
        Step::Fail(Error::UnexpectedEof)
    } else {
        match decode_bits(lit.0, lit.1, bits.skip(pos as int)) {
            None => Step::Fail(Error::UnexpectedEof),
            Some((sym, k)) => {
                let p = pos + k;
                if sym == 256 {
                    Step::End(p)
                } else if sym < 256 {
                    Step::Next(Code::Literal(sym as u8), p)
                } else if sym > 287 {
                    Step::Fail(Error::RunSymbolOutOfRange)
                } else if sym >= 286 {
                    Step::Fail(Error::ReservedRunSymbol)
                } else if p + run_extra_bits(sym as int) > bits.len() {
                    Step::Fail(Error::UnexpectedEof)
                } else {
                    let p2 = p + run_extra_bits(sym as int);
                    let run = run_base(sym as int) + bits_value(bits.subrange(p as int, p2 as int));
                    match dist {
                        None => Step::Fail(Error::NoDistanceTable),
                        Some(d) => match decode_bits(d.0, d.1, bits.skip(p2 as int)) {
                            None => Step::Fail(Error::UnexpectedEof),
                            Some((ds, k2)) => {
                                let p3 = p2 + k2;
                                if ds > 31 {
                                    Step::Fail(Error::InvalidDistanceSymbol)
                                } else if ds >= 30 {
                                    Step::Fail(Error::ReservedDistanceSymbol)
                                } else if p3 + dist_extra_bits(ds as int) > bits.len() {
                                    Step::Fail(Error::UnexpectedEof)
                                } else {
                                    let p4 = p3 + dist_extra_bits(ds as int);
                                    let distance = dist_base(ds as int) + bits_value(bits.subrange(p3 as int, p4 as int));
                                    Step::Next(
                                        Code::Reference(Ref { dist: distance as u16, run_minus_3: (run - 3) as u8 }),
                                        p4,
                                    )
                                }
                            },
                        },
                    }
                }
            },
        }
    }
}

/// A step forward stays within the bits.
pub proof fn lemma_scan_step_advances(lit: (Node, Node), dist: Option<(Node, Node)>, bits: Seq<bool>, pos: nat)
    ensures
        scan_step(lit, dist, bits, pos) matches Step::Next(_, p) ==> pos < p <= bits.len(),
        scan_step(lit, dist, bits, pos) matches Step::End(p) ==> pos < p <= bits.len(),
{
    if pos <= bits.len() {
        lemma_decode_bits_len(lit.0, lit.1, bits.skip(pos as int));
        if let Some((sym, k)) = decode_bits(lit.0, lit.1, bits.skip(pos as int)) {
            let p2 = pos + k + run_extra_bits(sym as int);
            if let Some(d) = dist {
                lemma_decode_bits_len(d.0, d.1, bits.skip(p2 as int));
            }
        }
    }
}

/// The codes of a Huffman-coded block body from bit `pos` on, after `codes`, up to the
/// end-of-block symbol: the codes and the position after the end-of-block symbol.
pub open spec fn scan_codes(lit: (Node, Node), dist: Option<(Node, Node)>, bits: Seq<bool>, pos: nat, codes: Seq<Code>) -> Result<
    (Seq<Code>, nat),
    Error,
>
    decreases bits.len() - pos,
{
    proof {
        lemma_scan_step_advances(lit, dist, bits, pos);
    }
    match scan_step(lit, dist, bits, pos) {
        Step::End(p) => Ok((codes, p)),
        Step::Fail(e) => Err(e),
        Step::Next(c, p) => scan_codes(lit, dist, bits, p, codes.push(c)),
    }
}

/// A stored block whose body starts at bit `p` of `bytes`: zero bits up to a byte boundary,
/// a little-endian length, its one's complement, and that many bytes.
pub open spec fn spec_stored(bytes: Seq<u8>, p: nat) -> Result<(BlockView, nat), Error> {
    let bits = bits_of_bytes(bytes);
    let k = (8 - p % 8) % 8;
    if exists|i: int| 0 <= i < k && #[trigger] bits[p + i] {
        Err(Error::NonZeroPadding)
    } else {
        let b = (p + k) / 8;
        let n = bytes.len();
        if b + 4 > n {
            Err(Error::UnexpectedEof)
        } else {
            let len = le_u16(bytes[b as int], bytes[b + 1]);
            let check = le_u16(bytes[b + 2], bytes[b + 3]);
            if len ^ 0xffffu16 != check {
                Err(Error::LengthCheckFailed)
            } else if b + 4 + len > n {
                Err(Error::UnexpectedEof)
            } else {
                Ok((BlockView::Stored(bytes.subrange(b + 4, b + 4 + len)), ((b + 4 + len) * 8) as nat))
            }
        }
    }
}

/// A block coded with the fixed trees, whose body starts at bit `p`.
pub open spec fn spec_fixed(bits: Seq<bool>, p: nat) -> Result<(BlockView, nat), Error> {
    match scan_codes(fixed_lit(), Some(fixed_dist()), bits, p, Seq::empty()) {
        Err(e) => Err(e),
        Ok((codes, end)) => Ok((BlockView::Fixed(codes), end)),
    }
}

/// A block that describes its own trees, whose header starts at bit `p`.
pub open spec fn spec_dynamic(bits: Seq<bool>, p: nat) -> Result<(BlockView, nat), Error> {
    match spec_read_codes(bits, p as int) {
        Err(e) => Err(e),
        Ok((lit, dist, hend)) => match scan_codes(lit, dist, bits, hend, Seq::empty()) {
            Err(e) => Err(e),
            Ok((codes, end)) => Ok((BlockView::Dynamic(bits.subrange(p as int, hend as int), codes), end)),
        },
    }
}

/// The block whose header starts at bit `pos` of `bytes` (after the bit that says whether
/// it is the last), and the position after it. Two bits give the type: 0 is stored, 1 uses
/// the fixed trees, 2 describes its own trees, 3 is reserved.
#[verifier::opaque]
pub open spec fn spec_block(bytes: Seq<u8>, pos: nat) -> Result<(BlockView, nat), Error> {
    let bits = bits_of_bytes(bytes);
    if pos + 2 > bits.len() {
        Err(Error::UnexpectedEof)
    } else {
        let t = bits_value(bits.subrange(pos as int, pos + 2int));
        if t == 0 {
            spec_stored(bytes, pos + 2)
        } else if t == 1 {
            spec_fixed(bits, pos + 2)
        } else if t == 2 {
            spec_dynamic(bits, pos + 2)
        } else {
            Err(Error::ReservedBlockType)
        }
    }
}

/// Reading a body ends after where it starts, within the bits.
pub proof fn lemma_scan_codes_bounds(lit: (Node, Node), dist: Option<(Node, Node)>, bits: Seq<bool>, pos: nat, codes: Seq<Code>)
    ensures
        scan_codes(lit, dist, bits, pos, codes) matches Ok((_, end)) ==> pos < end <= bits.len(),
    decreases bits.len() - pos,
{
    lemma_scan_step_advances(lit, dist, bits, pos);
    if let Step::Next(c, p) = scan_step(lit, dist, bits, pos) {
        lemma_scan_codes_bounds(lit, dist, bits, p, codes.push(c));
    }
}

/// Reading a block ends after where it starts, within the bits.
pub proof fn lemma_block_advances(bytes: Seq<u8>, pos: nat)
    ensures
        spec_block(bytes, pos) matches Ok((_, end)) ==> pos < end <= bits_of_bytes(bytes).len(),
{
    reveal(spec_block);
    let bits = bits_of_bytes(bytes);
    if let Ok((bv, end)) = spec_block(bytes, pos) {
        let p = pos + 2;
        let t = bits_value(bits.subrange(pos as int, pos + 2int));
        if t == 0 {
            let k = (8 - p % 8) % 8;
            assert((p + k) % 8 == 0);
            let b = (p + k) / 8;
            assert(p + k == 8 * b);
        } else if t == 1 {
            lemma_scan_codes_bounds(fixed_lit(), Some(fixed_dist()), bits, p, Seq::empty());
        } else if t == 2 {
            let (lit, dist, hend) = spec_read_codes(bits, p as int)->Ok_0;
            lemma_read_codes_shift(bits, p as int);
            lemma_scan_codes_bounds(lit, dist, bits, hend, Seq::empty());
        }
    }
}

/// A whole deflate stream from bit `pos` on: blocks, each after the bit that says whether it
/// is the last, then, after the last, clear bits up to a byte boundary. The blocks with those
/// bits, and the position after the padding.
pub open spec fn spec_stream(bytes: Seq<u8>, pos: nat) -> Result<(Seq<(bool, BlockView)>, nat), Error>
    decreases bits_of_bytes(bytes).len() - pos,
{
    let bits = bits_of_bytes(bytes);
    if pos >= bits.len() {
        Err(Error::UnexpectedEof)
    } else {
        let last = bits[pos as int];
        proof {
            lemma_block_advances(bytes, pos + 1);
        }
        match spec_block(bytes, pos + 1) {
            Err(e) => Err(e),
            Ok((bv, end)) => if last {
                let k = (8 - end % 8) % 8;
                if exists|i: int| 0 <= i < k && #[trigger] bits[end + i] {
                    Err(Error::NonZeroPadding)
                } else {
                    Ok((seq![(true, bv)], (end + k) as nat))
                }
            } else {
                match spec_stream(bytes, end) {
                    Err(e) => Err(e),
                    Ok((rest, fin)) => Ok((seq![(false, bv)] + rest, fin)),
                }
            },
        }
    }
}

/// A block whose tree bits can be written out.
pub open spec fn block_wf(b: Block) -> bool {
    b matches Block::DynamicHuffman { trees, .. } ==> trees.wf() && trees.clean()
}

fn scan_huffman_data(reader: &mut BitReader, length: &CodeTree, distance: Option<&CodeTree>) -> (r: Result<
    Vec<Code>,
    Error,
>)
    requires
        old(reader).wf(),
        old(reader).recorded() is None,
    ensures
        final(reader).wf(),
        final(reader).input() == old(reader).input(),
        final(reader).recorded() is None,
        match scan_codes(
            tree_nodes(*length),
            match distance {
                Some(t) => Some(tree_nodes(*t)),
                None => None,
            },
            bits_of_bytes(old(reader).input()),
            old(reader).bit_pos(),
            Seq::empty(),
        ) {
            Ok((codes, end)) => r matches Ok(v) && v@ == codes && final(reader).bit_pos() == end,
            Err(e) => r == Err::<Vec<Code>, Error>(e),
        },
{
    let ghost input = reader.input();
    let ghost bits = bits_of_bytes(input);
    let ghost lit = tree_nodes(*length);
    let ghost dist = match distance {
        Some(t) => Some(tree_nodes(*t)),
        None => None,
    };
    let ghost total = scan_codes(lit, dist, bits, reader.bit_pos(), Seq::empty());
    let mut ret: Vec<Code> = Vec::new();
    loop
        invariant
            reader.wf(),
            reader.input() == input,
            input == old(reader).input(),
            reader.recorded() is None,
            bits == bits_of_bytes(input),
            lit == tree_nodes(*length),
            dist == match distance {
                Some(t) => Some(tree_nodes(*t)),
                None => None::<(Node, Node)>,
            },
            total == scan_codes(lit, dist, bits, old(reader).bit_pos(), Seq::empty()),
            scan_codes(lit, dist, bits, reader.bit_pos(), ret@) == total,
        decreases bits.len() - reader.bit_pos(),
    {
        proof {
            reader.lemma_unread_len();
        }
        let ghost pos = reader.bit_pos();
        let res = length.decode_symbol(reader);
        proof {
            lemma_bits_of_bytes_injective(reader.input(), input);
            lemma_decode_bits_len(lit.0, lit.1, bits.skip(pos as int));
        }
        let sym = res?;

        if sym == 256 {
            return Ok(ret);
        }

        if sym < 256 {
            ret.push(Code::Literal(sym as u8));
            continue;
        }

        let res = decode_run_length(reader, sym);
        proof {
            lemma_bits_of_bytes_injective(reader.input(), input);
        }
        let run = res?;

        let dist_sym = match distance {
            Some(dist_code) => {
                let ghost p2 = reader.bit_pos();
                let res = dist_code.decode_symbol(reader);
                proof {
                    lemma_bits_of_bytes_injective(reader.input(), input);
                    lemma_decode_bits_len(dist_code.left(), dist_code.right(), bits.skip(p2 as int));
                }
                res?
            },
            None => {
                return Err(Error::NoDistanceTable);
            },
        };

        let res = decode_distance(reader, dist_sym);
        proof {
            lemma_bits_of_bytes_injective(reader.input(), input);
        }
        let d = res?;

        if !(d >= 1 && d <= 32786) {
            return Err(Error::InvalidDistance);
        }

        ret.push(Code::Reference(Ref::new(d, run)));
    }
}

fn read_stored(reader: &mut BitReader) -> (r: Result<Block, Error>)
    requires
        old(reader).wf(),
        old(reader).recorded() is None,
    ensures
        final(reader).wf(),
        final(reader).input() == old(reader).input(),
        final(reader).recorded() is None,
        match spec_stored(old(reader).input(), old(reader).bit_pos()) {
            Ok((bv, end)) => r matches Ok(b) && b@ == bv && block_wf(b) && final(reader).bit_pos() == end,
            Err(e) => r == Err::<Block, Error>(e),
        },
{
    let ghost bits = bits_of_bytes(reader.input());
    let ghost p = reader.bit_pos();
    let ghost k = (8 - p % 8) % 8;
    proof {
        reader.lemma_unread_len();
    }
    match reader.align() {
        Ok(()) => {},
        Err(e) => {
            proof {
                let i = choose|i: int| 0 <= i < k && #[trigger] old(reader).unread()[i];
                assert(bits[p + i]);
            }
            return Err(e);
        },
    }
    proof {
        assert forall|i: int| 0 <= i < k implies !#[trigger] bits[p + i] by {
            assert(old(reader).unread()[i] == bits[p + i]);
        }
        assert(reader.bit_pos() == p + k);
        assert(reader.aligned());
    }
    let data = reader.read_length_prefixed()?;
    Ok(Block::Uncompressed(data))
}

fn read_fixed(reader: &mut BitReader) -> (r: Result<Block, Error>)
    requires
        old(reader).wf(),
        old(reader).recorded() is None,
    ensures
        final(reader).wf(),
        final(reader).input() == old(reader).input(),
        final(reader).recorded() is None,
        match spec_fixed(bits_of_bytes(old(reader).input()), old(reader).bit_pos()) {
            Ok((bv, end)) => r matches Ok(b) && b@ == bv && block_wf(b) && final(reader).bit_pos() == end,
            Err(e) => r == Err::<Block, Error>(e),
        },
{
    let lt = fixed_length_tree();
    let dt = fixed_distance_tree();
    let codes = scan_huffman_data(reader, &lt, Some(&dt))?;
    Ok(Block::FixedHuffman(codes))
}

fn read_dynamic(reader: &mut BitReader) -> (r: Result<Block, Error>)
    requires
        old(reader).wf(),
        old(reader).recorded() is None,
    ensures
        final(reader).wf(),
        final(reader).input() == old(reader).input(),
        final(reader).recorded() is None,
        match spec_dynamic(bits_of_bytes(old(reader).input()), old(reader).bit_pos()) {
            Ok((bv, end)) => r matches Ok(b) && b@ == bv && block_wf(b) && final(reader).bit_pos() == end,
            Err(e) => r == Err::<Block, Error>(e),
        },
{
    reader.tracking_start();
    let read = read_codes(reader);
    proof {
        lemma_bits_of_bytes_injective(reader.input(), old(reader).input());
    }
    proof {
        lemma_reader_source(reader);
    }
    let trees = reader.tracking_finish();
    let (length, distance) = read?;
    let codes = scan_huffman_data(reader, &length, distance.as_ref())?;
    Ok(Block::DynamicHuffman { trees, codes })
}

fn read_block(reader: &mut BitReader) -> (r: Result<Block, Error>)
    requires
        old(reader).wf(),
        old(reader).recorded() is None,
    ensures
        final(reader).wf(),
        final(reader).input() == old(reader).input(),
        final(reader).recorded() is None,
        match spec_block(old(reader).input(), old(reader).bit_pos()) {
            Ok((bv, end)) => r matches Ok(b) && b@ == bv && block_wf(b) && final(reader).bit_pos() == end,
            Err(e) => r == Err::<Block, Error>(e),
        },
{
    let ghost bits = bits_of_bytes(reader.input());
    let ghost pos = reader.bit_pos();
    proof {
        reader.lemma_unread_len();
    }
    proof {
        reveal(spec_block);
    }
    let t = reader.read_part(2)?;
    proof {
        assert(old(reader).unread().take(2) =~= bits.subrange(pos as int, pos + 2int));
    }
    if t == 0 {
        read_stored(reader)
    } else if t == 1 {
        read_fixed(reader)
    } else if t == 2 {
        read_dynamic(reader)
    } else {
        Err(Error::ReservedBlockType)
    }
}

/// The blocks of a deflate stream, one at a time.
pub struct BlockIter {
    inner: BitReader,
    end: bool,
}

impl BlockIter {
    pub closed spec fn wf(&self) -> bool {
        self.inner.wf() && self.inner.recorded() is None
    }

    /// The whole stream.
    pub closed spec fn input(&self) -> Seq<u8> {
        self.inner.input()
    }

    /// How many bits have been read.
    pub closed spec fn position(&self) -> nat {
        self.inner.bit_pos()
    }

    /// Whether the last block has been read.
    pub closed spec fn finished(&self) -> bool {
        self.end
    }

    /// The next block, or `None` after the last block and the padding that follows it.
    pub fn next(&mut self) -> (r: Option<Result<Block, Error>>)
        requires
            old(self).wf(),
        ensures
            final(self).wf(),
            final(self).input() == old(self).input(),
            ({
                let bits = bits_of_bytes(old(self).input());
                let pos = old(self).position();
                if old(self).finished() {
                    let k = (8 - pos % 8) % 8;
                    &&& final(self).finished()
                    &&& pos + k <= bits.len()
                    &&& r is None <==> forall|i: int| 0 <= i < k ==> !#[trigger] bits[pos + i]
                    &&& r is None ==> final(self).position() == pos + k
                    &&& r is Some ==> r == Some(Err::<Block, Error>(Error::NonZeroPadding))
                } else if pos >= bits.len() {
                    r == Some(Err::<Block, Error>(Error::UnexpectedEof)) && *final(self) == *old(self)
                } else {
                    &&& final(self).finished() == bits[pos as int]
                    &&& match spec_block(old(self).input(), pos + 1) {
                        Ok((bv, end)) => r matches Some(Ok(b)) && b@ == bv && block_wf(b) && final(self).position()
                            == end,
                        Err(e) => r == Some(Err::<Block, Error>(e)),
                    }
                }
            }),
    {
        proof {
            self.inner.lemma_unread_len();
        }
        if self.end {
            let ghost bits = bits_of_bytes(self.inner.input());
            let ghost p = self.inner.bit_pos();
            let ghost k = (8 - p % 8) % 8;
            return match self.inner.align() {
                Ok(()) => {
                    proof {
                        assert forall|i: int| 0 <= i < k implies !#[trigger] bits[p + i] by {
                            assert(old(self).inner.unread()[i] == bits[p + i]);
                        }
                    }
                    None
                },
                Err(e) => {
                    proof {
                        let i = choose|i: int| 0 <= i < k && #[trigger] old(self).inner.unread()[i];
                        assert(bits[p + i]);
                    }
                    Some(Err(e))
                },
            };
        }

        self.end = match self.inner.read_bit() {
            Ok(end) => end,
            Err(e) => {
                return Some(Err(e));
            },
        };

        Some(read_block(&mut self.inner))
    }
}

/// Starts reading the blocks of a deflate stream.
pub fn parse_deflate(bytes: Vec<u8>) -> (r: BlockIter)
    requires
        bytes@.len() * 8 < usize::MAX,
    ensures
        r.wf(),
        r.input() == bytes@,
        r.position() == 0,
        !r.finished(),
{
    BlockIter { inner: BitReader::new(bytes), end: false }
}

} // verus!
