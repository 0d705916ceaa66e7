use vstd::prelude::*;

use crate::bit::bits_of_bytes;
use crate::bit::lemma_bits_of_bytes_injective;
use crate::bit::lemma_reader_source;
use crate::bit::BitReader;
use crate::bit::BitSource;
use crate::bit::BitVec;
use crate::circles::keep_last;
use crate::circles::lz_copy;
use crate::circles::CircularBuffer;
use crate::code_tree::lemma_decode_bits_len;
use crate::code_tree::CodeTree;
use crate::code_tree::Node;
use crate::errors::Error;
use crate::huffman::decode_distance;
use crate::huffman::decode_run_length;
use crate::parse::lemma_scan_step_advances;
use crate::parse::scan_step;
use crate::parse::tree_nodes;
use crate::parse::Step;
use crate::spec_run;
use crate::Code;
use crate::Ref;

verus! {

/// One back-reference of a block: how many literals came before it (since the previous
/// reference), the bits its length and distance were written as, and what it copies.
pub struct SeenDistanceSymbol {
    pub literals: usize,
    pub symbol: BitVec,
    pub dist: u32,
    pub run_minus_3: u8,
}

/// The back-references of a block, and how many literals came after the last of them.
pub struct SeenDistanceSymbols {
    pub stream: Vec<SeenDistanceSymbol>,
    pub trailing_literals: usize,
}

/// A seen reference as values: literals before it, its bits, distance, run less three.
pub open spec fn seen_view(s: SeenDistanceSymbol) -> (nat, Seq<bool>, u32, u8) {
    (s.literals as nat, s.symbol@, s.dist, s.run_minus_3)
}

/// Reads a block body from bit `pos` of `bits`, decoding into a window that holds `window`
/// and keeps the last `cap` bytes. `literals` counts the literals since the last reference,
/// `stream` holds the references seen, and `out` the bytes written so far. The result: the
/// references, the literals after the last one, all the bytes written, the window, and the
/// position after the end-of-block symbol.
pub open spec fn seen_scan(
    lit: (Node, Node),
    dist: Option<(Node, Node)>,
    bits: Seq<bool>,
    pos: nat,
    window: Seq<u8>,
    cap: nat,
    literals: nat,
    stream: Seq<(nat, Seq<bool>, u32, u8)>,
    out: Seq<u8>,
) -> Result<(Seq<(nat, Seq<bool>, u32, u8)>, nat, Seq<u8>, Seq<u8>, nat), Error>
    decreases bits.len() - pos,
{
    proof {
        lemma_scan_step_advances(lit, dist, bits, pos);
    }
    match scan_step(lit, dist, bits, pos) {
        Step::End(p) => Ok((stream, literals, out, window, p)),
        Step::Fail(e) => Err(e),
        Step::Next(Code::Literal(b), p) => seen_scan(
            lit,
            dist,
            bits,
            p,
            keep_last(window.push(b), cap),
            cap,
            literals + 1,
            stream,
            out.push(b),
        ),
        Step::Next(Code::Reference(r), p) => if 0 < r.dist <= window.len() {
            let o = lz_copy(window, r.dist as nat, spec_run(r) as nat);
            seen_scan(
                lit,
                dist,
                bits,
                p,
                keep_last(window + o, cap),
                cap,
                0,
                stream.push((literals, bits.subrange(pos as int, p as int), r.dist as u32, r.run_minus_3)),
                out + o,
            )
        } else {
            Err(Error::DistanceOutOfRange)
        },
    }
}

/// Decodes a block body into `output` and the dictionary, recording each back-reference:
/// the literals before it, the bits it was written as, and what it copies.
#[verifier::spinoff_prover]
#[verifier::rlimit(50)]
pub fn read_data(
    reader: &mut BitReader,
    output: &mut Vec<u8>,
    dictionary: &mut CircularBuffer,
    length: &CodeTree,
    distance: Option<&CodeTree>,
) -> (r: Result<SeenDistanceSymbols, Error>)
    requires
        old(reader).wf(),
        old(reader).recorded() is None,
        old(dictionary).wf(),
    ensures
        final(reader).wf(),
        final(reader).input() == old(reader).input(),
        final(dictionary).wf(),
        final(dictionary).cap() == old(dictionary).cap(),
        match seen_scan(
            tree_nodes(*length),
            match distance {
                Some(t) => Some(tree_nodes(*t)),
                None => None,
            },
            bits_of_bytes(old(reader).input()),
            old(reader).bit_pos(),
            old(dictionary).window(),
            old(dictionary).cap(),
            0,
            Seq::empty(),
            Seq::empty(),
        ) {
            Ok((stream, trailing, out, window, end)) => r matches Ok(seen) && {
                &&& seen.stream@.map_values(|s: SeenDistanceSymbol| seen_view(s)) == stream
                &&& seen.trailing_literals == trailing
                &&& final(output)@ == old(output)@ + out
                &&& final(dictionary).window() == window
                &&& final(reader).bit_pos() == end
                &&& final(reader).recorded() is None
            },
            Err(e) => r == Err::<SeenDistanceSymbols, Error>(e),
        },
{
    let ghost input = reader.input();
    let ghost bits = bits_of_bytes(input);
    let ghost lit = tree_nodes(*length);
    let ghost dist = match distance {
        Some(t) => Some(tree_nodes(*t)),
        None => None,
    };
    let ghost cap = dictionary.cap();
    let ghost out0 = output@;
    let ghost total = seen_scan(lit, dist, bits, reader.bit_pos(), dictionary.window(), cap, 0, Seq::empty(), Seq::empty());
    let mut distance_symbols: Vec<SeenDistanceSymbol> = Vec::new();
    let mut literals: usize = 0;
    let ghost mut acc: Seq<u8> = Seq::empty();
    let ghost mut views: Seq<(nat, Seq<bool>, u32, u8)> = Seq::empty();
    proof {
        assert(distance_symbols@.map_values(|s: SeenDistanceSymbol| seen_view(s)) =~= views);
        assert(output@ =~= out0 + acc);
        reader.lemma_unread_len();
    }
    loop
        invariant
            reader.wf(),
            reader.input() == input,
            input == old(reader).input(),
            reader.recorded() is None,
            bits == bits_of_bytes(input),
            lit == tree_nodes(*length),
            dist == match distance {
                Some(t) => Some(tree_nodes(*t)),
                None => None::<(Node, Node)>,
            },
            dictionary.wf(),
            dictionary.cap() == cap,
            cap == old(dictionary).cap(),
            literals <= reader.bit_pos(),
            reader.bit_pos() <= bits.len(),
            bits.len() < usize::MAX,
            total == seen_scan(lit, dist, bits, old(reader).bit_pos(), old(dictionary).window(), cap, 0, Seq::empty(), Seq::empty()),
            out0 == old(output)@,
            output@ == out0 + acc,
            views == distance_symbols@.map_values(|s: SeenDistanceSymbol| seen_view(s)),
            seen_scan(lit, dist, bits, reader.bit_pos(), dictionary.window(), cap, literals as nat, views, acc) == total,
        decreases bits.len() - reader.bit_pos(),
    {
        proof {
            reader.lemma_unread_len();
        }
        let ghost pos = reader.bit_pos();
        let ghost w = dictionary.window();
        reader.tracking_start();
        proof {
            lemma_reader_source(reader);
        }
        let res = length.decode_symbol(reader);
        proof {
            lemma_bits_of_bytes_injective(reader.input(), input);
            lemma_decode_bits_len(lit.0, lit.1, bits.skip(pos as int));
            lemma_scan_step_advances(lit, dist, bits, pos);
        }
        let sym = match res {
            Ok(sym) => sym,
            Err(e) => {
                reader.tracking_abort();
                return Err(e);
            },
        };

        if sym == 256 {
            reader.tracking_abort();
            let seen = SeenDistanceSymbols { stream: distance_symbols, trailing_literals: literals };
            return Ok(seen);
        }

        if sym < 256 {
            let b = sym as u8;
            output.push(b);
            dictionary.push(b);
            literals += 1;
            reader.tracking_abort();
            proof {
                acc = acc.push(b);
                assert(output@ =~= out0 + acc);
                assert(scan_step(lit, dist, bits, pos) == Step::Next(Code::Literal(b), reader.bit_pos()));
            }
            continue;
        }

        let res = decode_run_length(reader, sym);
        proof {
            lemma_bits_of_bytes_injective(reader.input(), input);
        }
        let run = match res {
            Ok(run) => run,
            Err(e) => {
                reader.tracking_abort();
                return Err(e);
            },
        };

        let dist_sym = match distance {
            Some(dist_code) => {
                let ghost p2 = reader.bit_pos();
                let res = dist_code.decode_symbol(reader);
                proof {
                    lemma_bits_of_bytes_injective(reader.input(), input);
                    lemma_decode_bits_len(dist_code.left(), dist_code.right(), bits.skip(p2 as int));
                }
                match res {
                    Ok(s) => s,
                    Err(e) => {
                        reader.tracking_abort();
                        return Err(e);
                    },
                }
            },
            None => {
                reader.tracking_abort();
                return Err(Error::NoDistanceTable);
            },
        };

        let res = decode_distance(reader, dist_sym);
        proof {
            lemma_bits_of_bytes_injective(reader.input(), input);
        }
        let d = match res {
            Ok(d) => d,
            Err(e) => {
                reader.tracking_abort();
                return Err(e);
            },
        };

        proof {
            lemma_reader_source(reader);
        }
        let symbol = reader.tracking_finish();
        let seen = SeenDistanceSymbol { literals, symbol, run_minus_3: (run - 3) as u8, dist: d as u32 };
        proof {
            views = views.push(seen_view(seen));
        }
        distance_symbols.push(seen);
        proof {
            assert(distance_symbols@.map_values(|s: SeenDistanceSymbol| seen_view(s)) =~= views);
        }
        literals = 0;

        if !(d >= 1 && d <= 32786) {
            return Err(Error::InvalidDistance);
        }
        let ghost before = output@;
        match dictionary.copy(d, run, output) {
            Ok(()) => {},
            Err(e) => {
                return Err(e);
            },
        }
        proof {
            let o = lz_copy(w, d as nat, run as nat);
            acc = acc + o;
            assert(output@ =~= out0 + acc);
        }
    }
}

} // verus!
