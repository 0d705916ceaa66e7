use vstd::prelude::*;

pub mod errors;
pub mod bit;
pub mod huffman;
pub mod circles;
pub mod serialise;
pub mod code_tree;
pub mod parse;
pub mod round_trip;
pub mod iters;
pub mod picker;
pub mod lookahead;
pub mod three;
pub mod infer;
pub mod obscure;
pub mod gzip;
pub mod trace;
pub mod all_refs;
pub mod bestguess;
pub mod bad_table;
pub mod emulate;
pub mod technique;
pub mod lengths;
pub mod encode;
pub mod zero;
pub mod seen;
pub mod decodes;
pub mod serialise_trace;
pub mod sixteen;
pub mod back_map;
pub mod sixteen_refs;

pub use errors::Error;
use bit::BitVec;

verus! {

/// A back-reference: copy `run` bytes starting `dist` bytes back.
#[derive(Clone, Copy, Debug, PartialEq, Eq, Structural)]
pub struct Ref {
    pub dist: u16,
    pub run_minus_3: u8,
}

/// One deflate symbol: a literal byte, or a back-reference.
#[derive(Clone, Copy, Debug, PartialEq, Eq, Structural)]
pub enum Code {
    Literal(u8),
    Reference(Ref),
}

/// One deflate block, as it was stored.
#[derive(Clone, Debug, PartialEq, Eq)]
pub enum Block {
    Uncompressed(Vec<u8>),
    FixedHuffman(Vec<Code>),
    DynamicHuffman { trees: BitVec, codes: Vec<Code> },
}

/// What a block holds, as values: the stored bytes; the codes of a block with the fixed
/// trees; or the bits that describe the trees of a dynamic block, and its codes.
pub enum BlockView {
    Stored(Seq<u8>),
    Fixed(Seq<Code>),
    Dynamic(Seq<bool>, Seq<Code>),
}

impl View for Block {
    type V = BlockView;

    open spec fn view(&self) -> BlockView {
        match self {
            Block::Uncompressed(data) => BlockView::Stored(data@),
            Block::FixedHuffman(codes) => BlockView::Fixed(codes@),
            Block::DynamicHuffman { trees, codes } => BlockView::Dynamic(trees@, codes@),
        }
    }
}

/// The parameters of an encoder that can be recovered from its output.
#[derive(Clone, Copy, Debug, PartialEq, Eq, Structural)]
pub struct WindowSettings {
    pub window_size: u16,
    /// gzip will mis-encode "aaaaaa" as "aa{ref one back}": it never refers to the
    /// very first byte of the stream.
    pub first_byte_bug: bool,
}

/// How well a guess matched: right, or what it should have been.
#[derive(Clone, Copy, Debug, PartialEq, Eq, Structural)]
pub enum Trace {
    Correct,
    Actual(Code),
}

/// The run length that a reference describes.
pub open spec fn spec_run(r: Ref) -> int {
    r.run_minus_3 as int + 3
}

/// How many bytes a code stands for.
pub open spec fn spec_emitted(c: Code) -> int {
    match c {
        Code::Literal(_) => 1,
        Code::Reference(r) => spec_run(r),
    }
}

/// A reference that a deflate stream can hold.
pub open spec fn valid_ref(r: Ref) -> bool {
    1 <= r.dist <= 32768
}

/// All the references are ones that a deflate stream can hold.
pub open spec fn valid_codes(codes: Seq<Code>) -> bool {
    forall|i: int| 0 <= i < codes.len() ==> (#[trigger] codes[i] matches Code::Reference(r) ==> valid_ref(r))
}

impl Ref {
    pub fn new(dist: u16, run: u16) -> (r: Self)
        requires
            3 <= run <= 258,
            1 <= dist <= 32768,
        ensures
            r.dist == dist,
            spec_run(r) == run,
    {
        let run_minus_3 = (run - 3) as u8;
        Ref { dist, run_minus_3 }
    }

    pub fn run(&self) -> (r: u16)
        ensures
            r == spec_run(*self),
            3 <= r <= 258,
    {
        self.run_minus_3 as u16 + 3
    }
}

impl Code {
    pub fn emitted_bytes(&self) -> (r: u16)
        ensures
            r == spec_emitted(*self),
            1 <= r <= 258,
    {
        match *self {
            Code::Literal(_) => 1,
            Code::Reference(r) => r.run(),
        }
    }
}

impl From<Ref> for Code {
    fn from(r: Ref) -> (c: Self) {
        Code::Reference(r)
    }
}

impl vstd::std_specs::convert::FromSpecImpl<Ref> for Code {
    open spec fn obeys_from_spec() -> bool {
        true
    }

    open spec fn from_spec(v: Ref) -> Self {
        Code::Reference(v)
    }
}

/// Converts a length that is known to fit into a `u16`.
pub fn u16_from(val: usize) -> (r: u16)
    requires
        val <= u16::MAX,
    ensures
        r == val,
{
    val as u16
}

/// Widens a `u16`.
pub fn usize_from(val: u16) -> (r: usize)
    ensures
        r == val,
{
    val as usize
}

} // verus!
