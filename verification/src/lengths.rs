use vstd::prelude::*;

use crate::code_tree::lemma_code_of_len;
use crate::code_tree::node_depth;
use crate::code_tree::CodeTree;
use crate::code_tree::Node;
use crate::huffman::dist_extra_bits;
use crate::huffman::encode_distance;
use crate::huffman::encode_run_length;
use crate::huffman::spec_run_symbol;
use crate::serialise::spec_dist_symbol;
use crate::serialise::lemma_dist_symbol;
use crate::spec_run;
use crate::valid_ref;
use crate::Code;
use crate::huffman::spec_run_extra;
use crate::parse::tree_nodes;
use crate::serialise::code_bits;

verus! {

/// How many bits the code of each of the 288 symbols takes; `None` for a symbol with no code.
pub open spec fn code_lengths(t: CodeTree) -> Seq<Option<u8>> {
    Seq::new(
        288,
        |s: int|
            match t.code(s as u16) {
                Some(c) => Some(c.len() as u8),
                None => None,
            },
    )
}

/// The sum of the lengths that are there.
pub open spec fn sum_present(s: Seq<Option<u8>>) -> nat
    decreases s.len(),
{
    if s.len() == 0 {
        0
    } else {
        sum_present(s.drop_last()) + match s.last() {
            Some(l) => l as nat,
            None => 0,
        }
    }
}

/// How many lengths are there.
pub open spec fn count_present(s: Seq<Option<u8>>) -> nat
    decreases s.len(),
{
    if s.len() == 0 {
        0
    } else {
        count_present(s.drop_last()) + if s.last() is Some {
            1nat
        } else {
            0
        }
    }
}

/// All lengths are at most 15.
pub open spec fn short_lengths(s: Seq<Option<u8>>) -> bool {
    forall|i: int| 0 <= i < s.len() ==> (#[trigger] s[i] matches Some(l) ==> l <= 15)
}

proof fn lemma_sums_bounded(s: Seq<Option<u8>>)
    requires
        short_lengths(s),
    ensures
        sum_present(s) <= 15 * s.len(),
        count_present(s) <= s.len(),
    decreases s.len(),
{
    if s.len() > 0 {
        assert(short_lengths(s.drop_last())) by {
            assert forall|i: int| 0 <= i < s.drop_last().len() implies (#[trigger] s.drop_last()[i] matches Some(l) ==> l
                <= 15) by {
                assert(s.drop_last()[i] == s[i]);
            }
        }
        lemma_sums_bounded(s.drop_last());
        assert(s.last() == s[s.len() - 1]);
    }
}

/// The length of each symbol's code, by symbol.
fn tree_to_lengths(tree: &CodeTree) -> (r: Vec<Option<u8>>)
    requires
        tree.wf(),
        forall|i: int| 0 <= i < tree.symbols().len() ==> tree.symbols()[i] < 288,
    ensures
        r@ == code_lengths(*tree),
        short_lengths(r@),
{
    let inverted = tree.invert();
    let mut out: Vec<Option<u8>> = Vec::new();
    let mut i: usize = 0;
    while i < inverted.len()
        invariant
            inverted@.len() == 288,
            i <= 288,
            tree.wf(),
            forall|s: int|
                0 <= s < 288 ==> match #[trigger] inverted@[s] {
                    Some(v) => v.wf() && v.clean() && tree.code(s as u16) == Some(v@),
                    None => tree.code(s as u16) is None,
                },
            out@ == code_lengths(*tree).take(i as int),
            short_lengths(out@),
        decreases 288 - i,
    {
        let l = match &inverted[i] {
            Some(v) => {
                proof {
                    let n = Node::Internal(Box::new(tree.left()), Box::new(tree.right()));
                    lemma_code_of_len(n, i as u16);
                    assert(node_depth(n) <= 15);
                }
                Some(v.len() as u8)
            },
            None => None,
        };
        out.push(l);
        i += 1;
        proof {
            assert(out@ =~= code_lengths(*tree).take(i as int));
        }
    }
    assert(code_lengths(*tree).take(288) =~= code_lengths(*tree));
    out
}

/// How long each code is written with a pair of trees.
pub struct Lengths {
    length: Vec<Option<u8>>,
    distance: Vec<Option<u8>>,
    pub mean_literal_len: u8,
}

/// How many bits a code takes: its symbol's code, and for a reference its distance
/// symbol's code and the distance's extra bits; `None` where a symbol has no code.
pub open spec fn spec_code_length(lengths: Seq<Option<u8>>, distances: Seq<Option<u8>>, code: Code) -> Option<u8> {
    match code {
        Code::Literal(b) => lengths[b as int],
        Code::Reference(r) => match lengths[spec_run_symbol(spec_run(r))] {
            None => None,
            Some(run_symbol_len) => {
                let ds = spec_dist_symbol(r.dist as int);
                match distances[ds] {
                    None => None,
                    Some(distance_symbol_len) => Some(
                        (run_symbol_len + distance_symbol_len + dist_extra_bits(ds)) as u8,
                    ),
                }
            },
        },
    }
}

impl Lengths {
    pub closed spec fn lengths(&self) -> Seq<Option<u8>> {
        self.length@
    }

    pub closed spec fn distances(&self) -> Seq<Option<u8>> {
        self.distance@
    }

    pub closed spec fn mean(&self) -> u8 {
        self.mean_literal_len
    }

    pub closed spec fn wf(&self) -> bool {
        &&& self.length@.len() == 288
        &&& self.distance@.len() == 288
        &&& short_lengths(self.length@)
        &&& short_lengths(self.distance@)
    }

    /// The code lengths of both trees, and the mean length of the literal and length
    /// codes, rounded up, counting one more code than there are.
    pub fn new(length_tree: &CodeTree, distance_tree: &CodeTree) -> (r: Self)
        requires
            length_tree.wf(),
            distance_tree.wf(),
            forall|i: int| 0 <= i < length_tree.symbols().len() ==> length_tree.symbols()[i] < 288,
            forall|i: int| 0 <= i < distance_tree.symbols().len() ==> distance_tree.symbols()[i] < 288,
        ensures
            r.wf(),
            r.lengths() == code_lengths(*length_tree),
            r.distances() == code_lengths(*distance_tree),
            r.mean() as nat == (sum_present(code_lengths(*length_tree)) + 1 + count_present(
                code_lengths(*length_tree),
            )) / (1 + count_present(code_lengths(*length_tree))),
    {
        let length = tree_to_lengths(length_tree);
        let mut all_lengths: usize = 0;
        let mut count: usize = 0;
        let mut i: usize = 0;
        proof {
            lemma_sums_bounded(length@);
        }
        while i < length.len()
            invariant
                length@.len() == 288,
                i <= 288,
                short_lengths(length@),
                all_lengths == sum_present(length@.take(i as int)),
                count == count_present(length@.take(i as int)),
                all_lengths <= 15 * count,
                count <= i,
            decreases 288 - i,
        {
            proof {
                assert(length@.take(i + 1).drop_last() =~= length@.take(i as int));
                assert(length@.take(i + 1).last() == length@[i as int]);
            }
            if let Some(l) = length[i] {
                all_lengths = all_lengths + l as usize;
                count = count + 1;
            }
            i += 1;
        }
        assert(length@.take(288) =~= length@);
        let populated_lengths = 1 + count;
        let mean = (all_lengths + populated_lengths) / populated_lengths;
        let a = all_lengths;
        let p = populated_lengths;
        assert((a as int + p as int) / (p as int) <= 16) by (nonlinear_arith)
            requires
                p >= 1,
                a <= 15 * (p - 1),
        ;
        Lengths { length, distance: tree_to_lengths(distance_tree), mean_literal_len: mean as u8 }
    }

    /// How many bits `code` takes, if both of its symbols have codes.
    pub fn length(&self, code: &Code) -> (r: Option<u8>)
        requires
            self.wf(),
            *code matches Code::Reference(rf) ==> valid_ref(rf),
        ensures
            r == spec_code_length(self.lengths(), self.distances(), *code),
    {
        match *code {
            Code::Literal(byte) => self.length[byte as usize],
            Code::Reference(r) => {
                let run = r.run();
                let run_symbol = encode_run_length(run);
                let run_symbol_len = match self.length[run_symbol as usize] {
                    Some(len) => len,
                    None => return None,
                };
                let (code, bit_count, val) = encode_distance(r.dist).unwrap();
                proof {
                    lemma_dist_symbol(r.dist as int);
                    let ds = spec_dist_symbol(r.dist as int);
                    crate::huffman::lemma_distance_symbol_unique(
                        code as int,
                        val as nat,
                        ds,
                        (r.dist - crate::huffman::dist_base(ds)) as nat,
                    );
                }
                let distance_symbol_len = match self.distance[code as usize] {
                    Some(len) => len,
                    None => return None,
                };
                Some(run_symbol_len + distance_symbol_len + bit_count)
            },
        }
    }
}

/// The bits of a run-length symbol's extra field.
pub open spec fn run_extra_bits(c: Code) -> nat {
    match c {
        Code::Literal(_) => 0,
        Code::Reference(r) => match spec_run_extra(spec_run(r)) {
            Some((n, _)) => n as nat,
            None => 0,
        },
    }
}

/// The length counted for a code is how many bits it is written as with the same trees,
/// leaving out the extra bits of a run-length symbol: for a literal, exactly its bits.
pub proof fn lemma_length_counts_written_bits(lit: CodeTree, dist: CodeTree, code: Code)
    requires
        lit.wf(),
        dist.wf(),
        code matches Code::Reference(r) ==> valid_ref(r),
        code_bits(tree_nodes(lit), Some(tree_nodes(dist)), code) matches Some(Ok(_)),
    ensures
        spec_code_length(code_lengths(lit), code_lengths(dist), code) == Some(
            (code_bits(tree_nodes(lit), Some(tree_nodes(dist)), code)->Some_0->Ok_0.len()
                - run_extra_bits(code)) as u8,
        ),
{
    let ln = Node::Internal(Box::new(lit.left()), Box::new(lit.right()));
    let dn = Node::Internal(Box::new(dist.left()), Box::new(dist.right()));
    assert(tree_nodes(lit) == (lit.left(), lit.right()));
    assert(tree_nodes(dist) == (dist.left(), dist.right()));
    match code {
        Code::Literal(b) => {
            lemma_code_of_len(ln, b as u16);
            assert(code_lengths(lit)[b as int] == Some(lit.code(b as u16)->Some_0.len() as u8));
        },
        Code::Reference(r) => {
            lemma_dist_symbol(r.dist as int);
            let run = spec_run(r);
            let rs = spec_run_symbol(run);
            assert(0 <= rs < 288) by {
                assert(3 <= run <= 258);
            }
            let ds = spec_dist_symbol(r.dist as int);
            lemma_code_of_len(ln, rs as u16);
            lemma_code_of_len(dn, ds as u16);
            let run_bits = lit.code(rs as u16)->Some_0;
            let dist_bits = dist.code(ds as u16)->Some_0;
            assert(code_lengths(lit)[rs] == Some(run_bits.len() as u8));
            assert(code_lengths(dist)[ds] == Some(dist_bits.len() as u8));
            assert(dist_extra_bits(ds) <= 13);
        },
    }
}

} // verus!

