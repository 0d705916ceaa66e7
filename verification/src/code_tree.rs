use vstd::prelude::*;

use crate::bit::remaining;
use crate::bit::BitSource;
use crate::bit::BitVec;
use crate::errors::Error;

verus! {

/// A node of a prefix-code tree: a symbol, or a choice between two subtrees (bit 0 left).
#[derive(Debug)]
pub enum Node {
    Leaf(u16),
    Internal(Box<Node>, Box<Node>),
}

/// A prefix-code tree; the first bit read picks `left` (0) or `right` (1).
#[derive(Debug)]
pub struct CodeTree {
    left: Node,
    right: Node,
}

pub open spec fn node_size(n: Node) -> nat
    decreases n,
{
    match n {
        Node::Leaf(_) => 1,
        Node::Internal(l, r) => 1 + node_size(*l) + node_size(*r),
    }
}

/// The symbols at the leaves, left to right.
pub open spec fn leaf_list(n: Node) -> Seq<u16>
    decreases n,
{
    match n {
        Node::Leaf(s) => seq![s],
        Node::Internal(l, r) => leaf_list(*l) + leaf_list(*r),
    }
}

/// The symbols at the leaves of each node in turn.
pub open spec fn leaf_list_seq(nodes: Seq<Node>) -> Seq<u16>
    decreases nodes.len(),
{
    if nodes.len() == 0 {
        Seq::empty()
    } else {
        leaf_list_seq(nodes.drop_last()) + leaf_list(nodes.last())
    }
}

/// The bits leading from `n` down to the leaf for `s`, if there is one.
pub open spec fn code_of(n: Node, s: u16) -> Option<Seq<bool>>
    decreases n,
{
    match n {
        Node::Leaf(x) => if x == s {
            Some(Seq::empty())
        } else {
            None
        },
        Node::Internal(l, r) => match code_of(*l, s) {
            Some(c) => Some(seq![false] + c),
            None => match code_of(*r, s) {
                Some(c) => Some(seq![true] + c),
                None => None,
            },
        },
    }
}

/// Reads a symbol off the front of `bits`, starting below a choice between `left` and
/// `right`: the symbol and how many bits it took, or `None` if the bits run out first.
pub open spec fn decode_bits(left: Node, right: Node, bits: Seq<bool>) -> Option<(u16, nat)>
    decreases node_size(left) + node_size(right),
{
    if bits.len() == 0 {
        None
    } else {
        let n = if bits[0] {
            right
        } else {
            left
        };
        match n {
            Node::Leaf(s) => Some((s, 1nat)),
            Node::Internal(l, r) => match decode_bits(*l, *r, bits.drop_first()) {
                Some((s, k)) => Some((s, k + 1)),
                None => None,
            },
        }
    }
}

/// The leaves for the symbols among the first `m` whose code length is `len`, in order.
pub open spec fn leaves_of_length(lengths: Seq<u8>, len: int, m: int) -> Seq<Node>
    decreases m,
{
    if m <= 0 {
        Seq::empty()
    } else {
        let prev = leaves_of_length(lengths, len, m - 1);
        if lengths[m - 1] == len {
            prev.push(Node::Leaf((m - 1) as u16))
        } else {
            prev
        }
    }
}

/// Joins neighbouring nodes two by two.
pub open spec fn pair_up(nodes: Seq<Node>) -> Seq<Node> {
    Seq::new(
        nodes.len() / 2,
        |k: int| Node::Internal(Box::new(nodes[2 * k]), Box::new(nodes[2 * k + 1])),
    )
}

/// The nodes of a canonical tree at depth `i` from the bottom, built from the longest codes
/// up: the leaves whose length is `i`, then the nodes of the level below joined in pairs.
pub open spec fn tree_levels(lengths: Seq<u8>, i: int) -> Result<Seq<Node>, Error>
    decreases 16 - i,
{
    if i >= 16 {
        Ok(Seq::empty())
    } else {
        match tree_levels(lengths, i + 1) {
            Err(e) => Err(e),
            Ok(prev) => if prev.len() % 2 != 0 {
                Err(Error::NotATree)
            } else {
                Ok(
                    (if i > 0 {
                        leaves_of_length(lengths, i, lengths.len() as int)
                    } else {
                        Seq::empty()
                    }) + pair_up(prev),
                )
            },
        }
    }
}

/// The canonical code tree for the given code lengths, as (left, right).
pub open spec fn spec_code_tree(lengths: Seq<u8>) -> Result<(Node, Node), Error> {
    if lengths.len() < 2 {
        Err(Error::TooFewLengths)
    } else if lengths.len() > u32::MAX {
        Err(Error::TooManyLengths)
    } else {
        match tree_levels(lengths, 0) {
            Err(e) => Err(e),
            Ok(nodes) => if nodes.len() != 1 {
                Err(Error::NonCanonicalCode)
            } else {
                match nodes[0] {
                    Node::Internal(l, r) => Ok((*l, *r)),
                    Node::Leaf(_) => Err(Error::NonCanonicalCode),
                }
            },
        }
    }
}

impl CodeTree {
    pub closed spec fn left(&self) -> Node {
        self.left
    }

    pub closed spec fn right(&self) -> Node {
        self.right
    }

    /// The symbols of the tree, left to right.
    pub open spec fn symbols(&self) -> Seq<u16> {
        leaf_list(self.left()) + leaf_list(self.right())
    }

    /// No symbol appears twice, and no code is longer than 15 bits.
    pub open spec fn wf(&self) -> bool {
        &&& self.symbols().no_duplicates()
        &&& node_depth(self.left()) < 15
        &&& node_depth(self.right()) < 15
    }

    /// The code of symbol `s`, if it has one.
    pub open spec fn code(&self, s: u16) -> Option<Seq<bool>> {
        code_of(Node::Internal(Box::new(self.left()), Box::new(self.right())), s)
    }

    /// Reads a symbol off the front of `bits`.
    pub open spec fn decode(&self, bits: Seq<bool>) -> Option<(u16, nat)> {
        decode_bits(self.left(), self.right(), bits)
    }
}


impl CodeTree {
    pub fn new(canonical_code_lengths: &[u8]) -> (r: Result<Self, Error>)
        requires
            forall|p: int|
                65536 <= p < canonical_code_lengths@.len() ==> !(1 <= #[trigger] canonical_code_lengths@[p] <= 15),
        ensures
            r is Ok <==> spec_code_tree(canonical_code_lengths@) is Ok,
            r matches Ok(t) ==> spec_code_tree(canonical_code_lengths@) == Ok::<(Node, Node), Error>(
                (t.left(), t.right()),
            ),
            r matches Err(e) ==> spec_code_tree(canonical_code_lengths@) == Err::<(Node, Node), Error>(e),
            r matches Ok(t) ==> {
                &&& t.wf()
                &&& forall|j: int|
                    0 <= j < t.symbols().len() ==> #[trigger] t.symbols()[j] < canonical_code_lengths@.len()
                        && 1 <= canonical_code_lengths@[t.symbols()[j] as int] <= 15
            },
    {
        let lengths = canonical_code_lengths;
        if lengths.len() < 2 {
            return Err(Error::TooFewLengths);
        }
        if lengths.len() > u32::MAX as usize {
            return Err(Error::TooManyLengths);
        }

        let mut nodes: Vec<Node> = Vec::new();
        let mut i: u8 = 16;
        while i > 0
            invariant
                i <= 16,
                lengths@ == canonical_code_lengths@,
                2 <= lengths@.len() <= u32::MAX,
                forall|p: int| 65536 <= p < lengths@.len() ==> !(1 <= #[trigger] lengths@[p] <= 15),
                tree_levels(lengths@, i as int) == Ok::<Seq<Node>, Error>(nodes@),
            decreases i,
        {
            i -= 1;
            if nodes.len() % 2 != 0 {
                proof {
                    assert(tree_levels(lengths@, i + 1) == Ok::<Seq<Node>, Error>(nodes@));
                    assert(tree_levels(lengths@, i as int) == Err::<Seq<Node>, Error>(Error::NotATree));
                    lemma_tree_levels_err(lengths@, i as int, 0);
                }
                return Err(Error::NotATree);
            }
            let ghost prev = nodes@;
            let mut new_nodes: Vec<Node> = Vec::new();
            if i > 0 {
                let mut pos: usize = 0;
                while pos < lengths.len()
                    invariant
                        0 < i < 16,
                        pos <= lengths@.len(),
                        lengths@.len() <= u32::MAX,
                        forall|p: int| 65536 <= p < lengths@.len() ==> !(1 <= #[trigger] lengths@[p] <= 15),
                        new_nodes@ == leaves_of_length(lengths@, i as int, pos as int),
                    decreases lengths@.len() - pos,
                {
                    if lengths[pos] == i {
                        new_nodes.push(Node::Leaf(pos as u16));
                    }
                    pos += 1;
                }
            }
            let ghost leaves = new_nodes@;
            let mut k: usize = 0;
            while nodes.len() > 0
                invariant
                    prev.len() % 2 == 0,
                    prev.len() <= usize::MAX,
                    2 * k <= prev.len(),
                    nodes@ == prev.skip(2 * k),
                    new_nodes@ == leaves + pair_up(prev).take(k as int),
                decreases nodes@.len(),
            {
                let a = nodes.remove(0);
                let b = nodes.remove(0);
                new_nodes.push(Node::Internal(Box::new(a), Box::new(b)));
                proof {
                    assert(pair_up(prev).take(k + 1) =~= pair_up(prev).take(k as int).push(
                        Node::Internal(Box::new(prev[2 * k as int]), Box::new(prev[2 * k + 1])),
                    ));
                    assert(nodes@ =~= prev.skip(2 * (k + 1)));
                }
                k += 1;
            }
            proof {
                assert(pair_up(prev).take(k as int) =~= pair_up(prev));
            }
            nodes = new_nodes;
        }

        if nodes.len() != 1 {
            return Err(Error::NonCanonicalCode);
        }

        proof {
            lemma_tree_levels_ok(lengths@, 0);
            let root = nodes@[0];
            assert(nodes@.drop_last() =~= Seq::<Node>::empty());
            assert(leaf_list_seq(nodes@) == leaf_list_seq(nodes@.drop_last()) + leaf_list(root));
            assert(leaf_list_seq(nodes@) =~= leaf_list(root));
            assert(node_depth(root) <= 15);
        }
        match nodes.pop().unwrap() {
            Node::Internal(left, right) => Ok(CodeTree { left: *left, right: *right }),
            Node::Leaf(_) => Err(Error::NonCanonicalCode),
        }
    }

    /// Reads bits until they spell out a symbol.
    pub fn decode_symbol<B: BitSource>(&self, reader: &mut B) -> (r: Result<u16, Error>)
        requires
            old(reader).inv(),
            old(reader).errors_at_end() || self.decode(remaining(old(reader))) is Some,
        ensures
            final(reader).inv(),
            final(reader).all_bits() == old(reader).all_bits(),
            final(reader).errors_at_end() == old(reader).errors_at_end(),
            final(reader).mark() == old(reader).mark(),
            match self.decode(remaining(old(reader))) {
                Some((s, k)) => r == Ok::<u16, Error>(s) && final(reader).consumed() == old(reader).consumed() + k,
                None => r == Err::<u16, Error>(Error::UnexpectedEof) && final(reader).consumed() == old(
                    reader,
                ).all_bits().len(),
            },
    {
        decode_symbol_impl(reader, &self.left, &self.right)
    }

    /// The code of every symbol below 288, by symbol.
    pub fn invert(&self) -> (r: Vec<Option<BitVec>>)
        requires
            self.wf(),
            forall|i: int| 0 <= i < self.symbols().len() ==> self.symbols()[i] < 288,
        ensures
            r@.len() == 288,
            forall|s: int|
                0 <= s < 288 ==> match #[trigger] r@[s] {
                    Some(v) => v.wf() && v.clean() && self.code(s as u16) == Some(v@),
                    None => self.code(s as u16) is None,
                },
    {
        let mut into: Vec<Option<BitVec>> = Vec::new();
        let mut i: usize = 0;
        while i < 288
            invariant
                i <= 288,
                into@.len() == i,
                forall|s: int| 0 <= s < i ==> #[trigger] into@[s] is None,
            decreases 288 - i,
        {
            into.push(None);
            i += 1;
        }
        proof {
            lemma_code_of_internal(self.left, self.right);
        }
        let ghost l = self.left;
        let ghost r = self.right;
        let ghost ll = leaf_list(l);
        let ghost lr = leaf_list(r);
        proof {
            assert forall|i: int| 0 <= i < ll.len() implies ll[i] == self.symbols()[i] by {}
            assert forall|i: int| 0 <= i < lr.len() implies lr[i] == self.symbols()[ll.len() + i] by {}
            assert(ll.no_duplicates()) by {
                assert forall|i: int, j: int| 0 <= i < ll.len() && 0 <= j < ll.len() && i != j implies ll[i] != ll[j] by {
                    assert(self.symbols()[i] != self.symbols()[j]);
                }
            }
            assert(lr.no_duplicates()) by {
                assert forall|i: int, j: int| 0 <= i < lr.len() && 0 <= j < lr.len() && i != j implies lr[i] != lr[j] by {
                    assert(self.symbols()[ll.len() + i] != self.symbols()[ll.len() + j]);
                }
            }
        }
        let pl = plus_bit(&BitVec::new(), false);
        let pr = plus_bit(&BitVec::new(), true);
        store_code(&mut into, pl, &self.left);
        proof {
            assert forall|i: int| 0 <= i < lr.len() implies into@[lr[i] as int] is None by {
                let sy = lr[i];
                lemma_code_of_leaves(l, sy);
                if ll.contains(sy) {
                    let j = choose|j: int| 0 <= j < ll.len() && ll[j] == sy;
                    assert(self.symbols()[j] == self.symbols()[ll.len() + i]);
                }
                assert(code_of(l, (sy as int) as u16) is None);
            }
        }
        store_code(&mut into, pr, &self.right);
        proof {
            assert forall|s: int| 0 <= s < 288 implies match #[trigger] into@[s] {
                Some(v) => v.wf() && v.clean() && self.code(s as u16) == Some(v@),
                None => self.code(s as u16) is None,
            } by {
                let su = s as u16;
                lemma_code_of_leaves(l, su);
                lemma_code_of_leaves(r, su);
                match code_of(l, su) {
                    Some(c) => {
                        if lr.contains(su) {
                            let j = choose|j: int| 0 <= j < lr.len() && lr[j] == su;
                            let k = choose|k: int| 0 <= k < ll.len() && ll[k] == su;
                            assert(self.symbols()[k] == self.symbols()[ll.len() + j]);
                        }
                        assert(code_of(r, su) is None);
                        assert(seq![false] + c =~= Seq::<bool>::empty().push(false) + c);
                    },
                    None => {
                        match code_of(r, su) {
                            Some(c) => {
                                assert(seq![true] + c =~= Seq::<bool>::empty().push(true) + c);
                            },
                            None => {},
                        }
                    },
                }
            }
        }
        into
    }
}

fn decode_symbol_impl<B: BitSource>(reader: &mut B, left: &Node, right: &Node) -> (r: Result<u16, Error>)
    requires
        old(reader).inv(),
        old(reader).errors_at_end() || decode_bits(*left, *right, remaining(old(reader))) is Some,
    ensures
        final(reader).inv(),
        final(reader).all_bits() == old(reader).all_bits(),
        final(reader).errors_at_end() == old(reader).errors_at_end(),
        final(reader).mark() == old(reader).mark(),
        match decode_bits(*left, *right, remaining(old(reader))) {
            Some((s, k)) => r == Ok::<u16, Error>(s) && final(reader).consumed() == old(reader).consumed() + k,
            None => r == Err::<u16, Error>(Error::UnexpectedEof) && final(reader).consumed() == old(
                reader,
            ).all_bits().len(),
        },
    decreases node_size(*left) + node_size(*right),
{
    proof {
        reader.lemma_inv();
    }
    let bit = reader.read_bit()?;
    proof {
        reader.lemma_inv();
        assert(remaining(reader) =~= remaining(old(reader)).drop_first());
    }
    let node = if bit {
        right
    } else {
        left
    };
    match node {
        Node::Leaf(sym) => Ok(*sym),
        Node::Internal(new_left, new_right) => decode_symbol_impl(reader, new_left, new_right),
    }
}

/// The code of the symbols under an internal node.
pub proof fn lemma_code_of_internal(l: Node, r: Node)
    ensures
        forall|s: u16|
            #![trigger code_of(Node::Internal(Box::new(l), Box::new(r)), s)]
            code_of(Node::Internal(Box::new(l), Box::new(r)), s) == match code_of(l, s) {
                Some(c) => Some(seq![false] + c),
                None => match code_of(r, s) {
                    Some(c) => Some(seq![true] + c),
                    None => None,
                },
            },
{
}

/// A code is no longer than the tree is deep.
pub proof fn lemma_code_of_len(n: Node, s: u16)
    ensures
        code_of(n, s) matches Some(c) ==> c.len() <= node_depth(n),
    decreases n,
{
    if let Node::Internal(l, r) = n {
        lemma_code_of_len(*l, s);
        lemma_code_of_len(*r, s);
    }
}

/// A symbol has a code exactly when it is one of the leaves.
pub proof fn lemma_code_of_leaves(n: Node, s: u16)
    ensures
        code_of(n, s) is Some <==> leaf_list(n).contains(s),
    decreases n,
{
    match n {
        Node::Leaf(x) => {
            if x == s {
                assert(leaf_list(n)[0] == s);
            }
        },
        Node::Internal(l, r) => {
            lemma_code_of_leaves(*l, s);
            lemma_code_of_leaves(*r, s);
            if leaf_list(*l).contains(s) {
                let i = choose|i: int| 0 <= i < leaf_list(*l).len() && leaf_list(*l)[i] == s;
                assert(leaf_list(n)[i] == s);
            }
            if leaf_list(*r).contains(s) {
                let i = choose|i: int| 0 <= i < leaf_list(*r).len() && leaf_list(*r)[i] == s;
                assert(leaf_list(n)[leaf_list(*l).len() + i] == s);
            }
            if leaf_list(n).contains(s) {
                let i = choose|i: int| 0 <= i < leaf_list(n).len() && leaf_list(n)[i] == s;
                if i < leaf_list(*l).len() {
                    assert(leaf_list(*l)[i] == s);
                } else {
                    assert(leaf_list(*r)[i - leaf_list(*l).len()] == s);
                }
            }
        },
    }
}

/// Stores the code of every leaf below `node`, whose code starts with `prefix`.
fn store_code(into: &mut Vec<Option<BitVec>>, prefix: BitVec, node: &Node)
    requires
        prefix.wf(),
        prefix.clean(),
        prefix@.len() + node_depth(*node) < 65536,
        old(into)@.len() <= 65536,
        leaf_list(*node).no_duplicates(),
        forall|i: int| 0 <= i < leaf_list(*node).len() ==> leaf_list(*node)[i] < old(into)@.len(),
        forall|i: int| 0 <= i < leaf_list(*node).len() ==> old(into)@[leaf_list(*node)[i] as int] is None,
    ensures
        final(into)@.len() == old(into)@.len(),
        forall|s: int|
            0 <= s < old(into)@.len() ==> match code_of(*node, s as u16) {
                Some(c) => #[trigger] final(into)@[s] matches Some(v) && v.wf() && v.clean() && v@ == prefix@ + c,
                None => final(into)@[s] == old(into)@[s],
            },
    decreases node,
{
    match node {
        Node::Leaf(sym) => {
            proof {
                assert(leaf_list(*node)[0] == *sym);
            }
            let ghost v = prefix@;
            into.set(*sym as usize, Some(prefix));
            proof {
                assert forall|s: int| 0 <= s < old(into)@.len() implies match code_of(*node, s as u16) {
                    Some(c) => #[trigger] into@[s] matches Some(w) && w.wf() && w.clean() && w@ == v + c,
                    None => into@[s] == old(into)@[s],
                } by {
                    if s == *sym as int {
                        assert(v + Seq::<bool>::empty() =~= v);
                    }
                }
            }
        },
        Node::Internal(l, r) => {
            let ghost ll = leaf_list(**l);
            let ghost lr = leaf_list(**r);
            proof {
                assert(leaf_list(*node) == ll + lr);
                assert forall|i: int| 0 <= i < ll.len() implies ll[i] == leaf_list(*node)[i] by {}
                assert forall|i: int| 0 <= i < lr.len() implies lr[i] == leaf_list(*node)[ll.len() + i] by {}
                assert(ll.no_duplicates()) by {
                    assert forall|i: int, j: int| 0 <= i < ll.len() && 0 <= j < ll.len() && i != j implies ll[i] != ll[j] by {
                        assert(leaf_list(*node)[i] != leaf_list(*node)[j]);
                    }
                }
                assert(lr.no_duplicates()) by {
                    assert forall|i: int, j: int| 0 <= i < lr.len() && 0 <= j < lr.len() && i != j implies lr[i] != lr[j] by {
                        assert(leaf_list(*node)[ll.len() + i] != leaf_list(*node)[ll.len() + j]);
                    }
                }
            }
            let ghost before = into@;
            let pl = plus_bit(&prefix, false);
            let pr = plus_bit(&prefix, true);
            store_code(into, pl, l);
            proof {
                assert forall|i: int| 0 <= i < lr.len() implies into@[lr[i] as int] is None by {
                    let sy = lr[i];
                    lemma_code_of_leaves(**l, sy);
                    if ll.contains(sy) {
                        let j = choose|j: int| 0 <= j < ll.len() && ll[j] == sy;
                        assert(leaf_list(*node)[j] == leaf_list(*node)[ll.len() + i]);
                    }
                    assert(code_of(**l, (sy as int) as u16) is None);
                }
            }
            let ghost mid = into@;
            store_code(into, pr, r);
            proof {
                assert forall|s: int| 0 <= s < old(into)@.len() implies match code_of(*node, s as u16) {
                    Some(c) => #[trigger] into@[s] matches Some(v) && v.wf() && v.clean() && v@ == prefix@ + c,
                    None => into@[s] == old(into)@[s],
                } by {
                    let su = s as u16;
                    lemma_code_of_leaves(**l, su);
                    lemma_code_of_leaves(**r, su);
                    match code_of(**l, su) {
                        Some(c) => {
                            if lr.contains(su) {
                                let j = choose|j: int| 0 <= j < lr.len() && lr[j] == su;
                                let k = choose|k: int| 0 <= k < ll.len() && ll[k] == su;
                                assert(leaf_list(*node)[k] == leaf_list(*node)[ll.len() + j]);
                            }
                            assert(code_of(**r, su) is None);
                            assert(prefix@.push(false) + c =~= prefix@ + (seq![false] + c));
                        },
                        None => {
                            match code_of(**r, su) {
                                Some(c) => {
                                    assert(prefix@.push(true) + c =~= prefix@ + (seq![true] + c));
                                },
                                None => {},
                            }
                        },
                    }
                }
            }
        },
    }
}

pub open spec fn node_depth(n: Node) -> nat
    decreases n,
{
    match n {
        Node::Leaf(_) => 0,
        Node::Internal(l, r) => 1 + if node_depth(*l) > node_depth(*r) {
            node_depth(*l)
        } else {
            node_depth(*r)
        },
    }
}

fn plus_bit(into: &BitVec, val: bool) -> (r: BitVec)
    requires
        into.wf(),
        into.clean(),
        into@.len() < 65536,
    ensures
        r.wf(),
        r.clean(),
        r@ == into@.push(val),
{
    let mut copy = into.clone();
    proof {
        copy.lemma_clean_not_stale();
    }
    copy.push(val);
    copy
}


/// A failure at one level is the failure of the whole tree.
pub proof fn lemma_tree_levels_err(lengths: Seq<u8>, i: int, j: int)
    requires
        0 <= j <= i <= 16,
        tree_levels(lengths, i) is Err,
    ensures
        tree_levels(lengths, j) == tree_levels(lengths, i),
    decreases i - j,
{
    if j < i {
        lemma_tree_levels_err(lengths, i, j + 1);
    }
}


/// What holds of the nodes at level `i` of a canonical tree: every symbol at most once,
/// each a valid index with a code length of at least `i`, and no node too deep.
pub open spec fn levels_ok(lengths: Seq<u8>, i: int, nodes: Seq<Node>) -> bool {
    let ls = leaf_list_seq(nodes);
    &&& ls.no_duplicates()
    &&& forall|j: int|
        0 <= j < ls.len() ==> #[trigger] ls[j] < lengths.len() && (if i > 1 {
            i
        } else {
            1
        }) <= lengths[ls[j] as int] <= 15
    &&& forall|k: int| 0 <= k < nodes.len() ==> node_depth(#[trigger] nodes[k]) + i <= 15
}

pub proof fn lemma_leaf_list_seq_concat(a: Seq<Node>, b: Seq<Node>)
    ensures
        leaf_list_seq(a + b) == leaf_list_seq(a) + leaf_list_seq(b),
    decreases b.len(),
{
    if b.len() == 0 {
        assert(a + b =~= a);
        assert(leaf_list_seq(a) + leaf_list_seq(b) =~= leaf_list_seq(a));
    } else {
        lemma_leaf_list_seq_concat(a, b.drop_last());
        assert((a + b).drop_last() =~= a + b.drop_last());
        assert((a + b).last() == b.last());
        assert(leaf_list_seq(a + b) =~= leaf_list_seq(a) + leaf_list_seq(b));
    }
}

pub proof fn lemma_leaf_list_seq_pair_up(prev: Seq<Node>)
    requires
        prev.len() % 2 == 0,
    ensures
        leaf_list_seq(pair_up(prev)) == leaf_list_seq(prev),
    decreases prev.len(),
{
    if prev.len() > 0 {
        let n = prev.len() as int;
        let shorter = prev.take(n - 2);
        lemma_leaf_list_seq_pair_up(shorter);
        let pp = pair_up(prev);
        assert(pp.drop_last() =~= pair_up(shorter));
        assert(prev.drop_last().drop_last() =~= shorter);
        assert(prev.drop_last().last() == prev[n - 2]);
        assert(pp.last() == Node::Internal(Box::new(prev[n - 2]), Box::new(prev[n - 1])));
        assert(leaf_list(pp.last()) == leaf_list(prev[n - 2]) + leaf_list(prev[n - 1]));
        assert(leaf_list_seq(pp) == leaf_list_seq(pp.drop_last()) + leaf_list(pp.last()));
        assert(leaf_list_seq(prev) == leaf_list_seq(prev.drop_last()) + leaf_list(prev.last()));
        assert(leaf_list_seq(prev.drop_last()) == leaf_list_seq(prev.drop_last().drop_last()) + leaf_list(
            prev.drop_last().last(),
        ));
        assert(leaf_list_seq(pp) =~= leaf_list_seq(prev));
    } else {
        assert(pair_up(prev) =~= Seq::<Node>::empty());
    }
}

pub proof fn lemma_leaves_of_length(lengths: Seq<u8>, len: int, m: int)
    requires
        1 <= len <= 15,
        0 <= m <= lengths.len(),
        forall|p: int| 65536 <= p < lengths.len() ==> !(1 <= #[trigger] lengths[p] <= 15),
    ensures
        ({
            let nodes = leaves_of_length(lengths, len, m);
            let ls = leaf_list_seq(nodes);
            &&& forall|j: int, k: int| 0 <= j < k < ls.len() ==> ls[j] < ls[k]
            &&& forall|j: int| 0 <= j < ls.len() ==> #[trigger] ls[j] < m && lengths[ls[j] as int] == len
            &&& forall|k: int| 0 <= k < nodes.len() ==> #[trigger] nodes[k] is Leaf
        }),
    decreases m,
{
    if m > 0 {
        lemma_leaves_of_length(lengths, len, m - 1);
        let prev = leaves_of_length(lengths, len, m - 1);
        let lsp = leaf_list_seq(prev);
        if lengths[m - 1] == len {
            let leaf = Node::Leaf((m - 1) as u16);
            let nodes = prev.push(leaf);
            assert(nodes.drop_last() =~= prev);
            assert(m - 1 < 65536);
            assert(leaf_list(leaf) =~= seq![(m - 1) as u16]);
            assert(leaf_list_seq(nodes) == lsp + leaf_list(leaf));
            let ls = leaf_list_seq(nodes);
            assert(ls =~= lsp.push((m - 1) as u16));
            assert forall|k: int| 0 <= k < nodes.len() implies #[trigger] nodes[k] is Leaf by {
                if k < prev.len() {
                    assert(nodes[k] == prev[k]);
                }
            }
        }
    }
}

pub proof fn lemma_tree_levels_ok(lengths: Seq<u8>, i: int)
    requires
        0 <= i <= 16,
        forall|p: int| 65536 <= p < lengths.len() ==> !(1 <= #[trigger] lengths[p] <= 15),
    ensures
        tree_levels(lengths, i) matches Ok(nodes) ==> levels_ok(lengths, i, nodes),
    decreases 16 - i,
{
    if i < 16 {
        lemma_tree_levels_ok(lengths, i + 1);
        if let Ok(prev) = tree_levels(lengths, i + 1) {
            if prev.len() % 2 == 0 {
                let leaves = if i > 0 {
                    leaves_of_length(lengths, i, lengths.len() as int)
                } else {
                    Seq::empty()
                };
                let pairs = pair_up(prev);
                let nodes = leaves + pairs;
                assert(tree_levels(lengths, i) == Ok::<Seq<Node>, Error>(nodes));
                lemma_leaf_list_seq_concat(leaves, pairs);
                lemma_leaf_list_seq_pair_up(prev);
                let ll = leaf_list_seq(leaves);
                let lp = leaf_list_seq(prev);
                if i > 0 {
                    lemma_leaves_of_length(lengths, i, lengths.len() as int);
                } else {
                    assert(ll =~= Seq::<u16>::empty());
                }
                let ls = leaf_list_seq(nodes);
                assert(ls == ll + lp);
                assert forall|j: int| 0 <= j < ls.len() implies #[trigger] ls[j] < lengths.len() && (if i > 1 {
                    i
                } else {
                    1
                }) <= lengths[ls[j] as int] <= 15 by {
                    if j < ll.len() {
                        assert(ls[j] == ll[j]);
                    } else {
                        assert(ls[j] == lp[j - ll.len()]);
                    }
                }
                assert forall|a: int, b: int| 0 <= a < ls.len() && 0 <= b < ls.len() && a != b implies ls[a] != ls[b] by {
                    if a < ll.len() && b < ll.len() {
                        if a < b {
                            assert(ll[a] < ll[b]);
                        } else {
                            assert(ll[b] < ll[a]);
                        }
                    } else if a >= ll.len() && b >= ll.len() {
                        assert(lp[a - ll.len()] != lp[b - ll.len()]);
                    } else if a < ll.len() {
                        assert(lengths[ll[a] as int] == i);
                        assert(lengths[lp[b - ll.len()] as int] >= i + 1);
                    } else {
                        assert(lengths[ll[b] as int] == i);
                        assert(lengths[lp[a - ll.len()] as int] >= i + 1);
                    }
                }
                assert forall|k: int| 0 <= k < nodes.len() implies node_depth(#[trigger] nodes[k]) + i <= 15 by {
                    if k < leaves.len() {
                        assert(nodes[k] == leaves[k]);
                    } else {
                        let q = k - leaves.len();
                        assert(nodes[k] == pairs[q]);
                        assert(node_depth(prev[2 * q]) + i + 1 <= 15);
                        assert(node_depth(prev[2 * q + 1]) + i + 1 <= 15);
                    }
                }
            }
        }
    } else {
        assert(leaf_list_seq(Seq::<Node>::empty()) =~= Seq::<u16>::empty());
    }
}


/// Reading a symbol's code reads back the symbol, and exactly the code's bits.
pub proof fn lemma_decode_code(l: Node, r: Node, s: u16, rest: Seq<bool>)
    requires
        code_of(Node::Internal(Box::new(l), Box::new(r)), s) is Some,
    ensures
        ({
            let c = code_of(Node::Internal(Box::new(l), Box::new(r)), s).unwrap();
            decode_bits(l, r, c + rest) == Some((s, c.len()))
        }),
    decreases node_size(l) + node_size(r),
{
    let c = code_of(Node::Internal(Box::new(l), Box::new(r)), s).unwrap();
    let bits = c + rest;
    match code_of(l, s) {
        Some(cl) => {
            assert(c == seq![false] + cl);
            assert(bits[0] == false);
            assert(bits.drop_first() =~= cl + rest);
            match l {
                Node::Leaf(x) => {
                    assert(cl.len() == 0);
                },
                Node::Internal(ll, lr) => {
                    lemma_decode_code(*ll, *lr, s, rest);
                },
            }
        },
        None => {
            let cr = code_of(r, s).unwrap();
            assert(c == seq![true] + cr);
            assert(bits[0] == true);
            assert(bits.drop_first() =~= cr + rest);
            match r {
                Node::Leaf(x) => {
                    assert(cr.len() == 0);
                },
                Node::Internal(rl, rr) => {
                    lemma_decode_code(*rl, *rr, s, rest);
                },
            }
        },
    }
}

/// When no symbol appears twice, the bits a symbol was read from are its code.
pub proof fn lemma_decoded_is_code(l: Node, r: Node, bits: Seq<bool>)
    requires
        (leaf_list(l) + leaf_list(r)).no_duplicates(),
        decode_bits(l, r, bits) is Some,
    ensures
        ({
            let (s, k) = decode_bits(l, r, bits).unwrap();
            &&& 1 <= k <= bits.len()
            &&& code_of(Node::Internal(Box::new(l), Box::new(r)), s) == Some(bits.take(k as int))
        }),
    decreases node_size(l) + node_size(r),
{
    let (s, k) = decode_bits(l, r, bits).unwrap();
    let all = leaf_list(l) + leaf_list(r);
    if bits[0] {
        lemma_code_of_leaves(l, s);
        assert(!leaf_list(l).contains(s)) by {
            lemma_decoded_in_leaves(r, bits.drop_first(), s);
            if leaf_list(l).contains(s) {
                let i = choose|i: int| 0 <= i < leaf_list(l).len() && leaf_list(l)[i] == s;
                let j = choose|j: int| 0 <= j < leaf_list(r).len() && leaf_list(r)[j] == s;
                assert(all[i] == all[leaf_list(l).len() + j]);
            }
        }
        assert(code_of(l, s) is None);
        match r {
            Node::Leaf(x) => {
                assert(code_of(r, s) == Some(Seq::<bool>::empty()));
                assert(bits.take(1) =~= seq![true] + Seq::<bool>::empty());
            },
            Node::Internal(rl, rr) => {
                assert(all.subrange(leaf_list(l).len() as int, all.len() as int) =~= leaf_list(r));
                lemma_no_dup_sub(all, leaf_list(l).len() as int, all.len() as int);
                lemma_decoded_is_code(*rl, *rr, bits.drop_first());
                assert(Node::Internal(Box::new(*rl), Box::new(*rr)) == r);
                assert(code_of(r, s) == Some(bits.drop_first().take(k - 1)));
                assert(bits.take(k as int) =~= seq![true] + bits.drop_first().take(k - 1));
            },
        }
    } else {
        match l {
            Node::Leaf(x) => {
                assert(code_of(l, s) == Some(Seq::<bool>::empty()));
                assert(bits.take(1) =~= seq![false] + Seq::<bool>::empty());
            },
            Node::Internal(ll, lr) => {
                assert(all.subrange(0, leaf_list(l).len() as int) =~= leaf_list(l));
                lemma_no_dup_sub(all, 0, leaf_list(l).len() as int);
                lemma_decoded_is_code(*ll, *lr, bits.drop_first());
                assert(Node::Internal(Box::new(*ll), Box::new(*lr)) == l);
                assert(code_of(l, s) == Some(bits.drop_first().take(k - 1)));
                assert(bits.take(k as int) =~= seq![false] + bits.drop_first().take(k - 1));
            },
        }
    }
}

/// A decoded symbol is one of the leaves of the node it was read from.
pub proof fn lemma_decoded_in_leaves(n: Node, bits: Seq<bool>, s: u16)
    requires
        match n {
            Node::Leaf(x) => x == s,
            Node::Internal(l, r) => decode_bits(*l, *r, bits) matches Some((y, _)) && y == s,
        },
    ensures
        leaf_list(n).contains(s),
    decreases n,
{
    match n {
        Node::Leaf(x) => {
            assert(leaf_list(n)[0] == s);
        },
        Node::Internal(l, r) => {
            if bits[0] {
                lemma_decoded_in_leaves(*r, bits.drop_first(), s);
                let j = choose|j: int| 0 <= j < leaf_list(*r).len() && leaf_list(*r)[j] == s;
                assert(leaf_list(n)[leaf_list(*l).len() + j] == s);
            } else {
                lemma_decoded_in_leaves(*l, bits.drop_first(), s);
                let j = choose|j: int| 0 <= j < leaf_list(*l).len() && leaf_list(*l)[j] == s;
                assert(leaf_list(n)[j] == s);
            }
        },
    }
}

pub proof fn lemma_no_dup_sub(s: Seq<u16>, a: int, b: int)
    requires
        0 <= a <= b <= s.len(),
        s.no_duplicates(),
    ensures
        s.subrange(a, b).no_duplicates(),
{
    let t = s.subrange(a, b);
    assert forall|i: int, j: int| 0 <= i < t.len() && 0 <= j < t.len() && i != j implies t[i] != t[j] by {
        assert(s[a + i] != s[a + j]);
    }
}


/// Reading a symbol takes at least one bit, and no more than there are.
pub proof fn lemma_decode_bits_len(l: Node, r: Node, bits: Seq<bool>)
    ensures
        decode_bits(l, r, bits) matches Some((s, k)) ==> 1 <= k <= bits.len(),
    decreases node_size(l) + node_size(r),
{
    if bits.len() > 0 {
        let n = if bits[0] {
            r
        } else {
            l
        };
        if let Node::Internal(nl, nr) = n {
            lemma_decode_bits_len(*nl, *nr, bits.drop_first());
        }
    }
}

/// Reading a symbol looks at no more bits than it takes: any bits that begin the same way
/// read the same symbol.
pub proof fn lemma_decode_bits_prefix(l: Node, r: Node, a: Seq<bool>, b: Seq<bool>)
    requires
        decode_bits(l, r, a) matches Some((s, k)) && k <= b.len() && forall|j: int| 0 <= j < k ==> a[j] == b[j],
    ensures
        decode_bits(l, r, b) == decode_bits(l, r, a),
    decreases node_size(l) + node_size(r),
{
    let (s, k) = decode_bits(l, r, a).unwrap();
    lemma_decode_bits_len(l, r, a);
    assert(a[0] == b[0]);
    let n = if a[0] {
        r
    } else {
        l
    };
    if let Node::Internal(nl, nr) = n {
        let (s2, k2) = decode_bits(*nl, *nr, a.drop_first()).unwrap();
        assert(k == k2 + 1);
        assert forall|j: int| 0 <= j < k2 implies a.drop_first()[j] == b.drop_first()[j] by {
            assert(a[j + 1] == b[j + 1]);
        }
        lemma_decode_bits_prefix(*nl, *nr, a.drop_first(), b.drop_first());
    }
}


/// A canonical tree names each symbol at most once, and only symbols that have a length.
pub proof fn lemma_spec_code_tree_wf(lengths: Seq<u8>)
    requires
        forall|p: int| 65536 <= p < lengths.len() ==> !(1 <= #[trigger] lengths[p] <= 15),
    ensures
        spec_code_tree(lengths) matches Ok((l, r)) ==> {
            &&& (leaf_list(l) + leaf_list(r)).no_duplicates()
            &&& forall|j: int|
                0 <= j < (leaf_list(l) + leaf_list(r)).len() ==> #[trigger] (leaf_list(l) + leaf_list(r))[j]
                    < lengths.len()
        },
{
    if let Ok((l, r)) = spec_code_tree(lengths) {
        lemma_tree_levels_ok(lengths, 0);
        let nodes = tree_levels(lengths, 0)->Ok_0;
        let root = nodes[0];
        assert(nodes.drop_last() =~= Seq::<Node>::empty());
        assert(leaf_list_seq(nodes) == leaf_list_seq(nodes.drop_last()) + leaf_list(root));
        assert(leaf_list_seq(nodes) =~= leaf_list(root));
        assert(root == Node::Internal(Box::new(l), Box::new(r)));
        assert(leaf_list(root) == leaf_list(l) + leaf_list(r));
    }
}

} // verus!
