//! The wavelet tree: a binary tree of bit vectors over a sequence of symbols.
//!
//! The root stands for the whole sequence. A node at depth `d` stands for the
//! symbols whose codes share their first `d` bits with the path that leads to
//! it; its bit vector holds bit `d` of each of their codes, in the order of
//! the sequence. Symbols with a 0 there go to the left child, the others to
//! the right child.

use vstd::prelude::*;
use crate::bit_vector::BitVector;
pub use crate::codex::{construct_codex, get_alphabet, Codex};
use crate::coded_text::{
    codes_of, covers, kindred, lemma_codes_of_shape, lemma_codes_of_take, lemma_found_occurrence,
    lemma_kindred_full, lemma_rank_found, lemma_way_down_blocked, lemma_way_down_step, starved,
    threaded,
};
use crate::codex::{distinct_symbols, CODE_WIDTH, MAX_SYMBOLS};
use crate::failure::Failure;
use crate::counting::{
    is_binary, is_kth_occurrence, kth_occurrence, lemma_kth_occurrence_exists, occurrences,
};
use crate::partition::{
    agrees, all_of_width, branch, lemma_branch_index, lemma_branch_len, lemma_branch_members,
    lemma_branch_push, lemma_select_deepest, lemma_select_upward, lemma_sieve_deeper,
    lemma_sieve_members, lemma_sieve_rank, lemma_sieve_step, lemma_sieve_take, lemma_sieve_zero,
    level_bits, sieve,
};

verus! {

/// A node of a wavelet tree; the root is the tree.
pub enum WaveletTreeNode {
    /// Stands for no symbols, or lies below the last bit of the codes.
    Empty,
    /// Holds one bit for each symbol that reaches it.
    Node {
        bit_vector: BitVector,
        left: Box<WaveletTreeNode>,
        right: Box<WaveletTreeNode>,
        codex: Box<Codex>,
    },
}

impl WaveletTreeNode {
    /// This node, at depth `depth` of a tree over codes of `width` bits,
    /// stands for the sequence `codes`.
    pub open spec fn holds(&self, codes: Seq<Seq<u8>>, depth: nat, width: nat) -> bool
        decreases self,
    {
        match self {
            WaveletTreeNode::Empty => codes.len() == 0 || depth >= width,
            WaveletTreeNode::Node { bit_vector, left, right, .. } => {
                &&& codes.len() > 0
                &&& depth < width
                &&& bit_vector@ == level_bits(codes, depth as int)
                &&& left.holds(branch(codes, depth as int, 0u8), depth + 1, width)
                &&& right.holds(branch(codes, depth as int, 1u8), depth + 1, width)
            },
        }
    }

    /// The sequence of codes that this node stands for, read back from the
    /// bit vectors below it. `count` is the number of symbols that reach the
    /// node and `prefix` the bits of the path to it. The code at position `j`
    /// is found in the child that bit `j` points to, at the position that
    /// the rank of that bit gives.
    pub open spec fn unfold(&self, count: nat, prefix: Seq<u8>) -> Seq<Seq<u8>>
        decreases self,
    {
        match self {
            WaveletTreeNode::Empty => Seq::new(count, |j: int| prefix),
            WaveletTreeNode::Node { bit_vector, left, right, .. } => {
                let bits = bit_vector@;
                let zeros = left.unfold(occurrences(bits, 0u8), prefix.push(0u8));
                let ones = right.unfold(occurrences(bits, 1u8), prefix.push(1u8));
                Seq::new(
                    bits.len(),
                    |j: int|
                        if bits[j] == 0 {
                            zeros[occurrences(bits.take(j + 1), 0u8) - 1]
                        } else {
                            ones[occurrences(bits.take(j + 1), 1u8) - 1]
                        },
                )
            },
        }
    }

    /// This node and every node below it keep a well-formed codex with the
    /// symbols `symbols`.
    pub open spec fn keeps(&self, symbols: Seq<char>) -> bool
        decreases self,
    {
        match self {
            WaveletTreeNode::Empty => true,
            WaveletTreeNode::Node { left, right, codex, .. } => {
                &&& codex.wf()
                &&& codex.symbols() == symbols
                &&& left.keeps(symbols)
                &&& right.keeps(symbols)
            },
        }
    }

    /// The codes of the indexed sequence, in order.
    pub open spec fn codes(&self) -> Seq<Seq<u8>> {
        match self {
            WaveletTreeNode::Empty => Seq::empty(),
            WaveletTreeNode::Node { bit_vector, .. } => self.unfold(
                bit_vector@.len(),
                Seq::empty(),
            ),
        }
    }

    /// The code table of the tree; an empty tree has none.
    pub open spec fn table(&self) -> Map<char, Seq<u8>> {
        match self {
            WaveletTreeNode::Empty => Map::empty(),
            WaveletTreeNode::Node { codex, .. } => codex@,
        }
    }

    /// The tree is the wavelet tree of a sequence of symbols of its codex.
    pub open spec fn wf(&self) -> bool {
        match self {
            WaveletTreeNode::Empty => true,
            WaveletTreeNode::Node { codex, .. } => {
                &&& codex.wf()
                &&& self.holds(self.codes(), 0, codex.spec_width())
                &&& forall|j: int|
                    0 <= j < self.codes().len() ==> codex.has_code(#[trigger] self.codes()[j])
            },
        }
    }
}

impl View for WaveletTreeNode {
    type V = Seq<char>;

    /// The indexed sequence: each code of the tree, read as its symbol.
    open spec fn view(&self) -> Seq<char> {
        match self {
            WaveletTreeNode::Empty => Seq::empty(),
            WaveletTreeNode::Node { codex, .. } => Seq::new(
                self.codes().len(),
                |j: int| codex.symbol_of(self.codes()[j]),
            ),
        }
    }
}

/// All codes start with `prefix`.
pub open spec fn all_extend(codes: Seq<Seq<u8>>, prefix: Seq<u8>) -> bool {
    forall|j: int|
        0 <= j < codes.len() ==> (#[trigger] codes[j]).take(prefix.len() as int) == prefix
}

/// The codes of a branch keep the width, and extend the prefix by the
/// branch's bit.
proof fn lemma_branch_shape(
    codes: Seq<Seq<u8>>,
    depth: int,
    bit: u8,
    width: int,
    prefix: Seq<u8>,
)
    requires
        all_of_width(codes, width),
        all_extend(codes, prefix),
        prefix.len() == depth,
        0 <= depth < width,
    ensures
        all_of_width(branch(codes, depth, bit), width),
        all_extend(branch(codes, depth, bit), prefix.push(bit)),
{
    let sub = branch(codes, depth, bit);
    assert forall|p: int| 0 <= p < sub.len() implies (#[trigger] sub[p]).len() == width
        && is_binary(sub[p]) && sub[p].take(depth + 1) == prefix.push(bit) by {
        lemma_branch_members(codes, depth, bit, p);
        let j = choose|j: int| 0 <= j < codes.len() && codes[j] == sub[p];
        assert(codes[j].take(depth) == prefix);
        assert(sub[p].take(depth + 1) =~= sub[p].take(depth).push(sub[p][depth]));
    }
}

/// A node that holds a sequence of codes gives that sequence back when its
/// bit vectors are unfolded.
pub proof fn lemma_unfold_holds(
    node: WaveletTreeNode,
    codes: Seq<Seq<u8>>,
    depth: nat,
    width: nat,
    prefix: Seq<u8>,
)
    requires
        node.holds(codes, depth, width),
        depth <= width,
        prefix.len() == depth,
        all_of_width(codes, width as int),
        all_extend(codes, prefix),
    ensures
        node.unfold(codes.len(), prefix) == codes,
    decreases node,
{
    match node {
        WaveletTreeNode::Empty => {
            let unfolded = node.unfold(codes.len(), prefix);
            assert forall|j: int| 0 <= j < codes.len() implies unfolded[j] == codes[j] by {
                assert(codes[j].take(width as int) =~= codes[j]);
            }
            assert(unfolded =~= codes);
        },
        WaveletTreeNode::Node { bit_vector, left, right, .. } => {
            let d = depth as int;
            let bits = bit_vector@;
            let zeros = branch(codes, d, 0u8);
            let ones = branch(codes, d, 1u8);
            lemma_branch_len(codes, d, 0u8);
            lemma_branch_len(codes, d, 1u8);
            lemma_branch_shape(codes, d, 0u8, width as int, prefix);
            lemma_branch_shape(codes, d, 1u8, width as int, prefix);
            lemma_unfold_holds(*left, zeros, depth + 1, width, prefix.push(0u8));
            lemma_unfold_holds(*right, ones, depth + 1, width, prefix.push(1u8));
            let unfolded = node.unfold(codes.len(), prefix);
            assert forall|j: int| 0 <= j < codes.len() implies unfolded[j] == codes[j] by {
                lemma_branch_index(codes, d, j);
                assert(codes[j][d] <= 1);
                assert(bits[j] == codes[j][d]);
            }
            assert(unfolded =~= codes);
        },
    }
}

/// A root that holds the codes of a text is a well-formed tree whose view is
/// that text.
proof fn lemma_root_of_text(tree: WaveletTreeNode, text: Seq<char>, codex: Codex)
    requires
        codex.wf(),
        covers(codex@, text),
        tree.holds(codes_of(text, codex@), 0, codex.spec_width()),
        tree.keeps(codex.symbols()),
    ensures
        tree.wf(),
        tree@ == text,
        tree is Empty <==> text.len() == 0,
        tree.codes() == codes_of(text, tree.table()),
{
    let codes = codes_of(text, codex@);
    lemma_codes_of_shape(text, codex);
    match tree {
        WaveletTreeNode::Empty => {
            if text.len() > 0 {
                assert(codex@.contains_key(text[0]));
                assert(codex.symbols().contains(text[0]));
            }
            assert(tree@ =~= text);
            assert(tree.codes() =~= codes_of(text, tree.table()));
        },
        WaveletTreeNode::Node { bit_vector, codex: kept, .. } => {
            assert(codex@.contains_key(text[0]));
            assert(codex.symbols().contains(text[0]));
            assert(kept@ == codex@);
            assert(all_extend(codes, Seq::empty())) by {
                assert forall|j: int| 0 <= j < codes.len() implies (#[trigger] codes[j]).take(0)
                    == Seq::<u8>::empty() by {
                    assert(codes[j].take(0) =~= Seq::<u8>::empty());
                }
            }
            lemma_unfold_holds(tree, codes, 0, CODE_WIDTH as nat, Seq::empty());
            assert(tree.codes() == codes);
            assert forall|j: int| 0 <= j < codes.len() implies kept.has_code(#[trigger] codes[j])
                && kept.symbol_of(codes[j]) == text[j] by {
                assert(kept@.contains_key(text[j]));
                kept.lemma_injective(text[j], text[j]);
            }
            assert(tree@ =~= text);
        },
    }
}

/// The characters of a string, in order.
fn symbols_of(text: &str) -> (symbols: Vec<char>)
    ensures
        symbols@ == text@,
{
    let mut symbols: Vec<char> = Vec::new();
    for c in it: text.chars()
        invariant
            it.seq() == text@,
            symbols@ == text@.take(it.index() as int),
    {
        symbols.push(c);
        assert(text@.take(it.index() + 1) =~= text@.take(it.index() as int).push(c));
    }
    assert(text@.take(text@.len() as int) =~= text@);
    symbols
}

/// Builds the node that stands for `symbols` at depth `depth`: its bit
/// vector holds bit `depth` of each code, and its children are built from
/// the symbols with a 0 and with a 1 there, each in the order of `symbols`.
fn create_node(symbols: &Vec<char>, codex: &Codex, depth: usize, max_depth: usize) -> (node:
    WaveletTreeNode)
    requires
        codex.wf(),
        covers(codex@, symbols@),
        depth <= max_depth <= CODE_WIDTH,
    ensures
        node.holds(codes_of(symbols@, codex@), depth as nat, max_depth as nat),
        node.keeps(codex.symbols()),
    decreases max_depth - depth,
{
    if symbols.len() == 0 || depth >= max_depth {
        return WaveletTreeNode::Empty;
    }
    let ghost codes = codes_of(symbols@, codex@);
    let mut bits: Vec<u8> = Vec::new();
    let mut left_symbols: Vec<char> = Vec::new();
    let mut right_symbols: Vec<char> = Vec::new();
    let mut i: usize = 0;
    while i < symbols.len()
        invariant
            codex.wf(),
            covers(codex@, symbols@),
            depth < max_depth <= CODE_WIDTH,
            codes == codes_of(symbols@, codex@),
            0 <= i <= symbols.len(),
            is_binary(bits@),
            bits@ == level_bits(codes.take(i as int), depth as int),
            covers(codex@, left_symbols@),
            covers(codex@, right_symbols@),
            codes_of(left_symbols@, codex@) == branch(codes.take(i as int), depth as int, 0u8),
            codes_of(right_symbols@, codex@) == branch(codes.take(i as int), depth as int, 1u8),
        decreases symbols.len() - i,
    {
        let symbol = symbols[i];
        let ghost seen = codes.take(i as int);
        let ghost zeros = codes_of(left_symbols@, codex@);
        let ghost ones = codes_of(right_symbols@, codex@);
        proof {
            assert(codex@.contains_key(symbols@[i as int]));
            codex.lemma_code_shape(symbol);
            assert(codes.take(i + 1) =~= seen.push(codes[i as int]));
            lemma_branch_push(seen, codes[i as int], depth as int, 0u8);
            lemma_branch_push(seen, codes[i as int], depth as int, 1u8);
        }
        let code = codex.get(&symbol);
        let bit = code.unwrap()[depth];
        assert(bit == codes[i as int][depth as int]);
        assert(bit <= 1);
        bits.push(bit);
        if bit == 0 {
            left_symbols.push(symbol);
            assert(codes_of(left_symbols@, codex@) =~= zeros.push(codex@[symbol]));
        } else {
            right_symbols.push(symbol);
            assert(codes_of(right_symbols@, codex@) =~= ones.push(codex@[symbol]));
        }
        i = i + 1;
    }
    assert(codes.take(i as int) =~= codes);
    let left = create_node(&left_symbols, codex, depth + 1, max_depth);
    let right = create_node(&right_symbols, codex, depth + 1, max_depth);
    WaveletTreeNode::Node {
        bit_vector: BitVector::new(bits),
        left: Box::new(left),
        right: Box::new(right),
        codex: Box::new(codex.clone()),
    }
}

impl WaveletTreeNode {
    /// Builds the wavelet tree of `text` under the codes of `codex`, which
    /// must have a code for every symbol of the text. An empty text gives an
    /// empty tree; any other gives a node that holds one bit for each
    /// position, with a copy of the codex in every node.
    pub fn with_codex(text: &str, codex: &Codex) -> (tree: WaveletTreeNode)
        requires
            codex.wf(),
            covers(codex@, text@),
        ensures
            tree.wf(),
            tree@ == text@,
            tree is Empty <==> text@.len() == 0,
            tree.keeps(codex.symbols()),
    {
        let symbols = symbols_of(text);
        let max_depth = codex.width();
        let tree = create_node(&symbols, codex, 0, max_depth);
        proof {
            lemma_root_of_text(tree, text@, *codex);
        }
        tree
    }

    /// Builds the wavelet tree of `t` under the codex of its own alphabet.
    /// A text with more than `MAX_SYMBOLS` distinct symbols has no codex
    /// without a collision, and no tree.
    pub fn new(t: &str) -> (tree: Result<WaveletTreeNode, Failure>)
        ensures
            match tree {
                Ok(tree) => {
                    &&& tree.wf()
                    &&& tree@ == t@
                    &&& distinct_symbols(t@) <= MAX_SYMBOLS
                    &&& tree is Empty <==> t@.len() == 0
                    &&& tree matches WaveletTreeNode::Node { codex, .. } ==> {
                        &&& tree.keeps(codex.symbols())
                        &&& forall|c: char| codex.symbols().contains(c) <==> t@.contains(c)
                    }
                },
                Err(failure) => {
                    &&& failure == Failure::CodexCollision
                    &&& distinct_symbols(t@) > MAX_SYMBOLS
                },
            },
    {
        let alphabet = get_alphabet(t);
        proof {
            assert(alphabet@.to_set() =~= t@.to_set());
        }
        match construct_codex(alphabet.as_str()) {
            Err(failure) => Err(failure),
            Ok(codex) => {
                let tree = WaveletTreeNode::with_codex(t, &codex);
                Ok(tree)
            },
        }
    }

    /// The codex that the tree was built with; an empty tree keeps none.
    pub fn get_codex(&self) -> (codex: Option<&Codex>)
        ensures
            match self {
                WaveletTreeNode::Empty => codex is None,
                WaveletTreeNode::Node { codex: kept, .. } => codex == Some(&**kept),
            },
    {
        match self {
            WaveletTreeNode::Empty => None,
            WaveletTreeNode::Node { codex, .. } => Some(codex),
        }
    }
}

/// What a well-formed tree says of its text and its codes.
pub proof fn lemma_wf_text(tree: WaveletTreeNode)
    requires
        tree.wf(),
    ensures
        tree@.len() == tree.codes().len(),
        covers(tree.table(), tree@),
        codes_of(tree@, tree.table()) == tree.codes(),
        all_of_width(tree.codes(), CODE_WIDTH as int),
        tree.holds(tree.codes(), 0, CODE_WIDTH as nat),
        tree matches WaveletTreeNode::Node { bit_vector, codex, .. } ==> {
            &&& bit_vector@.len() == tree@.len()
            &&& tree@.len() > 0
            &&& codex.wf()
        },
{
    match tree {
        WaveletTreeNode::Empty => {
            assert(codes_of(tree@, tree.table()) =~= tree.codes());
        },
        WaveletTreeNode::Node { bit_vector, codex, .. } => {
            let codes = tree.codes();
            assert forall|j: int| 0 <= j < codes.len() implies codex@.contains_key(
                #[trigger] tree@[j],
            ) && codex@[tree@[j]] == codes[j] && codes[j].len() == CODE_WIDTH && is_binary(
                codes[j],
            ) by {
                assert(codex.has_code(codes[j]));
                codex.lemma_code_shape(tree@[j]);
            }
            assert(codes_of(tree@, tree.table()) =~= codes);
        },
    }
}

/// The nodes are those on the path of `target`, root first: the node at
/// position `e` is not empty and stands for the codes that agree with
/// `target` on their first `e` bits.
pub open spec fn on_path(
    nodes: Seq<&WaveletTreeNode>,
    codes: Seq<Seq<u8>>,
    target: Seq<u8>,
) -> bool {
    forall|e: int|
        0 <= e < nodes.len() ==> (*#[trigger] nodes[e]) is Node && nodes[e].holds(
            sieve(codes, target, e),
            e as nat,
            CODE_WIDTH as nat,
        )
}

/// The path grows by the node that comes next on it.
proof fn lemma_on_path_push(
    nodes: Seq<&WaveletTreeNode>,
    node: &WaveletTreeNode,
    codes: Seq<Seq<u8>>,
    target: Seq<u8>,
)
    requires
        on_path(nodes, codes, target),
        *node is Node,
        node.holds(sieve(codes, target, nodes.len() as int), nodes.len(), CODE_WIDTH as nat),
    ensures
        on_path(nodes.push(node), codes, target),
{
    let longer = nodes.push(node);
    assert forall|e: int| 0 <= e < longer.len() implies (*#[trigger] longer[e]) is Node
        && longer[e].holds(sieve(codes, target, e), e as nat, CODE_WIDTH as nat) by {
        if e < nodes.len() {
            assert(longer[e] == nodes[e]);
        }
    }
}

impl WaveletTreeNode {
    /// What `access` returns: the code of the symbol at position `index`, or
    /// nothing when `index` is out of range: not a position of the text.
    pub open spec fn spec_access(&self, index: int) -> Option<Seq<u8>> {
        if 0 <= index < self@.len() {
            Some(self.table()[self@[index]])
        } else {
            None
        }
    }

    /// The code of the symbol at position `index` of the text.
    pub fn access(&self, index: usize) -> (code: Result<BitVector, Failure>)
        requires
            self.wf(),
        ensures
            match code {
                Ok(bits) => self.spec_access(index as int) == Some(bits@),
                Err(failure) => {
                    &&& failure == Failure::OutOfRange
                    &&& self.spec_access(index as int) is None
                },
            },
    {
        proof {
            lemma_wf_text(*self);
        }
        match self {
            WaveletTreeNode::Empty => {
                return Err(Failure::OutOfRange);
            },
            WaveletTreeNode::Node { bit_vector, .. } => {
                if index >= bit_vector.len() {
                    return Err(Failure::OutOfRange);
                }
            },
        }
        let ghost target = self.codes()[index as int];
        let ghost mut held = self.codes();
        let mut current_node: &WaveletTreeNode = self;
        let mut i: usize = index;
        let mut s: Vec<u8> = Vec::new();
        assert(target.take(0) =~= s@);
        loop
            invariant
                target.len() == CODE_WIDTH,
                is_binary(target),
                s@.len() <= CODE_WIDTH,
                current_node.holds(held, s@.len(), CODE_WIDTH as nat),
                0 <= i < held.len(),
                held[i as int] == target,
                s@ == target.take(s@.len() as int),
            ensures
                current_node is Empty,
            decreases CODE_WIDTH - s@.len(),
        {
            match current_node {
                WaveletTreeNode::Empty => {
                    break ;
                },
                WaveletTreeNode::Node { bit_vector, left, right, .. } => {
                    let ghost depth = s@.len() as int;
                    let bit = bit_vector[i];
                    proof {
                        lemma_branch_index(held, depth, i as int);
                        assert(target.take(depth + 1) =~= target.take(depth).push(target[depth]));
                    }
                    s.push(bit);
                    let count = bit_vector.rank(bit, i);
                    i = count.unwrap() - 1;
                    proof {
                        held = branch(held, depth, bit);
                    }
                    if bit == 0 {
                        current_node = left;
                    } else {
                        current_node = right;
                    }
                },
            }
        }
        proof {
            assert(target.take(CODE_WIDTH as int) =~= target);
        }
        Ok(BitVector::new(s))
    }

    /// What `rank` returns: the number of occurrences of `symbol` among the
    /// positions `0..=index` of the text. There is no result when `symbol`
    /// is unknown to the codex, or when a position is out of range: `index`
    /// is not a position of the text, or the query runs dry below the root
    /// and has no position to hand to a node further down.
    pub open spec fn spec_rank(&self, symbol: char, index: int) -> Option<nat> {
        if self.table().contains_key(symbol) && 0 <= index < self@.len() && !starved(
            self@,
            self.table(),
            symbol,
            index,
        ) {
            Some(occurrences(self@.take(index + 1), symbol))
        } else {
            None
        }
    }

    /// Number of occurrences of `symbol` among the positions `0..=index` of
    /// the text.
    ///
    /// The query follows the bits of the code of `symbol` down the tree. At
    /// each node it counts the bits equal to its own up to its position, and
    /// goes on with the last of them. Where it counts none and the child is
    /// not empty, there is no position to go on with, and no result.
    #[verifier::rlimit(50)]
    pub fn rank(&self, symbol: &char, index: usize) -> (count: Option<usize>)
        requires
            self.wf(),
        ensures
            match count {
                Some(n) => self.spec_rank(*symbol, index as int) == Some(n as nat),
                None => self.spec_rank(*symbol, index as int) is None,
            },
    {
        proof {
            lemma_wf_text(*self);
        }
        let codex = match self {
            WaveletTreeNode::Empty => {
                return None;
            },
            WaveletTreeNode::Node { codex, .. } => codex,
        };
        let t = match codex.get(symbol) {
            None => {
                return None;
            },
            Some(t) => t,
        };
        let ghost text = self@;
        let ghost table = self.table();
        let ghost codes = self.codes();
        let ghost target = t@;
        let ghost seen = text.take(index + 1);
        proof {
            codex.lemma_code_shape(*symbol);
            lemma_sieve_zero(codes, target);
        }
        let mut current_node: &WaveletTreeNode = self;
        let mut i: usize = index;
        let mut count: usize = 0;
        let mut d: usize = 0;
        // Set when the last count was zero: no position is left to go on with.
        let mut dry: bool = false;
        loop
            invariant
                self.wf(),
                codex.wf(),
                text == self@,
                table == codex@,
                table == self.table(),
                covers(table, text),
                codes == codes_of(text, table),
                table.contains_key(*symbol),
                target == table[*symbol],
                target == t@,
                target.len() == CODE_WIDTH,
                is_binary(target),
                codes.len() == text.len(),
                0 <= d <= CODE_WIDTH,
                current_node.holds(sieve(codes, target, d as int), d as nat, CODE_WIDTH as nat),
                d == 0 ==> current_node is Node && i == index && !dry,
                d > 0 ==> index < text.len(),
                seen == text.take(index + 1),
                d > 0 ==> count == kindred(seen, table, *symbol, d as int),
                d > 0 ==> (dry <==> count == 0),
                d > 0 && !dry ==> i + 1 == count,
                forall|e: int| 1 <= e < d ==> #[trigger] kindred(seen, table, *symbol, e) > 0,
            ensures
                current_node is Empty,
            decreases CODE_WIDTH - d,
        {
            match current_node {
                WaveletTreeNode::Empty => {
                    break ;
                },
                WaveletTreeNode::Node { bit_vector, left, right, .. } => {
                    if dry {
                        // The node is not empty, and no position is left for it.
                        assert(kindred(text, table, *symbol, d as int) > 0);
                        return None;
                    }
                    let bit = t[d];
                    proof {
                        lemma_sieve_zero(codes, target);
                        if index < text.len() {
                            lemma_codes_of_take(text, table, index + 1);
                            lemma_sieve_zero(codes.take(index + 1), target);
                            lemma_sieve_rank(codes, target, d as int, index + 1);
                        }
                    }
                    count =
                    match bit_vector.rank(bit, i) {
                        None => {
                            return None;
                        },
                        Some(c) => c,
                    };
                    proof {
                        lemma_sieve_step(codes, target, d as int);
                    }
                    if count == 0 {
                        dry = true;
                    } else {
                        i = count - 1;
                    }
                    if bit == 0 {
                        current_node = left;
                    } else {
                        current_node = right;
                    }
                    d = d + 1;
                },
            }
        }
        proof {
            lemma_rank_found(text, **codex, *symbol, index as int, seen, d as int);
        }
        Some(count)
    }

    /// What `select` returns: the position of the `k`-th occurrence of
    /// `symbol` in the text, counting from 1. There is no result when
    /// `symbol` is unknown to the codex, when the count is invalid (`k` is 0
    /// or larger than the number of occurrences), or when a position is out
    /// of range on the way down, so that the query does not get through.
    pub open spec fn spec_select(&self, symbol: char, k: int) -> Option<int> {
        if self.table().contains_key(symbol) && 1 <= k <= occurrences(self@, symbol) && threaded(
            self@,
            self.table(),
            symbol,
            0,
            k,
        ) {
            Some(kth_occurrence(self@, symbol, k))
        } else {
            None
        }
    }

    /// Position of the `k`-th occurrence of `symbol` in the text, counting
    /// occurrences from 1.
    ///
    /// The query first walks down the path of the code of `symbol`, taking
    /// `k` as a position at the root and handing each node the rank that the
    /// node above has found; it keeps the nodes it passes. It then walks back
    /// up from the deepest node, where it selects the `k`-th bit of the
    /// code's last bit, and at each node above selects the bit that the
    /// position below stands for.
    #[verifier::rlimit(50)]
    pub fn select(&self, symbol: &char, k: usize) -> (position: Option<usize>)
        requires
            self.wf(),
        ensures
            match position {
                Some(p) => self.spec_select(*symbol, k as int) == Some(p as int),
                None => self.spec_select(*symbol, k as int) is None,
            },
    {
        proof {
            lemma_wf_text(*self);
        }
        let codex = match self {
            WaveletTreeNode::Empty => {
                return None;
            },
            WaveletTreeNode::Node { codex, .. } => codex,
        };
        let t = match codex.get(symbol) {
            None => {
                return None;
            },
            Some(t) => t,
        };
        let ghost text = self@;
        let ghost table = self.table();
        let ghost codes = self.codes();
        let ghost target = t@;
        proof {
            codex.lemma_code_shape(*symbol);
            lemma_sieve_zero(codes, target);
        }
        // Way down: the nodes on the path of the code, root first.
        let mut stack: Vec<&WaveletTreeNode> = Vec::new();
        let mut current_node: &WaveletTreeNode = self;
        let mut i: usize = k;
        let mut depth: usize = 0;
        // Number of positions of the text that the way down has used up.
        let ghost mut used: int = k as int;
        proof {
            if k <= codes.len() {
                lemma_sieve_zero(codes.take(k as int), target);
            }
        }
        loop
            invariant
                text == self@,
                table == codex@,
                table == self.table(),
                codes == codes_of(text, table),
                table.contains_key(*symbol),
                target == table[*symbol],
                target == t@,
                target.len() == CODE_WIDTH,
                is_binary(target),
                codes.len() == text.len(),
                0 <= depth <= CODE_WIDTH,
                current_node.holds(
                    sieve(codes, target, depth as int),
                    depth as nat,
                    CODE_WIDTH as nat,
                ),
                stack@.len() == depth,
                on_path(stack@, codes, target),
                depth == 0 ==> current_node is Node && used == k,
                depth > 0 ==> used <= codes.len(),
                0 <= used,
                used <= codes.len() ==> i == sieve(codes.take(used), target, depth as int).len(),
                used > codes.len() ==> i == k && i > codes.len(),
                threaded(text, table, *symbol, 0, k as int) <==> threaded(
                    text,
                    table,
                    *symbol,
                    depth as int,
                    used,
                ),
            ensures
                current_node is Empty,
            decreases CODE_WIDTH - depth,
        {
            match current_node {
                WaveletTreeNode::Empty => {
                    break ;
                },
                WaveletTreeNode::Node { bit_vector, left, right, .. } => {
                    proof {
                        lemma_on_path_push(stack@, current_node, codes, target);
                        lemma_sieve_zero(codes, target);
                    }
                    stack.push(current_node);
                    let bit = t[depth];
                    let handed = bit_vector.rank(bit, i);
                    if handed.is_none() {
                        proof {
                            // No position is left for this node.
                            lemma_way_down_blocked(text, table, *symbol, depth as int, used);
                        }
                        return None;
                    }
                    proof {
                        let x = lemma_way_down_step(text, table, *symbol, depth as int, used);
                        lemma_sieve_rank(codes, target, depth as int, x + 1);
                        lemma_sieve_step(codes, target, depth as int);
                        used = x + 1;
                    }
                    i = handed.unwrap();
                    if bit == 0 {
                        current_node = left;
                    } else {
                        current_node = right;
                    }
                    depth = depth + 1;
                },
            }
        }
        // Way up: from the deepest node back to the root.
        let ghost top = depth as int;
        let ghost nodes = stack@;
        i = k;
        loop
            invariant
                codex.wf(),
                text == self@,
                table == codex@,
                table == self.table(),
                covers(table, text),
                codes == codes_of(text, table),
                table.contains_key(*symbol),
                target == table[*symbol],
                target == t@,
                target.len() == CODE_WIDTH,
                codes.len() == text.len(),
                1 <= top <= CODE_WIDTH,
                0 <= depth <= top,
                stack@ == nodes.take(depth as int),
                nodes.len() == top,
                on_path(nodes, codes, target),
                sieve(codes, target, top).len() == 0 || top == CODE_WIDTH,
                depth == top ==> i == k,
                depth < top ==> {
                    let held = sieve(codes, target, depth as int);
                    &&& 1 <= i <= held.len()
                    &&& agrees(held[i - 1], target, top)
                    &&& sieve(held.take(i as int), target, top).len() == k
                },
            ensures
                depth == 0,
            decreases depth,
        {
            match stack.pop() {
                None => {
                    break ;
                },
                Some(node) => {
                    let ghost below = depth as int;
                    depth = depth - 1;
                    assert(node == nodes[depth as int]);
                    match node {
                        WaveletTreeNode::Empty => {
                            break ;
                        },
                        WaveletTreeNode::Node { bit_vector, .. } => {
                            let ghost held = sieve(codes, target, depth as int);
                            let ghost bits = level_bits(held, depth as int);
                            let bit = t[depth];
                            let ghost asked = i as int;
                            proof {
                                assert(bit_vector@ == bits);
                                lemma_sieve_step(codes, target, depth as int);
                                lemma_branch_len(held, depth as int, bit);
                                lemma_kth_occurrence_exists(bits, bit, asked);
                            }
                            let found = bit_vector.select(bit, i);
                            if found.is_none() {
                                proof {
                                    // Fewer than `k` symbols reach the deepest node.
                                    assert(below == top);
                                    lemma_kindred_full(text, **codex, *symbol);
                                    lemma_sieve_deeper(codes, target, top, CODE_WIDTH as int);
                                }
                                return None;
                            }
                            let p = found.unwrap();
                            proof {
                                assert(is_kth_occurrence(bits, bit, asked, p as int));
                                bit_vector.lemma_len_fits();
                                if below == top {
                                    assert forall|j: int| 0 <= j < held.len() implies agrees(
                                        #[trigger] held[j],
                                        target,
                                        depth as int,
                                    ) by {
                                        lemma_sieve_members(codes, target, depth as int, j);
                                    }
                                    lemma_select_deepest(
                                        held,
                                        target,
                                        depth as int,
                                        asked,
                                        p as int,
                                    );
                                } else {
                                    lemma_select_upward(
                                        held,
                                        target,
                                        depth as int,
                                        top,
                                        asked,
                                        p as int,
                                    );
                                }
                            }
                            i = p + 1;
                        },
                    }
                },
            }
        }
        proof {
            let p = i - 1;
            lemma_sieve_zero(codes, target);
            lemma_sieve_take(codes, target, top, p + 1);
            assert(top == CODE_WIDTH);
            lemma_found_occurrence(text, **codex, *symbol, k as int, p);
        }
        Some(i - 1)
    }

    /// Why `rank` has no result, if it has none: the symbol is unknown to
    /// the codex, or else a position is out of range, be it `index` in the
    /// text or the position that a node hands down when it counts nothing.
    pub open spec fn rank_failure(&self, symbol: char, index: int) -> Option<Failure> {
        if !self.table().contains_key(symbol) {
            Some(Failure::UnknownSymbol)
        } else if index < 0 || index >= self@.len() || starved(
            self@,
            self.table(),
            symbol,
            index,
        ) {
            Some(Failure::OutOfRange)
        } else {
            None
        }
    }

    /// Why `select` has no result, if it has none: the symbol is unknown to
    /// the codex; or else the count is invalid, being 0 or larger than the
    /// number of occurrences; or else a position is out of range on the way
    /// down.
    pub open spec fn select_failure(&self, symbol: char, k: int) -> Option<Failure> {
        if !self.table().contains_key(symbol) {
            Some(Failure::UnknownSymbol)
        } else if k < 1 || k > occurrences(self@, symbol) {
            Some(Failure::InvalidCount)
        } else if !threaded(self@, self.table(), symbol, 0, k) {
            Some(Failure::OutOfRange)
        } else {
            None
        }
    }

    /// `rank`, with the reason where it has no result.
    pub fn try_rank(&self, symbol: &char, index: usize) -> (count: Result<usize, Failure>)
        requires
            self.wf(),
        ensures
            match count {
                Ok(n) => self.spec_rank(*symbol, index as int) == Some(n as nat),
                Err(failure) => self.rank_failure(*symbol, index as int) == Some(failure),
            },
    {
        match self.rank(symbol, index) {
            Some(n) => Ok(n),
            None => match self {
                WaveletTreeNode::Empty => Err(Failure::UnknownSymbol),
                WaveletTreeNode::Node { codex, .. } => {
                    if codex.get(symbol).is_none() {
                        Err(Failure::UnknownSymbol)
                    } else {
                        Err(Failure::OutOfRange)
                    }
                },
            },
        }
    }

    /// `select`, with the reason where it has no result.
    pub fn try_select(&self, symbol: &char, k: usize) -> (position: Result<usize, Failure>)
        requires
            self.wf(),
        ensures
            match position {
                Ok(p) => self.spec_select(*symbol, k as int) == Some(p as int),
                Err(failure) => self.select_failure(*symbol, k as int) == Some(failure),
            },
    {
        match self.select(symbol, k) {
            Some(p) => Ok(p),
            None => match self {
                WaveletTreeNode::Empty => Err(Failure::UnknownSymbol),
                WaveletTreeNode::Node { bit_vector, codex, .. } => {
                    if codex.get(symbol).is_none() {
                        Err(Failure::UnknownSymbol)
                    } else if k < 1 {
                        Err(Failure::InvalidCount)
                    } else {
                        // The rank at the last position is the number of occurrences.
                        proof {
                            lemma_wf_text(*self);
                            lemma_rank_at_end(*self, *symbol);
                        }
                        let total = self.rank(symbol, bit_vector.len() - 1);
                        if k > total.unwrap() {
                            Err(Failure::InvalidCount)
                        } else {
                            Err(Failure::OutOfRange)
                        }
                    }
                },
            },
        }
    }
}

/// At the last position of the text `rank` counts every occurrence: a query
/// that has the whole text before it cannot run dry.
pub proof fn lemma_rank_at_end(tree: WaveletTreeNode, symbol: char)
    requires
        tree.wf(),
        tree.table().contains_key(symbol),
        tree@.len() > 0,
    ensures
        tree.spec_rank(symbol, tree@.len() - 1) == Some(occurrences(tree@, symbol)),
{
    let text = tree@;
    assert(text.take(text.len() as int) =~= text);
}

} // verus!
