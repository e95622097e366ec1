//! Laws of the wavelet tree: what its queries and its shape owe to the text
//! it was built from.

use vstd::prelude::*;
use crate::counting::{
    is_binary, kth_occurrence, lemma_kth_occurrence_at, lemma_kth_occurrence_exists,
    lemma_occurrences_binary, lemma_occurrences_bound, lemma_occurrences_zero, occurrences,
};
use crate::codex::CODE_WIDTH;
use crate::failure::Failure;
use crate::partition::{
    all_of_width, branch, lemma_branch_len, lemma_branch_members, lemma_sieve_deeper, level_bits,
};
use crate::coded_text::{
    codes_of, kindred, lemma_codes_of_take, lemma_kindred_full, lemma_threaded_room, starved,
    threaded,
};
use crate::wavelet_tree::{lemma_wf_text, WaveletTreeNode};

verus! {

/// Two nodes have the same shape: the same bit vector contents at every
/// node, and empty nodes in the same places.
pub open spec fn same_shape(a: WaveletTreeNode, b: WaveletTreeNode) -> bool
    decreases a,
{
    match (a, b) {
        (WaveletTreeNode::Empty, WaveletTreeNode::Empty) => true,
        (
            WaveletTreeNode::Node { bit_vector: bits_a, left: left_a, right: right_a, .. },
            WaveletTreeNode::Node { bit_vector: bits_b, left: left_b, right: right_b, .. },
        ) => {
            &&& bits_a@ == bits_b@
            &&& same_shape(*left_a, *left_b)
            &&& same_shape(*right_a, *right_b)
        },
        _ => false,
    }
}

/// Number of bits that a node holds; an empty node holds none.
pub open spec fn bit_len(node: WaveletTreeNode) -> nat {
    match node {
        WaveletTreeNode::Empty => 0,
        WaveletTreeNode::Node { bit_vector, .. } => bit_vector@.len(),
    }
}

/// The node reached from `node` by following `path`: left on a 0, right on
/// any other bit. Below an empty node there are only empty nodes.
pub open spec fn descend(node: WaveletTreeNode, path: Seq<u8>) -> WaveletTreeNode
    decreases path.len(),
{
    if path.len() == 0 {
        node
    } else {
        match node {
            WaveletTreeNode::Empty => WaveletTreeNode::Empty,
            WaveletTreeNode::Node { left, right, .. } => if path[0] == 0 {
                descend(*left, path.drop_first())
            } else {
                descend(*right, path.drop_first())
            },
        }
    }
}

/// A query for a symbol that occurs at or before `index` never runs dry.
pub proof fn lemma_occurrence_feeds_rank(tree: WaveletTreeNode, symbol: char, index: int)
    requires
        tree.wf(),
        0 <= index < tree@.len(),
        occurrences(tree@.take(index + 1), symbol) > 0,
    ensures
        tree.table().contains_key(symbol),
        !starved(tree@, tree.table(), symbol, index),
{
    lemma_wf_text(tree);
    let text = tree@;
    let table = tree.table();
    let seen = text.take(index + 1);
    lemma_occurrences_zero(seen, symbol);
    let j = choose|j: int| 0 <= j < seen.len() && seen[j] == symbol;
    assert(text[j] == symbol);
    match tree {
        WaveletTreeNode::Empty => {},
        WaveletTreeNode::Node { codex, .. } => {
            lemma_codes_of_take(text, table, index + 1);
            lemma_kindred_full(seen, *codex, symbol);
            assert forall|depth: int| 1 <= depth < table[symbol].len() implies kindred(
                seen,
                table,
                symbol,
                depth,
            ) > 0 by {
                codex.lemma_code_shape(symbol);
                lemma_sieve_deeper(codes_of(seen, table), table[symbol], depth, CODE_WIDTH as int);
            }
        },
    }
}

/// `rank` counts occurrences: for a symbol of the codex and a position of
/// the text, its result is the number of positions up to and including
/// `index` that hold the symbol. Left out are the queries that run dry below
/// the root.
pub proof fn lemma_rank_counts(tree: WaveletTreeNode, symbol: char, index: int)
    requires
        tree.wf(),
        tree.table().contains_key(symbol),
        0 <= index < tree@.len(),
        !starved(tree@, tree.table(), symbol, index),
    ensures
        tree.spec_rank(symbol, index) == Some(occurrences(tree@.take(index + 1), symbol)),
{
}

/// `rank` has no result at a position that is not one of the text: the
/// position is out of range.
pub proof fn lemma_rank_out_of_range(tree: WaveletTreeNode, symbol: char, index: int)
    requires
        tree.wf(),
        tree.table().contains_key(symbol),
        index < 0 || index >= tree@.len(),
    ensures
        tree.spec_rank(symbol, index) is None,
        tree.rank_failure(symbol, index) == Some(Failure::OutOfRange),
{
}

/// `access` gives the code of the symbol at the position: the code that the
/// codex of the tree has for it.
pub proof fn lemma_access_is_code(tree: WaveletTreeNode, index: int)
    requires
        tree.wf(),
        0 <= index < tree@.len(),
    ensures
        tree.table().contains_key(tree@[index]),
        tree.spec_access(index) == Some(tree.table()[tree@[index]]),
        tree.spec_access(index) == Some(tree.codes()[index]),
{
    lemma_wf_text(tree);
    assert(tree.codes()[index] == codes_of(tree@, tree.table())[index]);
}

/// `select` has no result for the count 0, nor for a count larger than the
/// number of occurrences of the symbol: the count is invalid.
pub proof fn lemma_select_invalid_count(tree: WaveletTreeNode, symbol: char, k: int)
    requires
        tree.wf(),
        tree.table().contains_key(symbol),
        k < 1 || k > occurrences(tree@, symbol),
    ensures
        tree.spec_select(symbol, k) is None,
        tree.select_failure(symbol, k) == Some(Failure::InvalidCount),
{
}

/// Neither `rank` nor `select` has a result for a symbol without a code: the
/// symbol is unknown.
pub proof fn lemma_unknown_symbol(tree: WaveletTreeNode, symbol: char, index: int, k: int)
    requires
        tree.wf(),
        !tree.table().contains_key(symbol),
    ensures
        tree.spec_rank(symbol, index) is None,
        tree.spec_select(symbol, k) is None,
        tree.rank_failure(symbol, index) == Some(Failure::UnknownSymbol),
        tree.select_failure(symbol, k) == Some(Failure::UnknownSymbol),
{
}

/// A query has no result exactly when its failure has a name.
pub proof fn lemma_failure_named(tree: WaveletTreeNode, symbol: char, index: int, k: int)
    requires
        tree.wf(),
    ensures
        tree.spec_rank(symbol, index) is None <==> tree.rank_failure(symbol, index) is Some,
        tree.spec_select(symbol, k) is None <==> tree.select_failure(symbol, k) is Some,
{
}

/// `select` is the left inverse of `rank`: where position `i` holds `symbol`
/// and `rank` numbers it `k`, `select` finds position `i` for `k`, provided
/// that the select query gets through on its way down.
pub proof fn lemma_select_inverts_rank(tree: WaveletTreeNode, symbol: char, i: int, k: nat)
    requires
        tree.wf(),
        0 <= i < tree@.len(),
        tree@[i] == symbol,
        tree.spec_rank(symbol, i) == Some(k),
        threaded(tree@, tree.table(), symbol, 0, k as int),
    ensures
        tree.spec_select(symbol, k as int) == Some(i),
{
    lemma_kth_occurrence_at(tree@, symbol, i);
}

/// Where position `i` holds `symbol`, `rank` has a result there, and it is
/// at least 1.
pub proof fn lemma_rank_at_occurrence(tree: WaveletTreeNode, symbol: char, i: int)
    requires
        tree.wf(),
        0 <= i < tree@.len(),
        tree@[i] == symbol,
    ensures
        tree.spec_rank(symbol, i) matches Some(k) && k >= 1,
{
    lemma_kth_occurrence_at(tree@, symbol, i);
    lemma_occurrence_feeds_rank(tree, symbol, i);
}

/// `rank` is the inverse of `select`: the position that `select` finds for
/// the `k`-th occurrence holds `symbol`, and `rank` numbers it `k`.
pub proof fn lemma_rank_inverts_select(tree: WaveletTreeNode, symbol: char, k: int)
    requires
        tree.wf(),
        tree.spec_select(symbol, k) is Some,
    ensures
        tree.spec_select(symbol, k) matches Some(p) && 0 <= p < tree@.len() && tree@[p] == symbol
            && tree.spec_rank(symbol, p) == Some(k as nat),
{
    lemma_kth_occurrence_exists(tree@, symbol, k);
    let p = kth_occurrence(tree@, symbol, k);
    lemma_occurrence_feeds_rank(tree, symbol, p);
}

/// `select` needs room: it finds the `k`-th occurrence only where at
/// least `CODE_WIDTH` positions of the text lie at or after position `k`.
pub proof fn lemma_select_needs_room(tree: WaveletTreeNode, symbol: char, k: int)
    requires
        tree.wf(),
        tree.spec_select(symbol, k) is Some,
    ensures
        k + CODE_WIDTH <= tree@.len(),
{
    match tree {
        WaveletTreeNode::Empty => {},
        WaveletTreeNode::Node { codex, .. } => {
            codex.lemma_code_shape(symbol);
            lemma_threaded_room(tree@, tree.table(), symbol, 0, k);
        },
    }
}

/// Two nodes that stand for the same codes at the same depth have the same
/// shape.
pub proof fn lemma_same_codes_same_shape(
    a: WaveletTreeNode,
    b: WaveletTreeNode,
    codes: Seq<Seq<u8>>,
    depth: nat,
    width: nat,
)
    requires
        a.holds(codes, depth, width),
        b.holds(codes, depth, width),
    ensures
        same_shape(a, b),
    decreases a,
{
    match (a, b) {
        (
            WaveletTreeNode::Node { left: left_a, right: right_a, .. },
            WaveletTreeNode::Node { left: left_b, right: right_b, .. },
        ) => {
            lemma_same_codes_same_shape(
                *left_a,
                *left_b,
                branch(codes, depth as int, 0u8),
                depth + 1,
                width,
            );
            lemma_same_codes_same_shape(
                *right_a,
                *right_b,
                branch(codes, depth as int, 1u8),
                depth + 1,
                width,
            );
        },
        _ => {},
    }
}

/// Building twice gives the same tree: two well-formed trees of the same
/// text under the same code table have the same bit vector contents at every
/// node.
pub proof fn lemma_rebuild_same_shape(a: WaveletTreeNode, b: WaveletTreeNode)
    requires
        a.wf(),
        b.wf(),
        a@ == b@,
        a.table() == b.table(),
    ensures
        same_shape(a, b),
{
    lemma_wf_text(a);
    lemma_wf_text(b);
    lemma_same_codes_same_shape(a, b, a.codes(), 0, CODE_WIDTH as nat);
}

/// The node at the end of a path stands for the codes that start with the
/// bits of the path.
proof fn lemma_descend_holds(
    node: WaveletTreeNode,
    codes: Seq<Seq<u8>>,
    depth: nat,
    width: nat,
    path: Seq<u8>,
) -> (reached: Seq<Seq<u8>>)
    requires
        node.holds(codes, depth, width),
        depth + path.len() <= width,
        all_of_width(codes, width as int),
        is_binary(path),
    ensures
        descend(node, path).holds(reached, depth + path.len(), width),
        all_of_width(reached, width as int),
        path.len() == 0 ==> reached == codes,
    decreases path.len(),
{
    if path.len() == 0 {
        codes
    } else {
        let bit = path[0];
        let rest = path.drop_first();
        let sub = branch(codes, depth as int, bit);
        assert forall|p: int| 0 <= p < sub.len() implies (#[trigger] sub[p]).len() == width
            && is_binary(sub[p]) by {
            lemma_branch_members(codes, depth as int, bit, p);
        }
        assert forall|i: int| 0 <= i < rest.len() implies #[trigger] rest[i] <= 1 by {
            assert(rest[i] == path[i + 1]);
        }
        match node {
            WaveletTreeNode::Empty => {
                lemma_branch_len(codes, depth as int, bit);
                lemma_occurrences_bound(level_bits(codes, depth as int), bit);
                lemma_descend_holds(WaveletTreeNode::Empty, sub, depth + 1, width, rest)
            },
            WaveletTreeNode::Node { left, right, .. } => {
                assert(bit <= 1);
                if bit == 0 {
                    lemma_descend_holds(*left, sub, depth + 1, width, rest)
                } else {
                    lemma_descend_holds(*right, sub, depth + 1, width, rest)
                }
            },
        }
    }
}

/// The partition law: the root holds one bit for every position of the
/// text, and a node holds as many bits as its two children together. Left
/// out are the nodes of the last level that are not empty: their children
/// are empty, whatever they hold themselves.
pub proof fn lemma_partition(tree: WaveletTreeNode, path: Seq<u8>)
    requires
        tree.wf(),
        is_binary(path),
        descend(tree, path) is Node ==> path.len() + 1 < CODE_WIDTH,
    ensures
        bit_len(tree) == tree@.len(),
        bit_len(descend(tree, path)) == bit_len(descend(tree, path.push(0u8))) + bit_len(
            descend(tree, path.push(1u8)),
        ),
{
    lemma_wf_text(tree);
    let width = CODE_WIDTH as nat;
    let node = descend(tree, path);
    lemma_descend_push(tree, path, 0u8);
    lemma_descend_push(tree, path, 1u8);
    match node {
        WaveletTreeNode::Empty => {
            lemma_descend_empty(seq![0u8]);
            lemma_descend_empty(seq![1u8]);
        },
        WaveletTreeNode::Node { bit_vector, left, right, .. } => {
            let reached = lemma_descend_holds(tree, tree.codes(), 0, width, path);
            let depth = path.len() as int;
            let bits = level_bits(reached, depth);
            assert(is_binary(bits)) by {
                assert forall|j: int| 0 <= j < bits.len() implies #[trigger] bits[j] <= 1 by {
                    assert(is_binary(reached[j]));
                }
            }
            lemma_occurrences_binary(bits);
            lemma_branch_len(reached, depth, 0u8);
            lemma_branch_len(reached, depth, 1u8);
            assert(seq![0u8].drop_first() =~= Seq::<u8>::empty());
            assert(seq![1u8].drop_first() =~= Seq::<u8>::empty());
            assert(descend(*left, Seq::<u8>::empty()) == *left);
            assert(descend(*right, Seq::<u8>::empty()) == *right);
            assert(descend(node, seq![0u8]) == *left);
            assert(descend(node, seq![1u8]) == *right);
            lemma_bit_len_holds(*left, branch(reached, depth, 0u8), (depth + 1) as nat, width);
            lemma_bit_len_holds(*right, branch(reached, depth, 1u8), (depth + 1) as nat, width);
        },
    }
}

/// In a well-formed tree, the nodes of the last level that are not empty
/// are where the partition law stops: such a node holds a bit for each
/// symbol that reaches it, and both its children are empty.
pub proof fn lemma_last_level(tree: WaveletTreeNode, path: Seq<u8>)
    requires
        tree.wf(),
        is_binary(path),
        path.len() + 1 == CODE_WIDTH,
        descend(tree, path) is Node,
    ensures
        bit_len(descend(tree, path)) > 0,
        descend(tree, path.push(0u8)) is Empty,
        descend(tree, path.push(1u8)) is Empty,
{
    lemma_wf_text(tree);
    let width = CODE_WIDTH as nat;
    let node = descend(tree, path);
    let reached = lemma_descend_holds(tree, tree.codes(), 0, width, path);
    lemma_descend_push(tree, path, 0u8);
    lemma_descend_push(tree, path, 1u8);
    match node {
        WaveletTreeNode::Empty => {},
        WaveletTreeNode::Node { left, right, .. } => {
            assert(seq![0u8].drop_first() =~= Seq::<u8>::empty());
            assert(seq![1u8].drop_first() =~= Seq::<u8>::empty());
            assert(descend(*left, Seq::<u8>::empty()) == *left);
            assert(descend(*right, Seq::<u8>::empty()) == *right);
            assert(descend(node, seq![0u8]) == *left);
            assert(descend(node, seq![1u8]) == *right);
            let depth = path.len() as int;
            lemma_bottom_is_empty(*left, branch(reached, depth, 0u8), width);
            lemma_bottom_is_empty(*right, branch(reached, depth, 1u8), width);
        },
    }
}

/// Below the last bit of the codes there are only empty nodes.
proof fn lemma_bottom_is_empty(node: WaveletTreeNode, codes: Seq<Seq<u8>>, width: nat)
    requires
        node.holds(codes, width, width),
    ensures
        node is Empty,
{
}

/// Above the last level, a node holds one bit for each code it stands for.
proof fn lemma_bit_len_holds(node: WaveletTreeNode, codes: Seq<Seq<u8>>, depth: nat, width: nat)
    requires
        node.holds(codes, depth, width),
        depth < width,
    ensures
        bit_len(node) == codes.len(),
{
}

/// Following a path and then one more bit is following the longer path.
proof fn lemma_descend_push(node: WaveletTreeNode, path: Seq<u8>, bit: u8)
    ensures
        descend(node, path.push(bit)) == descend(descend(node, path), seq![bit]),
    decreases path.len(),
{
    if path.len() == 0 {
        assert(path.push(bit) =~= seq![bit]);
    } else {
        assert(path.push(bit).drop_first() =~= path.drop_first().push(bit));
        match node {
            WaveletTreeNode::Empty => {
                lemma_descend_push(WaveletTreeNode::Empty, path.drop_first(), bit);
                assert(descend(WaveletTreeNode::Empty, path.drop_first())
                    == WaveletTreeNode::Empty) by {
                    lemma_descend_empty(path.drop_first());
                }
                lemma_descend_empty(path);
                lemma_descend_empty(path.push(bit));
            },
            WaveletTreeNode::Node { left, right, .. } => {
                if path[0] == 0 {
                    lemma_descend_push(*left, path.drop_first(), bit);
                } else {
                    lemma_descend_push(*right, path.drop_first(), bit);
                }
            },
        }
    }
}

/// Below an empty node there are only empty nodes.
proof fn lemma_descend_empty(path: Seq<u8>)
    ensures
        descend(WaveletTreeNode::Empty, path) == WaveletTreeNode::Empty,
    decreases path.len(),
{
    if path.len() > 0 {
        lemma_descend_empty(path.drop_first());
    }
}

} // verus!
