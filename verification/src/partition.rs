//! How a sequence of codes is split, level by level, by the bits of its
//! elements.
//!
//! A node at depth `d` of a wavelet tree stands for a sequence of codes. Its
//! bit vector is `level_bits` of that sequence; its children stand for the two
//! `branch`es. Following the bits of one target code from the root leads, at
//! depth `d`, to the `sieve` of the whole sequence: the codes that agree with
//! the target on their first `d` bits, in the order of the sequence.

use vstd::prelude::*;
use crate::counting::{
    is_binary, is_kth_occurrence, lemma_occurrences_step, lemma_occurrences_take, occurrences,
};

verus! {

/// The bit at position `depth` of every code, in order.
pub open spec fn level_bits(codes: Seq<Seq<u8>>, depth: int) -> Seq<u8> {
    Seq::new(codes.len(), |j: int| codes[j][depth])
}

/// The codes whose bit at position `depth` is `bit`, in the order of the
/// sequence.
pub open spec fn branch(codes: Seq<Seq<u8>>, depth: int, bit: u8) -> Seq<Seq<u8>>
    decreases codes.len(),
{
    if codes.len() == 0 {
        Seq::empty()
    } else {
        let front = branch(codes.drop_last(), depth, bit);
        if codes.last()[depth] == bit {
            front.push(codes.last())
        } else {
            front
        }
    }
}

/// `code` and `target` have the same first `depth` bits.
pub open spec fn agrees(code: Seq<u8>, target: Seq<u8>, depth: int) -> bool {
    forall|k: int| 0 <= k < depth ==> code[k] == target[k]
}

/// The codes that agree with `target` on their first `depth` bits, in the
/// order of the sequence.
pub open spec fn sieve(codes: Seq<Seq<u8>>, target: Seq<u8>, depth: int) -> Seq<Seq<u8>>
    decreases codes.len(),
{
    if codes.len() == 0 {
        Seq::empty()
    } else {
        let front = sieve(codes.drop_last(), target, depth);
        if agrees(codes.last(), target, depth) {
            front.push(codes.last())
        } else {
            front
        }
    }
}

/// Every code has `width` elements, each of them a bit.
pub open spec fn all_of_width(codes: Seq<Seq<u8>>, width: int) -> bool {
    forall|j: int|
        0 <= j < codes.len() ==> (#[trigger] codes[j]).len() == width && is_binary(codes[j])
}

/// The bits of a prefix are a prefix of the bits.
pub proof fn lemma_level_bits_take(codes: Seq<Seq<u8>>, depth: int, m: int)
    requires
        0 <= m <= codes.len(),
    ensures
        level_bits(codes.take(m), depth) == level_bits(codes, depth).take(m),
{
    assert(level_bits(codes.take(m), depth) =~= level_bits(codes, depth).take(m));
}

/// One more code at the end goes to the branch exactly when its bit matches.
pub proof fn lemma_branch_push(codes: Seq<Seq<u8>>, code: Seq<u8>, depth: int, bit: u8)
    ensures
        branch(codes.push(code), depth, bit) == if code[depth] == bit {
            branch(codes, depth, bit).push(code)
        } else {
            branch(codes, depth, bit)
        },
        level_bits(codes.push(code), depth) == level_bits(codes, depth).push(code[depth]),
{
    assert(codes.push(code).drop_last() =~= codes);
    assert(level_bits(codes.push(code), depth) =~= level_bits(codes, depth).push(code[depth]));
}

/// A branch has as many codes as the level has bits of that value.
pub proof fn lemma_branch_len(codes: Seq<Seq<u8>>, depth: int, bit: u8)
    ensures
        branch(codes, depth, bit).len() == occurrences(level_bits(codes, depth), bit),
    decreases codes.len(),
{
    if codes.len() > 0 {
        let front = codes.drop_last();
        lemma_branch_len(front, depth, bit);
        assert(level_bits(codes, depth).drop_last() =~= level_bits(front, depth));
    }
}

/// Every code of a branch is a code of the sequence, with the branch's bit.
pub proof fn lemma_branch_members(codes: Seq<Seq<u8>>, depth: int, bit: u8, p: int)
    requires
        0 <= p < branch(codes, depth, bit).len(),
    ensures
        branch(codes, depth, bit)[p][depth] == bit,
        exists|j: int| 0 <= j < codes.len() && codes[j] == branch(codes, depth, bit)[p],
    decreases codes.len(),
{
    if codes.len() > 0 {
        let front = codes.drop_last();
        let sub = branch(front, depth, bit);
        if p < sub.len() {
            lemma_branch_members(front, depth, bit, p);
            let j = choose|j: int| 0 <= j < front.len() && front[j] == sub[p];
            assert(codes[j] == branch(codes, depth, bit)[p]);
        } else {
            assert(codes[codes.len() - 1] == branch(codes, depth, bit)[p]);
        }
    }
}

/// The branch of a prefix is a prefix of the branch: as long as the prefix
/// has bits of that value.
pub proof fn lemma_branch_take(codes: Seq<Seq<u8>>, depth: int, bit: u8, m: int)
    requires
        0 <= m <= codes.len(),
    ensures
        occurrences(level_bits(codes, depth).take(m), bit) <= branch(codes, depth, bit).len(),
        branch(codes.take(m), depth, bit) == branch(codes, depth, bit).take(
            occurrences(level_bits(codes, depth).take(m), bit) as int,
        ),
    decreases codes.len(),
{
    let bits = level_bits(codes, depth);
    lemma_branch_len(codes, depth, bit);
    lemma_occurrences_take(bits, bit, m);
    if m == codes.len() {
        assert(codes.take(m) =~= codes);
        assert(bits.take(m) =~= bits);
        assert(branch(codes, depth, bit).take(branch(codes, depth, bit).len() as int) =~= branch(
            codes,
            depth,
            bit,
        ));
    } else {
        let front = codes.drop_last();
        lemma_branch_take(front, depth, bit, m);
        assert(codes.take(m) =~= front.take(m));
        assert(level_bits(front, depth).take(m) =~= bits.take(m));
        let k = occurrences(bits.take(m), bit) as int;
        assert(branch(front, depth, bit).take(k) =~= branch(codes, depth, bit).take(k));
    }
}

/// Where a code lands in its branch: at the position given by the number of
/// equal bits up to and including its own.
pub proof fn lemma_branch_index(codes: Seq<Seq<u8>>, depth: int, i: int)
    requires
        0 <= i < codes.len(),
    ensures
        ({
            let bit = codes[i][depth];
            let r = occurrences(level_bits(codes, depth).take(i + 1), bit);
            &&& 1 <= r <= branch(codes, depth, bit).len()
            &&& branch(codes, depth, bit)[r - 1] == codes[i]
        }),
{
    let bit = codes[i][depth];
    let bits = level_bits(codes, depth);
    let r = occurrences(bits.take(i + 1), bit);
    lemma_branch_take(codes, depth, bit, i + 1);
    lemma_occurrences_step(bits, bit, i);
    assert(codes.take(i + 1) =~= codes.take(i).push(codes[i]));
    lemma_branch_push(codes.take(i), codes[i], depth, bit);
    let head = branch(codes.take(i + 1), depth, bit);
    assert(head.last() == codes[i]);
    assert(head.len() == r) by {
        lemma_branch_len(codes.take(i + 1), depth, bit);
        lemma_level_bits_take(codes, depth, i + 1);
    }
}

/// Agreement on no bits at all keeps every code.
pub proof fn lemma_sieve_zero(codes: Seq<Seq<u8>>, target: Seq<u8>)
    ensures
        sieve(codes, target, 0) == codes,
    decreases codes.len(),
{
    if codes.len() > 0 {
        lemma_sieve_zero(codes.drop_last(), target);
        assert(codes.drop_last().push(codes.last()) =~= codes);
    } else {
        assert(codes =~= Seq::empty());
    }
}

/// One more code at the end is kept exactly when it agrees with the target.
pub proof fn lemma_sieve_push(codes: Seq<Seq<u8>>, code: Seq<u8>, target: Seq<u8>, depth: int)
    ensures
        sieve(codes.push(code), target, depth) == if agrees(code, target, depth) {
            sieve(codes, target, depth).push(code)
        } else {
            sieve(codes, target, depth)
        },
{
    assert(codes.push(code).drop_last() =~= codes);
}

/// One level further down the path of `target` is the branch for its next bit.
pub proof fn lemma_sieve_step(codes: Seq<Seq<u8>>, target: Seq<u8>, depth: int)
    requires
        0 <= depth,
    ensures
        sieve(codes, target, depth + 1) == branch(
            sieve(codes, target, depth),
            depth,
            target[depth],
        ),
    decreases codes.len(),
{
    if codes.len() > 0 {
        let front = codes.drop_last();
        let last = codes.last();
        lemma_sieve_step(front, target, depth);
        if agrees(last, target, depth) {
            lemma_branch_push(sieve(front, target, depth), last, depth, target[depth]);
        }
    }
}

/// Every kept code agrees with the target and is a code of the sequence.
pub proof fn lemma_sieve_members(codes: Seq<Seq<u8>>, target: Seq<u8>, depth: int, p: int)
    requires
        0 <= p < sieve(codes, target, depth).len(),
    ensures
        agrees(sieve(codes, target, depth)[p], target, depth),
        exists|j: int| 0 <= j < codes.len() && codes[j] == sieve(codes, target, depth)[p],
    decreases codes.len(),
{
    if codes.len() > 0 {
        let front = codes.drop_last();
        let sub = sieve(front, target, depth);
        if p < sub.len() {
            lemma_sieve_members(front, target, depth, p);
            let j = choose|j: int| 0 <= j < front.len() && front[j] == sub[p];
            assert(codes[j] == sieve(codes, target, depth)[p]);
        } else {
            assert(codes[codes.len() - 1] == sieve(codes, target, depth)[p]);
        }
    }
}

/// The sieve of a prefix is a prefix of the sieve.
pub proof fn lemma_sieve_take(codes: Seq<Seq<u8>>, target: Seq<u8>, depth: int, m: int)
    requires
        0 <= m <= codes.len(),
    ensures
        sieve(codes.take(m), target, depth).len() <= sieve(codes, target, depth).len(),
        sieve(codes.take(m), target, depth) == sieve(codes, target, depth).take(
            sieve(codes.take(m), target, depth).len() as int,
        ),
    decreases codes.len(),
{
    let whole = sieve(codes, target, depth);
    if m == codes.len() {
        assert(codes.take(m) =~= codes);
        assert(whole.take(whole.len() as int) =~= whole);
    } else {
        let front = codes.drop_last();
        lemma_sieve_take(front, target, depth, m);
        assert(codes.take(m) =~= front.take(m));
        let k = sieve(front.take(m), target, depth).len() as int;
        assert(sieve(front, target, depth).take(k) =~= whole.take(k));
    }
}

/// The sieve of a prefix grows by one exactly when the next code agrees.
pub proof fn lemma_sieve_prefix_step(codes: Seq<Seq<u8>>, target: Seq<u8>, depth: int, m: int)
    requires
        0 <= m < codes.len(),
    ensures
        sieve(codes.take(m + 1), target, depth) == if agrees(codes[m], target, depth) {
            sieve(codes.take(m), target, depth).push(codes[m])
        } else {
            sieve(codes.take(m), target, depth)
        },
{
    assert(codes.take(m + 1) =~= codes.take(m).push(codes[m]));
    lemma_sieve_push(codes.take(m), codes[m], target, depth);
}

/// Taking a branch along the path first does not change a deeper sieve.
pub proof fn lemma_sieve_after_branch(
    codes: Seq<Seq<u8>>,
    target: Seq<u8>,
    level: int,
    depth: int,
)
    requires
        0 <= level < depth,
    ensures
        sieve(branch(codes, level, target[level]), target, depth) == sieve(codes, target, depth),
    decreases codes.len(),
{
    if codes.len() > 0 {
        let front = codes.drop_last();
        let last = codes.last();
        lemma_sieve_after_branch(front, target, level, depth);
        if last[level] == target[level] {
            lemma_sieve_push(branch(front, level, target[level]), last, target, depth);
        }
    }
}

/// Asking for agreement on more bits keeps fewer codes.
pub proof fn lemma_sieve_deeper(codes: Seq<Seq<u8>>, target: Seq<u8>, depth: int, deeper: int)
    requires
        depth <= deeper,
    ensures
        sieve(codes, target, deeper).len() <= sieve(codes, target, depth).len(),
    decreases codes.len(),
{
    if codes.len() > 0 {
        lemma_sieve_deeper(codes.drop_last(), target, depth, deeper);
    }
}

/// A sequence whose codes all agree with the target is its own sieve.
pub proof fn lemma_sieve_identity(codes: Seq<Seq<u8>>, target: Seq<u8>, depth: int)
    requires
        forall|j: int| 0 <= j < codes.len() ==> agrees(#[trigger] codes[j], target, depth),
    ensures
        sieve(codes, target, depth) == codes,
    decreases codes.len(),
{
    if codes.len() > 0 {
        let front = codes.drop_last();
        assert forall|j: int| 0 <= j < front.len() implies agrees(
            #[trigger] front[j],
            target,
            depth,
        ) by {
            assert(front[j] == codes[j]);
        }
        lemma_sieve_identity(front, target, depth);
        assert(agrees(codes[codes.len() - 1], target, depth));
        assert(front.push(codes.last()) =~= codes);
    } else {
        assert(codes =~= Seq::empty());
    }
}

/// What a node on the path hands down: among the codes that a prefix of the
/// sequence sends to the node, those whose bit equals the target's are the
/// codes that the prefix sends one level further.
pub proof fn lemma_sieve_rank(codes: Seq<Seq<u8>>, target: Seq<u8>, depth: int, m: int)
    requires
        0 <= depth,
        0 <= m <= codes.len(),
    ensures
        ({
            let held = sieve(codes, target, depth);
            let reached = sieve(codes.take(m), target, depth);
            &&& reached.len() <= held.len()
            &&& held.take(reached.len() as int) == reached
            &&& occurrences(level_bits(held, depth).take(reached.len() as int), target[depth])
                == sieve(codes.take(m), target, depth + 1).len()
        }),
{
    let held = sieve(codes, target, depth);
    let reached = sieve(codes.take(m), target, depth);
    lemma_sieve_take(codes, target, depth, m);
    lemma_level_bits_take(held, depth, reached.len() as int);
    lemma_branch_len(reached, depth, target[depth]);
    lemma_sieve_step(codes.take(m), target, depth);
}

/// At the deepest node of a path, the position of the `k`-th bit equal to
/// the target's is the position of the `k`-th code that agrees with the
/// target one bit further.
pub proof fn lemma_select_deepest(
    held: Seq<Seq<u8>>,
    target: Seq<u8>,
    depth: int,
    k: int,
    q: int,
)
    requires
        0 <= depth,
        forall|j: int| 0 <= j < held.len() ==> agrees(#[trigger] held[j], target, depth),
        is_kth_occurrence(level_bits(held, depth), target[depth], k, q),
    ensures
        0 <= q < held.len(),
        agrees(held[q], target, depth + 1),
        sieve(held.take(q + 1), target, depth + 1).len() == k,
{
    let head = held.take(q + 1);
    assert forall|j: int| 0 <= j < head.len() implies agrees(#[trigger] head[j], target, depth) by {
        assert(head[j] == held[j]);
    }
    lemma_sieve_identity(head, target, depth);
    lemma_sieve_step(head, target, depth);
    lemma_branch_len(head, depth, target[depth]);
    lemma_level_bits_take(held, depth, q + 1);
    assert(agrees(held[q], target, depth));
}

/// One node further up, the position of the bit that stands for a position
/// of the child is the position of the same code, and the codes up to it
/// that agree with the target down to depth `top` are the same.
pub proof fn lemma_select_upward(
    held: Seq<Seq<u8>>,
    target: Seq<u8>,
    depth: int,
    top: int,
    below: int,
    q: int,
)
    requires
        0 <= depth < top,
        1 <= below <= branch(held, depth, target[depth]).len(),
        is_kth_occurrence(level_bits(held, depth), target[depth], below, q),
        agrees(branch(held, depth, target[depth])[below - 1], target, top),
    ensures
        0 <= q < held.len(),
        agrees(held[q], target, top),
        sieve(held.take(q + 1), target, top) == sieve(
            branch(held, depth, target[depth]).take(below),
            target,
            top,
        ),
{
    lemma_branch_index(held, depth, q);
    lemma_branch_take(held, depth, target[depth], q + 1);
    lemma_sieve_after_branch(held.take(q + 1), target, depth, top);
}

/// A code that agrees with the target, at or after the end of a prefix, is
/// kept by the sieve of the whole sequence but not by that of the prefix.
pub proof fn lemma_sieve_room(codes: Seq<Seq<u8>>, target: Seq<u8>, depth: int, m: int, x: int)
    requires
        0 <= m <= x < codes.len(),
        agrees(codes[x], target, depth),
    ensures
        sieve(codes.take(m), target, depth).len() < sieve(codes, target, depth).len(),
{
    lemma_sieve_take(codes.take(x), target, depth, m);
    assert(codes.take(x).take(m) =~= codes.take(m));
    lemma_sieve_prefix_step(codes, target, depth, x);
    lemma_sieve_take(codes, target, depth, x + 1);
}

/// Between two prefixes with different sieve sizes stands a code that agrees
/// with the target; the returned position is the first one.
pub proof fn lemma_sieve_next(codes: Seq<Seq<u8>>, target: Seq<u8>, depth: int, m: int) -> (x:
    int)
    requires
        0 <= m <= codes.len(),
        sieve(codes.take(m), target, depth).len() < sieve(codes, target, depth).len(),
    ensures
        m <= x < codes.len(),
        agrees(codes[x], target, depth),
        forall|y: int| m <= y < x ==> !agrees(codes[y], target, depth),
        sieve(codes.take(x), target, depth) == sieve(codes.take(m), target, depth),
    decreases codes.len() - m,
{
    if m == codes.len() {
        assert(codes.take(m) =~= codes);
        m
    } else {
        lemma_sieve_prefix_step(codes, target, depth, m);
        if agrees(codes[m], target, depth) {
            m
        } else {
            lemma_sieve_next(codes, target, depth, m + 1)
        }
    }
}

} // verus!
