//! Counting occurrences of a value in a sequence, and locating the k-th one.
//!
//! Both the bit vector and the wavelet tree state their results over the
//! functions of this module.

use vstd::prelude::*;

verus! {

/// Number of positions of `s` that hold `x`.
pub open spec fn occurrences<T>(s: Seq<T>, x: T) -> nat
    decreases s.len(),
{
    if s.len() == 0 {
        0
    } else {
        occurrences(s.drop_last(), x) + if s.last() == x {
            1nat
        } else {
            0nat
        }
    }
}

/// `p` is the position of the `k`-th occurrence of `x` in `s`, counting from 1.
pub open spec fn is_kth_occurrence<T>(s: Seq<T>, x: T, k: int, p: int) -> bool {
    &&& 0 <= p < s.len()
    &&& s[p] == x
    &&& occurrences(s.take(p + 1), x) == k
}

/// The position of the `k`-th occurrence of `x` in `s`, counting from 1.
/// Meaningful when `1 <= k <= occurrences(s, x)`.
pub open spec fn kth_occurrence<T>(s: Seq<T>, x: T, k: int) -> int {
    choose|p: int| is_kth_occurrence(s, x, k, p)
}

/// Every element of `s` is the bit 0 or the bit 1.
pub open spec fn is_binary(s: Seq<u8>) -> bool {
    forall|i: int| 0 <= i < s.len() ==> #[trigger] s[i] <= 1
}

/// Extending a prefix by one position adds one exactly when that position holds `x`.
pub proof fn lemma_occurrences_step<T>(s: Seq<T>, x: T, i: int)
    requires
        0 <= i < s.len(),
    ensures
        occurrences(s.take(i + 1), x) == occurrences(s.take(i), x) + if s[i] == x {
            1nat
        } else {
            0nat
        },
{
    assert(s.take(i + 1).drop_last() =~= s.take(i));
}

/// Counts along prefixes never decrease, and grow by at most one per position.
pub proof fn lemma_occurrences_prefix<T>(s: Seq<T>, x: T, i: int, j: int)
    requires
        0 <= i <= j <= s.len(),
    ensures
        occurrences(s.take(i), x) <= occurrences(s.take(j), x),
        occurrences(s.take(j), x) - occurrences(s.take(i), x) <= j - i,
    decreases j - i,
{
    if i < j {
        lemma_occurrences_prefix(s, x, i, j - 1);
        lemma_occurrences_step(s, x, j - 1);
    }
}

/// A sequence holds no more occurrences of a value than it has positions.
pub proof fn lemma_occurrences_bound<T>(s: Seq<T>, x: T)
    ensures
        occurrences(s, x) <= s.len(),
{
    lemma_occurrences_prefix(s, x, 0, s.len() as int);
    assert(s.take(s.len() as int) =~= s);
    assert(occurrences(s.take(0), x) == 0);
}

/// A prefix holds no more occurrences than the whole sequence.
pub proof fn lemma_occurrences_take<T>(s: Seq<T>, x: T, i: int)
    requires
        0 <= i <= s.len(),
    ensures
        occurrences(s.take(i), x) <= occurrences(s, x),
        occurrences(s.take(i), x) <= i,
{
    lemma_occurrences_prefix(s, x, i, s.len() as int);
    lemma_occurrences_prefix(s, x, 0, i);
    assert(s.take(s.len() as int) =~= s);
    assert(occurrences(s.take(0), x) == 0);
}

/// In a sequence of bits, the zeros and the ones together fill every position.
pub proof fn lemma_occurrences_binary(s: Seq<u8>)
    requires
        is_binary(s),
    ensures
        occurrences(s, 0u8) + occurrences(s, 1u8) == s.len(),
    decreases s.len(),
{
    if s.len() > 0 {
        let front = s.drop_last();
        assert forall|i: int| 0 <= i < front.len() implies #[trigger] front[i] <= 1 by {
            assert(front[i] == s[i]);
        }
        lemma_occurrences_binary(front);
        assert(s[s.len() - 1] <= 1);
    }
}

/// A value that never occurs has count zero, and the converse.
pub proof fn lemma_occurrences_zero<T>(s: Seq<T>, x: T)
    ensures
        occurrences(s, x) == 0 <==> (forall|i: int| 0 <= i < s.len() ==> s[i] != x),
    decreases s.len(),
{
    if s.len() > 0 {
        let front = s.drop_last();
        lemma_occurrences_zero(front, x);
        if occurrences(s, x) == 0 {
            assert forall|i: int| 0 <= i < s.len() implies s[i] != x by {
                if i < front.len() {
                    assert(front[i] == s[i]);
                }
            }
        } else {
            if s.last() != x {
                let i = choose|i: int| 0 <= i < front.len() && front[i] == x;
                assert(s[i] == x);
            }
        }
    }
}

/// At most one position is the `k`-th occurrence of a value.
pub proof fn lemma_kth_occurrence_unique<T>(s: Seq<T>, x: T, k: int, p: int, q: int)
    requires
        is_kth_occurrence(s, x, k, p),
        is_kth_occurrence(s, x, k, q),
    ensures
        p == q,
{
    if p < q {
        lemma_occurrences_step(s, x, q);
        lemma_occurrences_prefix(s, x, p + 1, q);
    } else if q < p {
        lemma_occurrences_step(s, x, p);
        lemma_occurrences_prefix(s, x, q + 1, p);
    }
}

/// A `k`-th occurrence exists exactly when `k` is between 1 and the number of
/// occurrences; `kth_occurrence` then names it.
pub proof fn lemma_kth_occurrence_exists<T>(s: Seq<T>, x: T, k: int)
    ensures
        (1 <= k <= occurrences(s, x)) <==> exists|p: int| is_kth_occurrence(s, x, k, p),
        1 <= k <= occurrences(s, x) ==> is_kth_occurrence(s, x, k, kth_occurrence(s, x, k)),
    decreases s.len(),
{
    if s.len() == 0 {
        assert forall|p: int| !is_kth_occurrence(s, x, k, p) by {}
    } else {
        let front = s.drop_last();
        let n = s.len() as int;
        lemma_kth_occurrence_exists(front, x, k);
        assert(s.take(n) =~= s);
        assert(s.take(n - 1) =~= front);
        lemma_occurrences_step(s, x, n - 1);
        if 1 <= k <= occurrences(s, x) {
            if k <= occurrences(front, x) {
                let p = choose|p: int| is_kth_occurrence(front, x, k, p);
                assert(front.take(p + 1) =~= s.take(p + 1));
                assert(is_kth_occurrence(s, x, k, p));
            } else {
                assert(is_kth_occurrence(s, x, k, n - 1));
            }
        }
        if exists|p: int| is_kth_occurrence(s, x, k, p) {
            let p = choose|p: int| is_kth_occurrence(s, x, k, p);
            lemma_occurrences_take(s, x, p + 1);
            lemma_occurrences_step(s, x, p);
        }
    }
}

/// A position that holds `x` is the occurrence numbered by the count of its
/// own inclusive prefix.
pub proof fn lemma_kth_occurrence_at<T>(s: Seq<T>, x: T, p: int)
    requires
        0 <= p < s.len(),
        s[p] == x,
    ensures
        1 <= occurrences(s.take(p + 1), x) <= occurrences(s, x),
        kth_occurrence(s, x, occurrences(s.take(p + 1), x) as int) == p,
{
    let k = occurrences(s.take(p + 1), x) as int;
    lemma_occurrences_step(s, x, p);
    lemma_occurrences_take(s, x, p + 1);
    assert(is_kth_occurrence(s, x, k, p));
    lemma_kth_occurrence_unique(s, x, k, p, kth_occurrence(s, x, k));
}

} // verus!
