//! A sequence of bits that answers rank and select queries.

use vstd::prelude::*;
use vstd::std_specs::cmp::PartialEqSpecImpl;
use crate::counting::{
    is_binary, is_kth_occurrence, kth_occurrence, lemma_kth_occurrence_at,
    lemma_kth_occurrence_exists, lemma_kth_occurrence_unique, lemma_occurrences_step,
    lemma_occurrences_take, occurrences,
};

verus! {

/// A sequence of bits, each stored as the byte 0 or 1.
#[derive(Debug)]
pub struct BitVector {
    data: Vec<u8>,
}

impl View for BitVector {
    type V = Seq<u8>;

    closed spec fn view(&self) -> Seq<u8> {
        self.data@
    }
}

impl BitVector {
    /// Every stored element is 0 or 1.
    pub open spec fn wf(&self) -> bool {
        is_binary(self@)
    }

    /// What `rank` returns: the number of occurrences of `target` among the
    /// positions `0..=index`, or nothing when `index` is not a position.
    pub open spec fn spec_rank(&self, target: u8, index: int) -> Option<nat> {
        if 0 <= index < self@.len() {
            Some(occurrences(self@.take(index + 1), target))
        } else {
            None
        }
    }

    /// What `select` returns: the position of the `k`-th occurrence of
    /// `target`, counting from 1, or nothing when `k` is 0 or there are fewer
    /// than `k` occurrences.
    pub open spec fn spec_select(&self, target: u8, k: int) -> Option<int> {
        if 1 <= k <= occurrences(self@, target) {
            Some(kth_occurrence(self@, target, k))
        } else {
            None
        }
    }

    /// Wraps a vector of bits.
    pub fn new(data: Vec<u8>) -> (bits: BitVector)
        requires
            is_binary(data@),
        ensures
            bits@ == data@,
            bits.wf(),
    {
        BitVector { data }
    }

    /// Number of bits.
    pub fn len(&self) -> (count: usize)
        ensures
            count == self@.len(),
    {
        self.data.len()
    }

    /// Replaces the bit at position `index`.
    pub fn set(&mut self, index: usize, bit: u8)
        requires
            index < old(self)@.len(),
            bit <= 1,
        ensures
            final(self)@ == old(self)@.update(index as int, bit),
            old(self).wf() ==> final(self).wf(),
    {
        self.data.set(index, bit);
    }

    /// Number of `target` bits among the positions `0..=index`.
    pub fn rank(&self, target: u8, index: usize) -> (count: Option<usize>)
        ensures
            match count {
                Some(n) => self.spec_rank(target, index as int) == Some(n as nat),
                None => self.spec_rank(target, index as int) is None,
            },
    {
        if index >= self.data.len() {
            return None;
        }
        let mut count: usize = 0;
        let mut i: usize = 0;
        while i <= index
            invariant
                index < self.data.len(),
                0 <= i <= index + 1,
                count == occurrences(self@.take(i as int), target),
                count <= i,
            decreases index + 1 - i,
        {
            proof {
                lemma_occurrences_step(self@, target, i as int);
            }
            if self.data[i] == target {
                count = count + 1;
            }
            i = i + 1;
        }
        Some(count)
    }

    /// Position of the `k`-th `target` bit, counting occurrences from 1.
    pub fn select(&self, target: u8, k: usize) -> (position: Option<usize>)
        ensures
            match position {
                Some(p) => self.spec_select(target, k as int) == Some(p as int),
                None => self.spec_select(target, k as int) is None,
            },
    {
        if k < 1 {
            return None;
        }
        let mut count: usize = 0;
        let mut i: usize = 0;
        while i < self.data.len()
            invariant
                1 <= k,
                0 <= i <= self.data.len(),
                count == occurrences(self@.take(i as int), target),
                count < k,
            decreases self.data.len() - i,
        {
            proof {
                lemma_occurrences_step(self@, target, i as int);
            }
            if self.data[i] == target {
                count = count + 1;
                if count == k {
                    proof {
                        lemma_occurrences_take(self@, target, i + 1);
                        lemma_kth_occurrence_exists(self@, target, k as int);
                        assert(is_kth_occurrence(self@, target, k as int, i as int));
                        lemma_kth_occurrence_unique(
                            self@,
                            target,
                            k as int,
                            i as int,
                            kth_occurrence(self@, target, k as int),
                        );
                    }
                    return Some(i);
                }
            }
            i = i + 1;
        }
        proof {
            assert(self@.take(i as int) =~= self@);
        }
        None
    }

    /// A bit vector lives in memory, so its positions can be counted in a `usize`.
    pub proof fn lemma_len_fits(&self)
        ensures
            self@.len() <= usize::MAX,
    {
        assert(self.data@.len() == self.data.len());
    }

    /// `select` undoes `rank`: where position `i` holds `target`, the
    /// occurrence that `rank` numbers at `i` is the one that `select` finds
    /// at `i`.
    pub proof fn lemma_select_inverts_rank(&self, target: u8, i: int)
        requires
            0 <= i < self@.len(),
            self@[i] == target,
        ensures
            self.spec_rank(target, i) matches Some(k) && self.spec_select(target, k as int)
                == Some(i),
    {
        lemma_kth_occurrence_at(self@, target, i);
    }

    /// `rank` undoes `select`: the position that `select` finds for the
    /// `k`-th occurrence holds `target` and has rank `k`.
    pub proof fn lemma_rank_inverts_select(&self, target: u8, k: int)
        requires
            self.spec_select(target, k) is Some,
        ensures
            self.spec_select(target, k) matches Some(p) && 0 <= p < self@.len() && self@[p]
                == target && self.spec_rank(target, p) == Some(k as nat),
    {
        lemma_kth_occurrence_exists(self@, target, k);
    }
}

impl core::ops::Deref for BitVector {
    type Target = Vec<u8>;

    /// The bits as a vector.
    fn deref(&self) -> (bits: &Vec<u8>)
        ensures
            bits@ == self@,
    {
        &self.data
    }
}

impl core::ops::Index<usize> for BitVector {
    type Output = u8;

    /// The bit at position `index`.
    fn index(&self, index: usize) -> (bit: &u8)
        ensures
            *bit == self@[index as int],
    {
        &self.data[index]
    }
}

impl vstd::std_specs::core::IndexSpecImpl<usize> for BitVector {
    /// An index must be a position of the bit vector.
    open spec fn index_req(&self, index: &usize) -> bool {
        *index < self@.len()
    }
}

impl PartialEq<Vec<u8>> for BitVector {
    /// Tells whether the bit vector holds exactly the bytes of `other`.
    fn eq(&self, other: &Vec<u8>) -> (same: bool) {
        if self.data.len() != other.len() {
            return false;
        }
        let mut i: usize = 0;
        while i < self.data.len()
            invariant
                self.data.len() == other.len(),
                0 <= i <= self.data.len(),
                forall|k: int| 0 <= k < i ==> self@[k] == other@[k],
            decreases self.data.len() - i,
        {
            if self.data[i] != other[i] {
                return false;
            }
            i = i + 1;
        }
        assert(self@ =~= other@);
        true
    }
}

impl PartialEqSpecImpl<Vec<u8>> for BitVector {
    open spec fn obeys_eq_spec() -> bool {
        true
    }

    open spec fn eq_spec(&self, other: &Vec<u8>) -> bool {
        self@ == other@
    }
}

} // verus!
