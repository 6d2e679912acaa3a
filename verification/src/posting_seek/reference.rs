//! The reference kernel, which defines what a seek returns.
use vstd::prelude::*;
use vstd::string::StringExecFns;

use crate::posting_seek::{found, lemma_seek_skip, seek_to, PostingList, BLOCK_SIZE};
use crate::sorted::{partition_point_below, strictly_increasing};
use crate::text::{append_decimal, append_optional, decimal, optional_decimal, text_of};

verus! {

/// A cursor in a posting list.
pub struct PostingSeekReference<'a> {
    list: &'a PostingList,
    index: usize,
}

impl<'a> PostingSeekReference<'a> {
    /// The ids of the list.
    pub closed spec fn docs(&self) -> Seq<u32> {
        self.list@
    }

    /// Where the cursor stands.
    pub closed spec fn position(&self) -> int {
        self.index as int
    }

    #[verifier::type_invariant]
    closed spec fn wf(self) -> bool {
        self.index <= self.list@.len()
    }

    /// A cursor at the start of the list.
    pub fn new(list: &'a PostingList) -> (r: Self)
        ensures
            r.docs() == list@,
            r.position() == 0,
    {
        PostingSeekReference { list, index: 0 }
    }

    /// Moves the cursor to the start.
    pub fn reset(&mut self)
        ensures
            final(self).docs() == old(self).docs(),
            final(self).position() == 0,
    {
        self.index = 0;
    }

    /// Moves the cursor to the first id of at least `least_id` at or after it, and returns that id;
    /// `None` where the list is exhausted. A linear scan over the first ids of the blocks picks the
    /// block, a bisection the place in it.
    pub fn next(&mut self, least_id: u32) -> (r: Option<u32>)
        ensures
            final(self).docs() == old(self).docs(),
            final(self).position() == seek_to(old(self).docs(), old(self).position(), least_id),
            r == found(old(self).docs(), final(self).position()),
    {
        proof {
            use_type_invariant(&*self);
        }
        let ghost docs = self.list@;
        let ghost from = self.index as int;
        let num_blocks: usize = self.list.num_blocks();
        let length: usize = self.list.num_docs();
        if self.index >= length {
            return None;
        }
        let start: usize = self.index / BLOCK_SIZE;
        let mut block_idx: usize = start;
        while block_idx + 1 < num_blocks && self.list.first_doc_id(block_idx + 1) <= least_id
            invariant
                docs == self.list@,
                from == self.index,
                docs.len() == num_blocks * BLOCK_SIZE,
                start <= block_idx < num_blocks,
                block_idx > start ==> docs[block_idx * BLOCK_SIZE] <= least_id,
            decreases num_blocks - block_idx,
        {
            block_idx += 1;
        }
        if self.index < block_idx * BLOCK_SIZE {
            self.index = block_idx * BLOCK_SIZE;
        }
        assert(forall|p: int| from <= p < self.index ==> docs[p] < least_id);
        loop
            invariant
                docs == self.list@,
                docs == old(self).docs(),
                from == old(self).position(),
                strictly_increasing(docs),
                length == docs.len(),
                docs.len() == num_blocks * BLOCK_SIZE,
                0 <= from <= self.index <= length,
                forall|p: int| from <= p < self.index ==> docs[p] < least_id,
            decreases length - self.index,
        {
            proof {
                lemma_seek_skip(docs, from, self.index as int, least_id);
            }
            if self.index >= length {
                return None;
            }
            let block_idx: usize = self.index / BLOCK_SIZE;
            let block_offset: usize = self.index % BLOCK_SIZE;
            let block: &[u32] = self.list.block(block_idx);
            let in_block: &[u32] = &block[block_offset..block.len()];
            assert forall|i: int, j: int| 0 <= i < j < in_block@.len() implies in_block@[i]
                <= in_block@[j] by {
                assert(docs[self.index + i] < docs[self.index + j]);
            }
            let off_in_block: usize = partition_point_below(in_block, least_id);
            let new_offset: usize = block_offset + off_in_block;
            let ghost arrived = self.index + off_in_block;
            assert forall|p: int| from <= p < arrived implies docs[p] < least_id by {
                if p >= self.index {
                    assert(in_block@[p - self.index] < least_id);
                }
            }
            if new_offset < block.len() {
                proof {
                    assert(in_block@[off_in_block as int] >= least_id);
                    lemma_seek_skip(docs, from, arrived, least_id);
                }
                self.index = block_idx * BLOCK_SIZE + new_offset;
                return Some(block[new_offset]);
            }
            if block_idx + 1 >= num_blocks {
                proof {
                    lemma_seek_skip(docs, from, length as int, least_id);
                }
                self.index = length;
                return None;
            }
            self.index = (block_idx + 1) * BLOCK_SIZE;
        }
    }
}

/// The report of two sequences of results of different lengths.
pub open spec fn length_report(agent: nat, reference: nat) -> Seq<char> {
    "sequence length mismatch: agent="@ + decimal(agent) + " reference="@ + decimal(reference)
}

/// The report of two sequences of results that first differ at seek `i`.
pub open spec fn seek_report(i: nat, agent: Option<u32>, reference: Option<u32>) -> Seq<char> {
    "seek #"@ + decimal(i) + ": agent="@ + optional_decimal(agent) + " reference="@
        + optional_decimal(reference)
}

/// The two sequences agree up to `i` and differ there.
pub open spec fn first_difference(a: Seq<Option<u32>>, b: Seq<Option<u32>>, i: int) -> bool {
    &&& 0 <= i < a.len()
    &&& i < b.len()
    &&& a[i] != b[i]
    &&& a.take(i) == b.take(i)
}

/// What a comparison of two sequences of results gives: nothing where they are equal, otherwise a
/// report of the lengths where those differ, or of the first difference.
pub open spec fn is_diff(
    agent: Seq<Option<u32>>,
    reference: Seq<Option<u32>>,
    diff: Option<Seq<char>>,
) -> bool {
    match diff {
        None => agent == reference,
        Some(report) => if agent.len() != reference.len() {
            report == length_report(agent.len(), reference.len())
        } else {
            exists|i: int| #[trigger]
                first_difference(agent, reference, i) && report == seek_report(
                    i as nat,
                    agent[i],
                    reference[i],
                )
        },
    }
}

/// Compares two sequences of results: `None` where they are equal, otherwise a report of the first
/// difference.
pub fn seek_results_diff(agent: &[Option<u32>], reference: &[Option<u32>]) -> (r: Option<String>)
    ensures
        is_diff(agent@, reference@, text_of(r)),
        r is None <==> agent@ == reference@,
{
    if agent.len() != reference.len() {
        let mut report: String = String::new();
        report.append("sequence length mismatch: agent=");
        append_decimal(&mut report, agent.len() as u64);
        report.append(" reference=");
        append_decimal(&mut report, reference.len() as u64);
        assert(report@ =~= length_report(agent@.len(), reference@.len()));
        return Some(report);
    }
    let mut i: usize = 0;
    while i < agent.len()
        invariant
            i <= agent@.len(),
            agent@.len() == reference@.len(),
            agent@.take(i as int) == reference@.take(i as int),
        decreases agent@.len() - i,
    {
        let a: Option<u32> = agent[i];
        let r: Option<u32> = reference[i];
        if a != r {
            let mut report: String = String::new();
            report.append("seek #");
            append_decimal(&mut report, i as u64);
            report.append(": agent=");
            append_optional(&mut report, a);
            report.append(" reference=");
            append_optional(&mut report, r);
            assert(report@ =~= seek_report(i as nat, a, r));
            assert(first_difference(agent@, reference@, i as int));
            return Some(report);
        }
        assert(agent@.take(i + 1) =~= agent@.take(i as int).push(a));
        assert(reference@.take(i + 1) =~= reference@.take(i as int).push(r));
        i += 1;
    }
    assert(agent@.take(i as int) =~= agent@);
    assert(reference@.take(i as int) =~= reference@);
    None
}

} // verus!
