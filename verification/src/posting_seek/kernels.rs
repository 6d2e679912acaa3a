//! The seek kernel.
use vstd::prelude::*;

use crate::posting_seek::{found, lemma_seek_skip, seek_to, PostingList, BLOCK_SIZE};
use crate::sorted::{partition_point_below, strictly_increasing};
use crate::stopwatch::Worker;

verus! {

/// How many blocks are tried one by one before the kernel gallops.
pub const LINEAR_BUDGET: usize = 8;

/// The last block from `start` on that may hold the first id of at least `least_id`: the next block
/// begins above it. A few blocks are tried one by one, for short skips; then the steps double, and
/// the last step is bisected.
fn candidate_block(list: &PostingList, start: usize, least_id: u32) -> (r: usize)
    requires
        (start + 1) * BLOCK_SIZE <= list@.len(),
    ensures
        start <= r,
        (r + 1) * BLOCK_SIZE <= list@.len(),
        r > start ==> list@[r * BLOCK_SIZE] <= least_id,
        (r + 2) * BLOCK_SIZE <= list@.len() ==> list@[(r + 1) * BLOCK_SIZE] > least_id,
{
    let num_blocks: usize = list.num_blocks();
    let mut lo: usize = start;
    let mut tried: usize = 0;
    while tried < LINEAR_BUDGET
        invariant
            list@.len() == num_blocks * BLOCK_SIZE,
            start <= lo < num_blocks,
            lo > start ==> list@[lo * BLOCK_SIZE] <= least_id,
        decreases LINEAR_BUDGET - tried,
    {
        if lo + 1 >= num_blocks || list.first_doc_id(lo + 1) > least_id {
            return lo;
        }
        lo += 1;
        tried += 1;
    }
    let mut step: usize = 1;
    while step < num_blocks - lo && list.first_doc_id(lo + step) <= least_id
        invariant
            list@.len() == num_blocks * BLOCK_SIZE,
            start <= lo < num_blocks,
            lo > start ==> list@[lo * BLOCK_SIZE] <= least_id,
            1 <= step <= num_blocks,
        decreases num_blocks - lo,
    {
        lo += step;
        if step <= num_blocks / 2 {
            step *= 2;
        }
    }
    let mut hi: usize = if step < num_blocks - lo { lo + step } else { num_blocks };
    while hi - lo > 1
        invariant
            list@.len() == num_blocks * BLOCK_SIZE,
            start <= lo < hi <= num_blocks,
            lo > start ==> list@[lo * BLOCK_SIZE] <= least_id,
            hi < num_blocks ==> list@[hi * BLOCK_SIZE] > least_id,
        decreases hi - lo,
    {
        let mid: usize = lo + (hi - lo) / 2;
        if list.first_doc_id(mid) <= least_id {
            lo = mid;
        } else {
            hi = mid;
        }
    }
    lo
}

/// A seek: in which list, from where on, and for which id.
pub struct SeekCall {
    pub docs: Seq<u32>,
    pub from: int,
    pub least_id: u32,
}

/// A cursor in a posting list. The seeks are kept in a ghost record.
pub struct PostingSeek<'a> {
    list: &'a PostingList,
    index: usize,
    done: Ghost<Seq<SeekCall>>,
}

impl<'a> Worker<SeekCall> for PostingSeek<'a> {
    closed spec fn calls(&self) -> Seq<SeekCall> {
        self.done@
    }
}

impl<'a> PostingSeek<'a> {
    /// The ids of the list.
    pub closed spec fn docs(&self) -> Seq<u32> {
        self.list@
    }

    /// Where the cursor stands.
    pub closed spec fn position(&self) -> int {
        self.index as int
    }

    #[verifier::type_invariant]
    closed spec fn wf(self) -> bool {
        self.index <= self.list@.len()
    }

    /// A cursor at the start of the list.
    pub fn new(list: &'a PostingList) -> (r: Self)
        ensures
            r.docs() == list@,
            r.position() == 0,
            r.calls().len() == 0,
    {
        PostingSeek { list, index: 0, done: Ghost(Seq::empty()) }
    }

    /// Moves the cursor to the start.
    pub fn reset(&mut self)
        ensures
            final(self).docs() == old(self).docs(),
            final(self).position() == 0,
            final(self).calls() == old(self).calls(),
    {
        self.index = 0;
    }

    /// Moves the cursor to the first id of at least `least_id` at or after it, and returns that id;
    /// `None` where the list is exhausted. The first ids of the blocks pick the block, a bisection
    /// the place in it.
    pub fn next(&mut self, least_id: u32) -> (r: Option<u32>)
        ensures
            final(self).docs() == old(self).docs(),
            final(self).position() == seek_to(old(self).docs(), old(self).position(), least_id),
            r == found(old(self).docs(), final(self).position()),
            final(self).calls() == old(self).calls().push(
                SeekCall { docs: old(self).docs(), from: old(self).position(), least_id },
            ),
    {
        proof {
            use_type_invariant(&*self);
        }
        let ghost docs = self.list@;
        let ghost from = self.index as int;
        self.done = Ghost(self.done@.push(SeekCall { docs, from, least_id }));
        let num_blocks: usize = self.list.num_blocks();
        let length: usize = self.list.num_docs();
        if self.index >= length {
            return None;
        }
        let start: usize = self.index / BLOCK_SIZE;
        let block_idx: usize = candidate_block(self.list, start, least_id);
        if self.index < block_idx * BLOCK_SIZE {
            self.index = block_idx * BLOCK_SIZE;
        }
        assert(forall|p: int| from <= p < self.index ==> docs[p] < least_id);
        loop
            invariant
                docs == self.list@,
                docs == old(self).docs(),
                self.calls() == old(self).calls().push(SeekCall { docs, from, least_id }),
                from == old(self).position(),
                strictly_increasing(docs),
                length == docs.len(),
                docs.len() == num_blocks * BLOCK_SIZE,
                0 <= from <= self.index <= length,
                forall|p: int| from <= p < self.index ==> docs[p] < least_id,
            decreases length - self.index,
        {
            proof {
                lemma_seek_skip(docs, from, self.index as int, least_id);
            }
            if self.index >= length {
                return None;
            }
            let block_idx: usize = self.index / BLOCK_SIZE;
            let block_offset: usize = self.index % BLOCK_SIZE;
            let block: &[u32] = self.list.block(block_idx);
            let in_block: &[u32] = &block[block_offset..block.len()];
            assert forall|i: int, j: int| 0 <= i < j < in_block@.len() implies in_block@[i]
                <= in_block@[j] by {
                assert(docs[self.index + i] < docs[self.index + j]);
            }
            let off_in_block: usize = partition_point_below(in_block, least_id);
            let new_offset: usize = block_offset + off_in_block;
            let ghost arrived = self.index + off_in_block;
            assert forall|p: int| from <= p < arrived implies docs[p] < least_id by {
                if p >= self.index {
                    assert(in_block@[p - self.index] < least_id);
                }
            }
            if new_offset < block.len() {
                proof {
                    assert(in_block@[off_in_block as int] >= least_id);
                    lemma_seek_skip(docs, from, arrived, least_id);
                }
                self.index = block_idx * BLOCK_SIZE + new_offset;
                return Some(block[new_offset]);
            }
            if block_idx + 1 >= num_blocks {
                proof {
                    lemma_seek_skip(docs, from, length as int, least_id);
                }
                self.index = length;
                return None;
            }
            self.index = (block_idx + 1) * BLOCK_SIZE;
        }
    }
}

} // verus!
