//! Seeking in a posting list that is cut into blocks of document ids.
//!
//! `kernels` holds the kernel that gallops over the first ids of the blocks, `reference` the linear
//! scan that it has to agree with.
use vstd::prelude::*;

use crate::sorted::strictly_increasing;

pub mod experiment;
pub mod inputs;
pub mod kernels;
pub mod reference;

verus! {

/// The number of document ids in a block.
pub const BLOCK_SIZE: usize = 128;

/// The size of a posting list in full blocks.
#[derive(Clone, Copy, Debug, PartialEq, Eq, Hash, Structural)]
pub struct PostingShape {
    pub num_blocks: usize,
}

impl PostingShape {
    pub fn new(num_blocks: usize) -> (r: Self)
        ensures
            r.num_blocks == num_blocks,
    {
        PostingShape { num_blocks }
    }

    /// The number of document ids in all blocks.
    pub fn num_docs(&self) -> (r: usize)
        requires
            self.num_blocks * BLOCK_SIZE <= usize::MAX,
        ensures
            r == self.num_blocks * BLOCK_SIZE,
    {
        self.num_blocks * BLOCK_SIZE
    }
}

/// A posting list in blocks of [`BLOCK_SIZE`] ids, with the first id of each block beside it, by
/// which blocks can be skipped unread.
pub struct PostingList {
    pub(crate) block_first_doc_id: Vec<u32>,
    pub(crate) blocks: Vec<u32>,
}

impl View for PostingList {
    type V = Seq<u32>;

    closed spec fn view(&self) -> Seq<u32> {
        self.blocks@
    }
}

impl PostingList {
    /// All ids are in strictly ascending order, within blocks and across them; there are only full
    /// blocks, and the first id of each stands beside them.
    #[verifier::type_invariant]
    pub(crate) closed spec fn wf(self) -> bool {
        &&& self.blocks@.len() == self.block_first_doc_id@.len() * BLOCK_SIZE
        &&& strictly_increasing(self.blocks@)
        &&& forall|k: int|
            0 <= k < self.block_first_doc_id@.len() ==> #[trigger] self.block_first_doc_id@[k]
                == self.blocks@[k * BLOCK_SIZE]
    }

    pub fn num_blocks(&self) -> (r: usize)
        ensures
            r * BLOCK_SIZE == self@.len(),
            strictly_increasing(self@),
    {
        proof {
            use_type_invariant(self);
        }
        self.block_first_doc_id.len()
    }

    pub fn num_docs(&self) -> (r: usize)
        ensures
            r == self@.len(),
    {
        self.blocks.len()
    }

    /// The first id of block `k`.
    pub fn first_doc_id(&self, k: usize) -> (r: u32)
        requires
            (k + 1) * BLOCK_SIZE <= self@.len(),
        ensures
            r == self@[k * BLOCK_SIZE],
    {
        proof {
            use_type_invariant(self);
        }
        self.block_first_doc_id[k]
    }

    /// The ids of block `k`.
    pub fn block(&self, k: usize) -> (r: &[u32])
        requires
            (k + 1) * BLOCK_SIZE <= self@.len(),
        ensures
            r@ == self@.subrange(k * BLOCK_SIZE, (k + 1) * BLOCK_SIZE),
    {
        let all: &[u32] = self.blocks.as_slice();
        assert((k + 1) * BLOCK_SIZE <= all.len());
        let start: usize = k * BLOCK_SIZE;
        &all[start..start + BLOCK_SIZE]
    }
}

/// The first place from `from` on that holds an id of at least `least`; the end where there is none.
pub open spec fn seek_to(docs: Seq<u32>, from: int, least: u32) -> int
    decreases docs.len() - from,
{
    if from >= docs.len() || docs[from] >= least {
        from
    } else {
        seek_to(docs, from + 1, least)
    }
}

/// What a seek returns that has arrived at `to`.
pub open spec fn found(docs: Seq<u32>, to: int) -> Option<u32> {
    if to < docs.len() {
        Some(docs[to])
    } else {
        None
    }
}

/// Passing over smaller ids does not change where a seek arrives.
pub proof fn lemma_seek_skip(docs: Seq<u32>, from: int, mid: int, least: u32)
    requires
        0 <= from <= mid <= docs.len(),
        forall|p: int| from <= p < mid ==> docs[p] < least,
    ensures
        seek_to(docs, from, least) == seek_to(docs, mid, least),
    decreases mid - from,
{
    if from < mid {
        lemma_seek_skip(docs, from + 1, mid, least);
    }
}

/// A seek never goes back, stays within the list, passes over smaller ids only, and arrives at an
/// id that is large enough or at the end.
pub proof fn lemma_seek_to(docs: Seq<u32>, from: int, least: u32)
    requires
        0 <= from <= docs.len(),
    ensures
        from <= seek_to(docs, from, least) <= docs.len(),
        forall|p: int| from <= p < seek_to(docs, from, least) ==> docs[p] < least,
        seek_to(docs, from, least) < docs.len() ==> docs[seek_to(docs, from, least)] >= least,
    decreases docs.len() - from,
{
    if from < docs.len() && docs[from] < least {
        lemma_seek_to(docs, from + 1, least);
    }
}

/// In an ascending list, what a seek returns is the smallest of the ids from the cursor on that are
/// large enough; it returns nothing only where there is no such id.
pub proof fn lemma_seek_smallest(docs: Seq<u32>, from: int, least: u32)
    requires
        0 <= from <= docs.len(),
        strictly_increasing(docs),
    ensures
        match found(docs, seek_to(docs, from, least)) {
            Some(id) => {
                &&& id >= least
                &&& docs.skip(from).contains(id)
                &&& forall|x: u32| #[trigger] docs.skip(from).contains(x) && x >= least ==> x >= id
            },
            None => forall|x: u32| #[trigger] docs.skip(from).contains(x) ==> x < least,
        },
{
    let to = seek_to(docs, from, least);
    lemma_seek_to(docs, from, least);
    if to < docs.len() {
        assert(docs.skip(from)[to - from] == docs[to]);
    }
    assert forall|x: u32| #[trigger] docs.skip(from).contains(x) implies x < least || to
        < docs.len() && x >= docs[to] by {
        let p = choose|p: int| 0 <= p < docs.skip(from).len() && docs.skip(from)[p] == x;
        assert(docs[from + p] == x);
    }
}

/// Seeking the same id again leaves the cursor where it is.
pub proof fn lemma_seek_again(docs: Seq<u32>, from: int, least: u32)
    requires
        0 <= from <= docs.len(),
    ensures
        seek_to(docs, seek_to(docs, from, least), least) == seek_to(docs, from, least),
{
    lemma_seek_to(docs, from, least);
}

/// Two seeks for ascending ids arrive where the second alone would.
pub proof fn lemma_seek_twice(docs: Seq<u32>, from: int, first: u32, second: u32)
    requires
        0 <= from <= docs.len(),
        first <= second,
    ensures
        seek_to(docs, seek_to(docs, from, first), second) == seek_to(docs, from, second),
{
    lemma_seek_to(docs, from, first);
    lemma_seek_skip(docs, from, seek_to(docs, from, first), second);
}

} // verus!
