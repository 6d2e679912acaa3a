//! Test data and workloads for the seek kernels, deterministic per seed.
//!
//! The ids of a list are even: block `k` holds `k * STRIDE`, `k * STRIDE + 2` and so on, so that
//! adjacent blocks do not overlap. The timed sequences advance by about a block, by several blocks
//! or by a tenth of the list at a time. Those of the battery are short: half a block or a few blocks
//! at a time, to the middle of the list, past its end, or not past its start.
use vstd::prelude::*;

use crate::posting_seek::{
    found, lemma_seek_to, seek_to, PostingList, PostingShape, BLOCK_SIZE,
};
use crate::prng::{mix_seeds, SplitMix64, GAMMA};
use crate::sorted::strictly_increasing;

verus! {

/// The shapes that are evaluated.
pub open spec fn shape_list() -> Seq<PostingShape> {
    seq![
        PostingShape { num_blocks: 100 },
        PostingShape { num_blocks: 10_000 },
        PostingShape { num_blocks: 80_000 },
    ]
}

/// The shapes that are evaluated.
pub fn shapes() -> (r: [PostingShape; 3])
    ensures
        r@ == shape_list(),
        r@[0].num_blocks == 100,
        r@[1].num_blocks == 10_000,
        r@[2].num_blocks == 80_000,
{
    [PostingShape::new(100), PostingShape::new(10_000), PostingShape::new(80_000)]
}

/// How the seeks of a speed workload advance.
#[derive(Clone, Copy, Debug, PartialEq, Eq, Structural)]
pub enum SeekPattern {
    /// About one block per seek.
    Sequential,
    /// About sixteen blocks per seek.
    SkipShallow,
    /// About a tenth of the list per seek, starting over at the end.
    SkipDeep,
}

pub const PATTERNS: [SeekPattern; 3] = [
    SeekPattern::Sequential,
    SeekPattern::SkipShallow,
    SeekPattern::SkipDeep,
];

/// The kinds of seek sequences in the correctness battery.
#[derive(Clone, Copy, Debug, PartialEq, Eq, Structural)]
pub enum EdgeKind {
    Sequential,
    SkipShallow,
    SkipDeep,
    /// Seeks at the end of the list and past it.
    PastEnd,
    /// A seek to the very start, then short advances.
    BeforeStart,
}

pub const EDGE_KINDS: [EdgeKind; 5] = [
    EdgeKind::Sequential,
    EdgeKind::SkipShallow,
    EdgeKind::SkipDeep,
    EdgeKind::PastEnd,
    EdgeKind::BeforeStart,
];

/// The number of timed seeks per speed workload.
pub const NUM_SEEKS_PER_COMBO: usize = 1024;

/// How far apart the first ids of adjacent blocks are.
pub const STRIDE: u32 = 256;

/// One step of a seek sequence. Resets are not timed.
#[derive(Clone, Copy, Debug, PartialEq, Eq, Structural)]
pub enum SeekOp {
    Reset,
    Seek(u32),
}

/// What a cursor returns that starts at the beginning of the list and carries out the operations,
/// one result per seek, and where it stands then.
pub open spec fn replay(docs: Seq<u32>, ops: Seq<SeekOp>) -> (Seq<Option<u32>>, int)
    decreases ops.len(),
{
    if ops.len() == 0 {
        (Seq::empty(), 0)
    } else {
        let (results, position) = replay(docs, ops.drop_last());
        match ops.last() {
            SeekOp::Reset => (results, 0),
            SeekOp::Seek(least_id) => {
                let to = seek_to(docs, position, least_id);
                (results.push(found(docs, to)), to)
            },
        }
    }
}

/// A reset makes the cursor forget: what follows it returns what it would return by itself.
pub proof fn lemma_replay_reset(docs: Seq<u32>, before: Seq<SeekOp>, after: Seq<SeekOp>)
    ensures
        replay(docs, before.push(SeekOp::Reset) + after) == (
            replay(docs, before).0 + replay(docs, after).0,
            replay(docs, after).1,
        ),
    decreases after.len(),
{
    let ops = before.push(SeekOp::Reset) + after;
    if after.len() == 0 {
        assert(ops =~= before.push(SeekOp::Reset));
        assert(ops.drop_last() =~= before);
        assert(replay(docs, before).0 + Seq::<Option<u32>>::empty() =~= replay(docs, before).0);
    } else {
        lemma_replay_reset(docs, before, after.drop_last());
        assert(ops.drop_last() =~= before.push(SeekOp::Reset) + after.drop_last());
        assert(ops.last() == after.last());
        let (head, position) = replay(docs, after.drop_last());
        if let SeekOp::Seek(least_id) = after.last() {
            let result = found(docs, seek_to(docs, position, least_id));
            assert(replay(docs, before).0 + head.push(result) =~= (replay(docs, before).0
                + head).push(result));
        }
    }
}

/// A cursor stays within the list.
proof fn lemma_replay_within(docs: Seq<u32>, ops: Seq<SeekOp>)
    ensures
        0 <= replay(docs, ops).1 <= docs.len(),
    decreases ops.len(),
{
    if ops.len() > 0 {
        lemma_replay_within(docs, ops.drop_last());
        if let SeekOp::Seek(least_id) = ops.last() {
            lemma_seek_to(docs, replay(docs, ops.drop_last()).1, least_id);
        }
    }
}

/// What one more operation does: a reset takes the cursor back to the start and gives no result. A
/// seek gives one result more, the smallest id that is large enough from the cursor on, and leaves
/// the cursor there; where there is no such id it gives none, and leaves the cursor at the end.
pub proof fn lemma_replay_step(docs: Seq<u32>, ops: Seq<SeekOp>, id: u32)
    requires
        strictly_increasing(docs),
    ensures
        replay(docs, Seq::empty()) == (Seq::<Option<u32>>::empty(), 0int),
        replay(docs, ops.push(SeekOp::Reset)) == (replay(docs, ops).0, 0int),
        ({
            let (results, from) = replay(docs, ops);
            let (more, to) = replay(docs, ops.push(SeekOp::Seek(id)));
            &&& 0 <= from <= to <= docs.len()
            &&& more.len() == results.len() + 1
            &&& more.drop_last() == results
            &&& match more.last() {
                Some(x) => {
                    &&& to < docs.len() && docs[to] == x
                    &&& x >= id
                    &&& forall|k: int| from <= k < docs.len() && docs[k] >= id ==> docs[k] >= x
                },
                None => {
                    &&& to == docs.len()
                    &&& forall|k: int| from <= k < docs.len() ==> docs[k] < id
                },
            }
        }),
{
    let after = ops.push(SeekOp::Seek(id));
    assert(after.drop_last() =~= ops);
    assert(ops.push(SeekOp::Reset).drop_last() =~= ops);
    let (results, from) = replay(docs, ops);
    lemma_replay_within(docs, ops);
    lemma_seek_to(docs, from, id);
    let to = seek_to(docs, from, id);
    assert(replay(docs, after).0 == results.push(found(docs, to)));
    assert(results.push(found(docs, to)).drop_last() =~= results);
}

/// What tells apart the seeds of different shapes, patterns and kinds.
pub open spec fn shape_tag(shape: PostingShape) -> u64 {
    (shape.num_blocks as u64).wrapping_mul(GAMMA)
}

pub open spec fn pattern_tag(pattern: SeekPattern) -> u64 {
    let tag: u64 = match pattern {
        SeekPattern::Sequential => 0x11,
        SeekPattern::SkipShallow => 0x22,
        SeekPattern::SkipDeep => 0x33,
    };
    tag.wrapping_mul(0xFEED_FACE_BABE_CAFE)
}

pub open spec fn edge_tag(kind: EdgeKind) -> u64 {
    let tag: u64 = match kind {
        EdgeKind::Sequential => 0x101,
        EdgeKind::SkipShallow => 0x202,
        EdgeKind::SkipDeep => 0x303,
        EdgeKind::PastEnd => 0x404,
        EdgeKind::BeforeStart => 0x505,
    };
    tag.wrapping_mul(0xDEAD_BEEF_CAFE_F00D)
}

fn shape_hash(shape: PostingShape) -> (r: u64)
    ensures
        r == shape_tag(shape),
{
    (shape.num_blocks as u64).wrapping_mul(GAMMA)
}

fn pattern_hash(pattern: SeekPattern) -> (r: u64)
    ensures
        r == pattern_tag(pattern),
{
    let tag: u64 = match pattern {
        SeekPattern::Sequential => 0x11,
        SeekPattern::SkipShallow => 0x22,
        SeekPattern::SkipDeep => 0x33,
    };
    tag.wrapping_mul(0xFEED_FACE_BABE_CAFE)
}

fn edge_hash(kind: EdgeKind) -> (r: u64)
    ensures
        r == edge_tag(kind),
{
    let tag: u64 = match kind {
        EdgeKind::Sequential => 0x101,
        EdgeKind::SkipShallow => 0x202,
        EdgeKind::SkipDeep => 0x303,
        EdgeKind::PastEnd => 0x404,
        EdgeKind::BeforeStart => 0x505,
    };
    tag.wrapping_mul(0xDEAD_BEEF_CAFE_F00D)
}

/// The name of a kind in the battery.
pub open spec fn kind_label(kind: EdgeKind) -> Seq<char> {
    match kind {
        EdgeKind::Sequential => "sequential"@,
        EdgeKind::SkipShallow => "skip_shallow"@,
        EdgeKind::SkipDeep => "skip_deep"@,
        EdgeKind::PastEnd => "past_end"@,
        EdgeKind::BeforeStart => "before_start"@,
    }
}

fn label_of(kind: EdgeKind) -> (r: &'static str)
    ensures
        r@ == kind_label(kind),
{
    match kind {
        EdgeKind::Sequential => "sequential",
        EdgeKind::SkipShallow => "skip_shallow",
        EdgeKind::SkipDeep => "skip_deep",
        EdgeKind::PastEnd => "past_end",
        EdgeKind::BeforeStart => "before_start",
    }
}

/// The ids of a list of `num_blocks` blocks.
pub open spec fn even_ids(num_blocks: nat) -> Seq<u32> {
    Seq::new(num_blocks * BLOCK_SIZE as nat, |i: int| (2 * i) as u32)
}

/// Builds the posting list of a shape. The ids fit as long as there are no more than `2^24` blocks.
pub fn build_posting_list(shape: PostingShape) -> (r: PostingList)
    requires
        shape.num_blocks <= 0x100_0000,
    ensures
        r@ == even_ids(shape.num_blocks as nat),
        strictly_increasing(r@),
{
    let num_blocks: usize = shape.num_blocks;
    let mut block_first_doc_id: Vec<u32> = Vec::with_capacity(num_blocks);
    let mut blocks: Vec<u32> = Vec::with_capacity(num_blocks * BLOCK_SIZE);
    let mut k: usize = 0;
    while k < num_blocks
        invariant
            k <= num_blocks <= 0x100_0000,
            block_first_doc_id@.len() == k,
            blocks@ == even_ids(k as nat),
            forall|m: int| 0 <= m < k ==> #[trigger] block_first_doc_id@[m] == m * STRIDE,
        decreases num_blocks - k,
    {
        let base: u32 = (k as u32) * STRIDE;
        block_first_doc_id.push(base);
        let mut i: usize = 0;
        while i < BLOCK_SIZE
            invariant
                k < num_blocks <= 0x100_0000,
                i <= BLOCK_SIZE,
                base == k * STRIDE,
                blocks@ == Seq::new((k * BLOCK_SIZE + i) as nat, |i: int| (2 * i) as u32),
            decreases BLOCK_SIZE - i,
        {
            blocks.push(base + (2 * i) as u32);
            i += 1;
            assert(blocks@ =~= Seq::new((k * BLOCK_SIZE + i) as nat, |i: int| (2 * i) as u32));
        }
        k += 1;
        assert(blocks@ =~= even_ids(k as nat));
    }
    PostingList { block_first_doc_id, blocks }
}

/// The first number above all ids of a list, as far as it fits.
pub open spec fn id_limit(shape: PostingShape) -> u32 {
    let blocks = shape.num_blocks as u32;
    if blocks * STRIDE <= u32::MAX {
        (blocks * STRIDE) as u32
    } else {
        u32::MAX
    }
}

fn max_id(shape: PostingShape) -> (r: u32)
    ensures
        r == id_limit(shape),
{
    let blocks: u32 = shape.num_blocks as u32;
    if blocks <= u32::MAX / STRIDE {
        blocks * STRIDE
    } else {
        u32::MAX
    }
}

/// The seek sequence of a case of the battery.
pub open spec fn correctness_ops(shape: PostingShape, kind: EdgeKind) -> Seq<SeekOp> {
    let limit = id_limit(shape);
    match kind {
        EdgeKind::Sequential => Seq::new(8, |i: int| SeekOp::Seek(((i + 1) * STRIDE / 2) as u32)),
        EdgeKind::SkipShallow => Seq::new(
            8,
            |i: int| SeekOp::Seek(((i + 1) * 16 * STRIDE / 4) as u32),
        ),
        EdgeKind::SkipDeep => Seq::new(
            8,
            |i: int|
                if i % 2 == 0 {
                    SeekOp::Reset
                } else {
                    SeekOp::Seek((limit / 2 + (i / 2) * STRIDE) as u32)
                },
        ),
        EdgeKind::PastEnd => seq![
            SeekOp::Seek(limit),
            SeekOp::Seek(limit.saturating_add(1_000_000)),
            SeekOp::Reset,
            SeekOp::Seek(u32::MAX),
        ],
        EdgeKind::BeforeStart => seq![
            SeekOp::Seek(0),
            SeekOp::Seek(1),
            SeekOp::Seek(STRIDE / 4),
            SeekOp::Reset,
            SeekOp::Seek(0),
        ],
    }
}

/// Builds the seek sequence of a case. Nothing of it is drawn at random.
pub fn build_correctness_ops(
    shape: PostingShape,
    kind: EdgeKind,
    rng: &mut SplitMix64,
) -> (ops: Vec<SeekOp>)
    ensures
        ops@ == correctness_ops(shape, kind),
        final(rng)@ == old(rng)@,
{
    let limit: u32 = max_id(shape);
    match kind {
        EdgeKind::Sequential => {
            let mut ops: Vec<SeekOp> = Vec::with_capacity(8);
            let mut i: u32 = 1;
            while i <= 8
                invariant
                    1 <= i <= 9,
                    ops@ == correctness_ops(shape, EdgeKind::Sequential).take(i - 1),
                decreases 9 - i,
            {
                ops.push(SeekOp::Seek(i * STRIDE / 2));
                i += 1;
                assert(ops@ =~= correctness_ops(shape, EdgeKind::Sequential).take(i - 1));
            }
            assert(ops@ =~= correctness_ops(shape, kind));
            ops
        },
        EdgeKind::SkipShallow => {
            let mut ops: Vec<SeekOp> = Vec::with_capacity(8);
            let mut i: u32 = 1;
            while i <= 8
                invariant
                    1 <= i <= 9,
                    ops@ == correctness_ops(shape, EdgeKind::SkipShallow).take(i - 1),
                decreases 9 - i,
            {
                ops.push(SeekOp::Seek(i * 16 * STRIDE / 4));
                i += 1;
                assert(ops@ =~= correctness_ops(shape, EdgeKind::SkipShallow).take(i - 1));
            }
            assert(ops@ =~= correctness_ops(shape, kind));
            ops
        },
        EdgeKind::SkipDeep => {
            let mid: u32 = limit / 2;
            let mut ops: Vec<SeekOp> = Vec::with_capacity(8);
            let mut i: u32 = 0;
            while i < 4
                invariant
                    i <= 4,
                    mid == id_limit(shape) / 2,
                    ops@ == correctness_ops(shape, EdgeKind::SkipDeep).take(2 * i),
                decreases 4 - i,
            {
                ops.push(SeekOp::Reset);
                ops.push(SeekOp::Seek(mid + i * STRIDE));
                i += 1;
                assert(ops@ =~= correctness_ops(shape, EdgeKind::SkipDeep).take(2 * i));
            }
            assert(ops@ =~= correctness_ops(shape, kind));
            ops
        },
        EdgeKind::PastEnd => {
            let ops: Vec<SeekOp> = vec![
                SeekOp::Seek(limit),
                SeekOp::Seek(limit.saturating_add(1_000_000)),
                SeekOp::Reset,
                SeekOp::Seek(u32::MAX),
            ];
            assert(ops@ =~= correctness_ops(shape, kind));
            ops
        },
        EdgeKind::BeforeStart => {
            let ops: Vec<SeekOp> = vec![
                SeekOp::Seek(0),
                SeekOp::Seek(1),
                SeekOp::Seek(STRIDE / 4),
                SeekOp::Reset,
                SeekOp::Seek(0),
            ];
            assert(ops@ =~= correctness_ops(shape, kind));
            ops
        },
    }
}

/// How the cases of the battery seek. Eight seeks go on in steps of half a block, or of four blocks;
/// or four go in steps of a block from the middle on, each after a reset. Past the end all seeks are
/// for the limit or more, the last after a reset. Before the start a seek is for the first id of all,
/// two go on a little, and one is for the first id again, after a reset.
pub proof fn lemma_correctness_ops(shape: PostingShape, kind: EdgeKind, k: int)
    requires
        0 <= k < correctness_ops(shape, kind).len(),
    ensures
        ({
            let ops = correctness_ops(shape, kind);
            let limit = id_limit(shape);
            match kind {
                EdgeKind::Sequential => ops.len() == 8 && ops[k] == SeekOp::Seek(
                    (128 * (k + 1)) as u32,
                ),
                EdgeKind::SkipShallow => ops.len() == 8 && ops[k] == SeekOp::Seek(
                    (1024 * (k + 1)) as u32,
                ),
                EdgeKind::SkipDeep => {
                    &&& ops.len() == 8
                    &&& k % 2 == 0 ==> ops[k] is Reset
                    &&& k == 1 ==> (ops[k] matches SeekOp::Seek(mid) && 2 * mid <= limit <= 2 * mid
                        + 1)
                    &&& k % 2 == 1 && k > 1 ==> (ops[k] matches SeekOp::Seek(id) && (ops[k
                        - 2] matches SeekOp::Seek(last) && id == last + STRIDE))
                },
                EdgeKind::PastEnd => {
                    &&& ops.len() == 4
                    &&& k == 2 <==> ops[k] is Reset
                    &&& k != 2 ==> (ops[k] matches SeekOp::Seek(id) && id >= limit)
                    &&& k == 0 ==> ops[k] == SeekOp::Seek(limit)
                    &&& k == 1 && limit + 1_000_000 <= u32::MAX ==> ops[k] == SeekOp::Seek(
                        (limit + 1_000_000) as u32,
                    )
                    &&& k == 3 ==> ops[k] == SeekOp::Seek(u32::MAX)
                },
                EdgeKind::BeforeStart => {
                    &&& ops.len() == 5
                    &&& k == 3 <==> ops[k] is Reset
                    &&& k == 0 || k == 4 ==> ops[k] == SeekOp::Seek(0)
                    &&& k == 1 ==> ops[k] == SeekOp::Seek(1)
                    &&& k == 2 ==> ops[k] == SeekOp::Seek(64)
                },
            }
        }),
{
    assert(k == 0 || k == 1 || k == 2 || k == 3 || k == 4 || k == 5 || k == 6 || k == 7);
}

/// Nothing is found past the end, and the start is found before it: the first id twice, the id that
/// follows it, and the one a quarter of a block on.
pub proof fn lemma_edge_results(shape: PostingShape)
    requires
        0 < shape.num_blocks <= 0x100_0000,
    ensures
        replay(
            even_ids(shape.num_blocks as nat),
            correctness_ops(shape, EdgeKind::PastEnd),
        ).0 == seq![None::<u32>, None, None],
        replay(
            even_ids(shape.num_blocks as nat),
            correctness_ops(shape, EdgeKind::BeforeStart),
        ).0 == seq![Some(0u32), Some(2u32), Some(64u32), Some(0u32)],
{
    let docs = even_ids(shape.num_blocks as nat);
    let past = correctness_ops(shape, EdgeKind::PastEnd);
    let limit = id_limit(shape);
    assert(docs.len() >= BLOCK_SIZE);
    assert forall|p: int| 0 <= p < docs.len() implies #[trigger] docs[p] == 2 * p by {}
    assert(docs[docs.len() - 1] < limit);
    let n = docs.len() as int;
    lemma_seek_even(docs, 0, limit);
    lemma_seek_even(docs, n, limit.saturating_add(1_000_000));
    lemma_seek_even(docs, 0, u32::MAX);
    lemma_last_op(docs, past.take(0), past[0]);
    lemma_last_op(docs, past.take(1), past[1]);
    lemma_last_op(docs, past.take(2), past[2]);
    lemma_last_op(docs, past.take(3), past[3]);
    assert(past.take(0).push(past[0]) =~= past.take(1));
    assert(past.take(1).push(past[1]) =~= past.take(2));
    assert(past.take(2).push(past[2]) =~= past.take(3));
    assert(past.take(3).push(past[3]) =~= past);
    assert(replay(docs, past.take(0)) == (Seq::<Option<u32>>::empty(), 0int));
    assert(replay(docs, past).0 =~= seq![None::<u32>, None, None]);
    let early = correctness_ops(shape, EdgeKind::BeforeStart);
    lemma_seek_even(docs, 0, 0);
    lemma_seek_even(docs, 0, 1);
    lemma_seek_even(docs, 1, 64);
    lemma_last_op(docs, early.take(0), early[0]);
    lemma_last_op(docs, early.take(1), early[1]);
    lemma_last_op(docs, early.take(2), early[2]);
    lemma_last_op(docs, early.take(3), early[3]);
    lemma_last_op(docs, early.take(4), early[4]);
    assert(early.take(0).push(early[0]) =~= early.take(1));
    assert(early.take(1).push(early[1]) =~= early.take(2));
    assert(early.take(2).push(early[2]) =~= early.take(3));
    assert(early.take(3).push(early[3]) =~= early.take(4));
    assert(early.take(4).push(early[4]) =~= early);
    assert(replay(docs, early.take(0)) == (Seq::<Option<u32>>::empty(), 0int));
    assert(replay(docs, early).0 =~= seq![Some(0u32), Some(2u32), Some(64u32), Some(0u32)]);
}

proof fn lemma_last_op(docs: Seq<u32>, ops: Seq<SeekOp>, op: SeekOp)
    ensures
        replay(docs, ops.push(op)) == match op {
            SeekOp::Reset => (replay(docs, ops).0, 0int),
            SeekOp::Seek(id) => {
                let to = seek_to(docs, replay(docs, ops).1, id);
                (replay(docs, ops).0.push(found(docs, to)), to)
            },
        },
{
    assert(ops.push(op).drop_last() =~= ops);
}

/// Where a seek arrives in a list of even numbers.
proof fn lemma_seek_even(docs: Seq<u32>, from: int, least: u32)
    requires
        0 <= from <= docs.len(),
        forall|p: int| 0 <= p < docs.len() ==> #[trigger] docs[p] == 2 * p,
    ensures
        ({
            let half = (least + 1) / 2;
            seek_to(docs, from, least) == if from >= half {
                from
            } else if half <= docs.len() {
                half
            } else {
                docs.len() as int
            }
        }),
{
    lemma_seek_to(docs, from, least);
    let to = seek_to(docs, from, least);
    let half = (least + 1) / 2;
    if to < docs.len() {
        assert(docs[to] == 2 * to);
    }
    if to > from {
        assert(docs[to - 1] < least);
        assert(docs[to - 1] == 2 * (to - 1));
    }
}

/// How far a pattern advances per seek.
pub open spec fn step_of(shape: PostingShape, pattern: SeekPattern) -> u32 {
    match pattern {
        SeekPattern::Sequential => STRIDE,
        SeekPattern::SkipShallow => (16 * STRIDE) as u32,
        SeekPattern::SkipDeep => if id_limit(shape) / 10 < STRIDE {
            STRIDE
        } else {
            id_limit(shape) / 10
        },
    }
}

/// A walk of `n` seeks that advances by `step` and starts over before it reaches `limit`, and the
/// target of its last seek.
pub open spec fn walk(limit: u32, step: u32, n: nat) -> (Seq<SeekOp>, u32)
    decreases n,
{
    if n == 0 {
        (Seq::empty(), 0)
    } else {
        let (ops, last) = walk(limit, step, (n - 1) as nat);
        let target = last.saturating_add(step);
        if target >= limit {
            (ops.push(SeekOp::Reset).push(SeekOp::Seek(step)), step)
        } else {
            (ops.push(SeekOp::Seek(target)), target)
        }
    }
}

/// The seek sequence of a speed workload.
pub open spec fn speed_ops(shape: PostingShape, pattern: SeekPattern) -> Seq<SeekOp> {
    walk(id_limit(shape), step_of(shape, pattern), NUM_SEEKS_PER_COMBO as nat).0
}

/// Builds the seek sequence of a speed workload. Nothing of it is drawn at random.
pub fn build_speed_ops(
    shape: PostingShape,
    pattern: SeekPattern,
    rng: &mut SplitMix64,
) -> (ops: Vec<SeekOp>)
    ensures
        ops@ == speed_ops(shape, pattern),
        final(rng)@ == old(rng)@,
{
    let limit: u32 = max_id(shape);
    let step: u32 = match pattern {
        SeekPattern::Sequential => STRIDE,
        SeekPattern::SkipShallow => 16 * STRIDE,
        SeekPattern::SkipDeep => if limit / 10 < STRIDE { STRIDE } else { limit / 10 },
    };
    let mut ops: Vec<SeekOp> = Vec::with_capacity(NUM_SEEKS_PER_COMBO * 2);
    let mut target: u32 = 0;
    let mut seeks_done: usize = 0;
    while seeks_done < NUM_SEEKS_PER_COMBO
        invariant
            seeks_done <= NUM_SEEKS_PER_COMBO,
            (ops@, target) == walk(limit, step, seeks_done as nat),
        decreases NUM_SEEKS_PER_COMBO - seeks_done,
    {
        target = target.saturating_add(step);
        if target >= limit {
            ops.push(SeekOp::Reset);
            target = step;
        }
        ops.push(SeekOp::Seek(target));
        seeks_done += 1;
    }
    ops
}

/// What stands at place `i` of a walk in steps: a seek at the start or behind a reset goes `step`
/// far, every other seek `step` further than the one before it and not as far as `limit`. A reset
/// stands only where the next step would reach `limit`, and a seek follows it.
pub open spec fn steps_at(ops: Seq<SeekOp>, i: int, step: int, limit: int) -> bool {
    match ops[i] {
        SeekOp::Seek(target) => if i == 0 {
            target == step && step < limit
        } else {
            match ops[i - 1] {
                SeekOp::Seek(last) => target == last + step && target < limit,
                SeekOp::Reset => target == step,
            }
        },
        SeekOp::Reset => {
            &&& i + 1 < ops.len()
            &&& ops[i + 1] is Seek
            &&& i == 0 ==> step >= limit
            &&& i > 0 ==> match ops[i - 1] {
                SeekOp::Seek(last) => last + step >= limit,
                SeekOp::Reset => false,
            }
        },
    }
}

/// A walk goes in steps, and its second part is the target of its last seek.
proof fn lemma_walk_steps(limit: u32, step: u32, n: nat, i: int)
    requires
        0 <= i < walk(limit, step, n).0.len(),
    ensures
        steps_at(walk(limit, step, n).0, i, step as int, limit as int),
        walk(limit, step, n).0.last() == SeekOp::Seek(walk(limit, step, n).1),
    decreases n,
{
    if n > 0 {
        let (ops, last) = walk(limit, step, (n - 1) as nat);
        let all = walk(limit, step, n).0;
        if n > 1 {
            reveal_with_fuel(walk, 2);
            assert(ops.len() > 0);
            lemma_walk_steps(limit, step, (n - 1) as nat, ops.len() - 1);
            assert(ops[ops.len() - 1] == SeekOp::Seek(last));
            if i < ops.len() {
                lemma_walk_steps(limit, step, (n - 1) as nat, i);
                assert(all[i] == ops[i]);
                if i > 0 {
                    assert(all[i - 1] == ops[i - 1]);
                }
                if i + 1 < ops.len() {
                    assert(all[i + 1] == ops[i + 1]);
                }
            }
        }
    }
}

/// How a speed workload seeks. In the sequential pattern two seeks with no reset between them are as
/// far apart as the first ids of adjacent blocks, and a seek at the start or behind a reset goes as
/// far. The shallow pattern goes sixteen times as far. The deep one goes a tenth of the way to the
/// limit, but no less far than the sequential one. Each starts over only where the next seek would
/// reach the limit.
pub proof fn lemma_speed_ops(shape: PostingShape, pattern: SeekPattern, i: int)
    requires
        0 <= i < speed_ops(shape, pattern).len(),
    ensures
        pattern is Sequential ==> steps_at(
            speed_ops(shape, pattern),
            i,
            STRIDE as int,
            id_limit(shape) as int,
        ),
        pattern is SkipShallow ==> steps_at(
            speed_ops(shape, pattern),
            i,
            16 * STRIDE,
            id_limit(shape) as int,
        ),
        pattern is SkipDeep ==> forall|tenth: int|
            #![trigger steps_at(speed_ops(shape, pattern), i, tenth, id_limit(shape) as int)]
            (10 * tenth <= id_limit(shape) < 10 * tenth + 10 && tenth >= STRIDE || tenth == STRIDE
                && id_limit(shape) < 10 * STRIDE) ==> steps_at(
                speed_ops(shape, pattern),
                i,
                tenth,
                id_limit(shape) as int,
            ),
{
    lemma_walk_steps(
        id_limit(shape),
        step_of(shape, pattern),
        NUM_SEEKS_PER_COMBO as nat,
        i,
    );
}

/// The list of a shape: its first id is zero and ids are two apart, so that the first ids of adjacent
/// blocks are a stride apart. All ids are below the limit, and the next one would not be.
pub proof fn lemma_list_of_shape(shape: PostingShape, b: int, j: int)
    requires
        0 <= b < shape.num_blocks <= 0x100_0000,
        0 <= j < BLOCK_SIZE,
    ensures
        even_ids(shape.num_blocks as nat).len() == shape.num_blocks * BLOCK_SIZE,
        even_ids(shape.num_blocks as nat)[0] == 0,
        even_ids(shape.num_blocks as nat)[b * BLOCK_SIZE + j] == b * STRIDE + 2 * j,
        b + 1 < shape.num_blocks ==> even_ids(shape.num_blocks as nat)[(b + 1) * BLOCK_SIZE]
            == even_ids(shape.num_blocks as nat)[b * BLOCK_SIZE] + STRIDE,
        even_ids(shape.num_blocks as nat)[b * BLOCK_SIZE + j] < id_limit(shape),
        even_ids(shape.num_blocks as nat).last() + 2 >= id_limit(shape),
{
}

/// The limit of a list that has too many blocks for its ids is the largest id.
pub proof fn lemma_limit_of_long_list(shape: PostingShape)
    requires
        0x100_0000 <= shape.num_blocks <= u32::MAX,
    ensures
        id_limit(shape) == u32::MAX,
{
}

/// Whether an operation is a seek.
pub open spec fn is_seek() -> spec_fn(SeekOp) -> bool {
    |op: SeekOp| op is Seek
}

/// A walk of `n` seeks has `n` seeks in it, whatever resets stand between them.
pub proof fn lemma_walk_seeks(limit: u32, step: u32, n: nat)
    ensures
        walk(limit, step, n).0.filter(is_seek()).len() == n,
    decreases n,
{
    reveal(Seq::filter);
    if n > 0 {
        lemma_walk_seeks(limit, step, (n - 1) as nat);
        let (ops, last) = walk(limit, step, (n - 1) as nat);
        let target = last.saturating_add(step);
        let with_reset = ops.push(SeekOp::Reset);
        assert(with_reset.drop_last() =~= ops);
        assert(with_reset.filter(is_seek()) == ops.filter(is_seek()));
        assert(with_reset.push(SeekOp::Seek(step)).drop_last() =~= with_reset);
        assert(ops.push(SeekOp::Seek(target)).drop_last() =~= ops);
    }
}

/// A case of the correctness battery.
pub struct CorrectnessCase {
    pub label: &'static str,
    pub shape: PostingShape,
    pub list: PostingList,
    pub ops: Vec<SeekOp>,
}

/// What a case holds.
pub struct CaseModel {
    pub label: Seq<char>,
    pub shape: PostingShape,
    pub docs: Seq<u32>,
    pub ops: Seq<SeekOp>,
}

impl View for CorrectnessCase {
    type V = CaseModel;

    open spec fn view(&self) -> CaseModel {
        CaseModel { label: self.label@, shape: self.shape, docs: self.list@, ops: self.ops@ }
    }
}

/// The case for a shape and a kind.
pub open spec fn case_of(shape: PostingShape, kind: EdgeKind) -> CaseModel {
    CaseModel {
        label: kind_label(kind),
        shape,
        docs: even_ids(shape.num_blocks as nat),
        ops: correctness_ops(shape, kind),
    }
}

/// The first `count` cases of the battery: every shape with every kind. The seed plays no part.
pub open spec fn battery(count: nat) -> Seq<CaseModel> {
    Seq::new(count, |i: int| case_of(shape_list()[i / 5], EDGE_KINDS@[i % 5]))
}

/// What a sequence of cases holds.
pub open spec fn case_models(cases: Seq<CorrectnessCase>) -> Seq<CaseModel> {
    cases.map_values(|c: CorrectnessCase| c@)
}

/// The cases on which the kernel is held against the reference.
pub fn correctness_battery(seed: u64) -> (r: Vec<CorrectnessCase>)
    ensures
        case_models(r@) == battery(15),
{
    let mut out: Vec<CorrectnessCase> = Vec::new();
    let shapes: [PostingShape; 3] = shapes();
    let mut i: usize = 0;
    while i < 15
        invariant
            i <= 15,
            shapes@ == shape_list(),
            case_models(out@) == battery(i as nat),
        decreases 15 - i,
    {
        let shape: PostingShape = shapes[i / 5];
        let kind: EdgeKind = EDGE_KINDS[i % 5];
        let parts: [u64; 3] = [seed, shape_hash(shape), edge_hash(kind)];
        let mut rng: SplitMix64 = SplitMix64::new(mix_seeds(parts.as_slice()));
        let ops: Vec<SeekOp> = build_correctness_ops(shape, kind, &mut rng);
        let list: PostingList = build_posting_list(shape);
        let case = CorrectnessCase { label: label_of(kind), shape, list, ops };
        let ghost before = out@;
        out.push(case);
        i += 1;
        proof {
            assert(case_models(out@) =~= case_models(before).push(case@));
            assert(case_models(out@) =~= battery(i as nat));
        }
    }
    out
}

/// A workload of the speed runs.
pub struct SpeedWorkload {
    pub shape: PostingShape,
    pub pattern: SeekPattern,
    pub list: PostingList,
    pub ops: Vec<SeekOp>,
}

/// What a workload holds.
pub struct WorkloadModel {
    pub shape: PostingShape,
    pub pattern: SeekPattern,
    pub docs: Seq<u32>,
    pub ops: Seq<SeekOp>,
}

impl View for SpeedWorkload {
    type V = WorkloadModel;

    open spec fn view(&self) -> WorkloadModel {
        WorkloadModel {
            shape: self.shape,
            pattern: self.pattern,
            docs: self.list@,
            ops: self.ops@,
        }
    }
}

/// The workload for a shape and a pattern.
pub open spec fn workload(shape: PostingShape, pattern: SeekPattern) -> WorkloadModel {
    WorkloadModel {
        shape,
        pattern,
        docs: even_ids(shape.num_blocks as nat),
        ops: speed_ops(shape, pattern),
    }
}

/// The first `count` workloads: every shape with every pattern. The seed plays no part.
pub open spec fn workloads(count: nat) -> Seq<WorkloadModel> {
    Seq::new(count, |i: int| workload(shape_list()[i / 3], PATTERNS@[i % 3]))
}

/// What a sequence of workloads holds.
pub open spec fn workload_models(loads: Seq<SpeedWorkload>) -> Seq<WorkloadModel> {
    loads.map_values(|w: SpeedWorkload| w@)
}

/// The workloads that are timed.
pub fn speed_workloads(seed: u64) -> (r: Vec<SpeedWorkload>)
    ensures
        workload_models(r@) == workloads(9),
{
    let mut out: Vec<SpeedWorkload> = Vec::new();
    let shapes: [PostingShape; 3] = shapes();
    let mut i: usize = 0;
    while i < 9
        invariant
            i <= 9,
            shapes@ == shape_list(),
            workload_models(out@) == workloads(i as nat),
        decreases 9 - i,
    {
        let shape: PostingShape = shapes[i / 3];
        let pattern: SeekPattern = PATTERNS[i % 3];
        let parts: [u64; 3] = [seed, shape_hash(shape), pattern_hash(pattern)];
        let mut rng: SplitMix64 = SplitMix64::new(mix_seeds(parts.as_slice()));
        let list: PostingList = build_posting_list(shape);
        let ops: Vec<SeekOp> = build_speed_ops(shape, pattern, &mut rng);
        let load = SpeedWorkload { shape, pattern, list, ops };
        let ghost before = out@;
        out.push(load);
        i += 1;
        proof {
            assert(workload_models(out@) =~= workload_models(before).push(load@));
            assert(workload_models(out@) =~= workloads(i as nat));
        }
    }
    out
}

/// There is one workload for each shape and pattern, and each has its number of timed seeks.
pub proof fn lemma_workloads()
    ensures
        workloads(9).len() == shape_list().len() * PATTERNS@.len(),
        forall|i: int|
            0 <= i < 9 ==> (#[trigger] workloads(9)[i]).ops.filter(is_seek()).len()
                == NUM_SEEKS_PER_COMBO,
{
    assert(shape_list().len() == 3 && PATTERNS@.len() == 3);
    assert forall|i: int| 0 <= i < 9 implies (#[trigger] workloads(9)[i]).ops.filter(
        is_seek(),
    ).len() == NUM_SEEKS_PER_COMBO by {
        let shape = shape_list()[i / 3];
        let pattern = PATTERNS@[i % 3];
        lemma_walk_seeks(id_limit(shape), step_of(shape, pattern), NUM_SEEKS_PER_COMBO as nat);
        assert(workloads(9)[i] == workload(shape, pattern));
    }
}

/// The battery holds every shape with every kind, the kinds of a shape one behind the other, each
/// under its name, with the list of the shape and the seeks of the kind.
pub proof fn lemma_battery_grid(shape: int, kind: int)
    requires
        0 <= shape < 3,
        0 <= kind < 5,
    ensures
        battery(15)[5 * shape + kind].shape == shape_list()[shape],
        battery(15)[5 * shape + kind].label == kind_label(EDGE_KINDS@[kind]),
        battery(15)[5 * shape + kind].docs == even_ids(shape_list()[shape].num_blocks as nat),
        battery(15)[5 * shape + kind].ops == correctness_ops(
            shape_list()[shape],
            EDGE_KINDS@[kind],
        ),
{
    let i = 5 * shape + kind;
    assert(i / 5 == shape && i % 5 == kind);
}

/// The workloads are every shape with every pattern, the patterns of a shape one behind the other,
/// each with the list of the shape and the seeks of the pattern, a thousand and twenty-four of them.
pub proof fn lemma_workload_grid(shape: int, pattern: int)
    requires
        0 <= shape < 3,
        0 <= pattern < 3,
    ensures
        workloads(9)[3 * shape + pattern].shape == shape_list()[shape],
        workloads(9)[3 * shape + pattern].pattern == PATTERNS@[pattern],
        workloads(9)[3 * shape + pattern].docs == even_ids(
            shape_list()[shape].num_blocks as nat,
        ),
        workloads(9)[3 * shape + pattern].ops == speed_ops(shape_list()[shape], PATTERNS@[pattern]),
        speed_ops(shape_list()[shape], PATTERNS@[pattern]).filter(is_seek()).len() == 1024,
{
    let i = 3 * shape + pattern;
    assert(i / 3 == shape && i % 3 == pattern);
    lemma_walk_seeks(
        id_limit(shape_list()[shape]),
        step_of(shape_list()[shape], PATTERNS@[pattern]),
        NUM_SEEKS_PER_COMBO as nat,
    );
}

} // verus!
