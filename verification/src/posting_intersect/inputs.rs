//! Test data and workloads for the intersection kernels, deterministic per seed.
//!
//! `Balanced` lists have equal sizes at moderate density, `Skewed` sets pair one short list of some
//! fifty ids with long ones of some fifty thousand, `Dense` lists hold half of a small universe,
//! `Sparse` lists have a handful of ids, and `Clustered` lists come in dense runs separated by gaps.
use vstd::prelude::*;

use crate::posting_intersect::sampling::{lemma_sample, sample, sorted_unique};
use crate::posting_intersect::{
    contents, intersection, lemma_intersection, lemma_members, sorted_unique_lists, PostingShape,
};
use crate::prng::{
    draw, lemma_gamma_multiples, lemma_mixed_seed, lemma_some_draw, mix_seeds, mixed_seed,
    state_after, SplitMix64, GAMMA,
};
use crate::sorted::{
    ascending, lemma_ascending, lemma_increasing_unique, sort_dedup, strictly_increasing,
};

verus! {

/// The shapes that are evaluated.
pub open spec fn shape_list() -> Seq<PostingShape> {
    seq![
        PostingShape { num_lists: 2 },
        PostingShape { num_lists: 3 },
        PostingShape { num_lists: 5 },
    ]
}

/// The shapes that are evaluated.
pub fn shapes() -> (r: [PostingShape; 3])
    ensures
        r@ == shape_list(),
        r@[0].num_lists == 2,
        r@[1].num_lists == 3,
        r@[2].num_lists == 5,
{
    [PostingShape::new(2), PostingShape::new(3), PostingShape::new(5)]
}

/// How many sets of lists one speed workload has.
pub const SPEED_INSTANCES_PER_COMBO: usize = 128;

/// How many intersections one timing window spans.
pub const SPEED_BATCH: usize = 8;

/// The distributions of the speed workloads.
#[derive(Clone, Copy, Debug, PartialEq, Eq, Structural)]
pub enum DataDistribution {
    Balanced,
    Skewed,
    Dense,
}

pub const DISTRIBUTIONS: [DataDistribution; 3] = [
    DataDistribution::Balanced,
    DataDistribution::Skewed,
    DataDistribution::Dense,
];

/// The distributions of the correctness battery.
#[derive(Clone, Copy, Debug, PartialEq, Eq, Structural)]
pub enum InputKind {
    Balanced,
    Skewed,
    Dense,
    Sparse,
    Clustered,
}

pub const INPUT_KINDS: [InputKind; 5] = [
    InputKind::Balanced,
    InputKind::Skewed,
    InputKind::Dense,
    InputKind::Sparse,
    InputKind::Clustered,
];

/// The name of a kind in the battery.
pub open spec fn kind_label(kind: InputKind) -> Seq<char> {
    match kind {
        InputKind::Balanced => "balanced"@,
        InputKind::Skewed => "skewed"@,
        InputKind::Dense => "dense"@,
        InputKind::Sparse => "sparse"@,
        InputKind::Clustered => "clustered"@,
    }
}

fn label_of(kind: InputKind) -> (r: &'static str)
    ensures
        r@ == kind_label(kind),
{
    match kind {
        InputKind::Balanced => "balanced",
        InputKind::Skewed => "skewed",
        InputKind::Dense => "dense",
        InputKind::Sparse => "sparse",
        InputKind::Clustered => "clustered",
    }
}

/// The kind that a distribution of the speed workloads stands for.
pub open spec fn kind_of(dist: DataDistribution) -> InputKind {
    match dist {
        DataDistribution::Balanced => InputKind::Balanced,
        DataDistribution::Skewed => InputKind::Skewed,
        DataDistribution::Dense => InputKind::Dense,
    }
}

/// What tells apart the seeds of different shapes, kinds and distributions.
pub open spec fn shape_tag(shape: PostingShape) -> u64 {
    (shape.num_lists as u64).wrapping_mul(GAMMA)
}

pub open spec fn kind_tag(kind: InputKind) -> u64 {
    let tag: u64 = match kind {
        InputKind::Balanced => 0x11,
        InputKind::Skewed => 0x22,
        InputKind::Dense => 0x33,
        InputKind::Sparse => 0x44,
        InputKind::Clustered => 0x55,
    };
    tag.wrapping_mul(0xDEAD_BEEF_CAFE_F00D)
}

pub open spec fn dist_tag(dist: DataDistribution) -> u64 {
    let tag: u64 = match dist {
        DataDistribution::Balanced => 0x101,
        DataDistribution::Skewed => 0x202,
        DataDistribution::Dense => 0x303,
    };
    tag.wrapping_mul(0xFEED_FACE_BABE_CAFE)
}

fn shape_hash(shape: PostingShape) -> (r: u64)
    ensures
        r == shape_tag(shape),
{
    (shape.num_lists as u64).wrapping_mul(GAMMA)
}

fn kind_hash(kind: InputKind) -> (r: u64)
    ensures
        r == kind_tag(kind),
{
    let tag: u64 = match kind {
        InputKind::Balanced => 0x11,
        InputKind::Skewed => 0x22,
        InputKind::Dense => 0x33,
        InputKind::Sparse => 0x44,
        InputKind::Clustered => 0x55,
    };
    tag.wrapping_mul(0xDEAD_BEEF_CAFE_F00D)
}

fn dist_hash(dist: DataDistribution) -> (r: u64)
    ensures
        r == dist_tag(dist),
{
    let tag: u64 = match dist {
        DataDistribution::Balanced => 0x101,
        DataDistribution::Skewed => 0x202,
        DataDistribution::Dense => 0x303,
    };
    tag.wrapping_mul(0xFEED_FACE_BABE_CAFE)
}

/// The lists of one intersection.
pub struct PostingSet {
    pub lists: Vec<Vec<u32>>,
}

impl View for PostingSet {
    type V = Seq<Seq<u32>>;

    open spec fn view(&self) -> Seq<Seq<u32>> {
        self.lists@.map_values(|l: Vec<u32>| l@)
    }
}

impl PostingSet {
    /// The lists as the kernels take them.
    pub fn as_slices(&self) -> (r: Vec<&[u32]>)
        ensures
            contents(r@) == self@,
    {
        let mut r: Vec<&[u32]> = Vec::with_capacity(self.lists.len());
        let mut k: usize = 0;
        while k < self.lists.len()
            invariant
                k <= self.lists@.len(),
                r@.len() == k,
                forall|i: int| 0 <= i < k ==> (#[trigger] r@[i])@ == self.lists@[i]@,
            decreases self.lists@.len() - k,
        {
            r.push(self.lists[k].as_slice());
            k += 1;
        }
        assert(contents(r@) =~= self@);
        r
    }
}

/// The size of a universe, a tenth of it where `tenth` is set, and never below 64.
pub open spec fn scaled(base: u32, tenth: bool) -> u32 {
    let size = if tenth { base / 10 } else { base };
    if size < 64 { 64 } else { size }
}

fn scale_u32(base: u32, tenth: bool) -> (r: u32)
    ensures
        r == scaled(base, tenth),
{
    let size: u32 = if tenth { base / 10 } else { base };
    if size < 64 { 64 } else { size }
}

/// The number of ids that the lists of a kind are drawn from.
pub open spec fn universe_of(kind: InputKind, correctness: bool) -> u32 {
    match kind {
        InputKind::Balanced => scaled(1_000_000, correctness),
        InputKind::Skewed => scaled(500_000, correctness),
        InputKind::Dense => scaled(10_000, correctness),
        InputKind::Sparse => scaled(1_000_000, correctness),
        InputKind::Clustered => scaled(100_000, correctness),
    }
}

fn universe_size(kind: InputKind, correctness: bool) -> (r: u32)
    ensures
        r == universe_of(kind, correctness),
{
    match kind {
        InputKind::Balanced => scale_u32(1_000_000, correctness),
        InputKind::Skewed => scale_u32(500_000, correctness),
        InputKind::Dense => scale_u32(10_000, correctness),
        InputKind::Sparse => scale_u32(1_000_000, correctness),
        InputKind::Clustered => scale_u32(100_000, correctness),
    }
}

/// How many runs a clustered list has.
pub const NUM_CLUSTERS: usize = 32;

/// How many ids list `index` of a set is made of; for a clustered list, how many each run has.
pub open spec fn list_len(kind: InputKind, correctness: bool, index: nat) -> nat {
    let universe = universe_of(kind, correctness);
    match kind {
        InputKind::Balanced => if universe / 100 < 8 { 8 } else { (universe / 100) as nat },
        InputKind::Skewed => if index == 0 {
            if correctness { 5 } else { 50 }
        } else if universe / 10 < 16 {
            16
        } else {
            (universe / 10) as nat
        },
        InputKind::Dense => (universe / 2) as nat,
        InputKind::Sparse => if correctness { 4 } else { 10 },
        InputKind::Clustered => {
            let ids = if universe / 100 < 8 { 8 } else { universe / 100 };
            (ids / NUM_CLUSTERS as u32) as nat
        },
    }
}

fn list_size(kind: InputKind, correctness: bool, index: usize) -> (r: usize)
    ensures
        r == list_len(kind, correctness, index as nat),
{
    let universe: u32 = universe_size(kind, correctness);
    match kind {
        InputKind::Balanced => (if universe / 100 < 8 { 8 } else { universe / 100 }) as usize,
        InputKind::Skewed => if index == 0 {
            if correctness { 5 } else { 50 }
        } else {
            (if universe / 10 < 16 { 16 } else { universe / 10 }) as usize
        },
        InputKind::Dense => (universe / 2) as usize,
        InputKind::Sparse => if correctness { 4 } else { 10 },
        InputKind::Clustered => {
            let ids: u32 = if universe / 100 < 8 { 8 } else { universe / 100 };
            (ids / NUM_CLUSTERS as u32) as usize
        },
    }
}

/// Where run `c` of a clustered list starts.
pub open spec fn run_start(state: u64, universe: u32, run_len: nat, c: nat) -> u32 {
    (draw(state, c) as u32) % ((universe - run_len) as u32)
}

/// The first `c` runs, each of consecutive ids.
pub open spec fn runs(state: u64, universe: u32, run_len: nat, c: nat) -> Seq<u32>
    decreases c,
{
    if c == 0 {
        Seq::empty()
    } else {
        let start = run_start(state, universe, run_len, (c - 1) as nat);
        runs(state, universe, run_len, (c - 1) as nat) + Seq::new(
            run_len,
            |d: int| (start + d) as u32,
        )
    }
}

/// Draws a clustered list: the ids of its runs, sorted, each once.
fn clustered_list(rng: &mut SplitMix64, universe: u32, run_len: usize) -> (r: Vec<u32>)
    requires
        run_len < universe,
    ensures
        r@ == ascending(runs(old(rng)@, universe, run_len as nat, NUM_CLUSTERS as nat)),
        final(rng)@ == state_after(old(rng)@, NUM_CLUSTERS as nat),
{
    let ghost state = rng@;
    let mut list: Vec<u32> = Vec::new();
    let mut c: usize = 0;
    while c < NUM_CLUSTERS
        invariant
            c <= NUM_CLUSTERS,
            run_len < universe,
            list@ == runs(state, universe, run_len as nat, c as nat),
            rng@ == state_after(state, c as nat),
        decreases NUM_CLUSTERS - c,
    {
        let start: u32 = (rng.next_u64() as u32) % (universe - run_len as u32);
        let ghost before = list@;
        let mut d: usize = 0;
        while d < run_len
            invariant
                d <= run_len,
                start < universe - run_len,
                run_len < universe,
                list@ == before + Seq::new(d as nat, |d: int| (start + d) as u32),
            decreases run_len - d,
        {
            list.push(start + d as u32);
            d += 1;
            assert(list@ =~= before + Seq::new(d as nat, |d: int| (start + d) as u32));
        }
        c += 1;
    }
    sort_dedup(list)
}

/// List `index` of a set, and the state of the generator after drawing it.
pub open spec fn drawn_list(kind: InputKind, correctness: bool, index: nat, state: u64) -> (
    Seq<u32>,
    u64,
) {
    let universe = universe_of(kind, correctness);
    let len = list_len(kind, correctness, index);
    if kind == InputKind::Clustered {
        (
            ascending(runs(state, universe, len, NUM_CLUSTERS as nat)),
            state_after(state, NUM_CLUSTERS as nat),
        )
    } else {
        sample(state, len, universe)
    }
}

/// The first `count` lists of a set, drawn one after the other, and the state after them.
pub open spec fn drawn_lists(kind: InputKind, correctness: bool, count: nat, state: u64) -> (
    Seq<Seq<u32>>,
    u64,
)
    decreases count,
{
    if count == 0 {
        (Seq::empty(), state)
    } else {
        let before = drawn_lists(kind, correctness, (count - 1) as nat, state);
        let next = drawn_list(kind, correctness, (count - 1) as nat, before.1);
        (before.0.push(next.0), next.1)
    }
}

/// A set of lists of a kind, and the state of the generator after drawing it.
pub open spec fn drawn_set(shape: PostingShape, kind: InputKind, correctness: bool, state: u64) -> (
    Seq<Seq<u32>>,
    u64,
) {
    drawn_lists(kind, correctness, shape.num_lists as nat, state)
}

/// Draws one set of sorted posting lists without duplicates. The sets for correctness come from
/// universes a tenth as large.
pub fn gen_posting_set(
    shape: PostingShape,
    kind: InputKind,
    rng: &mut SplitMix64,
    correctness: bool,
) -> (r: PostingSet)
    ensures
        r@ == drawn_set(shape, kind, correctness, old(rng)@).0,
        r@.len() == shape.num_lists,
        sorted_unique_lists(r@),
        final(rng)@ == drawn_set(shape, kind, correctness, old(rng)@).1,
{
    let ghost state = rng@;
    let universe: u32 = universe_size(kind, correctness);
    let size: usize = shape.num_lists;
    let mut lists: Vec<Vec<u32>> = Vec::with_capacity(size);
    let mut k: usize = 0;
    while k < size
        invariant
            k <= size,
            universe == universe_of(kind, correctness),
            lists@.map_values(|l: Vec<u32>| l@) == drawn_lists(
                kind,
                correctness,
                k as nat,
                state,
            ).0,
            rng@ == drawn_lists(kind, correctness, k as nat, state).1,
        decreases size - k,
    {
        let ghost before = lists@;
        let len: usize = list_size(kind, correctness, k);
        let list: Vec<u32> = if kind == InputKind::Clustered {
            clustered_list(rng, universe, len)
        } else {
            sorted_unique(rng, len, universe)
        };
        lists.push(list);
        proof {
            assert(lists@.map_values(|l: Vec<u32>| l@) =~= before.map_values(
                |l: Vec<u32>| l@,
            ).push(list@));
        }
        k += 1;
    }
    proof {
        lemma_drawn_lists(kind, correctness, size as nat, state);
    }
    PostingSet { lists }
}

/// One case of the correctness battery.
pub struct CorrectnessCase {
    pub label: &'static str,
    pub shape: PostingShape,
    pub set: PostingSet,
}

/// What a case of the battery holds.
pub struct CaseModel {
    pub label: Seq<char>,
    pub shape: PostingShape,
    pub lists: Seq<Seq<u32>>,
}

impl View for CorrectnessCase {
    type V = CaseModel;

    open spec fn view(&self) -> CaseModel {
        CaseModel { label: self.label@, shape: self.shape, lists: self.set@ }
    }
}

/// The case of the battery for a shape and a kind.
pub open spec fn grid_case(seed: u64, shape: PostingShape, kind: InputKind) -> CaseModel {
    let state = mixed_seed(seq![seed, shape_tag(shape), kind_tag(kind)]);
    CaseModel {
        label: kind_label(kind),
        shape,
        lists: drawn_set(shape, kind, true, state).0,
    }
}

/// `count` ids from `start` on, `step` apart.
pub open spec fn id_range(start: u32, step: u32, count: nat) -> Seq<u32> {
    Seq::new(count, |i: int| (start + i * step) as u32)
}

fn ids(start: u32, step: u32, count: u32) -> (r: Vec<u32>)
    requires
        start + count * step <= u32::MAX,
    ensures
        r@ == id_range(start, step, count as nat),
{
    let mut r: Vec<u32> = Vec::with_capacity(count as usize);
    let mut k: u32 = 0;
    while k < count
        invariant
            k <= count,
            start + count * step <= u32::MAX,
            r@ == id_range(start, step, k as nat),
        decreases count - k,
    {
        proof {
            assert(k * step <= count * step) by (nonlinear_arith)
                requires
                    k <= count,
            ;
        }
        r.push(start + k * step);
        k += 1;
        assert(r@ =~= id_range(start, step, k as nat));
    }
    r
}

/// What the seed of the edge cases is mixed with.
pub const EDGE_TAG: u64 = 0xED6E_CA5E;

/// The cases with an empty list, with nothing in common, with everything in common, and with one id
/// in common.
pub open spec fn edge_cases(seed: u64) -> Seq<CaseModel> {
    let two = PostingShape { num_lists: 2 };
    let three = PostingShape { num_lists: 3 };
    let state = mixed_seed(seq![seed, EDGE_TAG]);
    seq![
        CaseModel {
            label: "edge_one_empty"@,
            shape: two,
            lists: seq![sample(state, 100, 10_000).0, Seq::empty()],
        },
        CaseModel {
            label: "edge_disjoint"@,
            shape: two,
            lists: seq![id_range(0, 2, 25), id_range(1, 2, 25)],
        },
        CaseModel {
            label: "edge_identical"@,
            shape: two,
            lists: seq![id_range(0, 1, 100), id_range(0, 1, 100)],
        },
        CaseModel {
            label: "edge_single_overlap"@,
            shape: three,
            lists: seq![
                seq![1u32, 2, 3, 42, 100, 200],
                seq![5u32, 42, 99, 101],
                seq![42u32, 500, 600],
            ],
        },
    ]
}

/// The first `count` cases of the grid of shapes and kinds.
pub open spec fn grid_cases(seed: u64, count: nat) -> Seq<CaseModel> {
    Seq::new(count, |i: int| grid_case(seed, shape_list()[i / 5], INPUT_KINDS@[i % 5]))
}

/// The whole battery of a seed: every shape with every kind, then the edge cases.
pub open spec fn battery(seed: u64) -> Seq<CaseModel> {
    grid_cases(seed, 15) + edge_cases(seed)
}

/// What a sequence of cases holds.
pub open spec fn case_models(cases: Seq<CorrectnessCase>) -> Seq<CaseModel> {
    cases.map_values(|c: CorrectnessCase| c@)
}

fn edge_one_empty(seed: u64) -> (r: CorrectnessCase)
    ensures
        r@ == edge_cases(seed)[0],
{
    let parts: [u64; 2] = [seed, EDGE_TAG];
    let mut rng: SplitMix64 = SplitMix64::new(mix_seeds(parts.as_slice()));
    assert(parts@ =~= seq![seed, EDGE_TAG]);
    let first: Vec<u32> = sorted_unique(&mut rng, 100, 10_000);
    let set = PostingSet { lists: vec![first, Vec::new()] };
    assert(set@ =~= edge_cases(seed)[0].lists);
    CorrectnessCase { label: "edge_one_empty", shape: PostingShape::new(2), set }
}

fn edge_disjoint(seed: Ghost<u64>) -> (r: CorrectnessCase)
    ensures
        r@ == edge_cases(seed@)[1],
{
    let set = PostingSet { lists: vec![ids(0, 2, 25), ids(1, 2, 25)] };
    assert(set@ =~= edge_cases(seed@)[1].lists);
    CorrectnessCase { label: "edge_disjoint", shape: PostingShape::new(2), set }
}

fn edge_identical(seed: Ghost<u64>) -> (r: CorrectnessCase)
    ensures
        r@ == edge_cases(seed@)[2],
{
    let set = PostingSet { lists: vec![ids(0, 1, 100), ids(0, 1, 100)] };
    assert(set@ =~= edge_cases(seed@)[2].lists);
    CorrectnessCase { label: "edge_identical", shape: PostingShape::new(2), set }
}

fn edge_single_overlap(seed: Ghost<u64>) -> (r: CorrectnessCase)
    ensures
        r@ == edge_cases(seed@)[3],
{
    let a: Vec<u32> = vec![1, 2, 3, 42, 100, 200];
    let b: Vec<u32> = vec![5, 42, 99, 101];
    let c: Vec<u32> = vec![42, 500, 600];
    assert(a@ =~= seq![1u32, 2, 3, 42, 100, 200]);
    assert(b@ =~= seq![5u32, 42, 99, 101]);
    assert(c@ =~= seq![42u32, 500, 600]);
    let set = PostingSet { lists: vec![a, b, c] };
    assert(set@ =~= edge_cases(seed@)[3].lists);
    CorrectnessCase { label: "edge_single_overlap", shape: PostingShape::new(3), set }
}

/// The cases on which the kernel is held against the reference. The same seed gives the same
/// battery.
pub fn correctness_battery(seed: u64) -> (r: Vec<CorrectnessCase>)
    ensures
        case_models(r@) == battery(seed),
{
    let mut out: Vec<CorrectnessCase> = Vec::new();
    let shapes: [PostingShape; 3] = shapes();
    let mut i: usize = 0;
    while i < 15
        invariant
            i <= 15,
            shapes@ == shape_list(),
            case_models(out@) == grid_cases(seed, i as nat),
        decreases 15 - i,
    {
        let shape: PostingShape = shapes[i / 5];
        let kind: InputKind = INPUT_KINDS[i % 5];
        let parts: [u64; 3] = [seed, shape_hash(shape), kind_hash(kind)];
        let mut rng: SplitMix64 = SplitMix64::new(mix_seeds(parts.as_slice()));
        assert(parts@ =~= seq![seed, shape_tag(shape), kind_tag(kind)]);
        let set: PostingSet = gen_posting_set(shape, kind, &mut rng, true);
        let case = CorrectnessCase { label: label_of(kind), shape, set };
        let ghost before = out@;
        out.push(case);
        i += 1;
        proof {
            assert(case_models(out@) =~= case_models(before).push(case@));
            assert(case_models(out@) =~= grid_cases(seed, i as nat));
        }
    }
    let ghost grid = out@;
    let e0: CorrectnessCase = edge_one_empty(seed);
    let e1: CorrectnessCase = edge_disjoint(Ghost(seed));
    let e2: CorrectnessCase = edge_identical(Ghost(seed));
    let e3: CorrectnessCase = edge_single_overlap(Ghost(seed));
    out.push(e0);
    out.push(e1);
    out.push(e2);
    out.push(e3);
    assert(case_models(out@) =~= case_models(grid) + edge_cases(seed));
    out
}

/// One workload of the speed runs.
pub struct SpeedWorkload {
    pub shape: PostingShape,
    pub distribution: DataDistribution,
    pub instances: Vec<PostingSet>,
}

/// What a workload holds.
pub struct WorkloadModel {
    pub shape: PostingShape,
    pub distribution: DataDistribution,
    pub instances: Seq<Seq<Seq<u32>>>,
}

/// What a sequence of sets holds.
pub open spec fn set_models(sets: Seq<PostingSet>) -> Seq<Seq<Seq<u32>>> {
    sets.map_values(|s: PostingSet| s@)
}

impl View for SpeedWorkload {
    type V = WorkloadModel;

    open spec fn view(&self) -> WorkloadModel {
        WorkloadModel {
            shape: self.shape,
            distribution: self.distribution,
            instances: set_models(self.instances@),
        }
    }
}

/// The first `count` sets of a workload, drawn one after the other, and the state after them.
pub open spec fn drawn_instances(
    shape: PostingShape,
    kind: InputKind,
    count: nat,
    state: u64,
) -> (Seq<Seq<Seq<u32>>>, u64)
    decreases count,
{
    if count == 0 {
        (Seq::empty(), state)
    } else {
        let before = drawn_instances(shape, kind, (count - 1) as nat, state);
        let next = drawn_set(shape, kind, false, before.1);
        (before.0.push(next.0), next.1)
    }
}

/// The workload for a shape and a distribution.
pub open spec fn workload(seed: u64, shape: PostingShape, dist: DataDistribution) -> WorkloadModel {
    let state = mixed_seed(seq![seed, shape_tag(shape), dist_tag(dist)]);
    WorkloadModel {
        shape,
        distribution: dist,
        instances: drawn_instances(
            shape,
            kind_of(dist),
            SPEED_INSTANCES_PER_COMBO as nat,
            state,
        ).0,
    }
}

/// The first `count` workloads: every shape with every distribution.
pub open spec fn workloads(seed: u64, count: nat) -> Seq<WorkloadModel> {
    Seq::new(count, |i: int| workload(seed, shape_list()[i / 3], DISTRIBUTIONS@[i % 3]))
}

/// What a sequence of workloads holds.
pub open spec fn workload_models(loads: Seq<SpeedWorkload>) -> Seq<WorkloadModel> {
    loads.map_values(|w: SpeedWorkload| w@)
}

fn speed_workload(seed: u64, shape: PostingShape, dist: DataDistribution) -> (r: SpeedWorkload)
    ensures
        r@ == workload(seed, shape, dist),
{
    let parts: [u64; 3] = [seed, shape_hash(shape), dist_hash(dist)];
    let mut rng: SplitMix64 = SplitMix64::new(mix_seeds(parts.as_slice()));
    assert(parts@ =~= seq![seed, shape_tag(shape), dist_tag(dist)]);
    let kind: InputKind = match dist {
        DataDistribution::Balanced => InputKind::Balanced,
        DataDistribution::Skewed => InputKind::Skewed,
        DataDistribution::Dense => InputKind::Dense,
    };
    let ghost state = rng@;
    let mut instances: Vec<PostingSet> = Vec::with_capacity(SPEED_INSTANCES_PER_COMBO);
    let mut k: usize = 0;
    while k < SPEED_INSTANCES_PER_COMBO
        invariant
            k <= SPEED_INSTANCES_PER_COMBO,
            set_models(instances@) == drawn_instances(shape, kind, k as nat, state).0,
            rng@ == drawn_instances(shape, kind, k as nat, state).1,
        decreases SPEED_INSTANCES_PER_COMBO - k,
    {
        let ghost before = instances@;
        let set: PostingSet = gen_posting_set(shape, kind, &mut rng, false);
        instances.push(set);
        assert(set_models(instances@) =~= set_models(before).push(set@));
        k += 1;
    }
    SpeedWorkload { shape, distribution: dist, instances }
}

/// The workloads that are timed: every shape with every distribution. The same seed gives the same
/// workloads.
pub fn speed_workloads(seed: u64) -> (r: Vec<SpeedWorkload>)
    ensures
        workload_models(r@) == workloads(seed, 9),
{
    let mut out: Vec<SpeedWorkload> = Vec::new();
    let shapes: [PostingShape; 3] = shapes();
    let mut i: usize = 0;
    while i < 9
        invariant
            i <= 9,
            shapes@ == shape_list(),
            workload_models(out@) == workloads(seed, i as nat),
        decreases 9 - i,
    {
        let ghost before = out@;
        let load: SpeedWorkload = speed_workload(seed, shapes[i / 3], DISTRIBUTIONS[i % 3]);
        out.push(load);
        i += 1;
        proof {
            assert(workload_models(out@) =~= workload_models(before).push(load@));
            assert(workload_models(out@) =~= workloads(seed, i as nat));
        }
    }
    out
}

/// Every list that is drawn is sorted ascending without duplicates, and a set has as many lists as
/// its shape says.
pub proof fn lemma_drawn_lists(kind: InputKind, correctness: bool, count: nat, state: u64)
    ensures
        drawn_lists(kind, correctness, count, state).0.len() == count,
        sorted_unique_lists(drawn_lists(kind, correctness, count, state).0),
    decreases count,
{
    if count > 0 {
        lemma_drawn_lists(kind, correctness, (count - 1) as nat, state);
        let before = drawn_lists(kind, correctness, (count - 1) as nat, state);
        let universe = universe_of(kind, correctness);
        let len = list_len(kind, correctness, (count - 1) as nat);
        lemma_sample(before.1, len, universe);
        lemma_ascending(runs(before.1, universe, len, NUM_CLUSTERS as nat));
    }
}

/// Every list of the battery is sorted ascending without duplicates, and every case has as many
/// lists as its shape says.
pub proof fn lemma_battery(seed: u64)
    ensures
        battery(seed).len() == 19,
        forall|i: int|
            0 <= i < 19 ==> sorted_unique_lists((#[trigger] battery(seed)[i]).lists)
                && battery(seed)[i].lists.len() == battery(seed)[i].shape.num_lists,
{
    assert forall|i: int| 0 <= i < 19 implies sorted_unique_lists(
        (#[trigger] battery(seed)[i]).lists,
    ) && battery(seed)[i].lists.len() == battery(seed)[i].shape.num_lists by {
        if i < 15 {
            let shape = shape_list()[i / 5];
            let kind = INPUT_KINDS@[i % 5];
            let state = mixed_seed(seq![seed, shape_tag(shape), kind_tag(kind)]);
            lemma_drawn_lists(kind, true, shape.num_lists as nat, state);
            assert(battery(seed)[i] == grid_case(seed, shape, kind));
        } else {
            assert(battery(seed)[i] == edge_cases(seed)[i - 15]);
            let state = mixed_seed(seq![seed, EDGE_TAG]);
            lemma_sample(state, 100, 10_000);
            assert(i == 15 || i == 16 || i == 17 || i == 18);
            let lists = edge_cases(seed)[i - 15].lists;
            assert forall|k: int| 0 <= k < lists.len() implies strictly_increasing(
                #[trigger] lists[k],
            ) by {
                assert(k == 0 || k == 1 || k == 2);
            }
        }
    }
}

/// The workload has its number of instances, each with as many lists as the shape says, and every
/// list is sorted ascending without duplicates.
pub open spec fn complete(load: WorkloadModel) -> bool {
    &&& load.instances.len() == SPEED_INSTANCES_PER_COMBO
    &&& forall|k: int|
        0 <= k < load.instances.len() ==> sorted_unique_lists(#[trigger] load.instances[k])
            && load.instances[k].len() == load.shape.num_lists
}

/// The workloads are one for each shape and distribution, all of them complete.
pub proof fn lemma_workloads(seed: u64)
    ensures
        workloads(seed, 9).len() == shape_list().len() * DISTRIBUTIONS@.len(),
        forall|i: int| 0 <= i < 9 ==> complete(#[trigger] workloads(seed, 9)[i]),
{
    assert(shape_list().len() == 3 && DISTRIBUTIONS@.len() == 3);
    assert forall|i: int| 0 <= i < 9 implies complete(#[trigger] workloads(seed, 9)[i]) by {
        let shape = shape_list()[i / 3];
        let dist = DISTRIBUTIONS@[i % 3];
        let state = mixed_seed(seq![seed, shape_tag(shape), dist_tag(dist)]);
        lemma_instances(shape, kind_of(dist), SPEED_INSTANCES_PER_COMBO as nat, state);
        assert(workloads(seed, 9)[i] == workload(seed, shape, dist));
    }
}

proof fn lemma_instances(shape: PostingShape, kind: InputKind, count: nat, state: u64)
    ensures
        drawn_instances(shape, kind, count, state).0.len() == count,
        forall|k: int|
            0 <= k < count ==> sorted_unique_lists(
                #[trigger] drawn_instances(shape, kind, count, state).0[k],
            ) && drawn_instances(shape, kind, count, state).0[k].len() == shape.num_lists,
    decreases count,
{
    if count > 0 {
        lemma_instances(shape, kind, (count - 1) as nat, state);
        let before = drawn_instances(shape, kind, (count - 1) as nat, state);
        lemma_drawn_lists(kind, false, shape.num_lists as nat, before.1);
    }
}

/// The ids from `start` on, `len` of them, are all in the list.
pub open spec fn holds_run(list: Seq<u32>, start: int, len: nat) -> bool {
    forall|x: u32| start <= x < start + len ==> #[trigger] list.contains(x)
}

/// A run is among the first runs with all its ids.
proof fn lemma_runs_hold(state: u64, universe: u32, run_len: nat, count: nat, c: nat, x: u32)
    requires
        run_len < universe,
        c < count,
        run_start(state, universe, run_len, c) <= x < run_start(state, universe, run_len, c)
            + run_len,
    ensures
        runs(state, universe, run_len, count).contains(x),
    decreases count,
{
    let last = (count - 1) as nat;
    let before = runs(state, universe, run_len, last);
    let start = run_start(state, universe, run_len, last);
    let run = Seq::new(run_len, |d: int| (start + d) as u32);
    let all = before + run;
    if c < last {
        lemma_runs_hold(state, universe, run_len, last, c, x);
        let i = choose|i: int| 0 <= i < before.len() && before[i] == x;
        assert(all[i] == x);
    } else {
        assert(all[before.len() + (x - start)] == x);
    }
}

/// What is among the first runs is in one of them.
proof fn lemma_in_a_run(state: u64, universe: u32, run_len: nat, count: nat, x: u32) -> (c: nat)
    requires
        run_len < universe,
        runs(state, universe, run_len, count).contains(x),
    ensures
        c < count,
        run_start(state, universe, run_len, c) <= x < run_start(state, universe, run_len, c)
            + run_len,
    decreases count,
{
    let last = (count - 1) as nat;
    let before = runs(state, universe, run_len, last);
    let start = run_start(state, universe, run_len, last);
    let all = runs(state, universe, run_len, count);
    let i = choose|i: int| 0 <= i < all.len() && all[i] == x;
    if i < before.len() {
        assert(before[i] == x);
        lemma_in_a_run(state, universe, run_len, last, x)
    } else {
        vstd::arithmetic::div_mod::lemma_mod_bound(
            draw(state, last) as u32 as int,
            universe - run_len,
        );
        last
    }
}

/// A clustered list consists of dense runs: each of its thirty-two runs begins where a whole run still
/// fits the universe, and is in the list with all its ids; and every id of the list is in one of the
/// runs.
pub proof fn lemma_clustered(state: u64, correctness: bool, index: nat)
    ensures
        ({
            let universe = universe_of(InputKind::Clustered, correctness);
            let len = list_len(InputKind::Clustered, correctness, index);
            let list = drawn_list(InputKind::Clustered, correctness, index, state).0;
            &&& forall|c: nat|
                c < 32 ==> {
                    &&& (#[trigger] run_start(state, universe, len, c)) + len < universe
                    &&& holds_run(list, run_start(state, universe, len, c) as int, len)
                }
            &&& forall|x: u32| #[trigger]
                list.contains(x) ==> exists|c: nat|
                    c < 32 && (#[trigger] run_start(state, universe, len, c)) <= x < run_start(
                        state,
                        universe,
                        len,
                        c,
                    ) + len
        }),
{
    let universe = universe_of(InputKind::Clustered, correctness);
    let len = list_len(InputKind::Clustered, correctness, index);
    let list = drawn_list(InputKind::Clustered, correctness, index, state).0;
    let all = runs(state, universe, len, NUM_CLUSTERS as nat);
    lemma_ascending(all);
    assert forall|c: nat| c < 32 implies (#[trigger] run_start(state, universe, len, c)) + len
        < universe && holds_run(list, run_start(state, universe, len, c) as int, len) by {
        vstd::arithmetic::div_mod::lemma_mod_bound(
            draw(state, c) as u32 as int,
            universe - len,
        );
        let start = run_start(state, universe, len, c) as int;
        assert forall|x: u32| start <= x < start + len implies #[trigger] list.contains(x) by {
            lemma_runs_hold(state, universe, len, NUM_CLUSTERS as nat, c, x);
            assert(all.contains(x));
        }
    }
    assert forall|x: u32| #[trigger] list.contains(x) implies exists|c: nat|
        c < 32 && (#[trigger] run_start(state, universe, len, c)) <= x < run_start(
            state,
            universe,
            len,
            c,
        ) + len by {
        assert(all.contains(x));
        let c = lemma_in_a_run(state, universe, len, NUM_CLUSTERS as nat, x);
    }
}

/// The lower half of a draw decides where a run begins, and it can begin everywhere where it fits: for
/// every such place and every run there is a state of the generator from which it begins there.
pub proof fn lemma_run_anywhere(universe: u32, run_len: nat, c: nat, start: u32)
    requires
        start + run_len < universe,
    ensures
        exists|state: u64| #[trigger] run_start(state, universe, run_len, c) == start,
        forall|state: u64| #[trigger]
            run_start(state, universe, run_len, c) == (draw(state, c) as int % 0x1_0000_0000) % (
            universe - run_len),
{
    assert forall|state: u64| #[trigger]
        run_start(state, universe, run_len, c) == (draw(state, c) as int % 0x1_0000_0000) % (
        universe - run_len) by {
        let d = draw(state, c);
        assert(d as u32 == d % 0x1_0000_0000) by (bit_vector);
    }
    let state = lemma_some_draw(c, start as u64);
    assert((start as u64) as u32 == start);
    vstd::arithmetic::div_mod::lemma_small_mod(start as nat, (universe - run_len) as nat);
    assert(run_start(state, universe, run_len, c) == start);
}

/// List `k` of a set does not depend on the lists behind it.
proof fn lemma_drawn_before(kind: InputKind, correctness: bool, count: nat, state: u64, k: nat)
    requires
        k < count,
    ensures
        drawn_lists(kind, correctness, count, state).0.len() == count,
        drawn_lists(kind, correctness, count, state).0[k as int] == drawn_list(
            kind,
            correctness,
            k,
            drawn_lists(kind, correctness, k, state).1,
        ).0,
    decreases count,
{
    lemma_drawn_lists(kind, correctness, count, state);
    if k < count - 1 {
        lemma_drawn_before(kind, correctness, (count - 1) as nat, state, k);
        lemma_drawn_lists(kind, correctness, (count - 1) as nat, state);
    }
}

/// What the lists of a set are like. Of a balanced set each list has a hundredth of the ids of the
/// universe; of a skewed one the first list is short and each other has a tenth of them; of a dense
/// one each has half of them, and of a sparse one a handful. Of a clustered set no list has more than
/// a hundredth. The sets for correctness come from universes a tenth as large.
pub proof fn lemma_sizes(kind: InputKind, correctness: bool, count: nat, state: u64, k: int)
    requires
        0 <= k < count,
    ensures
        ({
            let list = drawn_lists(kind, correctness, count, state).0[k];
            let part = if correctness { 1int } else { 10int };
            match kind {
                InputKind::Balanced => list.len() == 1_000 * part && within(list, 100_000 * part),
                InputKind::Skewed => list.len() == (if k > 0 {
                    5_000 * part
                } else if correctness {
                    5
                } else {
                    50
                }) && within(list, 50_000 * part),
                InputKind::Dense => list.len() == 500 * part && within(list, 1_000 * part),
                InputKind::Sparse => list.len() == (if correctness { 4int } else { 10int })
                    && within(list, 100_000 * part),
                InputKind::Clustered => 0 < list.len() <= 100 * part && within(
                    list,
                    10_000 * part,
                ),
            }
        }),
{
    let list = drawn_lists(kind, correctness, count, state).0[k];
    let from = drawn_lists(kind, correctness, k as nat, state).1;
    let universe = universe_of(kind, correctness);
    let len = list_len(kind, correctness, k as nat);
    lemma_drawn_before(kind, correctness, count, state, k as nat);
    if kind is Clustered {
        let all = runs(from, universe, len, NUM_CLUSTERS as nat);
        lemma_ascending(all);
        lemma_runs_len(from, universe, len, NUM_CLUSTERS as nat);
        lemma_clustered(from, correctness, k as nat);
        assert(list == ascending(all));
        let start = run_start(from, universe, len, 0);
        assert(holds_run(list, start as int, len));
        assert(list.contains(start));
        list.unique_seq_to_set();
        lemma_no_more_than(list, all);
        assert forall|i: int| 0 <= i < list.len() implies (#[trigger] list[i]) < universe by {
            assert(list.contains(list[i]));
        }
    } else {
        lemma_sample(from, len, universe);
    }
}

/// All ids of the list are below `universe`.
pub open spec fn within(list: Seq<u32>, universe: int) -> bool {
    forall|i: int| 0 <= i < list.len() ==> (#[trigger] list[i]) < universe
}

/// So many runs have so many ids.
proof fn lemma_runs_len(state: u64, universe: u32, run_len: nat, c: nat)
    ensures
        runs(state, universe, run_len, c).len() == c * run_len,
    decreases c,
{
    if c > 0 {
        lemma_runs_len(state, universe, run_len, (c - 1) as nat);
        assert(c * run_len == (c - 1) * run_len + run_len) by (nonlinear_arith)
            requires
                c > 0,
        ;
    } else {
        assert(0 * run_len == 0);
    }
}

/// A list without duplicates that holds only elements of another is no longer than that.
proof fn lemma_no_more_than(list: Seq<u32>, all: Seq<u32>)
    requires
        list.no_duplicates(),
        forall|x: u32| #[trigger] list.contains(x) ==> all.contains(x),
    ensures
        list.len() <= all.len(),
{
    list.unique_seq_to_set();
    all.lemma_cardinality_of_set();
    vstd::set_lib::lemma_len_subset(list.to_set(), all.to_set());
}

/// The battery holds every shape with every kind, the kinds of a shape one behind the other, each
/// under its name and with lists of its kind.
pub proof fn lemma_battery_grid(seed: u64, shape: int, kind: int)
    requires
        0 <= shape < 3,
        0 <= kind < 5,
    ensures
        battery(seed)[5 * shape + kind].shape == shape_list()[shape],
        battery(seed)[5 * shape + kind].label == kind_label(INPUT_KINDS@[kind]),
        exists|state: u64|
            battery(seed)[5 * shape + kind].lists == #[trigger] drawn_lists(
                INPUT_KINDS@[kind],
                true,
                shape_list()[shape].num_lists as nat,
                state,
            ).0,
{
    let i = 5 * shape + kind;
    assert(i / 5 == shape && i % 5 == kind);
    assert(battery(seed)[i] == grid_case(seed, shape_list()[shape], INPUT_KINDS@[kind]));
    let state = mixed_seed(
        seq![seed, shape_tag(shape_list()[shape]), kind_tag(INPUT_KINDS@[kind])],
    );
    assert(drawn_set(shape_list()[shape], INPUT_KINDS@[kind], true, state) == drawn_lists(
        INPUT_KINDS@[kind],
        true,
        shape_list()[shape].num_lists as nat,
        state,
    ));
}

/// What the edge cases have in common: of the first, which has an empty list, and of the second
/// nothing; of the third, whose lists are the same hundred ids, all of them; of the last one id.
pub proof fn lemma_edges(seed: u64)
    ensures
        intersection(battery(seed)[15].lists).len() == 0,
        battery(seed)[15].lists[0].len() == 100,
        intersection(battery(seed)[16].lists).len() == 0,
        battery(seed)[16].lists[0].len() == 25 && battery(seed)[16].lists[1].len() == 25,
        intersection(battery(seed)[17].lists) == battery(seed)[17].lists[0],
        intersection(battery(seed)[17].lists).len() == 100,
        intersection(battery(seed)[18].lists) == seq![42u32],
{
    lemma_battery(seed);
    let cases = battery(seed);
    assert forall|i: int| 15 <= i < 19 implies #[trigger] cases[i] == edge_cases(seed)[i - 15] by {}
    let state = mixed_seed(seq![seed, EDGE_TAG]);
    lemma_sample(state, 100, 10_000);
    let empty = cases[15].lists;
    assert(sorted_unique_lists(empty));
    assert forall|x: u32| !(#[trigger] intersection(empty).contains(x)) by {
        lemma_members(empty, x);
        assert(!empty[1].contains(x));
    }
    lemma_nothing_in(intersection(empty));
    let disjoint = cases[16].lists;
    assert(sorted_unique_lists(disjoint));
    assert forall|x: u32| !(#[trigger] intersection(disjoint).contains(x)) by {
        lemma_members(disjoint, x);
        if disjoint[0].contains(x) && disjoint[1].contains(x) {
            let i = choose|i: int| 0 <= i < 25 && id_range(0, 2, 25)[i] == x;
            let j = choose|j: int| 0 <= j < 25 && id_range(1, 2, 25)[j] == x;
            assert(2 * i == 1 + 2 * j);
        }
    }
    lemma_nothing_in(intersection(disjoint));
    let same = cases[17].lists;
    assert(sorted_unique_lists(same));
    lemma_intersection(same);
    assert forall|x: u32| #[trigger] intersection(same).contains(x) <==> same[0].contains(x) by {
        lemma_members(same, x);
        assert(same[0] == same[1]);
    }
    assert(strictly_increasing(same[0]));
    lemma_increasing_unique(intersection(same), same[0]);
    let one = cases[18].lists;
    assert(sorted_unique_lists(one));
    lemma_intersection(one);
    assert forall|x: u32| #[trigger] intersection(one).contains(x) <==> seq![42u32].contains(
        x,
    ) by {
        lemma_members(one, x);
        assert(seq![42u32][0] == 42);
        assert(one[0][3] == 42);
        assert(one[1][1] == 42);
        assert(one[2][0] == 42);
        if one[1].contains(x) && one[2].contains(x) {
            let i = choose|i: int| 0 <= i < 4 && one[1][i] == x;
            let j = choose|j: int| 0 <= j < 3 && one[2][j] == x;
            assert(i == 0 || i == 1 || i == 2 || i == 3);
            assert(j == 0 || j == 1 || j == 2);
            assert(x == 42);
        }
        if x == 42 {
            assert forall|k: int| 0 <= k < one.len() implies (#[trigger] one[k]).contains(x) by {
                assert(k == 0 || k == 1 || k == 2);
            }
        }
    }
    assert(strictly_increasing(seq![42u32]));
    lemma_increasing_unique(intersection(one), seq![42u32]);
}

proof fn lemma_nothing_in(s: Seq<u32>)
    requires
        forall|x: u32| !(#[trigger] s.contains(x)),
    ensures
        s.len() == 0,
{
    if s.len() > 0 {
        assert(s.contains(s[0]));
    }
}

/// Different kinds, distributions and shapes have different tags.
pub proof fn lemma_tags_differ(
    shapes: (PostingShape, PostingShape),
    kinds: (InputKind, InputKind),
    dists: (DataDistribution, DataDistribution),
)
    ensures
        shapes.0 != shapes.1 ==> shape_tag(shapes.0) != shape_tag(shapes.1),
        kinds.0 != kinds.1 ==> kind_tag(kinds.0) != kind_tag(kinds.1),
        dists.0 != dists.1 ==> dist_tag(dists.0) != dist_tag(dists.1),
{
    if shape_tag(shapes.0) == shape_tag(shapes.1) {
        lemma_gamma_multiples(shapes.0.num_lists as u64, shapes.1.num_lists as u64);
    }
}

/// Seeds tell the cases and workloads apart: where of the two tags that a seed is mixed with one
/// differs, the mixed seed differs.
pub proof fn lemma_seeds_differ(seed: u64, first: u64, second: u64, other: u64)
    ensures
        first != other ==> mixed_seed(seq![seed, first, second]) != mixed_seed(
            seq![seed, other, second],
        ),
        second != other ==> mixed_seed(seq![seed, first, second]) != mixed_seed(
            seq![seed, first, other],
        ),
{
    if first != other {
        lemma_mixed_seed(seq![seed, first, second], seq![seed, other, second], 1);
    }
    if second != other {
        lemma_mixed_seed(seq![seed, first, second], seq![seed, first, other], 2);
    }
}

/// A workload consists of sets of its distribution, drawn one after the other: each from where the
/// one before it has left the generator.
pub proof fn lemma_instances_in_turn(seed: u64, shape: PostingShape, dist: DataDistribution, k: int)
    requires
        0 <= k < SPEED_INSTANCES_PER_COMBO,
    ensures
        workload(seed, shape, dist).instances.len() == 128,
        exists|state: u64|
            workload(seed, shape, dist).instances[k] == #[trigger] drawn_lists(
                kind_of(dist),
                false,
                shape.num_lists as nat,
                state,
            ).0 && (k == 0 ==> state == mixed_seed(
                seq![seed, shape_tag(shape), dist_tag(dist)],
            )) && (k > 0 ==> exists|before: u64|
                workload(seed, shape, dist).instances[k - 1] == (#[trigger] drawn_lists(
                    kind_of(dist),
                    false,
                    shape.num_lists as nat,
                    before,
                )).0 && drawn_lists(
                    kind_of(dist),
                    false,
                    shape.num_lists as nat,
                    before,
                ).1 == state),
{
    let start = mixed_seed(seq![seed, shape_tag(shape), dist_tag(dist)]);
    let kind = kind_of(dist);
    let n = SPEED_INSTANCES_PER_COMBO as nat;
    lemma_instances(shape, kind, n, start);
    lemma_instance(shape, kind, n, start, k as nat);
    let state = drawn_instances(shape, kind, k as nat, start).1;
    assert(workload(seed, shape, dist).instances[k] == drawn_lists(
        kind,
        false,
        shape.num_lists as nat,
        state,
    ).0);
    if k > 0 {
        lemma_instance(shape, kind, n, start, (k - 1) as nat);
        let before = drawn_instances(shape, kind, (k - 1) as nat, start).1;
        assert(drawn_lists(kind, false, shape.num_lists as nat, before).1 == state);
    }
}

proof fn lemma_instance(shape: PostingShape, kind: InputKind, count: nat, state: u64, k: nat)
    requires
        k < count,
    ensures
        drawn_instances(shape, kind, count, state).0[k as int] == drawn_set(
            shape,
            kind,
            false,
            drawn_instances(shape, kind, k, state).1,
        ).0,
    decreases count,
{
    lemma_instances(shape, kind, count, state);
    lemma_instances(shape, kind, (count - 1) as nat, state);
    if k < count - 1 {
        lemma_instance(shape, kind, (count - 1) as nat, state, k);
    }
}

/// The workloads are every shape with every distribution, the distributions of a shape one behind the
/// other.
pub proof fn lemma_workload_grid(seed: u64, shape: int, dist: int)
    requires
        0 <= shape < 3,
        0 <= dist < 3,
    ensures
        workloads(seed, 9)[3 * shape + dist] == workload(
            seed,
            shape_list()[shape],
            DISTRIBUTIONS@[dist],
        ),
        workloads(seed, 9)[3 * shape + dist].shape == shape_list()[shape],
        workloads(seed, 9)[3 * shape + dist].distribution == DISTRIBUTIONS@[dist],
{
    let i = 3 * shape + dist;
    assert(i / 3 == shape && i % 3 == dist);
}

} // verus!
