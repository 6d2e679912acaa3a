//! Holding the kernel against the reference, and timing the two in turn.
use vstd::prelude::*;
use vstd::string::StringExecFns;

use crate::functions::{accepts_all, computes};
use crate::perf::PerfMeasurement;
use crate::pq::distance::{buffer, distance_table};
use crate::pq::inputs::{
    distances_from, shape_list, shapes, CorrectnessCase, DataDistribution, SpeedWorkload,
    DISTRIBUTIONS,
};
use crate::pq::kernels::PqKernel;
use crate::pq::matrix::transposed;
use crate::pq::reference::{
    distances_max_abs_err, max_abs_err, ErrorMeasure, ErrorModel, ScalarReference,
};
use crate::pq::topk::{is_lowest, is_selection, select_top_k};
use crate::pq::{Arithmetic, ArithmeticModel, PqShape};
use crate::stats::{accepts_samples, is_geomean, mean_of};
use crate::stopwatch::{Stopwatch, Window, Worker};
use crate::text::{append_decimal, decimal};
use crate::timing::{
    are_bootstrap_means, are_combo_means, best_index, bootstrap_means, chained, combo_means,
    is_best, is_measured, is_summary, is_worst, lemma_chained_at, lemma_logged_more,
    lemma_logged_window, lemma_repeated, lemma_repeated_at, lemma_uncounted, lemma_went_on,
    length_before, logged, no_timings, recorded, repeated, summarize, worst_index, Plan, Summary,
    Timings, TimingsModel,
};

verus! {

/// The name of a shape in reports.
pub open spec fn shape_name(shape: PqShape) -> Seq<char> {
    "("@ + decimal(shape.dim as nat) + ","@ + decimal(shape.num_sub_vectors as nat) + ","@
        + decimal(shape.num_centroids as nat) + ")"@
}

pub fn format_shape(shape: &PqShape) -> (r: String)
    ensures
        r@ == shape_name(*shape),
        r@ == "("@ + decimal(shape.dim as nat) + ","@ + decimal(shape.num_sub_vectors as nat)
            + ","@ + decimal(shape.num_centroids as nat) + ")"@,
{
    let mut r: String = String::new();
    r.append("(");
    append_decimal(&mut r, shape.dim as u64);
    r.append(",");
    append_decimal(&mut r, shape.num_sub_vectors as u64);
    r.append(",");
    append_decimal(&mut r, shape.num_centroids as u64);
    r.append(")");
    r
}

/// The name of a distribution in reports.
pub open spec fn dist_name(dist: DataDistribution) -> Seq<char> {
    match dist {
        DataDistribution::Clustered => "clustered"@,
        DataDistribution::Uniform => "uniform"@,
        DataDistribution::Sparse => "sparse"@,
    }
}

pub fn format_dist(dist: &DataDistribution) -> (r: String)
    ensures
        r@ == dist_name(*dist),
        *dist is Clustered ==> r@ == "clustered"@,
        *dist is Uniform ==> r@ == "uniform"@,
        *dist is Sparse ==> r@ == "sparse"@,
{
    let name: &str = match dist {
        DataDistribution::Clustered => "clustered",
        DataDistribution::Uniform => "uniform",
        DataDistribution::Sparse => "sparse",
    };
    name.to_owned()
}

/// What an error is compared with: whether it is above the tolerance, and how values are written.
#[verifier::reject_recursive_types(T)]
pub struct Tolerance<T, X: Fn(T) -> bool, S: Fn(T) -> String> {
    pub limit: T,
    pub exceeds: X,
    pub show: S,
}

impl<T: Copy, X: Fn(T) -> bool, S: Fn(T) -> String> Tolerance<T, X, S> {
    /// Every error can be tested, and every value can be written.
    pub open spec fn is_defined(&self) -> bool {
        &&& accepts_all(self.exceeds)
        &&& accepts_all(self.show)
    }
}

/// What a case is checked by, as a mathematical object.
#[verifier::reject_recursive_types(T)]
pub struct CheckModel<T> {
    pub arith: ArithmeticModel<T>,
    pub measure: ErrorModel<T>,
    pub exceeds: spec_fn(T) -> bool,
}

impl<T> CheckModel<T> {
    /// The functions give what the model says.
    pub open spec fn computed_by<
        P: Fn(T, T) -> T,
        D: Fn(T, T) -> T,
        A: Fn(T, T) -> T,
        M: Fn(T, T) -> T,
        X: Fn(T) -> bool,
        S: Fn(T) -> String,
    >(
        self,
        arith: Arithmetic<T, P, D>,
        measure: ErrorMeasure<T, A, M>,
        tolerance: Tolerance<T, X, S>,
    ) -> bool where T: Copy {
        &&& arith.computes(self.arith)
        &&& measure.computes(self.measure)
        &&& computes(tolerance.exceeds, self.exceeds)
    }

    /// The error of the distance table of a case: that of the table against itself, as kernel and
    /// reference build the same one.
    pub open spec fn table_error(self, case: CorrectnessCase<T>) -> T {
        let table = distance_table(
            self.arith,
            case.codebook@,
            case.shape.num_sub_vectors as int,
            case.query@,
        );
        self.measure.worst(table, table, table.len())
    }

    /// The error of the distances of a case: that of the distances against themselves, as kernel
    /// and reference compute the same ones.
    pub open spec fn distance_error(self, case: CorrectnessCase<T>) -> T {
        let distances = distances_from(
            self.arith,
            case.shape,
            case.codebook@,
            case.codes@,
            case.num_vectors as nat,
            case.query@,
        );
        self.measure.worst(distances, distances, distances.len())
    }

    /// A case passes: neither error is above the tolerance.
    pub open spec fn passes(self, case: CorrectnessCase<T>) -> bool {
        &&& !(self.exceeds)(self.table_error(case))
        &&& !(self.exceeds)(self.distance_error(case))
    }

    /// The first `n` cases pass.
    pub open spec fn pass_up_to(self, cases: Seq<CorrectnessCase<T>>, n: int) -> bool {
        forall|i: int| 0 <= i < n ==> self.passes(#[trigger] cases[i])
    }

    /// The report of a case that does not pass: of its distance table, or of its distances where
    /// the table is within the tolerance.
    pub open spec fn is_case_report<X: Fn(T) -> bool, S: Fn(T) -> String>(
        self,
        case: CorrectnessCase<T>,
        tolerance: Tolerance<T, X, S>,
        report: Seq<char>,
    ) -> bool {
        if (self.exceeds)(self.table_error(case)) {
            is_failure_report(
                case.shape,
                case.label@,
                "distance_table"@,
                self.table_error(case),
                tolerance,
                report,
            )
        } else {
            is_failure_report(
                case.shape,
                case.label@,
                "compute_distances"@,
                self.distance_error(case),
                tolerance,
                report,
            )
        }
    }
}

/// Kernel and reference agree on every case: where a value has the error zero against itself, and zero
/// is within the tolerance, every case passes.
pub proof fn lemma_agreement_passes<T>(m: CheckModel<T>, case: CorrectnessCase<T>)
    requires
        forall|x: T| #[trigger] (m.measure.abs_difference)(x, x) == m.measure.zero,
        (m.measure.larger)(m.measure.zero, m.measure.zero) == m.measure.zero,
        !(m.exceeds)(m.measure.zero),
    ensures
        m.passes(case),
{
    let table = distance_table(
        m.arith,
        case.codebook@,
        case.shape.num_sub_vectors as int,
        case.query@,
    );
    let distances = distances_from(
        m.arith,
        case.shape,
        case.codebook@,
        case.codes@,
        case.num_vectors as nat,
        case.query@,
    );
    lemma_no_error(m.measure, table, table.len());
    lemma_no_error(m.measure, distances, distances.len());
}

proof fn lemma_no_error<T>(m: ErrorModel<T>, a: Seq<T>, n: nat)
    requires
        forall|x: T| #[trigger] (m.abs_difference)(x, x) == m.zero,
        (m.larger)(m.zero, m.zero) == m.zero,
    ensures
        m.worst(a, a, n) == m.zero,
    decreases n,
{
    if n > 0 {
        lemma_no_error(m, a, (n - 1) as nat);
    }
}

/// The report of a case on which the error of `what` is above the tolerance.
pub open spec fn failure_report(
    shape: PqShape,
    label: Seq<char>,
    what: Seq<char>,
    error: Seq<char>,
    limit: Seq<char>,
) -> Seq<char> {
    "case="@ + shape_name(shape) + "/"@ + label + " "@ + what + " max_abs_err="@ + error + " > "@
        + limit
}

/// The report is that of the case and the error, however the two values are written.
pub open spec fn is_failure_report<T, X: Fn(T) -> bool, S: Fn(T) -> String>(
    shape: PqShape,
    label: Seq<char>,
    what: Seq<char>,
    error: T,
    tolerance: Tolerance<T, X, S>,
    report: Seq<char>,
) -> bool {
    exists|e: String, l: String|
        {
            &&& #[trigger] tolerance.show.ensures((error,), e)
            &&& #[trigger] tolerance.show.ensures((tolerance.limit,), l)
            &&& report == failure_report(shape, label, what, e@, l@)
        }
}

fn format_failure<T: Copy, X: Fn(T) -> bool, S: Fn(T) -> String>(
    shape: &PqShape,
    label: &str,
    what: &str,
    error: T,
    tolerance: &Tolerance<T, X, S>,
) -> (r: String)
    requires
        tolerance.is_defined(),
    ensures
        is_failure_report(*shape, label@, what@, error, *tolerance, r@),
{
    let e: String = (tolerance.show)(error);
    let l: String = (tolerance.show)(tolerance.limit);
    let mut r: String = String::new();
    r.append("case=");
    r.append(format_shape(shape).as_str());
    r.append("/");
    r.append(label);
    r.append(" ");
    r.append(what);
    r.append(" max_abs_err=");
    r.append(e.as_str());
    r.append(" > ");
    r.append(l.as_str());
    assert(r@ =~= failure_report(*shape, label@, what@, e@, l@));
    r
}

/// The number of entries of the distance table fits where the codebook does.
proof fn lemma_table_len(shape: PqShape, codebook_len: nat)
    requires
        shape.num_sub_vectors > 0,
        shape.dim > 0,
        shape.dim as int % shape.num_sub_vectors as int == 0,
        codebook_len == shape.book_len(),
    ensures
        shape.table_len() <= codebook_len,
{
    let n = shape.num_sub_vectors as int;
    let w = shape.width();
    vstd::arithmetic::div_mod::lemma_fundamental_div_mod(shape.dim as int, n);
    assert(w >= 1) by (nonlinear_arith)
        requires
            shape.dim == n * w,
            shape.dim > 0,
            n > 0,
    ;
    let t = shape.table_len();
    assert(t <= t * w) by (nonlinear_arith)
        requires
            w >= 1,
            t >= 0,
    ;
}

/// Runs kernel and reference on a case: `Ok` where neither the distance tables nor the distances are
/// further apart than the tolerance allows, otherwise a report of the first that is.
pub fn check_case<
    T: Copy,
    P: Fn(T, T) -> T,
    D: Fn(T, T) -> T,
    A: Fn(T, T) -> T,
    M: Fn(T, T) -> T,
    X: Fn(T) -> bool,
    S: Fn(T) -> String,
>(
    case: &CorrectnessCase<T>,
    arith: &Arithmetic<T, P, D>,
    measure: &ErrorMeasure<T, A, M>,
    tolerance: &Tolerance<T, X, S>,
) -> (r: Result<(), String>)
    requires
        case.wf(),
        arith.is_defined(),
        measure.is_defined(),
        tolerance.is_defined(),
    ensures
        forall|m: CheckModel<T>| #[trigger]
            m.computed_by(*arith, *measure, *tolerance) ==> match r {
                Ok(()) => m.passes(*case),
                Err(report) => !m.passes(*case) && m.is_case_report(*case, *tolerance, report@),
            },
{
    proof {
        lemma_table_len(case.shape, case.codebook@.len());
        assert(case.codebook.len() <= usize::MAX);
    }
    let agent: PqKernel<T> = PqKernel::new(
        case.shape,
        case.codebook.as_slice(),
        case.codes.as_slice(),
        case.num_vectors,
    );
    let reference: ScalarReference<T> = ScalarReference::new(
        case.shape,
        case.codebook.as_slice(),
        case.codes.as_slice(),
        case.num_vectors,
    );
    let table_len: usize = case.shape.distance_table_len();
    let mut agent_table: Vec<T> = buffer(arith.zero, table_len);
    let mut ref_table: Vec<T> = buffer(arith.zero, table_len);
    agent.distance_table(case.query.as_slice(), agent_table.as_mut_slice(), arith);
    reference.distance_table(case.query.as_slice(), ref_table.as_mut_slice(), arith);
    let error: T = max_abs_err(agent_table.as_slice(), ref_table.as_slice(), measure);
    if (tolerance.exceeds)(error) {
        return Err(
            format_failure(&case.shape, case.label, "distance_table", error, tolerance),
        );
    }
    let mut agent_dists: Vec<T> = buffer(arith.zero, case.num_vectors);
    let mut ref_dists: Vec<T> = buffer(arith.zero, case.num_vectors);
    agent.compute_distances(agent_table.as_slice(), agent_dists.as_mut_slice(), arith);
    reference.compute_distances(ref_table.as_slice(), ref_dists.as_mut_slice(), arith);
    let error: T = distances_max_abs_err(agent_dists.as_slice(), ref_dists.as_slice(), measure);
    if (tolerance.exceeds)(error) {
        return Err(
            format_failure(&case.shape, case.label, "compute_distances", error, tolerance),
        );
    }
    Ok(())
}

/// Runs kernel and reference on all cases: `Ok` where every case passes, otherwise the report of the
/// first that does not.
pub fn run_correctness<
    T: Copy,
    P: Fn(T, T) -> T,
    D: Fn(T, T) -> T,
    A: Fn(T, T) -> T,
    M: Fn(T, T) -> T,
    X: Fn(T) -> bool,
    S: Fn(T) -> String,
>(
    cases: &[CorrectnessCase<T>],
    arith: &Arithmetic<T, P, D>,
    measure: &ErrorMeasure<T, A, M>,
    tolerance: &Tolerance<T, X, S>,
) -> (r: Result<(), String>)
    requires
        forall|i: int| 0 <= i < cases@.len() ==> (#[trigger] cases@[i]).wf(),
        arith.is_defined(),
        measure.is_defined(),
        tolerance.is_defined(),
    ensures
        forall|m: CheckModel<T>| #[trigger]
            m.computed_by(*arith, *measure, *tolerance) ==> match r {
                Ok(()) => m.pass_up_to(cases@, cases@.len() as int),
                Err(report) => exists|i: int|
                    {
                        &&& 0 <= i < cases@.len()
                        &&& #[trigger] m.pass_up_to(cases@, i)
                        &&& !m.passes(cases@[i])
                        &&& m.is_case_report(cases@[i], *tolerance, report@)
                    },
            },
{
    let mut k: usize = 0;
    while k < cases.len()
        invariant
            k <= cases@.len(),
            forall|i: int| 0 <= i < cases@.len() ==> (#[trigger] cases@[i]).wf(),
            arith.is_defined(),
            measure.is_defined(),
            tolerance.is_defined(),
            forall|m: CheckModel<T>| #[trigger]
                m.computed_by(*arith, *measure, *tolerance) ==> m.pass_up_to(cases@, k as int),
        decreases cases@.len() - k,
    {
        match check_case(&cases[k], arith, measure, tolerance) {
            Ok(()) => {},
            Err(report) => {
                return Err(report);
            },
        }
        k += 1;
    }
    Ok(())
}

/// The report of one workload.
pub struct ComboReport {
    pub shape: PqShape,
    pub dist: DataDistribution,
    pub geomean_ns: u64,
}

/// The report of a speed run: the figures of the kernel over all workloads, its slowest and its
/// fastest workload, every workload by itself, and the mean of the reference. Kernel and reference
/// are measured in pairs, and so are the means of their resamples.
pub struct SpeedReport {
    pub summary: Summary,
    pub worst_ns: u64,
    pub worst_shape: PqShape,
    pub worst_dist: DataDistribution,
    pub best_ns: u64,
    pub best_shape: PqShape,
    pub best_dist: DataDistribution,
    pub per_combo: Vec<ComboReport>,
    pub reference_geomean_ns: u64,
    pub resampled_ns: Vec<u64>,
    pub reference_resampled_ns: Vec<u64>,
}

/// The distances of the stored vectors of a workload from its query `i`.
pub open spec fn workload_distances<T>(
    m: ArithmeticModel<T>,
    load: SpeedWorkload<T>,
    i: int,
) -> Seq<T> {
    distances_from(
        m,
        load.shape,
        load.codebook@,
        load.codes@,
        load.num_vectors as nat,
        load.query(i),
    )
}

/// All workloads are well formed.
pub open spec fn all_wf<T>(loads: Seq<SpeedWorkload<T>>) -> bool {
    forall|i: int| 0 <= i < loads.len() ==> (#[trigger] loads[i]).wf()
}

/// A search for the nearest vectors: whether the kernel or the reference carries it out, and for
/// which query of which workload.
#[verifier::reject_recursive_types(T)]
pub struct Search<T> {
    pub by_kernel: bool,
    pub load: SpeedWorkload<T>,
    pub query: int,
}

/// The buffers of a query, used again for the next. The searches are kept in a ghost record.
#[verifier::reject_recursive_types(T)]
struct Scratch<T> {
    table: Vec<T>,
    distances: Vec<T>,
    topk: Vec<(u32, T)>,
    done: Ghost<Seq<Search<T>>>,
}

impl<T> Worker<Search<T>> for Scratch<T> {
    closed spec fn calls(&self) -> Seq<Search<T>> {
        self.done@
    }
}

impl<T> Scratch<T> {
    /// The buffers fit the workload.
    spec fn fits(&self, load: SpeedWorkload<T>) -> bool {
        &&& self.table@.len() == load.shape.table_len()
        &&& self.distances@.len() == load.num_vectors
    }

    /// The buffers hold the distances from query `i` of the workload and the nearest vectors.
    spec fn answers<P: Fn(T, T) -> T, D: Fn(T, T) -> T, K: Fn(T) -> u64>(
        &self,
        load: SpeedWorkload<T>,
        i: int,
        arith: Arithmetic<T, P, D>,
        key: K,
    ) -> bool where T: Copy {
        &&& self.fits(load)
        &&& forall|m: ArithmeticModel<T>| #[trigger]
            arith.computes(m) ==> self.distances@ == workload_distances(m, load, i)
        &&& is_selection(self.distances@, load.k as nat, self.topk@)
        &&& forall|rank: spec_fn(T) -> u64| #[trigger]
            computes(key, rank) ==> is_lowest(self.distances@, self.topk@, rank)
    }
}

/// The codes of a workload, sub-vector by sub-vector.
spec fn codes_by_sub_vector<T>(load: SpeedWorkload<T>) -> Seq<u8> {
    transposed(load.codes@, load.num_vectors as int, load.shape.num_sub_vectors as int)
}

/// The kernel was built from the workload.
spec fn kernel_of<T>(kernel: PqKernel<T>, load: SpeedWorkload<T>) -> bool {
    &&& kernel.shape() == load.shape
    &&& kernel.codebook() == load.codebook@
    &&& kernel.codes() == codes_by_sub_vector(load)
    &&& kernel.count() == load.num_vectors
}

/// The reference was built from the workload.
spec fn reference_of<T>(reference: ScalarReference<T>, load: SpeedWorkload<T>) -> bool {
    &&& reference.shape() == load.shape
    &&& reference.codebook() == load.codebook@
    &&& reference.codes() == codes_by_sub_vector(load)
    &&& reference.count() == load.num_vectors
}

/// Query `i` of a workload.
fn query_slice<T>(load: &SpeedWorkload<T>, i: usize) -> (r: &[T])
    requires
        load.wf(),
        i == 0 || i < load.num_queries,
    ensures
        r@ == load.query(i as int),
        r@.len() == load.shape.dim,
{
    proof {
        let d = load.shape.dim as int;
        let n = load.num_queries as int;
        assert(i * d >= 0 && (i + 1) * d == i * d + d) by (nonlinear_arith)
            requires
                i >= 0,
                d > 0,
        ;
        if i < n {
            assert((i + 1) * d <= n * d) by (nonlinear_arith)
                requires
                    0 <= i < n,
                    d > 0,
            ;
        }
        assert(load.queries.len() <= usize::MAX);
    }
    let start: usize = i * load.shape.dim;
    let all: &[T] = load.queries.as_slice();
    &all[start..start + load.shape.dim]
}

/// Selects the nearest vectors of query `i` by the kernel.
fn search<T: Copy, P: Fn(T, T) -> T, D: Fn(T, T) -> T, K: Fn(T) -> u64>(
    kernel: &PqKernel<T>,
    load: &SpeedWorkload<T>,
    i: usize,
    arith: &Arithmetic<T, P, D>,
    key: &K,
    scratch: &mut Scratch<T>,
)
    requires
        load.wf(),
        arith.is_defined(),
        accepts_all(*key),
        i == 0 || i < load.num_queries,
        kernel_of(*kernel, *load),
        old(scratch).fits(*load),
    ensures
        final(scratch).answers(*load, i as int, *arith, *key),
        final(scratch).calls() == old(scratch).calls().push(
            Search { by_kernel: true, load: *load, query: i as int },
        ),
{
    let query: &[T] = query_slice(load, i);
    kernel.distance_table(query, scratch.table.as_mut_slice(), arith);
    kernel.compute_distances(
        scratch.table.as_slice(),
        scratch.distances.as_mut_slice(),
        arith,
    );
    select_top_k(scratch.distances.as_slice(), load.k, &mut scratch.topk, key);
    scratch.done = Ghost(
        scratch.done@.push(Search { by_kernel: true, load: *load, query: i as int }),
    );
}

/// Selects the nearest vectors of query `i` by the reference.
fn search_reference<T: Copy, P: Fn(T, T) -> T, D: Fn(T, T) -> T, K: Fn(T) -> u64>(
    reference: &ScalarReference<T>,
    load: &SpeedWorkload<T>,
    i: usize,
    arith: &Arithmetic<T, P, D>,
    key: &K,
    scratch: &mut Scratch<T>,
)
    requires
        load.wf(),
        arith.is_defined(),
        accepts_all(*key),
        i == 0 || i < load.num_queries,
        reference_of(*reference, *load),
        old(scratch).fits(*load),
    ensures
        final(scratch).answers(*load, i as int, *arith, *key),
        final(scratch).calls() == old(scratch).calls().push(
            Search { by_kernel: false, load: *load, query: i as int },
        ),
{
    let query: &[T] = query_slice(load, i);
    reference.distance_table(query, scratch.table.as_mut_slice(), arith);
    reference.compute_distances(
        scratch.table.as_slice(),
        scratch.distances.as_mut_slice(),
        arith,
    );
    select_top_k(scratch.distances.as_slice(), load.k, &mut scratch.topk, key);
    scratch.done = Ghost(
        scratch.done@.push(Search { by_kernel: false, load: *load, query: i as int }),
    );
}

/// A query of a run: the place of its workload, the workload, and the place of the query in it.
#[verifier::reject_recursive_types(T)]
pub struct Query<T> {
    pub combo: int,
    pub load: SpeedWorkload<T>,
    pub query: int,
}

impl<T> Query<T> {
    /// Kernel and reference take turns: the kernel goes first on even queries, the reference on odd
    /// ones.
    pub open spec fn kernel_first(self) -> bool {
        self.query % 2 == 0
    }

    /// What is timed: one search.
    pub open spec fn search(self, by_kernel: bool) -> Seq<Search<T>> {
        seq![Search { by_kernel, load: self.load, query: self.query }]
    }
}

/// The queries of workload `combo`.
pub open spec fn query_plan<T>(load: SpeedWorkload<T>, combo: int) -> Seq<Query<T>> {
    Seq::new(load.num_queries as nat, |i: int| Query { combo, load, query: i })
}

/// The queries of each workload.
pub open spec fn query_plans<T>(loads: Seq<SpeedWorkload<T>>) -> Seq<Seq<Query<T>>> {
    Seq::new(loads.len(), |i: int| query_plan(loads[i], i))
}

/// The queries of a run: in each pass those of all workloads, one after the other.
pub open spec fn speed_plan<T>(loads: Seq<SpeedWorkload<T>>, passes: nat) -> Seq<Query<T>> {
    repeated(chained(query_plans(loads)), passes)
}

/// How many queries the first `w` workloads have together.
pub open spec fn queries_before<T>(loads: Seq<SpeedWorkload<T>>, w: nat) -> nat
    decreases w,
{
    if w == 0 {
        0
    } else {
        queries_before(loads, (w - 1) as nat) + loads[w - 1].num_queries as nat
    }
}

proof fn lemma_queries_before<T>(loads: Seq<SpeedWorkload<T>>, w: nat)
    requires
        w <= loads.len(),
    ensures
        length_before(query_plans(loads), w) == queries_before(loads, w),
    decreases w,
{
    if w > 0 {
        lemma_queries_before(loads, (w - 1) as nat);
        assert(query_plans(loads)[w - 1].len() == loads[w - 1].num_queries);
    }
}

/// A run asks every query of every workload once in each pass: in a pass, the queries of a workload
/// come in order behind those of the workloads before it.
pub proof fn lemma_speed_plan<T>(
    loads: Seq<SpeedWorkload<T>>,
    passes: nat,
    pass: int,
    w: int,
    q: int,
)
    requires
        0 <= pass < passes,
        0 <= w < loads.len(),
        0 <= q < loads[w].num_queries,
    ensures
        speed_plan(loads, passes).len() == passes * queries_before(loads, loads.len()),
        0 <= pass * queries_before(loads, loads.len()) + queries_before(loads, w as nat) + q
            < speed_plan(loads, passes).len(),
        speed_plan(loads, passes)[pass * queries_before(loads, loads.len()) + queries_before(
            loads,
            w as nat,
        ) + q] == (Query { combo: w, load: loads[w], query: q }),
{
    let plans = query_plans(loads);
    lemma_chained_at(plans, w, q);
    lemma_queries_before(loads, w as nat);
    lemma_queries_before(loads, loads.len());
    lemma_repeated(chained(plans), passes);
    lemma_repeated_at(
        chained(plans),
        passes,
        pass,
        length_before(plans, w as nat) + q,
    );
}

/// The timing windows of the kernel or of the reference: one for each query.
pub open spec fn windows_of<T>(plan: Seq<Query<T>>, by_kernel: bool) -> Plan<Search<T>> {
    Seq::new(plan.len(), |i: int| (plan[i].combo, plan[i].search(by_kernel)))
}

/// Of the two windows of each query, that of the kernel or that of the reference.
pub open spec fn turns_of<T>(
    plan: Seq<Query<T>>,
    by_kernel: bool,
    ws: Seq<Window<Search<T>>>,
) -> Seq<Window<Search<T>>> {
    Seq::new(
        plan.len(),
        |i: int|
            if plan[i].kernel_first() == by_kernel {
                ws[2 * i]
            } else {
                ws[2 * i + 1]
            },
    )
}

/// The times of the windows.
pub open spec fn wall_clocks<C>(ws: Seq<Window<C>>) -> Seq<u64> {
    Seq::new(ws.len(), |i: int| ws[i].measurement.wall_clock_ns)
}

/// Every query was timed twice, in turn: between start and stop of one window exactly the search of
/// the kernel was carried out, in the other exactly that of the reference. There are counts only
/// where there are hardware counters.
pub open spec fn are_measured<T>(
    plan: Seq<Query<T>>,
    pmc: bool,
    ws: Seq<Window<Search<T>>>,
) -> bool {
    &&& ws.len() == 2 * plan.len()
    &&& is_measured(windows_of(plan, true), pmc, turns_of(plan, true, ws))
    &&& is_measured(windows_of(plan, false), pmc, turns_of(plan, false, ws))
}

/// Query `i` of a run is timed in two windows, one behind the other: one search of the kernel and one
/// of the reference, each for the same query of the same workload. The kernel goes first on even
/// queries, the reference on odd ones. The time of the reference is the wall clock of its window.
pub proof fn lemma_timed_in_turn<T>(
    plan: Seq<Query<T>>,
    pmc: bool,
    ws: Seq<Window<Search<T>>>,
    i: int,
)
    requires
        are_measured(plan, pmc, ws),
        0 <= i < plan.len(),
    ensures
        ws.len() == 2 * plan.len(),
        plan[i].query % 2 == 0 ==> ws[2 * i].work == seq![
            Search { by_kernel: true, load: plan[i].load, query: plan[i].query },
        ] && ws[2 * i + 1].work == seq![
            Search { by_kernel: false, load: plan[i].load, query: plan[i].query },
        ],
        plan[i].query % 2 != 0 ==> ws[2 * i].work == seq![
            Search { by_kernel: false, load: plan[i].load, query: plan[i].query },
        ] && ws[2 * i + 1].work == seq![
            Search { by_kernel: true, load: plan[i].load, query: plan[i].query },
        ],
        wall_clocks(turns_of(plan, false, ws)).len() == plan.len(),
        wall_clocks(turns_of(plan, false, ws))[i] == if plan[i].query % 2 == 0 {
            ws[2 * i + 1].measurement.wall_clock_ns
        } else {
            ws[2 * i].measurement.wall_clock_ns
        },
{
    let by_kernel = turns_of(plan, true, ws)[i];
    let by_reference = turns_of(plan, false, ws)[i];
    assert(by_kernel.work == windows_of(plan, true)[i].1);
    assert(by_reference.work == windows_of(plan, false)[i].1);
}

/// The queries were gone through: the stopwatch, which had timed the windows `timed` before, has
/// timed the two of each query. Exactly the measurements of the kernel are what `after` holds beyond
/// `before`, and the times of the reference are what is new in `reference_ns`.
pub open spec fn searched<T>(
    plan: Seq<Query<T>>,
    pmc: bool,
    before: TimingsModel,
    after: TimingsModel,
    reference_before: Seq<u64>,
    reference_ns: Seq<u64>,
    timed: Seq<Window<Search<T>>>,
    windows: Seq<Window<Search<T>>>,
) -> bool {
    let ws = windows.skip(timed.len() as int);
    &&& timed.is_prefix_of(windows)
    &&& are_measured(plan, pmc, ws)
    &&& after == logged(before, windows_of(plan, true), turns_of(plan, true, ws))
    &&& reference_ns == reference_before + wall_clocks(turns_of(plan, false, ws))
}

/// What is collected for query `i`: of the kernel and of the reference, the wall clock of the window in
/// which exactly its search was carried out.
pub proof fn lemma_searched<T>(
    plan: Seq<Query<T>>,
    pmc: bool,
    t: (TimingsModel, TimingsModel),
    reference_ns: (Seq<u64>, Seq<u64>),
    w: (Seq<Window<Search<T>>>, Seq<Window<Search<T>>>),
    i: int,
)
    requires
        searched(plan, pmc, t.0, t.1, reference_ns.0, reference_ns.1, w.0, w.1),
        forall|k: int|
            0 <= k < plan.len() ==> 0 <= (#[trigger] plan[k]).combo < t.0.per_combo.len(),
        0 <= i < plan.len(),
    ensures
        w.1.len() == w.0.len() + 2 * plan.len(),
        t.1.all.len() == t.0.all.len() + plan.len(),
        reference_ns.1.len() == reference_ns.0.len() + plan.len(),
        ({
            let first = w.1[w.0.len() + 2 * i];
            let second = w.1[w.0.len() + 2 * i + 1];
            let (by_kernel, by_reference) = if plan[i].query % 2 == 0 {
                (first, second)
            } else {
                (second, first)
            };
            &&& by_kernel.work == seq![
                Search { by_kernel: true, load: plan[i].load, query: plan[i].query },
            ]
            &&& by_reference.work == seq![
                Search { by_kernel: false, load: plan[i].load, query: plan[i].query },
            ]
            &&& t.1.all[t.0.all.len() + i] == by_kernel.measurement.wall_clock_ns
            &&& reference_ns.1[reference_ns.0.len() + i] == by_reference.measurement.wall_clock_ns
        }),
{
    let ws = w.1.skip(w.0.len() as int);
    assert(w.1.len() >= w.0.len());
    lemma_timed_in_turn(plan, pmc, ws, i);
    assert(ws[2 * i] == w.1[w.0.len() + 2 * i]);
    assert(ws[2 * i + 1] == w.1[w.0.len() + 2 * i + 1]);
    let windows = windows_of(plan, true);
    let turns = turns_of(plan, true, ws);
    assert forall|k: int| 0 <= k < windows.len() implies 0 <= (#[trigger] windows[k]).0
        < t.0.per_combo.len() && windows[k].1.len() == 1 by {
        assert(windows[k].0 == plan[k].combo);
    }
    lemma_logged_window(t.0, windows, turns, i);
}

/// Nothing is needed to go through no queries.
proof fn lemma_not_searched<T>(
    pmc: bool,
    t: TimingsModel,
    reference_ns: Seq<u64>,
    timed: Seq<Window<Search<T>>>,
)
    ensures
        searched(Seq::empty(), pmc, t, t, reference_ns, reference_ns, timed, timed),
{
    let ws = timed.skip(timed.len() as int);
    let none = Seq::<Query<T>>::empty();
    assert(reference_ns + wall_clocks(turns_of(none, false, ws)) =~= reference_ns);
}

/// The windows of the next query, and recording what was measured, go through one query.
proof fn lemma_searched_on<T>(
    pmc: bool,
    t: TimingsModel,
    reference_ns: Seq<u64>,
    timed: Seq<Window<Search<T>>>,
    q: Query<T>,
    m: PerfMeasurement,
    reference_m: PerfMeasurement,
)
    requires
        !pmc ==> m.cycles is None && m.instructions is None && reference_m.cycles is None
            && reference_m.instructions is None,
    ensures
        ({
            let own = Window { work: q.search(true), measurement: m };
            let other = Window { work: q.search(false), measurement: reference_m };
            searched(
                seq![q],
                pmc,
                t,
                recorded(t, q.combo, 1, m),
                reference_ns,
                reference_ns.push(reference_m.wall_clock_ns),
                timed,
                if q.kernel_first() {
                    timed.push(own).push(other)
                } else {
                    timed.push(other).push(own)
                },
            )
        }),
{
    let own = Window { work: q.search(true), measurement: m };
    let other = Window { work: q.search(false), measurement: reference_m };
    let plan = seq![q];
    let windows = if q.kernel_first() {
        timed.push(own).push(other)
    } else {
        timed.push(other).push(own)
    };
    let ws = windows.skip(timed.len() as int);
    assert(ws =~= if q.kernel_first() { seq![own, other] } else { seq![other, own] });
    assert(turns_of(plan, true, ws) =~= seq![own]);
    assert(turns_of(plan, false, ws) =~= seq![other]);
    assert(windows_of(plan, true) =~= seq![(q.combo, q.search(true))]);
    lemma_went_on(pmc, t, timed, q.combo, own);
    assert(timed.push(own).skip(timed.len() as int) =~= seq![own]);
    assert(reference_ns + wall_clocks(turns_of(plan, false, ws)) =~= reference_ns.push(
        reference_m.wall_clock_ns,
    ));
}

/// Going through some queries and then others is going through all of them.
proof fn lemma_searched_further<T>(
    first: Seq<Query<T>>,
    second: Seq<Query<T>>,
    pmc: bool,
    t: (TimingsModel, TimingsModel, TimingsModel),
    r: (Seq<u64>, Seq<u64>, Seq<u64>),
    w: (Seq<Window<Search<T>>>, Seq<Window<Search<T>>>, Seq<Window<Search<T>>>),
)
    requires
        searched(first, pmc, t.0, t.1, r.0, r.1, w.0, w.1),
        searched(second, pmc, t.1, t.2, r.1, r.2, w.1, w.2),
    ensures
        searched(first + second, pmc, t.0, t.2, r.0, r.2, w.0, w.2),
{
    let both = first + second;
    let a = w.1.skip(w.0.len() as int);
    let b = w.2.skip(w.1.len() as int);
    let ws = w.2.skip(w.0.len() as int);
    assert(ws =~= a + b);
    assert forall|by_kernel: bool| is_measured(
        #[trigger] windows_of(both, by_kernel),
        pmc,
        turns_of(both, by_kernel, ws),
    ) by {
        lemma_turns(first, second, by_kernel, a, b);
        assert(is_measured(windows_of(first, by_kernel), pmc, turns_of(first, by_kernel, a)));
        assert(is_measured(windows_of(second, by_kernel), pmc, turns_of(second, by_kernel, b)));
        if !pmc {
            lemma_uncounted(turns_of(first, by_kernel, a), turns_of(second, by_kernel, b));
        }
    }
    assert(is_measured(windows_of(both, true), pmc, turns_of(both, true, ws)));
    assert(is_measured(windows_of(both, false), pmc, turns_of(both, false, ws)));
    lemma_turns(first, second, true, a, b);
    lemma_turns(first, second, false, a, b);
    lemma_logged_more(
        t.0,
        windows_of(first, true),
        turns_of(first, true, a),
        windows_of(second, true),
        turns_of(second, true, b),
    );
    assert(r.2 =~= r.0 + wall_clocks(turns_of(both, false, ws)));
}

/// The turns of some queries and then of others.
proof fn lemma_turns<T>(
    first: Seq<Query<T>>,
    second: Seq<Query<T>>,
    by_kernel: bool,
    a: Seq<Window<Search<T>>>,
    b: Seq<Window<Search<T>>>,
)
    requires
        a.len() == 2 * first.len(),
        b.len() == 2 * second.len(),
    ensures
        windows_of(first + second, by_kernel) == windows_of(first, by_kernel) + windows_of(
            second,
            by_kernel,
        ),
        turns_of(first + second, by_kernel, a + b) == turns_of(first, by_kernel, a) + turns_of(
            second,
            by_kernel,
            b,
        ),
{
    assert(windows_of(first + second, by_kernel) =~= windows_of(first, by_kernel) + windows_of(
        second,
        by_kernel,
    ));
    assert(turns_of(first + second, by_kernel, a + b) =~= turns_of(first, by_kernel, a) + turns_of(
        second,
        by_kernel,
        b,
    ));
}

/// Times one search of the kernel.
fn time_search<T: Copy, P: Fn(T, T) -> T, D: Fn(T, T) -> T, K: Fn(T) -> u64>(
    kernel: &PqKernel<T>,
    load: &SpeedWorkload<T>,
    i: usize,
    arith: &Arithmetic<T, P, D>,
    key: &K,
    scratch: &mut Scratch<T>,
    watch: &mut Stopwatch<Search<T>>,
) -> (m: PerfMeasurement)
    requires
        load.wf(),
        arith.is_defined(),
        accepts_all(*key),
        i < load.num_queries,
        kernel_of(*kernel, *load),
        old(scratch).fits(*load),
    ensures
        final(scratch).answers(*load, i as int, *arith, *key),
        final(watch).windows() == old(watch).windows().push(
            Window {
                work: seq![Search { by_kernel: true, load: *load, query: i as int }],
                measurement: m,
            },
        ),
        final(watch).counts() == old(watch).counts(),
        !old(watch).counts() ==> m.instructions is None && m.cycles is None,
{
    let ghost done = scratch.calls();
    watch.start(scratch);
    search(kernel, load, i, arith, key, scratch);
    let m: PerfMeasurement = watch.stop(scratch);
    std::hint::black_box(&scratch.topk);
    assert(scratch.calls().skip(done.len() as int) =~= seq![
        Search { by_kernel: true, load: *load, query: i as int },
    ]);
    m
}

/// Times one search of the reference.
fn time_search_reference<T: Copy, P: Fn(T, T) -> T, D: Fn(T, T) -> T, K: Fn(T) -> u64>(
    reference: &ScalarReference<T>,
    load: &SpeedWorkload<T>,
    i: usize,
    arith: &Arithmetic<T, P, D>,
    key: &K,
    scratch: &mut Scratch<T>,
    watch: &mut Stopwatch<Search<T>>,
) -> (m: PerfMeasurement)
    requires
        load.wf(),
        arith.is_defined(),
        accepts_all(*key),
        i < load.num_queries,
        reference_of(*reference, *load),
        old(scratch).fits(*load),
    ensures
        final(scratch).answers(*load, i as int, *arith, *key),
        final(watch).windows() == old(watch).windows().push(
            Window {
                work: seq![Search { by_kernel: false, load: *load, query: i as int }],
                measurement: m,
            },
        ),
        final(watch).counts() == old(watch).counts(),
        !old(watch).counts() ==> m.instructions is None && m.cycles is None,
{
    let ghost done = scratch.calls();
    watch.start(scratch);
    search_reference(reference, load, i, arith, key, scratch);
    let m: PerfMeasurement = watch.stop(scratch);
    std::hint::black_box(&scratch.topk);
    assert(scratch.calls().skip(done.len() as int) =~= seq![
        Search { by_kernel: false, load: *load, query: i as int },
    ]);
    m
}

/// Times one pass over a workload, after untimed queries that warm the caches up. Kernel and
/// reference take turns: the kernel goes first on even queries, the reference on odd ones, which
/// cancels the advantage of going second.
fn time_workload<T: Copy, P: Fn(T, T) -> T, D: Fn(T, T) -> T, K: Fn(T) -> u64>(
    load: &SpeedWorkload<T>,
    combo: usize,
    arith: &Arithmetic<T, P, D>,
    key: &K,
    timings: &mut Timings,
    reference_ns: &mut Vec<u64>,
    watch: &mut Stopwatch<Search<T>>,
)
    requires
        combo < old(timings)@.per_combo.len(),
        load.wf(),
        arith.is_defined(),
        accepts_all(*key),
    ensures
        searched(
            query_plan(*load, combo as int),
            old(watch).counts(),
            old(timings)@,
            final(timings)@,
            old(reference_ns)@,
            final(reference_ns)@,
            old(watch).windows(),
            final(watch).windows(),
        ),
        final(timings)@.per_combo.len() == old(timings)@.per_combo.len(),
        final(watch).counts() == old(watch).counts(),
{
    let ghost before = timings@;
    let ghost pmc = watch.counts();
    let ghost reference_before = reference_ns@;
    let ghost timed = watch.windows();
    let ghost plan = query_plan(*load, combo as int);
    let kernel: PqKernel<T> = PqKernel::new(
        load.shape,
        load.codebook.as_slice(),
        load.codes.as_slice(),
        load.num_vectors,
    );
    let reference: ScalarReference<T> = ScalarReference::new(
        load.shape,
        load.codebook.as_slice(),
        load.codes.as_slice(),
        load.num_vectors,
    );
    proof {
        lemma_table_len(load.shape, load.codebook@.len());
        assert(load.codebook.len() <= usize::MAX);
    }
    let mut scratch: Scratch<T> = Scratch {
        table: buffer(arith.zero, load.shape.distance_table_len()),
        distances: buffer(arith.zero, load.num_vectors),
        topk: Vec::new(),
        done: Ghost(Seq::empty()),
    };
    search(&kernel, load, 0, arith, key, &mut scratch);
    std::hint::black_box(&scratch.topk);
    search_reference(&reference, load, 0, arith, key, &mut scratch);
    std::hint::black_box(&scratch.topk);
    proof {
        lemma_not_searched(pmc, before, reference_before, timed);
        assert(plan.take(0) =~= Seq::empty());
    }
    let mut qi: usize = 0;
    while qi < load.num_queries
        invariant
            qi <= load.num_queries,
            combo < before.per_combo.len(),
            load.wf(),
            arith.is_defined(),
            accepts_all(*key),
            kernel_of(kernel, *load),
            reference_of(reference, *load),
            scratch.fits(*load),
            plan == query_plan(*load, combo as int),
            timings@.per_combo.len() == before.per_combo.len(),
            searched(
                plan.take(qi as int),
                pmc,
                before,
                timings@,
                reference_before,
                reference_ns@,
                timed,
                watch.windows(),
            ),
            watch.counts() == pmc,
        decreases load.num_queries - qi,
    {
        let ghost t = timings@;
        let ghost r = reference_ns@;
        let ghost h = watch.windows();
        let (agent_m, ref_m) = if qi % 2 == 0 {
            let agent_m: PerfMeasurement = time_search(
                &kernel,
                load,
                qi,
                arith,
                key,
                &mut scratch,
                watch,
            );
            let ref_m: PerfMeasurement = time_search_reference(
                &reference,
                load,
                qi,
                arith,
                key,
                &mut scratch,
                watch,
            );
            (agent_m, ref_m)
        } else {
            let ref_m: PerfMeasurement = time_search_reference(
                &reference,
                load,
                qi,
                arith,
                key,
                &mut scratch,
                watch,
            );
            let agent_m: PerfMeasurement = time_search(
                &kernel,
                load,
                qi,
                arith,
                key,
                &mut scratch,
                watch,
            );
            (agent_m, ref_m)
        };
        timings.record(combo, 1, agent_m);
        reference_ns.push(ref_m.wall_clock_ns);
        proof {
            let query = Query { combo: combo as int, load: *load, query: qi as int };
            lemma_searched_on(pmc, t, r, h, query, agent_m, ref_m);
            lemma_searched_further(
                plan.take(qi as int),
                seq![query],
                pmc,
                (before, t, timings@),
                (reference_before, r, reference_ns@),
                (timed, h, watch.windows()),
            );
            assert(plan.take(qi + 1) =~= plan.take(qi as int) + seq![query]);
        }
        qi += 1;
    }
    assert(plan.take(qi as int) =~= plan);
}

/// Times `passes` passes over the workloads with the given stopwatch. Gives the measurements of the
/// kernel, and the times of the reference in the same order: those of the windows in which exactly a
/// search of the one or of the other was carried out.
pub fn measure<T: Copy, P: Fn(T, T) -> T, D: Fn(T, T) -> T, K: Fn(T) -> u64>(
    workloads: &[SpeedWorkload<T>],
    passes: usize,
    arith: &Arithmetic<T, P, D>,
    key: &K,
    watch: &mut Stopwatch<Search<T>>,
) -> (r: (Timings, Vec<u64>))
    requires
        all_wf(workloads@),
        arith.is_defined(),
        accepts_all(*key),
    ensures
        searched(
            speed_plan(workloads@, passes as nat),
            old(watch).counts(),
            no_timings(workloads@.len()),
            r.0@,
            Seq::empty(),
            r.1@,
            old(watch).windows(),
            final(watch).windows(),
        ),
        r.0@.per_combo.len() == workloads@.len(),
        final(watch).counts() == old(watch).counts(),
{
    let mut timings: Timings = Timings::new(workloads.len());
    let mut reference_ns: Vec<u64> = Vec::new();
    let ghost pmc = watch.counts();
    let ghost plans = query_plans(workloads@);
    let ghost start = timings@;
    let ghost timed = watch.windows();
    let mut pass: usize = 0;
    proof {
        lemma_not_searched(pmc, start, Seq::empty(), timed);
    }
    while pass < passes
        invariant
            pass <= passes,
            all_wf(workloads@),
            arith.is_defined(),
            accepts_all(*key),
            plans == query_plans(workloads@),
            timings@.per_combo.len() == workloads@.len(),
            searched(
                repeated(chained(plans), pass as nat),
                pmc,
                start,
                timings@,
                Seq::empty(),
                reference_ns@,
                timed,
                watch.windows(),
            ),
            watch.counts() == pmc,
        decreases passes - pass,
    {
        let ghost before = timings@;
        let ghost reference_before = reference_ns@;
        let ghost before_timed = watch.windows();
        proof {
            lemma_not_searched(pmc, before, reference_before, before_timed);
            assert(chained(plans.take(0)) =~= Seq::empty());
        }
        let mut wi: usize = 0;
        while wi < workloads.len()
            invariant
                wi <= workloads@.len(),
                all_wf(workloads@),
                arith.is_defined(),
                accepts_all(*key),
                plans == query_plans(workloads@),
                timings@.per_combo.len() == workloads@.len(),
                searched(
                    chained(plans.take(wi as int)),
                    pmc,
                    before,
                    timings@,
                    reference_before,
                    reference_ns@,
                    before_timed,
                    watch.windows(),
                ),
                watch.counts() == pmc,
            decreases workloads@.len() - wi,
        {
            let ghost t = timings@;
            let ghost r = reference_ns@;
            let ghost h = watch.windows();
            time_workload(
                &workloads[wi],
                wi,
                arith,
                key,
                &mut timings,
                &mut reference_ns,
                watch,
            );
            proof {
                lemma_searched_further(
                    chained(plans.take(wi as int)),
                    plans[wi as int],
                    pmc,
                    (before, t, timings@),
                    (reference_before, r, reference_ns@),
                    (before_timed, h, watch.windows()),
                );
                assert(plans.take(wi + 1).drop_last() =~= plans.take(wi as int));
            }
            wi += 1;
        }
        proof {
            assert(plans.take(wi as int) =~= plans);
            lemma_searched_further(
                repeated(chained(plans), pass as nat),
                chained(plans),
                pmc,
                (start, before, timings@),
                (Seq::empty(), reference_before, reference_ns@),
                (timed, before_timed, watch.windows()),
            );
        }
        pass += 1;
    }
    (timings, reference_ns)
}

/// The workload that is named as the slowest: the first with the largest mean, or the first of all
/// combinations where no mean is above zero.
pub open spec fn is_worst_combo<T>(
    loads: Seq<SpeedWorkload<T>>,
    means: Seq<u64>,
    ns: u64,
    shape: PqShape,
    dist: DataDistribution,
) -> bool {
    ||| exists|i: int| #[trigger]
        is_worst(means, i) && ns == means[i] && shape == loads[i].shape && dist
            == loads[i].distribution
    ||| (forall|i: int| 0 <= i < means.len() ==> means[i] == 0) && ns == 0 && shape
        == shape_list()[0] && dist == DISTRIBUTIONS@[0]
}

/// The workload that is named as the fastest: the first with the smallest mean, or the first of all
/// combinations where every mean is the largest number there is.
pub open spec fn is_best_combo<T>(
    loads: Seq<SpeedWorkload<T>>,
    means: Seq<u64>,
    ns: u64,
    shape: PqShape,
    dist: DataDistribution,
) -> bool {
    ||| exists|i: int| #[trigger]
        is_best(means, i) && ns == means[i] && shape == loads[i].shape && dist
            == loads[i].distribution
    ||| (forall|i: int| 0 <= i < means.len() ==> means[i] == u64::MAX) && ns == u64::MAX && shape
        == shape_list()[0] && dist == DISTRIBUTIONS@[0]
}

/// The report gives the figures of the measurements.
pub open spec fn is_report<T, F: Fn(&[u64]) -> u64>(
    loads: Seq<SpeedWorkload<T>>,
    t: TimingsModel,
    reference_ns: Seq<u64>,
    pmc: bool,
    exp_mean_ln: F,
    r: SpeedReport,
) -> bool {
    let means = Seq::new(r.per_combo@.len(), |i: int| r.per_combo@[i].geomean_ns);
    &&& is_summary(t, pmc, exp_mean_ln, r.summary)
    &&& is_geomean(reference_ns, exp_mean_ln, r.reference_geomean_ns)
    &&& are_bootstrap_means(t.all, exp_mean_ln, r.resampled_ns@)
    &&& are_bootstrap_means(reference_ns, exp_mean_ln, r.reference_resampled_ns@)
    &&& are_combo_means(t, exp_mean_ln, means)
    &&& forall|i: int|
        0 <= i < r.per_combo@.len() ==> (#[trigger] r.per_combo@[i]).shape == loads[i].shape
            && r.per_combo@[i].dist == loads[i].distribution
    &&& is_worst_combo(loads, means, r.worst_ns, r.worst_shape, r.worst_dist)
    &&& is_best_combo(loads, means, r.best_ns, r.best_shape, r.best_dist)
}

/// A report has one line for each workload, with its shape, its distribution and the mean of its
/// times. No workload has a mean above the worst one or below the best one, and the two are named
/// with their workloads.
pub proof fn lemma_report<T, F: Fn(&[u64]) -> u64>(
    loads: Seq<SpeedWorkload<T>>,
    t: TimingsModel,
    reference_ns: Seq<u64>,
    pmc: bool,
    exp_mean_ln: F,
    r: SpeedReport,
    i: int,
)
    requires
        is_report(loads, t, reference_ns, pmc, exp_mean_ln, r),
        t.per_combo.len() == loads.len(),
        0 <= i < loads.len(),
    ensures
        r.per_combo@.len() == loads.len(),
        r.per_combo@[i].shape == loads[i].shape,
        r.per_combo@[i].dist == loads[i].distribution,
        is_geomean(t.per_combo[i], exp_mean_ln, r.per_combo@[i].geomean_ns),
        r.best_ns <= r.per_combo@[i].geomean_ns <= r.worst_ns,
        r.worst_ns > 0 ==> exists|w: int|
            0 <= w < loads.len() && (#[trigger] r.per_combo@[w]).geomean_ns == r.worst_ns
                && loads[w].shape == r.worst_shape && loads[w].distribution == r.worst_dist,
        r.best_ns < u64::MAX ==> exists|b: int|
            0 <= b < loads.len() && (#[trigger] r.per_combo@[b]).geomean_ns == r.best_ns
                && loads[b].shape == r.best_shape && loads[b].distribution == r.best_dist,
        is_geomean(t.all, exp_mean_ln, r.summary.geomean_ns),
        is_geomean(reference_ns, exp_mean_ln, r.reference_geomean_ns),
{
    let means = Seq::new(r.per_combo@.len(), |i: int| r.per_combo@[i].geomean_ns);
    assert(is_geomean(t.per_combo[i], exp_mean_ln, means[i]));
    if r.worst_ns > 0 {
        let w = choose|w: int| #[trigger]
            is_worst(means, w) && r.worst_ns == means[w] && r.worst_shape == loads[w].shape
                && r.worst_dist == loads[w].distribution;
        assert(r.per_combo@[w].geomean_ns == means[w]);
    }
    if r.best_ns < u64::MAX {
        let b = choose|b: int| #[trigger]
            is_best(means, b) && r.best_ns == means[b] && r.best_shape == loads[b].shape
                && r.best_dist == loads[b].distribution;
        assert(r.per_combo@[b].geomean_ns == means[b]);
    }
}

/// Draws the report up from the measurements. `pmc` tells whether there were hardware counters.
pub fn speed_report<T, F: Fn(&[u64]) -> u64>(
    workloads: &[SpeedWorkload<T>],
    timings: &Timings,
    reference_ns: &[u64],
    pmc: bool,
    exp_mean_ln: &F,
) -> (r: SpeedReport)
    requires
        accepts_samples(*exp_mean_ln),
        timings@.per_combo.len() == workloads@.len(),
    ensures
        is_report(workloads@, timings@, reference_ns@, pmc, *exp_mean_ln, r),
        r.worst_ns == 0 ==> r.worst_shape == shape_list()[0] && r.worst_dist == DISTRIBUTIONS@[0],
        r.best_ns == u64::MAX ==> r.best_shape == shape_list()[0] && r.best_dist == DISTRIBUTIONS@[0],
        workloads@.len() == 0 ==> r.worst_ns == 0 && r.best_ns == u64::MAX,
{
    let means: Vec<u64> = combo_means(timings, exp_mean_ln);
    let mut per_combo: Vec<ComboReport> = Vec::with_capacity(workloads.len());
    let mut k: usize = 0;
    while k < workloads.len()
        invariant
            k <= workloads@.len(),
            means@.len() == workloads@.len(),
            per_combo@.len() == k,
            forall|i: int|
                0 <= i < k ==> (#[trigger] per_combo@[i]).shape == workloads@[i].shape
                    && per_combo@[i].dist == workloads@[i].distribution && per_combo@[i].geomean_ns
                    == means@[i],
        decreases workloads@.len() - k,
    {
        per_combo.push(
            ComboReport {
                shape: workloads[k].shape,
                dist: workloads[k].distribution,
                geomean_ns: means[k],
            },
        );
        k += 1;
    }
    assert(Seq::new(per_combo@.len(), |i: int| per_combo@[i].geomean_ns) =~= means@);
    let shapes: [PqShape; 3] = shapes();
    let (worst_ns, worst_shape, worst_dist) = match worst_index(means.as_slice()) {
        Some(i) => (means[i], workloads[i].shape, workloads[i].distribution),
        None => (0, shapes[0], DISTRIBUTIONS[0]),
    };
    let (best_ns, best_shape, best_dist) = match best_index(means.as_slice()) {
        Some(i) => (means[i], workloads[i].shape, workloads[i].distribution),
        None => (u64::MAX, shapes[0], DISTRIBUTIONS[0]),
    };
    let summary: Summary = summarize(timings, pmc, exp_mean_ln);
    let reference_geomean_ns: u64 = mean_of(reference_ns, exp_mean_ln);
    let resampled_ns: Vec<u64> = bootstrap_means(timings.all.as_slice(), exp_mean_ln);
    let reference_resampled_ns: Vec<u64> = bootstrap_means(reference_ns, exp_mean_ln);
    SpeedReport {
        summary,
        worst_ns,
        worst_shape,
        worst_dist,
        best_ns,
        best_shape,
        best_dist,
        per_combo,
        reference_geomean_ns,
        resampled_ns,
        reference_resampled_ns,
    }
}

/// Times `passes` passes over the workloads with the given stopwatch, and reports. Each query is timed
/// twice in each pass, exactly a search of the kernel in one window and exactly one of the reference
/// in the other, and the report gives the figures of the measurements.
pub fn run_speed_with<
    T: Copy,
    P: Fn(T, T) -> T,
    D: Fn(T, T) -> T,
    K: Fn(T) -> u64,
    F: Fn(&[u64]) -> u64,
>(
    workloads: &[SpeedWorkload<T>],
    passes: usize,
    arith: &Arithmetic<T, P, D>,
    key: &K,
    exp_mean_ln: &F,
    watch: &mut Stopwatch<Search<T>>,
) -> (r: SpeedReport)
    requires
        all_wf(workloads@),
        arith.is_defined(),
        accepts_all(*key),
        accepts_samples(*exp_mean_ln),
    ensures
        old(watch).windows().is_prefix_of(final(watch).windows()),
        ({
            let plan = speed_plan(workloads@, passes as nat);
            let ws = final(watch).windows().skip(old(watch).windows().len() as int);
            &&& are_measured(plan, old(watch).counts(), ws)
            &&& is_report_of(workloads@, plan, ws, old(watch).counts(), *exp_mean_ln, r)
        }),
        final(watch).counts() == old(watch).counts(),
{
    let pmc: bool = watch.has_pmc();
    let ghost timed = watch.windows();
    let (timings, reference_ns) = measure(workloads, passes, arith, key, watch);
    proof {
        let plan = speed_plan(workloads@, passes as nat);
        let ns = wall_clocks(turns_of(plan, false, watch.windows().skip(timed.len() as int)));
        assert(Seq::empty() + ns =~= ns);
    }
    speed_report(workloads, &timings, reference_ns.as_slice(), pmc, exp_mean_ln)
}

/// The report gives the figures of the windows of the plan.
pub open spec fn is_report_of<T, F: Fn(&[u64]) -> u64>(
    loads: Seq<SpeedWorkload<T>>,
    plan: Seq<Query<T>>,
    ws: Seq<Window<Search<T>>>,
    pmc: bool,
    exp_mean_ln: F,
    r: SpeedReport,
) -> bool {
    is_report(
        loads,
        logged(no_timings(loads.len()), windows_of(plan, true), turns_of(plan, true, ws)),
        wall_clocks(turns_of(plan, false, ws)),
        pmc,
        exp_mean_ln,
        r,
    )
}

/// Times `passes` passes over the workloads with a new stopwatch, and reports. There are
/// measurements of the queries of the plan, whose figures the report gives; which these are, and
/// whether there are counts among them, is up to the machine.
pub fn run_speed<
    T: Copy,
    P: Fn(T, T) -> T,
    D: Fn(T, T) -> T,
    K: Fn(T) -> u64,
    F: Fn(&[u64]) -> u64,
>(
    workloads: &[SpeedWorkload<T>],
    passes: usize,
    arith: &Arithmetic<T, P, D>,
    key: &K,
    exp_mean_ln: &F,
) -> (r: SpeedReport)
    requires
        all_wf(workloads@),
        arith.is_defined(),
        accepts_all(*key),
        accepts_samples(*exp_mean_ln),
    ensures
        exists|ws: Seq<Window<Search<T>>>, pmc: bool| #[trigger]
            are_measured(speed_plan(workloads@, passes as nat), pmc, ws) && is_report_of(
                workloads@,
                speed_plan(workloads@, passes as nat),
                ws,
                pmc,
                *exp_mean_ln,
                r,
            ),
{
    let mut watch: Stopwatch<Search<T>> = Stopwatch::new();
    run_speed_with(workloads, passes, arith, key, exp_mean_ln, &mut watch)
}

} // verus!
