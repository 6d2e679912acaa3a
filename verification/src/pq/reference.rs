//! The reference, which defines the distances that the kernel has to give, and the measures by which
//! the two are compared.
use vstd::prelude::*;
use vstd::relations::total_ordering;
use vstd::string::StringExecFns;

use crate::functions::{accepts_all, accepts_all_pairs, computes, computes_pairs};
use crate::pq::distance::{
    are_distances, build_distance_table_l2_into, compute_pq_distance_into, is_table,
    lemma_codes_in_table, lemma_distance_of_vector, own_lookup, transpose, NUM_CENTROIDS_8BIT,
};
use crate::pq::kernels::PqKernel;
use crate::pq::matrix::transposed;
use crate::pq::{Arithmetic, ArithmeticModel, PqShape};
use crate::text::{append_decimal, decimal};

verus! {

/// A codebook and stored vectors, prepared for queries. The codes are kept sub-vector by
/// sub-vector.
pub struct ScalarReference<T> {
    shape: PqShape,
    codebook: Vec<T>,
    codes_soa: Vec<u8>,
    num_vectors: usize,
}

impl<T> ScalarReference<T> {
    #[verifier::type_invariant]
    spec fn wf(self) -> bool {
        &&& self.shape.num_sub_vectors > 0
        &&& self.codebook@.len() == self.shape.book_len()
        &&& self.codes_soa@.len() == self.num_vectors * self.shape.num_sub_vectors
    }

    pub closed spec fn shape(&self) -> PqShape {
        self.shape
    }

    /// The centroids, one behind the other.
    pub closed spec fn codebook(&self) -> Seq<T> {
        self.codebook@
    }

    /// The codes, sub-vector by sub-vector.
    pub closed spec fn codes(&self) -> Seq<u8> {
        self.codes_soa@
    }

    /// The number of stored vectors.
    pub closed spec fn count(&self) -> nat {
        self.num_vectors as nat
    }
}

impl<T: Copy> ScalarReference<T> {
    /// Takes a codebook and codes that are given vector by vector.
    pub fn new(shape: PqShape, codebook: &[T], codes_aos: &[u8], num_vectors: usize) -> (r: Self)
        requires
            shape.num_sub_vectors > 0,
            codebook@.len() == shape.book_len(),
            codes_aos@.len() == num_vectors * shape.num_sub_vectors,
        ensures
            r.shape() == shape,
            r.codebook() == codebook@,
            r.codes() == transposed(
                codes_aos@,
                num_vectors as int,
                shape.num_sub_vectors as int,
            ),
            r.count() == num_vectors,
    {
        let codes_soa: Vec<u8> = transpose(codes_aos, num_vectors, shape.num_sub_vectors);
        ScalarReference {
            shape,
            codebook: vstd::slice::slice_to_vec(codebook),
            codes_soa,
            num_vectors,
        }
    }

    /// Writes the distance table of a query to `out`.
    pub fn distance_table<P: Fn(T, T) -> T, D: Fn(T, T) -> T>(
        &self,
        query: &[T],
        out: &mut [T],
        arith: &Arithmetic<T, P, D>,
    )
        requires
            self.shape().num_centroids == NUM_CENTROIDS_8BIT,
            self.shape().dim > 0,
            self.shape().dim as int % self.shape().num_sub_vectors as int == 0,
            query@.len() == self.shape().dim,
            old(out)@.len() == self.shape().table_len(),
            arith.is_defined(),
        ensures
            final(out)@.len() == old(out)@.len(),
            is_table(
                *arith,
                self.codebook(),
                self.shape().num_sub_vectors as int,
                query@,
                final(out)@,
            ),
    {
        proof {
            use_type_invariant(self);
        }
        build_distance_table_l2_into(
            self.codebook.as_slice(),
            self.shape.num_sub_vectors,
            query,
            out,
            arith,
        );
    }

    /// Writes the distances of all stored vectors from the query behind the distance table to `out`.
    pub fn compute_distances<P: Fn(T, T) -> T, D: Fn(T, T) -> T>(
        &self,
        table: &[T],
        out: &mut [T],
        arith: &Arithmetic<T, P, D>,
    )
        requires
            self.count() > 0 ==> self.shape().num_centroids >= NUM_CENTROIDS_8BIT,
            table@.len() == self.shape().table_len(),
            old(out)@.len() == self.count(),
            arith.is_defined(),
        ensures
            final(out)@.len() == old(out)@.len(),
            are_distances(
                *arith,
                table@,
                self.shape().num_sub_vectors as nat,
                self.codes(),
                self.count(),
                final(out)@,
            ),
    {
        proof {
            use_type_invariant(self);
            lemma_codes_in_table(self.shape, self.codes_soa@.len(), self.num_vectors as nat);
        }
        compute_pq_distance_into(
            table,
            self.shape.num_sub_vectors,
            self.codes_soa.as_slice(),
            out,
            arith,
        );
    }

    pub fn num_vectors(&self) -> (r: usize)
        ensures
            r == self.count(),
    {
        self.num_vectors
    }
}

/// Kernel and reference agree: built from the same codebook and codes, they give the same table for a
/// query, and from it the same distances, whatever the buffers held before. The distance of a vector
/// is the sum of the entries that its own codes select. This holds of every arithmetic whose
/// operations are functions of their arguments.
pub proof fn lemma_kernel_agrees<T: Copy, P: Fn(T, T) -> T, D: Fn(T, T) -> T>(
    arith: Arithmetic<T, P, D>,
    m: ArithmeticModel<T>,
    kernel: PqKernel<T>,
    reference: ScalarReference<T>,
    codes_aos: Seq<u8>,
    query: Seq<T>,
    tables: (Seq<T>, Seq<T>),
    distances: (Seq<T>, Seq<T>),
)
    requires
        arith.computes(m),
        kernel.shape() == reference.shape(),
        kernel.codebook() == reference.codebook(),
        kernel.codes() == reference.codes(),
        kernel.count() == reference.count(),
        codes_aos.len() == kernel.count() * kernel.shape().num_sub_vectors as nat,
        kernel.codes() == transposed(
            codes_aos,
            kernel.count() as int,
            kernel.shape().num_sub_vectors as int,
        ),
        is_table(
            arith,
            kernel.codebook(),
            kernel.shape().num_sub_vectors as int,
            query,
            tables.0,
        ),
        is_table(
            arith,
            reference.codebook(),
            reference.shape().num_sub_vectors as int,
            query,
            tables.1,
        ),
        are_distances(
            arith,
            tables.0,
            kernel.shape().num_sub_vectors as nat,
            kernel.codes(),
            kernel.count(),
            distances.0,
        ),
        are_distances(
            arith,
            tables.1,
            reference.shape().num_sub_vectors as nat,
            reference.codes(),
            reference.count(),
            distances.1,
        ),
    ensures
        tables.0 == tables.1,
        distances.0 == distances.1,
        distances.0.len() == kernel.count(),
        forall|v: int|
            0 <= v < kernel.count() ==> #[trigger] distances.0[v] == m.total(
                kernel.shape().num_sub_vectors as nat,
                own_lookup(tables.0, codes_aos, kernel.shape().num_sub_vectors as int, v),
            ),
{
    assert forall|v: int| 0 <= v < kernel.count() implies #[trigger] distances.0[v] == m.total(
        kernel.shape().num_sub_vectors as nat,
        own_lookup(tables.0, codes_aos, kernel.shape().num_sub_vectors as int, v),
    ) by {
        lemma_distance_of_vector(
            m,
            tables.0,
            codes_aos,
            kernel.count(),
            kernel.shape().num_sub_vectors as nat,
            v,
        );
    }
}

/// How far two values are apart, and which of two such errors is the larger.
#[verifier::reject_recursive_types(T)]
pub struct ErrorMeasure<T, A: Fn(T, T) -> T, M: Fn(T, T) -> T> {
    pub zero: T,
    pub abs_difference: A,
    pub larger: M,
}

/// A measure of errors as a mathematical object.
#[verifier::reject_recursive_types(T)]
pub struct ErrorModel<T> {
    pub zero: T,
    pub abs_difference: spec_fn(T, T) -> T,
    pub larger: spec_fn(T, T) -> T,
}

impl<T> ErrorModel<T> {
    /// The largest error among the first `n` elements, and zero at least.
    pub open spec fn worst(self, a: Seq<T>, b: Seq<T>, n: nat) -> T
        decreases n,
    {
        if n == 0 {
            self.zero
        } else {
            (self.larger)(
                self.worst(a, b, (n - 1) as nat),
                (self.abs_difference)(a[n - 1], b[n - 1]),
            )
        }
    }
}

impl<T> ErrorModel<T> {
    /// Errors are ordered by `leq`, zero is the least, and the larger of two is their maximum.
    pub open spec fn takes_maximum(self, leq: spec_fn(T, T) -> bool) -> bool {
        &&& total_ordering(leq)
        &&& forall|x: T| #[trigger] leq(self.zero, x)
        &&& forall|x: T, y: T|
            leq(x, #[trigger] (self.larger)(x, y)) && leq(y, (self.larger)(x, y)) && ((
            self.larger)(x, y) == x || (self.larger)(x, y) == y)
    }

    /// `r` is the largest error: no element has a larger one, and some element has this one or there
    /// is none.
    pub open spec fn is_largest_error(
        self,
        leq: spec_fn(T, T) -> bool,
        a: Seq<T>,
        b: Seq<T>,
        r: T,
    ) -> bool {
        &&& forall|i: int| 0 <= i < a.len() ==> leq((self.abs_difference)(#[trigger] a[i], b[i]), r)
        &&& r == self.zero || exists|i: int|
            0 <= i < a.len() && r == (self.abs_difference)(#[trigger] a[i], b[i])
    }
}

/// Where the larger of two errors is the maximum of a total order with zero as its least value, the
/// worst error is at least the error of every element, and is zero or the error of one of them.
pub proof fn lemma_worst<T>(
    m: ErrorModel<T>,
    leq: spec_fn(T, T) -> bool,
    a: Seq<T>,
    b: Seq<T>,
)
    requires
        m.takes_maximum(leq),
    ensures
        m.is_largest_error(leq, a, b, m.worst(a, b, a.len())),
{
    lemma_worst_of_first(m, leq, a, b, a.len());
}

proof fn lemma_worst_of_first<T>(
    m: ErrorModel<T>,
    leq: spec_fn(T, T) -> bool,
    a: Seq<T>,
    b: Seq<T>,
    n: nat,
)
    requires
        m.takes_maximum(leq),
    ensures
        forall|i: int|
            0 <= i < n ==> leq((m.abs_difference)(#[trigger] a[i], b[i]), m.worst(a, b, n)),
        m.worst(a, b, n) == m.zero || exists|i: int|
            0 <= i < n && m.worst(a, b, n) == (m.abs_difference)(#[trigger] a[i], b[i]),
    decreases n,
{
    if n > 0 {
        let k = (n - 1) as nat;
        lemma_worst_of_first(m, leq, a, b, k);
        let before = m.worst(a, b, k);
        let next = (m.abs_difference)(a[n - 1], b[n - 1]);
        let after = (m.larger)(before, next);
        assert(leq(before, after) && leq(next, after));
        assert forall|i: int| 0 <= i < n implies leq(
            (m.abs_difference)(#[trigger] a[i], b[i]),
            after,
        ) by {
            if i < k {
                assert(leq((m.abs_difference)(a[i], b[i]), before));
            }
        }
    }
}

/// The errors of integers: how far two of them are apart.
pub open spec fn integer_errors() -> ErrorModel<int> {
    ErrorModel {
        zero: 0,
        abs_difference: |a: int, b: int| if a <= b { b - a } else { a - b },
        larger: |a: int, b: int| if a <= b { b } else { a },
    }
}

/// Two sequences of integers have the worst error zero if and only if they are the same.
pub proof fn lemma_integer_errors(a: Seq<int>, b: Seq<int>, n: nat)
    ensures
        integer_errors().worst(a, b, n) >= 0,
        integer_errors().worst(a, b, n) == 0 <==> forall|i: int|
            0 <= i < n ==> #[trigger] a[i] == b[i],
    decreases n,
{
    if n > 0 {
        lemma_integer_errors(a, b, (n - 1) as nat);
        if integer_errors().worst(a, b, (n - 1) as nat) != 0 {
            let i = choose|i: int| 0 <= i < n - 1 && a[i] != b[i];
            assert(a[i] != b[i]);
        }
    }
}

impl<T: Copy, A: Fn(T, T) -> T, M: Fn(T, T) -> T> ErrorMeasure<T, A, M> {
    /// Both operations can be applied to all values.
    pub open spec fn is_defined(&self) -> bool {
        &&& accepts_all_pairs(self.abs_difference)
        &&& accepts_all_pairs(self.larger)
    }

    /// The operations give what the model says.
    pub open spec fn computes(&self, model: ErrorModel<T>) -> bool {
        &&& self.zero == model.zero
        &&& computes_pairs(self.abs_difference, model.abs_difference)
        &&& computes_pairs(self.larger, model.larger)
    }
}

/// The largest error between two distance tables.
pub fn max_abs_err<T: Copy, A: Fn(T, T) -> T, M: Fn(T, T) -> T>(
    a: &[T],
    b: &[T],
    measure: &ErrorMeasure<T, A, M>,
) -> (r: T)
    requires
        a@.len() == b@.len(),
        measure.is_defined(),
    ensures
        forall|m: ErrorModel<T>| #[trigger]
            measure.computes(m) ==> r == m.worst(a@, b@, a@.len()),
        forall|m: ErrorModel<T>, leq: spec_fn(T, T) -> bool|
            measure.computes(m) && #[trigger] m.takes_maximum(leq) ==> m.is_largest_error(
                leq,
                a@,
                b@,
                r,
            ),
{
    let mut worst: T = measure.zero;
    let mut k: usize = 0;
    while k < a.len()
        invariant
            k <= a@.len(),
            a@.len() == b@.len(),
            measure.is_defined(),
            forall|m: ErrorModel<T>| #[trigger]
                measure.computes(m) ==> worst == m.worst(a@, b@, k as nat),
        decreases a@.len() - k,
    {
        let error: T = (measure.abs_difference)(a[k], b[k]);
        worst = (measure.larger)(worst, error);
        k += 1;
    }
    proof {
        assert forall|m: ErrorModel<T>, leq: spec_fn(T, T) -> bool|
            measure.computes(m) && #[trigger] m.takes_maximum(leq) implies m.is_largest_error(
            leq,
            a@,
            b@,
            worst,
        ) by {
            lemma_worst(m, leq, a@, b@);
        }
    }
    worst
}

/// The largest error between two sequences of distances.
pub fn distances_max_abs_err<T: Copy, A: Fn(T, T) -> T, M: Fn(T, T) -> T>(
    agent: &[T],
    reference: &[T],
    measure: &ErrorMeasure<T, A, M>,
) -> (r: T)
    requires
        agent@.len() == reference@.len(),
        measure.is_defined(),
    ensures
        forall|m: ErrorModel<T>| #[trigger]
            measure.computes(m) ==> r == m.worst(agent@, reference@, agent@.len()),
        forall|m: ErrorModel<T>, leq: spec_fn(T, T) -> bool|
            measure.computes(m) && #[trigger] m.takes_maximum(leq) ==> m.is_largest_error(
                leq,
                agent@,
                reference@,
                r,
            ),
{
    max_abs_err(agent, reference, measure)
}

/// The report of two rankings of different lengths.
pub open spec fn topk_length_report(agent: nat, reference: nat) -> Seq<char> {
    "topk length mismatch: agent="@ + decimal(agent) + " reference="@ + decimal(reference)
}

/// The report of two rankings whose distances are too far apart at rank `i`. The texts of the two
/// distances and of their error are given.
pub open spec fn topk_rank_report(
    i: nat,
    agent: (u32, Seq<char>),
    reference: (u32, Seq<char>),
    error: Seq<char>,
) -> Seq<char> {
    "topk["@ + decimal(i) + "] distance mismatch: agent=("@ + decimal(agent.0 as nat) + ", "@
        + agent.1 + ") reference=("@ + decimal(reference.0 as nat) + ", "@ + reference.1
        + ") | err="@ + error
}

/// How far apart the distances at a rank are, and whether that is too far.
#[verifier::reject_recursive_types(T)]
pub struct Closeness<T> {
    pub abs_difference: spec_fn(T, T) -> T,
    pub exceeds: spec_fn(T) -> bool,
}

impl<T> Closeness<T> {
    /// How far apart the distances at rank `i` are.
    pub open spec fn gap(self, agent: Seq<(u32, T)>, reference: Seq<(u32, T)>, i: int) -> T {
        (self.abs_difference)(agent[i].1, reference[i].1)
    }

    /// The distances at the first `n` ranks are close enough.
    pub open spec fn close(self, agent: Seq<(u32, T)>, reference: Seq<(u32, T)>, n: int) -> bool {
        forall|i: int| 0 <= i < n ==> !(self.exceeds)(#[trigger] self.gap(agent, reference, i))
    }

    /// `i` is the first rank at which the distances are too far apart.
    pub open spec fn first_far(
        self,
        agent: Seq<(u32, T)>,
        reference: Seq<(u32, T)>,
        i: int,
    ) -> bool {
        &&& 0 <= i < agent.len()
        &&& self.close(agent, reference, i)
        &&& (self.exceeds)(self.gap(agent, reference, i))
    }

    /// The functions give what the model says.
    pub open spec fn computed_by<A: Fn(T, T) -> T, X: Fn(T) -> bool>(
        self,
        abs_difference: A,
        exceeds: X,
    ) -> bool {
        &&& computes_pairs(abs_difference, self.abs_difference)
        &&& computes(exceeds, self.exceeds)
    }

    /// The report is that of rank `i`, however the values are written.
    pub open spec fn is_rank_report<S: Fn(T) -> String>(
        self,
        agent: Seq<(u32, T)>,
        reference: Seq<(u32, T)>,
        show: S,
        i: int,
        report: Seq<char>,
    ) -> bool {
        exists|a: String, b: String, e: String|
            {
                &&& #[trigger] show.ensures((agent[i].1,), a)
                &&& #[trigger] show.ensures((reference[i].1,), b)
                &&& #[trigger] show.ensures((self.gap(agent, reference, i),), e)
                &&& report == topk_rank_report(
                    i as nat,
                    (agent[i].0, a@),
                    (reference[i].0, b@),
                    e@,
                )
            }
    }
}

/// Whether two rankings have the same length and, at every rank, distances that are close enough;
/// otherwise a report of the first rank where they are not. The ids at a rank may differ, as equal
/// distances may be ranked either way. `exceeds` tells whether an error is above the tolerance.
pub fn topk_consistent<T: Copy, A: Fn(T, T) -> T, X: Fn(T) -> bool, S: Fn(T) -> String>(
    agent: &[(u32, T)],
    reference: &[(u32, T)],
    abs_difference: A,
    exceeds: X,
    show: S,
) -> (r: Result<(), String>)
    requires
        accepts_all_pairs(abs_difference),
        accepts_all(exceeds),
        accepts_all(show),
    ensures
        forall|m: Closeness<T>| #[trigger]
            m.computed_by(abs_difference, exceeds) ==> (r is Ok <==> agent@.len()
                == reference@.len() && forall|i: int|
                0 <= i < agent@.len() ==> !(m.exceeds)(
                    (m.abs_difference)((#[trigger] agent@[i]).1, reference@[i].1),
                )),
        agent@.len() != reference@.len() ==> (r matches Err(report) && report@
            == topk_length_report(agent@.len(), reference@.len())),
        agent@.len() == reference@.len() ==> forall|m: Closeness<T>| #[trigger]
            m.computed_by(abs_difference, exceeds) ==> match r {
                Ok(()) => m.close(agent@, reference@, agent@.len() as int),
                Err(report) => exists|i: int| #[trigger]
                    m.first_far(agent@, reference@, i) && m.is_rank_report(
                        agent@,
                        reference@,
                        show,
                        i,
                        report@,
                    ),
            },
{
    if agent.len() != reference.len() {
        let mut report: String = String::new();
        report.append("topk length mismatch: agent=");
        append_decimal(&mut report, agent.len() as u64);
        report.append(" reference=");
        append_decimal(&mut report, reference.len() as u64);
        assert(report@ =~= topk_length_report(agent@.len(), reference@.len()));
        return Err(report);
    }
    let mut i: usize = 0;
    while i < agent.len()
        invariant
            i <= agent@.len(),
            agent@.len() == reference@.len(),
            accepts_all_pairs(abs_difference),
            accepts_all(exceeds),
            accepts_all(show),
            forall|m: Closeness<T>| #[trigger]
                m.computed_by(abs_difference, exceeds) ==> m.close(agent@, reference@, i as int),
        decreases agent@.len() - i,
    {
        let (a_id, a_d) = agent[i];
        let (r_id, r_d) = reference[i];
        let error: T = abs_difference(a_d, r_d);
        if exceeds(error) {
            let a: String = show(a_d);
            let b: String = show(r_d);
            let e: String = show(error);
            let mut report: String = String::new();
            report.append("topk[");
            append_decimal(&mut report, i as u64);
            report.append("] distance mismatch: agent=(");
            append_decimal(&mut report, a_id as u64);
            report.append(", ");
            report.append(a.as_str());
            report.append(") reference=(");
            append_decimal(&mut report, r_id as u64);
            report.append(", ");
            report.append(b.as_str());
            report.append(") | err=");
            report.append(e.as_str());
            proof {
                assert(report@ =~= topk_rank_report(i as nat, (a_id, a@), (r_id, b@), e@));
                assert forall|m: Closeness<T>| #[trigger]
                    m.computed_by(abs_difference, exceeds) implies m.first_far(
                    agent@,
                    reference@,
                    i as int,
                ) && m.is_rank_report(agent@, reference@, show, i as int, report@) by {
                    assert(m.gap(agent@, reference@, i as int) == error);
                }
            }
            return Err(report);
        }
        i += 1;
    }
    proof {
        assert forall|m: Closeness<T>, k: int|
            #![trigger m.computed_by(abs_difference, exceeds), agent@[k]]
            m.computed_by(abs_difference, exceeds) && 0 <= k < agent@.len() implies !(m.exceeds)(
            (m.abs_difference)(agent@[k].1, reference@[k].1),
        ) by {
            assert(!(m.exceeds)(m.gap(agent@, reference@, k)));
        }
    }
    Ok(())
}

} // verus!
