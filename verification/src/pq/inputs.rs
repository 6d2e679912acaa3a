//! The cases and workloads of the distance kernels.
use vstd::prelude::*;

use crate::pq::distance::{
    decoded, distance_table, lemma_distance_to_decoded, pq_distances, NUM_CENTROIDS_8BIT,
};
use crate::pq::matrix::transposed;
use crate::pq::{ArithmeticModel, PqShape};

verus! {

/// The shapes that are evaluated.
pub open spec fn shape_list() -> Seq<PqShape> {
    seq![
        PqShape { dim: 128, num_sub_vectors: 16, num_centroids: 256 },
        PqShape { dim: 256, num_sub_vectors: 16, num_centroids: 256 },
        PqShape { dim: 768, num_sub_vectors: 96, num_centroids: 256 },
    ]
}

/// The shapes that are evaluated.
pub fn shapes() -> (r: [PqShape; 3])
    ensures
        r@ == shape_list(),
        r@[0] == (PqShape { dim: 128, num_sub_vectors: 16, num_centroids: 256 }),
        r@[1] == (PqShape { dim: 256, num_sub_vectors: 16, num_centroids: 256 }),
        r@[2] == (PqShape { dim: 768, num_sub_vectors: 96, num_centroids: 256 }),
{
    [PqShape::new(128, 16, 256), PqShape::new(256, 16, 256), PqShape::new(768, 96, 256)]
}

/// How the vectors of a workload are distributed.
#[derive(Clone, Copy, Debug, PartialEq, Eq, Structural)]
pub enum DataDistribution {
    Clustered,
    Uniform,
    Sparse,
}

pub const DISTRIBUTIONS: [DataDistribution; 3] = [
    DataDistribution::Clustered,
    DataDistribution::Uniform,
    DataDistribution::Sparse,
];

/// A codebook, codes and a query that fit the shape.
pub open spec fn fits_shape(
    shape: PqShape,
    codebook_len: nat,
    codes_len: nat,
    num_vectors: nat,
    query_len: nat,
) -> bool {
    &&& shape.num_centroids == NUM_CENTROIDS_8BIT
    &&& shape.num_sub_vectors > 0
    &&& shape.dim > 0
    &&& shape.dim as int % shape.num_sub_vectors as int == 0
    &&& codebook_len == shape.book_len()
    &&& codes_len == num_vectors * shape.num_sub_vectors
    &&& query_len == shape.dim
}

/// A case of the correctness battery. The codes are given vector by vector.
pub struct CorrectnessCase<T> {
    pub label: &'static str,
    pub shape: PqShape,
    pub codebook: Vec<T>,
    pub codes: Vec<u8>,
    pub num_vectors: usize,
    pub query: Vec<T>,
}

impl<T> CorrectnessCase<T> {
    pub open spec fn wf(&self) -> bool {
        fits_shape(
            self.shape,
            self.codebook@.len(),
            self.codes@.len(),
            self.num_vectors as nat,
            self.query@.len(),
        )
    }
}

/// A workload of the speed runs. The queries stand one behind the other; of each, the `k` nearest
/// vectors are selected.
pub struct SpeedWorkload<T> {
    pub shape: PqShape,
    pub distribution: DataDistribution,
    pub codebook: Vec<T>,
    pub codes: Vec<u8>,
    pub num_vectors: usize,
    pub queries: Vec<T>,
    pub num_queries: usize,
    pub k: usize,
}

impl<T> SpeedWorkload<T> {
    /// There are queries enough, one at least for the warm-up, and the places of the vectors fit
    /// the entries of a selection.
    pub open spec fn wf(&self) -> bool {
        &&& fits_shape(
            self.shape,
            self.codebook@.len(),
            self.codes@.len(),
            self.num_vectors as nat,
            self.shape.dim as nat,
        )
        &&& self.queries@.len() >= self.shape.dim
        &&& self.queries@.len() >= self.num_queries * self.shape.dim
        &&& self.num_vectors <= 0x1_0000_0000
    }

    /// Query `i`.
    pub open spec fn query(&self, i: int) -> Seq<T> {
        self.queries@.subrange(i * self.shape.dim, (i + 1) * self.shape.dim)
    }
}

/// The distances of the stored vectors from a query.
pub open spec fn distances_from<T>(
    m: ArithmeticModel<T>,
    shape: PqShape,
    codebook: Seq<T>,
    codes: Seq<u8>,
    num_vectors: nat,
    query: Seq<T>,
) -> Seq<T> {
    pq_distances(
        m,
        distance_table(m, codebook, shape.num_sub_vectors as int, query),
        shape.num_sub_vectors as nat,
        transposed(codes, num_vectors as int, shape.num_sub_vectors as int),
        num_vectors,
    )
}

/// Query `i` of a workload has as many elements as the shape says, and they stand behind those of the
/// queries before it.
pub proof fn lemma_query<T>(load: SpeedWorkload<T>, i: int, d: int)
    requires
        load.wf(),
        0 <= i < load.num_queries,
        0 <= d < load.shape.dim,
    ensures
        load.query(i).len() == load.shape.dim,
        load.query(i)[d] == load.queries@[i * load.shape.dim + d],
{
    let n = load.shape.dim as int;
    assert(0 <= i * n && (i + 1) * n == i * n + n && (i + 1) * n <= load.num_queries * n)
        by (nonlinear_arith)
        requires
            0 <= i < load.num_queries,
            0 < n,
    ;
}

/// Where order and grouping of the summands make no difference, the distance of stored vector `v` from
/// a query is the sum, over all dimensions, of the squared differences of the query and the vector
/// that the codes of `v` stand for.
pub proof fn lemma_distances_from<T>(
    m: ArithmeticModel<T>,
    shape: PqShape,
    codebook: Seq<T>,
    codes: Seq<u8>,
    num_vectors: nat,
    query: Seq<T>,
    v: int,
)
    requires
        m.is_exact(),
        fits_shape(shape, codebook.len(), codes.len(), num_vectors, query.len()),
        0 <= v < num_vectors,
    ensures
        distances_from(m, shape, codebook, codes, num_vectors, query).len() == num_vectors,
        distances_from(m, shape, codebook, codes, num_vectors, query)[v] == m.total(
            shape.dim as nat,
            |d: int|
                m.term(
                    query[d],
                    decoded(
                        codebook,
                        codes,
                        shape.num_sub_vectors as int,
                        shape.dim as int / shape.num_sub_vectors as int,
                        v,
                    )[d],
                ),
        ),
{
    let n = shape.num_sub_vectors as int;
    let width = shape.dim as int / n;
    vstd::arithmetic::div_mod::lemma_fundamental_div_mod(shape.dim as int, n);
    assert(width > 0) by (nonlinear_arith)
        requires
            shape.dim == n * width,
            shape.dim > 0,
            n > 0,
    ;
    lemma_distance_to_decoded(
        m,
        codebook,
        codes,
        num_vectors,
        shape.num_sub_vectors as nat,
        query,
        width,
        v,
    );
}

} // verus!
