//! The kernel of the distance computation.
use vstd::prelude::*;

use crate::pq::distance::{
    are_distances, build_distance_table_l2_into, compute_pq_distance_into, is_table,
    lemma_codes_in_table, transpose, NUM_CENTROIDS_8BIT,
};
use crate::pq::matrix::transposed;
use crate::pq::{Arithmetic, PqShape};

verus! {

/// A codebook and stored vectors, prepared for queries. The codes are kept sub-vector by
/// sub-vector.
pub struct PqKernel<T> {
    shape: PqShape,
    codebook: Vec<T>,
    codes_soa: Vec<u8>,
    num_vectors: usize,
}

impl<T> PqKernel<T> {
    #[verifier::type_invariant]
    spec fn wf(self) -> bool {
        &&& self.shape.num_sub_vectors > 0
        &&& self.codebook@.len() == self.shape.book_len()
        &&& self.codes_soa@.len() == self.num_vectors * self.shape.num_sub_vectors
    }

    pub closed spec fn shape(&self) -> PqShape {
        self.shape
    }

    /// The centroids, one behind the other.
    pub closed spec fn codebook(&self) -> Seq<T> {
        self.codebook@
    }

    /// The codes, sub-vector by sub-vector.
    pub closed spec fn codes(&self) -> Seq<u8> {
        self.codes_soa@
    }

    /// The number of stored vectors.
    pub closed spec fn count(&self) -> nat {
        self.num_vectors as nat
    }
}

impl<T: Copy> PqKernel<T> {
    /// Takes a codebook and codes that are given vector by vector.
    pub fn new(shape: PqShape, codebook: &[T], codes_aos: &[u8], num_vectors: usize) -> (r: Self)
        requires
            shape.num_sub_vectors > 0,
            codebook@.len() == shape.book_len(),
            codes_aos@.len() == num_vectors * shape.num_sub_vectors,
        ensures
            r.shape() == shape,
            r.codebook() == codebook@,
            r.codes() == transposed(
                codes_aos@,
                num_vectors as int,
                shape.num_sub_vectors as int,
            ),
            r.count() == num_vectors,
    {
        let codes_soa: Vec<u8> = transpose(codes_aos, num_vectors, shape.num_sub_vectors);
        PqKernel {
            shape,
            codebook: vstd::slice::slice_to_vec(codebook),
            codes_soa,
            num_vectors,
        }
    }

    /// Writes the distance table of a query to `out`.
    pub fn distance_table<P: Fn(T, T) -> T, D: Fn(T, T) -> T>(
        &self,
        query: &[T],
        out: &mut [T],
        arith: &Arithmetic<T, P, D>,
    )
        requires
            self.shape().num_centroids == NUM_CENTROIDS_8BIT,
            self.shape().dim > 0,
            self.shape().dim as int % self.shape().num_sub_vectors as int == 0,
            query@.len() == self.shape().dim,
            old(out)@.len() == self.shape().table_len(),
            arith.is_defined(),
        ensures
            final(out)@.len() == old(out)@.len(),
            is_table(
                *arith,
                self.codebook(),
                self.shape().num_sub_vectors as int,
                query@,
                final(out)@,
            ),
    {
        proof {
            use_type_invariant(self);
        }
        build_distance_table_l2_into(
            self.codebook.as_slice(),
            self.shape.num_sub_vectors,
            query,
            out,
            arith,
        );
    }

    /// Writes the distances of all stored vectors from the query behind the distance table to `out`.
    pub fn compute_distances<P: Fn(T, T) -> T, D: Fn(T, T) -> T>(
        &self,
        table: &[T],
        out: &mut [T],
        arith: &Arithmetic<T, P, D>,
    )
        requires
            self.count() > 0 ==> self.shape().num_centroids >= NUM_CENTROIDS_8BIT,
            table@.len() == self.shape().table_len(),
            old(out)@.len() == self.count(),
            arith.is_defined(),
        ensures
            final(out)@.len() == old(out)@.len(),
            are_distances(
                *arith,
                table@,
                self.shape().num_sub_vectors as nat,
                self.codes(),
                self.count(),
                final(out)@,
            ),
    {
        proof {
            use_type_invariant(self);
            lemma_codes_in_table(self.shape, self.codes_soa@.len(), self.num_vectors as nat);
        }
        compute_pq_distance_into(
            table,
            self.shape.num_sub_vectors,
            self.codes_soa.as_slice(),
            out,
            arith,
        );
    }

    pub fn num_vectors(&self) -> (r: usize)
        ensures
            r == self.count(),
    {
        self.num_vectors
    }
}

} // verus!
