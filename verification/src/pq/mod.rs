//! Distances to vectors that are stored as product-quantization codes.
//!
//! A vector is cut into sub-vectors, and each sub-vector is stored as the number of the nearest of
//! 256 centroids. A query is held against the centroids once, which gives a table of distances, and
//! the distance to a stored vector is the sum of the entries that its codes select.
//!
//! The arithmetic is a parameter. The contracts hold for every mathematical model of it, and fix each
//! operation and its place in the order of operations.
use vstd::prelude::*;

use crate::functions::{accepts_all_pairs, computes_pairs};

pub mod distance;
pub mod experiment;
pub mod inputs;
pub mod kernels;
pub mod l2;
pub mod matrix;
pub mod reference;
pub mod sums;
pub mod topk;

verus! {

/// The arithmetic of distances: the neutral element, addition, and the squared difference.
#[verifier::reject_recursive_types(T)]
pub struct Arithmetic<T, P: Fn(T, T) -> T, D: Fn(T, T) -> T> {
    pub zero: T,
    pub plus: P,
    pub squared_difference: D,
}

/// An arithmetic as a mathematical object.
#[verifier::reject_recursive_types(T)]
pub struct ArithmeticModel<T> {
    pub zero: T,
    pub plus: spec_fn(T, T) -> T,
    pub squared_difference: spec_fn(T, T) -> T,
}

impl<T> ArithmeticModel<T> {
    /// Zero, and to it added `f(0)`, `f(1)` and so on, up to `n` summands, one after the other.
    pub open spec fn total(self, n: nat, f: spec_fn(int) -> T) -> T
        decreases n,
    {
        if n == 0 {
            self.zero
        } else {
            (self.plus)(self.total((n - 1) as nat, f), f(n - 1))
        }
    }

    /// The squared difference of two values.
    pub open spec fn term(self, a: T, b: T) -> T {
        (self.squared_difference)(a, b)
    }
}

impl<T: Copy, P: Fn(T, T) -> T, D: Fn(T, T) -> T> Arithmetic<T, P, D> {
    /// Both operations can be applied to all values.
    pub open spec fn is_defined(&self) -> bool {
        &&& accepts_all_pairs(self.plus)
        &&& accepts_all_pairs(self.squared_difference)
    }

    /// The operations give what the model says.
    pub open spec fn computes(&self, model: ArithmeticModel<T>) -> bool {
        &&& self.zero == model.zero
        &&& computes_pairs(self.plus, model.plus)
        &&& computes_pairs(self.squared_difference, model.squared_difference)
    }

    pub(crate) fn add_to(&self, a: T, b: T) -> (r: T)
        requires
            self.is_defined(),
        ensures
            forall|m: ArithmeticModel<T>| #[trigger] self.computes(m) ==> r == (m.plus)(a, b),
    {
        (self.plus)(a, b)
    }

    pub(crate) fn term_of(&self, a: T, b: T) -> (r: T)
        requires
            self.is_defined(),
        ensures
            forall|m: ArithmeticModel<T>| #[trigger] self.computes(m) ==> r == m.term(a, b),
    {
        (self.squared_difference)(a, b)
    }
}

/// The geometry of the quantization: the dimension of the vectors, the number of sub-vectors and the
/// number of centroids of each. The dimension should be a multiple of the number of sub-vectors.
#[derive(Clone, Copy, Debug, PartialEq, Eq, Hash, Structural)]
pub struct PqShape {
    pub dim: usize,
    pub num_sub_vectors: usize,
    pub num_centroids: usize,
}

impl PqShape {
    /// The number of elements of a sub-vector.
    pub open spec fn width(self) -> int {
        self.dim as int / self.num_sub_vectors as int
    }

    /// The number of entries of a distance table.
    pub open spec fn table_len(self) -> int {
        self.num_sub_vectors * self.num_centroids
    }

    /// The number of elements of all centroids.
    pub open spec fn book_len(self) -> int {
        self.num_sub_vectors * self.num_centroids * self.width()
    }

    pub fn new(dim: usize, num_sub_vectors: usize, num_centroids: usize) -> (r: Self)
        ensures
            r == (PqShape { dim, num_sub_vectors, num_centroids }),
    {
        PqShape { dim, num_sub_vectors, num_centroids }
    }

    /// The number of elements of a sub-vector.
    pub fn sub_vector_dim(&self) -> (r: usize)
        requires
            self.num_sub_vectors > 0,
        ensures
            r == self.width(),
            r * self.num_sub_vectors <= self.dim < (r + 1) * self.num_sub_vectors,
    {
        proof {
            let n = self.num_sub_vectors as int;
            let w = self.dim as int / n;
            assert(w * n <= self.dim < (w + 1) * n) by (nonlinear_arith)
                requires
                    n > 0,
                    w == self.dim as int / n,
            ;
        }
        self.dim / self.num_sub_vectors
    }

    /// The number of entries of a distance table.
    pub fn distance_table_len(&self) -> (r: usize)
        requires
            self.table_len() <= usize::MAX,
        ensures
            r == self.table_len(),
            r == self.num_sub_vectors * self.num_centroids,
    {
        self.num_sub_vectors * self.num_centroids
    }

    /// The number of elements of all centroids.
    pub fn codebook_len(&self) -> (r: usize)
        requires
            self.num_sub_vectors > 0,
            self.table_len() <= usize::MAX,
            self.book_len() <= usize::MAX,
        ensures
            r == self.book_len(),
            r == self.num_sub_vectors * self.num_centroids * (self.dim as int
                / self.num_sub_vectors as int),
    {
        proof {
            assert(self.book_len() >= 0) by (nonlinear_arith)
                requires
                    self.book_len() == self.num_sub_vectors * self.num_centroids * self.width(),
                    self.width() >= 0,
            ;
        }
        self.num_sub_vectors * self.num_centroids * self.sub_vector_dim()
    }
}

} // verus!
