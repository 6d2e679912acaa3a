//! Distance tables, and distances to stored codes. Codes have eight bits.
use vstd::prelude::*;

use crate::pq::l2::{l2, l2_f32, lemma_l2, row, LANES};
use crate::pq::matrix::{lemma_cell, transpose_matrix, transposed};
use crate::pq::sums::{lemma_total_rows, row_sums};
use crate::pq::{Arithmetic, ArithmeticModel, PqShape};

verus! {

/// The number of centroids of a sub-vector: one for each code of eight bits.
pub const NUM_CENTROIDS_8BIT: usize = 256;

/// The centroids of one sub-vector, one behind the other.
pub fn get_sub_vector_centroids_8bit<T>(
    codebook: &[T],
    dimension: usize,
    num_sub_vectors: usize,
    sub_vector_idx: usize,
) -> (r: &[T])
    requires
        sub_vector_idx < num_sub_vectors,
        (sub_vector_idx + 1) * NUM_CENTROIDS_8BIT * (dimension / num_sub_vectors)
            <= codebook@.len(),
    ensures
        r@ == codebook@.subrange(
            sub_vector_idx * NUM_CENTROIDS_8BIT * (dimension / num_sub_vectors),
            (sub_vector_idx + 1) * NUM_CENTROIDS_8BIT * (dimension / num_sub_vectors),
        ),
{
    let width: usize = dimension / num_sub_vectors;
    proof {
        let end = (sub_vector_idx + 1) * NUM_CENTROIDS_8BIT * width;
        assert(end <= codebook.len());
        assert(sub_vector_idx * NUM_CENTROIDS_8BIT * width + NUM_CENTROIDS_8BIT * width == end)
            by (nonlinear_arith)
            requires
                end == (sub_vector_idx + 1) * NUM_CENTROIDS_8BIT * width,
        ;
        assert(0 <= sub_vector_idx * NUM_CENTROIDS_8BIT * width) by (nonlinear_arith);
        assert(NUM_CENTROIDS_8BIT * width >= 0);
        if width > 0 {
            assert((sub_vector_idx + 1) * NUM_CENTROIDS_8BIT <= end) by (nonlinear_arith)
                requires
                    end == (sub_vector_idx + 1) * NUM_CENTROIDS_8BIT * width,
                    width > 0,
            ;
        }
    }
    if width == 0 {
        let none: &[T] = &codebook[0..0];
        proof {
            assert(sub_vector_idx * NUM_CENTROIDS_8BIT * width == 0) by (nonlinear_arith)
                requires
                    width == 0,
            ;
            assert((sub_vector_idx + 1) * NUM_CENTROIDS_8BIT * width == 0) by (nonlinear_arith)
                requires
                    width == 0,
            ;
        }
        return none;
    }
    &codebook[sub_vector_idx * NUM_CENTROIDS_8BIT * width..(sub_vector_idx + 1)
        * NUM_CENTROIDS_8BIT * width]
}

/// Stores codes sub-vector by sub-vector that are given vector by vector.
pub fn transpose(original: &[u8], num_vectors: usize, num_sub_vectors: usize) -> (r: Vec<u8>)
    requires
        original@.len() == num_vectors * num_sub_vectors,
    ensures
        r@ == transposed(original@, num_vectors as int, num_sub_vectors as int),
{
    transpose_matrix(original, num_vectors, num_sub_vectors)
}

/// The distance table of a query: entry `256 * i + j` is the squared distance of sub-vector `i` of
/// the query from centroid `j` of that sub-vector.
pub open spec fn distance_table<T>(
    m: ArithmeticModel<T>,
    codebook: Seq<T>,
    num_sub_vectors: int,
    query: Seq<T>,
) -> Seq<T> {
    let width = query.len() as int / num_sub_vectors;
    Seq::new(
        (num_sub_vectors * NUM_CENTROIDS_8BIT) as nat,
        |e: int|
            l2(
                m,
                row(query, width, e / NUM_CENTROIDS_8BIT as int),
                row(codebook, width, e),
                LANES as int,
            ),
    )
}

/// The codebook and the query fit together: the query is cut into sub-vectors evenly, and there are
/// enough centroids.
pub open spec fn fits(codebook_len: nat, num_sub_vectors: nat, query_len: nat) -> bool {
    &&& num_sub_vectors > 0
    &&& query_len > 0
    &&& query_len as int % num_sub_vectors as int == 0
    &&& num_sub_vectors * NUM_CENTROIDS_8BIT * (query_len as int / num_sub_vectors as int)
        <= codebook_len
}

/// The entries before `upto` are those of the distance table, for every model of the arithmetic.
pub open spec fn filled<T: Copy, P: Fn(T, T) -> T, D: Fn(T, T) -> T>(
    arith: Arithmetic<T, P, D>,
    codebook: Seq<T>,
    num_sub_vectors: int,
    query: Seq<T>,
    out: Seq<T>,
    upto: int,
) -> bool {
    forall|m: ArithmeticModel<T>, e: int|
        #![trigger arith.computes(m), out[e]]
        arith.computes(m) && 0 <= e < upto ==> out[e] == distance_table(
            m,
            codebook,
            num_sub_vectors,
            query,
        )[e]
}

/// `table` is the distance table of a query, for every model of the arithmetic.
pub open spec fn is_table<T: Copy, P: Fn(T, T) -> T, D: Fn(T, T) -> T>(
    arith: Arithmetic<T, P, D>,
    codebook: Seq<T>,
    num_sub_vectors: int,
    query: Seq<T>,
    table: Seq<T>,
) -> bool {
    forall|m: ArithmeticModel<T>| #[trigger]
        arith.computes(m) ==> table == distance_table(m, codebook, num_sub_vectors, query)
}

/// Holds sub-vector `i` of the query against its centroids, which gives the entries of the distance
/// table from `i * NUM_CENTROIDS_8BIT` on.
fn fill_row<T: Copy, P: Fn(T, T) -> T, D: Fn(T, T) -> T>(
    codebook: &[T],
    num_sub_vectors: usize,
    query: &[T],
    i: usize,
    out: &mut [T],
    arith: &Arithmetic<T, P, D>,
)
    requires
        fits(codebook@.len(), num_sub_vectors as nat, query@.len()),
        i < num_sub_vectors,
        old(out)@.len() == num_sub_vectors * NUM_CENTROIDS_8BIT,
        arith.is_defined(),
        filled(
            *arith,
            codebook@,
            num_sub_vectors as int,
            query@,
            old(out)@,
            i * NUM_CENTROIDS_8BIT,
        ),
    ensures
        final(out)@.len() == old(out)@.len(),
        filled(
            *arith,
            codebook@,
            num_sub_vectors as int,
            query@,
            final(out)@,
            (i + 1) * NUM_CENTROIDS_8BIT,
        ),
{
    let width: usize = query.len() / num_sub_vectors;
    let ghost c = NUM_CENTROIDS_8BIT as int;
    let ghost n = num_sub_vectors as int;
    let ghost w = width as int;
    proof {
        vstd::arithmetic::div_mod::lemma_fundamental_div_mod(query@.len() as int, n);
        assert(w > 0) by (nonlinear_arith)
            requires
                query@.len() == n * w,
                query@.len() > 0,
                n > 0,
        ;
        assert(i * w >= 0 && (i + 1) * w == i * w + w && (i + 1) * w <= n * w) by (nonlinear_arith)
            requires
                0 <= i < n,
                w > 0,
        ;
        assert((i + 1) * c * w <= n * c * w) by (nonlinear_arith)
            requires
                0 <= i < n,
                w > 0,
                c == 256,
        ;
    }
    let sub_vec: &[T] = &query[i * width..i * width + width];
    let centroids: &[T] = get_sub_vector_centroids_8bit(codebook, query.len(), num_sub_vectors, i);
    proof {
        assert((i + 1) * c * w - i * c * w == c * w) by (nonlinear_arith);
        assert(i * c * w >= 0) by (nonlinear_arith)
            requires
                i >= 0,
                w > 0,
                c == 256,
        ;
        assert(centroids@.len() == c * w);
        assert((i + 1) * c <= n * c) by (nonlinear_arith)
            requires
                0 <= i < n,
                c == 256,
        ;
        assert(row(query@, w, i as int) =~= sub_vec@);
    }
    let len: usize = out.len();
    let row_off: usize = i * NUM_CENTROIDS_8BIT;
    let mut j: usize = 0;
    while j < NUM_CENTROIDS_8BIT
        invariant
            j <= NUM_CENTROIDS_8BIT,
            i < num_sub_vectors,
            n == num_sub_vectors,
            c == NUM_CENTROIDS_8BIT,
            w == width,
            w > 0,
            w == query@.len() as int / n,
            sub_vec@ == row(query@, w, i as int),
            centroids.len() == c * w,
            centroids@ == codebook@.subrange(i * c * w, (i + 1) * c * w),
            0 <= i * c * w <= (i + 1) * c * w <= codebook@.len(),
            row_off == i * c,
            (i + 1) * c <= n * c,
            len == num_sub_vectors * NUM_CENTROIDS_8BIT,
            out@.len() == len,
            arith.is_defined(),
            filled(*arith, codebook@, n, query@, out@, row_off + j),
        decreases NUM_CENTROIDS_8BIT - j,
    {
        let ghost before = out@;
        proof {
            assert((j + 1) * w <= c * w && j * w >= 0 && (j + 1) * w == j * w + w)
                by (nonlinear_arith)
                requires
                    0 <= j < c,
                    w > 0,
            ;
            assert(i * c * w + j * w == (i * c + j) * w) by (nonlinear_arith);
            assert(i * c * w + (j + 1) * w == (i * c + j + 1) * w) by (nonlinear_arith);
            lemma_cell(n, c, i as int, j as int);
        }
        let centroid: &[T] = &centroids[j * width..j * width + width];
        assert(centroid@ =~= row(codebook@, w, i * c + j));
        out[row_off + j] = l2_f32(sub_vec, centroid, arith);
        proof {
            assert forall|m: ArithmeticModel<T>, e: int|
                #![trigger arith.computes(m), out@[e]]
                arith.computes(m) && 0 <= e < row_off + j + 1 implies out@[e] == distance_table(
                m,
                codebook@,
                n,
                query@,
            )[e] by {
                if e < row_off + j {
                    assert(out@[e] == before[e]);
                }
            }
        }
        j += 1;
    }
}

/// Builds the distance table of a query in a buffer. What the buffer held before does not matter.
pub fn build_distance_table_l2_into<T: Copy, P: Fn(T, T) -> T, D: Fn(T, T) -> T>(
    codebook: &[T],
    num_sub_vectors: usize,
    query: &[T],
    out: &mut [T],
    arith: &Arithmetic<T, P, D>,
)
    requires
        fits(codebook@.len(), num_sub_vectors as nat, query@.len()),
        old(out)@.len() == num_sub_vectors * NUM_CENTROIDS_8BIT,
        arith.is_defined(),
    ensures
        final(out)@.len() == old(out)@.len(),
        is_table(*arith, codebook@, num_sub_vectors as int, query@, final(out)@),
{
    let ghost n = num_sub_vectors as int;
    let len: usize = out.len();
    let mut i: usize = 0;
    while i < num_sub_vectors
        invariant
            i <= num_sub_vectors,
            n == num_sub_vectors,
            fits(codebook@.len(), num_sub_vectors as nat, query@.len()),
            arith.is_defined(),
            len == num_sub_vectors * NUM_CENTROIDS_8BIT,
            out@.len() == len,
            filled(*arith, codebook@, n, query@, out@, i * NUM_CENTROIDS_8BIT),
        decreases num_sub_vectors - i,
    {
        fill_row(codebook, num_sub_vectors, query, i, out, arith);
        i += 1;
    }
    proof {
        assert forall|m: ArithmeticModel<T>| #[trigger] arith.computes(m) implies out@
            == distance_table(m, codebook@, n, query@) by {
            assert(out@ =~= distance_table(m, codebook@, n, query@));
        }
    }
}

/// A buffer that holds a value `len` times.
pub(crate) fn buffer<T: Copy>(value: T, len: usize) -> (r: Vec<T>)
    ensures
        r@.len() == len,
        forall|i: int| 0 <= i < len ==> #[trigger] r@[i] == value,
{
    let mut r: Vec<T> = Vec::with_capacity(len);
    while r.len() < len
        invariant
            r@.len() <= len,
            forall|i: int| 0 <= i < r@.len() ==> #[trigger] r@[i] == value,
        decreases len - r@.len(),
    {
        r.push(value);
    }
    r
}

/// Builds the distance table of a query.
pub fn build_distance_table_l2<T: Copy, P: Fn(T, T) -> T, D: Fn(T, T) -> T>(
    codebook: &[T],
    num_sub_vectors: usize,
    query: &[T],
    arith: &Arithmetic<T, P, D>,
) -> (r: Vec<T>)
    requires
        fits(codebook@.len(), num_sub_vectors as nat, query@.len()),
        arith.is_defined(),
    ensures
        r@.len() == num_sub_vectors * NUM_CENTROIDS_8BIT,
        is_table(*arith, codebook@, num_sub_vectors as int, query@, r@),
{
    proof {
        let n = num_sub_vectors as int;
        let w = query@.len() as int / n;
        let c = NUM_CENTROIDS_8BIT as int;
        vstd::arithmetic::div_mod::lemma_fundamental_div_mod(query@.len() as int, n);
        assert(n * c <= n * c * w) by (nonlinear_arith)
            requires
                query@.len() == n * w,
                query@.len() > 0,
                n > 0,
                c == 256,
        ;
        assert(codebook.len() <= usize::MAX);
    }
    let mut r: Vec<T> = buffer(arith.zero, num_sub_vectors * NUM_CENTROIDS_8BIT);
    build_distance_table_l2_into(codebook, num_sub_vectors, query, r.as_mut_slice(), arith);
    r
}

/// Entry `256 * i + j` of a distance table is the squared distance of sub-vector `i` of the
/// query from centroid `j` of that sub-vector; and whatever computes the table, into whatever buffer,
/// gives the same one.
pub proof fn lemma_table<T: Copy, P: Fn(T, T) -> T, D: Fn(T, T) -> T>(
    arith: Arithmetic<T, P, D>,
    m: ArithmeticModel<T>,
    codebook: Seq<T>,
    num_sub_vectors: int,
    query: Seq<T>,
    table: Seq<T>,
    other: Seq<T>,
)
    requires
        num_sub_vectors > 0,
        arith.computes(m),
        is_table(arith, codebook, num_sub_vectors, query, table),
        is_table(arith, codebook, num_sub_vectors, query, other),
    ensures
        table == other,
        forall|i: int, j: int|
            #![trigger table[i * NUM_CENTROIDS_8BIT + j]]
            0 <= i < num_sub_vectors && 0 <= j < NUM_CENTROIDS_8BIT ==> table[i
                * NUM_CENTROIDS_8BIT + j] == l2(
                m,
                row(query, query.len() as int / num_sub_vectors, i),
                row(
                    codebook,
                    query.len() as int / num_sub_vectors,
                    i * NUM_CENTROIDS_8BIT + j,
                ),
                LANES as int,
            ),
{
    let c = NUM_CENTROIDS_8BIT as int;
    assert forall|i: int, j: int|
        #![trigger table[i * NUM_CENTROIDS_8BIT + j]]
        0 <= i < num_sub_vectors && 0 <= j < c implies table[i * c + j] == l2(
        m,
        row(query, query.len() as int / num_sub_vectors, i),
        row(codebook, query.len() as int / num_sub_vectors, i * c + j),
        LANES as int,
    ) by {
        lemma_cell(num_sub_vectors, c, i, j);
    }
}

/// What sub-vector `i` adds to the distance of vector `v`.
pub open spec fn lookup<T>(table: Seq<T>, code: Seq<u8>, num_vectors: int, v: int) -> spec_fn(
    int,
) -> T {
    |i: int| table[i * NUM_CENTROIDS_8BIT + code[i * num_vectors + v]]
}

/// The distances of all vectors, from the distance table and the codes sub-vector by sub-vector.
pub open spec fn pq_distances<T>(
    m: ArithmeticModel<T>,
    table: Seq<T>,
    num_sub_vectors: nat,
    code: Seq<u8>,
    num_vectors: nat,
) -> Seq<T> {
    Seq::new(
        num_vectors,
        |v: int| m.total(num_sub_vectors, lookup(table, code, num_vectors as int, v)),
    )
}

/// `distances` are the distances of all vectors, for every model of the arithmetic.
pub open spec fn are_distances<T: Copy, P: Fn(T, T) -> T, D: Fn(T, T) -> T>(
    arith: Arithmetic<T, P, D>,
    table: Seq<T>,
    num_sub_vectors: nat,
    code: Seq<u8>,
    num_vectors: nat,
    distances: Seq<T>,
) -> bool {
    forall|m: ArithmeticModel<T>| #[trigger]
        arith.computes(m) ==> distances == pq_distances(
            m,
            table,
            num_sub_vectors,
            code,
            num_vectors,
        )
}

/// The distance of a vector is the sum, over all sub-vectors in order, of the table entries that its
/// codes select, the codes being given sub-vector by sub-vector.
pub proof fn lemma_distance_from_codes<T>(
    m: ArithmeticModel<T>,
    table: Seq<T>,
    num_sub_vectors: nat,
    code: Seq<u8>,
    num_vectors: nat,
    v: int,
)
    requires
        0 <= v < num_vectors,
    ensures
        pq_distances(m, table, num_sub_vectors, code, num_vectors).len() == num_vectors,
        pq_distances(m, table, num_sub_vectors, code, num_vectors)[v] == m.total(
            num_sub_vectors,
            |i: int| table[256 * i + code[i * num_vectors + v]],
        ),
{
    let f = lookup(table, code, num_vectors as int, v);
    let g = |i: int| table[256 * i + code[i * num_vectors + v]];
    assert forall|i: int| 0 <= i < num_sub_vectors implies #[trigger] f(i) == g(i) by {}
    lemma_total_same(m, num_sub_vectors, f, g);
}

/// Whatever computes the distances, into whatever buffer, gives the same ones: nothing of what the
/// buffer held before is left.
pub proof fn lemma_distances<T: Copy, P: Fn(T, T) -> T, D: Fn(T, T) -> T>(
    arith: Arithmetic<T, P, D>,
    m: ArithmeticModel<T>,
    table: Seq<T>,
    num_sub_vectors: nat,
    code: Seq<u8>,
    num_vectors: nat,
    distances: Seq<T>,
    other: Seq<T>,
)
    requires
        arith.computes(m),
        are_distances(arith, table, num_sub_vectors, code, num_vectors, distances),
        are_distances(arith, table, num_sub_vectors, code, num_vectors, other),
    ensures
        distances == other,
        distances.len() == num_vectors,
{
}

/// Where vectors are stored there are codes, and the distance table has an entry for each code.
pub proof fn lemma_codes_in_table(shape: PqShape, num_codes: nat, num_vectors: nat)
    requires
        shape.num_sub_vectors > 0,
        num_codes == num_vectors * shape.num_sub_vectors,
        num_vectors > 0 ==> shape.num_centroids >= NUM_CENTROIDS_8BIT,
    ensures
        num_codes > 0 <==> num_vectors > 0,
        num_vectors > 0 ==> shape.table_len() >= shape.num_sub_vectors * NUM_CENTROIDS_8BIT,
{
    let n = shape.num_sub_vectors as int;
    let c = shape.num_centroids as int;
    assert(num_vectors * n > 0 <==> num_vectors > 0) by (nonlinear_arith)
        requires
            n > 0,
    ;
    assert(num_vectors > 0 ==> n * c >= n * NUM_CENTROIDS_8BIT) by (nonlinear_arith)
        requires
            n > 0,
            num_vectors > 0 ==> c >= NUM_CENTROIDS_8BIT,
    ;
}

/// Writes the distances of all vectors to a buffer. Without codes, the buffer stays as it is.
pub fn compute_pq_distance_into<T: Copy, P: Fn(T, T) -> T, D: Fn(T, T) -> T>(
    distance_table: &[T],
    num_sub_vectors: usize,
    code: &[u8],
    distances: &mut [T],
    arith: &Arithmetic<T, P, D>,
)
    requires
        code@.len() > 0 ==> code@.len() == old(distances)@.len() * num_sub_vectors
            && distance_table@.len() >= num_sub_vectors * NUM_CENTROIDS_8BIT,
        arith.is_defined(),
    ensures
        final(distances)@.len() == old(distances)@.len(),
        code@.len() == 0 ==> final(distances)@ == old(distances)@,
        code@.len() > 0 || old(distances)@.len() == 0 ==> are_distances(
            *arith,
            distance_table@,
            num_sub_vectors as nat,
            code@,
            old(distances)@.len(),
            final(distances)@,
        ),
{
    if code.len() == 0 {
        proof {
            assert forall|m: ArithmeticModel<T>|
                distances@.len() == 0 && #[trigger] arith.computes(m) implies distances@
                == pq_distances(m, distance_table@, num_sub_vectors as nat, code@, 0) by {
                assert(distances@ =~= pq_distances(
                    m,
                    distance_table@,
                    num_sub_vectors as nat,
                    code@,
                    0,
                ));
            }
        }
        return;
    }
    let n: usize = distances.len();
    let mut v: usize = 0;
    while v < n
        invariant
            v <= n,
            n == distances@.len(),
            forall|u: int| 0 <= u < v ==> #[trigger] distances@[u] == arith.zero,
        decreases n - v,
    {
        distances[v] = arith.zero;
        v += 1;
    }
    proof {
        assert forall|m: ArithmeticModel<T>| #[trigger] arith.computes(m) implies distances@
            == pq_distances(m, distance_table@, 0, code@, n as nat) by {
            assert(distances@ =~= pq_distances(m, distance_table@, 0, code@, n as nat));
        }
    }
    let mut i: usize = 0;
    while i < num_sub_vectors
        invariant
            i <= num_sub_vectors,
            arith.is_defined(),
            n == distances@.len(),
            code.len() == n * num_sub_vectors,
            distance_table.len() >= num_sub_vectors * NUM_CENTROIDS_8BIT,
            forall|m: ArithmeticModel<T>| #[trigger]
                arith.computes(m) ==> distances@ == pq_distances(
                    m,
                    distance_table@,
                    i as nat,
                    code@,
                    n as nat,
                ),
        decreases num_sub_vectors - i,
    {
        let ghost before = distances@;
        let mut v: usize = 0;
        while v < n
            invariant
                v <= n,
                i < num_sub_vectors,
                arith.is_defined(),
                n == distances@.len(),
                n == before.len(),
                code.len() == n * num_sub_vectors,
                distance_table.len() >= num_sub_vectors * NUM_CENTROIDS_8BIT,
                forall|m: ArithmeticModel<T>| #[trigger]
                    arith.computes(m) ==> before == pq_distances(
                        m,
                        distance_table@,
                        i as nat,
                        code@,
                        n as nat,
                    ),
                forall|m: ArithmeticModel<T>, u: int|
                    #![trigger arith.computes(m), distances@[u]]
                    arith.computes(m) && 0 <= u < v ==> distances@[u] == pq_distances(
                        m,
                        distance_table@,
                        (i + 1) as nat,
                        code@,
                        n as nat,
                    )[u],
                forall|u: int| v <= u < n ==> #[trigger] distances@[u] == before[u],
            decreases n - v,
        {
            proof {
                lemma_cell(num_sub_vectors as int, n as int, i as int, v as int);
                assert(num_sub_vectors * n == n * num_sub_vectors) by (nonlinear_arith);
                assert(i * n >= 0) by (nonlinear_arith);
                assert((i + 1) * NUM_CENTROIDS_8BIT <= num_sub_vectors * NUM_CENTROIDS_8BIT);
            }
            let centroid: usize = code[i * n + v] as usize;
            let entry: T = distance_table[i * NUM_CENTROIDS_8BIT + centroid];
            let sum: T = arith.add_to(distances[v], entry);
            distances[v] = sum;
            v += 1;
        }
        i += 1;
        proof {
            assert forall|m: ArithmeticModel<T>| #[trigger] arith.computes(m) implies distances@
                == pq_distances(m, distance_table@, i as nat, code@, n as nat) by {
                assert(distances@ =~= pq_distances(
                    m,
                    distance_table@,
                    i as nat,
                    code@,
                    n as nat,
                ));
            }
        }
    }
}

/// The distances of all vectors.
pub fn compute_pq_distance<T: Copy, P: Fn(T, T) -> T, D: Fn(T, T) -> T>(
    distance_table: &[T],
    num_sub_vectors: usize,
    code: &[u8],
    arith: &Arithmetic<T, P, D>,
) -> (r: Vec<T>)
    requires
        code@.len() > 0 ==> num_sub_vectors > 0 && code@.len() as int % num_sub_vectors as int == 0
            && distance_table@.len() >= num_sub_vectors * NUM_CENTROIDS_8BIT,
        arith.is_defined(),
    ensures
        code@.len() == 0 ==> r@.len() == 0,
        code@.len() > 0 ==> r@.len() == code@.len() as int / num_sub_vectors as int,
        code@.len() > 0 ==> are_distances(
            *arith,
            distance_table@,
            num_sub_vectors as nat,
            code@,
            (code@.len() as int / num_sub_vectors as int) as nat,
            r@,
        ),
{
    if code.len() == 0 {
        return Vec::new();
    }
    let num_vectors: usize = code.len() / num_sub_vectors;
    let mut distances: Vec<T> = buffer(arith.zero, num_vectors);
    proof {
        vstd::arithmetic::div_mod::lemma_fundamental_div_mod(
            code@.len() as int,
            num_sub_vectors as int,
        );
        assert(num_vectors * num_sub_vectors == num_sub_vectors * num_vectors) by (nonlinear_arith);
    }
    compute_pq_distance_into(
        distance_table,
        num_sub_vectors,
        code,
        distances.as_mut_slice(),
        arith,
    );
    distances
}

/// The summands of a distance of vector `v`, from codes that are given vector by vector.
pub open spec fn own_lookup<T>(
    table: Seq<T>,
    codes_aos: Seq<u8>,
    num_sub_vectors: int,
    v: int,
) -> spec_fn(int) -> T {
    |i: int| table[i * NUM_CENTROIDS_8BIT + codes_aos[v * num_sub_vectors + i]]
}

/// Sums of the same summands are the same.
pub proof fn lemma_total_same<T>(
    m: ArithmeticModel<T>,
    n: nat,
    f: spec_fn(int) -> T,
    g: spec_fn(int) -> T,
)
    requires
        forall|i: int| 0 <= i < n ==> #[trigger] f(i) == g(i),
    ensures
        m.total(n, f) == m.total(n, g),
    decreases n,
{
    if n > 0 {
        lemma_total_same(m, (n - 1) as nat, f, g);
        assert(f(n - 1) == g(n - 1));
    }
}

/// The distance of a vector is the sum, over its sub-vectors, of the table entries that its own codes
/// select.
pub proof fn lemma_distance_of_vector<T>(
    m: ArithmeticModel<T>,
    table: Seq<T>,
    codes_aos: Seq<u8>,
    num_vectors: nat,
    num_sub_vectors: nat,
    v: int,
)
    requires
        codes_aos.len() == num_vectors * num_sub_vectors,
        0 <= v < num_vectors,
    ensures
        pq_distances(
            m,
            table,
            num_sub_vectors,
            transposed(codes_aos, num_vectors as int, num_sub_vectors as int),
            num_vectors,
        )[v] == m.total(
            num_sub_vectors,
            own_lookup(table, codes_aos, num_sub_vectors as int, v),
        ),
{
    let soa = transposed(codes_aos, num_vectors as int, num_sub_vectors as int);
    let f = lookup(table, soa, num_vectors as int, v);
    let g = own_lookup(table, codes_aos, num_sub_vectors as int, v);
    assert forall|i: int| 0 <= i < num_sub_vectors implies #[trigger] f(i) == g(i) by {
        lemma_cell(num_sub_vectors as int, num_vectors as int, i, v);
        assert(num_sub_vectors * num_vectors == num_vectors * num_sub_vectors) by (nonlinear_arith);
    }
    lemma_total_same(m, num_sub_vectors, f, g);
}

/// The vector that the codes of vector `v` stand for: behind one another, the centroids that they
/// name. The codes are given vector by vector.
pub open spec fn decoded<T>(
    codebook: Seq<T>,
    codes_aos: Seq<u8>,
    num_sub_vectors: int,
    width: int,
    v: int,
) -> Seq<T> {
    Seq::new(
        (num_sub_vectors * width) as nat,
        |d: int|
            codebook[((d / width) * NUM_CENTROIDS_8BIT + codes_aos[v * num_sub_vectors + d
                / width]) * width + d % width],
    )
}

/// Element `d` of sub-vector `i` of a decoded vector is element `d` of the centroid that code `i`
/// names.
pub proof fn lemma_decoded<T>(
    codebook: Seq<T>,
    codes_aos: Seq<u8>,
    num_sub_vectors: int,
    width: int,
    v: int,
    i: int,
    d: int,
)
    requires
        0 <= i < num_sub_vectors,
        0 <= d < width,
    ensures
        0 <= i * width + d < decoded(codebook, codes_aos, num_sub_vectors, width, v).len(),
        decoded(codebook, codes_aos, num_sub_vectors, width, v)[i * width + d] == codebook[(i
            * NUM_CENTROIDS_8BIT + codes_aos[v * num_sub_vectors + i]) * width + d],
{
    lemma_cell(num_sub_vectors, width, i, d);
}

/// Where order and grouping of the summands make no difference, an entry of a distance table is the
/// sum of the squared differences of the elements of the sub-vector and of the centroid.
pub proof fn lemma_table_entry<T>(
    m: ArithmeticModel<T>,
    codebook: Seq<T>,
    num_sub_vectors: int,
    query: Seq<T>,
    width: int,
    i: int,
    j: int,
)
    requires
        m.is_exact(),
        width > 0,
        query.len() == num_sub_vectors * width,
        codebook.len() >= num_sub_vectors * NUM_CENTROIDS_8BIT * width,
        0 <= i < num_sub_vectors,
        0 <= j < NUM_CENTROIDS_8BIT,
    ensures
        distance_table(m, codebook, num_sub_vectors, query).len() == num_sub_vectors
            * NUM_CENTROIDS_8BIT,
        distance_table(m, codebook, num_sub_vectors, query)[i * NUM_CENTROIDS_8BIT + j] == m.total(
            width as nat,
            |d: int|
                m.term(query[i * width + d], codebook[(i * NUM_CENTROIDS_8BIT + j) * width + d]),
        ),
{
    let c = NUM_CENTROIDS_8BIT as int;
    let e = i * c + j;
    assert(num_sub_vectors * width == width * num_sub_vectors) by (nonlinear_arith);
    vstd::arithmetic::div_mod::lemma_fundamental_div_mod_converse(
        query.len() as int,
        num_sub_vectors,
        width,
        0,
    );
    lemma_cell(num_sub_vectors, c, i, j);
    lemma_cell(num_sub_vectors * c, width, e, 0);
    lemma_cell(num_sub_vectors * c, width, e, width - 1);
    lemma_cell(num_sub_vectors, width, i, 0);
    lemma_cell(num_sub_vectors, width, i, width - 1);
    assert((i + 1) * width == i * width + width) by (nonlinear_arith);
    assert((e + 1) * width == e * width + width) by (nonlinear_arith);
    let x = row(query, width, i);
    let y = row(codebook, width, e);
    assert(x.len() == width && y.len() == width);
    lemma_l2(m, x, y, LANES as int);
    let f = |d: int| m.term(x[d], y[d]);
    let g = |d: int|
        m.term(query[i * width + d], codebook[(i * NUM_CENTROIDS_8BIT + j) * width + d]);
    assert forall|d: int| 0 <= d < width implies #[trigger] f(d) == g(d) by {
        assert(x[d] == query[i * width + d]);
        assert(y[d] == codebook[e * width + d]);
    }
    lemma_total_same(m, width as nat, f, g);
}

/// What the distances are: where order and grouping of the summands make no difference, the distance
/// that the table and the codes of a stored vector give is the squared distance of the query from the
/// vector that the codes stand for.
pub proof fn lemma_distance_to_decoded<T>(
    m: ArithmeticModel<T>,
    codebook: Seq<T>,
    codes_aos: Seq<u8>,
    num_vectors: nat,
    num_sub_vectors: nat,
    query: Seq<T>,
    width: int,
    v: int,
)
    requires
        m.is_exact(),
        width > 0,
        num_sub_vectors > 0,
        query.len() == num_sub_vectors * width,
        codebook.len() >= num_sub_vectors * NUM_CENTROIDS_8BIT * width,
        codes_aos.len() == num_vectors * num_sub_vectors,
        0 <= v < num_vectors,
    ensures
        pq_distances(
            m,
            distance_table(m, codebook, num_sub_vectors as int, query),
            num_sub_vectors,
            transposed(codes_aos, num_vectors as int, num_sub_vectors as int),
            num_vectors,
        )[v] == m.total(
            query.len(),
            |d: int|
                m.term(
                    query[d],
                    decoded(codebook, codes_aos, num_sub_vectors as int, width, v)[d],
                ),
        ),
{
    let n = num_sub_vectors as int;
    let c = NUM_CENTROIDS_8BIT as int;
    let table = distance_table(m, codebook, n, query);
    let vector = decoded(codebook, codes_aos, n, width, v);
    let f = |d: int|
        m.term(query[d], decoded(codebook, codes_aos, num_sub_vectors as int, width, v)[d]);
    lemma_distance_of_vector(m, table, codes_aos, num_vectors, num_sub_vectors, v);
    lemma_total_rows(m, num_sub_vectors, width as nat, f);
    assert(num_sub_vectors * (width as nat) == query.len());
    let entries = own_lookup(table, codes_aos, n, v);
    let by_row = |r: int, d: int| f(r * (width as nat) + d);
    let sums = row_sums(m, width as nat, by_row);
    assert forall|i: int| 0 <= i < n implies #[trigger] entries(i) == sums(i) by {
        let j = codes_aos[v * n + i] as int;
        lemma_table_entry(m, codebook, n, query, width, i, j);
        let a = |d: int|
            m.term(query[i * width + d], codebook[(i * NUM_CENTROIDS_8BIT + j) * width + d]);
        let b = |d: int| by_row(i, d);
        assert forall|d: int| 0 <= d < width implies #[trigger] a(d) == b(d) by {
            lemma_decoded(codebook, codes_aos, n, width, v, i, d);
        }
        lemma_total_same(m, width as nat, a, b);
    }
    lemma_total_same(m, num_sub_vectors, entries, sums);
}

} // verus!
