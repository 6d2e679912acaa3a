//! Matrices that are stored row by row.
use vstd::arithmetic::div_mod::{
    lemma_fundamental_div_mod, lemma_fundamental_div_mod_converse, lemma_mod_bound,
};
use vstd::prelude::*;

verus! {

/// The matrix of `rows` rows and `cols` columns, stored column by column instead.
pub open spec fn transposed<T>(s: Seq<T>, rows: int, cols: int) -> Seq<T> {
    Seq::new(s.len(), |k: int| s[(k % rows) * cols + k / rows])
}

/// A cell of a matrix has a place of its own.
pub proof fn lemma_cell(rows: int, cols: int, i: int, j: int)
    requires
        0 <= i < rows,
        0 <= j < cols,
    ensures
        0 <= i * cols + j < rows * cols,
        (i * cols + j) / cols == i,
        (i * cols + j) % cols == j,
{
    assert(0 <= i * cols + j < rows * cols) by (nonlinear_arith)
        requires
            0 <= i < rows,
            0 <= j < cols,
    ;
    lemma_fundamental_div_mod_converse(i * cols + j, cols, i, j);
}

/// Every place of a matrix is that of a cell.
pub proof fn lemma_place(rows: int, cols: int, k: int)
    requires
        0 < cols,
        0 <= k < rows * cols,
    ensures
        0 <= k / cols < rows,
        0 <= k % cols < cols,
        k == (k / cols) * cols + k % cols,
{
    lemma_fundamental_div_mod(k, cols);
    lemma_mod_bound(k, cols);
    assert(cols * (k / cols) == (k / cols) * cols) by (nonlinear_arith);
    assert(k / cols >= 0 && k / cols < rows) by (nonlinear_arith)
        requires
            0 < cols,
            0 <= k < rows * cols,
            k == (k / cols) * cols + k % cols,
            0 <= k % cols < cols,
    ;
}

/// Every cell is kept: what stands in row `i` and column `j` of a matrix stands in row `j` and column
/// `i` of the transposed one.
pub proof fn lemma_transposed<T>(s: Seq<T>, rows: int, cols: int, i: int, j: int)
    requires
        s.len() == rows * cols,
        0 <= i < rows,
        0 <= j < cols,
    ensures
        transposed(s, rows, cols).len() == s.len(),
        transposed(s, rows, cols)[j * rows + i] == s[i * cols + j],
{
    lemma_cell(cols, rows, j, i);
    assert(rows * cols == cols * rows) by (nonlinear_arith);
}

/// Transposing twice, with the dimensions exchanged, restores the matrix.
pub proof fn lemma_transpose_twice<T>(s: Seq<T>, rows: int, cols: int)
    requires
        0 <= rows,
        0 <= cols,
        s.len() == rows * cols,
    ensures
        transposed(transposed(s, rows, cols), cols, rows) == s,
{
    let t = transposed(s, rows, cols);
    let u = transposed(t, cols, rows);
    assert forall|k: int| 0 <= k < s.len() implies u[k] == s[k] by {
        assert(0 < rows && 0 < cols) by (nonlinear_arith)
            requires
                0 <= rows,
                0 <= cols,
                0 <= k < rows * cols,
        ;
        lemma_place(rows, cols, k);
        let i = k / cols;
        let j = k % cols;
        lemma_cell(cols, rows, j, i);
        assert(rows * cols == cols * rows) by (nonlinear_arith);
        assert(u[k] == t[j * rows + i]);
        assert(t[j * rows + i] == s[i * cols + j]);
    }
    assert(u =~= s);
}

/// Stores a matrix of `rows` rows and `cols` columns column by column.
pub fn transpose_matrix<T: Copy>(s: &[T], rows: usize, cols: usize) -> (r: Vec<T>)
    requires
        s@.len() == rows * cols,
    ensures
        r@ == transposed(s@, rows as int, cols as int),
{
    let mut r: Vec<T> = Vec::with_capacity(s.len());
    let mut j: usize = 0;
    while j < cols
        invariant
            j <= cols,
            s.len() == rows * cols,
            r@.len() == j * rows,
            r@ == transposed(s@, rows as int, cols as int).take(j * rows),
            j * rows <= s.len(),
        decreases cols - j,
    {
        proof {
            assert((j + 1) * rows == j * rows + rows) by (nonlinear_arith);
            assert((j + 1) * rows <= rows * cols) by (nonlinear_arith)
                requires
                    0 <= j < cols,
                    0 <= rows,
            ;
        }
        let mut i: usize = 0;
        while i < rows
            invariant
                i <= rows,
                j < cols,
                s.len() == rows * cols,
                j * rows + rows <= s.len(),
                r@.len() == j * rows + i,
                r@ == transposed(s@, rows as int, cols as int).take(j * rows + i),
            decreases rows - i,
        {
            proof {
                lemma_cell(cols as int, rows as int, j as int, i as int);
                lemma_cell(rows as int, cols as int, i as int, j as int);
                assert(0 <= i * cols) by (nonlinear_arith);
            }
            r.push(s[i * cols + j]);
            i += 1;
            assert(r@ =~= transposed(s@, rows as int, cols as int).take(j * rows + i));
        }
        j += 1;
    }
    proof {
        assert(cols * rows == rows * cols) by (nonlinear_arith);
        assert(r@ =~= transposed(s@, rows as int, cols as int));
    }
    r
}

} // verus!
