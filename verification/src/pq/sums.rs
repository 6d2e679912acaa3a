//! What sums are, where order and grouping make no difference.
//!
//! The contracts fix the order of every addition, because additions that round depend on it. In an
//! exact arithmetic they do not, and there a sum is determined by its summands alone.
use vstd::prelude::*;

use crate::pq::distance::lemma_total_same;
use crate::pq::ArithmeticModel;

verus! {

impl<T> ArithmeticModel<T> {
    /// Order and grouping of the summands make no difference, and zero adds nothing.
    pub open spec fn is_exact(self) -> bool {
        &&& forall|a: T, b: T| #[trigger] (self.plus)(a, b) == (self.plus)(b, a)
        &&& forall|a: T, b: T, c: T| #[trigger]
            (self.plus)((self.plus)(a, b), c) == (self.plus)(a, (self.plus)(b, c))
        &&& forall|a: T| #[trigger] (self.plus)(a, self.zero) == a
    }
}

/// The arithmetic of the integers.
pub open spec fn integers() -> ArithmeticModel<int> {
    ArithmeticModel {
        zero: 0,
        plus: |a: int, b: int| a + b,
        squared_difference: |a: int, b: int| (a - b) * (a - b),
    }
}

/// The arithmetic of the integers is exact.
pub proof fn lemma_integers_exact()
    ensures
        integers().is_exact(),
{
}

/// No sum of squared differences of integers is below zero, and it is zero only where the elements are
/// the same.
pub proof fn lemma_integers(n: nat, x: Seq<int>, y: Seq<int>)
    ensures
        integers().total(n, |i: int| integers().term(x[i], y[i])) >= 0,
        integers().total(n, |i: int| integers().term(x[i], y[i])) == 0 <==> forall|i: int|
            0 <= i < n ==> #[trigger] x[i] == y[i],
    decreases n,
{
    let f = |i: int| integers().term(x[i], y[i]);
    if n > 0 {
        let k = (n - 1) as nat;
        lemma_integers(k, x, y);
        let d = x[n - 1] - y[n - 1];
        assert(d * d >= 0 && (d * d == 0 <==> d == 0)) by (nonlinear_arith);
        assert(f(n - 1) == d * d);
        assert(integers().total(n, f) == integers().total(k, f) + d * d);
        if forall|i: int| 0 <= i < k ==> #[trigger] x[i] == y[i] {
            if d == 0 {
                assert forall|i: int| 0 <= i < n implies #[trigger] x[i] == y[i] by {}
            }
        } else {
            let i = choose|i: int| 0 <= i < k && x[i] != y[i];
            assert(x[i] != y[i]);
        }
    }
}

/// The summands from place `from` on.
pub open spec fn later<T>(f: spec_fn(int) -> T, from: int) -> spec_fn(int) -> T {
    |i: int| f(from + i)
}

/// A sum is the sum of its first summands and the sum of the others.
pub proof fn lemma_total_split<T>(m: ArithmeticModel<T>, a: nat, b: nat, f: spec_fn(int) -> T)
    requires
        m.is_exact(),
    ensures
        m.total(a + b, f) == (m.plus)(m.total(a, f), m.total(b, later(f, a as int))),
    decreases b,
{
    if b > 0 {
        let g = later(f, a as int);
        lemma_total_split(m, a, (b - 1) as nat, f);
        assert(g(b - 1) == f(a + b - 1));
        assert((m.plus)((m.plus)(m.total(a, f), m.total((b - 1) as nat, g)), g(b - 1)) == (
        m.plus)(m.total(a, f), (m.plus)(m.total((b - 1) as nat, g), g(b - 1))));
    }
}

/// Zeros add up to zero.
pub proof fn lemma_total_zeros<T>(m: ArithmeticModel<T>, n: nat, f: spec_fn(int) -> T)
    requires
        m.is_exact(),
        forall|i: int| 0 <= i < n ==> #[trigger] f(i) == m.zero,
    ensures
        m.total(n, f) == m.zero,
    decreases n,
{
    if n > 0 {
        lemma_total_zeros(m, (n - 1) as nat, f);
        assert(f(n - 1) == m.zero);
    }
}

/// Each summand counts once: where all summands but the one at place `j` are zero, the sum is that
/// summand.
pub proof fn lemma_total_single<T>(m: ArithmeticModel<T>, n: nat, f: spec_fn(int) -> T, j: int)
    requires
        m.is_exact(),
        0 <= j < n,
        forall|i: int| 0 <= i < n && i != j ==> #[trigger] f(i) == m.zero,
    ensures
        m.total(n, f) == f(j),
    decreases n,
{
    if j == n - 1 {
        lemma_total_zeros(m, (n - 1) as nat, f);
        assert((m.plus)(m.zero, f(j)) == (m.plus)(f(j), m.zero));
    } else {
        lemma_total_single(m, (n - 1) as nat, f, j);
        assert(f(n - 1) == m.zero);
    }
}

/// The summands of two sums, added two by two.
pub open spec fn pairwise<T>(
    m: ArithmeticModel<T>,
    f: spec_fn(int) -> T,
    g: spec_fn(int) -> T,
) -> spec_fn(int) -> T {
    |i: int| (m.plus)(f(i), g(i))
}

/// Two sums can be added summand by summand.
pub proof fn lemma_total_pairwise<T>(
    m: ArithmeticModel<T>,
    n: nat,
    f: spec_fn(int) -> T,
    g: spec_fn(int) -> T,
)
    requires
        m.is_exact(),
    ensures
        m.total(n, pairwise(m, f, g)) == (m.plus)(m.total(n, f), m.total(n, g)),
    decreases n,
{
    if n > 0 {
        let k = (n - 1) as nat;
        lemma_total_pairwise(m, k, f, g);
        lemma_exchange(m, m.total(k, f), m.total(k, g), f(n - 1), g(n - 1));
    }
}

proof fn lemma_exchange<T>(m: ArithmeticModel<T>, a: T, b: T, c: T, d: T)
    requires
        m.is_exact(),
    ensures
        (m.plus)((m.plus)(a, b), (m.plus)(c, d)) == (m.plus)((m.plus)(a, c), (m.plus)(b, d)),
{
    let p = m.plus;
    assert(p(p(a, b), p(c, d)) == p(a, p(b, p(c, d))));
    assert(p(p(b, c), d) == p(b, p(c, d)));
    assert(p(b, c) == p(c, b));
    assert(p(p(c, b), d) == p(c, p(b, d)));
    assert(p(p(a, c), p(b, d)) == p(a, p(c, p(b, d))));
}

/// The sums of the rows of a table of summands.
pub open spec fn row_sums<T>(
    m: ArithmeticModel<T>,
    cols: nat,
    f: spec_fn(int, int) -> T,
) -> spec_fn(int) -> T {
    |r: int| m.total(cols, |c: int| f(r, c))
}

/// The sums of the columns of a table of summands.
pub open spec fn column_sums<T>(
    m: ArithmeticModel<T>,
    rows: nat,
    f: spec_fn(int, int) -> T,
) -> spec_fn(int) -> T {
    |c: int| m.total(rows, |r: int| f(r, c))
}

/// A table of summands can be summed row by row or column by column.
pub proof fn lemma_total_exchange<T>(
    m: ArithmeticModel<T>,
    rows: nat,
    cols: nat,
    f: spec_fn(int, int) -> T,
)
    requires
        m.is_exact(),
    ensures
        m.total(rows, row_sums(m, cols, f)) == m.total(cols, column_sums(m, rows, f)),
    decreases rows,
{
    let columns = column_sums(m, rows, f);
    if rows == 0 {
        assert forall|c: int| 0 <= c < cols implies #[trigger] columns(c) == m.zero by {}
        lemma_total_zeros(m, cols, columns);
    } else {
        let k = (rows - 1) as nat;
        let before = column_sums(m, k, f);
        let last = |c: int| f(rows - 1, c);
        lemma_total_exchange(m, k, cols, f);
        lemma_total_pairwise(m, cols, before, last);
        let both = pairwise(m, before, last);
        assert forall|c: int| 0 <= c < cols implies #[trigger] both(c) == columns(c) by {}
        lemma_total_same(m, cols, both, columns);
    }
}

/// Summands that stand row behind row can be summed row by row.
pub proof fn lemma_total_rows<T>(
    m: ArithmeticModel<T>,
    rows: nat,
    cols: nat,
    f: spec_fn(int) -> T,
)
    requires
        m.is_exact(),
    ensures
        m.total(rows * cols, f) == m.total(
            rows,
            row_sums(m, cols, |r: int, c: int| f(r * cols + c)),
        ),
    decreases rows,
{
    let g = |r: int, c: int| f(r * cols + c);
    let sums = row_sums(m, cols, g);
    if rows == 0 {
        assert(rows * cols == 0) by (nonlinear_arith)
            requires
                rows == 0,
        ;
    } else {
        let k = (rows - 1) as nat;
        lemma_total_rows(m, k, cols, f);
        assert(rows * cols == k * cols + cols) by (nonlinear_arith)
            requires
                rows == k + 1,
        ;
        lemma_total_split(m, k * cols, cols, f);
        let tail = later(f, (k * cols) as int);
        let row = |c: int| g(rows - 1, c);
        assert forall|c: int| 0 <= c < cols implies #[trigger] tail(c) == row(c) by {}
        lemma_total_same(m, cols, tail, row);
        assert(sums(rows - 1) == m.total(cols, row));
    }
}

} // verus!
