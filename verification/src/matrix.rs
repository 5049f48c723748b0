//! Dense matrices, and partial pivoting.

use crate::base::{default_grid, Grid, MatrixBase, MatrixError};
use crate::number::{
    arith, heavier, is_nan, is_zero, outweighs, reliable, Op, MINUS_HALF, ONE, ZERO,
};
use crate::solver::{
    column_of, copy_rows, grid_of, image, product, rectangular, square, weigh, weighted_sum,
};
use vstd::prelude::*;
use vstd::slice::slice_to_vec;

verus! {

/// The row that the scan of `col` from `from` up to `upto` settles on: it
/// begins with row `from` and moves on to each later row that outweighs the
/// one it holds.
pub open spec fn leader(col: Seq<u64>, from: int, upto: int) -> int
    decreases upto - from,
{
    if upto <= from + 1 {
        from
    } else {
        let best = leader(col, from, upto - 1);
        if outweighs(col[upto - 1], col[best]) {
            upto - 1
        } else {
            best
        }
    }
}

/// The sequence with the items at `i` and `j` exchanged.
pub open spec fn swapped<T>(s: Seq<T>, i: int, j: int) -> Seq<T> {
    s.update(i, s[j]).update(j, s[i])
}

/// The numbers from 0 up to `n`, in order.
pub open spec fn identity(n: nat) -> Seq<int> {
    Seq::new(n, |k: int| k)
}

/// Column `c` of `rows`, read in the order that `order` gives the rows.
pub open spec fn column(rows: Seq<Seq<u64>>, order: Seq<int>, c: int) -> Seq<u64> {
    Seq::new(order.len(), |k: int| rows[order[k]][c])
}

/// The order of the rows after partial pivoting of the columns before
/// `upto`: for each column in turn, the row that leads the column from the
/// diagonal down changes places with the row on the diagonal.
pub open spec fn pivot_order(rows: Seq<Seq<u64>>, upto: int) -> Seq<int>
    decreases upto,
{
    if upto <= 0 {
        identity(rows.len())
    } else {
        let before = pivot_order(rows, upto - 1);
        let best = leader(column(rows, before, upto - 1), upto - 1, rows.len() as int);
        swapped(before, upto - 1, best)
    }
}

/// The items of `s` in the order that `order` gives.
pub open spec fn permuted<T>(s: Seq<T>, order: Seq<int>) -> Seq<T> {
    Seq::new(order.len(), |k: int| s[order[k]])
}

/// Whether `order` holds each number below `n` once.
pub open spec fn is_permutation(order: Seq<int>, n: int) -> bool {
    &&& order.len() == n
    &&& forall|k: int| 0 <= k < n ==> 0 <= #[trigger] order[k] < n
    &&& forall|j: int, k: int| 0 <= j < k < n ==> order[j] != order[k]
}

/// Whether no row below the diagonal outweighs the diagonal in column `c`,
/// the rows taken in the order `order`.
pub open spec fn dominated(rows: Seq<Seq<u64>>, order: Seq<int>, c: int) -> bool {
    forall|k: int|
        c < k < order.len() ==> !outweighs(#[trigger] rows[order[k]][c], rows[order[c]][c])
}

/// The length of the first row, or zero where there is no row.
pub open spec fn width(rows: Seq<Seq<u64>>) -> int {
    if rows.len() > 0 {
        rows[0].len() as int
    } else {
        0
    }
}

/// Whether the product of `a` and `b` is defined: all rows of `b` are as
/// long as each other, and `b` has as many rows as each row of `a` is long.
pub open spec fn multipliable(a: Seq<Seq<u64>>, b: Seq<Seq<u64>>) -> bool {
    rectangular(a, b.len() as int) && rectangular(b, width(b))
}

/// The entry at row `i` and column `j` of the system of a walk on a path of
/// `size` positions: the two ends are absorbing, with a one on the diagonal
/// alone; a position between them has a one on the diagonal and minus one
/// half on either side of it.
pub open spec fn default_entry(size: int, i: int, j: int) -> u64 {
    if j == i {
        ONE
    } else if 0 < i < size - 1 && (j == i - 1 || j == i + 1) {
        MINUS_HALF
    } else {
        ZERO
    }
}

/// In the system of a walk, the diagonal outweighs every other entry of its
/// row.
pub proof fn lemma_default_diagonal_leads(size: int, i: int, j: int)
    requires
        0 <= i < size,
        0 <= j < size,
        i != j,
    ensures
        outweighs(default_entry(size, i, i), default_entry(size, i, j)),
{
    assert(0x3FF0_0000_0000_0000u64 & 0x7FFF_FFFF_FFFF_FFFF == 0x3FF0_0000_0000_0000u64)
        by (bit_vector);
    assert(0xBFE0_0000_0000_0000u64 & 0x7FFF_FFFF_FFFF_FFFF == 0x3FE0_0000_0000_0000u64)
        by (bit_vector);
    assert(0u64 & 0x7FFF_FFFF_FFFF_FFFF == 0u64) by (bit_vector);
}

/// The leader lies in the range that was scanned.
pub proof fn lemma_leader_bounds(col: Seq<u64>, from: int, upto: int)
    requires
        from < upto,
    ensures
        from <= leader(col, from, upto) < upto,
    decreases upto - from,
{
    if upto > from + 1 {
        lemma_leader_bounds(col, from, upto - 1);
    }
}

/// No row of the range that was scanned outweighs the leader.
pub proof fn lemma_leader_dominates(col: Seq<u64>, from: int, upto: int)
    requires
        from < upto,
    ensures
        forall|k: int| from <= k < upto ==> !outweighs(#[trigger] col[k], col[leader(col, from, upto)]),
    decreases upto - from,
{
    if upto > from + 1 {
        lemma_leader_dominates(col, from, upto - 1);
        let best = leader(col, from, upto - 1);
    }
}

/// Ties keep the earliest row: the leader outweighs every number that the
/// scan met before it.
pub proof fn lemma_leader_is_earliest(col: Seq<u64>, from: int, upto: int)
    requires
        from < upto,
    ensures
        forall|k: int|
            from <= k < leader(col, from, upto) ==> is_nan(#[trigger] col[k]) || outweighs(
                col[leader(col, from, upto)],
                col[k],
            ),
    decreases upto - from,
{
    if upto > from + 1 {
        lemma_leader_is_earliest(col, from, upto - 1);
        lemma_leader_dominates(col, from, upto - 1);
        let best = leader(col, from, upto - 1);
    }
}

/// Partial pivoting reorders the rows and neither drops nor repeats one.
pub proof fn lemma_pivot_order_permutes(rows: Seq<Seq<u64>>, upto: int)
    requires
        upto <= rows.len(),
    ensures
        is_permutation(pivot_order(rows, upto), rows.len() as int),
    decreases upto,
{
    if upto > 0 {
        lemma_pivot_order_permutes(rows, upto - 1);
        let before = pivot_order(rows, upto - 1);
        lemma_leader_bounds(column(rows, before, upto - 1), upto - 1, rows.len() as int);
    }
}

/// After partial pivoting, no row below the diagonal outweighs the diagonal
/// in a column that was pivoted.
pub proof fn lemma_pivot_order_dominates(rows: Seq<Seq<u64>>, upto: int, c: int)
    requires
        0 <= c < upto <= rows.len(),
    ensures
        dominated(rows, pivot_order(rows, upto), c),
    decreases upto,
{
    let n = rows.len() as int;
    let before = pivot_order(rows, upto - 1);
    let col = column(rows, before, upto - 1);
    let best = leader(col, upto - 1, n);
    let after = pivot_order(rows, upto);
    lemma_pivot_order_permutes(rows, upto - 1);
    lemma_leader_bounds(col, upto - 1, n);
    if c == upto - 1 {
        lemma_leader_dominates(col, c, n);
        assert forall|k: int| c < k < after.len() implies !outweighs(
            #[trigger] rows[after[k]][c],
            rows[after[c]][c],
        ) by {
            if k == best {
                assert(!outweighs(col[c], col[best]));
            } else {
                assert(!outweighs(col[k], col[best]));
            }
        }
    } else {
        lemma_pivot_order_dominates(rows, upto - 1, c);
    }
}

/// After partial pivoting, a zero on the diagonal of a column has only
/// zeros, or bits of no number, below it: pivoting leaves a zero pivot only
/// where the column has nothing to offer from the diagonal down.
pub proof fn lemma_zero_pivot_heads_zero_column(rows: Seq<Seq<u64>>, c: int, k: int)
    requires
        0 <= c < k < rows.len(),
        is_zero(rows[pivot_order(rows, rows.len() as int)[c]][c]),
    ensures
        ({
            let below = rows[pivot_order(rows, rows.len() as int)[k]][c];
            is_zero(below) || is_nan(below)
        }),
{
    lemma_pivot_order_permutes(rows, rows.len() as int);
    lemma_pivot_order_dominates(rows, rows.len() as int, c);
}

/// A row of `cols` zeros.
fn zeros(cols: usize) -> (row: Vec<u64>)
    ensures
        row.len() == cols,
        forall|j: int| 0 <= j < cols ==> row[j] == ZERO,
{
    let mut row: Vec<u64> = Vec::new();
    let mut j: usize = 0;
    while j < cols
        invariant
            j <= cols,
            row.len() == j,
            forall|k: int| 0 <= k < j ==> row[k] == ZERO,
        decreases cols - j,
    {
        row.push(ZERO);
        j = j + 1;
    }
    row
}

/// A dense matrix: its rows, one after the other. An entry is a binary64
/// number, held as its 64 bits.
#[derive(Clone, Debug, PartialEq, Eq)]
pub struct Matrix {
    pub rows: Vec<Vec<u64>>,
}

impl View for Matrix {
    type V = Seq<Seq<u64>>;

    open spec fn view(&self) -> Seq<Seq<u64>> {
        grid_of(self.rows)
    }
}

impl Matrix {
    /// The matrix without rows.
    pub fn new() -> (m: Matrix)
        ensures
            m@.len() == 0,
    {
        Matrix { rows: Vec::new() }
    }

    /// The matrix of `rows` rows and `cols` columns that holds zeros only.
    pub fn from_size(rows: usize, cols: usize) -> (m: Matrix)
        ensures
            m@.len() == rows,
            forall|i: int| 0 <= i < rows ==> (#[trigger] m@[i]).len() == cols,
            forall|i: int, j: int| 0 <= i < rows && 0 <= j < cols ==> m@[i][j] == ZERO,
    {
        let mut m = Matrix { rows: Vec::new() };
        let mut i: usize = 0;
        while i < rows
            invariant
                i <= rows,
                m.rows.len() == i,
                forall|k: int| 0 <= k < i ==> (#[trigger] m.rows[k]).len() == cols,
                forall|k: int, j: int| 0 <= k < i && 0 <= j < cols ==> m.rows[k][j] == ZERO,
            decreases rows - i,
        {
            m.rows.push(zeros(cols));
            i = i + 1;
        }
        m
    }

    /// The matrix with the rows given.
    pub fn from_vecs(vec_matrix: Vec<Vec<u64>>) -> (m: Matrix)
        ensures
            m.rows == vec_matrix,
    {
        Matrix { rows: vec_matrix }
    }

    /// The system of a walk on a path of `size` positions.
    pub fn init_default_path(size: usize) -> (m: Matrix)
        requires
            size >= 2,
        ensures
            square(m@, size as int),
            forall|i: int, j: int|
                0 <= i < size && 0 <= j < size ==> m@[i][j] == default_entry(size as int, i, j),
    {
        let mut m = Matrix { rows: Vec::new() };
        let mut i: usize = 0;
        while i < size
            invariant
                i <= size,
                size >= 2,
                m.rows.len() == i,
                forall|k: int| 0 <= k < i ==> (#[trigger] m.rows[k]).len() == size,
                forall|k: int, j: int|
                    0 <= k < i && 0 <= j < size ==> m.rows[k][j] == default_entry(
                        size as int,
                        k,
                        j,
                    ),
            decreases size - i,
        {
            let mut row = zeros(size);
            row.set(i, ONE);
            if 0 < i && i < size - 1 {
                row.set(i - 1, MINUS_HALF);
                row.set(i + 1, MINUS_HALF);
            }
            m.rows.push(row);
            i = i + 1;
        }
        m
    }

    /// The sum of the products of the entries of `x` with those of `y`, as
    /// far as the shorter of the two goes, added up one by one from zero.
    pub fn dot_product<F: Fn(Op, u64, u64) -> u64>(x: &[u64], y: &[u64], unit: &F) -> (sum: u64)
        requires
            reliable(*unit),
        ensures
            sum == weighted_sum(
                arith(*unit),
                x@,
                y@,
                if x@.len() <= y@.len() {
                    x@.len() as int
                } else {
                    y@.len() as int
                },
            ),
    {
        let len: usize = if x.len() <= y.len() {
            x.len()
        } else {
            y.len()
        };
        weigh(x, y, len, unit)
    }

    /// Tells whether every row is `cols` long.
    pub fn is_rectangular(&self, cols: usize) -> (ok: bool)
        ensures
            ok == rectangular(self@, cols as int),
    {
        let mut i: usize = 0;
        while i < self.rows.len()
            invariant
                i <= self.rows.len(),
                forall|k: int| 0 <= k < i ==> (#[trigger] self@[k]).len() == cols,
            decreases self.rows.len() - i,
        {
            if self.rows[i].len() != cols {
                assert(self@[i as int].len() != cols);
                return false;
            }
            i = i + 1;
        }
        true
    }

    /// The product with `other`, or `SizeError` where `other` has not as
    /// many rows as this matrix has columns.
    pub fn multiply<F: Fn(Op, u64, u64) -> u64>(&self, other: &Matrix, unit: &F) -> (out: Result<
        Matrix,
        MatrixError,
    >)
        requires
            reliable(*unit),
        ensures
            match out {
                Ok(m) => multipliable(self@, other@) && m@ == product(
                    arith(*unit),
                    self@,
                    other@,
                    width(other@),
                ),
                Err(e) => e == MatrixError::SizeError && !multipliable(self@, other@),
            },
    {
        let cols: usize = if other.rows.len() > 0 {
            other.rows[0].len()
        } else {
            0
        };
        if !self.is_rectangular(other.rows.len()) || !other.is_rectangular(cols) {
            return Err(MatrixError::SizeError);
        }
        let ghost c = arith(*unit);
        // the columns of `other`, each as a vector
        let mut columns: Vec<Vec<u64>> = Vec::new();
        let mut j: usize = 0;
        while j < cols
            invariant
                j <= cols,
                rectangular(other@, cols as int),
                columns.len() == j,
                forall|t: int| 0 <= t < j ==> (#[trigger] columns[t])@ == column_of(other@, t),
            decreases cols - j,
        {
            let mut column: Vec<u64> = Vec::new();
            let mut k: usize = 0;
            while k < other.rows.len()
                invariant
                    k <= other.rows.len(),
                    j < cols,
                    rectangular(other@, cols as int),
                    column.len() == k,
                    forall|t: int| 0 <= t < k ==> column[t] == other@[t][j as int],
                decreases other.rows.len() - k,
            {
                assert(other@[k as int].len() == cols);
                column.push(other.rows[k][j]);
                k = k + 1;
            }
            columns.push(column);
            j = j + 1;
        }
        let mut m = Matrix { rows: Vec::new() };
        let mut i: usize = 0;
        while i < self.rows.len()
            invariant
                i <= self.rows.len(),
                reliable(*unit),
                c == arith(*unit),
                rectangular(self@, other@.len() as int),
                columns.len() == cols,
                forall|t: int| 0 <= t < cols ==> (#[trigger] columns[t])@ == column_of(other@, t),
                m.rows.len() == i,
                forall|r: int|
                    0 <= r < i ==> (#[trigger] m.rows[r])@ == product(c, self@, other@, cols as int)[r],
            decreases self.rows.len() - i,
        {
            let mut row: Vec<u64> = Vec::new();
            let mut j: usize = 0;
            while j < cols
                invariant
                    j <= cols,
                    i < self.rows.len(),
                    reliable(*unit),
                    c == arith(*unit),
                    rectangular(self@, other@.len() as int),
                    columns.len() == cols,
                    forall|t: int|
                        0 <= t < cols ==> (#[trigger] columns[t])@ == column_of(other@, t),
                    row.len() == j,
                    forall|t: int|
                        0 <= t < j ==> row[t] == weighted_sum(
                            c,
                            self@[i as int],
                            column_of(other@, t),
                            other@.len() as int,
                        ),
                decreases cols - j,
            {
                assert(self@[i as int].len() == other@.len());
                row.push(
                    weigh(
                        self.rows[i].as_slice(),
                        columns[j].as_slice(),
                        other.rows.len(),
                        unit,
                    ),
                );
                j = j + 1;
            }
            m.rows.push(row);
            i = i + 1;
        }
        Ok(m)
    }

    /// The product with the vector `x`, or `SizeError` where `x` has not as
    /// many entries as this matrix has columns.
    pub fn multiply_by_vec<F: Fn(Op, u64, u64) -> u64>(&self, x: &Vec<u64>, unit: &F) -> (out:
        Result<Vec<u64>, MatrixError>)
        requires
            reliable(*unit),
        ensures
            match out {
                Ok(y) => rectangular(self@, x.len() as int) && y@ == image(arith(*unit), self@, x@),
                Err(e) => e == MatrixError::SizeError && !rectangular(self@, x.len() as int),
            },
    {
        if !self.is_rectangular(x.len()) {
            return Err(MatrixError::SizeError);
        }
        let mut y: Vec<u64> = Vec::new();
        let mut i: usize = 0;
        while i < self.rows.len()
            invariant
                i <= self.rows.len(),
                reliable(*unit),
                rectangular(self@, x.len() as int),
                y.len() == i,
                forall|r: int| 0 <= r < i ==> y[r] == image(arith(*unit), self@, x@)[r],
            decreases self.rows.len() - i,
        {
            assert(self@[i as int].len() == x.len());
            y.push(weigh(self.rows[i].as_slice(), x.as_slice(), x.len(), unit));
            i = i + 1;
        }
        Ok(y)
    }

    /// Tells whether the matrix is a square of side `n`.
    pub fn is_square(&self, n: usize) -> (ok: bool)
        ensures
            ok == square(self@, n as int),
    {
        if self.rows.len() != n {
            return false;
        }
        let mut i: usize = 0;
        while i < n
            invariant
                i <= n,
                self.rows.len() == n,
                forall|k: int| 0 <= k < i ==> (#[trigger] self@[k]).len() == n,
            decreases n - i,
        {
            if self.rows[i].len() != n {
                assert(self@[i as int].len() != n);
                return false;
            }
            i = i + 1;
        }
        true
    }

    /// The order that partial pivoting gives the rows: for each column in
    /// turn, the row with the largest absolute value from the diagonal down,
    /// the earliest of them on a tie, changes places with the row on the
    /// diagonal.
    pub fn pivot_order(&self) -> (order: Vec<usize>)
        requires
            square(self@, self@.len() as int),
        ensures
            order@.map_values(|k: usize| k as int) == pivot_order(self@, self@.len() as int),
    {
        let n: usize = self.rows.len();
        let mut order: Vec<usize> = Vec::new();
        let mut k: usize = 0;
        while k < n
            invariant
                k <= n,
                order.len() == k,
                forall|j: int| 0 <= j < k ==> order[j] == j,
            decreases n - k,
        {
            order.push(k);
            k = k + 1;
        }
        let mut i: usize = 0;
        while i < n
            invariant
                i <= n,
                n == self.rows.len(),
                square(self@, n as int),
                order.len() == n,
                order@.map_values(|k: usize| k as int) == pivot_order(self@, i as int),
            decreases n - i,
        {
            let ghost before = pivot_order(self@, i as int);
            let ghost col = column(self@, before, i as int);
            proof {
                lemma_pivot_order_permutes(self@, i as int);
            }
            let mut max_row: usize = i;
            let mut k: usize = i + 1;
            while k < n
                invariant
                    i < k <= n,
                    i <= max_row < k,
                    n == self.rows.len(),
                    square(self@, n as int),
                    order.len() == n,
                    order@.map_values(|k: usize| k as int) == before,
                    is_permutation(before, n as int),
                    col == column(self@, before, i as int),
                    max_row == leader(col, i as int, k as int),
                decreases n - k,
            {
                assert(self@[before[k as int]].len() == n);
                if heavier(self.rows[order[k]][i], self.rows[order[max_row]][i]) {
                    max_row = k;
                }
                k = k + 1;
            }
            let at_i: usize = order[i];
            let at_max: usize = order[max_row];
            order.set(i, at_max);
            order.set(max_row, at_i);
            i = i + 1;
        }
        order
    }

    /// Reorders the system by partial pivoting, without solving it: the
    /// rows, and the entries of `b` along with them.
    pub fn partial_pivot(&self, b: &Vec<u64>) -> (out: (Matrix, Vec<u64>))
        requires
            square(self@, b.len() as int),
        ensures
            out.0@ == permuted(self@, pivot_order(self@, b.len() as int)),
            out.1@ == permuted(b@, pivot_order(self@, b.len() as int)),
    {
        let n: usize = b.len();
        let order = self.pivot_order();
        let ghost ord = pivot_order(self@, n as int);
        proof {
            lemma_pivot_order_permutes(self@, n as int);
        }
        let mut a = Matrix { rows: Vec::new() };
        let mut b_new: Vec<u64> = Vec::new();
        let mut i: usize = 0;
        while i < n
            invariant
                i <= n,
                n == b.len(),
                square(self@, n as int),
                order.len() == n,
                order@.map_values(|k: usize| k as int) == ord,
                is_permutation(ord, n as int),
                a.rows.len() == i,
                b_new.len() == i,
                forall|k: int| 0 <= k < i ==> (#[trigger] a.rows[k])@ == self@[ord[k]],
                forall|k: int| 0 <= k < i ==> #[trigger] b_new[k] == b[ord[k]],
            decreases n - i,
        {
            assert(ord[i as int] == order[i as int] as int);
            let from: usize = order[i];
            a.rows.push(slice_to_vec(self.rows[from].as_slice()));
            b_new.push(b[from]);
            i = i + 1;
        }
        (a, b_new)
    }
}

impl Grid for Matrix {
    open spec fn grid(&self, n: int) -> Seq<Seq<u64>> {
        self@
    }

    open spec fn fits(&self, n: int) -> bool {
        square(self@, n)
    }

    proof fn lemma_grid_is_square(&self, n: int) {
    }

    fn entry(&self, n: usize, i: usize, j: usize) -> (value: u64) {
        assert(self@[i as int].len() == n);
        self.rows[i][j]
    }

    fn to_rows(&self, n: usize) -> (rows: Vec<Vec<u64>>) {
        copy_rows(&self.rows)
    }
}

impl MatrixBase for Matrix {
    fn init_default_path(size: usize) -> (m: Matrix) {
        let m = Matrix::init_default_path(size);
        assert(m@ =~~= default_grid(size as int));
        m
    }

    fn partial_pivot(&self, b: &Vec<u64>) -> (out: (Matrix, Vec<u64>)) {
        proof {
            lemma_pivot_order_permutes(self@, b.len() as int);
        }
        Matrix::partial_pivot(self, b)
    }
}

} // verus!
