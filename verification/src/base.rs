//! What the dense and the sparse form of a matrix have in common.

use crate::matrix::{default_entry, lemma_pivot_order_permutes, permuted, pivot_order};
use crate::number::{arith, reliable, Op};
use crate::solver::{
    agrees, gaussian_rows, grid_of, jacobi_on, jacobi_run, seidel_on, seidel_run, solved, square,
};
use vstd::prelude::*;

verus! {

/// The ways in which a matrix operation can fail.
#[derive(Debug, Clone, Copy, PartialEq, Eq, Structural)]
pub enum MatrixError {
    /// The dimensions of the operands do not fit together.
    SizeError,
    /// Elimination met a diagonal entry that is exactly zero.
    ZeroPivotError,
    /// Back-substitution produced a value that is not a number.
    Unsolvable,
}

impl MatrixError {
    /// The line of text that describes the failure, newline included.
    pub open spec fn message_text(self) -> Seq<char> {
        match self {
            MatrixError::SizeError => "invalid matrix size\n"@,
            MatrixError::ZeroPivotError => "zero pivot - partial pivoting is required\n"@,
            MatrixError::Unsolvable => "system has no finite solution\n"@,
        }
    }

    /// Renders the failure as a line of text.
    pub fn message(&self) -> (text: String)
        ensures
            text@ == self.message_text(),
    {
        match self {
            MatrixError::SizeError => "invalid matrix size\n".to_string(),
            MatrixError::ZeroPivotError => "zero pivot - partial pivoting is required\n".to_string(),
            MatrixError::Unsolvable => "system has no finite solution\n".to_string(),
        }
    }
}

/// The system of a walk on a path of `size` positions, written out.
pub open spec fn default_grid(size: int) -> Seq<Seq<u64>> {
    Seq::new(size as nat, |i: int| Seq::new(size as nat, |j: int| default_entry(size, i, j)))
}

/// A matrix that can be read as a square of numbers, whatever the form it
/// is held in.
pub trait Grid: Sized {
    /// The square of side `n` that the matrix holds.
    spec fn grid(&self, n: int) -> Seq<Seq<u64>>;

    /// Whether the matrix can stand in a system of `n` equations.
    spec fn fits(&self, n: int) -> bool;

    /// What a matrix that fits holds is a square.
    proof fn lemma_grid_is_square(&self, n: int)
        requires
            0 <= n,
            self.fits(n),
        ensures
            square(self.grid(n), n),
    ;

    /// The entry at row `i` and column `j` of the square of side `n`.
    fn entry(&self, n: usize, i: usize, j: usize) -> (value: u64)
        requires
            self.fits(n as int),
            i < n,
            j < n,
        ensures
            value == self.grid(n as int)[i as int][j as int],
    ;

    /// The square of side `n`, written out row by row.
    fn to_rows(&self, n: usize) -> (rows: Vec<Vec<u64>>)
        requires
            self.fits(n as int),
        ensures
            grid_of(rows) == self.grid(n as int),
    ;
}

/// What every form of matrix offers a linear system: the construction of
/// the system of a walk, the exact solution by elimination, without and
/// with partial pivoting, and the two methods of relaxation.
///
/// The numbers are binary64 numbers held as their 64 bits, and the
/// arithmetic on them is done by the unit that the caller hands in. Each
/// contract speaks of the square that the matrix holds and of nothing else,
/// so that two forms that hold the same square give the same results, bit
/// for bit.
pub trait MatrixBase: Grid {
    /// The system of a walk on a path of `size` positions.
    fn init_default_path(size: usize) -> (m: Self)
        requires
            size >= 2,
        ensures
            m.fits(size as int),
            m.grid(size as int) == default_grid(size as int),
    ;

    /// Solves by the method of Jacobi, from `x0`, with `max_iter` sweeps at
    /// most: the result is the first iterate that differs from the one
    /// before it by less than `eps` in every component, or the last one.
    fn jacobi<F: Fn(Op, u64, u64) -> u64>(
        &self,
        b: &Vec<u64>,
        x0: &Vec<u64>,
        eps: u64,
        max_iter: usize,
        unit: &F,
    ) -> (x: Vec<u64>)
        requires
            self.fits(b.len() as int),
            x0.len() == b.len(),
            reliable(*unit),
        ensures
            x@ == jacobi_run(
                arith(*unit),
                self.grid(b.len() as int),
                b@,
                x0@,
                eps,
                max_iter as nat,
            ),
    {
        jacobi_on(self, b, x0, eps, max_iter, unit)
    }

    /// Solves by elimination without pivoting and back-substitution, on a
    /// copy of the square: the matrix itself is left as it is.
    fn gaussian<F: Fn(Op, u64, u64) -> u64>(&self, b: &Vec<u64>, unit: &F) -> (x: Result<
        Vec<u64>,
        MatrixError,
    >)
        requires
            self.fits(b.len() as int),
            reliable(*unit),
        ensures
            agrees(x, solved(arith(*unit), self.grid(b.len() as int), b@)),
    {
        proof {
            self.lemma_grid_is_square(b.len() as int);
        }
        gaussian_rows(self.to_rows(b.len()), b, unit)
    }

    /// Reorders the system by partial pivoting, without solving it.
    fn partial_pivot(&self, b: &Vec<u64>) -> (out: (Self, Vec<u64>))
        requires
            self.fits(b.len() as int),
        ensures
            out.0.fits(b.len() as int),
            out.0.grid(b.len() as int) == permuted(
                self.grid(b.len() as int),
                pivot_order(self.grid(b.len() as int), b.len() as int),
            ),
            out.1@ == permuted(b@, pivot_order(self.grid(b.len() as int), b.len() as int)),
    ;

    /// Solves by elimination after partial pivoting.
    fn gaussian_partial_pivot<F: Fn(Op, u64, u64) -> u64>(&self, b: &Vec<u64>, unit: &F) -> (x:
        Result<Vec<u64>, MatrixError>)
        requires
            self.fits(b.len() as int),
            reliable(*unit),
        ensures
            agrees(
                x,
                solved(
                    arith(*unit),
                    permuted(
                        self.grid(b.len() as int),
                        pivot_order(self.grid(b.len() as int), b.len() as int),
                    ),
                    permuted(b@, pivot_order(self.grid(b.len() as int), b.len() as int)),
                ),
            ),
    {
        let (a, b_new) = self.partial_pivot(b);
        proof {
            self.lemma_grid_is_square(b.len() as int);
            lemma_pivot_order_permutes(self.grid(b.len() as int), b.len() as int);
        }
        a.gaussian(&b_new, unit)
    }

    /// Solves by the method of Gauss and Seidel, from `x0`, with `max_iter`
    /// sweeps at most: the result is the first iterate that differs from
    /// the one before it by less than `eps` in every component, or the last
    /// one.
    fn gauss_seidel<F: Fn(Op, u64, u64) -> u64>(
        &self,
        b: &Vec<u64>,
        x0: &Vec<u64>,
        eps: u64,
        max_iter: usize,
        unit: &F,
    ) -> (x: Vec<u64>)
        requires
            self.fits(b.len() as int),
            x0.len() == b.len(),
            reliable(*unit),
        ensures
            x@ == seidel_run(
                arith(*unit),
                self.grid(b.len() as int),
                b@,
                x0@,
                eps,
                max_iter as nat,
            ),
    {
        seidel_on(self, b, x0, eps, max_iter, unit)
    }
}

} // verus!
