//! The solvers of linear systems: the two methods of relaxation, and
//! elimination with back-substitution, each as a function of the system and
//! of the arithmetic it is computed with.

use crate::base::{Grid, MatrixError};
use crate::number::{
    absolute, apply, below, arith, is_below, is_nan, is_zero, magnitude, not_a_number, reliable,
    zero, Arith, Op, ZERO,
};
use vstd::prelude::*;
use vstd::slice::slice_to_vec;

verus! {

/// The rows that a vector of rows holds.
pub open spec fn grid_of(rows: Vec<Vec<u64>>) -> Seq<Seq<u64>> {
    Seq::new(rows.len() as nat, |i: int| rows[i]@)
}

/// Whether `rows` is a square of side `n`.
pub open spec fn square(rows: Seq<Seq<u64>>, n: int) -> bool {
    &&& rows.len() == n
    &&& forall|k: int| 0 <= k < n ==> (#[trigger] rows[k]).len() == n
}

/// What is left of `rhs` when the products of the entries of `row` with the
/// entries of `x` are taken from it one by one, for the columns before
/// `upto` but for column `i`.
pub open spec fn remainder(c: Arith, row: Seq<u64>, x: Seq<u64>, rhs: u64, i: int, upto: int) -> u64
    decreases upto,
{
    if upto <= 0 {
        rhs
    } else {
        let left = remainder(c, row, x, rhs, i, upto - 1);
        if upto - 1 == i {
            left
        } else {
            c(Op::Sub, left, c(Op::Mul, row[upto - 1], x[upto - 1]))
        }
    }
}

/// Component `i` of the iterate that follows `x`: what is left of `b[i]`
/// when the other components have had their share, divided by the diagonal.
pub open spec fn relaxed(c: Arith, a: Seq<Seq<u64>>, b: Seq<u64>, x: Seq<u64>, i: int) -> u64 {
    c(Op::Div, remainder(c, a[i], x, b[i], i, b.len() as int), a[i][i])
}

/// The iterate that follows `x` in the method of Jacobi: every component is
/// relaxed against `x` itself.
pub open spec fn jacobi_sweep(c: Arith, a: Seq<Seq<u64>>, b: Seq<u64>, x: Seq<u64>) -> Seq<u64> {
    Seq::new(b.len(), |i: int| relaxed(c, a, b, x, i))
}

/// The iterate `x` with its first `upto` components relaxed in turn, as the
/// method of Gauss and Seidel does: each against the components before it
/// as they are now, and those after it as they were.
pub open spec fn seidel_sweep(c: Arith, a: Seq<Seq<u64>>, b: Seq<u64>, x: Seq<u64>, upto: int) -> Seq<
    u64,
>
    decreases upto,
{
    if upto <= 0 {
        x
    } else {
        let y = seidel_sweep(c, a, b, x, upto - 1);
        y.update(upto - 1, relaxed(c, a, b, y, upto - 1))
    }
}

/// The largest absolute difference between the first `upto` components of
/// `new` and of `old`; a difference that is no number does not count.
pub open spec fn change(c: Arith, new: Seq<u64>, old: Seq<u64>, upto: int) -> u64
    decreases upto,
{
    if upto <= 0 {
        ZERO
    } else {
        let so_far = change(c, new, old, upto - 1);
        let here = magnitude(c(Op::Sub, new[upto - 1], old[upto - 1]));
        if !is_nan(here) && here > so_far {
            here
        } else {
            so_far
        }
    }
}

/// The result of the method of Jacobi from `x` with `iters` sweeps at most:
/// the first iterate whose change is below `eps`, or the last one.
pub open spec fn jacobi_run(
    c: Arith,
    a: Seq<Seq<u64>>,
    b: Seq<u64>,
    x: Seq<u64>,
    eps: u64,
    iters: nat,
) -> Seq<u64>
    decreases iters,
{
    if iters == 0 {
        x
    } else {
        let next = jacobi_sweep(c, a, b, x);
        if below(change(c, next, x, b.len() as int), eps) {
            next
        } else {
            jacobi_run(c, a, b, next, eps, (iters - 1) as nat)
        }
    }
}

/// The result of the method of Gauss and Seidel from `x` with `iters`
/// sweeps at most: the first iterate whose change is below `eps`, or the
/// last one.
pub open spec fn seidel_run(
    c: Arith,
    a: Seq<Seq<u64>>,
    b: Seq<u64>,
    x: Seq<u64>,
    eps: u64,
    iters: nat,
) -> Seq<u64>
    decreases iters,
{
    if iters == 0 {
        x
    } else {
        let next = seidel_sweep(c, a, b, x, b.len() as int);
        if below(change(c, next, x, b.len() as int), eps) {
            next
        } else {
            seidel_run(c, a, b, next, eps, (iters - 1) as nat)
        }
    }
}

/// A sweep of Gauss and Seidel keeps the length, leaves the components
/// from `upto` on as they were, and does not touch a component again once
/// it is relaxed.
pub proof fn lemma_seidel_sweep(c: Arith, a: Seq<Seq<u64>>, b: Seq<u64>, x: Seq<u64>, upto: int)
    requires
        0 <= upto <= x.len(),
    ensures
        seidel_sweep(c, a, b, x, upto).len() == x.len(),
        forall|k: int| upto <= k < x.len() ==> seidel_sweep(c, a, b, x, upto)[k] == x[k],
        forall|k: int, later: int|
            0 <= k < upto <= later <= x.len() ==> seidel_sweep(c, a, b, x, later)[k]
                == seidel_sweep(c, a, b, x, upto)[k],
    decreases x.len() - upto,
{
    lemma_seidel_sweep_frame(c, a, b, x, upto);
    assert forall|k: int, later: int| 0 <= k < upto <= later <= x.len() implies seidel_sweep(
        c,
        a,
        b,
        x,
        later,
    )[k] == seidel_sweep(c, a, b, x, upto)[k] by {
        lemma_seidel_sweep_settled(c, a, b, x, upto, later, k);
    }
}

proof fn lemma_seidel_sweep_frame(c: Arith, a: Seq<Seq<u64>>, b: Seq<u64>, x: Seq<u64>, upto: int)
    requires
        0 <= upto <= x.len(),
    ensures
        seidel_sweep(c, a, b, x, upto).len() == x.len(),
        forall|k: int| upto <= k < x.len() ==> seidel_sweep(c, a, b, x, upto)[k] == x[k],
    decreases upto,
{
    if upto > 0 {
        lemma_seidel_sweep_frame(c, a, b, x, upto - 1);
    }
}

proof fn lemma_seidel_sweep_settled(
    c: Arith,
    a: Seq<Seq<u64>>,
    b: Seq<u64>,
    x: Seq<u64>,
    upto: int,
    later: int,
    k: int,
)
    requires
        0 <= k < upto <= later <= x.len(),
    ensures
        seidel_sweep(c, a, b, x, later)[k] == seidel_sweep(c, a, b, x, upto)[k],
    decreases later - upto,
{
    if later > upto {
        lemma_seidel_sweep_settled(c, a, b, x, upto, later - 1, k);
        lemma_seidel_sweep_frame(c, a, b, x, later - 1);
    }
}

/// The change over the first `upto` components depends on these alone.
pub proof fn lemma_change_agrees(c: Arith, new: Seq<u64>, other: Seq<u64>, old: Seq<u64>, upto: int)
    requires
        forall|k: int| 0 <= k < upto ==> new[k] == other[k],
    ensures
        change(c, new, old, upto) == change(c, other, old, upto),
    decreases upto,
{
    if upto > 0 {
        lemma_change_agrees(c, new, other, old, upto - 1);
    }
}

/// A change is the bits of a number that is not negative.
pub proof fn lemma_change_is_number(c: Arith, new: Seq<u64>, old: Seq<u64>, upto: int)
    ensures
        change(c, new, old, upto) <= 0x7FF0_0000_0000_0000,
    decreases upto,
{
    if upto > 0 {
        lemma_change_is_number(c, new, old, upto - 1);
        let diff = c(Op::Sub, new[upto - 1], old[upto - 1]);
        assert((diff & 0x7FFF_FFFF_FFFF_FFFF) & 0x7FFF_FFFF_FFFF_FFFF == diff
            & 0x7FFF_FFFF_FFFF_FFFF) by (bit_vector);
    }
}

/// With no sweep allowed, either method of relaxation returns the start
/// unchanged.
pub proof fn lemma_no_sweep_returns_start(
    c: Arith,
    a: Seq<Seq<u64>>,
    b: Seq<u64>,
    x: Seq<u64>,
    eps: u64,
)
    ensures
        jacobi_run(c, a, b, x, eps, 0) == x,
        seidel_run(c, a, b, x, eps, 0) == x,
{
}

/// Where the first sweep changes the start by less than `eps`, either
/// method of relaxation returns after that one sweep, whatever number of
/// sweeps is allowed.
pub proof fn lemma_one_sweep_suffices(
    c: Arith,
    a: Seq<Seq<u64>>,
    b: Seq<u64>,
    x: Seq<u64>,
    eps: u64,
    iters: nat,
)
    requires
        iters >= 1,
    ensures
        below(change(c, jacobi_sweep(c, a, b, x), x, b.len() as int), eps) ==> jacobi_run(
            c,
            a,
            b,
            x,
            eps,
            iters,
        ) == jacobi_sweep(c, a, b, x),
        below(change(c, seidel_sweep(c, a, b, x, b.len() as int), x, b.len() as int), eps)
            ==> seidel_run(c, a, b, x, eps, iters) == seidel_sweep(c, a, b, x, b.len() as int),
{
}

/// Either method of relaxation gives a vector as long as the right-hand
/// side, where the start is as long.
pub proof fn lemma_iterate_length(
    c: Arith,
    a: Seq<Seq<u64>>,
    b: Seq<u64>,
    x: Seq<u64>,
    eps: u64,
    iters: nat,
)
    requires
        x.len() == b.len(),
    ensures
        jacobi_run(c, a, b, x, eps, iters).len() == b.len(),
        seidel_run(c, a, b, x, eps, iters).len() == b.len(),
    decreases iters,
{
    if iters > 0 {
        lemma_seidel_sweep(c, a, b, x, b.len() as int);
        lemma_iterate_length(c, a, b, jacobi_sweep(c, a, b, x), eps, (iters - 1) as nat);
        lemma_iterate_length(
            c,
            a,
            b,
            seidel_sweep(c, a, b, x, b.len() as int),
            eps,
            (iters - 1) as nat,
        );
    }
}

/// Relaxes component `i` of `x`.
pub fn relax<M: Grid, F: Fn(Op, u64, u64) -> u64>(
    m: &M,
    b: &Vec<u64>,
    x: &Vec<u64>,
    i: usize,
    unit: &F,
) -> (v: u64)
    requires
        m.fits(b.len() as int),
        x.len() == b.len(),
        i < b.len(),
        reliable(*unit),
    ensures
        v == relaxed(arith(*unit), m.grid(b.len() as int), b@, x@, i as int),
{
    let n: usize = b.len();
    let ghost row = m.grid(n as int)[i as int];
    let mut left: u64 = b[i];
    let mut j: usize = 0;
    while j < n
        invariant
            j <= n,
            i < n,
            n == b.len(),
            n == x.len(),
            m.fits(n as int),
            row == m.grid(n as int)[i as int],
            reliable(*unit),
            left == remainder(arith(*unit), row, x@, b[i as int], i as int, j as int),
        decreases n - j,
    {
        if j != i {
            let share = apply(unit, Op::Mul, m.entry(n, i, j), x[j]);
            left = apply(unit, Op::Sub, left, share);
        }
        j = j + 1;
    }
    apply(unit, Op::Div, left, m.entry(n, i, i))
}

/// Solves by the method of Jacobi.
pub fn jacobi_on<M: Grid, F: Fn(Op, u64, u64) -> u64>(
    m: &M,
    b: &Vec<u64>,
    x0: &Vec<u64>,
    eps: u64,
    max_iter: usize,
    unit: &F,
) -> (x: Vec<u64>)
    requires
        m.fits(b.len() as int),
        x0.len() == b.len(),
        reliable(*unit),
    ensures
        x@ == jacobi_run(arith(*unit), m.grid(b.len() as int), b@, x0@, eps, max_iter as nat),
{
    let n: usize = b.len();
    let ghost c = arith(*unit);
    let ghost a = m.grid(b.len() as int);
    let mut x = slice_to_vec(x0.as_slice());
    let mut done: usize = 0;
    while done < max_iter
        invariant
            done <= max_iter,
            n == b.len(),
            x.len() == n,
            m.fits(n as int),
            reliable(*unit),
            c == arith(*unit),
            a == m.grid(b.len() as int),
            jacobi_run(c, a, b@, x0@, eps, max_iter as nat) == jacobi_run(
                c,
                a,
                b@,
                x@,
                eps,
                (max_iter - done) as nat,
            ),
        decreases max_iter - done,
    {
        let ghost next = jacobi_sweep(c, a, b@, x@);
        let mut x_new: Vec<u64> = Vec::new();
        let mut error: u64 = ZERO;
        let mut i: usize = 0;
        while i < n
            invariant
                i <= n,
                n == b.len(),
                x.len() == n,
                m.fits(n as int),
                reliable(*unit),
                c == arith(*unit),
                a == m.grid(b.len() as int),
                next == jacobi_sweep(c, a, b@, x@),
                x_new.len() == i,
                forall|k: int| 0 <= k < i ==> x_new[k] == next[k],
                error == change(c, next, x@, i as int),
            decreases n - i,
        {
            let v = relax(m, b, &x, i, unit);
            let here = absolute(apply(unit, Op::Sub, v, x[i]));
            if !not_a_number(here) && here > error {
                error = here;
            }
            x_new.push(v);
            i = i + 1;
        }
        assert(x_new@ =~= next);
        x = x_new;
        if is_below(error, eps) {
            return x;
        }
        done = done + 1;
    }
    x
}

/// Solves by the method of Gauss and Seidel.
pub fn seidel_on<M: Grid, F: Fn(Op, u64, u64) -> u64>(
    m: &M,
    b: &Vec<u64>,
    x0: &Vec<u64>,
    eps: u64,
    max_iter: usize,
    unit: &F,
) -> (x: Vec<u64>)
    requires
        m.fits(b.len() as int),
        x0.len() == b.len(),
        reliable(*unit),
    ensures
        x@ == seidel_run(arith(*unit), m.grid(b.len() as int), b@, x0@, eps, max_iter as nat),
{
    let n: usize = b.len();
    let ghost c = arith(*unit);
    let ghost a = m.grid(b.len() as int);
    let mut x = slice_to_vec(x0.as_slice());
    let mut done: usize = 0;
    while done < max_iter
        invariant
            done <= max_iter,
            n == b.len(),
            x.len() == n,
            m.fits(n as int),
            reliable(*unit),
            c == arith(*unit),
            a == m.grid(b.len() as int),
            seidel_run(c, a, b@, x0@, eps, max_iter as nat) == seidel_run(
                c,
                a,
                b@,
                x@,
                eps,
                (max_iter - done) as nat,
            ),
        decreases max_iter - done,
    {
        let ghost old = x@;
        let mut error: u64 = ZERO;
        let mut i: usize = 0;
        while i < n
            invariant
                i <= n,
                n == b.len(),
                x.len() == n,
                old.len() == n,
                m.fits(n as int),
                reliable(*unit),
                c == arith(*unit),
                a == m.grid(b.len() as int),
                x@ == seidel_sweep(c, a, b@, old, i as int),
                error == change(c, x@, old, i as int),
            decreases n - i,
        {
            proof {
                lemma_seidel_sweep(c, a, b@, old, i as int);
            }
            let ghost before = x@;
            let v = relax(m, b, &x, i, unit);
            let here = absolute(apply(unit, Op::Sub, v, x[i]));
            if !not_a_number(here) && here > error {
                error = here;
            }
            x.set(i, v);
            proof {
                lemma_change_agrees(c, x@, before, old, i as int);
            }
            i = i + 1;
        }
        if is_below(error, eps) {
            return x;
        }
        done = done + 1;
    }
    x
}

/// The factor by which the pivot row is taken from `row` to clear column
/// `i`.
pub open spec fn factor(c: Arith, pivot: Seq<u64>, row: Seq<u64>, i: int) -> u64 {
    c(Op::Div, row[i], pivot[i])
}

/// The row `row` with the pivot row taken from it, from column `i` on.
pub open spec fn reduced_row(c: Arith, pivot: Seq<u64>, row: Seq<u64>, i: int) -> Seq<u64> {
    Seq::new(
        row.len(),
        |k: int|
            if k >= i {
                c(Op::Sub, row[k], c(Op::Mul, factor(c, pivot, row, i), pivot[k]))
            } else {
                row[k]
            },
    )
}

/// The system with pivot `i` used: the pivot row is taken from each row
/// below it, and the right-hand side goes along.
pub open spec fn reduced(c: Arith, a: Seq<Seq<u64>>, b: Seq<u64>, i: int) -> (
    Seq<Seq<u64>>,
    Seq<u64>,
) {
    (
        Seq::new(
            a.len(),
            |j: int|
                if j > i {
                    reduced_row(c, a[i], a[j], i)
                } else {
                    a[j]
                },
        ),
        Seq::new(
            b.len(),
            |j: int|
                if j > i {
                    c(Op::Sub, b[j], c(Op::Mul, factor(c, a[i], a[j], i), b[i]))
                } else {
                    b[j]
                },
        ),
    )
}

/// The system after elimination with the pivots before `upto`, in order, or
/// none where one of them was zero when its turn came.
pub open spec fn eliminated(c: Arith, a: Seq<Seq<u64>>, b: Seq<u64>, upto: int) -> Option<
    (Seq<Seq<u64>>, Seq<u64>),
>
    decreases upto,
{
    if upto <= 0 {
        Some((a, b))
    } else {
        match eliminated(c, a, b, upto - 1) {
            None => None,
            Some(system) => if is_zero(system.0[upto - 1][upto - 1]) {
                None
            } else {
                Some(reduced(c, system.0, system.1, upto - 1))
            },
        }
    }
}

/// Whether elimination comes as far as pivot `i` and finds it zero.
pub open spec fn zero_pivot_at(c: Arith, a: Seq<Seq<u64>>, b: Seq<u64>, i: int) -> bool {
    eliminated(c, a, b, i) matches Some(system) && is_zero(system.0[i][i])
}

/// What is left of `rhs` when the products of the entries of `row` with the
/// components of `x` are taken from it one by one, for the columns after
/// `i` and before `upto`.
pub open spec fn back_remainder(c: Arith, row: Seq<u64>, x: Seq<u64>, rhs: u64, i: int, upto: int)
    -> u64
    decreases upto - i,
{
    if upto <= i + 1 {
        rhs
    } else {
        c(
            Op::Sub,
            back_remainder(c, row, x, rhs, i, upto - 1),
            c(Op::Mul, row[upto - 1], x[upto - 1]),
        )
    }
}

/// The solution of a triangular system by back-substitution, the
/// components from `from` on filled in and zeros before them; or none
/// where a component came out as no number.
pub open spec fn substituted(c: Arith, a: Seq<Seq<u64>>, b: Seq<u64>, from: int) -> Option<Seq<u64>>
    decreases b.len() - from,
{
    if from >= b.len() {
        Some(Seq::new(b.len(), |k: int| ZERO))
    } else {
        match substituted(c, a, b, from + 1) {
            None => None,
            Some(x) => {
                let value = c(
                    Op::Div,
                    back_remainder(c, a[from], x, b[from], from, b.len() as int),
                    a[from][from],
                );
                if is_nan(value) {
                    None
                } else {
                    Some(x.update(from, value))
                }
            },
        }
    }
}

/// The solution of the system by elimination without pivoting and
/// back-substitution: a zero pivot is an error, and so is a component that
/// comes out as no number.
pub open spec fn solved(c: Arith, a: Seq<Seq<u64>>, b: Seq<u64>) -> Result<Seq<u64>, MatrixError> {
    match eliminated(c, a, b, b.len() as int) {
        None => Err(MatrixError::ZeroPivotError),
        Some(system) => match substituted(c, system.0, system.1, 0) {
            None => Err(MatrixError::Unsolvable),
            Some(x) => Ok(x),
        },
    }
}

/// Whether `result` is `model`, the vector taken by its view.
pub open spec fn agrees(result: Result<Vec<u64>, MatrixError>, model: Result<Seq<u64>, MatrixError>)
    -> bool {
    match result {
        Ok(x) => model == Ok::<Seq<u64>, MatrixError>(x@),
        Err(e) => model == Err::<Seq<u64>, MatrixError>(e),
    }
}

/// Elimination keeps the length of the right-hand side.
proof fn lemma_eliminated_square_len(c: Arith, a: Seq<Seq<u64>>, b: Seq<u64>, upto: int)
    ensures
        eliminated(c, a, b, upto) matches Some(system) ==> system.1.len() == b.len(),
    decreases upto,
{
    if upto > 0 {
        lemma_eliminated_square_len(c, a, b, upto - 1);
    }
}

/// Back-substitution gives a vector as long as the right-hand side.
proof fn lemma_substituted_len(c: Arith, a: Seq<Seq<u64>>, b: Seq<u64>, from: int)
    requires
        0 <= from,
    ensures
        substituted(c, a, b, from) matches Some(x) ==> x.len() == b.len(),
    decreases b.len() - from,
{
    if from < b.len() {
        lemma_substituted_len(c, a, b, from + 1);
    }
}

/// A copy of `rows`.
pub fn copy_rows(rows: &Vec<Vec<u64>>) -> (copy: Vec<Vec<u64>>)
    ensures
        grid_of(copy) == grid_of(*rows),
{
    let mut copy: Vec<Vec<u64>> = Vec::new();
    let mut i: usize = 0;
    while i < rows.len()
        invariant
            i <= rows.len(),
            copy.len() == i,
            forall|k: int| 0 <= k < i ==> (#[trigger] copy[k])@ == rows[k]@,
        decreases rows.len() - i,
    {
        copy.push(slice_to_vec(rows[i].as_slice()));
        i = i + 1;
    }
    copy
}

/// Solves by elimination without pivoting and back-substitution, on rows
/// that are the caller's to spend.
pub fn gaussian_rows<F: Fn(Op, u64, u64) -> u64>(rows: Vec<Vec<u64>>, b: &Vec<u64>, unit: &F) -> (x:
    Result<Vec<u64>, MatrixError>)
    requires
        square(grid_of(rows), b.len() as int),
        reliable(*unit),
    ensures
        agrees(x, solved(arith(*unit), grid_of(rows), b@)),
{
    let n: usize = b.len();
    let ghost c = arith(*unit);
    let ghost a0 = grid_of(rows);
    let mut a = rows;
    let mut b_new = slice_to_vec(b.as_slice());
    let mut i: usize = 0;
    while i < n
        invariant
            i <= n,
            n == b.len(),
            reliable(*unit),
            c == arith(*unit),
            a0 == grid_of(rows),
            square(a0, n as int),
            square(grid_of(a), n as int),
            b_new.len() == n,
            eliminated(c, a0, b@, i as int) == Some((grid_of(a), b_new@)),
        decreases n - i,
    {
        let ghost a1 = grid_of(a);
        let ghost b1 = b_new@;
        if zero(a[i][i]) {
            assert(eliminated(c, a0, b@, i + 1) is None);
            proof {
                lemma_stays_none(c, a0, b@, i + 1, n as int);
            }
            return Err(MatrixError::ZeroPivotError);
        }
        let mut j: usize = i + 1;
        while j < n
            invariant
                i < j <= n,
                n == b.len(),
                reliable(*unit),
                c == arith(*unit),
                square(a1, n as int),
                b1.len() == n,
                a.len() == n,
                b_new.len() == n,
                forall|r: int|
                    0 <= r < n ==> (#[trigger] a[r])@ == if i < r < j {
                        reduced_row(c, a1[i as int], a1[r], i as int)
                    } else {
                        a1[r]
                    },
                forall|r: int|
                    0 <= r < n ==> #[trigger] b_new[r] == if i < r < j {
                        c(Op::Sub, b1[r], c(Op::Mul, factor(c, a1[i as int], a1[r], i as int), b1[i as int]))
                    } else {
                        b1[r]
                    },
            decreases n - j,
        {
            let by = apply(unit, Op::Div, a[j][i], a[i][i]);
            let mut row: Vec<u64> = Vec::new();
            let mut k: usize = 0;
            while k < n
                invariant
                    k <= n,
                    i < j < n,
                    reliable(*unit),
                    c == arith(*unit),
                    a.len() == n,
                    a1.len() == n,
                    a[i as int]@ == a1[i as int],
                    a[j as int]@ == a1[j as int],
                    a1[i as int].len() == n,
                    a1[j as int].len() == n,
                    by == factor(c, a1[i as int], a1[j as int], i as int),
                    row.len() == k,
                    forall|t: int|
                        0 <= t < k ==> #[trigger] row[t] == reduced_row(
                            c,
                            a1[i as int],
                            a1[j as int],
                            i as int,
                        )[t],
                decreases n - k,
            {
                if k >= i {
                    let share = apply(unit, Op::Mul, by, a[i][k]);
                    row.push(apply(unit, Op::Sub, a[j][k], share));
                } else {
                    row.push(a[j][k]);
                }
                k = k + 1;
            }
            let share = apply(unit, Op::Mul, by, b_new[i]);
            let rhs = apply(unit, Op::Sub, b_new[j], share);
            a.set(j, row);
            b_new.set(j, rhs);
            j = j + 1;
        }
        i = i + 1;
    }

    let ghost a2 = grid_of(a);
    let ghost b2 = b_new@;
    let mut out: Vec<u64> = Vec::new();
    let mut k: usize = 0;
    while k < n
        invariant
            k <= n,
            out.len() == k,
            forall|t: int| 0 <= t < k ==> out[t] == ZERO,
        decreases n - k,
    {
        out.push(ZERO);
        k = k + 1;
    }
    let mut left: usize = n;
    while left > 0
        invariant
            left <= n,
            n == b.len(),
            reliable(*unit),
            c == arith(*unit),
            a0 == grid_of(rows),
            a2 == grid_of(a),
            b2 == b_new@,
            square(a2, n as int),
            b2.len() == n,
            out.len() == n,
            eliminated(c, a0, b@, n as int) == Some((a2, b2)),
            substituted(c, a2, b2, left as int) == Some(out@),
        decreases left,
    {
        let i: usize = left - 1;
        let mut rest: u64 = b_new[i];
        let mut j: usize = i + 1;
        while j < n
            invariant
                i < j <= n,
                i < n,
                reliable(*unit),
                c == arith(*unit),
                a2 == grid_of(a),
                b2 == b_new@,
                b2.len() == n,
                a.len() == n,
                a2[i as int].len() == n,
                out.len() == n,
                rest == back_remainder(c, a2[i as int], out@, b2[i as int], i as int, j as int),
            decreases n - j,
        {
            let share = apply(unit, Op::Mul, a[i][j], out[j]);
            rest = apply(unit, Op::Sub, rest, share);
            j = j + 1;
        }
        let value = apply(unit, Op::Div, rest, a[i][i]);
        if not_a_number(value) {
            proof {
                lemma_stays_unsolved(c, a2, b2, 0, i as int);
            }
            return Err(MatrixError::Unsolvable);
        }
        out.set(i, value);
        left = i;
    }
    Ok(out)
}

/// Elimination fails exactly when some pivot is zero at the moment its
/// turn comes.
pub proof fn lemma_fails_on_zero_pivot(c: Arith, a: Seq<Seq<u64>>, b: Seq<u64>, upto: int)
    ensures
        eliminated(c, a, b, upto) is None <==> exists|i: int|
            0 <= i < upto && zero_pivot_at(c, a, b, i),
    decreases upto,
{
    if upto > 0 {
        lemma_fails_on_zero_pivot(c, a, b, upto - 1);
        if eliminated(c, a, b, upto - 1) is Some && eliminated(c, a, b, upto) is None {
            assert(zero_pivot_at(c, a, b, upto - 1));
        }
    }
}

/// The solver reports a zero pivot exactly when some pivot is zero at the
/// moment its turn comes in the elimination.
pub proof fn lemma_zero_pivot_error(c: Arith, a: Seq<Seq<u64>>, b: Seq<u64>)
    ensures
        solved(c, a, b) == Err::<Seq<u64>, MatrixError>(MatrixError::ZeroPivotError)
            <==> exists|i: int| 0 <= i < b.len() && zero_pivot_at(c, a, b, i),
{
    lemma_fails_on_zero_pivot(c, a, b, b.len() as int);
}

/// The first pivot is found zero exactly when it is zero in the system as
/// it was handed in: no elimination has touched it yet.
pub proof fn lemma_first_pivot_is_as_given(c: Arith, a: Seq<Seq<u64>>, b: Seq<u64>)
    ensures
        zero_pivot_at(c, a, b, 0) <==> is_zero(a[0][0]),
{
}

/// A solution is as long as the right-hand side.
pub proof fn lemma_solution_length(c: Arith, a: Seq<Seq<u64>>, b: Seq<u64>)
    ensures
        solved(c, a, b) matches Ok(x) ==> x.len() == b.len(),
{
    match eliminated(c, a, b, b.len() as int) {
        Some(system) => {
            lemma_eliminated_square_len(c, a, b, b.len() as int);
            lemma_substituted_len(c, system.0, system.1, 0);
        },
        None => {},
    }
}

/// Two results that meet the contract of a solver on the same system are
/// the same: the same error, or the same solution bit for bit.
pub proof fn lemma_result_is_pinned(
    first: Result<Vec<u64>, MatrixError>,
    second: Result<Vec<u64>, MatrixError>,
    model: Result<Seq<u64>, MatrixError>,
)
    requires
        agrees(first, model),
        agrees(second, model),
    ensures
        match (first, second) {
            (Ok(x), Ok(y)) => x@ == y@,
            (Err(e), Err(f)) => e == f,
            _ => false,
        },
{
}

/// Once a pivot was zero, elimination has failed for good.
pub proof fn lemma_stays_none(c: Arith, a: Seq<Seq<u64>>, b: Seq<u64>, upto: int, later: int)
    requires
        upto <= later,
        eliminated(c, a, b, upto) is None,
    ensures
        eliminated(c, a, b, later) is None,
    decreases later - upto,
{
    if later > upto {
        lemma_stays_none(c, a, b, upto, later - 1);
    }
}

/// Once a component was no number, back-substitution has failed for good.
pub proof fn lemma_stays_unsolved(c: Arith, a: Seq<Seq<u64>>, b: Seq<u64>, from: int, later: int)
    requires
        from <= later,
        substituted(c, a, b, later) is None,
    ensures
        substituted(c, a, b, from) is None,
    decreases later - from,
{
    if from < later {
        lemma_stays_unsolved(c, a, b, from + 1, later);
    }
}

/// The sum of the products of the first `upto` entries of `row` with those
/// of `x`, added up one by one from zero.
pub open spec fn weighted_sum(c: Arith, row: Seq<u64>, x: Seq<u64>, upto: int) -> u64
    decreases upto,
{
    if upto <= 0 {
        ZERO
    } else {
        c(Op::Add, weighted_sum(c, row, x, upto - 1), c(Op::Mul, row[upto - 1], x[upto - 1]))
    }
}

/// Whether every row of `rows` is `cols` long.
pub open spec fn rectangular(rows: Seq<Seq<u64>>, cols: int) -> bool {
    forall|i: int| 0 <= i < rows.len() ==> (#[trigger] rows[i]).len() == cols
}

/// Column `j` of `rows`.
pub open spec fn column_of(rows: Seq<Seq<u64>>, j: int) -> Seq<u64> {
    Seq::new(rows.len(), |k: int| rows[k][j])
}

/// The product of the matrices `a` and `b`, the second `cols` wide.
pub open spec fn product(c: Arith, a: Seq<Seq<u64>>, b: Seq<Seq<u64>>, cols: int) -> Seq<Seq<u64>> {
    Seq::new(
        a.len(),
        |i: int|
            Seq::new(
                cols as nat,
                |j: int| weighted_sum(c, a[i], column_of(b, j), b.len() as int),
            ),
    )
}

/// The product of the matrix `a` and the vector `x`.
pub open spec fn image(c: Arith, a: Seq<Seq<u64>>, x: Seq<u64>) -> Seq<u64> {
    Seq::new(a.len(), |i: int| weighted_sum(c, a[i], x, x.len() as int))
}

/// Whether `gap`, the bits of an absolute value, is greater than `eps`.
/// Nothing that is no number is greater or less than anything.
pub open spec fn above(gap: u64, eps: u64) -> bool {
    &&& !is_nan(gap)
    &&& !is_nan(eps)
    &&& if eps > 0x7FFF_FFFF_FFFF_FFFF {
        !is_zero(eps) || !is_zero(gap)
    } else {
        gap > eps
    }
}

/// Whether `a` and `b` are as long as each other and differ by no more than
/// `eps` in each of their first `upto` components.
pub open spec fn close(c: Arith, a: Seq<u64>, b: Seq<u64>, eps: u64, upto: int) -> bool {
    &&& a.len() == b.len()
    &&& forall|i: int| 0 <= i < upto ==> !above(magnitude(c(Op::Sub, #[trigger] a[i], b[i])), eps)
}

/// The sum of the products of the entries of `row` with those of `x`.
pub fn weigh<F: Fn(Op, u64, u64) -> u64>(row: &[u64], x: &[u64], len: usize, unit: &F) -> (sum: u64)
    requires
        len <= row.len(),
        len <= x.len(),
        reliable(*unit),
    ensures
        sum == weighted_sum(arith(*unit), row@, x@, len as int),
{
    let mut sum: u64 = ZERO;
    let mut k: usize = 0;
    while k < len
        invariant
            k <= len,
            len <= row.len(),
            len <= x.len(),
            reliable(*unit),
            sum == weighted_sum(arith(*unit), row@, x@, k as int),
        decreases len - k,
    {
        let share = apply(unit, Op::Mul, row[k], x[k]);
        sum = apply(unit, Op::Add, sum, share);
        k = k + 1;
    }
    sum
}

/// Tells whether `a` and `b` are as long as each other and differ by no
/// more than `eps` in any component.
pub fn compare_vecs<F: Fn(Op, u64, u64) -> u64>(a: &Vec<u64>, b: &Vec<u64>, eps: u64, unit: &F) -> (same:
    bool)
    requires
        reliable(*unit),
    ensures
        same == close(arith(*unit), a@, b@, eps, a.len() as int),
{
    if a.len() != b.len() {
        return false;
    }
    let mut i: usize = 0;
    while i < a.len()
        invariant
            i <= a.len(),
            a.len() == b.len(),
            reliable(*unit),
            close(arith(*unit), a@, b@, eps, i as int),
        decreases a.len() - i,
    {
        let gap = absolute(apply(unit, Op::Sub, a[i], b[i]));
        let over = !not_a_number(gap) && !not_a_number(eps) && if eps > 0x7FFF_FFFF_FFFF_FFFF {
            !zero(eps) || !zero(gap)
        } else {
            gap > eps
        };
        if over {
            return false;
        }
        i = i + 1;
    }
    true
}

} // verus!
