//! The linear system of a park: one equation for each intersection.

use crate::config::{Alley, Config, Intersection};
use crate::matrix::Matrix;
use crate::monte_carlo::far_end;
use crate::number::{
    apply, arith, count, counted, is_zero, negate, negated, reliable, Arith, Op, ONE, ZERO,
};
use crate::sparse::{dense, Sparse};
use vstd::prelude::*;

verus! {

/// Whether a walk ends at `inter`.
pub open spec fn terminal(inter: Intersection) -> bool {
    inter.exit || inter.well
}

/// The pull of an alley of `length` steps: one over its length.
pub open spec fn pull(c: Arith, length: usize) -> u64 {
    c(Op::Div, ONE, counted(c, length as nat))
}

/// The sum of the pulls of those of the first `upto` alleys that touch the
/// intersection `id`, added up one by one from zero.
pub open spec fn total_pull(c: Arith, alleys: Seq<Alley>, id: usize, upto: int) -> u64
    decreases upto,
{
    if upto <= 0 {
        ZERO
    } else {
        let before = total_pull(c, alleys, id, upto - 1);
        if far_end(alleys[upto - 1], id) is Some {
            c(Op::Add, before, pull(c, alleys[upto - 1].length))
        } else {
            before
        }
    }
}

/// The entry that an alley of `length` steps gives the row of an
/// intersection whose alleys pull `total` together: minus the part that the
/// alley has in the total.
pub open spec fn weight(c: Arith, length: usize, total: u64) -> u64 {
    c(Op::Div, negated(pull(c, length)), total)
}

/// The matrix `m` with `value` written at `p`: a zero is not stored.
pub open spec fn written(m: Map<(usize, usize), u64>, p: (usize, usize), value: u64) -> Map<
    (usize, usize),
    u64,
> {
    if is_zero(value) {
        m.remove(p)
    } else {
        m.insert(p, value)
    }
}

/// The matrix `m` with the weights of the first `upto` alleys written into
/// row `i`, the row of the intersection `id`: each alley that touches the
/// intersection writes its weight into the column of its far end, and a
/// later alley overwrites an earlier one.
pub open spec fn row_filled(
    c: Arith,
    m: Map<(usize, usize), u64>,
    alleys: Seq<Alley>,
    i: usize,
    id: usize,
    total: u64,
    upto: int,
) -> Map<(usize, usize), u64>
    decreases upto,
{
    if upto <= 0 {
        m
    } else {
        let before = row_filled(c, m, alleys, i, id, total, upto - 1);
        match far_end(alleys[upto - 1], id) {
            Some(far) => written(
                before,
                (i, (far - 1) as usize),
                weight(c, alleys[upto - 1].length, total),
            ),
            None => before,
        }
    }
}

/// The matrix with a one on the diagonal of each of the first `n` rows.
pub open spec fn diagonal(n: int) -> Map<(usize, usize), u64> {
    Map::new(|p: (usize, usize)| p.0 < n && p.1 == p.0, |p: (usize, usize)| ONE)
}

/// The system of a park with the first `upto` rows filled in: the row of an
/// exit or of a well keeps the one on its diagonal alone, and the row of
/// any other intersection takes the weights of its alleys.
pub open spec fn rows_filled(c: Arith, inters: Seq<Intersection>, alleys: Seq<Alley>, upto: int)
    -> Map<(usize, usize), u64>
    decreases upto,
{
    if upto <= 0 {
        diagonal(inters.len() as int)
    } else {
        let before = rows_filled(c, inters, alleys, upto - 1);
        let inter = inters[upto - 1];
        if terminal(inter) {
            before
        } else {
            row_filled(
                c,
                before,
                alleys,
                (upto - 1) as usize,
                inter.id,
                total_pull(c, alleys, inter.id, alleys.len() as int),
                alleys.len() as int,
            )
        }
    }
}

/// The right-hand side of the system of a park: a one for each exit.
pub open spec fn exits(inters: Seq<Intersection>) -> Seq<u64> {
    Seq::new(
        inters.len(),
        |i: int|
            if inters[i].exit {
                ONE
            } else {
                ZERO
            },
    )
}

/// Whether every alley that touches an intersection where the walk goes on
/// leads to an intersection with an identifier: to one other than 0.
pub open spec fn linkable(inters: Seq<Intersection>, alleys: Seq<Alley>) -> bool {
    forall|i: int, k: int|
        0 <= i < inters.len() && 0 <= k < alleys.len() && !terminal(#[trigger] inters[i])
            ==> far_end(#[trigger] alleys[k], inters[i].id) != Some(0usize)
}

impl Alley {
    /// The chance that a walker who stands one step inside the alley comes
    /// out at the near end: one minus the length over the length and one.
    pub open spec fn propability(self, c: Arith) -> u64 {
        c(
            Op::Sub,
            ONE,
            c(Op::Div, counted(c, self.length as nat), counted(c, (self.length + 1) as nat)),
        )
    }

    /// The chance that a walker who stands one step inside the alley comes
    /// out at the near end.
    pub fn get_propability<F: Fn(Op, u64, u64) -> u64>(&self, unit: &F) -> (chance: u64)
        requires
            self.length + 2 <= usize::MAX,
            reliable(*unit),
        ensures
            chance == self.propability(arith(*unit)),
    {
        let matrix_length: usize = self.length + 2;
        let starting_pos: usize = matrix_length - 2;
        let part = apply(
            unit,
            Op::Div,
            count(starting_pos, unit),
            count(matrix_length - 1, unit),
        );
        apply(unit, Op::Sub, ONE, part)
    }
}

impl Config {
    /// Tells whether the system of the park can be set up.
    pub fn is_linkable(&self) -> (ok: bool)
        ensures
            ok == linkable(self.inters@, self.alleys@),
    {
        let mut i: usize = 0;
        while i < self.inters.len()
            invariant
                i <= self.inters.len(),
                forall|r: int, k: int|
                    0 <= r < i && 0 <= k < self.alleys.len() && !terminal(
                        #[trigger] self.inters@[r],
                    ) ==> far_end(#[trigger] self.alleys@[k], self.inters@[r].id) != Some(0usize),
            decreases self.inters.len() - i,
        {
            let inter = self.inters[i];
            if !inter.exit && !inter.well {
                let mut k: usize = 0;
                while k < self.alleys.len()
                    invariant
                        k <= self.alleys.len(),
                        i < self.inters.len(),
                        inter == self.inters@[i as int],
                        !terminal(inter),
                        forall|t: int|
                            0 <= t < k ==> far_end(#[trigger] self.alleys@[t], inter.id) != Some(
                                0usize,
                            ),
                    decreases self.alleys.len() - k,
                {
                    let alley = self.alleys[k];
                    let far = if alley.a.id == inter.id {
                        Some(alley.b.id)
                    } else if alley.b.id == inter.id {
                        Some(alley.a.id)
                    } else {
                        None
                    };
                    if far == Some(0) {
                        return false;
                    }
                    k = k + 1;
                }
            }
            i = i + 1;
        }
        true
    }
}

impl Sparse {
    /// Sets up the system of a park: the matrix, and the right-hand side
    /// with a one for each exit.
    pub fn from_config<F: Fn(Op, u64, u64) -> u64>(cfg: &Config, unit: &F) -> (out: (
        Sparse,
        Vec<u64>,
    ))
        requires
            linkable(cfg.inters@, cfg.alleys@),
            reliable(*unit),
        ensures
            out.0@ == rows_filled(
                arith(*unit),
                cfg.inters@,
                cfg.alleys@,
                cfg.inters@.len() as int,
            ),
            out.1@ == exits(cfg.inters@),
    {
        let n: usize = cfg.inters.len();
        let count_alleys: usize = cfg.alleys.len();
        let ghost c = arith(*unit);
        let mut out = Sparse::from_size(n);
        let mut b: Vec<u64> = Vec::new();
        let mut i: usize = 0;
        assert(!is_zero(ONE)) by {
            assert(0x3FF0_0000_0000_0000u64 & 0x7FFF_FFFF_FFFF_FFFF != 0) by (bit_vector);
        }
        while i < n
            invariant
                i <= n,
                n == cfg.inters.len(),
                !is_zero(ONE),
                out@ == diagonal(i as int),
                b.len() == i,
                forall|k: int| 0 <= k < i ==> b[k] == exits(cfg.inters@)[k],
            decreases n - i,
        {
            out.set_value(i, i, ONE);
            if cfg.inters[i].exit {
                b.push(ONE);
            } else {
                b.push(ZERO);
            }
            i = i + 1;
        }

        let mut i: usize = 0;
        while i < n
            invariant
                i <= n,
                n == cfg.inters.len(),
                count_alleys == cfg.alleys.len(),
                linkable(cfg.inters@, cfg.alleys@),
                reliable(*unit),
                c == arith(*unit),
                out@ == rows_filled(c, cfg.inters@, cfg.alleys@, i as int),
            decreases n - i,
        {
            let inter = cfg.inters[i];
            if !inter.exit && !inter.well {
                let mut total: u64 = ZERO;
                let mut k: usize = 0;
                while k < count_alleys
                    invariant
                        k <= count_alleys,
                        count_alleys == cfg.alleys.len(),
                        reliable(*unit),
                        c == arith(*unit),
                        total == total_pull(c, cfg.alleys@, inter.id, k as int),
                    decreases count_alleys - k,
                {
                    let alley = cfg.alleys[k];
                    if inter.id == alley.a.id || inter.id == alley.b.id {
                        let part = apply(unit, Op::Div, ONE, count(alley.length, unit));
                        total = apply(unit, Op::Add, total, part);
                    }
                    k = k + 1;
                }
                let ghost before = out@;
                let mut k: usize = 0;
                while k < count_alleys
                    invariant
                        k <= count_alleys,
                        i < n,
                        n == cfg.inters.len(),
                        count_alleys == cfg.alleys.len(),
                        inter == cfg.inters@[i as int],
                        !terminal(inter),
                        linkable(cfg.inters@, cfg.alleys@),
                        reliable(*unit),
                        c == arith(*unit),
                        out@ == row_filled(c, before, cfg.alleys@, i, inter.id, total, k as int),
                    decreases count_alleys - k,
                {
                    let alley = cfg.alleys[k];
                    if inter.id == alley.a.id {
                        let part = apply(unit, Op::Div, ONE, count(alley.length, unit));
                        let value = apply(unit, Op::Div, negate(part), total);
                        out.set_value(i, alley.b.id - 1, value);
                    } else if inter.id == alley.b.id {
                        let part = apply(unit, Op::Div, ONE, count(alley.length, unit));
                        let value = apply(unit, Op::Div, negate(part), total);
                        out.set_value(i, alley.a.id - 1, value);
                    }
                    k = k + 1;
                }
            }
            i = i + 1;
        }
        (out, b)
    }
}

impl Matrix {
    /// Sets up the system of a park as a dense matrix: the square, as large
    /// as the park has intersections, of what the sparse system holds.
    pub fn from_config<F: Fn(Op, u64, u64) -> u64>(cfg: &Config, unit: &F) -> (out: (
        Matrix,
        Vec<u64>,
    ))
        requires
            linkable(cfg.inters@, cfg.alleys@),
            reliable(*unit),
        ensures
            out.0@ == dense(
                rows_filled(arith(*unit), cfg.inters@, cfg.alleys@, cfg.inters@.len() as int),
                cfg.inters@.len() as int,
            ),
            out.1@ == exits(cfg.inters@),
    {
        let (sparse, b) = Sparse::from_config(cfg, unit);
        (Matrix::from_vecs(sparse.to_rows(cfg.inters.len())), b)
    }
}

} // verus!
