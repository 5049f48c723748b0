//! Sparse matrices: the entries that are not zero, found by their position.

use crate::base::{default_grid, Grid, MatrixBase};
use crate::matrix::{
    column, default_entry, leader, lemma_pivot_order_permutes, permuted, pivot_order, swapped,
};
use crate::number::{arith, heavier, is_zero, reliable, Op, MINUS_HALF, ONE, ZERO};
use crate::solver::{grid_of, image, square, weigh};
use std::collections::HashMap;
use vstd::prelude::*;
use vstd::std_specs::iter::IteratorSpec;

verus! {

/// The entry of `m` at row `i` and column `j`: what is stored there, and
/// zero where nothing is.
pub open spec fn value_at(m: Map<(usize, usize), u64>, i: usize, j: usize) -> u64 {
    if m.contains_key((i, j)) {
        m[(i, j)]
    } else {
        ZERO
    }
}

/// Whether `m` stores no zero.
pub open spec fn pruned(m: Map<(usize, usize), u64>) -> bool {
    forall|p: (usize, usize)| #[trigger] m.contains_key(p) ==> !is_zero(m[p])
}

/// The square of side `n` in the upper left corner of `m`, written out.
pub open spec fn dense(m: Map<(usize, usize), u64>, n: int) -> Seq<Seq<u64>> {
    Seq::new(n as nat, |i: int| Seq::new(n as nat, |j: int| value_at(m, i as usize, j as usize)))
}

/// The entries of `rows` that are not zero, each at its position.
pub open spec fn nonzeros(rows: Seq<Seq<u64>>) -> Map<(usize, usize), u64> {
    Map::new(
        |p: (usize, usize)| p.0 < rows.len() && p.1 < rows[p.0 as int].len() && !is_zero(
            rows[p.0 as int][p.1 as int],
        ),
        |p: (usize, usize)| rows[p.0 as int][p.1 as int],
    )
}

/// The entries that are not zero of the system of a walk on a path of
/// `size` positions.
pub open spec fn default_path(size: usize) -> Map<(usize, usize), u64> {
    Map::new(
        |p: (usize, usize)| p.0 < size && p.1 < size && default_entry(
            size as int,
            p.0 as int,
            p.1 as int,
        ) != ZERO,
        |p: (usize, usize)| default_entry(size as int, p.0 as int, p.1 as int),
    )
}

/// The row that comes to stand at `row` when the first rows change places as
/// `order` says; a row beyond the reach of `order` stays.
pub open spec fn source(order: Seq<int>, row: usize) -> usize {
    if row < order.len() {
        order[row as int] as usize
    } else {
        row
    }
}

/// The matrix `m` with its rows in the order that `order` gives: every entry
/// of a row moves with the row.
pub open spec fn rows_moved(m: Map<(usize, usize), u64>, order: Seq<int>) -> Map<
    (usize, usize),
    u64,
> {
    Map::new(
        |p: (usize, usize)| m.contains_key((source(order, p.0), p.1)),
        |p: (usize, usize)| m[(source(order, p.0), p.1)],
    )
}

/// The sparse form of a square without a negative zero holds that square:
/// so the dense and the sparse form of it solve alike.
pub proof fn lemma_same_square(rows: Seq<Seq<u64>>, n: int)
    requires
        square(rows, n),
        n <= usize::MAX,
        forall|i: int, j: int|
            0 <= i < n && 0 <= j < n && is_zero(#[trigger] rows[i][j]) ==> rows[i][j] == ZERO,
    ensures
        dense(nonzeros(rows), n) == rows,
{
    assert forall|i: int| 0 <= i < n implies #[trigger] dense(nonzeros(rows), n)[i] =~= rows[i] by {}
}

/// The key under which the entry at `row` and `col` is stored.
spec fn key(row: usize, col: usize) -> u128 {
    (row * 0x1_0000_0000_0000_0000 + col) as u128
}

/// Whether `k` is the key of a position.
spec fn valid(k: u128) -> bool {
    k / 0x1_0000_0000_0000_0000 <= usize::MAX && k % 0x1_0000_0000_0000_0000 <= usize::MAX
}

/// The position that is stored under `k`.
spec fn position(k: u128) -> (usize, usize) {
    ((k / 0x1_0000_0000_0000_0000) as usize, (k % 0x1_0000_0000_0000_0000) as usize)
}

/// Whether the position `(row, col)` comes before `(i, j)`, row by row.
spec fn before(row: usize, col: usize, i: int, j: int) -> bool {
    row < i || (row == i && col < j)
}

/// Whether `data` holds what `m` holds at the positions before `(i, j)`, and
/// nothing else.
spec fn filled(data: Map<u128, u64>, m: Map<(usize, usize), u64>, i: int, j: int) -> bool {
    &&& forall|k: u128| #[trigger]
        data.contains_key(k) ==> valid(k) && m.contains_key(position(k)) && before(
            position(k).0,
            position(k).1,
            i,
            j,
        ) && data[k] == m[position(k)]
    &&& forall|row: usize, col: usize|
        m.contains_key((row, col)) && before(row, col, i, j) ==> data.contains_key(
            #[trigger] key(row, col),
        )
}

/// Where the row `row` comes to stand when `place` tells it for the first
/// rows; a row beyond the reach of `place` stays.
spec fn dest(place: Seq<usize>, row: usize) -> usize {
    if row < place.len() {
        place[row as int]
    } else {
        row
    }
}

/// Whether `order` and `place`, of one length, undo each other.
spec fn inverse(order: Seq<usize>, place: Seq<usize>) -> bool {
    &&& order.len() == place.len()
    &&& forall|k: int|
        0 <= k < order.len() ==> 0 <= (#[trigger] order[k]) < order.len() && place[order[k] as int]
            == k
    &&& forall|k: int|
        0 <= k < place.len() ==> 0 <= (#[trigger] place[k]) < place.len() && order[place[k] as int]
            == k
}

/// Whether `data` holds the first `upto` of `entries`, each in the row that
/// `place` sends it to, and nothing else.
spec fn moved(data: Map<u128, u64>, entries: Seq<(usize, usize, u64)>, place: Seq<usize>, upto: int)
    -> bool {
    &&& forall|k: u128| #[trigger]
        data.contains_key(k) ==> valid(k) && exists|u: int|
            0 <= u < upto && key(dest(place, (#[trigger] entries[u]).0), entries[u].1) == k
    &&& forall|u: int|
        0 <= u < upto ==> data.contains_key(
            key(dest(place, (#[trigger] entries[u]).0), entries[u].1),
        ) && data[key(dest(place, entries[u].0), entries[u].1)] == entries[u].2
}

/// The three constants are what their names say.
proof fn lemma_constants()
    ensures
        is_zero(ZERO),
        !is_zero(ONE),
        !is_zero(MINUS_HALF),
{
    assert(0u64 & 0x7FFF_FFFF_FFFF_FFFF == 0) by (bit_vector);
    assert(0x3FF0_0000_0000_0000u64 & 0x7FFF_FFFF_FFFF_FFFF != 0) by (bit_vector);
    assert(0xBFE0_0000_0000_0000u64 & 0x7FFF_FFFF_FFFF_FFFF != 0) by (bit_vector);
}

/// Computes the key of a position.
fn key_of(row: usize, col: usize) -> (k: u128)
    ensures
        k == key(row, col),
{
    (row as u128) * 0x1_0000_0000_0000_0000u128 + (col as u128)
}

/// A sparse matrix: the entries that are not zero, each under its position.
/// An entry is a binary64 number, held as its 64 bits. How many rows and
/// columns there are is not stored.
#[derive(Debug)]
pub struct Sparse {
    data: HashMap<u128, u64>,
}

impl Clone for Sparse {
    fn clone(&self) -> (s: Self)
        ensures
            s@ == self@,
    {
        proof {
            use_type_invariant(self);
        }
        Sparse { data: self.data.clone() }
    }
}

impl View for Sparse {
    type V = Map<(usize, usize), u64>;

    closed spec fn view(&self) -> Map<(usize, usize), u64> {
        Map::new(
            |p: (usize, usize)| self.data@.contains_key(key(p.0, p.1)),
            |p: (usize, usize)| self.data@[key(p.0, p.1)],
        )
    }
}

impl Sparse {
    /// Every key is that of a position, and no zero is stored.
    #[verifier::type_invariant]
    spec fn inv(self) -> bool {
        forall|k: u128| #[trigger]
            self.data@.contains_key(k) ==> valid(k) && !is_zero(self.data@[k])
    }

    /// The matrix that stores nothing.
    pub fn new() -> (s: Sparse)
        ensures
            s@ == Map::<(usize, usize), u64>::empty(),
            pruned(s@),
    {
        Sparse { data: HashMap::new() }
    }

    /// The matrix that stores nothing, with room for `size` entries.
    pub fn from_size(size: usize) -> (s: Sparse)
        ensures
            s@ == Map::<(usize, usize), u64>::empty(),
            pruned(s@),
    {
        Sparse { data: HashMap::with_capacity(size) }
    }

    /// The matrix of the entries of `vec_matrix` that are not zero.
    pub fn from_vecs(vec_matrix: Vec<Vec<u64>>) -> (s: Sparse)
        ensures
            s@ == nonzeros(grid_of(vec_matrix)),
            pruned(s@),
    {
        let ghost rows = grid_of(vec_matrix);
        let ghost m = nonzeros(rows);
        let mut data: HashMap<u128, u64> = HashMap::with_capacity(vec_matrix.len());
        let mut i: usize = 0;
        while i < vec_matrix.len()
            invariant
                i <= vec_matrix.len(),
                rows == grid_of(vec_matrix),
                m == nonzeros(rows),
                filled(data@, m, i as int, 0),
            decreases vec_matrix.len() - i,
        {
            let mut j: usize = 0;
            while j < vec_matrix[i].len()
                invariant
                    i < vec_matrix.len(),
                    j <= vec_matrix[i as int].len(),
                    rows == grid_of(vec_matrix),
                    m == nonzeros(rows),
                    filled(data@, m, i as int, j as int),
                decreases vec_matrix[i as int].len() - j,
            {
                let value: u64 = vec_matrix[i][j];
                if value & 0x7FFF_FFFF_FFFF_FFFF != 0 {
                    data.insert(key_of(i, j), value);
                }
                j = j + 1;
            }
            i = i + 1;
        }
        let s = Sparse { data };
        s
    }

    /// The system of a walk on a path of `size` positions.
    pub fn init_default_path(size: usize) -> (s: Sparse)
        requires
            size >= 2,
        ensures
            s@ == default_path(size),
            pruned(s@),
    {
        let ghost m = default_path(size);
        let mut data: HashMap<u128, u64> = HashMap::with_capacity(size);
        let mut i: usize = 0;
        proof {
            lemma_constants();
        }
        while i < size
            invariant
                i <= size,
                size >= 2,
                m == default_path(size),
                filled(data@, m, i as int, 0),
            decreases size - i,
        {
            if 0 < i && i < size - 1 {
                data.insert(key_of(i, i - 1), MINUS_HALF);
                data.insert(key_of(i, i + 1), MINUS_HALF);
            }
            data.insert(key_of(i, i), ONE);
            i = i + 1;
        }
        let s = Sparse { data };
        s
    }

    /// The entries that are stored, each with its row and its column, in no
    /// order that could be told beforehand.
    pub fn entries(&self) -> (all: Vec<(usize, usize, u64)>)
        ensures
            forall|t: int|
                0 <= t < all.len() ==> self@.contains_key(((#[trigger] all[t]).0, all[t].1))
                    && self@[(all[t].0, all[t].1)] == all[t].2,
            forall|p: (usize, usize)| #[trigger]
                self@.contains_key(p) ==> exists|t: int|
                    0 <= t < all.len() && (#[trigger] all[t]).0 == p.0 && all[t].1 == p.1,
            forall|t: int, u: int|
                0 <= t < u < all.len() ==> (#[trigger] all[t]).0 != (#[trigger] all[u]).0
                    || all[t].1 != all[u].1,
    {
        proof {
            use_type_invariant(self);
        }
        let mut all: Vec<(usize, usize, u64)> = Vec::new();
        let ghost full = self.data.iter().remaining();
        for pair in it: self.data.iter()
            invariant
                forall|k: u128| #[trigger]
                    self.data@.contains_key(k) ==> valid(k) && !is_zero(self.data@[k]),
                it.seq() == full,
                forall|t: int|
                    0 <= t < full.len() ==> self.data@.contains_key(*(#[trigger] full[t]).0)
                        && self.data@[*full[t].0] == *full[t].1,
                all.len() == it.index(),
                forall|t: int|
                    0 <= t < all.len() ==> (#[trigger] all[t]).0 == position(*full[t].0).0
                        && all[t].1 == position(*full[t].0).1 && all[t].2 == *full[t].1,
        {
            let (k, value) = pair;
            let row: u128 = *k / 0x1_0000_0000_0000_0000u128;
            let col: u128 = *k % 0x1_0000_0000_0000_0000u128;
            all.push((row as usize, col as usize, *value));
        }
        assert forall|p: (usize, usize)| #[trigger] self@.contains_key(p) implies exists|t: int|
            0 <= t < all.len() && (#[trigger] all[t]).0 == p.0 && all[t].1 == p.1 by {
            let k = key(p.0, p.1);
            let t = choose|t: int| 0 <= t < full.len() && full[t] == (&k, &self.data@[k]);
            assert(all[t].0 == p.0 && all[t].1 == p.1);
        }
        all
    }

    /// Reorders the system by partial pivoting, without solving it: the
    /// rows of the square of side `b.len()` are told apart as those of a
    /// dense matrix are, and every entry of a row moves with the row, as
    /// the entries of `b` do.
    pub fn partial_pivot(&self, b: &Vec<u64>) -> (out: (Sparse, Vec<u64>))
        ensures
            out.0@ == rows_moved(
                self@,
                pivot_order(dense(self@, b.len() as int), b.len() as int),
            ),
            out.1@ == permuted(b@, pivot_order(dense(self@, b.len() as int), b.len() as int)),
            pruned(out.0@),
    {
        let n: usize = b.len();
        let ghost rows = dense(self@, n as int);
        let mut order: Vec<usize> = Vec::new();
        let mut place: Vec<usize> = Vec::new();
        let mut k: usize = 0;
        while k < n
            invariant
                k <= n,
                order.len() == k,
                place.len() == k,
                forall|j: int| 0 <= j < k ==> order[j] == j && place[j] == j,
            decreases n - k,
        {
            order.push(k);
            place.push(k);
            k = k + 1;
        }
        let mut i: usize = 0;
        while i < n
            invariant
                i <= n,
                n == b.len(),
                rows == dense(self@, n as int),
                order.len() == n,
                inverse(order@, place@),
                order@.map_values(|k: usize| k as int) == pivot_order(rows, i as int),
            decreases n - i,
        {
            let ghost before = pivot_order(rows, i as int);
            let ghost col = column(rows, before, i as int);
            let mut max_row: usize = i;
            let mut k: usize = i + 1;
            while k < n
                invariant
                    i < k <= n,
                    i <= max_row < k,
                    rows == dense(self@, n as int),
                    order.len() == n,
                    inverse(order@, place@),
                    order@.map_values(|k: usize| k as int) == before,
                    col == column(rows, before, i as int),
                    max_row == leader(col, i as int, k as int),
                decreases n - k,
            {
                if heavier(self.get_value(order[k], i), self.get_value(order[max_row], i)) {
                    max_row = k;
                }
                k = k + 1;
            }
            let at_i: usize = order[i];
            let at_max: usize = order[max_row];
            order.set(i, at_max);
            order.set(max_row, at_i);
            place.set(at_max, i);
            place.set(at_i, max_row);
            i = i + 1;
        }
        let ghost ord = pivot_order(rows, n as int);

        let mut b_new: Vec<u64> = Vec::new();
        let mut i: usize = 0;
        while i < n
            invariant
                i <= n,
                n == b.len(),
                order.len() == n,
                inverse(order@, place@),
                order@.map_values(|k: usize| k as int) == ord,
                b_new.len() == i,
                forall|k: int| 0 <= k < i ==> #[trigger] b_new[k] == b[ord[k]],
            decreases n - i,
        {
            b_new.push(b[order[i]]);
            i = i + 1;
        }

        let all = self.entries();
        let mut data: HashMap<u128, u64> = HashMap::with_capacity(all.len());
        let mut t: usize = 0;
        proof {
            use_type_invariant(self);
        }
        while t < all.len()
            invariant
                t <= all.len(),
                place.len() == n,
                inverse(order@, place@),
                forall|u: int|
                    0 <= u < all.len() ==> self@.contains_key(((#[trigger] all[u]).0, all[u].1))
                        && self@[(all[u].0, all[u].1)] == all[u].2,
                forall|u: int, v: int|
                    0 <= u < v < all.len() ==> (#[trigger] all[u]).0 != (#[trigger] all[v]).0
                        || all[u].1 != all[v].1,
                moved(data@, all@, place@, t as int),
            decreases all.len() - t,
        {
            let (row, col, value) = all[t];
            let to: usize = if row < n {
                place[row]
            } else {
                row
            };
            data.insert(key_of(to, col), value);
            t = t + 1;
        }
        let s = Sparse { data };
        (s, b_new)
    }

    /// The square of side `n` in the upper left corner, written out.
    pub fn to_rows(&self, n: usize) -> (rows: Vec<Vec<u64>>)
        ensures
            grid_of(rows) == dense(self@, n as int),
    {
        let mut rows: Vec<Vec<u64>> = Vec::new();
        let mut i: usize = 0;
        while i < n
            invariant
                i <= n,
                rows.len() == i,
                forall|r: int|
                    0 <= r < i ==> (#[trigger] rows[r])@ == Seq::new(
                        n as nat,
                        |j: int| value_at(self@, r as usize, j as usize),
                    ),
            decreases n - i,
        {
            let mut row: Vec<u64> = Vec::new();
            let mut j: usize = 0;
            while j < n
                invariant
                    j <= n,
                    i < n,
                    row.len() == j,
                    forall|t: int| 0 <= t < j ==> row[t] == value_at(self@, i, t as usize),
                decreases n - j,
            {
                row.push(self.get_value(i, j));
                j = j + 1;
            }
            rows.push(row);
            i = i + 1;
        }
        rows
    }

    /// The product of the square of side `other.len()` that the matrix
    /// holds with the vector `other`.
    pub fn multiply_by_vec<F: Fn(Op, u64, u64) -> u64>(&self, other: &Vec<u64>, unit: &F) -> (out:
        Vec<u64>)
        requires
            reliable(*unit),
        ensures
            out@ == image(arith(*unit), dense(self@, other.len() as int), other@),
    {
        let n: usize = other.len();
        let rows = self.to_rows(n);
        assert(grid_of(rows).len() == n);
        let mut out: Vec<u64> = Vec::new();
        let mut i: usize = 0;
        while i < n
            invariant
                i <= n,
                n == other.len(),
                rows.len() == n,
                reliable(*unit),
                grid_of(rows) == dense(self@, n as int),
                out.len() == i,
                forall|r: int|
                    0 <= r < i ==> out[r] == image(arith(*unit), dense(self@, n as int), other@)[r],
            decreases n - i,
        {
            assert(dense(self@, n as int)[i as int].len() == n);
            out.push(weigh(rows[i].as_slice(), other.as_slice(), n, unit));
            i = i + 1;
        }
        out
    }

    /// The entry at row `i` and column `j`.
    pub fn get_value(&self, i: usize, j: usize) -> (value: u64)
        ensures
            value == value_at(self@, i, j),
    {
        match self.data.get(&key_of(i, j)) {
            Some(value) => *value,
            None => ZERO,
        }
    }

    /// Sets the entry at row `i` and column `j`. A zero is not stored: it
    /// removes what was stored there.
    pub fn set_value(&mut self, i: usize, j: usize, value: u64)
        ensures
            final(self)@ == if is_zero(value) {
                old(self)@.remove((i, j))
            } else {
                old(self)@.insert((i, j), value)
            },
            pruned(old(self)@) ==> pruned(final(self)@),
    {
        proof {
            use_type_invariant(&*self);
        }
        let k = key_of(i, j);
        let mut data: HashMap<u128, u64> = HashMap::new();
        core::mem::swap(&mut self.data, &mut data);
        if value & 0x7FFF_FFFF_FFFF_FFFF == 0 {
            data.remove(&k);
        } else {
            data.insert(k, value);
        }
        core::mem::swap(&mut self.data, &mut data);
    }
}

impl Grid for Sparse {
    open spec fn grid(&self, n: int) -> Seq<Seq<u64>> {
        dense(self@, n)
    }

    open spec fn fits(&self, n: int) -> bool {
        true
    }

    proof fn lemma_grid_is_square(&self, n: int) {
    }

    fn entry(&self, n: usize, i: usize, j: usize) -> (value: u64) {
        self.get_value(i, j)
    }

    fn to_rows(&self, n: usize) -> (rows: Vec<Vec<u64>>) {
        Sparse::to_rows(self, n)
    }
}

impl MatrixBase for Sparse {
    fn init_default_path(size: usize) -> (m: Sparse) {
        let m = Sparse::init_default_path(size);
        assert(dense(m@, size as int) =~~= default_grid(size as int));
        m
    }

    fn partial_pivot(&self, b: &Vec<u64>) -> (out: (Sparse, Vec<u64>)) {
        let out = Sparse::partial_pivot(self, b);
        proof {
            let n = b.len() as int;
            let order = pivot_order(dense(self@, n), n);
            lemma_pivot_order_permutes(dense(self@, n), n);
            assert(dense(out.0@, n) =~~= permuted(dense(self@, n), order));
        }
        out
    }
}

} // verus!
