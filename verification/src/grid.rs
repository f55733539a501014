//! The grid of the game: a square matrix of optional values with an
//! incrementally maintained count of its empty cells, and the two
//! constraint checks `can_put` and `must_put`.

use vstd::prelude::*;
use crate::cells::{
    axis_ok, can_put_spec, col_of, count_in, count_none, empties, empty_grid, grid_dims, grid_full,
    grid_upd, lemma_count_in_prefix, lemma_count_in_take_step, lemma_count_none_all_none,
    lemma_count_none_nonneg, lemma_count_none_update, lemma_count_none_zero, lemma_empties_nonneg,
    lemma_empties_uniform, lemma_empties_update, lemma_empties_zero_iff_full, lemma_run_triple,
    lemma_short_runs_no_triple, must_put_spec, run_before,
};
use crate::size::Size;
use crate::value::Value;

verus! {

/// A binero grid.
pub struct Grid {
    size: Size,
    matrix: Vec<Vec<Option<Value>>>,
    empty_values: u16,
}

impl View for Grid {
    type V = Seq<Seq<Option<Value>>>;

    closed spec fn view(&self) -> Seq<Seq<Option<Value>>> {
        self.matrix@.map_values(|r: Vec<Option<Value>>| r@)
    }
}

impl Grid {
    /// The side length of the grid, as a mathematical integer.
    pub closed spec fn n(&self) -> nat {
        self.size.side()
    }

    /// The `Size` the grid was created with.
    pub closed spec fn spec_size(&self) -> Size {
        self.size
    }

    /// The grid is a square matrix of its side length and the empty-cell
    /// counter agrees with the matrix.
    pub closed spec fn wf(&self) -> bool {
        &&& grid_dims(self@, self.n())
        &&& self.empty_values == empties(self@)
    }

    /// What well-formedness guarantees about the shape of the grid: it is
    /// square, of an even side between 6 and 16.
    pub proof fn lemma_wf_dims(&self)
        requires
            self.wf(),
        ensures
            grid_dims(self@, self.n()),
            6 <= self.n() <= 16,
            self.n() % 2 == 0,
            self.n() == self.spec_size().side(),
    {
    }

    /// Returns a binero grid, entirely empty, with the given size.
    pub fn new(size: Size) -> (g: Grid)
        ensures
            g.wf(),
            g.spec_size() == size,
            g.n() == size.side(),
            g@ =~= empty_grid(size.side()),
    {
        let side = size.as_u8();
        let side_us = side as usize;
        let mut matrix: Vec<Vec<Option<Value>>> = Vec::new();
        let mut i: usize = 0;
        while i < side_us
            invariant
                0 <= i <= side_us,
                side_us == side,
                matrix@.len() == i,
                forall|a: int|
                    0 <= a < i ==> (#[trigger] matrix@[a])@ =~= Seq::new(
                        side as nat,
                        |j: int| None::<Value>,
                    ),
            decreases side_us - i,
        {
            let mut row: Vec<Option<Value>> = Vec::new();
            let mut j: usize = 0;
            while j < side_us
                invariant
                    0 <= j <= side_us,
                    side_us == side,
                    row@.len() == j,
                    forall|b: int| 0 <= b < j ==> (#[trigger] row@[b]) is None,
                decreases side_us - j,
            {
                row.push(None);
                j = j + 1;
            }
            assert(row@ =~= Seq::new(side as nat, |b: int| None::<Value>));
            matrix.push(row);
            i = i + 1;
        }
        proof {
            assert((side as int) * (side as int) <= 256) by (nonlinear_arith)
                requires
                    0 <= side as int <= 16,
            ;
        }
        let total = (side as u16) * (side as u16);
        let g = Grid { size, matrix, empty_values: total };
        proof {
            assert(g@ =~= empty_grid(size.side()));
            assert forall|a: int| 0 <= a < g@.len() implies count_none(#[trigger] g@[a])
                == side as int by {
                lemma_count_none_all_none(g@[a]);
            }
            lemma_empties_uniform(g@, side as int);
            assert(empties(g@) == side * side);
        }
        g
    }

    /// Returns the size of the grid.
    pub fn size(&self) -> (r: Size)
        ensures
            r == self.spec_size(),
    {
        self.size
    }

    /// Returns whether or not the grid is full.
    pub fn is_full(&self) -> (r: bool)
        requires
            self.wf(),
        ensures
            r <==> grid_full(self@, self.n()),
    {
        proof {
            lemma_empties_zero_iff_full(self@, self.n());
        }
        self.empty_values == 0
    }

    /// Returns the number of empty boxes in the grid.
    pub fn empty_values(&self) -> (r: u16)
        requires
            self.wf(),
        ensures
            r == empties(self@),
    {
        self.empty_values
    }

    /// Returns a value from the grid.
    pub fn get(&self, x_axis: u8, y_axis: u8) -> (r: Option<Value>)
        requires
            self.wf(),
            x_axis < self.n(),
            y_axis < self.n(),
        ensures
            r == self@[x_axis as int][y_axis as int],
    {
        proof {
            assert(self@.len() == self.matrix@.len());
            assert(self@[x_axis as int] == self.matrix@[x_axis as int]@);
        }
        self.matrix[x_axis as usize][y_axis as usize]
    }

    /// Returns whether or not a value must be put in the grid: the other
    /// value cannot legally stand at `(x_axis, y_axis)`.
    pub fn must_put(&self, x_axis: u8, y_axis: u8, value: Value) -> (r: bool)
        requires
            self.wf(),
            x_axis < self.n(),
            y_axis < self.n(),
        ensures
            r == must_put_spec(self@, self.n(), x_axis as int, y_axis as int, value),
    {
        let the_other_value = value.the_other();
        !self.can_put(x_axis, y_axis, the_other_value)
    }

    /// Returns whether or not a value can be put in the grid: with the cell
    /// counted as holding `value`, its row and column stay within both
    /// constraints.
    pub fn can_put(&self, x_axis: u8, y_axis: u8, value: Value) -> (r: bool)
        requires
            self.wf(),
            x_axis < self.n(),
            y_axis < self.n(),
        ensures
            r == can_put_spec(self@, self.n(), x_axis as int, y_axis as int, value),
    {
        self.can_accept(Axis::X, x_axis, y_axis, value) && self.can_accept(
            Axis::Y,
            x_axis,
            y_axis,
            value,
        )
    }

    /// The row or column that `can_accept` scans, with the target cell
    /// already replaced by the candidate value.
    spec fn scanned_axis(&self, axis: Axis, x: int, y: int, value: Value) -> Seq<Option<Value>> {
        match axis {
            Axis::X => self@[x].update(y, Some(value)),
            Axis::Y => col_of(self@, y).update(x, Some(value)),
        }
    }

    /// Returns whether or not the grid can accept a value in the nth row or
    /// column: one left-to-right pass keeps a running count of the value and
    /// the length of its current streak, with the target cell counted as
    /// already holding the value.
    fn can_accept(&self, axis: Axis, x_axis: u8, y_axis: u8, value: Value) -> (r: bool)
        requires
            self.wf(),
            x_axis < self.n(),
            y_axis < self.n(),
        ensures
            r == axis_ok(
                self.scanned_axis(axis, x_axis as int, y_axis as int, value),
                value,
                self.n() as int / 2,
            ),
    {
        let mut total_number: u8 = 0;
        let mut adjacent_number: u8 = 0;
        let size = self.size.as_u8();
        let half = size / 2;
        let ghost u = self.scanned_axis(axis, x_axis as int, y_axis as int, value);
        proof {
            assert(u.len() == size);
        }

        let index_in_changing_axis = match axis {
            Axis::X => y_axis,
            Axis::Y => x_axis,
        };

        let mut k: u8 = 0;
        while k < size
            invariant
                self.wf(),
                x_axis < self.n(),
                y_axis < self.n(),
                size == self.n(),
                half == self.n() as int / 2,
                u == self.scanned_axis(axis, x_axis as int, y_axis as int, value),
                u.len() == size,
                index_in_changing_axis == (match axis {
                    Axis::X => y_axis,
                    Axis::Y => x_axis,
                }),
                0 <= k <= size,
                total_number == count_in(u.take(k as int), value),
                0 <= total_number <= k,
                total_number <= half,
                adjacent_number == run_before(u, value, k as int),
                adjacent_number <= 2,
                forall|m: int| 0 <= m <= k ==> #[trigger] run_before(u, value, m) <= 2,
            decreases size - k,
        {
            proof {
                lemma_count_in_take_step(u, value, k as int);
            }
            if k == index_in_changing_axis {
                proof {
                    assert(u[k as int] == Some(value));
                }
                total_number += 1;
                adjacent_number += 1;
            } else {
                let v = match axis {
                    Axis::X => self.get(x_axis, k),
                    Axis::Y => self.get(k, y_axis),
                };
                proof {
                    assert(u[k as int] == v);
                }
                match v {
                    Some(val) => {
                        if val == value {
                            total_number += 1;
                            adjacent_number += 1;
                        } else {
                            adjacent_number = 0;
                        }
                    },
                    None => adjacent_number = 0,
                }
            }
            if total_number > half {
                proof {
                    lemma_count_in_prefix(u, value, k as int + 1);
                }
                return false;
            }
            if adjacent_number > 2 {
                proof {
                    lemma_run_triple(u, value, k as int + 1);
                }
                return false;
            }
            k += 1;
        }
        proof {
            assert(u.take(size as int) =~= u);
            lemma_short_runs_no_triple(u, value);
        }
        true
    }

    /// Puts a value in the grid and returns the previous one. No legality
    /// check is made: the callers check first, and undo must be able to
    /// restore any earlier state.
    pub fn put(&mut self, x_axis: u8, y_axis: u8, value: Option<Value>) -> (r: Option<Value>)
        requires
            old(self).wf(),
            x_axis < old(self).n(),
            y_axis < old(self).n(),
        ensures
            final(self).wf(),
            final(self).n() == old(self).n(),
            final(self).spec_size() == old(self).spec_size(),
            r == old(self)@[x_axis as int][y_axis as int],
            final(self)@ == grid_upd(old(self)@, x_axis as int, y_axis as int, value),
    {
        let x = x_axis as usize;
        let y = y_axis as usize;
        proof {
            assert(self@.len() == self.matrix@.len());
            assert(self@[x as int] == self.matrix@[x as int]@);
        }
        let result = self.matrix[x][y];
        let ghost old_view = self@;
        let ghost old_row = self@[x as int];
        let ghost n = self.n();
        let row = &mut self.matrix[x];
        row[y] = value;
        proof {
            assert(self@ =~~= grid_upd(old_view, x as int, y as int, value));
            lemma_count_none_update(old_row, y as int, value);
            lemma_empties_update(old_view, x as int, old_row.update(y as int, value));
            lemma_empties_row_bound(old_view, x as int);
            lemma_count_none_zero(old_row);
            lemma_count_none_nonneg(old_row);
            lemma_empties_nonneg(old_view);
            lemma_empties_upper(old_view, n as int);
            assert(n <= 16);
            assert(n as int * n as int <= 256) by (nonlinear_arith)
                requires
                    0 <= n as int <= 16,
            ;
        }
        if value.is_some() && result.is_none() {
            self.empty_values = self.empty_values - 1;
        } else if value.is_none() && result.is_some() {
            self.empty_values = self.empty_values + 1;
        }
        result
    }
}

/// Which of the two axes a scan walks along.
enum Axis {
    X,
    Y,
}

/// In a square grid of side `m`, the empty total is at most the cell count.
proof fn lemma_empties_upper(g: Seq<Seq<Option<Value>>>, m: int)
    requires
        forall|i: int| 0 <= i < g.len() ==> (#[trigger] g[i]).len() <= m,
        g.len() <= m,
        0 <= m,
    ensures
        empties(g) <= m * m,
{
    lemma_empties_upper_partial(g, m);
}

/// The empty total of a grid whose rows are at most `m` long is at most
/// `rows * m`.
proof fn lemma_empties_upper_partial(g: Seq<Seq<Option<Value>>>, m: int)
    requires
        forall|i: int| 0 <= i < g.len() ==> (#[trigger] g[i]).len() <= m,
        g.len() <= m,
        0 <= m,
    ensures
        empties(g) <= g.len() * m,
        empties(g) <= m * m,
    decreases g.len(),
{
    if g.len() == 0 {
        assert(0 <= m * m) by (nonlinear_arith)
            requires
                0 <= m,
        ;
    } else {
        assert(g.last() == g[g.len() - 1]);
        assert(forall|i: int|
            0 <= i < g.len() - 1 ==> #[trigger] g.drop_last()[i] == g[i]);
        lemma_empties_upper_partial(g.drop_last(), m);
        lemma_count_none_nonneg(g.last());
        assert((g.len() - 1) * m + m == g.len() * m) by (nonlinear_arith);
        assert(g.len() * m <= m * m) by (nonlinear_arith)
            requires
                0 <= g.len() <= m,
        ;
    }
}

/// The grid's empty total is at least the empty count of any one row.
proof fn lemma_empties_row_bound(g: Seq<Seq<Option<Value>>>, i: int)
    requires
        0 <= i < g.len(),
    ensures
        empties(g) >= count_none(g[i]),
    decreases g.len(),
{
    lemma_count_none_nonneg(g.last());
    lemma_empties_nonneg(g.drop_last());
    if i == g.len() - 1 {
        assert(g.last() == g[i]);
    } else {
        assert(g.drop_last()[i] == g[i]);
        lemma_empties_row_bound(g.drop_last(), i);
    }
}

} // verus!
