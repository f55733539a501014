//! The mathematical model of a grid: a square sequence of optional values,
//! with the counting and run-length notions the puzzle's two constraints
//! are stated with.

use vstd::prelude::*;
use crate::value::Value;

verus! {

/// How many cells of `s` hold exactly the value `v`.
pub open spec fn count_in(s: Seq<Option<Value>>, v: Value) -> int
    decreases s.len(),
{
    if s.len() == 0 {
        0
    } else {
        count_in(s.drop_last(), v) + if s.last() == Some(v) {
            1int
        } else {
            0int
        }
    }
}

/// How many cells of `s` are empty.
pub open spec fn count_none(s: Seq<Option<Value>>) -> int
    decreases s.len(),
{
    if s.len() == 0 {
        0
    } else {
        count_none(s.drop_last()) + if s.last() is None {
            1int
        } else {
            0int
        }
    }
}

/// No three consecutive cells of `s` all hold the value `v`.
pub open spec fn no_triple(s: Seq<Option<Value>>, v: Value) -> bool {
    forall|k: int|
        0 <= k && k + 2 < s.len() ==> !(#[trigger] s[k] == Some(v) && s[k + 1] == Some(v) && s[k
            + 2] == Some(v))
}

/// A row or column keeps both puzzle constraints for the value `v`:
/// at most `half` occurrences of `v`, and never three of them in a row.
pub open spec fn axis_ok(s: Seq<Option<Value>>, v: Value, half: int) -> bool {
    count_in(s, v) <= half && no_triple(s, v)
}

/// The grid is a square matrix of side `n`.
pub open spec fn grid_dims(g: Seq<Seq<Option<Value>>>, n: nat) -> bool {
    g.len() == n && forall|i: int| 0 <= i < n ==> (#[trigger] g[i]).len() == n
}

/// Column `j` of the grid, as a sequence read top to bottom.
pub open spec fn col_of(g: Seq<Seq<Option<Value>>>, j: int) -> Seq<Option<Value>> {
    Seq::new(g.len(), |i: int| g[i][j])
}

/// The grid with the single cell `(x, y)` replaced by `c`.
pub open spec fn grid_upd(g: Seq<Seq<Option<Value>>>, x: int, y: int, c: Option<Value>) -> Seq<
    Seq<Option<Value>>,
> {
    g.update(x, g[x].update(y, c))
}

/// Placing `v` at `(x, y)` would keep row `x` and column `y` within both
/// constraints, the cell itself counted as holding `v`.
pub open spec fn can_put_spec(g: Seq<Seq<Option<Value>>>, n: nat, x: int, y: int, v: Value) -> bool {
    axis_ok(g[x].update(y, Some(v)), v, n as int / 2) && axis_ok(
        col_of(g, y).update(x, Some(v)),
        v,
        n as int / 2,
    )
}

/// `v` is the only legal choice at `(x, y)`: the other value cannot be placed there.
pub open spec fn must_put_spec(g: Seq<Seq<Option<Value>>>, n: nat, x: int, y: int, v: Value) -> bool {
    !can_put_spec(g, n, x, y, v.spec_the_other())
}

/// Row `i` and column `i` keep both constraints for the value `v`.
pub open spec fn row_col_ok(g: Seq<Seq<Option<Value>>>, n: nat, i: int, v: Value) -> bool {
    axis_ok(g[i], v, n as int / 2) && axis_ok(col_of(g, i), v, n as int / 2)
}

/// Every row and column of the grid keeps both constraints for both values.
pub open spec fn grid_ok(g: Seq<Seq<Option<Value>>>, n: nat) -> bool {
    forall|i: int, v: Value| 0 <= i < n ==> #[trigger] row_col_ok(g, n, i, v)
}

/// Every cell of the grid is filled.
pub open spec fn grid_full(g: Seq<Seq<Option<Value>>>, n: nat) -> bool {
    forall|i: int, j: int| 0 <= i < n && 0 <= j < n ==> (#[trigger] g[i][j]) is Some
}

/// The number of empty cells in the whole grid.
pub open spec fn empties(g: Seq<Seq<Option<Value>>>) -> int
    decreases g.len(),
{
    if g.len() == 0 {
        0
    } else {
        empties(g.drop_last()) + count_none(g.last())
    }
}

/// The completely empty grid of side `n`.
pub open spec fn empty_grid(n: nat) -> Seq<Seq<Option<Value>>> {
    Seq::new(n, |i: int| Seq::new(n, |j: int| None::<Value>))
}

/// Every filled cell of `g` agrees with `sol`: `sol` completes `g`.
pub open spec fn extended_by(g: Seq<Seq<Option<Value>>>, sol: Seq<Seq<Option<Value>>>, n: nat) -> bool {
    forall|i: int, j: int|
        0 <= i < n && 0 <= j < n && (#[trigger] g[i][j]) is Some ==> g[i][j] == sol[i][j]
}

/// A full grid that satisfies both constraints everywhere and completes `g`.
pub open spec fn completion_of(sol: Seq<Seq<Option<Value>>>, g: Seq<Seq<Option<Value>>>, n: nat) -> bool {
    grid_dims(sol, n) && grid_full(sol, n) && grid_ok(sol, n) && extended_by(g, sol, n)
}

/// The length of the streak of cells holding `v` that ends just before
/// position `k`.
pub open spec fn run_before(s: Seq<Option<Value>>, v: Value, k: int) -> int
    decreases k,
{
    if k <= 0 {
        0
    } else if s[k - 1] == Some(v) {
        run_before(s, v, k - 1) + 1
    } else {
        0
    }
}

/// A streak is never negative and never longer than the scanned prefix.
pub proof fn lemma_run_before_bounds(s: Seq<Option<Value>>, v: Value, k: int)
    ensures
        0 <= run_before(s, v, k),
        run_before(s, v, k) <= k || k < 0,
    decreases k,
{
    if k > 0 {
        lemma_run_before_bounds(s, v, k - 1);
    }
}

/// A streak of three or more shows three consecutive equal cells.
pub proof fn lemma_run_triple(s: Seq<Option<Value>>, v: Value, k: int)
    requires
        run_before(s, v, k) >= 3,
        k <= s.len(),
    ensures
        !no_triple(s, v),
{
    lemma_run_before_bounds(s, v, k);
    assert(s[k - 1] == Some(v));
    assert(run_before(s, v, k - 1) >= 2);
    assert(s[k - 2] == Some(v));
    assert(run_before(s, v, k - 2) >= 1);
    assert(s[k - 3] == Some(v));
    let j = k - 3;
    assert(0 <= j && j + 2 < s.len());
    assert(s[j] == Some(v) && s[j + 1] == Some(v) && s[j + 2] == Some(v));
}

/// If no position carries a streak of three, there are no three consecutive
/// equal cells.
pub proof fn lemma_short_runs_no_triple(s: Seq<Option<Value>>, v: Value)
    requires
        forall|m: int| 0 <= m <= s.len() ==> #[trigger] run_before(s, v, m) <= 2,
    ensures
        no_triple(s, v),
{
    assert forall|k: int|
        0 <= k && k + 2 < s.len() implies !(#[trigger] s[k] == Some(v) && s[k + 1] == Some(v)
        && s[k + 2] == Some(v)) by {
        if s[k] == Some(v) && s[k + 1] == Some(v) && s[k + 2] == Some(v) {
            lemma_run_before_bounds(s, v, k);
            assert(run_before(s, v, k + 1) >= 1);
            assert(run_before(s, v, k + 2) >= 2);
            assert(run_before(s, v, k + 3) >= 3);
        }
    }
}

/// A forced value excludes the other: wherever `v` must be placed, the
/// other value cannot be placed.
pub proof fn lemma_must_put_excludes_other(
    g: Seq<Seq<Option<Value>>>,
    n: nat,
    x: int,
    y: int,
    v: Value,
)
    ensures
        must_put_spec(g, n, x, y, v) ==> !can_put_spec(g, n, x, y, v.spec_the_other()),
{
}

/// Whether some full valid grid completes `g`.
pub open spec fn has_completion(g: Seq<Seq<Option<Value>>>, n: nat) -> bool {
    exists|sol: Seq<Seq<Option<Value>>>| completion_of(sol, g, n)
}

/// The cell of the checkerboard pattern at diagonal position `p`.
pub open spec fn alt_cell(p: int) -> Option<Value> {
    Some(
        if p % 2 == 0 {
            Value::First
        } else {
            Value::Second
        },
    )
}

/// The stretch of the checkerboard pattern that starts at diagonal
/// position `i`.
pub open spec fn alt_row(i: int, len: nat) -> Seq<Option<Value>> {
    Seq::new(len, |j: int| alt_cell(i + j))
}

/// The checkerboard of side `n`: cell `(i, j)` holds the value of the
/// parity of `i + j`.
pub open spec fn checkerboard(n: nat) -> Seq<Seq<Option<Value>>> {
    Seq::new(n, |i: int| alt_row(i, n))
}

/// An alternating stretch of even length holds the two values in equal
/// number.
proof fn lemma_alt_count(i: int, len: nat, v: Value)
    requires
        len % 2 == 0,
    ensures
        count_in(alt_row(i, len), v) == len as int / 2,
    decreases len,
{
    let s = alt_row(i, len);
    if len > 0 {
        assert(len >= 2);
        assert(s.drop_last().drop_last() =~= alt_row(i, (len - 2) as nat));
        lemma_alt_count(i, (len - 2) as nat, v);
        assert(count_in(s.drop_last().drop_last(), v) == (len - 2) as int / 2);
        let a = s.last();
        let b = s.drop_last().last();
        assert(a == alt_cell(i + len - 1));
        assert(b == alt_cell(i + len - 2));
        assert((i + len - 1) % 2 != (i + len - 2) % 2);
        assert(a != b && a is Some && b is Some);
        assert(v == Value::First || v == Value::Second);
        assert((if a == Some(v) {
            1int
        } else {
            0int
        }) + (if b == Some(v) {
            1int
        } else {
            0int
        }) == 1);
        assert(count_in(s, v) == count_in(s.drop_last(), v) + (if a == Some(v) {
            1int
        } else {
            0int
        }));
        assert(count_in(s.drop_last(), v) == count_in(s.drop_last().drop_last(), v) + (if b
            == Some(v) {
            1int
        } else {
            0int
        }));
        assert((len - 2) as int / 2 + 1 == len as int / 2);
    }
}

/// The checkerboard is a full valid grid, so the empty grid always has at
/// least one completion.
pub proof fn lemma_checkerboard_valid(n: nat)
    requires
        n % 2 == 0,
    ensures
        completion_of(checkerboard(n), empty_grid(n), n),
        has_completion(empty_grid(n), n),
{
    let g = checkerboard(n);
    assert forall|i: int, v: Value| 0 <= i < n implies #[trigger] row_col_ok(g, n, i, v) by {
        assert(g[i] =~= alt_row(i, n));
        lemma_alt_count(i, n, v);
        assert(col_of(g, i) =~= alt_row(i, n));
        assert forall|k: int|
            0 <= k && k + 2 < n implies !(#[trigger] g[i][k] == Some(v) && g[i][k + 1] == Some(v)
            && g[i][k + 2] == Some(v)) by {
            assert((i + k) % 2 != (i + k + 1) % 2);
        }
        assert forall|k: int|
            0 <= k && k + 2 < n implies !(#[trigger] col_of(g, i)[k] == Some(v) && col_of(g, i)[k
            + 1] == Some(v) && col_of(g, i)[k + 2] == Some(v)) by {
            assert((i + k) % 2 != (i + k + 1) % 2);
        }
    }
}

/// The exact move of the grid's empty total when one cell is rewritten.
pub proof fn lemma_empties_upd_cell(
    g: Seq<Seq<Option<Value>>>,
    n: nat,
    x: int,
    y: int,
    c: Option<Value>,
)
    requires
        grid_dims(g, n),
        0 <= x < n,
        0 <= y < n,
    ensures
        empties(grid_upd(g, x, y, c)) == empties(g) + (if c is None {
            1int
        } else {
            0int
        }) - (if g[x][y] is None {
            1int
        } else {
            0int
        }),
{
    lemma_count_none_update(g[x], y, c);
    lemma_empties_update(g, x, g[x].update(y, c));
}

/// A sequence of empty cells holds no occurrence of either value.
pub proof fn lemma_count_in_all_none(s: Seq<Option<Value>>, v: Value)
    requires
        forall|j: int| 0 <= j < s.len() ==> (#[trigger] s[j]) is None,
    ensures
        count_in(s, v) == 0,
    decreases s.len(),
{
    if s.len() > 0 {
        assert(s.last() == s[s.len() - 1]);
        assert(forall|j: int| 0 <= j < s.len() - 1 ==> #[trigger] s.drop_last()[j] == s[j]);
        lemma_count_in_all_none(s.drop_last(), v);
    }
}

/// The empty grid keeps both constraints everywhere.
pub proof fn lemma_empty_grid_ok(n: nat)
    ensures
        grid_dims(empty_grid(n), n),
        grid_ok(empty_grid(n), n),
        empties(empty_grid(n)) == n * n,
{
    let g = empty_grid(n);
    assert forall|i: int, v: Value| 0 <= i < n implies #[trigger] row_col_ok(g, n, i, v) by {
        lemma_count_in_all_none(g[i], v);
        assert(forall|k: int| 0 <= k < n ==> (#[trigger] col_of(g, i)[k]) is None);
        lemma_count_in_all_none(col_of(g, i), v);
    }
    assert forall|i: int| 0 <= i < g.len() implies count_none(#[trigger] g[i]) == n as int by {
        lemma_count_none_all_none(g[i]);
    }
    lemma_empties_uniform(g, n as int);
}

/// Emptying a cell, or writing what the completion holds there, keeps the
/// grid compatible with that completion.
pub proof fn lemma_extended_by_put(
    g: Seq<Seq<Option<Value>>>,
    sol: Seq<Seq<Option<Value>>>,
    n: nat,
    x: int,
    y: int,
    c: Option<Value>,
)
    requires
        grid_dims(g, n),
        extended_by(g, sol, n),
        0 <= x < n,
        0 <= y < n,
        c is None || c == sol[x][y],
    ensures
        extended_by(grid_upd(g, x, y, c), sol, n),
{
    let t = grid_upd(g, x, y, c);
    assert forall|i: int, j: int|
        0 <= i < n && 0 <= j < n && (#[trigger] t[i][j]) is Some implies t[i][j] == sol[i][j] by {
        if i != x || j != y {
            assert(t[i][j] == g[i][j]);
        }
    }
}

/// In any full grid that keeps the balance constraint, every row and
/// column holds exactly half of each value.
pub proof fn lemma_full_grid_balanced(g: Seq<Seq<Option<Value>>>, n: nat)
    requires
        grid_dims(g, n),
        grid_ok(g, n),
        grid_full(g, n),
        n % 2 == 0,
    ensures
        forall|i: int|
            0 <= i < n ==> count_in(#[trigger] g[i], Value::First) == n as int / 2 && count_in(
                g[i],
                Value::Second,
            ) == n as int / 2,
        forall|i: int|
            0 <= i < n ==> count_in(#[trigger] col_of(g, i), Value::First) == n as int / 2
                && count_in(col_of(g, i), Value::Second) == n as int / 2,
{
    assert forall|i: int|
        0 <= i < n implies count_in(#[trigger] g[i], Value::First) == n as int / 2 && count_in(
        g[i],
        Value::Second,
    ) == n as int / 2 by {
        assert(row_col_ok(g, n, i, Value::First));
        assert(row_col_ok(g, n, i, Value::Second));
        lemma_count_none_zero(g[i]);
        lemma_counts_fill_len(g[i]);
    }
    assert forall|i: int|
        0 <= i < n implies count_in(#[trigger] col_of(g, i), Value::First) == n as int / 2
        && count_in(col_of(g, i), Value::Second) == n as int / 2 by {
        assert(row_col_ok(g, n, i, Value::First));
        assert(row_col_ok(g, n, i, Value::Second));
        assert(forall|k: int| 0 <= k < n ==> (#[trigger] col_of(g, i)[k]) is Some);
        lemma_count_none_zero(col_of(g, i));
        lemma_counts_fill_len(col_of(g, i));
    }
}

/// Placing `v` at `(x, y)` cannot be refused when some valid completion of
/// the grid holds `v` there: the grid never contradicts its completions.
pub proof fn lemma_completion_can_put(
    g: Seq<Seq<Option<Value>>>,
    sol: Seq<Seq<Option<Value>>>,
    n: nat,
    x: int,
    y: int,
    v: Value,
)
    requires
        grid_dims(g, n),
        completion_of(sol, g, n),
        n % 2 == 0,
        0 <= x < n,
        0 <= y < n,
        sol[x][y] == Some(v),
    ensures
        can_put_spec(g, n, x, y, v),
{
    let half = n as int / 2;
    let row = g[x].update(y, Some(v));
    let col = col_of(g, y).update(x, Some(v));
    let srow = sol[x];
    let scol = col_of(sol, y);
    assert(row_col_ok(sol, n, x, v));
    assert(row_col_ok(sol, n, y, v));
    lemma_count_in_le_pointwise(row, srow, v);
    lemma_count_in_bounds(srow, v);
    assert forall|k: int|
        0 <= k && k + 2 < row.len() implies !(#[trigger] row[k] == Some(v) && row[k + 1] == Some(v)
        && row[k + 2] == Some(v)) by {
        if row[k] == Some(v) && row[k + 1] == Some(v) && row[k + 2] == Some(v) {
            assert(srow[k] == Some(v) && srow[k + 1] == Some(v) && srow[k + 2] == Some(v));
        }
    }
    lemma_count_in_le_pointwise(col, scol, v);
    lemma_count_in_bounds(scol, v);
    assert forall|k: int|
        0 <= k && k + 2 < col.len() implies !(#[trigger] col[k] == Some(v) && col[k + 1] == Some(v)
        && col[k + 2] == Some(v)) by {
        if col[k] == Some(v) && col[k + 1] == Some(v) && col[k + 2] == Some(v) {
            assert(scol[k] == Some(v) && scol[k + 1] == Some(v) && scol[k + 2] == Some(v));
        }
    }
}

/// Wherever `a` holds the value `v`, `b` holds it too: then `a` counts at
/// most as many occurrences of `v` as `b`.
proof fn lemma_count_in_le_pointwise(a: Seq<Option<Value>>, b: Seq<Option<Value>>, v: Value)
    requires
        a.len() == b.len(),
        forall|j: int| 0 <= j < a.len() && #[trigger] a[j] == Some(v) ==> b[j] == Some(v),
    ensures
        count_in(a, v) <= count_in(b, v),
    decreases a.len(),
{
    if a.len() > 0 {
        assert(a.last() == a[a.len() - 1]);
        assert(b.last() == b[b.len() - 1]);
        assert(forall|j: int| 0 <= j < a.len() - 1 ==> #[trigger] a.drop_last()[j] == a[j]);
        assert(forall|j: int| 0 <= j < b.len() - 1 ==> #[trigger] b.drop_last()[j] == b[j]);
        lemma_count_in_le_pointwise(a.drop_last(), b.drop_last(), v);
    }
}

/// Counts never exceed the length of the sequence and are never negative.
pub proof fn lemma_count_in_bounds(s: Seq<Option<Value>>, v: Value)
    ensures
        0 <= count_in(s, v) <= s.len(),
    decreases s.len(),
{
    if s.len() > 0 {
        lemma_count_in_bounds(s.drop_last(), v);
    }
}

/// The count of a prefix never exceeds the count of the whole sequence.
pub proof fn lemma_count_in_prefix(s: Seq<Option<Value>>, v: Value, k: int)
    requires
        0 <= k <= s.len(),
    ensures
        count_in(s.take(k), v) <= count_in(s, v),
    decreases s.len() - k,
{
    if k < s.len() {
        lemma_count_in_prefix(s, v, k + 1);
        assert(s.take(k + 1).drop_last() =~= s.take(k));
        assert(count_in(s.take(k), v) <= count_in(s.take(k + 1), v));
    } else {
        assert(s.take(k) =~= s);
    }
}

/// Extending a prefix by one cell adds one to the count exactly when that
/// cell holds the value.
pub proof fn lemma_count_in_take_step(s: Seq<Option<Value>>, v: Value, k: int)
    requires
        0 <= k < s.len(),
    ensures
        count_in(s.take(k + 1), v) == count_in(s.take(k), v) + if s[k] == Some(v) {
            1int
        } else {
            0int
        },
{
    assert(s.take(k + 1).drop_last() =~= s.take(k));
    assert(s.take(k + 1).last() == s[k]);
}

/// Updating one cell moves the count by the difference between the new and
/// the old cell.
pub proof fn lemma_count_in_update(s: Seq<Option<Value>>, v: Value, j: int, c: Option<Value>)
    requires
        0 <= j < s.len(),
    ensures
        count_in(s.update(j, c), v) == count_in(s, v) + (if c == Some(v) {
            1int
        } else {
            0int
        }) - (if s[j] == Some(v) {
            1int
        } else {
            0int
        }),
    decreases s.len(),
{
    let t = s.update(j, c);
    if j == s.len() - 1 {
        assert(t.drop_last() =~= s.drop_last());
    } else {
        assert(t.drop_last() =~= s.drop_last().update(j, c));
        lemma_count_in_update(s.drop_last(), v, j, c);
    }
}

/// The same, for the count of empty cells.
pub proof fn lemma_count_none_update(s: Seq<Option<Value>>, j: int, c: Option<Value>)
    requires
        0 <= j < s.len(),
    ensures
        count_none(s.update(j, c)) == count_none(s) + (if c is None {
            1int
        } else {
            0int
        }) - (if s[j] is None {
            1int
        } else {
            0int
        }),
    decreases s.len(),
{
    let t = s.update(j, c);
    if j == s.len() - 1 {
        assert(t.drop_last() =~= s.drop_last());
    } else {
        assert(t.drop_last() =~= s.drop_last().update(j, c));
        lemma_count_none_update(s.drop_last(), j, c);
    }
}

/// A sequence with no empty cell splits its length between the two values.
pub proof fn lemma_counts_fill_len(s: Seq<Option<Value>>)
    requires
        count_none(s) == 0,
    ensures
        count_in(s, Value::First) + count_in(s, Value::Second) == s.len(),
    decreases s.len(),
{
    if s.len() > 0 {
        lemma_count_none_nonneg(s.drop_last());
        lemma_counts_fill_len(s.drop_last());
        assert(s.last() is Some);
        let v = s.last()->0;
        assert(v == Value::First || v == Value::Second);
        assert(s.last() == Some(Value::First) || s.last() == Some(Value::Second));
    }
}

/// The count of empty cells is never negative, and no larger than the length.
pub proof fn lemma_count_none_nonneg(s: Seq<Option<Value>>)
    ensures
        0 <= count_none(s) <= s.len(),
    decreases s.len(),
{
    if s.len() > 0 {
        lemma_count_none_nonneg(s.drop_last());
    }
}

/// A sequence without empty cells, exactly when its none-count is zero.
pub proof fn lemma_count_none_zero(s: Seq<Option<Value>>)
    ensures
        count_none(s) == 0 <==> (forall|j: int| 0 <= j < s.len() ==> (#[trigger] s[j]) is Some),
    decreases s.len(),
{
    if s.len() > 0 {
        lemma_count_none_nonneg(s.drop_last());
        lemma_count_none_zero(s.drop_last());
        assert(forall|j: int|
            0 <= j < s.len() - 1 ==> #[trigger] s[j] == s.drop_last()[j]);
        assert(s.last() == s[s.len() - 1]);
    }
}

/// Updating a cell in one row leaves the empty-cell total of the other rows
/// alone and moves the grid total with that one row.
pub proof fn lemma_empties_update(g: Seq<Seq<Option<Value>>>, x: int, r: Seq<Option<Value>>)
    requires
        0 <= x < g.len(),
    ensures
        empties(g.update(x, r)) == empties(g) + count_none(r) - count_none(g[x]),
    decreases g.len(),
{
    let t = g.update(x, r);
    if x == g.len() - 1 {
        assert(t.drop_last() =~= g.drop_last());
        assert(t.last() == r);
    } else {
        assert(t.drop_last() =~= g.drop_last().update(x, r));
        assert(t.last() == g.last());
        lemma_empties_update(g.drop_last(), x, r);
    }
}

/// The grid-level empty count is never negative.
pub proof fn lemma_empties_nonneg(g: Seq<Seq<Option<Value>>>)
    ensures
        0 <= empties(g),
    decreases g.len(),
{
    if g.len() > 0 {
        lemma_empties_nonneg(g.drop_last());
        lemma_count_none_nonneg(g.last());
    }
}

/// A grid has no empty cells exactly when its empty count is zero.
pub proof fn lemma_empties_zero_iff_full(g: Seq<Seq<Option<Value>>>, n: nat)
    requires
        grid_dims(g, n),
    ensures
        empties(g) == 0 <==> grid_full(g, n),
    decreases g.len(),
{
    lemma_empties_nonneg(g);
    if empties(g) == 0 {
        assert forall|i: int, j: int| 0 <= i < n && 0 <= j < n implies (#[trigger] g[i][j]) is Some by {
            lemma_empties_row_zero(g, i);
            lemma_count_none_zero(g[i]);
        }
    } else {
        if grid_full(g, n) {
            assert forall|i: int| 0 <= i < g.len() implies count_none(#[trigger] g[i]) == 0 by {
                lemma_count_none_zero(g[i]);
            }
            lemma_empties_all_rows_zero(g);
        }
    }
}

/// If every row has empty-count zero, so does the grid.
proof fn lemma_empties_all_rows_zero(g: Seq<Seq<Option<Value>>>)
    requires
        forall|i: int| 0 <= i < g.len() ==> count_none(#[trigger] g[i]) == 0,
    ensures
        empties(g) == 0,
    decreases g.len(),
{
    if g.len() > 0 {
        assert(g.last() == g[g.len() - 1]);
        assert(forall|i: int|
            0 <= i < g.len() - 1 ==> #[trigger] g.drop_last()[i] == g[i]);
        lemma_empties_all_rows_zero(g.drop_last());
    }
}

/// If the grid's empty count is zero, each single row's empty count is zero.
proof fn lemma_empties_row_zero(g: Seq<Seq<Option<Value>>>, i: int)
    requires
        0 <= i < g.len(),
        empties(g) == 0,
    ensures
        count_none(g[i]) == 0,
    decreases g.len(),
{
    lemma_empties_nonneg(g.drop_last());
    lemma_count_none_nonneg(g.last());
    if i == g.len() - 1 {
        assert(g.last() == g[i]);
    } else {
        assert(g.drop_last()[i] == g[i]);
        lemma_empties_row_zero(g.drop_last(), i);
    }
}

/// If all rows hold the same number of empty cells, the grid total is the
/// product of the row count with that number.
pub proof fn lemma_empties_uniform(g: Seq<Seq<Option<Value>>>, m: int)
    requires
        forall|i: int| 0 <= i < g.len() ==> count_none(#[trigger] g[i]) == m,
    ensures
        empties(g) == g.len() * m,
    decreases g.len(),
{
    if g.len() == 0 {
    } else {
        assert(g.last() == g[g.len() - 1]);
        assert(forall|i: int|
            0 <= i < g.len() - 1 ==> #[trigger] g.drop_last()[i] == g[i]);
        lemma_empties_uniform(g.drop_last(), m);
        assert((g.len() - 1) * m + m == g.len() * m) by (nonlinear_arith);
    }
}

/// Updating one cell keeps the grid square.
pub proof fn lemma_grid_upd_dims(g: Seq<Seq<Option<Value>>>, n: nat, x: int, y: int, c: Option<
    Value,
>)
    requires
        grid_dims(g, n),
        0 <= x < n,
        0 <= y < n,
    ensures
        grid_dims(grid_upd(g, x, y, c), n),
{
}

/// Writing the same cell twice keeps only the second write.
pub proof fn lemma_grid_upd_twice(
    g: Seq<Seq<Option<Value>>>,
    x: int,
    y: int,
    c1: Option<Value>,
    c2: Option<Value>,
)
    requires
        0 <= x < g.len(),
        0 <= y < g[x].len(),
    ensures
        grid_upd(grid_upd(g, x, y, c1), x, y, c2) == grid_upd(g, x, y, c2),
{
    assert(grid_upd(grid_upd(g, x, y, c1), x, y, c2) =~~= grid_upd(g, x, y, c2));
}

/// Writing back what a cell already holds changes nothing.
pub proof fn lemma_grid_upd_same(g: Seq<Seq<Option<Value>>>, x: int, y: int)
    requires
        0 <= x < g.len(),
        0 <= y < g[x].len(),
    ensures
        grid_upd(g, x, y, g[x][y]) == g,
{
    assert(grid_upd(g, x, y, g[x][y]) =~~= g);
}

/// The column through the updated cell is the old column with that one
/// entry replaced; every other column is untouched.
pub proof fn lemma_col_of_upd(g: Seq<Seq<Option<Value>>>, n: nat, x: int, y: int, c: Option<Value>)
    requires
        grid_dims(g, n),
        0 <= x < n,
        0 <= y < n,
    ensures
        col_of(grid_upd(g, x, y, c), y) == col_of(g, y).update(x, c),
        forall|j: int| 0 <= j < n && j != y ==> #[trigger] col_of(grid_upd(g, x, y, c), j) == col_of(
            g,
            j,
        ),
{
    assert(col_of(grid_upd(g, x, y, c), y) =~= col_of(g, y).update(x, c));
    assert forall|j: int| 0 <= j < n && j != y implies #[trigger] col_of(grid_upd(g, x, y, c), j)
        == col_of(g, j) by {
        assert(col_of(grid_upd(g, x, y, c), j) =~= col_of(g, j));
    }
}

/// Replacing a cell with anything but `Some(w)` cannot create a triple of `w`.
pub proof fn lemma_no_triple_update_other(s: Seq<Option<Value>>, w: Value, j: int, c: Option<Value>)
    requires
        no_triple(s, w),
        c != Some(w),
        0 <= j < s.len(),
    ensures
        no_triple(s.update(j, c), w),
{
    let t = s.update(j, c);
    assert forall|k: int|
        0 <= k && k + 2 < t.len() implies !(#[trigger] t[k] == Some(w) && t[k + 1] == Some(w) && t[k
        + 2] == Some(w)) by {
        if t[k] == Some(w) && t[k + 1] == Some(w) && t[k + 2] == Some(w) {
            assert(k != j && k + 1 != j && k + 2 != j);
            assert(s[k] == Some(w) && s[k + 1] == Some(w) && s[k + 2] == Some(w));
        }
    }
}

/// A legal placement, or any removal, keeps every row and column of the
/// grid within both constraints.
pub proof fn lemma_grid_ok_put(g: Seq<Seq<Option<Value>>>, n: nat, x: int, y: int, c: Option<Value>)
    requires
        grid_dims(g, n),
        grid_ok(g, n),
        0 <= x < n,
        0 <= y < n,
        c is Some ==> can_put_spec(g, n, x, y, c->0),
    ensures
        grid_ok(grid_upd(g, x, y, c), n),
{
    let t = grid_upd(g, x, y, c);
    let half = n as int / 2;
    lemma_col_of_upd(g, n, x, y, c);
    assert forall|i: int, v: Value| 0 <= i < n implies #[trigger] row_col_ok(t, n, i, v) by {
        assert(row_col_ok(g, n, i, v));
        if i != x {
            assert(t[i] == g[i]);
        } else if c is Some && c->0 == v {
            assert(axis_ok(g[x].update(y, Some(v)), v, half));
        } else {
            lemma_axis_ok_upd(g[i], v, half, y, c, g[i][y]);
        }
        if i != y {
            assert(col_of(t, i) == col_of(g, i));
        } else if c is Some && c->0 == v {
            assert(axis_ok(col_of(g, y).update(x, Some(v)), v, half));
        } else {
            lemma_axis_ok_upd(col_of(g, i), v, half, x, c, col_of(g, i)[x]);
        }
    }
}

/// One axis after an update: if the new cell does not hold `v`, or the
/// update was already shown legal for `v`, the axis stays within bounds.
proof fn lemma_axis_ok_upd(
    s: Seq<Option<Value>>,
    v: Value,
    half: int,
    j: int,
    c: Option<Value>,
    old_c: Option<Value>,
)
    requires
        axis_ok(s, v, half),
        0 <= j < s.len(),
        old_c == s[j],
        !(c is Some && c->0 == v),
    ensures
        axis_ok(s.update(j, c), v, half),
{
    lemma_count_in_update(s, v, j, c);
    lemma_no_triple_update_other(s, v, j, c);
}

/// A sequence of `len` empty cells has none-count `len`.
pub proof fn lemma_count_none_all_none(s: Seq<Option<Value>>)
    requires
        forall|j: int| 0 <= j < s.len() ==> (#[trigger] s[j]) is None,
    ensures
        count_none(s) == s.len(),
    decreases s.len(),
{
    if s.len() > 0 {
        assert(s.last() == s[s.len() - 1]);
        assert(forall|j: int|
            0 <= j < s.len() - 1 ==> #[trigger] s.drop_last()[j] == s[j]);
        lemma_count_none_all_none(s.drop_last());
    }
}

} // verus!
