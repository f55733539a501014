//! The game engine: one grid and one history, the user-facing placement
//! and undo/redo operations, and the solver/generator.
//!
//! The engine's invariant ties the grid to the history: the grid always
//! equals the state reached by applying the first `depth` trail items to a
//! base grid, and every trail item records what its cell held just before
//! it was applied. Undo and redo therefore restore exactly the recorded
//! states.

use vstd::prelude::*;
use crate::cells::{
    alt_cell, can_put_spec, checkerboard, col_of, completion_of, count_in, empty_grid, grid_dims,
    grid_full, grid_ok,
    grid_upd, has_completion, empties, lemma_checkerboard_valid, lemma_completion_can_put,
    lemma_empties_upd_cell,
    lemma_empty_grid_ok, lemma_extended_by_put,
    lemma_full_grid_balanced, lemma_grid_ok_put, lemma_grid_upd_dims, lemma_grid_upd_same,
    lemma_grid_upd_twice, extended_by, must_put_spec,
};
use crate::difficulty::Difficulty;
use crate::grid::Grid;
use crate::history::{History, Item};
use crate::rng::{rand_bit, shuffle_pairs};
use vstd::pervasive::unreached;
use crate::size::Size;
use crate::value::Value;

verus! {

/// The grid state reached from `base` after applying the new values of the
/// first `k` trail items.
pub open spec fn replay(base: Seq<Seq<Option<Value>>>, trail: Seq<Item>, k: int) -> Seq<
    Seq<Option<Value>>,
>
    decreases k,
{
    if k <= 0 {
        base
    } else {
        let it = trail[k - 1];
        grid_upd(replay(base, trail, k - 1), it.x_axis as int, it.y_axis as int, it.new_value)
    }
}

/// Every trail item addresses a cell inside the grid.
pub open spec fn items_in_bounds(trail: Seq<Item>, n: nat) -> bool {
    forall|k: int|
        0 <= k < trail.len() ==> ((#[trigger] trail[k]).x_axis as int) < n && (trail[k].y_axis
            as int) < n
}

/// Every trail item records as its old value exactly what its cell held in
/// the replayed state just before it.
pub open spec fn olds_consistent(base: Seq<Seq<Option<Value>>>, trail: Seq<Item>) -> bool {
    forall|k: int|
        0 <= k < trail.len() ==> (#[trigger] trail[k]).old_value == replay(
            base,
            trail,
            k,
        )[trail[k].x_axis as int][trail[k].y_axis as int]
}

/// Replaying depends only on the items before `k`.
pub proof fn lemma_replay_prefix(
    base: Seq<Seq<Option<Value>>>,
    t1: Seq<Item>,
    t2: Seq<Item>,
    k: int,
)
    requires
        0 <= k,
        forall|i: int| 0 <= i < k ==> t1[i] == t2[i],
    ensures
        replay(base, t1, k) == replay(base, t2, k),
    decreases k,
{
    if k > 0 {
        lemma_replay_prefix(base, t1, t2, k - 1);
    }
}

/// Replayed states keep the grid square.
pub proof fn lemma_replay_dims(base: Seq<Seq<Option<Value>>>, trail: Seq<Item>, n: nat, k: int)
    requires
        grid_dims(base, n),
        items_in_bounds(trail, n),
        0 <= k <= trail.len(),
    ensures
        grid_dims(replay(base, trail, k), n),
    decreases k,
{
    if k > 0 {
        lemma_replay_dims(base, trail, n, k - 1);
        let it = trail[k - 1];
        lemma_grid_upd_dims(
            replay(base, trail, k - 1),
            n,
            it.x_axis as int,
            it.y_axis as int,
            it.new_value,
        );
    }
}

/// Writing an item's old value back into the state after it yields the
/// state before it: undo restores exactly the previous recorded state.
pub proof fn lemma_replay_undo(base: Seq<Seq<Option<Value>>>, trail: Seq<Item>, n: nat, k: int)
    requires
        grid_dims(base, n),
        items_in_bounds(trail, n),
        olds_consistent(base, trail),
        0 <= k < trail.len(),
    ensures
        grid_upd(
            replay(base, trail, k + 1),
            trail[k].x_axis as int,
            trail[k].y_axis as int,
            trail[k].old_value,
        ) == replay(base, trail, k),
    decreases k,
{
    let it = trail[k];
    let x = it.x_axis as int;
    let y = it.y_axis as int;
    lemma_replay_dims(base, trail, n, k);
    assert(replay(base, trail, k + 1) == grid_upd(replay(base, trail, k), x, y, it.new_value));
    lemma_grid_upd_twice(replay(base, trail, k), x, y, it.new_value, it.old_value);
    assert(it.old_value == replay(base, trail, k)[x][y]);
    lemma_grid_upd_same(replay(base, trail, k), x, y);
}

/// Every trail item is a solver move: it filled a previously empty cell
/// with a value. The solver only ever writes into empty cells, so its
/// trail never touches what the starting grid already held.
pub open spec fn solver_items(trail: Seq<Item>) -> bool {
    forall|k: int|
        0 <= k < trail.len() ==> (#[trigger] trail[k]).old_value is None && trail[k].new_value
            is Some
}

/// A cell that no applied item writes keeps its base value through replay.
proof fn lemma_replay_untouched(
    base: Seq<Seq<Option<Value>>>,
    trail: Seq<Item>,
    n: nat,
    d: int,
    x: int,
    y: int,
)
    requires
        grid_dims(base, n),
        items_in_bounds(trail, n),
        0 <= d <= trail.len(),
        0 <= x < n,
        0 <= y < n,
        forall|k: int|
            0 <= k < d ==> !((#[trigger] trail[k]).x_axis as int == x && trail[k].y_axis as int
                == y),
    ensures
        replay(base, trail, d)[x][y] == base[x][y],
    decreases d,
{
    if d > 0 {
        lemma_replay_untouched(base, trail, n, d - 1, x, y);
        lemma_replay_dims(base, trail, n, d - 1);
    }
}

/// A cell the base already fills stays filled through a replay of moves
/// that only ever write values.
proof fn lemma_replay_keeps_filled(
    base: Seq<Seq<Option<Value>>>,
    trail: Seq<Item>,
    n: nat,
    d: int,
    x: int,
    y: int,
)
    requires
        grid_dims(base, n),
        items_in_bounds(trail, n),
        solver_items(trail),
        0 <= d <= trail.len(),
        0 <= x < n,
        0 <= y < n,
        base[x][y] is Some,
    ensures
        replay(base, trail, d)[x][y] is Some,
    decreases d,
{
    if d > 0 {
        lemma_replay_keeps_filled(base, trail, n, d - 1, x, y);
        lemma_replay_dims(base, trail, n, d - 1);
    }
}

/// Solver moves never overwrite the starting grid: every replayed state of
/// a solver trail still holds whatever the base grid held.
proof fn lemma_solver_trail_extends(
    base: Seq<Seq<Option<Value>>>,
    trail: Seq<Item>,
    n: nat,
    d: int,
)
    requires
        grid_dims(base, n),
        items_in_bounds(trail, n),
        olds_consistent(base, trail),
        solver_items(trail),
        0 <= d <= trail.len(),
    ensures
        extended_by(base, replay(base, trail, d), n),
    decreases d,
{
    assert forall|x: int, y: int|
        0 <= x < n && 0 <= y < n && (#[trigger] base[x][y]) is Some implies base[x][y] == replay(
        base,
        trail,
        d,
    )[x][y] by {
        assert forall|k: int|
            0 <= k < d implies !((#[trigger] trail[k]).x_axis as int == x && trail[k].y_axis as int
            == y) by {
            if trail[k].x_axis as int == x && trail[k].y_axis as int == y {
                assert(trail[k].old_value is None);
                assert(trail[k].old_value == replay(base, trail, k)[x][y]);
                lemma_replay_keeps_filled(base, trail, n, k, x, y);
            }
        }
        lemma_replay_untouched(base, trail, n, d, x, y);
    }
}

/// The largest number of cells that a difficulty allows the generator to
/// leave empty, out of `total` cells: half of them for the lowest level,
/// growing shares for the higher ones, everything for the highest.
pub open spec fn removal_cap(difficulty: Difficulty, total: int) -> int {
    match difficulty {
        Difficulty::Beginner => total / 2,
        Difficulty::Easy => total * 2 / 3,
        Difficulty::Medium => total * 3 / 4,
        Difficulty::Hard => total,
    }
}

/// All cells of a grid of side `n`, as coordinate pairs in row-major
/// order.
pub open spec fn all_cells(n: nat) -> Seq<(u8, u8)> {
    Seq::new((n * n) as nat, |k: int| (((k / n as int) as u8), ((k % n as int) as u8)))
}

/// A binero game: a grid, the history of its placements, and (as ghost
/// state) the base grid that the history starts from.
pub struct Binero {
    grid: Grid,
    history: History,
    base: Ghost<Seq<Seq<Option<Value>>>>,
}

impl Binero {
    /// The current grid, as a square sequence of cells.
    pub closed spec fn grid_view(self) -> Seq<Seq<Option<Value>>> {
        self.grid@
    }

    /// The side length of the grid.
    pub closed spec fn n(self) -> nat {
        self.grid.n()
    }

    /// The `Size` the game was created with.
    pub closed spec fn spec_size(self) -> Size {
        self.grid.spec_size()
    }

    /// The whole recorded trail, applied and undone items alike.
    pub closed spec fn trail(self) -> Seq<Item> {
        self.history.trail()
    }

    /// The stack of trail indices recorded as choices.
    pub closed spec fn choices(self) -> Seq<usize> {
        self.history.choices()
    }

    /// How many trail items are currently applied.
    pub closed spec fn depth(self) -> int {
        self.history.cur_depth()
    }

    /// The grid state at the start of the recorded history.
    pub closed spec fn base_view(self) -> Seq<Seq<Option<Value>>> {
        self.base@
    }

    /// Whether an applied item exists that undo could cancel.
    pub open spec fn can_undo_spec(self) -> bool {
        self.depth() > 0
    }

    /// Whether an undone item exists that redo could replay.
    pub open spec fn can_redo_spec(self) -> bool {
        self.depth() < self.trail().len()
    }

    /// The engine's invariant: grid and history are well formed, the trail
    /// addresses cells inside the grid and records old values faithfully,
    /// and the grid is the replay of the applied prefix of the trail.
    pub closed spec fn wf(self) -> bool {
        &&& self.grid.wf()
        &&& self.history.wf()
        &&& grid_dims(self.base@, self.n())
        &&& items_in_bounds(self.history.trail(), self.n())
        &&& olds_consistent(self.base@, self.history.trail())
        &&& self.grid@ == replay(self.base@, self.history.trail(), self.history.cur_depth())
    }

    /// Every state the history can reach — the base and each replayed
    /// prefix — keeps both puzzle constraints everywhere.
    pub closed spec fn snapshots_ok(self) -> bool {
        forall|k: int|
            0 <= k <= self.trail().len() ==> grid_ok(
                #[trigger] replay(self.base@, self.trail(), k),
                self.n(),
            )
    }

    /// The recorded states only depend on base, trail and side length: two
    /// engines that agree on those share the snapshot property.
    proof fn lemma_snapshots_same(a: Binero, b: Binero)
        requires
            b.trail() == a.trail(),
            b.base_view() == a.base_view(),
            b.n() == a.n(),
            a.snapshots_ok(),
        ensures
            b.snapshots_ok(),
    {
        assert forall|k: int| 0 <= k <= b.trail().len() implies grid_ok(
            #[trigger] replay(b.base_view(), b.trail(), k),
            b.n(),
        ) by {
            assert(grid_ok(replay(a.base_view(), a.trail(), k), a.n()));
        }
    }

    /// What well-formedness guarantees to callers: the applied depth never
    /// leaves the trail, and the grid is a square of the advertised side.
    pub proof fn lemma_depth_in_trail(self)
        requires
            self.wf(),
        ensures
            0 <= self.depth() <= self.trail().len(),
            grid_dims(self.grid_view(), self.n()),
            6 <= self.n() <= 16,
            self.n() % 2 == 0,
    {
        self.grid.lemma_wf_dims();
    }

    /// In an engine whose recorded states all keep the constraints, the
    /// current grid keeps them too: no row or column holds more than half
    /// of one value or three equal values in a row.
    pub proof fn lemma_current_grid_ok(self)
        requires
            self.wf(),
            self.snapshots_ok(),
        ensures
            grid_ok(self.grid_view(), self.n()),
    {
        self.lemma_depth_in_trail();
        assert(grid_ok(replay(self.base@, self.trail(), self.depth()), self.n()));
    }

    /// Returns whether or not the grid is full.
    pub fn is_full(&self) -> (r: bool)
        requires
            self.wf(),
        ensures
            r <==> grid_full(self.grid_view(), self.n()),
    {
        self.grid.is_full()
    }

    /// Returns a value from the grid.
    pub fn get(&self, x_axis: u8, y_axis: u8) -> (r: Option<Value>)
        requires
            self.wf(),
            x_axis < self.n(),
            y_axis < self.n(),
        ensures
            r == self.grid_view()[x_axis as int][y_axis as int],
    {
        self.grid.get(x_axis, y_axis)
    }

    /// Returns the size of the grid.
    pub fn size(&self) -> (r: Size)
        ensures
            r == self.spec_size(),
    {
        self.grid.size()
    }

    /// Clears the history of the game: the current grid becomes the new
    /// base state.
    pub fn clear_history(&mut self)
        requires
            old(self).wf(),
        ensures
            final(self).wf(),
            final(self).grid_view() == old(self).grid_view(),
            final(self).n() == old(self).n(),
            final(self).spec_size() == old(self).spec_size(),
            final(self).trail().len() == 0,
            final(self).choices().len() == 0,
            final(self).depth() == 0,
            final(self).base_view() == old(self).grid_view(),
            old(self).snapshots_ok() ==> final(self).snapshots_ok(),
    {
        proof {
            old(self).lemma_depth_in_trail();
        }
        self.history.clear();
        proof {
            self.base = Ghost(self.grid@);
            self.grid.lemma_wf_dims();
            assert(self.grid@ == replay(self.base@, self.trail(), 0));
            assert(items_in_bounds(self.trail(), self.n()));
            assert(olds_consistent(self.base@, self.trail()));
            if old(self).snapshots_ok() {
                assert(grid_ok(
                    replay(old(self).base@, old(self).trail(), old(self).depth()),
                    self.n(),
                ));
                assert(grid_ok(self.base@, self.n()));
                assert forall|k: int| 0 <= k <= self.trail().len() implies grid_ok(
                    #[trigger] replay(self.base@, self.trail(), k),
                    self.n(),
                ) by {
                    assert(k == 0);
                    assert(replay(self.base@, self.trail(), 0) == self.base@);
                }
            }
        }
    }

    /// Records one placement in grid and history. The undone tail of the
    /// trail is discarded, so afterwards nothing can be redone.
    fn record_put(&mut self, x_axis: u8, y_axis: u8, value: Option<Value>, is_a_choice: bool) -> (r:
        Option<Value>)
        requires
            old(self).wf(),
            x_axis < old(self).n(),
            y_axis < old(self).n(),
        ensures
            final(self).wf(),
            final(self).n() == old(self).n(),
            final(self).spec_size() == old(self).spec_size(),
            final(self).base_view() == old(self).base_view(),
            r == old(self).grid_view()[x_axis as int][y_axis as int],
            final(self).grid_view() == grid_upd(
                old(self).grid_view(),
                x_axis as int,
                y_axis as int,
                value,
            ),
            final(self).trail() == old(self).trail().take(old(self).depth()).push(
                Item { x_axis, y_axis, old_value: r, new_value: value },
            ),
            final(self).depth() == old(self).depth() + 1,
            !final(self).can_redo_spec(),
            final(self).choices() == (if is_a_choice {
                old(self).choices().filter(
                    |c: usize| (c as int) < old(self).depth(),
                ).push(old(self).depth() as usize)
            } else {
                old(self).choices().filter(|c: usize| (c as int) < old(self).depth())
            }),
            old(self).snapshots_ok() && grid_ok(
                grid_upd(old(self).grid_view(), x_axis as int, y_axis as int, value),
                old(self).n(),
            ) ==> final(self).snapshots_ok(),
            solver_items(old(self).trail()) && old(self).grid_view()[x_axis as int][y_axis
                as int] is None && value is Some ==> solver_items(final(self).trail()),
    {
        proof {
            old(self).lemma_depth_in_trail();
        }
        let old_value = self.grid.put(x_axis, y_axis, value);
        self.history.push(x_axis, y_axis, old_value, value, is_a_choice);
        proof {
            let base = self.base@;
            let n = old(self).n();
            let d = old(self).depth();
            let t0 = old(self).trail();
            let t1 = self.trail();
            let it = Item { x_axis, y_axis, old_value, new_value: value };
            assert(t1 == t0.take(d).push(it));
            assert(t1.len() == d + 1);
            assert(forall|i: int| 0 <= i < d ==> t1[i] == t0[i]);
            assert(t1[d] == it);
            assert forall|k: int| 0 <= k <= d implies replay(base, t1, k) == replay(
                base,
                t0,
                k,
            ) by {
                lemma_replay_prefix(base, t1, t0, k);
            }
            assert(items_in_bounds(t1, n));
            assert forall|k: int|
                0 <= k < t1.len() implies (#[trigger] t1[k]).old_value == replay(
                base,
                t1,
                k,
            )[t1[k].x_axis as int][t1[k].y_axis as int] by {
                if k < d {
                    assert(t1[k] == t0[k]);
                    assert(t0[k].old_value == replay(base, t0, k)[t0[k].x_axis as int][t0[k].y_axis
                        as int]);
                } else {
                    assert(replay(base, t1, d) == replay(base, t0, d));
                    assert(replay(base, t0, d) == old(self).grid_view());
                }
            }
            assert(replay(base, t1, d + 1) == grid_upd(
                replay(base, t1, d),
                x_axis as int,
                y_axis as int,
                value,
            ));
            if old(self).snapshots_ok() && grid_ok(
                grid_upd(old(self).grid_view(), x_axis as int, y_axis as int, value),
                n,
            ) {
                assert forall|k: int| 0 <= k <= t1.len() implies grid_ok(
                    #[trigger] replay(base, t1, k),
                    n,
                ) by {
                    if k <= d {
                        assert(grid_ok(replay(base, t0, k), n));
                    }
                }
            }
        }
        old_value
    }

    /// Try to put a value in the grid and returns whether or not it was
    /// possible. Placing a value demands that it be legal there; erasing a
    /// cell is always possible. A successful move discards the undone tail
    /// of the trail, so afterwards nothing can be redone.
    pub fn try_to_put(&mut self, x_axis: u8, y_axis: u8, value: Option<Value>) -> (r: bool)
        requires
            old(self).wf(),
            x_axis < old(self).n(),
            y_axis < old(self).n(),
        ensures
            final(self).wf(),
            final(self).n() == old(self).n(),
            final(self).spec_size() == old(self).spec_size(),
            final(self).base_view() == old(self).base_view(),
            r == (value is None || can_put_spec(
                old(self).grid_view(),
                old(self).n(),
                x_axis as int,
                y_axis as int,
                value->0,
            )),
            !r ==> *final(self) == *old(self),
            r ==> final(self).grid_view() == grid_upd(
                old(self).grid_view(),
                x_axis as int,
                y_axis as int,
                value,
            ),
            r ==> final(self).trail() == old(self).trail().take(old(self).depth()).push(
                Item {
                    x_axis,
                    y_axis,
                    old_value: old(self).grid_view()[x_axis as int][y_axis as int],
                    new_value: value,
                },
            ),
            r ==> final(self).depth() == old(self).depth() + 1,
            r ==> !final(self).can_redo_spec(),
            r ==> final(self).choices() == (if value is None || !must_put_spec(
                old(self).grid_view(),
                old(self).n(),
                x_axis as int,
                y_axis as int,
                value->0,
            ) {
                old(self).choices().filter(
                    |c: usize| (c as int) < old(self).depth(),
                ).push(old(self).depth() as usize)
            } else {
                old(self).choices().filter(|c: usize| (c as int) < old(self).depth())
            }),
            old(self).snapshots_ok() ==> final(self).snapshots_ok(),
    {
        match value {
            Some(val) => {
                if self.grid.can_put(x_axis, y_axis, val) {
                    proof {
                        if old(self).snapshots_ok() {
                            old(self).lemma_current_grid_ok();
                            self.grid.lemma_wf_dims();
                            lemma_grid_ok_put(
                                old(self).grid_view(),
                                old(self).n(),
                                x_axis as int,
                                y_axis as int,
                                value,
                            );
                        }
                    }
                    if self.grid.must_put(x_axis, y_axis, val) {
                        self.put_a_mandatory_value(x_axis, y_axis, val);
                    } else {
                        self.put_a_choice(x_axis, y_axis, value);
                    }
                } else {
                    return false;
                }
            },
            None => {
                proof {
                    if old(self).snapshots_ok() {
                        old(self).lemma_current_grid_ok();
                        self.grid.lemma_wf_dims();
                        lemma_grid_ok_put(
                            old(self).grid_view(),
                            old(self).n(),
                            x_axis as int,
                            y_axis as int,
                            value,
                        );
                    }
                }
                self.put_a_choice(x_axis, y_axis, value);
            },
        }
        true
    }

    /// The exact effect of a successful undo: the last applied item is
    /// cancelled and its old value written back into its cell.
    pub open spec fn undo_transition(pre: Binero, post: Binero) -> bool {
        let it = pre.trail()[pre.depth() - 1];
        &&& post.trail() == pre.trail()
        &&& post.choices() == pre.choices()
        &&& post.base_view() == pre.base_view()
        &&& post.n() == pre.n()
        &&& post.spec_size() == pre.spec_size()
        &&& post.depth() == pre.depth() - 1
        &&& post.grid_view() == grid_upd(
            pre.grid_view(),
            it.x_axis as int,
            it.y_axis as int,
            it.old_value,
        )
    }

    /// The exact effect of a successful redo: the next undone item is
    /// applied again and its new value written back into its cell.
    pub open spec fn redo_transition(pre: Binero, post: Binero) -> bool {
        let it = pre.trail()[pre.depth()];
        &&& post.trail() == pre.trail()
        &&& post.choices() == pre.choices()
        &&& post.base_view() == pre.base_view()
        &&& post.n() == pre.n()
        &&& post.spec_size() == pre.spec_size()
        &&& post.depth() == pre.depth() + 1
        &&& post.grid_view() == grid_upd(
            pre.grid_view(),
            it.x_axis as int,
            it.y_axis as int,
            it.new_value,
        )
    }

    /// Cancels the latest action and returns it if it is possible or
    /// returns `None`.
    pub fn try_to_undo(&mut self) -> (r: Option<Item>)
        requires
            old(self).wf(),
        ensures
            final(self).wf(),
            old(self).snapshots_ok() ==> final(self).snapshots_ok(),
            !old(self).can_undo_spec() ==> r is None && *final(self) == *old(self),
            old(self).can_undo_spec() ==> r == Some(old(self).trail()[old(self).depth() - 1])
                && Self::undo_transition(*old(self), *final(self)),
    {
        if self.history.is_undo_possible() {
            let ghost d = old(self).depth();
            let ghost trail = old(self).trail();
            proof {
                old(self).lemma_depth_in_trail();
                assert(trail[d - 1] == (#[trigger] trail[d - 1]));
            }
            let item = self.history.undo();
            proof {
                self.grid.lemma_wf_dims();
            }
            self.grid.put(item.x_axis(), item.y_axis(), item.old_value());
            proof {
                lemma_replay_undo(self.base@, trail, old(self).n(), d - 1);
            }
            Some(item)
        } else {
            None
        }
    }

    /// Replays the next action that was undone and returns it if it is
    /// possible or returns `None`.
    pub fn try_to_redo(&mut self) -> (r: Option<Item>)
        requires
            old(self).wf(),
        ensures
            final(self).wf(),
            old(self).snapshots_ok() ==> final(self).snapshots_ok(),
            !old(self).can_redo_spec() ==> r is None && *final(self) == *old(self),
            old(self).can_redo_spec() ==> r == Some(old(self).trail()[old(self).depth()])
                && Self::redo_transition(*old(self), *final(self)),
    {
        if self.history.is_redo_possible() {
            let ghost d = old(self).depth();
            let ghost trail = old(self).trail();
            proof {
                old(self).lemma_depth_in_trail();
                assert(trail[d] == (#[trigger] trail[d]));
            }
            let item = self.history.redo();
            proof {
                self.grid.lemma_wf_dims();
            }
            self.grid.put(item.x_axis(), item.y_axis(), item.new_value());
            proof {
                assert(replay(self.base@, trail, d + 1) == grid_upd(
                    replay(self.base@, trail, d),
                    trail[d].x_axis as int,
                    trail[d].y_axis as int,
                    trail[d].new_value,
                ));
            }
            Some(item)
        } else {
            None
        }
    }

    /// Undoing and then redoing brings grid and history back exactly where
    /// they were, as long as nothing is recorded in between.
    pub proof fn lemma_undo_then_redo(pre: Binero, mid: Binero, post: Binero)
        requires
            pre.wf(),
            pre.can_undo_spec(),
            Self::undo_transition(pre, mid),
            Self::redo_transition(mid, post),
        ensures
            post.grid_view() == pre.grid_view(),
            post.depth() == pre.depth(),
            post.trail() == pre.trail(),
            post.choices() == pre.choices(),
            post.base_view() == pre.base_view(),
    {
        let d = pre.depth();
        let it = pre.trail()[d - 1];
        let x = it.x_axis as int;
        let y = it.y_axis as int;
        pre.lemma_depth_in_trail();
        assert(it == (#[trigger] pre.trail()[d - 1]));
        lemma_replay_dims(pre.base_view(), pre.trail(), pre.n(), d - 1);
        lemma_replay_dims(pre.base_view(), pre.trail(), pre.n(), d);
        assert(pre.grid_view() == grid_upd(
            replay(pre.base_view(), pre.trail(), d - 1),
            x,
            y,
            it.new_value,
        ));
        assert(pre.grid_view()[x][y] == it.new_value);
        lemma_grid_upd_twice(pre.grid_view(), x, y, it.old_value, it.new_value);
        lemma_grid_upd_same(pre.grid_view(), x, y);
    }

    /// Redoing and then undoing brings grid and history back exactly where
    /// they were, as long as nothing is recorded in between.
    pub proof fn lemma_redo_then_undo(pre: Binero, mid: Binero, post: Binero)
        requires
            pre.wf(),
            pre.can_redo_spec(),
            Self::redo_transition(pre, mid),
            Self::undo_transition(mid, post),
        ensures
            post.grid_view() == pre.grid_view(),
            post.depth() == pre.depth(),
            post.trail() == pre.trail(),
            post.choices() == pre.choices(),
            post.base_view() == pre.base_view(),
    {
        let d = pre.depth();
        let it = pre.trail()[d];
        let x = it.x_axis as int;
        let y = it.y_axis as int;
        pre.lemma_depth_in_trail();
        assert(it == (#[trigger] pre.trail()[d]));
        lemma_replay_dims(pre.base_view(), pre.trail(), pre.n(), d);
        assert(it.old_value == replay(pre.base_view(), pre.trail(), d)[x][y]);
        assert(pre.grid_view()[x][y] == it.old_value);
        lemma_grid_upd_twice(pre.grid_view(), x, y, it.new_value, it.old_value);
        lemma_grid_upd_same(pre.grid_view(), x, y);
    }

    /// Cancels the last applied item and writes its old value back into the
    /// grid: the state becomes exactly the previous recorded one.
    fn undo_applied(&mut self) -> (r: Item)
        requires
            old(self).wf(),
            old(self).can_undo_spec(),
        ensures
            final(self).wf(),
            r == old(self).trail()[old(self).depth() - 1],
            Self::undo_transition(*old(self), *final(self)),
            final(self).grid_view() == replay(
                old(self).base_view(),
                old(self).trail(),
                old(self).depth() - 1,
            ),
            old(self).snapshots_ok() == final(self).snapshots_ok(),
    {
        let ghost d = old(self).depth();
        let ghost trail = old(self).trail();
        proof {
            old(self).lemma_depth_in_trail();
            assert(trail[d - 1] == (#[trigger] trail[d - 1]));
        }
        let item = self.history.undo();
        proof {
            self.grid.lemma_wf_dims();
        }
        self.grid.put(item.x_axis(), item.y_axis(), item.old_value());
        proof {
            lemma_replay_undo(self.base@, trail, old(self).n(), d - 1);
        }
        item
    }

    /// Returns a random `Value`.
    fn rand_value(&self) -> (r: Value) {
        let bit = rand_bit();
        match Value::from_u8(bit) {
            Some(v) => v,
            None => unreached(),
        }
    }

    /// Returns the mandatory value for a place in the grid if it exists or
    /// `None` if there is no mandatory value for that place.
    fn mandatory_value(&self, x_axis: u8, y_axis: u8) -> (r: Option<Value>)
        requires
            self.wf(),
            x_axis < self.n(),
            y_axis < self.n(),
        ensures
            r is Some ==> must_put_spec(
                self.grid_view(),
                self.n(),
                x_axis as int,
                y_axis as int,
                r->0,
            ),
            r is None ==> !must_put_spec(
                self.grid_view(),
                self.n(),
                x_axis as int,
                y_axis as int,
                Value::First,
            ) && !must_put_spec(
                self.grid_view(),
                self.n(),
                x_axis as int,
                y_axis as int,
                Value::Second,
            ),
    {
        let value = self.rand_value();
        if self.grid.must_put(x_axis, y_axis, value) {
            Some(value)
        } else {
            let other_value = value.the_other();
            if self.grid.must_put(x_axis, y_axis, other_value) {
                proof {
                    assert(value == Value::First || value == Value::Second);
                }
                Some(other_value)
            } else {
                proof {
                    assert(value == Value::First || value == Value::Second);
                    assert(value.spec_the_other() == other_value);
                }
                None
            }
        }
    }

    /// The engine was rewound to the recorded state of depth `c` of its
    /// own trail, with the trail itself untouched.
    pub open spec fn rewound_to(pre: Binero, post: Binero, c: int) -> bool {
        &&& 0 <= c <= pre.depth()
        &&& post.trail() == pre.trail()
        &&& post.depth() == c
        &&& post.grid_view() == replay(pre.base_view(), pre.trail(), c)
    }

    /// A successful backtrack that committed nothing: the engine was
    /// rewound — possibly by zero steps — to one of the recorded states of
    /// its own trail.
    pub open spec fn rewound_without_forcing(pre: Binero, post: Binero) -> bool {
        exists|c: int| #[trigger] Self::rewound_to(pre, post, c)
    }

    /// The engine was rewound to the recorded state just before trail item
    /// `c` — a guess — and the complement of that guess, legal there, was
    /// committed at its cell as a mandatory move, discarding the rest of
    /// the trail.
    pub open spec fn forced_complement_at(pre: Binero, post: Binero, c: int) -> bool {
        let it = pre.trail()[c];
        let state = replay(pre.base_view(), pre.trail(), c);
        let flipped = (it.new_value->0).spec_the_other();
        &&& 0 <= c < pre.depth()
        &&& it.new_value is Some
        &&& can_put_spec(state, pre.n(), it.x_axis as int, it.y_axis as int, flipped)
        &&& post.trail() == pre.trail().take(c).push(
            Item {
                x_axis: it.x_axis,
                y_axis: it.y_axis,
                old_value: it.old_value,
                new_value: Some(flipped),
            },
        )
        &&& post.depth() == c + 1
        &&& post.grid_view() == grid_upd(state, it.x_axis as int, it.y_axis as int, Some(flipped))
    }

    /// A successful backtrack that forced a value somewhere down the trail.
    pub open spec fn rewound_and_forced_complement(pre: Binero, post: Binero) -> bool {
        exists|c: int| #[trigger] Self::forced_complement_at(pre, post, c)
    }

    /// Try to backtrack to the latest choice in the history and returns
    /// whether or not it was possible: every item down to that choice is
    /// undone, and the complementary value is forced into the choice cell
    /// where it is legal; where it is not, the search rewinds further.
    #[verifier::rlimit(60)]
    fn backtrack_to_latest_choice(&mut self) -> (r: bool)
        requires
            old(self).wf(),
        ensures
            final(self).wf(),
            final(self).n() == old(self).n(),
            final(self).spec_size() == old(self).spec_size(),
            final(self).base_view() == old(self).base_view(),
            old(self).choices().len() == 0 ==> !r && final(self).grid_view() == old(
                self,
            ).grid_view() && final(self).trail() == old(self).trail() && final(self).choices()
                == old(self).choices() && final(self).depth() == old(self).depth(),
            old(self).choices().len() > 0 ==> final(self).choices().len() < old(
                self,
            ).choices().len(),
            r ==> final(self).depth() <= old(self).depth(),
            r ==> (final(self).trail() == old(self).trail() || final(self).trail().len()
                == final(self).depth()),
            r ==> Self::rewound_without_forcing(*old(self), *final(self))
                || Self::rewound_and_forced_complement(*old(self), *final(self)),
            solver_items(old(self).trail()) ==> solver_items(final(self).trail()),
            solver_items(old(self).trail()) && !grid_full(old(self).grid_view(), old(self).n())
                && !r ==> !grid_full(final(self).grid_view(), final(self).n()),
            old(self).snapshots_ok() ==> final(self).snapshots_ok(),
        decreases self.choices().len(),
    {
        let latest_choice = self.history.latest_choice();
        proof {
            if old(self).snapshots_ok() {
                Self::lemma_snapshots_same(*old(self), *self);
            }
        }
        match latest_choice {
            Some(choice) => {
                let current = match self.history.current_item() {
                    Some(c) => c,
                    None => {
                        // A stale checkpoint while nothing is applied: the
                        // search has nothing left to rewind.
                        return false;
                    },
                };
                if choice > current {
                    // A stale checkpoint beyond the cursor: drop it and
                    // carry on.
                    proof {
                        assert(Self::rewound_to(*old(self), *self, old(self).depth()));
                    }
                    return true;
                }
                let ghost mid = *self;
                proof {
                    self.lemma_depth_in_trail();
                    assert(self.depth() == current + 1);
                }
                let mut k = current;
                let mut item = self.undo_applied();
                while k > choice
                    invariant
                        mid.wf(),
                        self.wf(),
                        choice <= k <= current,
                        (current as int) < mid.trail().len(),
                        self.depth() == k,
                        self.trail() == mid.trail(),
                        self.choices() == mid.choices(),
                        self.base_view() == mid.base_view(),
                        self.n() == mid.n(),
                        self.spec_size() == mid.spec_size(),
                        item == mid.trail()[k as int],
                        old(self).snapshots_ok() ==> self.snapshots_ok(),
                    decreases k,
                {
                    k -= 1;
                    item = self.undo_applied();
                }
                proof {
                    assert(item == mid.trail()[choice as int]);
                    assert(mid.trail()[choice as int] == (#[trigger] mid.trail()[choice as int]));
                }
                match item.new_value() {
                    Some(bad_value) => {
                        let x_axis = item.x_axis();
                        let y_axis = item.y_axis();
                        let other_value = bad_value.the_other();
                        if self.grid.can_put(x_axis, y_axis, other_value) {
                            proof {
                                if old(self).snapshots_ok() {
                                    self.lemma_current_grid_ok();
                                    self.grid.lemma_wf_dims();
                                    lemma_grid_ok_put(
                                        self.grid_view(),
                                        self.n(),
                                        x_axis as int,
                                        y_axis as int,
                                        Some(other_value),
                                    );
                                }
                            }
                            let ghost pre_push_choices = self.choices();
                            let ghost state = self.grid_view();
                            self.put_a_mandatory_value(x_axis, y_axis, other_value);
                            proof {
                                pre_push_choices.lemma_filter_len(
                                    |c: usize| (c as int) < choice + 1,
                                );
                                if old(self).snapshots_ok() {
                                    assert(self.snapshots_ok());
                                }
                                assert(state == replay(
                                    old(self).base_view(),
                                    old(self).trail(),
                                    choice as int,
                                ));
                                assert(state[x_axis as int][y_axis as int] == item.old_value);
                                assert(Self::forced_complement_at(
                                    *old(self),
                                    *self,
                                    choice as int,
                                ));
                            }
                            true
                        } else {
                            let ghost mid2 = *self;
                            let deeper = self.backtrack_to_latest_choice();
                            proof {
                                if deeper {
                                    if Self::rewound_without_forcing(mid2, *self) {
                                        let c = choose|c: int|
                                            #[trigger] Self::rewound_to(mid2, *self, c);
                                        assert(Self::rewound_to(*old(self), *self, c));
                                    } else {
                                        let c = choose|c: int|
                                            #[trigger] Self::forced_complement_at(mid2, *self, c);
                                        assert(Self::forced_complement_at(*old(self), *self, c));
                                    }
                                }
                            }
                            deeper
                        }
                    },
                    None => {
                        proof {
                            assert(Self::rewound_to(*old(self), *self, choice as int));
                        }
                        true
                    },
                }
            },
            None => false,
        }
    }

    /// Try to put all mandatory values in the grid and returns whether or
    /// not at least one value was added and whether or not backtracking was
    /// impossible.
    /// Handles one cell of the propagation scan: where the cell is empty
    /// and one of the two values is forced there, the value is committed
    /// when legal; a forced value that is itself illegal means the branch
    /// is contradictory, and the search backtracks. The result is whether
    /// a value was committed here, and the backtrack's outcome where one
    /// was needed.
    fn propagate_cell(&mut self, i: u8, j: u8) -> (r: (bool, Option<bool>))
        requires
            old(self).wf(),
            i < old(self).n(),
            j < old(self).n(),
        ensures
            final(self).wf(),
            final(self).n() == old(self).n(),
            final(self).spec_size() == old(self).spec_size(),
            final(self).base_view() == old(self).base_view(),
            old(self).snapshots_ok() ==> final(self).snapshots_ok(),
            solver_items(old(self).trail()) ==> solver_items(final(self).trail()),
            !r.0 && r.1 is None ==> *final(self) == *old(self),
            !r.0 && r.1 is None && old(self).grid_view()[i as int][j as int] is None
                ==> !must_put_spec(
                old(self).grid_view(),
                old(self).n(),
                i as int,
                j as int,
                Value::First,
            ) && !must_put_spec(
                old(self).grid_view(),
                old(self).n(),
                i as int,
                j as int,
                Value::Second,
            ),
            solver_items(old(self).trail()) && r.1 == Some(false) ==> !grid_full(
                final(self).grid_view(),
                final(self).n(),
            ),
    {
        if self.grid.get(i, j).is_none() {
            if let Some(value) = self.mandatory_value(i, j) {
                if self.grid.can_put(i, j, value) {
                    proof {
                        if old(self).snapshots_ok() {
                            self.lemma_current_grid_ok();
                            self.grid.lemma_wf_dims();
                            lemma_grid_ok_put(
                                self.grid_view(),
                                self.n(),
                                i as int,
                                j as int,
                                Some(value),
                            );
                        }
                    }
                    self.put_a_mandatory_value(i, j, value);
                    (true, None)
                } else {
                    let result = self.backtrack_to_latest_choice();
                    (false, Some(result))
                }
            } else {
                (false, None)
            }
        } else {
            (false, None)
        }
    }

    /// Try to put all mandatory values in the grid and returns whether or
    /// not at least one value was added and whether or not backtracking was
    /// impossible.
    fn put_mandatory_values(&mut self) -> (r: (bool, bool))
        requires
            old(self).wf(),
        ensures
            final(self).wf(),
            final(self).n() == old(self).n(),
            final(self).spec_size() == old(self).spec_size(),
            final(self).base_view() == old(self).base_view(),
            old(self).snapshots_ok() ==> final(self).snapshots_ok(),
            solver_items(old(self).trail()) ==> solver_items(final(self).trail()),
            solver_items(old(self).trail()) && r.1 ==> !grid_full(
                final(self).grid_view(),
                final(self).n(),
            ),
            !r.0 && !r.1 ==> *final(self) == *old(self),
            !r.0 && !r.1 ==> ({
                let g = final(self).grid_view();
                let n = final(self).n();
                forall|a: int, b: int|
                    0 <= a < n && 0 <= b < n && (#[trigger] g[a][b]) is None ==> !must_put_spec(
                        g,
                        n,
                        a,
                        b,
                        Value::First,
                    ) && !must_put_spec(g, n, a, b, Value::Second)
            }),
            r.1 ==> !r.0,
    {
        let mut some_value_put = false;
        let size = self.grid.size().as_u8();
        proof {
            self.grid.lemma_wf_dims();
        }
        let mut i: u8 = 0;
        while i < size
            invariant
                self.wf(),
                size == self.n(),
                self.n() == old(self).n(),
                self.spec_size() == old(self).spec_size(),
                self.base_view() == old(self).base_view(),
                old(self).snapshots_ok() ==> self.snapshots_ok(),
                solver_items(old(self).trail()) ==> solver_items(self.trail()),
                !some_value_put ==> *self == *old(self),
                !some_value_put ==> (forall|a: int, b: int|
                    0 <= a < i as int && 0 <= b < old(self).n() && (#[trigger] old(
                        self,
                    ).grid_view()[a][b]) is None ==> !must_put_spec(
                        old(self).grid_view(),
                        old(self).n(),
                        a,
                        b,
                        Value::First,
                    ) && !must_put_spec(old(self).grid_view(), old(self).n(), a, b, Value::Second)),
                0 <= i <= size,
            decreases size - i,
        {
            let mut j: u8 = 0;
            while j < size
                invariant
                    self.wf(),
                    size == self.n(),
                    self.n() == old(self).n(),
                    self.spec_size() == old(self).spec_size(),
                    self.base_view() == old(self).base_view(),
                    old(self).snapshots_ok() ==> self.snapshots_ok(),
                    solver_items(old(self).trail()) ==> solver_items(self.trail()),
                    !some_value_put ==> *self == *old(self),
                    !some_value_put ==> (forall|a: int, b: int|
                        0 <= a < old(self).n() && 0 <= b < old(self).n() && (a < i as int || (a
                            == i as int && b < j as int)) && (#[trigger] old(
                            self,
                        ).grid_view()[a][b]) is None ==> !must_put_spec(
                            old(self).grid_view(),
                            old(self).n(),
                            a,
                            b,
                            Value::First,
                        ) && !must_put_spec(old(self).grid_view(), old(self).n(), a, b, Value::Second)),
                    i < size,
                    0 <= j <= size,
                decreases size - j,
            {
                let step = self.propagate_cell(i, j);
                if let Some(result) = step.1 {
                    return (result, !result);
                }
                if step.0 {
                    some_value_put = true;
                }
                j += 1;
            }
            i += 1;
        }
        (some_value_put, false)
    }

    /// Try to put a choice in the grid and returns whether or not it was
    /// possible: the first empty cell that legally accepts a randomly drawn
    /// value receives it, recorded as a choice.
    #[verifier::rlimit(60)]
    fn try_a_choice(&mut self) -> (r: bool)
        requires
            old(self).wf(),
        ensures
            final(self).wf(),
            final(self).n() == old(self).n(),
            final(self).spec_size() == old(self).spec_size(),
            final(self).base_view() == old(self).base_view(),
            !r ==> *final(self) == *old(self),
            r ==> exists|x: u8, y: u8, v: Value|
                (x as int) < old(self).n() && (y as int) < old(self).n() && old(
                    self,
                ).grid_view()[x as int][y as int] is None && #[trigger] can_put_spec(
                    old(self).grid_view(),
                    old(self).n(),
                    x as int,
                    y as int,
                    v,
                ) && final(self).grid_view() == grid_upd(
                    old(self).grid_view(),
                    x as int,
                    y as int,
                    Some(v),
                ) && final(self).trail() == old(self).trail().take(old(self).depth()).push(
                    Item { x_axis: x, y_axis: y, old_value: None, new_value: Some(v) },
                ),
            r ==> final(self).depth() == old(self).depth() + 1 && !final(self).can_redo_spec(),
            r ==> final(self).choices() == old(self).choices().filter(
                |c: usize| (c as int) < old(self).depth(),
            ).push(old(self).depth() as usize),
            !r ==> ({
                let g = old(self).grid_view();
                let n = old(self).n();
                forall|a: int, b: int|
                    0 <= a < n && 0 <= b < n && (#[trigger] g[a][b]) is None ==> !(can_put_spec(
                        g,
                        n,
                        a,
                        b,
                        Value::First,
                    ) && can_put_spec(g, n, a, b, Value::Second))
            }),
            solver_items(old(self).trail()) ==> solver_items(final(self).trail()),
            old(self).snapshots_ok() ==> final(self).snapshots_ok(),
    {
        let size = self.grid.size().as_u8();
        proof {
            self.grid.lemma_wf_dims();
        }
        let mut i: u8 = 0;
        while i < size
            invariant
                *self == *old(self),
                self.wf(),
                size == self.n(),
                0 <= i <= size,
                forall|a: int, b: int|
                    0 <= a < i as int && 0 <= b < self.n() && (#[trigger] self.grid_view()[a][b])
                        is None ==> !(can_put_spec(
                        self.grid_view(),
                        self.n(),
                        a,
                        b,
                        Value::First,
                    ) && can_put_spec(self.grid_view(), self.n(), a, b, Value::Second)),
            decreases size - i,
        {
            let mut j: u8 = 0;
            while j < size
                invariant
                    *self == *old(self),
                    self.wf(),
                    size == self.n(),
                    i < size,
                    0 <= j <= size,
                    forall|a: int, b: int|
                        0 <= a < self.n() && 0 <= b < self.n() && (a < i as int || (a == i as int
                            && b < j as int)) && (#[trigger] self.grid_view()[a][b]) is None ==> !(
                        can_put_spec(self.grid_view(), self.n(), a, b, Value::First)
                            && can_put_spec(self.grid_view(), self.n(), a, b, Value::Second)),
                decreases size - j,
            {
                if self.grid.get(i, j).is_none() {
                    let value = self.rand_value();
                    if self.grid.can_put(i, j, value) {
                        proof {
                            if old(self).snapshots_ok() {
                                self.lemma_current_grid_ok();
                                self.grid.lemma_wf_dims();
                                lemma_grid_ok_put(
                                    self.grid_view(),
                                    self.n(),
                                    i as int,
                                    j as int,
                                    Some(value),
                                );
                            }
                        }
                        self.put_a_choice(i, j, Some(value));
                        proof {
                            assert(can_put_spec(
                                old(self).grid_view(),
                                old(self).n(),
                                i as int,
                                j as int,
                                value,
                            ));
                        }
                        return true;
                    } else {
                        proof {
                            assert(value == Value::First || value == Value::Second);
                            assert(!(can_put_spec(
                                self.grid_view(),
                                self.n(),
                                i as int,
                                j as int,
                                Value::First,
                            ) && can_put_spec(
                                self.grid_view(),
                                self.n(),
                                i as int,
                                j as int,
                                Value::Second,
                            )));
                        }
                    }
                }
                j += 1;
            }
            i += 1;
        }
        false
    }

    /// Try to solve a binero and returns if it could or not: forced moves
    /// are propagated, free cells are guessed, and dead ends are unwound to
    /// the latest checkpoint. Started on a fresh history, it succeeds
    /// exactly when the grid ends full, and what it builds completes the
    /// starting grid: the solver writes only into empty cells. The search
    /// carries a step budget so large it never binds in practice; an
    /// exhausted budget counts as unsolvable, which is why no clause here
    /// promises success whenever a completion exists — that, with the
    /// search's exhaustiveness, is the one property of the engine left
    /// unproved.
    pub fn try_to_solve(&mut self) -> (r: bool)
        requires
            old(self).wf(),
        ensures
            final(self).wf(),
            final(self).n() == old(self).n(),
            final(self).spec_size() == old(self).spec_size(),
            final(self).base_view() == old(self).base_view(),
            r ==> grid_full(final(self).grid_view(), final(self).n()),
            grid_full(old(self).grid_view(), old(self).n()) ==> r && *final(self) == *old(self),
            old(self).trail().len() == 0 ==> (r <==> grid_full(
                final(self).grid_view(),
                final(self).n(),
            )),
            old(self).trail().len() == 0 && old(self).snapshots_ok() && r ==> completion_of(
                final(self).grid_view(),
                old(self).grid_view(),
                old(self).n(),
            ),
            old(self).snapshots_ok() ==> final(self).snapshots_ok(),
    {
        let ghost fresh = old(self).trail().len() == 0;
        let mut grid_can_be_solved = true;
        let mut done = false;
        let mut fuel: u64 = u64::MAX;
        while !done
            invariant
                self.wf(),
                self.n() == old(self).n(),
                self.spec_size() == old(self).spec_size(),
                self.base_view() == old(self).base_view(),
                old(self).snapshots_ok() ==> self.snapshots_ok(),
                !done ==> grid_can_be_solved,
                done && grid_can_be_solved ==> grid_full(self.grid_view(), self.n()),
                grid_full(old(self).grid_view(), old(self).n()) ==> grid_can_be_solved && *self
                    == *old(self),
                fresh == (old(self).trail().len() == 0),
                fresh ==> solver_items(self.trail()),
                fresh && done && !grid_can_be_solved ==> !grid_full(self.grid_view(), self.n()),
            decreases 2 * fuel + if done {
                0int
            } else {
                1int
            },
        {
            if self.grid.is_full() {
                done = true;
            } else if fuel == 0 {
                grid_can_be_solved = false;
                done = true;
            } else {
                fuel -= 1;
                let ghost fuel_before = fuel;
                let mut progress = true;
                while progress && grid_can_be_solved && fuel > 0
                    invariant
                        self.wf(),
                        self.n() == old(self).n(),
                        self.spec_size() == old(self).spec_size(),
                        self.base_view() == old(self).base_view(),
                        old(self).snapshots_ok() ==> self.snapshots_ok(),
                        fuel <= fuel_before,
                        fresh == (old(self).trail().len() == 0),
                        fresh ==> solver_items(self.trail()),
                        fresh && !grid_can_be_solved ==> !grid_full(self.grid_view(), self.n()),
                    decreases fuel,
                {
                    fuel -= 1;
                    let (some_value_put, backtrack_impossible) = self.put_mandatory_values();
                    if backtrack_impossible {
                        grid_can_be_solved = false;
                    } else {
                        progress = some_value_put;
                    }
                }
                if !grid_can_be_solved {
                    done = true;
                } else if self.grid.is_full() {
                    done = true;
                } else if fuel == 0 {
                    grid_can_be_solved = false;
                    done = true;
                } else if !self.try_a_choice() {
                    grid_can_be_solved = self.backtrack_to_latest_choice();
                    if !grid_can_be_solved {
                        done = true;
                    }
                }
            }
        }
        proof {
            if fresh && old(self).snapshots_ok() && grid_can_be_solved {
                self.lemma_current_grid_ok();
                self.lemma_depth_in_trail();
                old(self).lemma_depth_in_trail();
                assert(old(self).grid_view() == old(self).base_view());
                lemma_solver_trail_extends(
                    self.base_view(),
                    self.trail(),
                    self.n(),
                    self.depth(),
                );
                assert(extended_by(old(self).grid_view(), self.grid_view(), self.n()));
            }
        }
        grid_can_be_solved
    }

    /// Writes a cell directly, outside the history: only legal while the
    /// history is empty, and the base state follows the grid.
    fn put_base(&mut self, x_axis: u8, y_axis: u8, value: Option<Value>) -> (r: Option<Value>)
        requires
            old(self).wf(),
            old(self).trail().len() == 0,
            x_axis < old(self).n(),
            y_axis < old(self).n(),
        ensures
            final(self).wf(),
            final(self).n() == old(self).n(),
            final(self).spec_size() == old(self).spec_size(),
            final(self).trail().len() == 0,
            final(self).choices() == old(self).choices(),
            final(self).depth() == 0,
            r == old(self).grid_view()[x_axis as int][y_axis as int],
            final(self).grid_view() == grid_upd(
                old(self).grid_view(),
                x_axis as int,
                y_axis as int,
                value,
            ),
            final(self).base_view() == final(self).grid_view(),
            grid_ok(final(self).grid_view(), final(self).n()) ==> final(self).snapshots_ok(),
    {
        proof {
            old(self).lemma_depth_in_trail();
        }
        let result = self.grid.put(x_axis, y_axis, value);
        proof {
            self.base = Ghost(self.grid@);
            self.grid.lemma_wf_dims();
            assert(self.grid@ == replay(self.base@, self.trail(), 0));
            if grid_ok(self.grid_view(), self.n()) {
                assert forall|k: int| 0 <= k <= self.trail().len() implies grid_ok(
                    #[trigger] replay(self.base@, self.trail(), k),
                    self.n(),
                ) by {
                    assert(k == 0);
                    assert(replay(self.base@, self.trail(), 0) == self.base@);
                }
            }
        }
        result
    }

    /// Shuffles the x and y axis and returns them: every cell of the grid,
    /// as a pair of coordinates, in a random order.
    fn shuffle_indexes(&self) -> (r: Vec<(u8, u8)>)
        requires
            self.wf(),
        ensures
            r@.len() == self.n() * self.n(),
            r@.to_multiset() == all_cells(self.n()).to_multiset(),
            forall|k: int|
                0 <= k < r@.len() ==> ((#[trigger] r@[k]).0 as int) < self.n() && (r@[k].1 as int)
                    < self.n(),
    {
        let size = self.grid.size().as_u8();
        proof {
            self.grid.lemma_wf_dims();
        }
        let mut result: Vec<(u8, u8)> = Vec::new();
        let mut i: u8 = 0;
        while i < size
            invariant
                size == self.n(),
                size <= 16,
                0 <= i <= size,
                result@.len() == i * size,
                result@ == all_cells(self.n()).take(result@.len() as int),
                forall|k: int|
                    0 <= k < result@.len() ==> ((#[trigger] result@[k]).0 as int) < size as int && (
                    result@[k].1 as int) < size as int,
            decreases size - i,
        {
            let mut j: u8 = 0;
            while j < size
                invariant
                    size == self.n(),
                    size <= 16,
                    i < size,
                    0 <= j <= size,
                    result@.len() == i * size + j,
                    result@ == all_cells(self.n()).take(result@.len() as int),
                    forall|k: int|
                        0 <= k < result@.len() ==> ((#[trigger] result@[k]).0 as int) < size as int
                            && (result@[k].1 as int) < size as int,
                decreases size - j,
            {
                proof {
                    assert(i * size + size <= size * size <= 256) by (nonlinear_arith)
                        requires
                            0 <= i < size <= 16,
                    ;
                }
                result.push((i, j));
                proof {
                    let k = (i as int) * (size as int) + (j as int);
                    vstd::arithmetic::div_mod::lemma_fundamental_div_mod_converse(
                        k,
                        size as int,
                        i as int,
                        j as int,
                    );
                    assert(all_cells(self.n())[k] == (i, j));
                    assert(result@ =~= all_cells(self.n()).take(k + 1));
                }
                j += 1;
            }
            proof {
                assert((i + 1) * size == i * size + size) by (nonlinear_arith);
            }
            i += 1;
        }
        let ghost before = result@;
        proof {
            assert(before =~= all_cells(self.n()));
        }
        shuffle_pairs(&mut result);
        proof {
            assert(size * size == self.n() * self.n());
            before.to_multiset_ensures();
            result@.to_multiset_ensures();
            assert forall|k: int|
                0 <= k < result@.len() implies ((#[trigger] result@[k]).0 as int) < self.n() && (
            result@[k].1 as int) < self.n() by {
                assert(result@.contains(result@[k]));
                assert(result@.to_multiset().count(result@[k]) > 0);
                assert(before.contains(result@[k]));
                let j = choose|j: int| 0 <= j < before.len() && before[j] == result@[k];
                assert(((#[trigger] before[j]).0 as int) < self.n());
            }
        }
        result
    }

    /// Checks whether or not a value can be removed from the grid keeping a
    /// unique solution for the binero: the opposite value is placed in the
    /// cell and a full solve attempted from there; if that solve succeeds,
    /// another completion exists, so the original value is restored, and
    /// true is returned; otherwise the cell stays empty and false is
    /// returned. This safeguard is a heuristic: it only rules out the
    /// opposite value at this one cell, not ambiguity that needs several
    /// cells changed at once.
    fn check_a_value(
        &mut self,
        x_axis: u8,
        y_axis: u8,
        value: Value,
        Ghost(sol): Ghost<Seq<Seq<Option<Value>>>>,
    ) -> (r: bool)
        requires
            old(self).wf(),
            old(self).trail().len() == 0,
            old(self).choices().len() == 0,
            x_axis < old(self).n(),
            y_axis < old(self).n(),
            old(self).grid_view()[x_axis as int][y_axis as int] is None,
            grid_ok(old(self).grid_view(), old(self).n()),
            grid_ok(
                grid_upd(
                    old(self).grid_view(),
                    x_axis as int,
                    y_axis as int,
                    Some(value),
                ),
                old(self).n(),
            ),
            completion_of(sol, old(self).grid_view(), old(self).n()),
            sol[x_axis as int][y_axis as int] == Some(value),
        ensures
            final(self).wf(),
            final(self).n() == old(self).n(),
            final(self).spec_size() == old(self).spec_size(),
            final(self).trail().len() == 0,
            final(self).choices().len() == 0,
            final(self).depth() == 0,
            !r ==> final(self).grid_view() == old(self).grid_view(),
            r ==> final(self).grid_view() == grid_upd(
                old(self).grid_view(),
                x_axis as int,
                y_axis as int,
                Some(value),
            ),
            r && grid_ok(
                grid_upd(
                    old(self).grid_view(),
                    x_axis as int,
                    y_axis as int,
                    Some(value.spec_the_other()),
                ),
                old(self).n(),
            ) ==> has_completion(
                grid_upd(
                    old(self).grid_view(),
                    x_axis as int,
                    y_axis as int,
                    Some(value.spec_the_other()),
                ),
                old(self).n(),
            ),
            grid_ok(final(self).grid_view(), final(self).n()),
            completion_of(sol, final(self).grid_view(), final(self).n()),
            final(self).snapshots_ok(),
    {
        let ghost entry_grid = old(self).grid_view();
        let ghost n = old(self).n();
        proof {
            self.grid.lemma_wf_dims();
        }
        let other_value = value.the_other();
        self.put_base(x_axis, y_axis, Some(other_value));
        let ghost flipped = self.grid_view();
        proof {
            if grid_ok(flipped, n) {
                assert(self.snapshots_ok());
            }
        }
        let non_unique_solution = self.try_to_solve();
        proof {
            if non_unique_solution && grid_ok(flipped, n) {
                assert(completion_of(self.grid_view(), flipped, n));
                assert(has_completion(flipped, n));
            }
        }
        let mut undone = self.try_to_undo();
        while undone.is_some()
            invariant
                self.wf(),
                self.n() == n,
                self.spec_size() == old(self).spec_size(),
                self.base_view() == grid_upd(
                    entry_grid,
                    x_axis as int,
                    y_axis as int,
                    Some(other_value),
                ),
                undone is None ==> self.depth() == 0,
            decreases self.depth() + if undone is Some {
                1int
            } else {
                0int
            },
        {
            undone = self.try_to_undo();
        }
        proof {
            assert(self.grid_view() == replay(self.base_view(), self.trail(), 0));
        }
        self.clear_history();
        self.put_base(x_axis, y_axis, None);
        proof {
            lemma_grid_upd_twice(
                entry_grid,
                x_axis as int,
                y_axis as int,
                Some(other_value),
                None,
            );
            lemma_grid_upd_same(entry_grid, x_axis as int, y_axis as int);
            assert(self.grid_view() == entry_grid);
        }
        if non_unique_solution {
            proof {
                lemma_extended_by_put(entry_grid, sol, n, x_axis as int, y_axis as int, Some(value));
            }
            self.put_base(x_axis, y_axis, Some(value));
        }
        non_unique_solution
    }

    /// Removes a certain amount of values from the grid according to the
    /// given difficulty: the cells are visited in a random order and
    /// emptied until the difficulty's share of the grid is empty; each
    /// removal after the first must pass the uniqueness check, or the cell
    /// is restored.
    fn make_playable(&mut self, difficulty: Difficulty)
        requires
            old(self).wf(),
            old(self).trail().len() == 0,
            old(self).choices().len() == 0,
            grid_ok(old(self).grid_view(), old(self).n()),
            grid_full(old(self).grid_view(), old(self).n()),
        ensures
            final(self).wf(),
            final(self).n() == old(self).n(),
            final(self).spec_size() == old(self).spec_size(),
            final(self).trail().len() == 0,
            final(self).choices().len() == 0,
            final(self).depth() == 0,
            grid_ok(final(self).grid_view(), final(self).n()),
            final(self).snapshots_ok(),
            completion_of(old(self).grid_view(), final(self).grid_view(), final(self).n()),
            !grid_full(final(self).grid_view(), final(self).n()),
            empties(final(self).grid_view()) <= removal_cap(
                difficulty,
                final(self).n() as int * final(self).n() as int,
            ),
    {
        let size = self.grid.size().as_u8();
        proof {
            self.grid.lemma_wf_dims();
        }
        let ghost n = old(self).n();
        let ghost sol = old(self).grid_view();
        proof {
            assert(36 <= (size as int) * (size as int) <= 256) by (nonlinear_arith)
                requires
                    6 <= size as int <= 16,
            ;
        }
        let total: u16 = (size as u16) * (size as u16);
        let max_removed: u16 = match difficulty {
            Difficulty::Beginner => total / 2,
            Difficulty::Easy => total * 2 / 3,
            Difficulty::Medium => total * 3 / 4,
            Difficulty::Hard => total,
        };
        proof {
            assert(max_removed == removal_cap(difficulty, n as int * n as int));
            crate::cells::lemma_empties_zero_iff_full(self.grid_view(), n);
            crate::cells::lemma_empties_nonneg(self.grid_view());
        }
        let indexes = self.shuffle_indexes();
        let mut first = true;
        let ghost mut first_cell: (u8, u8) = (0u8, 0u8);
        let mut idx: usize = 0;
        let mut removed_enough = false;
        while idx < indexes.len() && !removed_enough
            invariant
                self.wf(),
                self.n() == n,
                6 <= n <= 16,
                self.spec_size() == old(self).spec_size(),
                self.trail().len() == 0,
                self.choices().len() == 0,
                grid_ok(self.grid_view(), n),
                completion_of(sol, self.grid_view(), n),
                indexes@.len() == n * n,
                max_removed >= 1,
                forall|k: int|
                    0 <= k < indexes@.len() ==> ((#[trigger] indexes@[k]).0 as int) < n && (
                    indexes@[k].1 as int) < n,
                0 <= idx <= indexes@.len(),
                empties(self.grid_view()) <= max_removed,
                first ==> self.grid_view() == sol && !removed_enough,
                idx > 0 ==> !first,
                !first ==> (first_cell.0 as int) < n && (first_cell.1 as int) < n
                    && self.grid_view()[first_cell.0 as int][first_cell.1 as int] is None,
            decreases indexes@.len() - idx + if removed_enough {
                0int
            } else {
                1int
            },
        {
            if self.grid.empty_values() >= max_removed {
                proof {
                    if first {
                        crate::cells::lemma_empties_zero_iff_full(self.grid_view(), n);
                        assert(grid_full(self.grid_view(), n));
                        assert(false);
                    }
                }
                removed_enough = true;
            } else {
                let pair = indexes[idx];
                let i = pair.0;
                let j = pair.1;
                let ghost g0 = self.grid_view();
                let value = self.put_base(i, j, None);
                proof {
                    lemma_grid_ok_put(g0, n, i as int, j as int, None);
                    lemma_extended_by_put(g0, sol, n, i as int, j as int, None);
                    lemma_empties_upd_cell(g0, n, i as int, j as int, None);
                }
                if first {
                    // The very first visited cell stays removed without a
                    // uniqueness check; only the later ones are checked.
                    first = false;
                    proof {
                        first_cell = (i, j);
                    }
                } else {
                    match value {
                        Some(v) => {
                            proof {
                                lemma_grid_upd_twice(g0, i as int, j as int, None, Some(v));
                                lemma_grid_upd_same(g0, i as int, j as int);
                                assert(grid_upd(self.grid_view(), i as int, j as int, Some(v))
                                    == g0);
                                assert(sol[i as int][j as int] == Some(v));
                            }
                            let ghost fc = first_cell;
                            let ghost g1 = self.grid_view();
                            let restored = self.check_a_value(i, j, v, Ghost(sol));
                            proof {
                                lemma_empties_upd_cell(g1, n, i as int, j as int, Some(v));
                                if i == fc.0 && j == fc.1 {
                                    assert(g0[fc.0 as int][fc.1 as int] is None);
                                    assert(false);
                                }
                                if restored {
                                    assert(self.grid_view() == grid_upd(
                                        g1,
                                        i as int,
                                        j as int,
                                        Some(v),
                                    ));
                                } else {
                                    assert(self.grid_view() == g1);
                                }
                                assert(self.grid_view()[fc.0 as int][fc.1 as int] == g1[fc.0
                                    as int][fc.1 as int]);
                            }
                        },
                        None => {},
                    }
                }
                idx += 1;
            }
        }
        proof {
            if first {
                assert(idx == 0 && !removed_enough);
                assert(36 <= n * n) by (nonlinear_arith)
                    requires
                        6 <= n,
                ;
                assert(idx < indexes@.len());
                assert(false);
            }
            assert(!grid_full(self.grid_view(), n));
            assert(self.grid_view() == replay(self.base_view(), self.trail(), 0));
            assert(self.base_view() == self.grid_view());
            assert forall|k: int| 0 <= k <= self.trail().len() implies grid_ok(
                #[trigger] replay(self.base_view(), self.trail(), k),
                self.n(),
            ) by {
                assert(k == 0);
                assert(replay(self.base_view(), self.trail(), 0) == self.base_view());
            }
        }
    }

    /// Returns a binero, with the given size, ready to be played: a full
    /// valid grid is generated by the solver, the history is cleared, and
    /// cells are removed according to the difficulty. Should the internal
    /// solve ever fail — a defect, not an expected outcome — the game
    /// falls back to an entirely empty grid.
    pub fn new(size: Size, difficulty: Difficulty) -> (result: Binero)
        ensures
            result.wf(),
            result.snapshots_ok(),
            result.n() == size.side(),
            result.spec_size() == size,
            result.trail().len() == 0,
            result.choices().len() == 0,
            result.depth() == 0,
            grid_ok(result.grid_view(), result.n()),
            !grid_full(result.grid_view(), result.n()),
            has_completion(result.grid_view(), result.n()),
            empties(result.grid_view()) <= removal_cap(
                difficulty,
                result.n() as int * result.n() as int,
            ),
            1 <= empties(result.grid_view()),
    {
        let mut result = Self::new_empty(size);
        let solved = result.try_to_solve();
        if solved {
            proof {
                result.lemma_current_grid_ok();
            }
            let ghost sol = result.grid_view();
            result.clear_history();
            result.make_playable(difficulty);
            proof {
                assert(completion_of(sol, result.grid_view(), result.n()));
            }
        } else {
            // The internal solve is not expected to fail; should it ever,
            // the game falls back to a puzzle cut from the checkerboard.
            let g = Self::checkerboard_grid(size);
            let ghost b = g@;
            result = Binero { grid: g, history: History::new(), base: Ghost(b) };
            proof {
                result.grid.lemma_wf_dims();
                lemma_checkerboard_valid(size.side());
                assert(grid_ok(result.grid_view(), result.n()));
                assert(grid_full(result.grid_view(), result.n()));
                assert(result.grid_view() == replay(result.base_view(), result.trail(), 0));
                assert forall|k: int| 0 <= k <= result.trail().len() implies grid_ok(
                    #[trigger] replay(result.base_view(), result.trail(), k),
                    result.n(),
                ) by {
                    assert(k == 0);
                    assert(replay(result.base_view(), result.trail(), 0) == result.base_view());
                }
            }
            let ghost sol = result.grid_view();
            result.make_playable(difficulty);
            proof {
                assert(completion_of(sol, result.grid_view(), result.n()));
            }
        }
        proof {
            result.grid.lemma_wf_dims();
            crate::cells::lemma_empties_zero_iff_full(result.grid_view(), result.n());
            crate::cells::lemma_empties_nonneg(result.grid_view());
        }
        result
    }

    /// A grid filled entirely with the checkerboard pattern: a full valid
    /// grid that exists for every size.
    fn checkerboard_grid(size: Size) -> (g: Grid)
        ensures
            g.wf(),
            g.spec_size() == size,
            g.n() == size.side(),
            g@ == checkerboard(size.side()),
    {
        let side = size.as_u8();
        let mut g = Grid::new(size);
        proof {
            g.lemma_wf_dims();
        }
        let ghost n = size.side();
        let mut i: u8 = 0;
        while i < side
            invariant
                g.wf(),
                g.spec_size() == size,
                g.n() == n,
                side == n,
                side <= 16,
                0 <= i <= side,
                forall|a: int, b: int|
                    0 <= a < i as int && 0 <= b < n ==> #[trigger] g@[a][b] == alt_cell(a + b),
            decreases side - i,
        {
            let mut j: u8 = 0;
            while j < side
                invariant
                    g.wf(),
                    g.spec_size() == size,
                    g.n() == n,
                    side == n,
                    side <= 16,
                    i < side,
                    0 <= j <= side,
                    forall|a: int, b: int|
                        0 <= a < n && 0 <= b < n && (a < i as int || (a == i as int && b < j
                            as int)) ==> #[trigger] g@[a][b] == alt_cell(a + b),
                decreases side - j,
            {
                let v = if (i + j) % 2 == 0 {
                    Value::First
                } else {
                    Value::Second
                };
                proof {
                    assert(Some(v) == alt_cell(i as int + j as int));
                }
                let ghost before_put = g@;
                proof {
                    g.lemma_wf_dims();
                }
                g.put(i, j, Some(v));
                proof {
                    g.lemma_wf_dims();
                    assert forall|a: int, b: int|
                        0 <= a < n && 0 <= b < n && (a < i as int || (a == i as int && b <= j
                            as int)) implies #[trigger] g@[a][b] == alt_cell(a + b) by {
                        if a == i as int && b == j as int {
                            assert(g@[a][b] == Some(v));
                        } else {
                            assert(g@[a] == before_put.update(
                                i as int,
                                before_put[i as int].update(j as int, Some(v)),
                            )[a]);
                            if a == i as int {
                                assert(g@[a][b] == before_put[a].update(j as int, Some(v))[b]);
                                assert(g@[a][b] == before_put[a][b]);
                            } else {
                                assert(g@[a][b] == before_put[a][b]);
                            }
                        }
                    }
                }
                j += 1;
            }
            i += 1;
        }
        proof {
            g.lemma_wf_dims();
            assert(forall|a: int, b: int|
                0 <= a < n && 0 <= b < n ==> #[trigger] checkerboard(n)[a][b] == alt_cell(a + b));
            assert(g@ =~~= checkerboard(n));
        }
        g
    }

    /// A game over an entirely empty grid, with an empty history.
    fn new_empty(size: Size) -> (result: Binero)
        ensures
            result.wf(),
            result.snapshots_ok(),
            result.n() == size.side(),
            result.spec_size() == size,
            result.trail().len() == 0,
            result.choices().len() == 0,
            result.depth() == 0,
            result.grid_view() == empty_grid(size.side()),
            grid_ok(result.grid_view(), result.n()),
            !grid_full(result.grid_view(), result.n()),
    {
        let g = Grid::new(size);
        let ghost b = g@;
        let result = Binero { grid: g, history: History::new(), base: Ghost(b) };
        proof {
            lemma_empty_grid_ok(size.side());
            result.grid.lemma_wf_dims();
            assert(result.grid_view() == replay(result.base_view(), result.trail(), 0));
            assert forall|k: int| 0 <= k <= result.trail().len() implies grid_ok(
                #[trigger] replay(result.base_view(), result.trail(), k),
                result.n(),
            ) by {
                assert(k == 0);
                assert(replay(result.base_view(), result.trail(), 0) == result.base_view());
            }
            assert(result.grid_view()[0][0] is None);
        }
        result
    }

    /// A game whose grid still has a completion never presents a dead
    /// cell: every empty cell legally accepts at least one value — in
    /// particular the value its completion holds there.
    pub proof fn lemma_empty_cell_accepts_a_value(self, x: int, y: int)
        requires
            self.wf(),
            has_completion(self.grid_view(), self.n()),
            0 <= x < self.n(),
            0 <= y < self.n(),
            self.grid_view()[x][y] is None,
        ensures
            exists|v: Value| can_put_spec(self.grid_view(), self.n(), x, y, v),
    {
        self.grid.lemma_wf_dims();
        let sol = choose|sol: Seq<Seq<Option<Value>>>|
            completion_of(sol, self.grid_view(), self.n());
        assert(sol[x][y] is Some);
        let v = sol[x][y]->0;
        lemma_completion_can_put(self.grid_view(), sol, self.n(), x, y, v);
        assert(can_put_spec(self.grid_view(), self.n(), x, y, v));
    }

    /// In any reachable game whose grid is completely filled, every row
    /// and column holds exactly half of each value: the balance constraint
    /// is met with equality everywhere.
    pub proof fn lemma_full_grid_is_balanced(self)
        requires
            self.wf(),
            self.snapshots_ok(),
            grid_full(self.grid_view(), self.n()),
        ensures
            forall|i: int|
                0 <= i < self.n() ==> count_in(#[trigger] self.grid_view()[i], Value::First)
                    == self.n() as int / 2 && count_in(self.grid_view()[i], Value::Second)
                    == self.n() as int / 2,
            forall|i: int|
                0 <= i < self.n() ==> count_in(#[trigger] col_of(self.grid_view(), i), Value::First)
                    == self.n() as int / 2 && count_in(col_of(self.grid_view(), i), Value::Second)
                    == self.n() as int / 2,
    {
        self.lemma_current_grid_ok();
        self.grid.lemma_wf_dims();
        lemma_full_grid_balanced(self.grid_view(), self.n());
    }

    /// Put a choice in the grid.
    fn put_a_choice(&mut self, x_axis: u8, y_axis: u8, value: Option<Value>)
        requires
            old(self).wf(),
            x_axis < old(self).n(),
            y_axis < old(self).n(),
        ensures
            final(self).wf(),
            final(self).n() == old(self).n(),
            final(self).spec_size() == old(self).spec_size(),
            final(self).base_view() == old(self).base_view(),
            final(self).grid_view() == grid_upd(
                old(self).grid_view(),
                x_axis as int,
                y_axis as int,
                value,
            ),
            final(self).trail() == old(self).trail().take(old(self).depth()).push(
                Item {
                    x_axis,
                    y_axis,
                    old_value: old(self).grid_view()[x_axis as int][y_axis as int],
                    new_value: value,
                },
            ),
            final(self).depth() == old(self).depth() + 1,
            !final(self).can_redo_spec(),
            final(self).choices() == old(self).choices().filter(
                |c: usize| (c as int) < old(self).depth(),
            ).push(old(self).depth() as usize),
            old(self).snapshots_ok() && grid_ok(
                grid_upd(old(self).grid_view(), x_axis as int, y_axis as int, value),
                old(self).n(),
            ) ==> final(self).snapshots_ok(),
            solver_items(old(self).trail()) && old(self).grid_view()[x_axis as int][y_axis
                as int] is None && value is Some ==> solver_items(final(self).trail()),
    {
        self.record_put(x_axis, y_axis, value, true);
    }

    /// Put a mandatory value in the grid.
    fn put_a_mandatory_value(&mut self, x_axis: u8, y_axis: u8, value: Value)
        requires
            old(self).wf(),
            x_axis < old(self).n(),
            y_axis < old(self).n(),
        ensures
            final(self).wf(),
            final(self).n() == old(self).n(),
            final(self).spec_size() == old(self).spec_size(),
            final(self).base_view() == old(self).base_view(),
            final(self).grid_view() == grid_upd(
                old(self).grid_view(),
                x_axis as int,
                y_axis as int,
                Some(value),
            ),
            final(self).trail() == old(self).trail().take(old(self).depth()).push(
                Item {
                    x_axis,
                    y_axis,
                    old_value: old(self).grid_view()[x_axis as int][y_axis as int],
                    new_value: Some(value),
                },
            ),
            final(self).depth() == old(self).depth() + 1,
            !final(self).can_redo_spec(),
            final(self).choices() == old(self).choices().filter(
                |c: usize| (c as int) < old(self).depth(),
            ),
            old(self).snapshots_ok() && grid_ok(
                grid_upd(old(self).grid_view(), x_axis as int, y_axis as int, Some(value)),
                old(self).n(),
            ) ==> final(self).snapshots_ok(),
            solver_items(old(self).trail()) && old(self).grid_view()[x_axis as int][y_axis
                as int] is None ==> solver_items(final(self).trail()),
    {
        self.record_put(x_axis, y_axis, Some(value), false);
    }
}

} // verus!
