//! The history of the game: an append-only trail of placements with an
//! undo/redo cursor, and a stack of the indices of the "choice" items the
//! solver can backtrack to.

use vstd::prelude::*;
use crate::value::Value;

verus! {

/// An item of the history of the game: one placement, with what the cell
/// held before and after.
pub struct Item {
    pub x_axis: u8,
    pub y_axis: u8,
    pub old_value: Option<Value>,
    pub new_value: Option<Value>,
}

impl Clone for Item {
    fn clone(&self) -> (r: Item)
        ensures
            r == *self,
    {
        Item {
            x_axis: self.x_axis,
            y_axis: self.y_axis,
            old_value: self.old_value,
            new_value: self.new_value,
        }
    }
}

impl Copy for Item {

}

impl Item {
    /// Returns the x-axis of an item of the history.
    pub fn x_axis(&self) -> (r: u8)
        ensures
            r == self.x_axis,
    {
        self.x_axis
    }

    /// Returns the y-axis of an item of the history.
    pub fn y_axis(&self) -> (r: u8)
        ensures
            r == self.y_axis,
    {
        self.y_axis
    }

    /// Returns the previous value of an item of the history.
    pub fn old_value(&self) -> (r: Option<Value>)
        ensures
            r == self.old_value,
    {
        self.old_value
    }

    /// Returns the new value of an item of the history.
    pub fn new_value(&self) -> (r: Option<Value>)
        ensures
            r == self.new_value,
    {
        self.new_value
    }
}

/// Entries strictly grow along the sequence.
pub open spec fn strictly_increasing(s: Seq<usize>) -> bool {
    forall|i: int, j: int| 0 <= i < j < s.len() ==> s[i] < s[j]
}

/// The history of the game.
pub struct History {
    items: Vec<Item>,
    choices: Vec<usize>,
    current_item: Option<usize>,
}

impl History {
    /// The whole trail of recorded items, applied and undone alike.
    pub closed spec fn trail(&self) -> Seq<Item> {
        self.items@
    }

    /// The stack of indices of the trail items that were recorded as choices.
    pub closed spec fn choices(&self) -> Seq<usize> {
        self.choices@
    }

    /// The index of the last applied item, if any item is applied.
    pub closed spec fn cursor(&self) -> Option<usize> {
        self.current_item
    }

    /// How many items of the trail are currently applied.
    pub open spec fn cur_depth(&self) -> int {
        match self.cursor() {
            None => 0,
            Some(c) => c + 1,
        }
    }

    /// The cursor stays inside the trail and the choice stack holds trail
    /// indices in strictly increasing order.
    pub open spec fn wf(&self) -> bool {
        &&& match self.cursor() {
            None => true,
            Some(c) => (c as int) < self.trail().len(),
        }
        &&& forall|i: int|
            0 <= i < self.choices().len() ==> (#[trigger] self.choices()[i] as int)
                < self.trail().len()
        &&& strictly_increasing(self.choices())
    }

    /// Whether a next, currently undone, item exists beyond the cursor.
    pub open spec fn has_next(&self) -> bool {
        self.cur_depth() < self.trail().len()
    }

    /// Returns an empty history of a game.
    pub fn new() -> (h: History)
        ensures
            h.wf(),
            h.trail() =~= Seq::<Item>::empty(),
            h.choices() =~= Seq::<usize>::empty(),
            h.cursor() is None,
    {
        History { items: Vec::new(), choices: Vec::new(), current_item: None }
    }

    /// Pushes an action in the history: the undone tail of the trail is
    /// discarded, with the stale choice indices, and the new item becomes
    /// the current one.
    pub fn push(
        &mut self,
        x_axis: u8,
        y_axis: u8,
        old_value: Option<Value>,
        new_value: Option<Value>,
        is_a_choice: bool,
    )
        requires
            old(self).wf(),
        ensures
            final(self).wf(),
            final(self).trail() == old(self).trail().take(old(self).cur_depth()).push(
                Item { x_axis, y_axis, old_value, new_value },
            ),
            final(self).cur_depth() == old(self).cur_depth() + 1,
            final(self).cursor() is Some,
            !final(self).has_next(),
            final(self).choices() == (if is_a_choice {
                old(self).choices().filter(
                    |c: usize| (c as int) < old(self).cur_depth(),
                ).push(old(self).cur_depth() as usize)
            } else {
                old(self).choices().filter(|c: usize| (c as int) < old(self).cur_depth())
            }),
    {
        self.pop_all_after_current_item();
        let next_item = self.items.len();
        self.current_item = Some(next_item);
        if is_a_choice {
            self.choices.push(next_item);
        }
        let item = Item { x_axis, y_axis, old_value, new_value };
        self.items.push(item);
        proof {
            let pred = |c: usize| (c as int) < old(self).cur_depth();
            let kept = old(self).choices().filter(pred);
            if is_a_choice {
                assert(self.choices() =~= kept.push(next_item));
            }
            assert forall|i: int, j: int|
                0 <= i < j < self.choices().len() implies self.choices()[i]
                < self.choices()[j] by {
                old(self).choices().lemma_filter_pred(pred, i);
                if j < self.choices().len() - 1 || !is_a_choice {
                    old(self).choices().lemma_filter_pred(pred, j);
                }
            }
        }
    }

    /// Pops and returns the index of the latest choice in the history.
    pub fn latest_choice(&mut self) -> (r: Option<usize>)
        requires
            old(self).wf(),
        ensures
            final(self).wf(),
            final(self).trail() == old(self).trail(),
            final(self).cursor() == old(self).cursor(),
            old(self).choices().len() == 0 ==> r is None && final(self).choices() == old(
                self,
            ).choices(),
            old(self).choices().len() > 0 ==> r == Some(old(self).choices().last())
                && final(self).choices() == old(self).choices().drop_last(),
    {
        self.choices.pop()
    }

    /// Returns the index of the current item of the history.
    pub fn current_item(&self) -> (r: Option<usize>)
        ensures
            r == self.cursor(),
    {
        self.current_item
    }

    /// Returns whether or not undoing the current action is possible.
    pub fn is_undo_possible(&self) -> (r: bool)
        ensures
            r == (self.cursor() is Some),
    {
        self.current_item.is_some()
    }

    /// Returns whether or not redoing the next action is possible because it
    /// was undone before.
    pub fn is_redo_possible(&self) -> (r: bool)
        requires
            self.wf(),
        ensures
            r == self.has_next(),
    {
        self.next_item().is_some()
    }

    /// Cancels the current action and returns it; the caller applies the
    /// item's old value back into the grid.
    pub fn undo(&mut self) -> (r: Item)
        requires
            old(self).wf(),
            old(self).cursor() is Some,
        ensures
            final(self).wf(),
            final(self).trail() == old(self).trail(),
            final(self).choices() == old(self).choices(),
            final(self).cur_depth() == old(self).cur_depth() - 1,
            r == old(self).trail()[old(self).cur_depth() - 1],
    {
        let curr = match self.current_item {
            Some(c) => c,
            None => 0,
        };
        if curr == 0 {
            self.current_item = None;
        } else {
            self.current_item = Some(curr - 1);
        }
        self.items[curr]
    }

    /// Replays the next action that was previously undone and returns it;
    /// the caller applies the item's new value into the grid.
    pub fn redo(&mut self) -> (r: Item)
        requires
            old(self).wf(),
            old(self).has_next(),
        ensures
            final(self).wf(),
            final(self).trail() == old(self).trail(),
            final(self).choices() == old(self).choices(),
            final(self).cur_depth() == old(self).cur_depth() + 1,
            r == old(self).trail()[old(self).cur_depth()],
    {
        let len = self.items.len();
        proof {
            assert(self.cur_depth() < len as int);
        }
        let next = match self.next_item() {
            Some(n) => n,
            None => 0,
        };
        self.current_item = Some(next);
        self.items[next]
    }

    /// Clears the history.
    pub fn clear(&mut self)
        requires
            old(self).wf(),
        ensures
            final(self).wf(),
            final(self).trail() =~= Seq::<Item>::empty(),
            final(self).choices() =~= Seq::<usize>::empty(),
            final(self).cursor() is None,
    {
        self.current_item = None;
        self.pop_all_after_current_item();
        proof {
            lemma_filter_none(old(self).choices(), |c: usize| (c as int) < 0);
        }
    }

    /// Returns the next item of the history if it exists.
    fn next_item(&self) -> (r: Option<usize>)
        requires
            self.wf(),
        ensures
            self.has_next() ==> r == Some(self.cur_depth() as usize),
            !self.has_next() ==> r is None,
    {
        let len = self.items.len();
        let next = match self.current_item {
            Some(curr) => {
                proof {
                    assert((curr as int) < len as int);
                }
                curr + 1
            },
            None => 0,
        };
        if next < len {
            Some(next)
        } else {
            None
        }
    }

    /// Clears the history after the current item: the undone tail of the
    /// trail and the choice indices that pointed into it are dropped.
    fn pop_all_after_current_item(&mut self)
        requires
            old(self).wf(),
        ensures
            final(self).wf(),
            final(self).cursor() == old(self).cursor(),
            final(self).trail() == old(self).trail().take(old(self).cur_depth()),
            final(self).choices() == old(self).choices().filter(
                |c: usize| (c as int) < old(self).cur_depth(),
            ),
            !final(self).has_next(),
    {
        let len = self.items.len();
        let keep: usize = match self.current_item {
            Some(c) => {
                proof {
                    assert((c as int) < len as int);
                }
                c + 1
            },
            None => 0,
        };
        let ghost depth = old(self).cur_depth();
        self.items.truncate(keep);
        proof {
            assert(self.items@ =~= old(self).trail().take(depth));
        }
        let ghost pred = |c: usize| (c as int) < depth;
        let ghost mut m: int = old(self).choices().len() as int;
        proof {
            assert(self.choices@ =~= old(self).choices().take(m));
        }
        let mut stop = false;
        while !stop
            invariant
                keep == depth,
                self.items@ == old(self).trail().take(depth),
                self.current_item == old(self).current_item,
                0 <= m <= old(self).choices().len(),
                self.choices@ == old(self).choices().take(m),
                self.choices@.len() == m,
                forall|i: int|
                    m <= i < old(self).choices().len() ==> (#[trigger] old(self).choices()[i]
                        as int) >= depth,
                strictly_increasing(old(self).choices()),
                forall|i: int|
                    0 <= i < old(self).choices().len() ==> (#[trigger] old(self).choices()[i]
                        as int) < old(self).trail().len(),
                stop ==> (forall|i: int|
                    0 <= i < m ==> (#[trigger] old(self).choices()[i] as int) < depth),
            decreases m + if stop {
                0int
            } else {
                1int
            },
        {
            let clen = self.choices.len();
            if clen == 0 {
                stop = true;
            } else {
                let last = self.choices[clen - 1];
                proof {
                    assert(last == old(self).choices()[m - 1]);
                }
                if last >= keep {
                    self.choices.pop();
                    proof {
                        m = m - 1;
                        assert(self.choices@ =~= old(self).choices().take(m));
                    }
                } else {
                    stop = true;
                    proof {
                        assert forall|i: int| 0 <= i < m implies (#[trigger] old(self).choices()[i]
                            as int) < depth by {
                            if i < m - 1 {
                                assert(old(self).choices()[i] < old(self).choices()[m - 1]);
                            }
                        }
                    }
                }
            }
        }
        proof {
            lemma_filter_split(old(self).choices(), pred, m);
        }
    }
}

/// A predicate that holds nowhere filters a sequence down to nothing.
proof fn lemma_filter_none(s: Seq<usize>, pred: spec_fn(usize) -> bool)
    requires
        forall|i: int| 0 <= i < s.len() ==> !pred(#[trigger] s[i]),
    ensures
        s.filter(pred) =~= Seq::<usize>::empty(),
    decreases s.len(),
{
    reveal(Seq::filter);
    if s.len() > 0 {
        assert(s.last() == s[s.len() - 1]);
        assert(forall|i: int| 0 <= i < s.len() - 1 ==> #[trigger] s.drop_last()[i] == s[i]);
        lemma_filter_none(s.drop_last(), pred);
    }
}

/// Filtering a sequence whose first `m` entries satisfy the predicate and
/// whose remaining entries do not keeps exactly the first `m` entries.
proof fn lemma_filter_split(s: Seq<usize>, pred: spec_fn(usize) -> bool, m: int)
    requires
        0 <= m <= s.len(),
        forall|i: int| 0 <= i < m ==> pred(#[trigger] s[i]),
        forall|i: int| m <= i < s.len() ==> !pred(#[trigger] s[i]),
    ensures
        s.filter(pred) == s.take(m),
    decreases s.len(),
{
    reveal(Seq::filter);
    if s.len() == 0 {
        assert(s.filter(pred) =~= s.take(m));
    } else {
        assert(s.last() == s[s.len() - 1]);
        assert(forall|i: int| 0 <= i < s.len() - 1 ==> #[trigger] s.drop_last()[i] == s[i]);
        if m == s.len() {
            lemma_filter_split(s.drop_last(), pred, m - 1);
            assert(s.filter(pred) =~= s.take(m));
        } else {
            lemma_filter_split(s.drop_last(), pred, m);
            assert(s.drop_last().take(m) =~= s.take(m));
        }
    }
}

} // verus!
