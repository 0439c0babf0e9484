//! The mathematical model of a cell graph.
//!
//! A [`Graph`] is a sequence of [`Cell`]s; a cell is named by its position.
//! Everything the executable engine does is stated as a function on graphs:
//! the operators that derive one cell from others, the marking that a write
//! performs, and the release of a batch, which fires the reactions.
use vstd::prelude::*;
use crate::value::Value;
use crate::walk::{acyclic, count, descend_from};

verus! {

/// What a mapping function returns on `v`.
pub open spec fn apply<T, F: Fn(&Value<T>) -> Value<T>>(f: F, v: Value<T>) -> Value<T> {
    choose|r: Value<T>| call_ensures(f, (&v,), r)
}

/// `f` may be called on every value, and what it returns depends on its
/// argument alone.
pub open spec fn functional<T, F: Fn(&Value<T>) -> Value<T>>(f: F) -> bool {
    &&& forall|v: Value<T>| call_requires(f, (&v,))
    &&& forall|v: Value<T>, r: Value<T>| #[trigger] call_ensures(f, (&v,), r) ==> r == apply(f, v)
}

/// A reaction attached to a cell. It runs when its cell fires: it reads the
/// value of its cell and writes the cell `target`.
pub enum Reaction<F> {
    /// `target` becomes `func` of this cell's value, unless `target` was
    /// written directly in this batch.
    Forward { target: usize, func: F },
    /// If this cell was written directly in this batch, `target` becomes
    /// `func` of this cell's value and counts as written directly.
    Backward { target: usize, func: F },
    /// This cell's value is exchanged with slot `index` of `target`, unless
    /// `target` was written directly in this batch.
    Slot { target: usize, index: usize },
    /// This cell's value is exchanged with the value of `target`, unless
    /// `target` was written directly in this batch.
    Whole { target: usize },
}

impl<F> Reaction<F> {
    /// The cell that the reaction writes.
    pub open spec fn target(self) -> usize {
        match self {
            Reaction::Forward { target, .. } => target,
            Reaction::Backward { target, .. } => target,
            Reaction::Slot { target, .. } => target,
            Reaction::Whole { target } => target,
        }
    }
}

/// One cell of the model.
pub struct Cell<T, F> {
    /// The value held.
    pub value: Value<T>,
    /// The reactions attached, in the order of their registration.
    pub react_fns: Seq<Reaction<F>>,
    /// The live cells derived from this one.
    pub successors: Seq<usize>,
    /// The live cells that this one writes back to.
    pub predecessors: Seq<usize>,
    /// The number of pending visits.
    pub dirty: int,
    /// Whether the value was written directly in the current batch.
    pub explicitly_modified: bool,
    /// The number of handles that callers hold.
    pub handles: int,
    /// Whether a strong link keeps the cell.
    pub pinned: bool,
}

impl<T, F> Cell<T, F> {
    /// A cell lives while a handle, a pending visit or a strong link holds it.
    pub open spec fn alive(self) -> bool {
        self.pinned || self.handles > 0 || self.dirty > 0
    }

    /// A fresh cell holding `value`, with one handle.
    pub open spec fn fresh(value: Value<T>) -> Cell<T, F> {
        Cell {
            value,
            react_fns: Seq::empty(),
            successors: Seq::empty(),
            predecessors: Seq::empty(),
            dirty: 0,
            explicitly_modified: false,
            handles: 1,
            pinned: false,
        }
    }

    /// What is left of a cell once nothing holds it.
    pub open spec fn reclaimed() -> Cell<T, F> {
        Cell {
            value: Value::Nil,
            react_fns: Seq::empty(),
            successors: Seq::empty(),
            predecessors: Seq::empty(),
            dirty: 0,
            explicitly_modified: false,
            handles: 0,
            pinned: false,
        }
    }
}

/// The test that a link does not lead to `gone`.
pub open spec fn other_than(gone: usize) -> spec_fn(usize) -> bool {
    |x: usize| x != gone
}

/// `links` without the links to `gone`.
pub open spec fn unlink(links: Seq<usize>, gone: usize) -> Seq<usize> {
    links.filter(other_than(gone))
}

/// The model of a cell graph.
pub struct Graph<T, F> {
    pub cells: Seq<Cell<T, F>>,
}

impl<T, F: Fn(&Value<T>) -> Value<T>> Graph<T, F> {
    /// The cell `id` exists and something holds it.
    pub open spec fn alive(self, id: usize) -> bool {
        id < self.cells.len() && self.cells[id as int].alive()
    }

    /// The successor lists of all cells.
    pub open spec fn forward(self) -> Seq<Seq<usize>> {
        Seq::new(self.cells.len(), |c: int| self.cells[c].successors)
    }

    /// The predecessor lists of all cells.
    pub open spec fn backward(self) -> Seq<Seq<usize>> {
        Seq::new(self.cells.len(), |c: int| self.cells[c].predecessors)
    }

    /// A reaction of cell `id` names another cell, and its function is one.
    /// A cell that it writes back to is, while it lives, a predecessor of the
    /// cell.
    pub open spec fn reaction_wf(self, id: int, r: Reaction<F>) -> bool {
        &&& r.target() < self.cells.len()
        &&& r.target() != id
        &&& match r {
            Reaction::Forward { func, .. } => functional(func),
            Reaction::Backward { target, func } => functional(func) && (self.alive(target)
                ==> self.cells[id].predecessors.contains(target)),
            _ => true,
        }
    }

    /// What the invariant asks of cell `id`.
    pub open spec fn cell_wf(self, id: int) -> bool {
        let c = self.cells[id];
        &&& c.dirty >= 0
        &&& c.dirty <= isize::MAX
        &&& c.handles >= 0
        &&& c.handles <= usize::MAX
        &&& forall|k: int| 0 <= k < c.successors.len() ==> self.alive(#[trigger] c.successors[k])
        &&& forall|k: int|
            0 <= k < c.predecessors.len() ==> self.alive(#[trigger] c.predecessors[k])
                && c.predecessors[k] < id
        &&& forall|k: int| 0 <= k < c.react_fns.len() ==> self.reaction_wf(id, #[trigger] c.react_fns[k])
        &&& !c.alive() ==> c == Cell::<T, F>::reclaimed()
    }

    /// The invariant of a graph: links lead to live cells, successor links
    /// form no cycle, predecessor links lead to older cells, and a cell that
    /// nothing holds has been reclaimed.
    pub open spec fn wf(self) -> bool {
        &&& self.cells.len() <= usize::MAX
        &&& forall|id: int| 0 <= id < self.cells.len() ==> #[trigger] self.cell_wf(id)
        &&& acyclic(self.forward())
    }

    /// No visit is pending and no cell counts as written directly: no batch
    /// is open.
    pub open spec fn quiescent(self) -> bool {
        forall|id: int|
            0 <= id < self.cells.len() ==> (#[trigger] self.cells[id]).dirty == 0
                && !self.cells[id].explicitly_modified
    }

    /// The graph with `cell` in the place of cell `id`.
    pub open spec fn with_cell(self, id: usize, cell: Cell<T, F>) -> Graph<T, F> {
        Graph { cells: self.cells.update(id as int, cell) }
    }

    /// The graph with `value` in cell `id`.
    pub open spec fn with_value(self, id: usize, value: Value<T>) -> Graph<T, F> {
        self.with_cell(id, Cell { value, ..self.cells[id as int] })
    }

    /// The graph in which cell `id` counts as written directly if `flag`
    /// is set, and does not if it is not.
    pub open spec fn with_flag(self, id: usize, flag: bool) -> Graph<T, F> {
        self.with_cell(id, Cell { explicitly_modified: flag, ..self.cells[id as int] })
    }

    /// The graph with `dirty` pending visits of cell `id`.
    pub open spec fn with_dirty(self, id: usize, dirty: int) -> Graph<T, F> {
        self.with_cell(id, Cell { dirty, ..self.cells[id as int] })
    }

    /// The graph with `handles` handles of cell `id`.
    pub open spec fn with_handles(self, id: usize, handles: int) -> Graph<T, F> {
        self.with_cell(id, Cell { handles, ..self.cells[id as int] })
    }

    /// The graph with cell `id` kept by a strong link.
    pub open spec fn with_pin(self, id: usize) -> Graph<T, F> {
        self.with_cell(id, Cell { pinned: true, ..self.cells[id as int] })
    }

    /// The graph with `r` as the last reaction of cell `id`.
    pub open spec fn with_reaction(self, id: usize, r: Reaction<F>) -> Graph<T, F> {
        self.with_cell(
            id,
            Cell { react_fns: self.cells[id as int].react_fns.push(r), ..self.cells[id as int] },
        )
    }

    /// The graph with `to` as the last successor of cell `id`.
    pub open spec fn with_successor(self, id: usize, to: usize) -> Graph<T, F> {
        self.with_cell(
            id,
            Cell { successors: self.cells[id as int].successors.push(to), ..self.cells[id as int] },
        )
    }

    /// The graph with `to` as the last predecessor of cell `id`.
    pub open spec fn with_predecessor(self, id: usize, to: usize) -> Graph<T, F> {
        self.with_cell(
            id,
            Cell {
                predecessors: self.cells[id as int].predecessors.push(to),
                ..self.cells[id as int]
            },
        )
    }

    /// The graph with one more cell, which holds `value` and has one handle.
    pub open spec fn with_new(self, value: Value<T>) -> Graph<T, F> {
        Graph { cells: self.cells.push(Cell::fresh(value)) }
    }

    /// The graph once cell `id` is gone: the cell is reclaimed, and no list
    /// links to it any more.
    pub open spec fn reclaim(self, id: usize) -> Graph<T, F> {
        Graph {
            cells: Seq::new(
                self.cells.len(),
                |c: int|
                    if c == id {
                        Cell::reclaimed()
                    } else {
                        Cell {
                            successors: unlink(self.cells[c].successors, id),
                            predecessors: unlink(self.cells[c].predecessors, id),
                            ..self.cells[c]
                        }
                    },
            ),
        }
    }

    /// The graph after `id` let go of one hold, a handle or a visit: where
    /// nothing holds the cell any more, it is reclaimed.
    pub open spec fn settle(self, id: usize) -> Graph<T, F> {
        if self.alive(id) {
            self
        } else {
            self.reclaim(id)
        }
    }

    /// The graph after the visits `tokens`: every cell has one more pending
    /// visit for each of its occurrences.
    pub open spec fn marked(self, tokens: Seq<usize>) -> Graph<T, F> {
        Graph {
            cells: Seq::new(
                self.cells.len(),
                |c: int|
                    Cell { dirty: self.cells[c].dirty + count(tokens, c as usize), ..self.cells[c] },
            ),
        }
    }

    /// The visits of a write to `root`: the root, then what its successor
    /// links reach, then what its predecessor links reach.
    pub open spec fn walk(self, root: usize) -> Seq<usize> {
        seq![root] + descend_from(self.forward(), root, 0) + descend_from(self.backward(), root, 0)
    }

    /// The counters have room for the visits `tokens`.
    pub open spec fn room(self, tokens: Seq<usize>) -> bool {
        forall|c: int|
            0 <= c < self.cells.len() ==> (#[trigger] self.cells[c]).dirty + count(
                tokens,
                c as usize,
            ) <= isize::MAX
    }

    /// Every visit in `tokens` is pending in the graph.
    pub open spec fn covers(self, tokens: Seq<usize>) -> bool {
        &&& forall|i: int| 0 <= i < tokens.len() ==> (#[trigger] tokens[i]) < self.cells.len()
        &&& forall|c: int|
            0 <= c < self.cells.len() ==> count(tokens, c as usize) <= (
            #[trigger] self.cells[c]).dirty
    }

    /// The graph after reaction `r` of cell `id` has run.
    pub open spec fn run(self, id: usize, r: Reaction<F>) -> Graph<T, F> {
        let own = self.cells[id as int];
        match r {
            Reaction::Forward { target, func } => {
                if self.alive(target) && !self.cells[target as int].explicitly_modified {
                    self.with_value(target, apply(func, own.value))
                } else {
                    self
                }
            },
            Reaction::Backward { target, func } => {
                if own.explicitly_modified && self.alive(target) {
                    self.with_value(target, apply(func, own.value)).with_flag(target, true)
                } else {
                    self
                }
            },
            Reaction::Slot { target, index } => {
                let there = self.cells[target as int];
                if self.alive(target) && !there.explicitly_modified && index
                    < there.value.slots().len() {
                    self.with_value(target, there.value.with_slot(index as int, own.value)).with_value(
                        id,
                        there.value.slots()[index as int],
                    )
                } else {
                    self
                }
            },
            Reaction::Whole { target } => {
                let there = self.cells[target as int];
                if self.alive(target) && !there.explicitly_modified {
                    self.with_value(target, own.value).with_value(id, there.value)
                } else {
                    self
                }
            },
        }
    }

    /// Whether the function of `r`, where running `r` calls it, has the
    /// result that `apply` names.
    pub open spec fn run_seen(self, id: usize, r: Reaction<F>) -> bool {
        let own = self.cells[id as int];
        match r {
            Reaction::Forward { target, func } => {
                self.alive(target) && !self.cells[target as int].explicitly_modified
                    ==> call_ensures(func, (&own.value,), apply(func, own.value))
            },
            Reaction::Backward { target, func } => {
                own.explicitly_modified ==> call_ensures(
                    func,
                    (&own.value,),
                    apply(func, own.value),
                )
            },
            _ => true,
        }
    }

    /// The graph after the first `n` reactions of cell `id` have run, in order.
    pub open spec fn react(self, id: usize, n: nat) -> Graph<T, F>
        decreases n,
    {
        if n == 0 {
            self
        } else {
            let before = self.react(id, (n - 1) as nat);
            before.run(id, self.cells[id as int].react_fns[n - 1])
        }
    }

    /// Every call that the first `n` reactions of cell `id` make returns what
    /// `apply` names.
    pub open spec fn react_seen(self, id: usize, n: nat) -> bool
        decreases n,
    {
        if n == 0 {
            true
        } else {
            let before = self.react(id, (n - 1) as nat);
            self.react_seen(id, (n - 1) as nat) && before.run_seen(
                id,
                self.cells[id as int].react_fns[n - 1],
            )
        }
    }

    /// The graph after cell `id` has fired: all its reactions have run, and
    /// it no longer counts as written directly.
    pub open spec fn fire(self, id: usize) -> Graph<T, F> {
        self.react(id, self.cells[id as int].react_fns.len()).with_flag(id, false)
    }

    /// Whether releasing a visit of `id` makes the cell fire.
    pub open spec fn fires(self, id: usize) -> bool {
        self.cells[id as int].dirty == 1
    }

    /// The graph after one visit of `id` was released. Where it was the last
    /// pending visit, the cell fires. Then the count of pending visits falls
    /// by one, and a cell that nothing holds any more is reclaimed. (No
    /// reaction reads the count of its own cell, so it makes no difference
    /// that the count falls after the firing.)
    pub open spec fn release_one(self, id: usize) -> Graph<T, F> {
        let fired = if self.fires(id) {
            self.fire(id)
        } else {
            self
        };
        fired.with_dirty(id, fired.cells[id as int].dirty - 1).settle(id)
    }

    /// Every call that releasing one visit of `id` makes returns what
    /// `apply` names.
    pub open spec fn release_one_seen(self, id: usize) -> bool {
        self.fires(id) ==> self.react_seen(id, self.cells[id as int].react_fns.len())
    }

    /// The graph after the visits `tokens` were released, first to last.
    pub open spec fn release(self, tokens: Seq<usize>) -> Graph<T, F>
        decreases tokens.len(),
    {
        if tokens.len() == 0 {
            self
        } else {
            self.release(tokens.drop_last()).release_one(tokens.last())
        }
    }

    /// Every call of a mapping function made while `tokens` were released
    /// returned what `apply` names for it.
    pub open spec fn release_seen(self, tokens: Seq<usize>) -> bool
        decreases tokens.len(),
    {
        if tokens.len() == 0 {
            true
        } else {
            self.release_seen(tokens.drop_last()) && self.release(
                tokens.drop_last(),
            ).release_one_seen(tokens.last())
        }
    }

    /// The cells that fire while `tokens` are released, in the order of
    /// their firing.
    pub open spec fn fired(self, tokens: Seq<usize>) -> Seq<usize>
        decreases tokens.len(),
    {
        if tokens.len() == 0 {
            Seq::empty()
        } else {
            let before = self.fired(tokens.drop_last());
            if self.release(tokens.drop_last()).fires(tokens.last()) {
                before.push(tokens.last())
            } else {
                before
            }
        }
    }
}

} // verus!
