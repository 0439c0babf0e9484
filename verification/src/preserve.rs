//! The updates of a graph keep its invariant.
use vstd::prelude::*;
use crate::graph::{other_than, unlink, Cell, Graph, Reaction};
use crate::links::{lemma_filter_elements, lemma_filter_empty};
use crate::value::Value;
use crate::walk::{
    acyclic, is_ranking, lemma_fewer_links_ranked, lemma_new_cell_acyclic, lemma_new_link_acyclic,
    lemma_older_links_acyclic, ranking, reaches,
};

verus! {

impl<T, F: Fn(&Value<T>) -> Value<T>> Graph<T, F> {
    /// Predecessor links form no cycle.
    pub proof fn lemma_backward_acyclic(self)
        requires
            self.wf(),
        ensures
            acyclic(self.backward()),
    {
        let links = self.backward();
        assert forall|c: int, k: int| 0 <= c < links.len() && 0 <= k < links[c].len() implies (
        #[trigger] links[c][k]) < c by {
            assert(self.cell_wf(c));
            assert(self.alive(self.cells[c].predecessors[k]));
        }
        lemma_older_links_acyclic(links);
    }

    /// Replacing a cell by a live one with the same links keeps the
    /// invariant.
    pub proof fn lemma_wf_with_cell(self, id: usize, cell: Cell<T, F>)
        requires
            self.wf(),
            self.alive(id),
            cell.alive(),
            0 <= cell.dirty <= isize::MAX,
            0 <= cell.handles <= usize::MAX,
            cell.successors == self.cells[id as int].successors,
            cell.predecessors == self.cells[id as int].predecessors,
            forall|k: int|
                0 <= k < cell.react_fns.len() ==> self.reaction_wf(
                    id as int,
                    #[trigger] cell.react_fns[k],
                ),
        ensures
            self.with_cell(id, cell).wf(),
    {
        let h = self.with_cell(id, cell);
        assert(h.forward() =~= self.forward());
        assert forall|c: int| 0 <= c < h.cells.len() implies #[trigger] h.cell_wf(c) by {
            assert(self.cell_wf(c));
            let x = h.cells[c];
            assert forall|k: int| 0 <= k < x.successors.len() implies h.alive(
                #[trigger] x.successors[k],
            ) by {
                assert(self.alive(self.cells[c].successors[k]));
            }
            assert forall|k: int| 0 <= k < x.predecessors.len() implies h.alive(
                #[trigger] x.predecessors[k],
            ) && x.predecessors[k] < c by {
                assert(self.alive(self.cells[c].predecessors[k]));
            }
            assert forall|k: int| 0 <= k < x.react_fns.len() implies h.reaction_wf(
                c,
                #[trigger] x.react_fns[k],
            ) by {
                if c != id {
                    assert(self.reaction_wf(c, self.cells[c].react_fns[k]));
                }
            }
        }
    }

    /// Replacing a cell by a live one with the same links and reactions
    /// keeps the invariant.
    pub proof fn lemma_wf_retouched(self, id: usize, cell: Cell<T, F>)
        requires
            self.wf(),
            self.alive(id),
            cell.alive(),
            0 <= cell.dirty <= isize::MAX,
            0 <= cell.handles <= usize::MAX,
            cell.successors == self.cells[id as int].successors,
            cell.predecessors == self.cells[id as int].predecessors,
            cell.react_fns == self.cells[id as int].react_fns,
        ensures
            self.with_cell(id, cell).wf(),
    {
        assert(self.cell_wf(id as int));
        self.lemma_wf_with_cell(id, cell);
    }

    /// One more cell keeps the invariant.
    pub proof fn lemma_wf_with_new(self, value: Value<T>)
        requires
            self.wf(),
            self.cells.len() < usize::MAX,
        ensures
            self.with_new(value).wf(),
    {
        let h = self.with_new(value);
        assert(h.forward() =~= self.forward().push(Seq::empty()));
        lemma_new_cell_acyclic(self.forward());
        assert forall|c: int| 0 <= c < h.cells.len() implies #[trigger] h.cell_wf(c) by {
            if c < self.cells.len() {
                assert(self.cell_wf(c));
                let x = h.cells[c];
                assert forall|k: int| 0 <= k < x.successors.len() implies h.alive(
                    #[trigger] x.successors[k],
                ) by {
                    assert(self.alive(self.cells[c].successors[k]));
                }
                assert forall|k: int| 0 <= k < x.predecessors.len() implies h.alive(
                    #[trigger] x.predecessors[k],
                ) && x.predecessors[k] < c by {
                    assert(self.alive(self.cells[c].predecessors[k]));
                }
                assert forall|k: int| 0 <= k < x.react_fns.len() implies h.reaction_wf(
                    c,
                    #[trigger] x.react_fns[k],
                ) by {
                    assert(self.reaction_wf(c, self.cells[c].react_fns[k]));
                }
            }
        }
    }

    /// One more successor link keeps the invariant where it closes no cycle.
    pub proof fn lemma_wf_with_successor(self, id: usize, to: usize)
        requires
            self.wf(),
            self.alive(id),
            self.alive(to),
            !reaches(self.forward(), to, id),
        ensures
            self.with_successor(id, to).wf(),
    {
        let h = self.with_successor(id, to);
        assert(h.forward() =~= self.forward().update(
            id as int,
            self.forward()[id as int].push(to),
        ));
        lemma_new_link_acyclic(self.forward(), h.forward(), id, to);
        assert forall|c: int| 0 <= c < h.cells.len() implies #[trigger] h.cell_wf(c) by {
            assert(self.cell_wf(c));
            let x = h.cells[c];
            assert forall|k: int| 0 <= k < x.successors.len() implies h.alive(
                #[trigger] x.successors[k],
            ) by {
                if c == id && k == self.cells[c].successors.len() {
                } else {
                    assert(self.alive(self.cells[c].successors[k]));
                }
            }
            assert forall|k: int| 0 <= k < x.predecessors.len() implies h.alive(
                #[trigger] x.predecessors[k],
            ) && x.predecessors[k] < c by {
                assert(self.alive(self.cells[c].predecessors[k]));
            }
            assert forall|k: int| 0 <= k < x.react_fns.len() implies h.reaction_wf(
                c,
                #[trigger] x.react_fns[k],
            ) by {
                assert(self.reaction_wf(c, self.cells[c].react_fns[k]));
            }
        }
    }

    /// One more predecessor link to an older cell keeps the invariant.
    pub proof fn lemma_wf_with_predecessor(self, id: usize, to: usize)
        requires
            self.wf(),
            self.alive(id),
            self.alive(to),
            to < id,
        ensures
            self.with_predecessor(id, to).wf(),
    {
        let h = self.with_predecessor(id, to);
        assert(h.forward() =~= self.forward());
        assert forall|c: int| 0 <= c < h.cells.len() implies #[trigger] h.cell_wf(c) by {
            assert(self.cell_wf(c));
            let x = h.cells[c];
            assert forall|k: int| 0 <= k < x.successors.len() implies h.alive(
                #[trigger] x.successors[k],
            ) by {
                assert(self.alive(self.cells[c].successors[k]));
            }
            assert forall|k: int| 0 <= k < x.predecessors.len() implies h.alive(
                #[trigger] x.predecessors[k],
            ) && x.predecessors[k] < c by {
                if c == id && k == self.cells[c].predecessors.len() {
                } else {
                    assert(self.alive(self.cells[c].predecessors[k]));
                }
            }
            assert forall|k: int| 0 <= k < x.react_fns.len() implies h.reaction_wf(
                c,
                #[trigger] x.react_fns[k],
            ) by {
                assert(self.reaction_wf(c, self.cells[c].react_fns[k]));
                let t = x.react_fns[k].target();
                if c == id && self.cells[c].predecessors.contains(t) {
                    let j = choose|j: int|
                        0 <= j < self.cells[c].predecessors.len() && self.cells[c].predecessors[j]
                            == t;
                    assert(x.predecessors[j] == t);
                }
            }
        }
    }

    /// Letting go of one hold on a cell keeps the invariant: the cell lives
    /// on, or it is reclaimed.
    pub proof fn lemma_wf_unheld(self, id: usize, dirty: int, handles: int)
        requires
            self.wf(),
            id < self.cells.len(),
            self.cells[id as int].alive(),
            0 <= dirty <= self.cells[id as int].dirty,
            0 <= handles <= self.cells[id as int].handles,
        ensures
            self.with_dirty(id, dirty).with_handles(id, handles).settle(id).wf(),
    {
        let held = self.with_dirty(id, dirty).with_handles(id, handles);
        let cell = held.cells[id as int];
        assert(self.cell_wf(id as int));
        if cell.alive() {
            assert(held.cells =~= self.with_cell(id, cell).cells);
            self.lemma_wf_with_cell(id, cell);
        } else {
            let h = held.reclaim(id);
            let rank = ranking(self.forward());
            assert(is_ranking(self.forward(), rank));
            assert forall|c: int, k: int|
                0 <= c < h.forward().len() && 0 <= k < h.forward()[c].len() implies self.forward()[c].contains(
            #[trigger] h.forward()[c][k]) by {
                if c != id {
                    lemma_filter_elements(self.cells[c].successors, other_than(id));
                    assert(h.forward()[c] == unlink(self.cells[c].successors, id));
                } else {
                    assert(h.forward()[c].len() == 0);
                }
            }
            lemma_fewer_links_ranked(self.forward(), h.forward(), rank);
            assert forall|c: int| 0 <= c < h.cells.len() implies #[trigger] h.cell_wf(c) by {
                assert(self.cell_wf(c));
                let x = h.cells[c];
                if c != id {
                    lemma_filter_elements(self.cells[c].successors, other_than(id));
                    lemma_filter_elements(self.cells[c].predecessors, other_than(id));
                    if !self.cells[c].alive() {
                        lemma_filter_empty::<usize>(other_than(id));
                        assert(x =~= Cell::<T, F>::reclaimed());
                    }
                    assert forall|k: int| 0 <= k < x.successors.len() implies h.alive(
                        #[trigger] x.successors[k],
                    ) by {
                        let e = x.successors[k];
                        assert(self.cells[c].successors.contains(e));
                        let j = choose|j: int|
                            0 <= j < self.cells[c].successors.len() && self.cells[c].successors[j]
                                == e;
                        assert(self.alive(self.cells[c].successors[j]));
                    }
                    assert forall|k: int| 0 <= k < x.predecessors.len() implies h.alive(
                        #[trigger] x.predecessors[k],
                    ) && x.predecessors[k] < c by {
                        let e = x.predecessors[k];
                        assert(self.cells[c].predecessors.contains(e));
                        let j = choose|j: int|
                            0 <= j < self.cells[c].predecessors.len()
                                && self.cells[c].predecessors[j] == e;
                        assert(self.alive(self.cells[c].predecessors[j]));
                    }
                    assert forall|k: int| 0 <= k < x.react_fns.len() implies h.reaction_wf(
                        c,
                        #[trigger] x.react_fns[k],
                    ) by {
                        assert(self.reaction_wf(c, self.cells[c].react_fns[k]));
                    }
                }
            }
        }
    }

    /// A new value in a live cell keeps the invariant.
    pub proof fn lemma_wf_with_value(self, id: usize, value: Value<T>)
        requires
            self.wf(),
            self.alive(id),
        ensures
            self.with_value(id, value).wf(),
    {
        assert(self.cell_wf(id as int));
        self.lemma_wf_retouched(id, Cell { value, ..self.cells[id as int] });
    }

    /// Marking a live cell as written directly, or not, keeps the invariant.
    pub proof fn lemma_wf_with_flag(self, id: usize, flag: bool)
        requires
            self.wf(),
            self.alive(id),
        ensures
            self.with_flag(id, flag).wf(),
    {
        assert(self.cell_wf(id as int));
        self.lemma_wf_retouched(id, Cell { explicitly_modified: flag, ..self.cells[id as int] });
    }

    /// A reaction keeps the invariant.
    pub proof fn lemma_wf_run(self, id: usize, r: Reaction<F>)
        requires
            self.wf(),
            self.alive(id),
            r.target() != id,
        ensures
            self.run(id, r).wf(),
    {
        let own = self.cells[id as int];
        match r {
            Reaction::Forward { target, func } => {
                if self.alive(target) && !self.cells[target as int].explicitly_modified {
                    self.lemma_wf_with_value(target, crate::graph::apply(func, own.value));
                }
            },
            Reaction::Backward { target, func } => {
                if own.explicitly_modified && self.alive(target) {
                    self.lemma_wf_with_value(target, crate::graph::apply(func, own.value));
                    self.with_value(target, crate::graph::apply(func, own.value)).lemma_wf_with_flag(
                        target,
                        true,
                    );
                }
            },
            Reaction::Slot { target, index } => {
                let there = self.cells[target as int];
                if self.alive(target) && !there.explicitly_modified && index
                    < there.value.slots().len() {
                    let step = self.with_value(target, there.value.with_slot(index as int, own.value));
                    self.lemma_wf_with_value(target, there.value.with_slot(index as int, own.value));
                    step.lemma_wf_with_value(id, there.value.slots()[index as int]);
                }
            },
            Reaction::Whole { target } => {
                let there = self.cells[target as int];
                if self.alive(target) && !there.explicitly_modified {
                    self.lemma_wf_with_value(target, own.value);
                    self.with_value(target, own.value).lemma_wf_with_value(id, there.value);
                }
            },
        }
    }

    /// The reactions of a live cell keep the invariant.
    pub proof fn lemma_wf_react(self, id: usize, n: nat)
        requires
            self.wf(),
            self.alive(id),
            n <= self.cells[id as int].react_fns.len(),
        ensures
            self.react(id, n).wf(),
        decreases n,
    {
        if n > 0 {
            self.lemma_wf_react(id, (n - 1) as nat);
            self.lemma_react_shape(id, (n - 1) as nat);
            assert(self.cell_wf(id as int));
            let r = self.cells[id as int].react_fns[n - 1];
            assert(self.reaction_wf(id as int, r));
            self.react(id, (n - 1) as nat).lemma_wf_run(id, r);
        }
    }

    /// The release of a pending visit keeps the invariant.
    pub proof fn lemma_wf_release_one(self, id: usize)
        requires
            self.wf(),
            id < self.cells.len(),
            self.cells[id as int].dirty >= 1,
        ensures
            self.release_one(id).wf(),
    {
        let n = self.cells[id as int].react_fns.len();
        let fired = if self.fires(id) {
            self.fire(id)
        } else {
            self
        };
        if self.fires(id) {
            self.lemma_wf_react(id, n);
            self.lemma_react_shape(id, n);
            self.react(id, n).lemma_wf_with_flag(id, false);
        }
        assert(fired.cell_wf(id as int));
        fired.lemma_wf_unheld(id, fired.cells[id as int].dirty - 1, fired.cells[id as int].handles);
        assert(fired.with_dirty(id, fired.cells[id as int].dirty - 1).with_handles(
            id,
            fired.cells[id as int].handles,
        ).cells =~= fired.with_dirty(id, fired.cells[id as int].dirty - 1).cells);
    }

    /// The release of pending visits keeps the invariant.
    pub proof fn lemma_wf_release(self, tokens: Seq<usize>)
        requires
            self.wf(),
            self.covers(tokens),
        ensures
            self.release(tokens).wf(),
        decreases tokens.len(),
    {
        if tokens.len() > 0 {
            let last = tokens.len() - 1;
            assert(tokens.take(last) =~= tokens.drop_last());
            self.lemma_release_prefix(tokens, last);
            self.lemma_wf_release(tokens.drop_last());
            self.release(tokens.drop_last()).lemma_wf_release_one(tokens.last());
        }
    }

    /// Marking live cells keeps the invariant, where the counters have room.
    pub proof fn lemma_wf_marked(self, tokens: Seq<usize>)
        requires
            self.wf(),
            self.room(tokens),
            forall|i: int| 0 <= i < tokens.len() ==> self.alive(#[trigger] tokens[i]),
        ensures
            self.marked(tokens).wf(),
    {
        let h = self.marked(tokens);
        self.lemma_marked_shape(tokens);
        assert forall|t: usize| #[trigger] h.alive(t) implies self.alive(t) by {
            if !self.alive(t) && t < self.cells.len() {
                crate::walk::lemma_count_absent(tokens, t);
            }
        }
        assert forall|c: int| 0 <= c < h.cells.len() implies #[trigger] h.cell_wf(c) by {
            assert(self.cell_wf(c));
            let x = h.cells[c];
            assert(self.cells[c].dirty + crate::walk::count(tokens, c as usize) <= isize::MAX);
            assert forall|k: int| 0 <= k < x.successors.len() implies h.alive(
                #[trigger] x.successors[k],
            ) by {
                assert(self.alive(self.cells[c].successors[k]));
            }
            assert forall|k: int| 0 <= k < x.predecessors.len() implies h.alive(
                #[trigger] x.predecessors[k],
            ) && x.predecessors[k] < c by {
                assert(self.alive(self.cells[c].predecessors[k]));
            }
            assert forall|k: int| 0 <= k < x.react_fns.len() implies h.reaction_wf(
                c,
                #[trigger] x.react_fns[k],
            ) by {
                assert(self.reaction_wf(c, self.cells[c].react_fns[k]));
            }
            if !x.alive() {
                assert(!h.alive(c as usize));
                assert(crate::walk::count(tokens, c as usize) == 0);
            }
        }
    }

    /// A write keeps the invariant, where the counters have room for its
    /// visits.
    pub proof fn lemma_wf_sent(self, root: usize, value: Value<T>)
        requires
            self.wf(),
            self.alive(root),
            self.room(self.walk(root)),
        ensures
            self.sent(root, value).wf(),
    {
        self.lemma_wf_with_value(root, value);
        self.with_value(root, value).lemma_wf_with_flag(root, true);
        self.lemma_written_shape(root, value);
        self.law_walk_meets_live_cells(root);
        self.written(root, value).lemma_wf_marked(self.walk(root));
    }
}

} // verus!
