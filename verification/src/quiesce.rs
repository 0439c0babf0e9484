//! A released batch leaves no batch open.
//!
//! A cell counts as written directly from the write, or from the reaction
//! that wrote back to it, until it fires. This module proves that it does
//! fire: whoever counts as written directly has a visit pending, so that,
//! once all visits of a write are released, no cell counts as written
//! directly any more.
use vstd::prelude::*;
use crate::graph::{Graph, Reaction};
use crate::value::Value;
use crate::walk::{
    count, descend, descend_from, is_last, lemma_count_take, lemma_descend_from_follow,
    lemma_descend_from_has,
};

verus! {

impl<T, F: Fn(&Value<T>) -> Value<T>> Graph<T, F> {
    /// Every cell but `own` that counts as written directly is `root` or
    /// one of `up`, and has a visit pending.
    pub open spec fn waiting(self, root: usize, up: Seq<usize>, own: int) -> bool {
        forall|c: int|
            0 <= c < self.cells.len() && c != own && (
            #[trigger] self.cells[c]).explicitly_modified ==> (c == root || up.contains(
                c as usize,
            )) && self.cells[c].dirty >= 1
    }

    /// Every live cell that a reaction of cell `id` writes back to is `root`
    /// or one of `up`, and has a visit pending.
    pub open spec fn targets_wait(self, id: usize, root: usize, up: Seq<usize>) -> bool {
        forall|k: int|
            0 <= k < self.cells[id as int].react_fns.len() ==> (
            #[trigger] self.cells[id as int].react_fns[k] matches Reaction::Backward { target, .. }
                ==> (self.alive(target) ==> (target == root || up.contains(target))
                && self.cells[target as int].dirty >= 1))
    }

    /// The release of visits adds no link.
    pub proof fn lemma_release_one_links(self, id: usize)
        requires
            id < self.cells.len(),
            self.cells.len() <= usize::MAX,
        ensures
            self.release_one(id).cells.len() == self.cells.len(),
            forall|c: int, x: usize|
                0 <= c < self.cells.len() && #[trigger] self.release_one(
                    id,
                ).cells[c].predecessors.contains(x) ==> self.cells[c].predecessors.contains(x),
    {
        let n = self.cells[id as int].react_fns.len();
        self.lemma_react_shape(id, n);
        let after = self.release_one(id);
        assert forall|c: int, x: usize|
            0 <= c < self.cells.len() && #[trigger] after.cells[c].predecessors.contains(
                x,
            ) implies self.cells[c].predecessors.contains(x) by {
            if after.cells[c].predecessors != self.cells[c].predecessors {
                if c != id {
                    crate::links::lemma_filter_elements(
                        self.cells[c].predecessors,
                        crate::graph::other_than(id),
                    );
                    let list = after.cells[c].predecessors;
                    let i = choose|i: int| 0 <= i < list.len() && list[i] == x;
                    assert(self.cells[c].predecessors.contains(list[i]));
                }
            }
        }
    }

    /// The release of visits adds no link.
    pub proof fn lemma_release_links(self, tokens: Seq<usize>)
        requires
            self.covers(tokens),
            self.cells.len() <= usize::MAX,
        ensures
            self.release(tokens).cells.len() == self.cells.len(),
            forall|c: int, x: usize|
                0 <= c < self.cells.len() && #[trigger] self.release(
                    tokens,
                ).cells[c].predecessors.contains(x) ==> self.cells[c].predecessors.contains(x),
        decreases tokens.len(),
    {
        if tokens.len() > 0 {
            let last = tokens.len() - 1;
            assert(tokens.take(last) =~= tokens.drop_last());
            self.lemma_release_prefix(tokens, last);
            self.lemma_release_links(tokens.drop_last());
            let mid = self.release(tokens.drop_last());
            mid.lemma_release_one_links(tokens.last());
            assert forall|c: int, x: usize|
                0 <= c < self.cells.len() && #[trigger] self.release(
                    tokens,
                ).cells[c].predecessors.contains(x) implies self.cells[c].predecessors.contains(
                x,
            ) by {
                assert(mid.cells[c].predecessors.contains(x));
            }
        }
    }

    /// A reaction sets the mark of a direct write only where a visit is
    /// pending.
    pub proof fn lemma_run_waiting(self, id: usize, r: Reaction<F>, root: usize, up: Seq<usize>)
        requires
            id < self.cells.len(),
            self.cells.len() <= usize::MAX,
            r.target() != id,
            self.waiting(root, up, id as int),
            r matches Reaction::Backward { target, .. } ==> (self.alive(target) ==> (target == root
                || up.contains(target)) && self.cells[target as int].dirty >= 1),
        ensures
            self.run(id, r).waiting(root, up, id as int),
            self.run(id, r).cells[id as int].explicitly_modified
                == self.cells[id as int].explicitly_modified,
    {
        self.lemma_run_shape(id, r);
        let after = self.run(id, r);
        assert forall|c: int|
            0 <= c < after.cells.len() && c != id && (
            #[trigger] after.cells[c]).explicitly_modified implies (c == root || up.contains(
            c as usize,
        )) && after.cells[c].dirty >= 1 by {
            if !self.cells[c].explicitly_modified {
                assert(c == r.target());
            }
        }
    }

    /// The reactions of a cell set the mark of a direct write only where a
    /// visit is pending.
    pub proof fn lemma_react_waiting(self, id: usize, n: nat, root: usize, up: Seq<usize>)
        requires
            self.wf(),
            id < self.cells.len(),
            n <= self.cells[id as int].react_fns.len(),
            self.waiting(root, up, id as int),
            self.targets_wait(id, root, up),
        ensures
            self.react(id, n).waiting(root, up, id as int),
        decreases n,
    {
        if n > 0 {
            let m = (n - 1) as nat;
            self.lemma_react_waiting(id, m, root, up);
            self.lemma_react_shape(id, m);
            let before = self.react(id, m);
            let r = self.cells[id as int].react_fns[n - 1];
            assert(self.cell_wf(id as int));
            assert(self.reaction_wf(id as int, r));
            before.lemma_run_waiting(id, r, root, up);
        }
    }

    /// The release of one visit leaves a visit pending for every cell that
    /// counts as written directly.
    pub proof fn lemma_release_one_waiting(self, id: usize, root: usize, up: Seq<usize>)
        requires
            self.wf(),
            id < self.cells.len(),
            self.cells[id as int].dirty >= 1,
            self.waiting(root, up, -1),
            self.fires(id) ==> self.targets_wait(id, root, up),
        ensures
            self.release_one(id).waiting(root, up, -1),
    {
        let n = self.cells[id as int].react_fns.len();
        let after = self.release_one(id);
        if self.fires(id) {
            self.lemma_react_waiting(id, n, root, up);
            self.lemma_react_shape(id, n);
        }
        let fired = if self.fires(id) {
            self.fire(id)
        } else {
            self
        };
        assert(fired.waiting(root, up, id as int));
        assert forall|c: int|
            0 <= c < after.cells.len() && (
            #[trigger] after.cells[c]).explicitly_modified implies (c == root || up.contains(
            c as usize,
        )) && after.cells[c].dirty >= 1 by {
            if c == id {
                assert(!self.fires(id));
                assert(after.cells[c].dirty == self.cells[c].dirty - 1);
            } else {
                assert(after.cells[c].explicitly_modified == fired.cells[c].explicitly_modified);
                assert(after.cells[c].dirty == fired.cells[c].dirty);
            }
        }
    }

    /// In the visits of a write, the last visit of a cell that is the
    /// written one, or reached by predecessor links, is followed by a
    /// visit, by predecessor links, of each predecessor of the cell.
    pub proof fn lemma_predecessor_follows(self, root: usize, k: int, t: usize)
        requires
            self.wf(),
            self.alive(root),
            is_last(self.walk(root), k),
            self.walk(root)[k] == root || descend_from(self.backward(), root, 0).contains(
                self.walk(root)[k],
            ),
            self.walk(root)[k] < self.cells.len(),
            self.cells[self.walk(root)[k] as int].predecessors.contains(t),
        ensures
            descend_from(self.backward(), root, 0).contains(t),
            exists|j: int| k < j < self.walk(root).len() && self.walk(root)[j] == t,
    {
        let tokens = self.walk(root);
        let down = descend(self.forward(), root);
        let up = descend_from(self.backward(), root, 0);
        let id = tokens[k];
        self.lemma_backward_acyclic();
        assert(tokens =~= down + up);
        assert(self.backward()[id as int] == self.cells[id as int].predecessors);
        if k >= down.len() {
            let i = k - down.len();
            assert(up[i] == id);
            lemma_descend_from_follow(self.backward(), root, 0, i, t);
            let j = choose|j: int| i < j < up.len() && up[j] == t;
            assert(tokens[down.len() + j] == t);
        } else {
            if up.contains(id) {
                let i = choose|i: int| 0 <= i < up.len() && up[i] == id;
                assert(tokens[down.len() + i] == id);
            }
            assert(id == root);
            let m = choose|m: int|
                0 <= m < self.cells[id as int].predecessors.len()
                    && self.cells[id as int].predecessors[m] == t;
            lemma_descend_from_has(self.backward(), root, 0, m);
            let j = choose|j: int| 0 <= j < up.len() && up[j] == self.backward()[root as int][m];
            assert(tokens[down.len() + j] == t);
        }
    }

    /// While the visits of a write are released, every cell that counts as
    /// written directly has a visit pending.
    pub proof fn lemma_release_waiting(self, root: usize, value: Value<T>, k: int)
        requires
            self.wf(),
            self.quiescent(),
            self.alive(root),
            self.room(self.walk(root)),
            0 <= k <= self.walk(root).len(),
        ensures
            self.sent(root, value).release(self.walk(root).take(k)).wf(),
            self.sent(root, value).release(self.walk(root).take(k)).waiting(
                root,
                descend_from(self.backward(), root, 0),
                -1,
            ),
        decreases k,
    {
        let tokens = self.walk(root);
        let up = descend_from(self.backward(), root, 0);
        let sent = self.sent(root, value);
        self.lemma_wf_sent(root, value);
        self.law_batch_settles(root, value);
        self.lemma_walk_range(root);
        if k == 0 {
            assert(tokens.take(0) =~= Seq::<usize>::empty());
            assert(sent.release(tokens.take(0)) == sent);
            assert(count(tokens, root) >= 1) by {
                lemma_count_take(tokens, 0, root);
                assert(tokens[0] == root);
            }
        } else {
            let j = k - 1;
            let id = tokens[j];
            self.lemma_release_waiting(root, value, j);
            sent.lemma_release_prefix(tokens, j);
            let mid = sent.release(tokens.take(j));
            sent.lemma_release_dirty(tokens.take(j));
            sent.lemma_release_links(tokens.take(j));
            if mid.fires(id) {
                // the visit released is the last of `id`
                lemma_count_take(tokens, j, id);
                lemma_count_take(tokens, j + 1, id);
                assert(tokens.take(j + 1) =~= tokens.take(j).push(id));
                crate::walk::lemma_count_push(tokens.take(j), id, id);
                assert(is_last(tokens, j)) by {
                    if exists|i: int| j < i < tokens.len() && tokens[i] == id {
                        let i = choose|i: int| j < i < tokens.len() && tokens[i] == id;
                        assert(j + 1 <= i < tokens.len() && tokens[i] == id);
                    }
                }
                if mid.cells[id as int].explicitly_modified {
                    assert forall|m: int|
                        0 <= m < mid.cells[id as int].react_fns.len() implies (
                    #[trigger] mid.cells[id as int].react_fns[m] matches Reaction::Backward {
                        target,
                        ..
                    } ==> (mid.alive(target) ==> (target == root || up.contains(target))
                        && mid.cells[target as int].dirty >= 1)) by {
                        let r = mid.cells[id as int].react_fns[m];
                        if r is Backward && mid.alive(r.target()) {
                            let t = r.target();
                            assert(mid.cell_wf(id as int));
                            assert(mid.reaction_wf(id as int, r));
                            assert(mid.cells[id as int].predecessors.contains(t));
                            assert(sent.cells[id as int].predecessors.contains(t));
                            assert(self.cells[id as int].predecessors.contains(t));
                            self.lemma_predecessor_follows(root, j, t);
                            let i = choose|i: int| j < i < tokens.len() && tokens[i] == t;
                            assert(j <= i < tokens.len() && tokens[i] == t);
                            lemma_count_take(tokens, j, t);
                            assert(sent.cells[t as int].dirty == count(tokens, t));
                        }
                    }
                    assert(mid.targets_wait(id, root, up));
                    mid.lemma_release_one_waiting(id, root, up);
                } else {
                    mid.lemma_release_one_idle(id, root, up);
                }
            } else {
                mid.lemma_release_one_waiting(id, root, up);
            }
            mid.lemma_wf_release_one(id);
        }
    }

    /// A cell that does not count as written directly writes back to none.
    pub proof fn lemma_release_one_idle(self, id: usize, root: usize, up: Seq<usize>)
        requires
            self.wf(),
            id < self.cells.len(),
            self.cells[id as int].dirty >= 1,
            self.waiting(root, up, -1),
            !self.cells[id as int].explicitly_modified,
        ensures
            self.release_one(id).waiting(root, up, -1),
    {
        let n = self.cells[id as int].react_fns.len();
        self.lemma_react_idle(id, n);
        self.lemma_react_shape(id, n);
        let after = self.release_one(id);
        assert forall|c: int|
            0 <= c < after.cells.len() && (
            #[trigger] after.cells[c]).explicitly_modified implies (c == root || up.contains(
            c as usize,
        )) && after.cells[c].dirty >= 1 by {
            if c != id {
                assert(self.cells[c].explicitly_modified);
            }
        }
    }

    /// The reactions of a cell that does not count as written directly set
    /// no mark of a direct write.
    pub proof fn lemma_react_idle(self, id: usize, n: nat)
        requires
            self.wf(),
            id < self.cells.len(),
            n <= self.cells[id as int].react_fns.len(),
            !self.cells[id as int].explicitly_modified,
        ensures
            forall|c: int|
                0 <= c < self.cells.len() ==> (#[trigger] self.react(
                    id,
                    n,
                ).cells[c]).explicitly_modified == self.cells[c].explicitly_modified,
        decreases n,
    {
        if n > 0 {
            let m = (n - 1) as nat;
            self.lemma_react_idle(id, m);
            self.lemma_react_shape(id, m);
            assert(self.cell_wf(id as int));
            assert(self.reaction_wf(id as int, self.cells[id as int].react_fns[n - 1]));
        }
    }

    /// A released batch leaves no batch open. Where no batch is open, one
    /// write and the release of its guard leave the graph with no visit
    /// pending and no cell that counts as written directly: every cell that
    /// a direct write or a write back marked has fired.
    pub proof fn law_batch_closes(self, root: usize, value: Value<T>)
        requires
            self.wf(),
            self.quiescent(),
            self.alive(root),
            self.room(self.walk(root)),
        ensures
            self.sent(root, value).release(self.walk(root)).wf(),
            self.sent(root, value).release(self.walk(root)).quiescent(),
    {
        let tokens = self.walk(root);
        self.lemma_release_waiting(root, value, tokens.len() as int);
        assert(tokens.take(tokens.len() as int) =~= tokens);
        self.law_batch_settles(root, value);
    }
}

} // verus!
