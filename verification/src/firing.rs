//! Firing: what the release of a guard does.
//!
//! The tokens of a guard are released first to last. A release that takes
//! the last pending visit from a cell fires the cell: its reactions run in
//! the order of their registration, and the cell no longer counts as written
//! directly.
use vstd::prelude::*;
use crate::graph::{Graph, Reaction};
use crate::signal::{lemma_token_add, token_ids, SignalGraph, SignalGuard, SignalGuardInner};
use crate::value::Value;
use crate::walk::{count, lemma_count_push};

verus! {

impl<T, F: Fn(&Value<T>) -> Value<T>> Graph<T, F> {
    /// Two graphs have the same cells but for the values they hold and for
    /// which of them count as written directly.
    pub open spec fn same_shape(self, other: Graph<T, F>) -> bool {
        &&& other.cells.len() == self.cells.len()
        &&& forall|c: int|
            0 <= c < self.cells.len() ==> {
                &&& (#[trigger] other.cells[c]).react_fns == self.cells[c].react_fns
                &&& other.cells[c].successors == self.cells[c].successors
                &&& other.cells[c].predecessors == self.cells[c].predecessors
                &&& other.cells[c].dirty == self.cells[c].dirty
                &&& other.cells[c].handles == self.cells[c].handles
                &&& other.cells[c].pinned == self.cells[c].pinned
            }
    }

    /// A reaction changes values and marks of direct writes, nothing else.
    pub proof fn lemma_run_shape(self, id: usize, r: Reaction<F>)
        requires
            id < self.cells.len(),
        ensures
            self.same_shape(self.run(id, r)),
    {
    }

    /// The reactions of a cell change values and marks of direct writes,
    /// nothing else.
    pub proof fn lemma_react_shape(self, id: usize, n: nat)
        requires
            id < self.cells.len(),
        ensures
            self.same_shape(self.react(id, n)),
        decreases n,
    {
        if n > 0 {
            self.lemma_react_shape(id, (n - 1) as nat);
            self.react(id, (n - 1) as nat).lemma_run_shape(
                id,
                self.cells[id as int].react_fns[n - 1],
            );
        }
    }

    /// Releasing one visit takes one pending visit from the cell and leaves
    /// the counts of the others.
    pub proof fn lemma_release_one_dirty(self, id: usize)
        requires
            id < self.cells.len(),
            self.cells[id as int].dirty >= 1,
        ensures
            self.release_one(id).cells.len() == self.cells.len(),
            forall|c: int|
                0 <= c < self.cells.len() ==> (#[trigger] self.release_one(id).cells[c]).dirty == if c
                    == id {
                    self.cells[c].dirty - 1
                } else {
                    self.cells[c].dirty
                },
    {
        self.lemma_react_shape(id, self.cells[id as int].react_fns.len());
    }

    /// Releasing visits takes from every cell as many pending visits as the
    /// visits name it.
    pub proof fn lemma_release_dirty(self, tokens: Seq<usize>)
        requires
            self.covers(tokens),
            self.cells.len() <= usize::MAX,
        ensures
            self.release(tokens).cells.len() == self.cells.len(),
            forall|c: int|
                0 <= c < self.cells.len() ==> (#[trigger] self.release(tokens).cells[c]).dirty
                    == self.cells[c].dirty - count(tokens, c as usize),
        decreases tokens.len(),
    {
        if tokens.len() > 0 {
            let front = tokens.drop_last();
            let id = tokens.last();
            assert(tokens[tokens.len() - 1] < self.cells.len());
            assert forall|i: int| 0 <= i < front.len() implies (#[trigger] front[i])
                < self.cells.len() by {
                assert(front[i] == tokens[i]);
            }
            assert forall|c: int| 0 <= c < self.cells.len() implies count(front, c as usize) <= (
            #[trigger] self.cells[c]).dirty by {
                assert(count(tokens, c as usize) <= self.cells[c].dirty);
            }
            self.lemma_release_dirty(front);
            let mid = self.release(front);
            assert(count(tokens, id) <= self.cells[id as int].dirty);
            assert(mid.cells[id as int].dirty == self.cells[id as int].dirty - count(front, id));
            mid.lemma_release_one_dirty(id);
        }
    }

    /// The release of a first part of the visits leaves the rest covered.
    pub proof fn lemma_release_prefix(self, tokens: Seq<usize>, n: int)
        requires
            self.covers(tokens),
            self.cells.len() <= usize::MAX,
            0 <= n < tokens.len(),
        ensures
            self.covers(tokens.take(n)),
            self.release(tokens.take(n)).cells.len() == self.cells.len(),
            tokens[n] < self.cells.len(),
            self.release(tokens.take(n)).cells[tokens[n] as int].dirty >= 1,
            tokens.take(n + 1).drop_last() == tokens.take(n),
            tokens.take(n + 1).last() == tokens[n],
    {
        let front = tokens.take(n);
        let id = tokens[n];
        assert(tokens.take(n + 1).drop_last() =~= front);
        assert(tokens =~= front.push(id) + tokens.skip(n + 1));
        crate::walk::lemma_count_add(front.push(id), tokens.skip(n + 1), id);
        lemma_count_push(front, id, id);
        assert forall|i: int| 0 <= i < front.len() implies (#[trigger] front[i])
            < self.cells.len() by {
            assert(front[i] == tokens[i]);
        }
        assert forall|c: int| 0 <= c < self.cells.len() implies count(front, c as usize) <= (
        #[trigger] self.cells[c]).dirty by {
            crate::walk::lemma_count_add(front.push(id), tokens.skip(n + 1), c as usize);
            lemma_count_push(front, id, c as usize);
            assert(count(tokens, c as usize) <= self.cells[c].dirty);
        }
        self.lemma_release_dirty(front);
        assert(count(tokens, id) <= self.cells[id as int].dirty);
    }
}

impl<T, F: Fn(&Value<T>) -> Value<T>> SignalGraph<T, F> {
    /// Runs reaction `k` of the live cell `id`.
    pub(crate) fn run_reaction(&mut self, id: usize, k: usize)
        requires
            old(self).wf(),
            old(self)@.alive(id),
            k < old(self)@.cells[id as int].react_fns.len(),
        ensures
            final(self).wf(),
            final(self)@ == old(self)@.run(id, old(self)@.cells[id as int].react_fns[k as int]),
            old(self)@.run_seen(id, old(self)@.cells[id as int].react_fns[k as int]),
    {
        let ghost g0 = self@;
        let ghost r = g0.cells[id as int].react_fns[k as int];
        proof {
            self.lemma_wf();
            assert(g0.cell_wf(id as int));
            assert(g0.reaction_wf(id as int, r));
        }
        let (kind, target, index): (u8, usize, usize) = match self.reaction(id, k) {
            Reaction::Forward { target, .. } => (0u8, *target, 0usize),
            Reaction::Backward { target, .. } => (1u8, *target, 0usize),
            Reaction::Slot { target, index } => (2u8, *target, *index),
            Reaction::Whole { target } => (3u8, *target, 0usize),
        };
        if kind == 0 {
            if self.is_alive(target) && !self.flag_of(target) {
                let mut v = self.eval(id, k);
                self.swap_value(target, &mut v);
            }
        } else if kind == 1 {
            if self.flag_of(id) {
                let mut v = self.eval(id, k);
                if self.is_alive(target) {
                    self.swap_value(target, &mut v);
                    self.set_flag(target, true);
                }
            }
        } else if kind == 2 {
            if self.is_alive(target) && !self.flag_of(target) && self.value_of(target).has_slot(
                index,
            ) {
                let mut own: Value<T> = Value::Nil;
                self.swap_value(id, &mut own);
                self.exchange_slot_at(target, index, &mut own);
                self.swap_value(id, &mut own);
                assert(self@.cells =~= g0.run(id, r).cells);
            }
        } else {
            if self.is_alive(target) && !self.flag_of(target) {
                let mut own: Value<T> = Value::Nil;
                self.swap_value(id, &mut own);
                self.swap_value(target, &mut own);
                self.swap_value(id, &mut own);
                assert(self@.cells =~= g0.run(id, r).cells);
            }
        }
    }

    /// Runs the reactions of the live cell `id`, in the order of their
    /// registration.
    pub(crate) fn react(&mut self, id: usize)
        requires
            old(self).wf(),
            old(self)@.alive(id),
        ensures
            final(self).wf(),
            final(self)@ == old(self)@.react(id, old(self)@.cells[id as int].react_fns.len()),
            old(self)@.react_seen(id, old(self)@.cells[id as int].react_fns.len()),
    {
        let ghost g0 = self@;
        let n = self.reaction_count(id);
        let mut k: usize = 0;
        while k < n
            invariant
                self.wf(),
                g0.alive(id),
                n == g0.cells[id as int].react_fns.len(),
                k <= n,
                self@ == g0.react(id, k as nat),
                g0.react_seen(id, k as nat),
            decreases n - k,
        {
            proof {
                g0.lemma_react_shape(id, k as nat);
            }
            self.run_reaction(id, k);
            k += 1;
        }
    }
}

impl SignalGuardInner {
    /// Releases the visit: the count of pending visits of its cell falls by
    /// one, and the cell fires if that was its last pending visit. Returns
    /// whether the cell fired.
    pub fn drop<T, F: Fn(&Value<T>) -> Value<T>>(self, graph: &mut SignalGraph<T, F>) -> (fired:
        bool)
        requires
            old(graph).wf(),
            self@ < old(graph)@.cells.len(),
            old(graph)@.cells[self@ as int].dirty >= 1,
        ensures
            final(graph).wf(),
            final(graph)@ == old(graph)@.release_one(self@),
            fired == old(graph)@.fires(self@),
            old(graph)@.release_one_seen(self@),
    {
        let id = self.id();
        let ghost g0 = graph@;
        let fired = graph.dirty_of(id) == 1;
        if fired {
            graph.react(id);
            proof {
                g0.lemma_react_shape(id, g0.cells[id as int].react_fns.len());
            }
            graph.set_flag(id, false);
        }
        graph.let_go(id, true);
        fired
    }
}

impl SignalGuard {
    /// Whether every visit of the guard is pending in `graph`: whether the
    /// guard may be released there.
    pub fn covered_by<T, F: Fn(&Value<T>) -> Value<T>>(&self, graph: &SignalGraph<T, F>) -> (covered:
        bool)
        requires
            graph.wf(),
        ensures
            covered == graph@.covers(self@),
    {
        let ghost g = graph@;
        let ghost all = self@;
        let n = graph.len();
        let mut counts: Vec<isize> = Vec::new();
        let mut i: usize = 0;
        while i < n
            invariant
                i <= n,
                counts@.len() == i,
                forall|c: int| 0 <= c < i ==> counts@[c] == 0,
            decreases n - i,
        {
            counts.push(0);
            i += 1;
        }
        proof {
            graph.lemma_wf();
            assert(all.take(0) =~= Seq::<usize>::empty());
            assert forall|c: int| 0 <= c < n implies (#[trigger] counts@[c]) == count(
                all.take(0),
                c as usize,
            ) && counts@[c] <= g.cells[c].dirty by {
                assert(g.cell_wf(c));
            }
        }
        let len = self.len();
        let mut k: usize = 0;
        while k < len
            invariant
                graph.wf(),
                g == graph@,
                all == self@,
                len == all.len(),
                n == g.cells.len(),
                k <= len,
                counts@.len() == n,
                forall|j: int| 0 <= j < k ==> (#[trigger] all[j]) < n,
                forall|c: int|
                    0 <= c < n ==> (#[trigger] counts@[c]) == count(all.take(k as int), c as usize)
                        && counts@[c] <= g.cells[c].dirty,
            decreases len - k,
        {
            let id = self.cell_at(k);
            proof {
                assert(all.take(k as int + 1) =~= all.take(k as int).push(id));
                lemma_count_push(all.take(k as int), id, id);
                crate::walk::lemma_count_take(all, k as int + 1, id);
            }
            if id >= n {
                return false;
            }
            let ghost before = counts@;
            if counts[id] >= graph.dirty_of(id) {
                return false;
            }
            counts[id] = counts[id] + 1;
            proof {
                assert forall|c: int| 0 <= c < n implies (#[trigger] counts@[c]) == count(
                    all.take(k as int + 1),
                    c as usize,
                ) && counts@[c] <= g.cells[c].dirty by {
                    lemma_count_push(all.take(k as int), id, c as usize);
                    assert(before[c] == count(all.take(k as int), c as usize));
                }
            }
            k += 1;
        }
        proof {
            assert(all.take(len as int) =~= all);
            assert forall|c: int| 0 <= c < g.cells.len() implies count(all, c as usize) <= (
            #[trigger] g.cells[c]).dirty by {
                assert(counts@[c] == count(all, c as usize));
            }
        }
        true
    }

    /// Releases the visits of the guard as [`SignalGuard::drop`] does, where
    /// every one of them is pending in `graph`. Otherwise the graph stays as
    /// it is, and the guard comes back.
    pub fn try_drop<T, F: Fn(&Value<T>) -> Value<T>>(self, graph: &mut SignalGraph<T, F>) -> (fired:
        Result<Vec<usize>, SignalGuard>)
        requires
            old(graph).wf(),
        ensures
            final(graph).wf(),
            fired is Ok == old(graph)@.covers(self@),
            fired matches Ok(cells) ==> final(graph)@ == old(graph)@.release(self@) && cells@
                == old(graph)@.fired(self@) && old(graph)@.release_seen(self@),
            fired matches Err(guard) ==> guard@ == self@ && final(graph)@ == old(graph)@,
    {
        if self.covered_by(graph) {
            Ok(self.drop(graph))
        } else {
            Err(self)
        }
    }

    /// Releases the visits of the guard, first to last, and returns the
    /// cells that fired, in the order of their firing.
    pub fn drop<T, F: Fn(&Value<T>) -> Value<T>>(self, graph: &mut SignalGraph<T, F>) -> (fired:
        Vec<usize>)
        requires
            old(graph).wf(),
            old(graph)@.covers(self@),
        ensures
            final(graph).wf(),
            final(graph)@ == old(graph)@.release(self@),
            fired@ == old(graph)@.fired(self@),
            old(graph)@.release_seen(self@),
    {
        let ghost g0 = graph@;
        let ghost all = self@;
        let tokens = self.into_tokens();
        let mut fired: Vec<usize> = Vec::new();
        let mut i: usize = 0;
        proof {
            graph.lemma_wf();
            lemma_token_add(tokens@, Seq::empty());
            assert(all.take(0) =~= Seq::<usize>::empty());
        }
        while i < tokens.len()
            invariant
                graph.wf(),
                g0.wf(),
                all == token_ids(tokens@),
                all.len() == tokens@.len(),
                g0.covers(all),
                i <= tokens.len(),
                graph@ == g0.release(all.take(i as int)),
                fired@ == g0.fired(all.take(i as int)),
                g0.release_seen(all.take(i as int)),
            decreases tokens.len() - i,
        {
            let id = tokens[i].id();
            proof {
                crate::signal::lemma_token_at(tokens@, i as int);
                g0.lemma_release_prefix(all, i as int);
            }
            let fires = SignalGuardInner::of(id).drop(graph);
            if fires {
                fired.push(id);
            }
            i += 1;
        }
        proof {
            assert(all.take(tokens.len() as int) =~= all);
        }
        fired
    }
}

} // verus!
