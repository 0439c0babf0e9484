//! What holds of every graph and every batch.
use vstd::prelude::*;
use crate::graph::{Cell, Graph, Reaction};
use crate::value::Value;
use crate::walk::{
    count, descend, descend_from, is_last, lemma_count_push, lemma_count_take,
    lemma_descend_follow, lemma_descend_from_all, lemma_descend_from_step, lemma_descend_leaf,
    lemma_last_position,
};

verus! {

impl<T, F: Fn(&Value<T>) -> Value<T>> Graph<T, F> {
    /// Whether the release of visit `k` of `tokens` fires its cell.
    pub open spec fn fires_at(self, tokens: Seq<usize>, k: int) -> bool {
        0 <= k < tokens.len() && self.release(tokens.take(k)).fires(tokens[k])
    }

    /// No cell has a pending visit.
    pub open spec fn settled(self) -> bool {
        forall|c: int| 0 <= c < self.cells.len() ==> (#[trigger] self.cells[c]).dirty == 0
    }

    /// The positions in `tokens` of the visits whose release fires a cell,
    /// in order.
    pub open spec fn firing(self, tokens: Seq<usize>) -> Seq<int>
        decreases tokens.len(),
    {
        if tokens.len() == 0 {
            Seq::empty()
        } else {
            let before = self.firing(tokens.drop_last());
            if self.release(tokens.drop_last()).fires(tokens.last()) {
                before.push(tokens.len() - 1)
            } else {
                before
            }
        }
    }

    /// A visit fires its cell exactly when it takes the last pending visit
    /// from it.
    pub proof fn lemma_fires_at(self, tokens: Seq<usize>, k: int)
        requires
            self.covers(tokens),
            self.cells.len() <= usize::MAX,
            0 <= k < tokens.len(),
        ensures
            self.fires_at(tokens, k) <==> self.cells[tokens[k] as int].dirty == count(
                tokens.take(k + 1),
                tokens[k],
            ),
    {
        self.lemma_release_prefix(tokens, k);
        self.lemma_release_dirty(tokens.take(k));
        assert(tokens.take(k + 1) =~= tokens.take(k).push(tokens[k]));
        lemma_count_push(tokens.take(k), tokens[k], tokens[k]);
    }

    /// The cells that fire are those at the firing positions.
    pub proof fn lemma_firing(self, tokens: Seq<usize>)
        ensures
            self.firing(tokens).len() == self.fired(tokens).len(),
            forall|i: int|
                0 <= i < self.firing(tokens).len() ==> {
                    &&& self.fires_at(tokens, #[trigger] self.firing(tokens)[i])
                    &&& self.fired(tokens)[i] == tokens[self.firing(tokens)[i]]
                },
            forall|i: int, j: int|
                0 <= i < j < self.firing(tokens).len() ==> self.firing(tokens)[i] < self.firing(
                    tokens,
                )[j],
            forall|k: int| self.fires_at(tokens, k) ==> self.firing(tokens).contains(k),
        decreases tokens.len(),
    {
        if tokens.len() > 0 {
            let front = tokens.drop_last();
            let last = tokens.len() - 1;
            self.lemma_firing(front);
            let before = self.firing(front);
            let now = self.firing(tokens);
            assert(tokens.take(last) =~= front);
            assert forall|k: int| 0 <= k < front.len() implies self.fires_at(front, k)
                == self.fires_at(tokens, k) by {
                assert(front.take(k) =~= tokens.take(k));
            }
            assert forall|i: int| 0 <= i < now.len() implies {
                &&& self.fires_at(tokens, #[trigger] now[i])
                &&& self.fired(tokens)[i] == tokens[now[i]]
            } by {
                if i < before.len() {
                    assert(self.fires_at(front, before[i]));
                    assert(now[i] == before[i]);
                    assert(self.fired(tokens)[i] == self.fired(front)[i]);
                }
            }
            assert forall|i: int, j: int| 0 <= i < j < now.len() implies now[i] < now[j] by {
                assert(self.fires_at(front, before[i]));
                if j < before.len() {
                } else {
                    assert(now[j] == last);
                }
            }
            assert forall|k: int| self.fires_at(tokens, k) implies now.contains(k) by {
                if k < last {
                    assert(self.fires_at(front, k));
                    assert(before.contains(k));
                    let i = choose|i: int| 0 <= i < before.len() && before[i] == k;
                    assert(now[i] == k);
                } else {
                    assert(now[now.len() - 1] == k);
                }
            }
        }
    }

    /// At most once per batch: whatever visits are released together, and
    /// by however many paths and writes they came, no cell fires twice.
    pub proof fn law_fires_once(self, tokens: Seq<usize>)
        requires
            self.covers(tokens),
            self.cells.len() <= usize::MAX,
        ensures
            self.fired(tokens).no_duplicates(),
    {
        self.lemma_firing(tokens);
        let fired = self.fired(tokens);
        let firing = self.firing(tokens);
        assert forall|i: int, j: int|
            0 <= i < fired.len() && 0 <= j < fired.len() && i != j implies fired[i] != fired[j] by {
            if fired[i] == fired[j] {
                let (a, b) = if i < j {
                    (i, j)
                } else {
                    (j, i)
                };
                let ka = firing[a];
                let kb = firing[b];
                assert(ka < kb);
                assert(self.fires_at(tokens, ka) && self.fires_at(tokens, kb));
                self.lemma_fires_at(tokens, ka);
                self.lemma_fires_at(tokens, kb);
                let upto = tokens.take(kb + 1);
                assert(upto.take(ka + 1) =~= tokens.take(ka + 1));
                assert(upto[kb] == tokens[ka]);
                lemma_count_take(upto, ka + 1, tokens[ka]);
            }
        }
    }

    /// A cell whose pending visits are all among those released fires when
    /// the last of them is released, and at no other.
    pub proof fn law_fires_at_last_visit(self, tokens: Seq<usize>, k: int)
        requires
            self.covers(tokens),
            self.cells.len() <= usize::MAX,
            0 <= k < tokens.len(),
            self.cells[tokens[k] as int].dirty == count(tokens, tokens[k]),
        ensures
            self.fires_at(tokens, k) <==> is_last(tokens, k),
            is_last(tokens, k) ==> self.fired(tokens).contains(tokens[k]),
    {
        self.lemma_fires_at(tokens, k);
        lemma_count_take(tokens, k + 1, tokens[k]);
        if is_last(tokens, k) {
            assert(forall|j: int| k + 1 <= j < tokens.len() ==> tokens[j] != tokens[k]);
            self.lemma_firing(tokens);
            let i = choose|i: int|
                0 <= i < self.firing(tokens).len() && self.firing(tokens)[i] == k;
            assert(self.fired(tokens)[i] == tokens[k]);
        } else {
            let j = choose|j: int| k < j < tokens.len() && tokens[j] == tokens[k];
            assert(k + 1 <= j < tokens.len() && tokens[j] == tokens[k]);
        }
    }

    /// Once a batch is released, every cell has as many pending visits as
    /// before the write: the marks of a write, and the release of its guard,
    /// cancel.
    pub proof fn law_batch_settles(self, root: usize, value: Value<T>)
        requires
            self.wf(),
            self.alive(root),
        ensures
            self.sent(root, value).covers(self.walk(root)),
            self.sent(root, value).release(self.walk(root)).cells.len() == self.cells.len(),
            forall|c: int|
                0 <= c < self.cells.len() ==> (#[trigger] self.sent(root, value).release(
                    self.walk(root),
                ).cells[c]).dirty == self.cells[c].dirty,
    {
        let tokens = self.walk(root);
        let sent = self.sent(root, value);
        self.lemma_walk_range(root);
        assert forall|c: int| 0 <= c < self.cells.len() implies (#[trigger] self.written(
            root,
            value,
        ).cells[c]).dirty >= 0 by {
            assert(self.cell_wf(c));
        }
        self.written(root, value).lemma_marked_covers(tokens);
        sent.lemma_release_dirty(tokens);
    }

    /// A write visits live cells only: a cell that is gone is not marked.
    pub proof fn law_walk_meets_live_cells(self, root: usize)
        requires
            self.wf(),
            self.alive(root),
        ensures
            forall|i: int|
                0 <= i < self.walk(root).len() ==> self.alive(#[trigger] self.walk(root)[i]),
    {
        let live = |c: usize| self.alive(c);
        self.lemma_backward_acyclic();
        assert forall|x: int, k: int|
            0 <= x < self.forward().len() && 0 <= k < self.forward()[x].len() implies live(
            #[trigger] self.forward()[x][k],
        ) by {
            assert(self.cell_wf(x));
            assert(self.alive(self.cells[x].successors[k]));
        }
        assert forall|x: int, k: int|
            0 <= x < self.backward().len() && 0 <= k < self.backward()[x].len() implies live(
            #[trigger] self.backward()[x][k],
        ) by {
            assert(self.cell_wf(x));
            assert(self.alive(self.cells[x].predecessors[k]));
        }
        lemma_descend_from_all(self.forward(), root, 0, live);
        lemma_descend_from_all(self.backward(), root, 0, live);
        let down = descend_from(self.forward(), root, 0);
        let up = descend_from(self.backward(), root, 0);
        let all = self.walk(root);
        assert forall|i: int| 0 <= i < all.len() implies self.alive(#[trigger] all[i]) by {
            if i == 0 {
            } else if i < 1 + down.len() {
                assert(all[i] == down[i - 1]);
                assert(live(down[i - 1]));
            } else {
                assert(all[i] == up[i - 1 - down.len()]);
                assert(live(up[i - 1 - down.len()]));
            }
        }
    }

    /// Glitch-freedom. After a write to `root` in a graph without pending
    /// visits, a cell `v` that depends on a cell `u` fires after `u` has
    /// fired, whichever and however many paths lead from `root` to them: so
    /// `v` sees the new value of each of its sources, and reacts once. (It
    /// is asked of `u` that the write reaches it by successor links, not by
    /// predecessor links: cells reached backward fire last.)
    pub proof fn law_glitch_free(self, root: usize, value: Value<T>, u: usize, v: usize)
        requires
            self.wf(),
            self.settled(),
            self.alive(root),
            u < self.cells.len(),
            self.cells[u as int].successors.contains(v),
            descend(self.forward(), root).contains(u),
            !descend_from(self.backward(), root, 0).contains(u),
        ensures
            self.sent(root, value).fired(self.walk(root)).no_duplicates(),
            exists|i: int, j: int|
                0 <= i < j < self.sent(root, value).fired(self.walk(root)).len() && self.sent(
                    root,
                    value,
                ).fired(self.walk(root))[i] == u && self.sent(root, value).fired(self.walk(root))[j]
                    == v,
    {
        let tokens = self.walk(root);
        let down = descend(self.forward(), root);
        let up = descend_from(self.backward(), root, 0);
        let sent = self.sent(root, value);
        self.law_batch_settles(root, value);
        sent.law_fires_once(tokens);
        assert(tokens =~= down + up);
        // the last visit of `u` lies in the forward part of the walk
        let i0 = choose|i: int| 0 <= i < down.len() && down[i] == u;
        assert(tokens[i0] == u);
        let ku = lemma_last_position(tokens, u);
        if ku >= down.len() {
            assert(up[ku - down.len()] == u);
        }
        assert(down[ku] == u);
        // a visit of `v` follows it
        lemma_descend_follow(self.forward(), root, ku, v);
        let j0 = choose|j: int| ku < j < down.len() && down[j] == v;
        assert(tokens[j0] == v);
        let kv = lemma_last_position(tokens, v);
        if kv <= ku {
            assert(tokens[j0] != tokens[kv]);
        }
        assert(ku < kv);
        // both fire at their last visits
        self.lemma_walk_range(root);
        assert(sent.cells[u as int].dirty == count(tokens, u));
        assert(sent.cells[v as int].dirty == count(tokens, v));
        sent.law_fires_at_last_visit(tokens, ku);
        sent.law_fires_at_last_visit(tokens, kv);
        sent.lemma_firing(tokens);
        let firing = sent.firing(tokens);
        let fired = sent.fired(tokens);
        let i = choose|i: int| 0 <= i < firing.len() && firing[i] == ku;
        let j = choose|j: int| 0 <= j < firing.len() && firing[j] == kv;
        if j <= i {
            if j < i {
                assert(firing[j] < firing[i]);
            }
        }
        assert(fired[i] == tokens[firing[i]]);
        assert(fired[j] == tokens[firing[j]]);
        assert(0 <= i < j < fired.len() && fired[i] == u && fired[j] == v);
    }

    /// Backward propagation sees the settled forward state. After a write
    /// to `root` in a graph without pending visits, a cell `p` that the
    /// write reaches by predecessor links fires after every cell `u` that it
    /// reaches by successor links only.
    pub proof fn law_predecessors_fire_last(self, root: usize, value: Value<T>, u: usize, p: usize)
        requires
            self.wf(),
            self.settled(),
            self.alive(root),
            descend(self.forward(), root).contains(u),
            !descend_from(self.backward(), root, 0).contains(u),
            descend_from(self.backward(), root, 0).contains(p),
        ensures
            exists|i: int, j: int|
                0 <= i < j < self.sent(root, value).fired(self.walk(root)).len() && self.sent(
                    root,
                    value,
                ).fired(self.walk(root))[i] == u && self.sent(root, value).fired(self.walk(root))[j]
                    == p,
    {
        let tokens = self.walk(root);
        let down = descend(self.forward(), root);
        let up = descend_from(self.backward(), root, 0);
        let sent = self.sent(root, value);
        self.law_batch_settles(root, value);
        self.lemma_walk_range(root);
        assert(tokens =~= down + up);
        let i0 = choose|i: int| 0 <= i < down.len() && down[i] == u;
        assert(tokens[i0] == u);
        let ku = lemma_last_position(tokens, u);
        if ku >= down.len() {
            assert(up[ku - down.len()] == u);
        }
        let j0 = choose|j: int| 0 <= j < up.len() && up[j] == p;
        assert(tokens[down.len() + j0] == p);
        let kp = lemma_last_position(tokens, p);
        if kp < down.len() + j0 {
            assert(tokens[down.len() + j0] != tokens[kp]);
        }
        assert(ku < kp);
        assert(sent.cells[u as int].dirty == count(tokens, u));
        assert(sent.cells[p as int].dirty == count(tokens, p));
        sent.law_fires_at_last_visit(tokens, ku);
        sent.law_fires_at_last_visit(tokens, kp);
        sent.lemma_firing(tokens);
        let firing = sent.firing(tokens);
        let fired = sent.fired(tokens);
        let i = choose|i: int| 0 <= i < firing.len() && firing[i] == ku;
        let j = choose|j: int| 0 <= j < firing.len() && firing[j] == kp;
        if j < i {
            assert(firing[j] < firing[i]);
        }
        assert(fired[i] == tokens[firing[i]]);
        assert(fired[j] == tokens[firing[j]]);
        assert(0 <= i < j < fired.len() && fired[i] == u && fired[j] == p);
    }

    /// Direct-write precedence. A reaction that derives a value leaves a
    /// target alone that was written directly in the batch: the direct write
    /// wins.
    pub proof fn law_direct_write_wins(self, id: usize, r: Reaction<F>)
        requires
            !(r is Backward),
            self.cells[r.target() as int].explicitly_modified,
        ensures
            self.run(id, r) == self,
    {
    }

    /// A cell that has fired no longer counts as written directly: from the
    /// next batch on it follows its sources again.
    pub proof fn law_fired_cell_follows_again(self, id: usize, from: usize, func: F)
        requires
            id < self.cells.len(),
            from < self.cells.len(),
            self.fire(id).alive(id),
        ensures
            !self.fire(id).cells[id as int].explicitly_modified,
            self.fire(id).run(from, Reaction::Forward { target: id, func }).cells[id as int].value
                == crate::graph::apply(func, self.fire(id).cells[from as int].value),
    {
        self.lemma_react_shape(id, self.cells[id as int].react_fns.len());
    }

    /// A reaction leaves alone a target that is gone.
    pub proof fn law_gone_target_ignored(self, id: usize, r: Reaction<F>)
        requires
            !self.alive(r.target()),
        ensures
            self.run(id, r) == self,
    {
    }

    /// A cell that is gone holds nothing: no value, no reaction, no link.
    pub proof fn law_gone_is_reclaimed(self, id: usize)
        requires
            self.wf(),
            id < self.cells.len(),
            !self.alive(id),
        ensures
            self.cells[id as int] == Cell::<T, F>::reclaimed(),
            self.cells[id as int].react_fns.len() == 0,
            forall|c: int|
                0 <= c < self.cells.len() ==> !(#[trigger] self.cells[c]).successors.contains(id),
    {
        assert(self.cell_wf(id as int));
        assert forall|c: int| 0 <= c < self.cells.len() implies !(
        #[trigger] self.cells[c]).successors.contains(id) by {
            assert(self.cell_wf(c));
            if self.cells[c].successors.contains(id) {
                let k = choose|k: int|
                    0 <= k < self.cells[c].successors.len() && self.cells[c].successors[k] == id;
                assert(self.alive(self.cells[c].successors[k]));
            }
        }
    }

    /// A reaction of one cell leaves alone every other cell that is gone.
    pub proof fn lemma_run_skips_gone(self, id: usize, r: Reaction<F>, gone: usize)
        requires
            id < self.cells.len(),
            gone < self.cells.len(),
            gone != id,
            !self.alive(gone),
        ensures
            self.run(id, r).cells[gone as int] == self.cells[gone as int],
    {
    }

    /// The reactions of one cell leave alone every other cell that is gone.
    pub proof fn lemma_react_skips_gone(self, id: usize, n: nat, gone: usize)
        requires
            id < self.cells.len(),
            gone < self.cells.len(),
            gone != id,
            !self.alive(gone),
        ensures
            self.react(id, n).cells[gone as int] == self.cells[gone as int],
        decreases n,
    {
        if n > 0 {
            self.lemma_react_skips_gone(id, (n - 1) as nat, gone);
            self.lemma_react_shape(id, (n - 1) as nat);
            self.react(id, (n - 1) as nat).lemma_run_skips_gone(
                id,
                self.cells[id as int].react_fns[n - 1],
                gone,
            );
        }
    }

    /// Weak reclamation, for every batch: a cell that is gone stays as it
    /// is, whatever is released. No reaction writes it.
    pub proof fn law_gone_untouched(self, tokens: Seq<usize>, gone: usize)
        requires
            self.covers(tokens),
            self.cells.len() <= usize::MAX,
            gone < self.cells.len(),
            self.cells[gone as int] == Cell::<T, F>::reclaimed(),
        ensures
            self.release(tokens).cells.len() == self.cells.len(),
            self.release(tokens).cells[gone as int] == Cell::<T, F>::reclaimed(),
        decreases tokens.len(),
    {
        if tokens.len() > 0 {
            let front = tokens.drop_last();
            let id = tokens.last();
            let last = tokens.len() - 1;
            assert(tokens.take(last) =~= front);
            self.lemma_release_prefix(tokens, last);
            self.law_gone_untouched(front, gone);
            let mid = self.release(front);
            assert(mid.cells[id as int].dirty >= 1);
            let n = mid.cells[id as int].react_fns.len();
            mid.lemma_react_skips_gone(id, n, gone);
            mid.lemma_react_shape(id, n);
            crate::links::lemma_filter_empty::<usize>(crate::graph::other_than(id));
        } else {
        }
    }

    /// Retention, for every batch: a cell that a handle or a strong link
    /// holds is held as before, whatever is released, and keeps its
    /// reactions. Strong links are never undone.
    pub proof fn law_kept_cells_stay(self, tokens: Seq<usize>, kept: usize)
        requires
            self.covers(tokens),
            self.cells.len() <= usize::MAX,
            self.kept(kept),
        ensures
            self.release(tokens).cells.len() == self.cells.len(),
            self.release(tokens).cells[kept as int].pinned == self.cells[kept as int].pinned,
            self.release(tokens).cells[kept as int].handles == self.cells[kept as int].handles,
            self.release(tokens).alive(kept),
            self.release(tokens).cells[kept as int].react_fns == self.cells[kept as int].react_fns,
        decreases tokens.len(),
    {
        if tokens.len() > 0 {
            let front = tokens.drop_last();
            let id = tokens.last();
            let last = tokens.len() - 1;
            assert(tokens.take(last) =~= front);
            self.lemma_release_prefix(tokens, last);
            self.law_kept_cells_stay(front, kept);
            let mid = self.release(front);
            let n = mid.cells[id as int].react_fns.len();
            mid.lemma_react_shape(id, n);
        }
    }

    /// Weak reclamation. A cell derived by `map` whose only handle is given
    /// up is gone at once: nothing of it is kept, the link to it is gone,
    /// and no write to its source reaches it. The reaction stays with the
    /// source and does nothing.
    pub proof fn law_weak_reclaimed(self, source: usize, func: F)
        requires
            self.wf(),
            self.alive(source),
            self.cells.len() < usize::MAX,
        ensures
            !self.mapped(source, func, false).unheld(self.next()).alive(self.next()),
            self.mapped(source, func, false).unheld(self.next()).cells[self.next() as int]
                == Cell::<T, F>::reclaimed(),
            self.mapped(source, func, false).unheld(self.next()).cells[source as int].successors
                == self.cells[source as int].successors,
            self.mapped(source, func, false).unheld(self.next()).run(
                source,
                Reaction::Forward { target: self.next(), func },
            ) == self.mapped(source, func, false).unheld(self.next()),
    {
        let new = self.next();
        let made = self.mapped(source, func, false);
        self.lemma_mapped(source, func, false);
        let held = made.with_handles(new, made.cells[new as int].handles - 1);
        assert(!held.alive(new));
        let was = self.cells[source as int].successors;
        assert(self.cell_wf(source as int));
        assert forall|i: int| 0 <= i < was.len() implies crate::graph::other_than(new)(
            #[trigger] was[i],
        ) by {
            assert(self.alive(was[i]));
        }
        crate::links::lemma_filter_push(was, new, crate::graph::other_than(new));
        crate::links::lemma_filter_all(was, crate::graph::other_than(new));
    }

    /// Strong retention. A cell derived by `with` stays when its handle is
    /// given up: it is still linked, and the reaction of the source still
    /// writes it `func` of the source's value.
    pub proof fn law_strong_kept(self, source: usize, func: F)
        requires
            self.wf(),
            self.alive(source),
            self.cells.len() < usize::MAX,
        ensures
            self.mapped(source, func, true).unheld(self.next()).alive(self.next()),
            self.mapped(source, func, true).unheld(self.next()).cells[source as int].successors
                == self.cells[source as int].successors.push(self.next()),
            self.mapped(source, func, true).unheld(self.next()).run(
                source,
                Reaction::Forward { target: self.next(), func },
            ).cells[self.next() as int].value == crate::graph::apply(
                func,
                self.cells[source as int].value,
            ),
    {
        self.lemma_mapped(source, func, true);
    }

    /// The visits of a write to the top of a diamond.
    pub proof fn lemma_diamond_walk(self, a: usize, b: usize, c: usize, d: usize)
        requires
            self.wf(),
            a < self.cells.len() && b < self.cells.len() && c < self.cells.len() && d
                < self.cells.len(),
            self.cells[a as int].successors == seq![b, c],
            self.cells[b as int].successors == seq![d],
            self.cells[c as int].successors == seq![d],
            self.cells[d as int].successors.len() == 0,
            self.cells[a as int].predecessors.len() == 0,
        ensures
            self.walk(a) == seq![a, b, d, c, d],
    {
        let forward = self.forward();
        let backward = self.backward();
        self.lemma_backward_acyclic();
        assert(forward[a as int] == seq![b, c]);
        assert(forward[b as int] == seq![d]);
        assert(forward[c as int] == seq![d]);
        assert(forward[d as int].len() == 0);
        assert(backward[a as int].len() == 0);
        lemma_descend_leaf(forward, d);
        lemma_descend_from_step(forward, b, 0);
        lemma_descend_from_step(forward, b, 1);
        assert(descend(forward, b) =~= seq![b, d]);
        lemma_descend_from_step(forward, c, 0);
        lemma_descend_from_step(forward, c, 1);
        assert(descend(forward, c) =~= seq![c, d]);
        lemma_descend_from_step(forward, a, 0);
        lemma_descend_from_step(forward, a, 1);
        lemma_descend_from_step(forward, a, 2);
        assert(descend_from(forward, a, 0) =~= seq![b, d, c, d]);
        lemma_descend_from_step(backward, a, 0);
        assert(self.walk(a) =~= seq![a, b, d, c, d]);
    }

    /// Glitch-freedom on a diamond. Let `b` and `c` be derived from `a` by
    /// `fb` and `fc`, and `d` be the pair of `b` and `c`. After one write of
    /// `value` to `a`, `d` has fired once, after `b` and `c`, and holds the
    /// pair of `fb` and `fc` of `value`: never the new value of one beside
    /// the old value of the other.
    pub proof fn law_diamond(self, a: usize, b: usize, c: usize, d: usize, fb: F, fc: F, value: Value<T>)
        requires
            self.wf(),
            self.quiescent(),
            self.alive(a) && self.alive(b) && self.alive(c) && self.alive(d),
            a != b && a != c && a != d && b != c && b != d && c != d,
            self.cells[a as int].successors == seq![b, c],
            self.cells[a as int].react_fns == seq![
                Reaction::Forward { target: b, func: fb },
                Reaction::Forward { target: c, func: fc },
            ],
            self.cells[b as int].successors == seq![d],
            self.cells[b as int].react_fns == seq![Reaction::<F>::Slot { target: d, index: 0 }],
            self.cells[c as int].successors == seq![d],
            self.cells[c as int].react_fns == seq![Reaction::<F>::Slot { target: d, index: 1 }],
            self.cells[d as int].successors.len() == 0,
            self.cells[d as int].react_fns.len() == 0,
            self.cells[a as int].predecessors.len() == 0,
            self.cells[d as int].value.slots().len() == 2,
        ensures
            self.walk(a) == seq![a, b, d, c, d],
            self.sent(a, value).fired(self.walk(a)) == seq![a, b, c, d],
            self.sent(a, value).release(self.walk(a)).cells[d as int].value.slots() == seq![
                crate::graph::apply(fb, value),
                crate::graph::apply(fc, value),
            ],
    {
        let tokens = seq![a, b, d, c, d];
        self.lemma_diamond_walk(a, b, c, d);
        // the marks of the write
        let sent = self.sent(a, value);
        assert(tokens.take(0) =~= Seq::<usize>::empty());
        assert(tokens.take(1) =~= seq![a]);
        assert(tokens.take(2) =~= seq![a, b]);
        assert(tokens.take(3) =~= seq![a, b, d]);
        assert(tokens.take(4) =~= seq![a, b, d, c]);
        assert(tokens.take(5) =~= tokens);
        assert(tokens.take(1).drop_last() =~= tokens.take(0));
        assert(tokens.take(2).drop_last() =~= tokens.take(1));
        assert(tokens.take(3).drop_last() =~= tokens.take(2));
        assert(tokens.take(4).drop_last() =~= tokens.take(3));
        assert(tokens.drop_last() =~= tokens.take(4));
        assert(count(tokens, a) == 1 && count(tokens, b) == 1 && count(tokens, c) == 1 && count(
            tokens,
            d,
        ) == 2) by {
            reveal_with_fuel(count, 6);
        }
        assert(sent.cells[a as int].dirty == 1);
        assert(sent.cells[b as int].dirty == 1);
        assert(sent.cells[c as int].dirty == 1);
        assert(sent.cells[d as int].dirty == 2);
        assert(sent.cells[a as int].value == value);
        // the release, token by token
        let s0 = sent.release(tokens.take(0));
        assert(s0 == sent);
        let s1 = sent.release(tokens.take(1));
        assert(s1 == s0.release_one(a));
        assert(s0.cells[a as int].react_fns.len() == 2);
        assert(s0.react(a, 2) == s0.react(a, 1).run(a, s0.cells[a as int].react_fns[1])) by {
            reveal_with_fuel(Graph::react, 3);
        }
        assert(s0.react(a, 1) == s0.run(a, s0.cells[a as int].react_fns[0])) by {
            reveal_with_fuel(Graph::react, 3);
        }
        assert(s1.cells[b as int].value == crate::graph::apply(fb, value));
        assert(s1.cells[c as int].value == crate::graph::apply(fc, value));
        assert(s1.cells[d as int] == sent.cells[d as int]);
        assert(s1.cells[b as int].dirty == 1 && s1.cells[c as int].dirty == 1);
        let s2 = sent.release(tokens.take(2));
        assert(s2 == s1.release_one(b));
        assert(s1.react(b, 1) == s1.run(b, s1.cells[b as int].react_fns[0])) by {
            reveal_with_fuel(Graph::react, 2);
        }
        sent.cells[d as int].value.lemma_with_slot(0, crate::graph::apply(fb, value));
        assert(s2.cells[d as int].value.slots()[0] == crate::graph::apply(fb, value));
        assert(s2.cells[d as int].dirty == 2);
        assert(s2.cells[c as int].value == crate::graph::apply(fc, value));
        let s3 = sent.release(tokens.take(3));
        assert(s3 == s2.release_one(d));
        assert(s3.cells[d as int].dirty == 1);
        assert(s3.cells[d as int].value == s2.cells[d as int].value);
        assert(s3.cells[c as int] == s2.cells[c as int]);
        let s4 = sent.release(tokens.take(4));
        assert(s4 == s3.release_one(c));
        assert(s3.react(c, 1) == s3.run(c, s3.cells[c as int].react_fns[0])) by {
            reveal_with_fuel(Graph::react, 2);
        }
        s3.cells[d as int].value.lemma_with_slot(1, crate::graph::apply(fc, value));
        assert(s4.cells[d as int].value.slots() =~= seq![
            crate::graph::apply(fb, value),
            crate::graph::apply(fc, value),
        ]);
        assert(s4.cells[d as int].dirty == 1);
        let s5 = sent.release(tokens);
        assert(s5 == s4.release_one(d));
        assert(s4.react(d, 0) == s4);
        assert(s5.cells[d as int].value == s4.cells[d as int].value);
        // which visits fire
        assert(sent.fired(tokens.take(0)) =~= Seq::<usize>::empty());
        assert(sent.fired(tokens.take(1)) =~= seq![a]);
        assert(sent.fired(tokens.take(2)) =~= seq![a, b]);
        assert(sent.fired(tokens.take(3)) =~= seq![a, b]);
        assert(sent.fired(tokens.take(4)) =~= seq![a, b, c]);
        assert(sent.fired(tokens) =~= seq![a, b, c, d]);
    }

    /// `b` is derived from `a` by `func`, nothing else hangs on either, and a
    /// handle or a strong link holds each of them.
    pub open spec fn derived_pair(self, a: usize, b: usize, func: F) -> bool {
        &&& self.cells.len() <= usize::MAX
        &&& crate::walk::acyclic(self.forward())
        &&& crate::walk::acyclic(self.backward())
        &&& a < self.cells.len() && b < self.cells.len() && a != b
        &&& self.cells[a as int].pinned || self.cells[a as int].handles > 0
        &&& self.cells[b as int].pinned || self.cells[b as int].handles > 0
        &&& self.cells[a as int].successors == seq![b]
        &&& self.cells[a as int].react_fns == seq![Reaction::Forward { target: b, func }]
        &&& self.cells[a as int].predecessors.len() == 0
        &&& self.cells[b as int].successors.len() == 0
        &&& self.cells[b as int].react_fns.len() == 0
        &&& self.cells[b as int].predecessors.len() == 0
    }

    /// The visits of writes to a cell and to the one cell derived from it.
    pub proof fn lemma_derived_pair_walks(self, a: usize, b: usize, func: F)
        requires
            self.derived_pair(a, b, func),
        ensures
            self.walk(a) == seq![a, b],
            self.walk(b) == seq![b],
    {
        let forward = self.forward();
        let backward = self.backward();
        assert(forward[a as int] == seq![b]);
        assert(forward[b as int].len() == 0);
        assert(backward[a as int].len() == 0);
        assert(backward[b as int].len() == 0);
        lemma_descend_leaf(forward, b);
        lemma_descend_leaf(backward, b);
        lemma_descend_from_step(forward, a, 0);
        lemma_descend_from_step(forward, a, 1);
        lemma_descend_from_step(backward, a, 0);
        assert(self.walk(a) =~= seq![a, b]);
        assert(self.walk(b) =~= seq![b]);
    }

    /// Direct-write precedence within a batch. Let `b` be derived from `a`.
    /// Where `x` is sent to `b` and then `y` to `a` in one batch, `b` holds
    /// `x` when the batch is released, and neither cell counts as written
    /// directly any more.
    pub proof fn law_direct_write_kept(self, a: usize, b: usize, func: F, x: Value<T>, y: Value<T>)
        requires
            self.derived_pair(a, b, func),
            self.quiescent(),
        ensures
            self.sent(b, x).walk(a) == seq![a, b],
            self.sent(b, x).sent(a, y).release(seq![b, a, b]).cells[b as int].value == x,
            self.sent(b, x).sent(a, y).release(seq![b, a, b]).cells[a as int].value == y,
            !self.sent(b, x).sent(a, y).release(
                seq![b, a, b],
            ).cells[b as int].explicitly_modified,
            !self.sent(b, x).sent(a, y).release(
                seq![b, a, b],
            ).cells[a as int].explicitly_modified,
            self.sent(b, x).sent(a, y).fired(seq![b, a, b]) == seq![a, b],
            self.sent(b, x).sent(a, y).release(seq![b, a, b]).derived_pair(a, b, func),
            self.sent(b, x).sent(a, y).release(seq![b, a, b]).quiescent(),
    {
        self.lemma_derived_pair_walks(a, b, func);
        let first = self.sent(b, x);
        assert(first.forward() =~= self.forward());
        assert(first.backward() =~= self.backward());
        assert(first.walk(a) == self.walk(a));
        let second = first.sent(a, y);
        let tokens = seq![b, a, b];
        assert(count(seq![b], a) == 0 && count(seq![b], b) == 1) by {
            reveal_with_fuel(count, 3);
        }
        assert(count(seq![a, b], a) == 1 && count(seq![a, b], b) == 1) by {
            reveal_with_fuel(count, 3);
            assert(seq![a, b].drop_last() =~= seq![a]);
        }
        assert(second.cells[a as int].dirty == 1);
        assert(second.cells[b as int].dirty == 2);
        assert(second.cells[b as int].explicitly_modified);
        assert(second.cells[b as int].value == x);
        assert(second.cells[a as int].value == y);
        assert(tokens.take(0) =~= Seq::<usize>::empty());
        assert(tokens.take(1) =~= seq![b]);
        assert(tokens.take(2) =~= seq![b, a]);
        assert(tokens.take(3) =~= tokens);
        assert(tokens.take(1).drop_last() =~= tokens.take(0));
        assert(tokens.take(2).drop_last() =~= tokens.take(1));
        assert(tokens.drop_last() =~= tokens.take(2));
        let s0 = second.release(tokens.take(0));
        assert(s0 == second);
        let s1 = second.release(tokens.take(1));
        assert(s1 == s0.release_one(b));
        assert(s1.cells[b as int].dirty == 1);
        assert(s1.cells[b as int].value == x && s1.cells[b as int].explicitly_modified);
        let s2 = second.release(tokens.take(2));
        assert(s2 == s1.release_one(a));
        assert(s1.react(a, 1) == s1.run(a, s1.cells[a as int].react_fns[0])) by {
            reveal_with_fuel(Graph::react, 2);
        }
        assert(s2.cells[b as int].value == x);
        assert(s2.cells[b as int].dirty == 1);
        let s3 = second.release(tokens);
        assert(s3 == s2.release_one(b));
        assert(s2.react(b, 0) == s2);
        assert(second.fired(tokens.take(0)) =~= Seq::<usize>::empty());
        assert(second.fired(tokens.take(1)) =~= Seq::<usize>::empty());
        assert(second.fired(tokens.take(2)) =~= seq![a]);
        assert(second.fired(tokens) =~= seq![a, b]);
        assert forall|c: int| 0 <= c < self.cells.len() && c != a && c != b implies s3.cells[c]
            == self.cells[c] by {
            assert(count(seq![b], c as usize) == 0 && count(seq![a, b], c as usize) == 0) by {
                reveal_with_fuel(count, 3);
                assert(seq![a, b].drop_last() =~= seq![a]);
            }
            assert(first.cells[c] == self.cells[c]);
            assert(second.cells[c] == self.cells[c]);
            assert(s1.cells[c] == second.cells[c]);
            assert(s2.cells[c] == s1.cells[c]);
        }
        assert(s3.forward() =~= self.forward());
        assert(s3.backward() =~= self.backward());
    }

    /// Forward derivation. Let `b` be derived from `a` by `func`. After `y`
    /// is sent to `a` in a batch of its own, `b` holds `func` of `y`.
    pub proof fn law_derived_follows(self, a: usize, b: usize, func: F, y: Value<T>)
        requires
            self.derived_pair(a, b, func),
            self.quiescent(),
        ensures
            self.sent(a, y).release(self.walk(a)).cells[b as int].value == crate::graph::apply(
                func,
                y,
            ),
            self.sent(a, y).fired(self.walk(a)) == seq![a, b],
    {
        self.lemma_derived_pair_walks(a, b, func);
        let sent = self.sent(a, y);
        let tokens = seq![a, b];
        assert(count(tokens, a) == 1 && count(tokens, b) == 1) by {
            reveal_with_fuel(count, 3);
            assert(tokens.drop_last() =~= seq![a]);
        }
        assert(tokens.take(0) =~= Seq::<usize>::empty());
        assert(tokens.take(1) =~= seq![a]);
        assert(tokens.take(1).drop_last() =~= tokens.take(0));
        assert(tokens.drop_last() =~= tokens.take(1));
        let s0 = sent.release(tokens.take(0));
        assert(s0 == sent);
        let s1 = sent.release(tokens.take(1));
        assert(s1 == s0.release_one(a));
        assert(s0.react(a, 1) == s0.run(a, s0.cells[a as int].react_fns[0])) by {
            reveal_with_fuel(Graph::react, 2);
        }
        assert(s1.cells[b as int].value == crate::graph::apply(func, y));
        let s2 = sent.release(tokens);
        assert(s2 == s1.release_one(b));
        assert(s1.react(b, 0) == s1);
        assert(sent.fired(tokens.take(0)) =~= Seq::<usize>::empty());
        assert(sent.fired(tokens.take(1)) =~= seq![a]);
        assert(sent.fired(tokens) =~= seq![a, b]);
    }

    /// `b` writes back to `a` by `func`, nothing else hangs on either, and a
    /// handle or a strong link holds each of them.
    pub open spec fn written_back_pair(self, a: usize, b: usize, func: F) -> bool {
        &&& self.cells.len() <= usize::MAX
        &&& crate::walk::acyclic(self.forward())
        &&& crate::walk::acyclic(self.backward())
        &&& a < self.cells.len() && b < self.cells.len() && a != b
        &&& self.cells[a as int].pinned || self.cells[a as int].handles > 0
        &&& self.cells[b as int].pinned || self.cells[b as int].handles > 0
        &&& self.cells[b as int].predecessors == seq![a]
        &&& self.cells[b as int].react_fns == seq![Reaction::Backward { target: a, func }]
        &&& self.cells[b as int].successors.len() == 0
        &&& self.cells[a as int].successors.len() == 0
        &&& self.cells[a as int].react_fns.len() == 0
        &&& self.cells[a as int].predecessors.len() == 0
    }

    /// Backward round trip. Let `b` write back to `a` by `func`. When `x`
    /// is sent to `b`, the release of the first visit sets `a` to `func` of
    /// `x` and makes `a` count as written directly; the release of the
    /// second fires `a`. After the batch `a` holds `func` of `x`, `b` holds
    /// `x`, and no batch is open.
    pub proof fn law_backward_round_trip(self, a: usize, b: usize, func: F, x: Value<T>)
        requires
            self.written_back_pair(a, b, func),
            self.quiescent(),
        ensures
            self.walk(b) == seq![b, a],
            self.sent(b, x).release(seq![b]).cells[a as int].value == crate::graph::apply(func, x),
            self.sent(b, x).release(seq![b]).cells[a as int].explicitly_modified,
            self.sent(b, x).release(seq![b, a]).cells[a as int].value == crate::graph::apply(
                func,
                x,
            ),
            self.sent(b, x).release(seq![b, a]).cells[b as int].value == x,
            self.sent(b, x).fired(seq![b, a]) == seq![b, a],
            self.sent(b, x).release(seq![b, a]).quiescent(),
    {
        let forward = self.forward();
        let backward = self.backward();
        assert(forward[a as int].len() == 0);
        assert(forward[b as int].len() == 0);
        assert(backward[a as int].len() == 0);
        assert(backward[b as int] == seq![a]);
        lemma_descend_leaf(forward, b);
        lemma_descend_leaf(backward, a);
        lemma_descend_from_step(backward, b, 0);
        lemma_descend_from_step(backward, b, 1);
        assert(self.walk(b) =~= seq![b, a]);
        let sent = self.sent(b, x);
        let tokens = seq![b, a];
        assert(count(tokens, a) == 1 && count(tokens, b) == 1) by {
            reveal_with_fuel(count, 3);
            assert(tokens.drop_last() =~= seq![b]);
        }
        assert(tokens.take(0) =~= Seq::<usize>::empty());
        assert(tokens.take(1) =~= seq![b]);
        assert(tokens.take(1).drop_last() =~= tokens.take(0));
        assert(tokens.drop_last() =~= tokens.take(1));
        let s0 = sent.release(tokens.take(0));
        assert(s0 == sent);
        let s1 = sent.release(tokens.take(1));
        assert(s1 == s0.release_one(b));
        assert(s0.react(b, 1) == s0.run(b, s0.cells[b as int].react_fns[0])) by {
            reveal_with_fuel(Graph::react, 2);
        }
        assert(s1.cells[a as int].value == crate::graph::apply(func, x));
        assert(s1.cells[a as int].explicitly_modified);
        let s2 = sent.release(tokens);
        assert(s2 == s1.release_one(a));
        assert(s1.react(a, 0) == s1);
        assert(sent.fired(tokens.take(0)) =~= Seq::<usize>::empty());
        assert(sent.fired(tokens.take(1)) =~= seq![b]);
        assert(sent.fired(tokens) =~= seq![b, a]);
        assert forall|c: int| 0 <= c < self.cells.len() implies (#[trigger] s2.cells[c]).dirty == 0
            && !s2.cells[c].explicitly_modified by {
            if c != a && c != b {
                assert(count(tokens, c as usize) == 0) by {
                    reveal_with_fuel(count, 3);
                    assert(tokens.drop_last() =~= seq![b]);
                }
                assert(sent.cells[c] == self.cells[c]);
                assert(s1.cells[c] == sent.cells[c]);
                assert(s2.cells[c] == s1.cells[c]);
            }
        }
    }

    /// A reaction does not read the count of pending visits of its own cell.
    pub proof fn lemma_run_ignores_count(self, id: usize, r: Reaction<F>, dirty: int)
        requires
            id < self.cells.len(),
            r.target() != id,
        ensures
            self.with_dirty(id, dirty).run(id, r) == self.run(id, r).with_dirty(id, dirty),
    {
        assert(self.with_dirty(id, dirty).run(id, r).cells =~= self.run(id, r).with_dirty(
            id,
            dirty,
        ).cells);
    }

    /// The reactions of a cell do not read the count of its pending visits.
    pub proof fn lemma_react_ignores_count(self, id: usize, n: nat, dirty: int)
        requires
            self.wf(),
            id < self.cells.len(),
            n <= self.cells[id as int].react_fns.len(),
        ensures
            self.with_dirty(id, dirty).react(id, n) == self.react(id, n).with_dirty(id, dirty),
        decreases n,
    {
        if n > 0 {
            let m = (n - 1) as nat;
            self.lemma_react_ignores_count(id, m, dirty);
            let r = self.cells[id as int].react_fns[n - 1];
            assert(self.cell_wf(id as int));
            assert(self.reaction_wf(id as int, r));
            self.lemma_react_shape(id, m);
            self.react(id, m).lemma_run_ignores_count(id, r, dirty);
        }
    }

    /// Counting first. The release of the last pending visit of a cell may
    /// as well take the visit from the count before the cell fires: the
    /// graph is the same as where the cell fires first.
    pub proof fn law_count_then_fire(self, id: usize)
        requires
            self.wf(),
            id < self.cells.len(),
            self.fires(id),
        ensures
            self.release_one(id) == self.with_dirty(id, 0).fire(id).settle(id),
    {
        let n = self.cells[id as int].react_fns.len();
        self.lemma_react_ignores_count(id, n, 0);
        self.lemma_react_shape(id, n);
        let counted_first = self.with_dirty(id, 0).fire(id);
        let fired_first = self.fire(id).with_dirty(id, self.fire(id).cells[id as int].dirty - 1);
        assert(counted_first.cells =~= fired_first.cells);
    }
}

} // verus!
