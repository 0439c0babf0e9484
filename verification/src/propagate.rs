//! Marking: what a write does to the cells that depend on the written one.
//!
//! A write walks the links depth-first from the written cell. Every cell met
//! gets one more pending visit, and the guard of the write one token for it.
//! A cell on two paths is met, and counted, twice: it fires only when the
//! last of its tokens is released, after every cell that leads to it.
use vstd::prelude::*;
use crate::graph::Graph;
use crate::signal::{lemma_token_push, token_ids, SignalGraph, SignalGuardInner};
use crate::value::Value;
use crate::walk::{
    count, descend, descend_from, is_ranking, lemma_count_add, lemma_count_one,
    lemma_descend_from_range, ranking,
};

verus! {

impl<T, F: Fn(&Value<T>) -> Value<T>> Graph<T, F> {
    /// The links that a walk follows: the successor links where `forward`
    /// is set, else the predecessor links.
    pub open spec fn links(self, forward: bool) -> Seq<Seq<usize>> {
        if forward {
            self.forward()
        } else {
            self.backward()
        }
    }

    /// Marking changes no link, and no cell is gone by it.
    pub proof fn lemma_marked_shape(self, tokens: Seq<usize>)
        ensures
            self.marked(tokens).cells.len() == self.cells.len(),
            self.marked(tokens).forward() == self.forward(),
            self.marked(tokens).backward() == self.backward(),
            forall|c: usize| self.alive(c) ==> #[trigger] self.marked(tokens).alive(c),
    {
        assert(self.marked(tokens).forward() =~= self.forward());
        assert(self.marked(tokens).backward() =~= self.backward());
    }

    /// No visit marks nothing.
    pub proof fn lemma_marked_none(self)
        ensures
            self.marked(Seq::empty()) == self,
    {
        assert(self.marked(Seq::empty()).cells =~= self.cells);
    }

    /// One visit is one more pending visit of the cell met.
    pub proof fn lemma_marked_one(self, id: usize)
        requires
            id < self.cells.len(),
            self.cells.len() <= usize::MAX,
        ensures
            self.marked(seq![id]) == self.with_dirty(id, self.cells[id as int].dirty + 1),
    {
        assert forall|c: int| 0 <= c < self.cells.len() implies self.marked(seq![id]).cells[c]
            == self.with_dirty(id, self.cells[id as int].dirty + 1).cells[c] by {
            lemma_count_one(id, c as usize);
        }
        assert(self.marked(seq![id]).cells =~= self.with_dirty(
            id,
            self.cells[id as int].dirty + 1,
        ).cells);
    }

    /// Marking in two steps is marking with the visits of both.
    pub proof fn lemma_marked_twice(self, first: Seq<usize>, second: Seq<usize>)
        ensures
            self.marked(first).marked(second) == self.marked(first + second),
    {
        assert forall|c: int| 0 <= c < self.cells.len() implies self.marked(first).marked(
            second,
        ).cells[c] == self.marked(first + second).cells[c] by {
            lemma_count_add(first, second, c as usize);
        }
        assert(self.marked(first).marked(second).cells =~= self.marked(first + second).cells);
    }

    /// A write visits cells of the graph only, the written cell first.
    pub proof fn lemma_walk_range(self, id: usize)
        requires
            self.wf(),
            id < self.cells.len(),
        ensures
            forall|i: int|
                0 <= i < self.walk(id).len() ==> (#[trigger] self.walk(id)[i]) < self.cells.len(),
            self.walk(id).len() > 0,
            self.walk(id)[0] == id,
    {
        self.lemma_backward_acyclic();
        lemma_descend_from_range(self.forward(), id, 0);
        lemma_descend_from_range(self.backward(), id, 0);
    }

    /// After the visits `tokens`, every one of them is pending.
    pub proof fn lemma_marked_covers(self, tokens: Seq<usize>)
        requires
            forall|i: int| 0 <= i < tokens.len() ==> (#[trigger] tokens[i]) < self.cells.len(),
            forall|c: int| 0 <= c < self.cells.len() ==> (#[trigger] self.cells[c]).dirty >= 0,
        ensures
            self.marked(tokens).covers(tokens),
    {
        assert forall|c: int| 0 <= c < self.cells.len() implies count(tokens, c as usize) <= (
        #[trigger] self.marked(tokens).cells[c]).dirty by {
            assert(self.cells[c].dirty >= 0);
        }
    }

    /// Where the counters have room for all visits, they have room for a
    /// part of them after the part before it.
    pub proof fn lemma_room_part(self, first: Seq<usize>, second: Seq<usize>, rest: Seq<usize>)
        requires
            self.room(first + second + rest),
        ensures
            self.marked(first).room(second),
            self.room(first),
    {
        assert forall|c: int| 0 <= c < self.cells.len() implies (#[trigger] self.marked(
            first,
        ).cells[c]).dirty + count(second, c as usize) <= isize::MAX by {
            lemma_count_add(first + second, rest, c as usize);
            lemma_count_add(first, second, c as usize);
            assert(self.cells[c].dirty + count(first + second + rest, c as usize) <= isize::MAX);
        }
        assert forall|c: int| 0 <= c < self.cells.len() implies (#[trigger] self.cells[c]).dirty
            + count(first, c as usize) <= isize::MAX by {
            lemma_count_add(first + second, rest, c as usize);
            lemma_count_add(first, second, c as usize);
        }
    }
}

impl<T, F: Fn(&Value<T>) -> Value<T>> SignalGraph<T, F> {
    /// Visits the live cell `id` and, depth-first, every cell that its links
    /// reach: each gets one more pending visit and `result` one token.
    pub(crate) fn collect_recursive(
        &mut self,
        id: usize,
        forward: bool,
        result: &mut Vec<SignalGuardInner>,
        Ghost(rank): Ghost<Seq<nat>>,
    )
        requires
            old(self).wf(),
            old(self)@.alive(id),
            is_ranking(old(self)@.links(forward), rank),
            old(self)@.room(descend(old(self)@.links(forward), id)),
        ensures
            final(self).wf(),
            final(self)@ == old(self)@.marked(descend(old(self)@.links(forward), id)),
            token_ids(final(result)@) == token_ids(old(result)@) + descend(
                old(self)@.links(forward),
                id,
            ),
            final(self).still_pruned(*old(self)),
            final(self).pruned_along(descend(old(self)@.links(forward), id), forward),
        decreases rank[id as int], 1nat,
    {
        let ghost g0 = self@;
        let ghost links = g0.links(forward);
        let ghost base = token_ids(result@);
        proof {
            self.lemma_wf();
            let all = descend(links, id);
            assert(all == seq![id] + descend_from(links, id, 0));
            assert(seq![id] + descend_from(links, id, 0) + Seq::<usize>::empty() =~= all);
            g0.lemma_room_part(seq![id], descend_from(links, id, 0), Seq::empty());
            lemma_count_one(id, id);
            g0.lemma_marked_one(id);
        }
        self.mark_dirty(id);
        let token = SignalGuardInner::of(id);
        proof {
            lemma_token_push(result@, token);
        }
        result.push(token);
        assert(token_ids(result@) =~= base + seq![id]);
        let ghost first = seq![id];
        self.collect_and_iterate(id, forward, result, Ghost(rank), Ghost(g0), Ghost(first));
        proof {
            g0.lemma_marked_twice(seq![id], descend_from(links, id, 0));
            assert(base + seq![id] + descend_from(links, id, 0) =~= base + descend(links, id));
            let all = descend(links, id);
            let rest = descend_from(links, id, 0);
            assert forall|i: int| 0 <= i < all.len() implies self.pruned(
                #[trigger] all[i],
                forward,
            ) by {
                if i > 0 {
                    assert(all[i] == rest[i - 1]);
                }
            }
        }
    }

    /// Visits, depth-first, what the links of the cell `id` reach. The graph
    /// was `start` before the visits `seen`, which came first.
    pub(crate) fn collect_and_iterate(
        &mut self,
        id: usize,
        forward: bool,
        result: &mut Vec<SignalGuardInner>,
        Ghost(rank): Ghost<Seq<nat>>,
        Ghost(start): Ghost<Graph<T, F>>,
        Ghost(seen): Ghost<Seq<usize>>,
    )
        requires
            old(self).wf(),
            id < start.cells.len(),
            old(self)@ == start.marked(seen),
            is_ranking(start.links(forward), rank),
            start.room(seen + descend_from(start.links(forward), id, 0)),
        ensures
            final(self).wf(),
            final(self)@ == old(self)@.marked(descend_from(start.links(forward), id, 0)),
            token_ids(final(result)@) == token_ids(old(result)@) + descend_from(
                start.links(forward),
                id,
                0,
            ),
            final(self).still_pruned(*old(self)),
            final(self).pruned(id, forward),
            final(self).pruned_along(descend_from(start.links(forward), id, 0), forward),
        decreases rank[id as int], 0nat,
    {
        let ghost g1 = self@;
        let ghost stored = *self;
        let ghost links = start.links(forward);
        let ghost base = token_ids(result@);
        let ghost whole = descend_from(links, id, 0);
        proof {
            start.lemma_marked_shape(seen);
        }
        let children = self.live_links(id, forward);
        let ghost mut done: Seq<usize> = Seq::empty();
        let mut k: usize = 0;
        proof {
            g1.lemma_marked_none();
            assert(children@ == links[id as int]);
            assert(done + descend_from(links, id, 0) =~= whole);
        }
        while k < children.len()
            invariant
                self.wf(),
                id < start.cells.len(),
                g1 == start.marked(seen),
                links == start.links(forward),
                is_ranking(links, rank),
                whole == descend_from(links, id, 0),
                start.room(seen + whole),
                children@ == links[id as int],
                k <= children.len(),
                self@ == g1.marked(done),
                token_ids(result@) == base + done,
                done + descend_from(links, id, k as nat) == whole,
                self.still_pruned(stored),
                self.pruned(id, forward),
                self.pruned_along(done, forward),
            decreases children.len() - k,
        {
            let child = children[k];
            let ghost part = descend(links, child);
            let ghost rest = descend_from(links, id, (k + 1) as nat);
            proof {
                assert(links[id as int][k as int] == child);
                assert(descend_from(links, id, k as nat) == part + rest);
                assert(seen + whole =~= (seen + done) + part + rest);
                start.lemma_room_part(seen + done, part, rest);
                start.lemma_marked_twice(seen, done);
                start.lemma_marked_shape(seen + done);
                self.lemma_wf();
                g1.lemma_marked_shape(done);
                assert(self@.cell_wf(id as int));
                assert(self@.links(forward)[id as int][k as int] == child);
                if forward {
                    assert(self@.alive(self@.cells[id as int].successors[k as int]));
                } else {
                    assert(self@.alive(self@.cells[id as int].predecessors[k as int]));
                }
            }
            let ghost midway = *self;
            self.collect_recursive(child, forward, result, Ghost(rank));
            proof {
                g1.lemma_marked_twice(done, part);
                assert(base + done + part =~= base + (done + part));
                assert(done + part + rest =~= done + (part + rest));
                assert(midway@.links(forward) == links);
                assert forall|i: int| 0 <= i < (done + part).len() implies self.pruned(
                    #[trigger] (done + part)[i],
                    forward,
                ) by {
                    if i < done.len() {
                        assert(midway.pruned(done[i], forward));
                    } else {
                        assert((done + part)[i] == part[i - done.len()]);
                    }
                }
                assert(midway.pruned(id, forward));
                done = done + part;
            }
            k += 1;
        }
        proof {
            assert(descend_from(links, id, k as nat) =~= Seq::<usize>::empty());
            assert(done =~= whole);
        }
    }

    /// The visits of a write to the live cell `id`: the cell itself, then,
    /// depth-first, what its successor links reach, then what its
    /// predecessor links reach. Cells that predecessor links reach come
    /// last, so that they fire last.
    pub(crate) fn collect_guards(&mut self, id: usize, result: &mut Vec<SignalGuardInner>)
        requires
            old(self).wf(),
            old(self)@.alive(id),
            old(self)@.room(old(self)@.walk(id)),
        ensures
            final(self).wf(),
            final(self)@ == old(self)@.marked(old(self)@.walk(id)),
            token_ids(final(result)@) == token_ids(old(result)@) + old(self)@.walk(id),
            final(self).still_pruned(*old(self)),
            final(self).pruned_along(descend(old(self)@.forward(), id), true),
            final(self).pruned(id, false),
            final(self).pruned_along(descend_from(old(self)@.backward(), id, 0), false),
    {
        let ghost g0 = self@;
        let ghost base = token_ids(result@);
        let ghost down = descend_from(g0.forward(), id, 0);
        let ghost up = descend_from(g0.backward(), id, 0);
        let ghost first = seq![id];
        let ghost rank_down = ranking(g0.forward());
        let ghost rank_up = ranking(g0.backward());
        proof {
            self.lemma_wf();
            g0.lemma_backward_acyclic();
            assert(is_ranking(g0.links(true), rank_down));
            assert(is_ranking(g0.links(false), rank_up));
            assert(g0.walk(id) == first + down + up);
            g0.lemma_room_part(first + down, up, Seq::empty());
            assert(first + down + up + Seq::<usize>::empty() =~= first + down + up);
            g0.lemma_room_part(first, down, up);
            lemma_count_one(id, id);
            g0.lemma_marked_one(id);
        }
        self.mark_dirty(id);
        let token = SignalGuardInner::of(id);
        proof {
            lemma_token_push(result@, token);
        }
        result.push(token);
        assert(token_ids(result@) =~= base + first);
        self.collect_and_iterate(id, true, result, Ghost(rank_down), Ghost(g0), Ghost(first));
        let ghost seen = first + down;
        let ghost midway = *self;
        proof {
            g0.lemma_marked_twice(first, down);
            assert(g0.room(seen + descend_from(g0.links(false), id, 0)));
        }
        self.collect_and_iterate(id, false, result, Ghost(rank_up), Ghost(g0), Ghost(seen));
        proof {
            g0.lemma_marked_twice(seen, up);
            assert(base + first + down + up =~= base + (first + down + up));
            let all = descend(g0.forward(), id);
            assert(all == first + down);
            assert forall|i: int| 0 <= i < all.len() implies self.pruned(#[trigger] all[i], true) by {
                if i > 0 {
                    assert(all[i] == down[i - 1]);
                    assert(midway.pruned(down[i - 1], true));
                } else {
                    assert(midway.pruned(id, true));
                }
            }
        }
    }
}

} // verus!
