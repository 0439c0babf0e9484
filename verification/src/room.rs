//! Whether the counters have room for a write.
//!
//! A write adds one pending visit for every path to a cell, and the number
//! of paths is bounded by the counter alone. This module counts the visits
//! of a write before any is made, so that a write can be refused where a
//! counter would overflow.
use vstd::prelude::*;
use crate::graph::Graph;
use crate::signal::SignalGraph;
use crate::value::Value;
use crate::walk::{
    count, descend, descend_from, is_ranking, lemma_count_add, lemma_count_one, ranking,
};

verus! {

impl<T, F: Fn(&Value<T>) -> Value<T>> Graph<T, F> {
    /// `counts` holds, for every cell, how often `seen` visits it, and the
    /// counters have room for these visits.
    pub open spec fn tallied(self, counts: Seq<isize>, seen: Seq<usize>) -> bool {
        &&& counts.len() == self.cells.len()
        &&& forall|c: int|
            0 <= c < self.cells.len() ==> (#[trigger] counts[c]) == count(seen, c as usize)
                && self.cells[c].dirty + count(seen, c as usize) <= isize::MAX
    }

    /// Where the counters have no room for some visits, they have none for
    /// these and more.
    pub proof fn lemma_no_room(self, first: Seq<usize>, rest: Seq<usize>)
        requires
            !self.room(first),
        ensures
            !self.room(first + rest),
    {
        if self.room(first + rest) {
            assert(first + Seq::<usize>::empty() + rest =~= first + rest);
            self.lemma_room_part(first, Seq::empty(), rest);
        }
    }

    /// Counts that are tallied show that there is room.
    pub proof fn lemma_tallied_room(self, counts: Seq<isize>, seen: Seq<usize>)
        requires
            self.tallied(counts, seen),
        ensures
            self.room(seen),
    {
        assert forall|c: int| 0 <= c < self.cells.len() implies (#[trigger] self.cells[c]).dirty
            + count(seen, c as usize) <= isize::MAX by {
            assert(counts[c] == count(seen, c as usize));
        }
    }
}

impl<T, F: Fn(&Value<T>) -> Value<T>> SignalGraph<T, F> {
    /// Counts one visit of the cell `id`, if its counter has room for it.
    fn tally_one(&self, id: usize, counts: &mut Vec<isize>, Ghost(seen): Ghost<Seq<usize>>) -> (ok:
        bool)
        requires
            self.wf(),
            id < self@.cells.len(),
            self@.tallied(old(counts)@, seen),
        ensures
            ok ==> self@.tallied(final(counts)@, seen.push(id)),
            !ok ==> !self@.room(seen.push(id)),
            final(counts)@.len() == old(counts)@.len(),
    {
        let ghost g = self@;
        proof {
            self.lemma_wf();
            assert(g.cell_wf(id as int));
            crate::walk::lemma_count_push(seen, id, id);
        }
        let pending = self.dirty_of(id);
        let counted = counts[id];
        if counted >= isize::MAX - pending {
            proof {
                assert(g.cells[id as int].dirty + count(seen.push(id), id) > isize::MAX);
            }
            return false;
        }
        counts[id] = counted + 1;
        proof {
            assert forall|c: int| 0 <= c < g.cells.len() implies (#[trigger] counts@[c]) == count(
                seen.push(id),
                c as usize,
            ) && g.cells[c].dirty + count(seen.push(id), c as usize) <= isize::MAX by {
                crate::walk::lemma_count_push(seen, id, c as usize);
                assert(old(counts)@[c] == count(seen, c as usize));
            }
        }
        true
    }

    /// Counts the visits of a walk from the cell `id`, after the visits
    /// `seen`. Stops where a counter has no room.
    fn tally_recursive(
        &mut self,
        id: usize,
        forward: bool,
        counts: &mut Vec<isize>,
        Ghost(rank): Ghost<Seq<nat>>,
        Ghost(seen): Ghost<Seq<usize>>,
    ) -> (ok: bool)
        requires
            old(self).wf(),
            id < old(self)@.cells.len(),
            is_ranking(old(self)@.links(forward), rank),
            old(self)@.tallied(old(counts)@, seen),
        ensures
            final(self).wf(),
            final(self)@ == old(self)@,
            ok ==> final(self)@.tallied(
                final(counts)@,
                seen + descend(old(self)@.links(forward), id),
            ),
            !ok ==> !old(self)@.room(seen + descend(old(self)@.links(forward), id)),
            final(counts)@.len() == old(counts)@.len(),
        decreases rank[id as int], 1nat,
    {
        let ghost g = self@;
        let ghost links = g.links(forward);
        let ghost rest = descend_from(links, id, 0);
        proof {
            assert(descend(links, id) == seq![id] + rest);
            assert(seen + descend(links, id) =~= seen.push(id) + rest);
        }
        if !self.tally_one(id, counts, Ghost(seen)) {
            proof {
                g.lemma_no_room(seen.push(id), rest);
            }
            return false;
        }
        let ghost after = seen.push(id);
        self.tally_and_iterate(id, forward, counts, Ghost(rank), Ghost(after))
    }

    /// Counts the visits of the walks from the links of the cell `id`,
    /// after the visits `seen`. Stops where a counter has no room.
    fn tally_and_iterate(
        &mut self,
        id: usize,
        forward: bool,
        counts: &mut Vec<isize>,
        Ghost(rank): Ghost<Seq<nat>>,
        Ghost(seen): Ghost<Seq<usize>>,
    ) -> (ok: bool)
        requires
            old(self).wf(),
            id < old(self)@.cells.len(),
            is_ranking(old(self)@.links(forward), rank),
            old(self)@.tallied(old(counts)@, seen),
        ensures
            final(self).wf(),
            final(self)@ == old(self)@,
            ok ==> final(self)@.tallied(
                final(counts)@,
                seen + descend_from(old(self)@.links(forward), id, 0),
            ),
            !ok ==> !old(self)@.room(seen + descend_from(old(self)@.links(forward), id, 0)),
            final(counts)@.len() == old(counts)@.len(),
        decreases rank[id as int], 0nat,
    {
        let ghost g = self@;
        let ghost links = g.links(forward);
        let ghost whole = descend_from(links, id, 0);
        let children = self.live_links(id, forward);
        let ghost mut done: Seq<usize> = Seq::empty();
        let mut k: usize = 0;
        proof {
            assert(seen + done =~= seen);
            assert(done + descend_from(links, id, 0) =~= whole);
        }
        while k < children.len()
            invariant
                self.wf(),
                self@ == g,
                g == old(self)@,
                id < g.cells.len(),
                links == g.links(forward),
                is_ranking(links, rank),
                whole == descend_from(links, id, 0),
                children@ == links[id as int],
                k <= children.len(),
                g.tallied(counts@, seen + done),
                counts@.len() == old(counts)@.len(),
                done + descend_from(links, id, k as nat) == whole,
            decreases children.len() - k,
        {
            let child = children[k];
            let ghost part = descend(links, child);
            let ghost rest = descend_from(links, id, (k + 1) as nat);
            let ghost before = seen + done;
            proof {
                assert(links[id as int][k as int] == child);
                assert(descend_from(links, id, k as nat) == part + rest);
                assert(seen + whole =~= before + part + rest);
            }
            let ok = self.tally_recursive(child, forward, counts, Ghost(rank), Ghost(before));
            if !ok {
                proof {
                    g.lemma_no_room(before + part, rest);
                }
                return false;
            }
            proof {
                assert(before + part =~= seen + (done + part));
                assert(done + part + rest =~= done + (part + rest));
                done = done + part;
            }
            k += 1;
        }
        proof {
            assert(descend_from(links, id, k as nat) =~= Seq::<usize>::empty());
            assert(done =~= whole);
        }
        true
    }

    /// Whether the counters have room for the visits of a write to the cell
    /// `id`.
    pub fn has_room(&mut self, id: usize) -> (ok: bool)
        requires
            old(self).wf(),
            id < old(self)@.cells.len(),
        ensures
            final(self).wf(),
            final(self)@ == old(self)@,
            ok == old(self)@.room(old(self)@.walk(id)),
    {
        let ghost g = self@;
        let ghost down = descend(g.forward(), id);
        let ghost up = descend_from(g.backward(), id, 0);
        let ghost rank_down = ranking(g.forward());
        let ghost rank_up = ranking(g.backward());
        proof {
            self.lemma_wf();
            g.lemma_backward_acyclic();
            assert(is_ranking(g.links(true), rank_down));
            assert(is_ranking(g.links(false), rank_up));
            assert(g.walk(id) =~= down + up);
        }
        let n = self.len();
        let mut counts: Vec<isize> = Vec::new();
        let mut i: usize = 0;
        while i < n
            invariant
                i <= n,
                counts@.len() == i,
                forall|c: int| 0 <= c < i ==> counts@[c] == 0,
            decreases n - i,
        {
            counts.push(0);
            i += 1;
        }
        let ghost none: Seq<usize> = Seq::empty();
        proof {
            assert forall|c: int| 0 <= c < g.cells.len() implies (#[trigger] counts@[c]) == count(
                none,
                c as usize,
            ) && g.cells[c].dirty + count(none, c as usize) <= isize::MAX by {
                assert(g.cell_wf(c));
            }
            assert(none + down =~= down);
        }
        if !self.tally_recursive(id, true, &mut counts, Ghost(rank_down), Ghost(none)) {
            proof {
                g.lemma_no_room(down, up);
            }
            return false;
        }
        let ok = self.tally_and_iterate(id, false, &mut counts, Ghost(rank_up), Ghost(down));
        proof {
            if ok {
                g.lemma_tallied_room(counts@, down + up);
            }
        }
        ok
    }
}

} // verus!
