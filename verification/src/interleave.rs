//! Releases that do not meet may be taken in either order.
//!
//! Where writers share a graph behind a lock, the visits of their batches
//! are released in an order that the lock decides. This module proves that
//! the order does not matter between visits of unrelated cells: cells of
//! which neither is written by a reaction of the other, and whose
//! reactions write no cell in common.
use vstd::prelude::*;
use crate::graph::{Graph, Reaction};
use crate::value::Value;

verus! {

impl<T, F: Fn(&Value<T>) -> Value<T>> Graph<T, F> {
    /// Whether the firing of cell `id` may read or write cell `c`: the cell
    /// itself, and every cell that one of its reactions writes.
    pub open spec fn touches(self, id: usize, c: usize) -> bool {
        c == id || exists|k: int|
            0 <= k < self.cells[id as int].react_fns.len()
                && (#[trigger] self.cells[id as int].react_fns[k]).target() == c
    }

    /// `other` has the cells that the firing of `id` touches just as `self`
    /// has them.
    pub open spec fn agrees_on(self, other: Graph<T, F>, id: usize) -> bool {
        &&& other.cells.len() == self.cells.len()
        &&& forall|c: int|
            0 <= c < self.cells.len() && self.touches(id, c as usize) ==> (
            #[trigger] other.cells[c]) == self.cells[c]
    }

    /// A handle or a strong link holds cell `id`: the release of a visit
    /// does not make it go.
    pub open spec fn kept(self, id: usize) -> bool {
        id < self.cells.len() && (self.cells[id as int].pinned || self.cells[id as int].handles
            > 0)
    }

    /// Neither cell is touched by the firing of the other, and no cell by
    /// both.
    pub open spec fn unrelated(self, a: usize, b: usize) -> bool {
        forall|c: usize|
            c < self.cells.len() ==> !(#[trigger] self.touches(a, c) && self.touches(b, c))
    }

    /// A reaction changes its own cell and the cell it writes, no other.
    pub proof fn lemma_run_frame(self, id: usize, r: Reaction<F>, c: int)
        requires
            id < self.cells.len(),
            0 <= c < self.cells.len(),
            c != id,
            c != r.target(),
        ensures
            self.run(id, r).cells.len() == self.cells.len(),
            self.run(id, r).cells[c] == self.cells[c],
    {
    }

    /// What a reaction makes of its own cell and of the cell it writes
    /// depends on these two alone.
    pub proof fn lemma_run_agree(self, other: Graph<T, F>, id: usize, r: Reaction<F>)
        requires
            id < self.cells.len(),
            r.target() < self.cells.len(),
            other.cells.len() == self.cells.len(),
            other.cells[id as int] == self.cells[id as int],
            other.cells[r.target() as int] == self.cells[r.target() as int],
        ensures
            other.run(id, r).cells[id as int] == self.run(id, r).cells[id as int],
            other.run(id, r).cells[r.target() as int] == self.run(id, r).cells[r.target() as int],
    {
    }

    /// The reactions of a cell change the cells that its firing touches, no
    /// others.
    pub proof fn lemma_react_frame(self, id: usize, n: nat, c: int)
        requires
            id < self.cells.len(),
            n <= self.cells[id as int].react_fns.len(),
            0 <= c < self.cells.len(),
            !self.touches(id, c as usize),
            self.cells.len() <= usize::MAX,
        ensures
            self.react(id, n).cells.len() == self.cells.len(),
            self.react(id, n).cells[c] == self.cells[c],
        decreases n,
    {
        if n > 0 {
            let m = (n - 1) as nat;
            self.lemma_react_frame(id, m, c);
            self.lemma_react_shape(id, m);
            let r = self.cells[id as int].react_fns[n - 1];
            assert(r.target() != c);
            self.react(id, m).lemma_run_frame(id, r, c);
        }
    }

    /// What the reactions of a cell make of the cells that its firing
    /// touches depends on these cells alone.
    pub proof fn lemma_react_agree(self, other: Graph<T, F>, id: usize, n: nat)
        requires
            self.wf(),
            id < self.cells.len(),
            n <= self.cells[id as int].react_fns.len(),
            self.agrees_on(other, id),
        ensures
            self.react(id, n).cells.len() == self.cells.len(),
            other.react(id, n).cells.len() == self.cells.len(),
            forall|c: int|
                0 <= c < self.cells.len() && self.touches(id, c as usize) ==> (
                #[trigger] other.react(id, n).cells[c]) == self.react(id, n).cells[c],
        decreases n,
    {
        self.lemma_react_shape(id, n);
        other.lemma_react_shape(id, n);
        if n > 0 {
            let m = (n - 1) as nat;
            self.lemma_react_agree(other, id, m);
            self.lemma_react_shape(id, m);
            other.lemma_react_shape(id, m);
            let r = self.cells[id as int].react_fns[n - 1];
            assert(self.cell_wf(id as int));
            assert(self.reaction_wf(id as int, r));
            assert(other.cells[id as int] == self.cells[id as int]);
            let mine = self.react(id, m);
            let theirs = other.react(id, m);
            assert(self.touches(id, r.target()));
            assert(theirs.cells[id as int] == mine.cells[id as int]);
            assert(theirs.cells[r.target() as int] == mine.cells[r.target() as int]);
            mine.lemma_run_agree(theirs, id, r);
            assert forall|c: int|
                0 <= c < self.cells.len() && self.touches(id, c as usize) implies (
            #[trigger] other.react(id, n).cells[c]) == self.react(id, n).cells[c] by {
                if c != id && c != r.target() {
                    mine.lemma_run_frame(id, r, c);
                    theirs.lemma_run_frame(id, r, c);
                    assert(theirs.cells[c] == mine.cells[c]);
                }
            }
        }
    }

    /// The release of a visit of a cell that stays changes the cells that
    /// the firing of the cell touches, no others.
    pub proof fn lemma_release_one_frame(self, id: usize, c: int)
        requires
            self.kept(id),
            self.cells.len() <= usize::MAX,
            0 <= c < self.cells.len(),
            !self.touches(id, c as usize),
        ensures
            self.release_one(id).cells.len() == self.cells.len(),
            self.release_one(id).cells[c] == self.cells[c],
    {
        let n = self.cells[id as int].react_fns.len();
        self.lemma_react_frame(id, n, c);
        self.lemma_react_shape(id, n);
    }

    /// What the release of a visit of a cell that stays makes of the cells
    /// that the firing of the cell touches depends on these cells alone.
    pub proof fn lemma_release_one_agree(self, other: Graph<T, F>, id: usize)
        requires
            self.wf(),
            self.kept(id),
            self.agrees_on(other, id),
        ensures
            self.release_one(id).cells.len() == self.cells.len(),
            other.release_one(id).cells.len() == self.cells.len(),
            forall|c: int|
                0 <= c < self.cells.len() && self.touches(id, c as usize) ==> (
                #[trigger] other.release_one(id).cells[c]) == self.release_one(id).cells[c],
    {
        let n = self.cells[id as int].react_fns.len();
        assert(other.cells[id as int] == self.cells[id as int]);
        self.lemma_react_agree(other, id, n);
        self.lemma_react_shape(id, n);
        other.lemma_react_shape(id, n);
    }

    /// Interleaving. The releases of visits of two unrelated cells, each of
    /// which stays, may be taken in either order: the graph is the same.
    /// So writers that share a graph and write unrelated parts of it see
    /// the values they would see alone, however their releases fall.
    pub proof fn law_unrelated_releases_commute(self, a: usize, b: usize)
        requires
            self.wf(),
            self.kept(a),
            self.kept(b),
            self.unrelated(a, b),
        ensures
            self.release_one(a).release_one(b) == self.release_one(b).release_one(a),
    {
        let first_a = self.release_one(a);
        let first_b = self.release_one(b);
        assert(self.touches(a, a) && self.touches(b, b));
        assert(!self.touches(a, b)) by {
            assert(!(self.touches(a, b) && self.touches(b, b)));
        }
        assert(!self.touches(b, a)) by {
            assert(!(self.touches(a, a) && self.touches(b, a)));
        }
        // each release leaves alone what the other touches
        assert forall|c: int|
            0 <= c < self.cells.len() && self.touches(b, c as usize) implies first_a.cells[c]
            == self.cells[c] by {
            assert(!(self.touches(a, c as usize) && self.touches(b, c as usize))) by {
                assert((c as usize) as int == c);
            }
            self.lemma_release_one_frame(a, c);
        }
        assert forall|c: int|
            0 <= c < self.cells.len() && self.touches(a, c as usize) implies first_b.cells[c]
            == self.cells[c] by {
            assert(!(self.touches(a, c as usize) && self.touches(b, c as usize))) by {
                assert((c as usize) as int == c);
            }
            self.lemma_release_one_frame(b, c);
        }
        self.lemma_release_one_frame(a, b as int);
        self.lemma_release_one_frame(b, a as int);
        assert(self.agrees_on(first_a, b));
        assert(self.agrees_on(first_b, a));
        self.lemma_release_one_agree(first_a, b);
        self.lemma_release_one_agree(first_b, a);
        let ab = first_a.release_one(b);
        let ba = first_b.release_one(a);
        assert forall|c: int| 0 <= c < self.cells.len() implies ab.cells[c] == ba.cells[c] by {
            assert(!(self.touches(a, c as usize) && self.touches(b, c as usize))) by {
                assert((c as usize) as int == c);
            }
            assert(first_a.cells[b as int] == self.cells[b as int]);
            assert(first_b.cells[a as int] == self.cells[a as int]);
            if self.touches(a, c as usize) {
                // `b` leaves the cell alone, before and after `a`
                assert(!first_a.touches(b, c as usize)) by {
                    if first_a.touches(b, c as usize) {
                        assert(self.touches(b, c as usize));
                    }
                }
                first_a.lemma_release_one_frame(b, c);
                assert(ab.cells[c] == first_a.cells[c]);
                assert(ba.cells[c] == first_a.cells[c]);
            } else if self.touches(b, c as usize) {
                assert(!first_b.touches(a, c as usize)) by {
                    if first_b.touches(a, c as usize) {
                        assert(self.touches(a, c as usize));
                    }
                }
                first_b.lemma_release_one_frame(a, c);
                assert(ba.cells[c] == first_b.cells[c]);
                assert(ab.cells[c] == first_b.cells[c]);
            } else {
                self.lemma_release_one_frame(a, c);
                self.lemma_release_one_frame(b, c);
                assert(!first_a.touches(b, c as usize)) by {
                    if first_a.touches(b, c as usize) {
                        assert(self.touches(b, c as usize));
                    }
                }
                assert(!first_b.touches(a, c as usize)) by {
                    if first_b.touches(a, c as usize) {
                        assert(self.touches(a, c as usize));
                    }
                }
                first_a.lemma_release_one_frame(b, c);
                first_b.lemma_release_one_frame(a, c);
            }
        }
        assert(ab.cells =~= ba.cells);
    }
}

} // verus!
