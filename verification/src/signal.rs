//! Signals: the cells of a graph and the handles to them.
//!
//! All cells of one graph live in a [`SignalGraph`]. A [`Signal`] is a handle
//! to one of them; the graph counts the handles of each cell. A write returns
//! a [`SignalGuard`] that holds one visit for every path from the written
//! cell; releasing the guard fires each cell at its last visit.
use vstd::prelude::*;
use crate::graph::{apply, other_than, Cell, Graph, Reaction};
use crate::links::{
    lemma_filter_all, lemma_filter_congruent, lemma_filter_elements, lemma_filter_empty,
    lemma_filter_push,
    lemma_filter_twice,
};
use crate::walk::reaches;
use crate::value::Value;

verus! {

/// A link to a cell that does not keep the cell.
#[derive(Clone, Copy, Debug)]
pub struct WeakSignalRef {
    id: usize,
}

/// One pending visit of a cell.
#[derive(Debug)]
pub struct SignalGuardInner {
    id: usize,
}

/// The visits of one or more writes; releasing it fires the reactions.
#[derive(Debug)]
pub struct SignalGuard(Vec<SignalGuardInner>);

/// A handle to a cell.
#[derive(Debug)]
pub struct Signal {
    id: usize,
}

/// What the graph stores for one cell.
pub struct SignalInner<T, F> {
    value: Value<T>,
    react_fns: Vec<Reaction<F>>,
    successors: Vec<WeakSignalRef>,
    predecessors: Vec<WeakSignalRef>,
    dirty: isize,
    explicitly_modified: bool,
    handles: usize,
    pinned: bool,
}

/// The cells of one graph.
pub struct SignalGraph<T, F> {
    cells: Vec<SignalInner<T, F>>,
}

impl View for WeakSignalRef {
    type V = usize;

    /// The cell linked to.
    closed spec fn view(&self) -> usize {
        self.id
    }
}

impl View for SignalGuardInner {
    type V = usize;

    /// The cell visited.
    closed spec fn view(&self) -> usize {
        self.id
    }
}

impl View for Signal {
    type V = usize;

    /// The cell that the handle names.
    closed spec fn view(&self) -> usize {
        self.id
    }
}

impl View for SignalGuard {
    type V = Seq<usize>;

    /// The cells visited, in the order of the visits.
    closed spec fn view(&self) -> Seq<usize> {
        token_ids(self.0@)
    }
}

/// The cells that `links` name.
pub closed spec fn link_ids(links: Seq<WeakSignalRef>) -> Seq<usize> {
    links.map_values(|w: WeakSignalRef| w.id)
}

/// The test that a cell is live.
pub closed spec fn is_live(live: Seq<bool>) -> spec_fn(usize) -> bool {
    |x: usize| x < live.len() && live[x as int]
}

/// Those of `ids` that name a live cell.
pub closed spec fn live_only(ids: Seq<usize>, live: Seq<bool>) -> Seq<usize> {
    ids.filter(is_live(live))
}

impl<T, F> SignalInner<T, F> {
    /// Something holds the cell: a strong link, a handle or a pending visit.
    pub closed spec fn live(self) -> bool {
        self.pinned || self.handles > 0 || self.dirty > 0
    }

    /// The model of the cell, given which cells of its graph are live.
    pub closed spec fn model(self, live: Seq<bool>) -> Cell<T, F> {
        Cell {
            value: self.value,
            react_fns: self.react_fns@,
            successors: live_only(link_ids(self.successors@), live),
            predecessors: live_only(link_ids(self.predecessors@), live),
            dirty: self.dirty as int,
            explicitly_modified: self.explicitly_modified,
            handles: self.handles as int,
            pinned: self.pinned,
        }
    }

    /// Nothing is stored for the cell.
    pub closed spec fn bare(self) -> bool {
        &&& self.value == Value::<T>::Nil
        &&& self.react_fns@.len() == 0
        &&& self.successors@.len() == 0
        &&& self.predecessors@.len() == 0
        &&& !self.explicitly_modified
    }
}

impl<T, F: Fn(&Value<T>) -> Value<T>> View for SignalGraph<T, F> {
    type V = Graph<T, F>;

    /// The model of the graph. Links to cells that are gone are not part of
    /// it, whether or not they are still stored.
    closed spec fn view(&self) -> Graph<T, F> {
        Graph { cells: Seq::new(self.cells@.len(), |c: int| self.cells@[c].model(self.live_map())) }
    }
}

impl<T, F: Fn(&Value<T>) -> Value<T>> SignalGraph<T, F> {
    /// For every cell, whether something holds it.
    pub closed spec fn live_map(self) -> Seq<bool> {
        Seq::new(self.cells@.len(), |c: int| self.cells@[c].live())
    }

    /// What holds of the stored cells beyond the model's invariant.
    pub closed spec fn stored_wf(self) -> bool {
        &&& forall|c: int, k: int|
            0 <= c < self.cells@.len() && 0 <= k < self.cells@[c].successors@.len() ==> (
            #[trigger] self.cells@[c].successors@[k]).id < self.cells@.len()
        &&& forall|c: int, k: int|
            0 <= c < self.cells@.len() && 0 <= k < self.cells@[c].predecessors@.len() ==> (
            #[trigger] self.cells@[c].predecessors@[k]).id < c
        &&& forall|c: int|
            0 <= c < self.cells@.len() && !(#[trigger] self.cells@[c]).live()
                ==> self.cells@[c].bare()
    }

    /// No link stored for the cell `id` leads to a cell that is gone: the
    /// successor links where `forward` is set, else the predecessor links.
    /// Links to cells that are gone stay stored until the next walk through
    /// the cell drops them.
    pub closed spec fn pruned(self, id: usize, forward: bool) -> bool {
        &&& id < self.cells@.len()
        &&& forward ==> link_ids(self.cells@[id as int].successors@) == live_only(
            link_ids(self.cells@[id as int].successors@),
            self.live_map(),
        )
        &&& !forward ==> link_ids(self.cells@[id as int].predecessors@) == live_only(
            link_ids(self.cells@[id as int].predecessors@),
            self.live_map(),
        )
    }

    /// The number of links stored for the cell `id`, those to cells that
    /// are gone included.
    pub closed spec fn links_stored(self, id: usize, forward: bool) -> nat {
        if forward {
            self.cells@[id as int].successors@.len()
        } else {
            self.cells@[id as int].predecessors@.len()
        }
    }

    /// Of a pruned cell exactly the links of the model are stored.
    pub proof fn law_pruned_stores_live_links(self, id: usize, forward: bool)
        requires
            self.pruned(id, forward),
        ensures
            forward ==> self.links_stored(id, forward) == self@.cells[id as int].successors.len(),
            !forward ==> self.links_stored(id, forward)
                == self@.cells[id as int].predecessors.len(),
    {
        if forward {
            assert(link_ids(self.cells@[id as int].successors@).len()
                == self.cells@[id as int].successors@.len());
        } else {
            assert(link_ids(self.cells@[id as int].predecessors@).len()
                == self.cells@[id as int].predecessors@.len());
        }
    }

    /// Every cell of `cells` is pruned.
    pub open spec fn pruned_along(self, cells: Seq<usize>, forward: bool) -> bool {
        forall|i: int| 0 <= i < cells.len() ==> self.pruned(#[trigger] cells[i], forward)
    }

    /// Every list of links that was pruned in `before` is pruned in `self`.
    pub open spec fn still_pruned(self, before: Self) -> bool {
        forall|c: usize, forward: bool|
            #[trigger] before.pruned(c, forward) ==> self.pruned(c, forward)
    }

    /// The invariant of the graph.
    pub closed spec fn wf(self) -> bool {
        &&& self.stored_wf()
        &&& self@.wf()
    }

    /// A well-formed graph has a well-formed model.
    pub proof fn lemma_wf(self)
        requires
            self.wf(),
        ensures
            self@.wf(),
    {
    }

    /// A graph without cells.
    pub fn new() -> (g: Self)
        ensures
            g.wf(),
            g@.cells.len() == 0,
    {
        let g = SignalGraph { cells: Vec::new() };
        proof {
            assert(crate::walk::is_ranking(g@.forward(), Seq::<nat>::empty()));
        }
        g
    }

    /// The number of cells ever created in the graph.
    pub fn len(&self) -> (n: usize)
        ensures
            n == self@.cells.len(),
    {
        self.cells.len()
    }

    /// Changing one stored cell, without a change of which cells are live,
    /// changes the model of that cell alone.
    proof fn lemma_touch(self, after: Self, id: usize)
        requires
            id < self.cells@.len(),
            after.cells@.len() == self.cells@.len(),
            forall|c: int|
                0 <= c < self.cells@.len() && c != id ==> after.cells@[c] == self.cells@[c],
            after.cells@[id as int].live() == self.cells@[id as int].live(),
        ensures
            after.live_map() == self.live_map(),
            after@ == self@.with_cell(id, after.cells@[id as int].model(self.live_map())),
    {
        assert(after.live_map() =~= self.live_map());
        assert(after@.cells =~= self@.with_cell(
            id,
            after.cells@[id as int].model(self.live_map()),
        ).cells);
    }

    /// Changing one stored cell keeps what holds of the stored cells, where
    /// the links of the changed cell are in order and the cell, if nothing
    /// holds it, is bare.
    proof fn lemma_stored_kept(self, after: Self, id: usize)
        requires
            self.stored_wf(),
            id < self.cells@.len(),
            after.cells@.len() == self.cells@.len(),
            forall|c: int|
                0 <= c < self.cells@.len() && c != id ==> after.cells@[c] == self.cells@[c],
            forall|k: int|
                0 <= k < after.cells@[id as int].successors@.len() ==> (
                #[trigger] after.cells@[id as int].successors@[k]).id < self.cells@.len(),
            forall|k: int|
                0 <= k < after.cells@[id as int].predecessors@.len() ==> (
                #[trigger] after.cells@[id as int].predecessors@[k]).id < id,
            after.cells@[id as int].live() || after.cells@[id as int].bare(),
        ensures
            after.stored_wf(),
    {
        assert forall|c: int, k: int|
            0 <= c < after.cells@.len() && 0 <= k < after.cells@[c].successors@.len() implies (
        #[trigger] after.cells@[c].successors@[k]).id < after.cells@.len() by {
            if c != id {
                assert(self.cells@[c].successors@[k].id < self.cells@.len());
            }
        }
        assert forall|c: int, k: int|
            0 <= c < after.cells@.len() && 0 <= k < after.cells@[c].predecessors@.len() implies (
        #[trigger] after.cells@[c].predecessors@[k]).id < c by {
            if c != id {
                assert(self.cells@[c].predecessors@[k].id < c);
            }
        }
        assert forall|c: int|
            0 <= c < after.cells@.len() && !(#[trigger] after.cells@[c]).live() implies after.cells@[c].bare() by {
            if c != id {
                assert(!self.cells@[c].live() ==> self.cells@[c].bare());
            }
        }
    }

    /// Changing in a stored cell neither the links nor whether something
    /// holds it keeps what holds of the stored cells.
    proof fn lemma_stored_same_links(self, after: Self, id: usize)
        requires
            self.stored_wf(),
            id < self.cells@.len(),
            after.cells@.len() == self.cells@.len(),
            forall|c: int|
                0 <= c < self.cells@.len() && c != id ==> after.cells@[c] == self.cells@[c],
            after.cells@[id as int].successors@ == self.cells@[id as int].successors@,
            after.cells@[id as int].predecessors@ == self.cells@[id as int].predecessors@,
            after.cells@[id as int].live(),
        ensures
            after.stored_wf(),
    {
        assert forall|k: int| 0 <= k < after.cells@[id as int].successors@.len() implies (
        #[trigger] after.cells@[id as int].successors@[k]).id < self.cells@.len() by {
            assert(self.cells@[id as int].successors@[k].id < self.cells@.len());
        }
        assert forall|k: int| 0 <= k < after.cells@[id as int].predecessors@.len() implies (
        #[trigger] after.cells@[id as int].predecessors@[k]).id < id by {
            assert(self.cells@[id as int].predecessors@[k].id < id);
        }
        self.lemma_stored_kept(after, id);
    }

    /// Changing in a stored cell neither the links nor whether something
    /// holds it leaves every pruned list pruned.
    proof fn lemma_touch_pruned(self, after: Self, id: usize)
        requires
            id < self.cells@.len(),
            after.cells@.len() == self.cells@.len(),
            forall|c: int|
                0 <= c < self.cells@.len() && c != id ==> after.cells@[c] == self.cells@[c],
            after.cells@[id as int].live() == self.cells@[id as int].live(),
            after.cells@[id as int].successors@ == self.cells@[id as int].successors@,
            after.cells@[id as int].predecessors@ == self.cells@[id as int].predecessors@,
        ensures
            after.still_pruned(self),
    {
        assert(after.live_map() =~= self.live_map());
        assert forall|c: usize, forward: bool| #[trigger]
            self.pruned(c, forward) implies after.pruned(c, forward) by {
            assert(after.cells@[c as int].successors@ == self.cells@[c as int].successors@);
            assert(after.cells@[c as int].predecessors@ == self.cells@[c as int].predecessors@);
        }
    }

    /// Whether something holds the cell `id`.
    pub fn is_alive(&self, id: usize) -> (r: bool)
        ensures
            r == self@.alive(id),
    {
        if id < self.cells.len() {
            let c = &self.cells[id];
            c.pinned || c.handles > 0 || c.dirty > 0
        } else {
            false
        }
    }

    /// Adds a cell that holds `value` and has one handle; returns its name.
    pub(crate) fn push_cell(&mut self, value: Value<T>) -> (id: usize)
        requires
            old(self).wf(),
        ensures
            final(self).wf(),
            final(self)@ == old(self)@.with_new(value),
            id == old(self)@.cells.len(),
    {
        let id = self.cells.len();
        let ghost before = *self;
        self.cells.push(
            SignalInner {
                value,
                react_fns: Vec::new(),
                successors: Vec::new(),
                predecessors: Vec::new(),
                dirty: 0,
                explicitly_modified: false,
                handles: 1,
                pinned: false,
            },
        );
        proof {
            let lm = before.live_map();
            assert(self.live_map() =~= lm.push(true));
            lemma_filter_empty::<usize>(is_live(self.live_map()));
            assert(link_ids(Seq::<WeakSignalRef>::empty()) =~= Seq::<usize>::empty());
            assert forall|c: int| 0 <= c < before.cells@.len() implies self.cells@[c].model(
                self.live_map(),
            ) == before.cells@[c].model(lm) by {
                let cell = before.cells@[c];
                let succ = link_ids(cell.successors@);
                assert forall|i: int| 0 <= i < succ.len() implies is_live(self.live_map())(
                    #[trigger] succ[i],
                ) == is_live(lm)(succ[i]) by {
                    assert(succ[i] == cell.successors@[i].id);
                }
                lemma_filter_congruent(succ, is_live(self.live_map()), is_live(lm));
                let pred = link_ids(cell.predecessors@);
                assert forall|i: int| 0 <= i < pred.len() implies is_live(self.live_map())(
                    #[trigger] pred[i],
                ) == is_live(lm)(pred[i]) by {
                    assert(pred[i] == cell.predecessors@[i].id);
                }
                lemma_filter_congruent(pred, is_live(self.live_map()), is_live(lm));
            }
            assert(self.cells@[id as int].successors@ =~= Seq::<WeakSignalRef>::empty());
            assert(self.cells@[id as int].predecessors@ =~= Seq::<WeakSignalRef>::empty());
            assert(self.cells@[id as int].react_fns@ =~= Seq::<Reaction<F>>::empty());
            assert(self@.cells =~= before@.with_new(value).cells);
            assert(self.cells.len() <= usize::MAX);
            assert(before@.cells.len() < usize::MAX);
            before@.lemma_wf_with_new(value);
            assert forall|c: int, k: int|
                0 <= c < self.cells@.len() && 0 <= k < self.cells@[c].successors@.len() implies (
            #[trigger] self.cells@[c].successors@[k]).id < self.cells@.len() by {
                assert(before.cells@[c].successors@[k].id < before.cells@.len());
            }
            assert forall|c: int, k: int|
                0 <= c < self.cells@.len() && 0 <= k < self.cells@[c].predecessors@.len() implies (
            #[trigger] self.cells@[c].predecessors@[k]).id < c by {
                assert(before.cells@[c].predecessors@[k].id < c);
            }
            assert forall|c: int|
                0 <= c < self.cells@.len() && !(#[trigger] self.cells@[c]).live() implies self.cells@[c].bare() by {
                assert(!before.cells@[c].live() ==> before.cells@[c].bare());
            }
        }
        id
    }

    /// Exchanges the value of the live cell `id` with `value`.
    pub(crate) fn swap_value(&mut self, id: usize, value: &mut Value<T>)
        requires
            old(self).wf(),
            old(self)@.alive(id),
        ensures
            final(self).wf(),
            final(self)@ == old(self)@.with_value(id, *old(value)),
            *final(value) == old(self)@.cells[id as int].value,
    {
        let ghost before = *self;
        std::mem::swap(&mut self.cells[id].value, value);
        proof {
            before.lemma_touch(*self, id);
            before.lemma_stored_same_links(*self, id);
            let cell = self@.cells[id as int];
            assert(before@.cell_wf(id as int));
            before@.lemma_wf_retouched(id, cell);
        }
    }

    /// Exchanges slot `index` of the value of the live cell `id` with `other`,
    /// where the value has such a slot.
    pub(crate) fn exchange_slot_at(&mut self, id: usize, index: usize, other: &mut Value<T>)
        requires
            old(self).wf(),
            old(self)@.alive(id),
            index < old(self)@.cells[id as int].value.slots().len(),
        ensures
            final(self).wf(),
            final(self)@ == old(self)@.with_value(
                id,
                old(self)@.cells[id as int].value.with_slot(index as int, *old(other)),
            ),
            *final(other) == old(self)@.cells[id as int].value.slots()[index as int],
    {
        let ghost before = *self;
        let done = self.cells[id].value.exchange_slot(index, other);
        proof {
            before.lemma_touch(*self, id);
            before.lemma_stored_same_links(*self, id);
            let cell = self@.cells[id as int];
            assert(before@.cell_wf(id as int));
            before@.lemma_wf_retouched(id, cell);
        }
    }

    /// What the function of reaction `k` of the cell `id` returns on the
    /// value of that cell.
    pub(crate) fn eval(&self, id: usize, k: usize) -> (r: Value<T>)
        requires
            self.wf(),
            id < self@.cells.len(),
            k < self@.cells[id as int].react_fns.len(),
            self@.cells[id as int].react_fns[k as int] is Forward
                || self@.cells[id as int].react_fns[k as int] is Backward,
        ensures
            match self@.cells[id as int].react_fns[k as int] {
                Reaction::Forward { func, .. } => r == apply(func, self@.cells[id as int].value)
                    && call_ensures(func, (&self@.cells[id as int].value,), r),
                Reaction::Backward { func, .. } => r == apply(func, self@.cells[id as int].value)
                    && call_ensures(func, (&self@.cells[id as int].value,), r),
                _ => true,
            },
    {
        proof {
            assert(self@.cell_wf(id as int));
            assert(self@.reaction_wf(id as int, self@.cells[id as int].react_fns[k as int]));
        }
        let cell = &self.cells[id];
        match &cell.react_fns[k] {
            Reaction::Forward { func, .. } => func(&cell.value),
            Reaction::Backward { func, .. } => func(&cell.value),
            _ => Value::Nil,
        }
    }

    /// Sets whether the live cell `id` counts as written directly.
    pub(crate) fn set_flag(&mut self, id: usize, flag: bool)
        requires
            old(self).wf(),
            old(self)@.alive(id),
        ensures
            final(self).wf(),
            final(self)@ == old(self)@.with_flag(id, flag),
    {
        let ghost before = *self;
        self.cells[id].explicitly_modified = flag;
        proof {
            before.lemma_touch(*self, id);
            before.lemma_stored_same_links(*self, id);
            let cell = self@.cells[id as int];
            assert(before@.cell_wf(id as int));
            before@.lemma_wf_retouched(id, cell);
        }
    }

    /// Lets a strong link keep the live cell `id`.
    pub(crate) fn pin(&mut self, id: usize)
        requires
            old(self).wf(),
            old(self)@.alive(id),
        ensures
            final(self).wf(),
            final(self)@ == old(self)@.with_pin(id),
    {
        let ghost before = *self;
        self.cells[id].pinned = true;
        proof {
            before.lemma_touch(*self, id);
            before.lemma_stored_same_links(*self, id);
            let cell = self@.cells[id as int];
            assert(before@.cell_wf(id as int));
            before@.lemma_wf_retouched(id, cell);
        }
    }

    /// Attaches the reaction `r` to the live cell `id`.
    pub(crate) fn attach(&mut self, id: usize, r: Reaction<F>)
        requires
            old(self).wf(),
            old(self)@.alive(id),
            old(self)@.reaction_wf(id as int, r),
        ensures
            final(self).wf(),
            final(self)@ == old(self)@.with_reaction(id, r),
    {
        let ghost before = *self;
        self.cells[id].react_fns.push(r);
        proof {
            before.lemma_touch(*self, id);
            before.lemma_stored_same_links(*self, id);
            let cell = self@.cells[id as int];
            assert(before@.cell_wf(id as int));
            assert forall|k: int| 0 <= k < cell.react_fns.len() implies before@.reaction_wf(
                id as int,
                #[trigger] cell.react_fns[k],
            ) by {
                if k < before@.cells[id as int].react_fns.len() {
                    assert(cell.react_fns[k] == before@.cells[id as int].react_fns[k]);
                }
            }
            before@.lemma_wf_with_cell(id, cell);
        }
    }

    /// Counts one more handle of the live cell `id`.
    pub(crate) fn hold(&mut self, id: usize)
        requires
            old(self).wf(),
            old(self)@.alive(id),
            old(self)@.cells[id as int].handles < usize::MAX,
        ensures
            final(self).wf(),
            final(self)@ == old(self)@.with_handles(id, old(self)@.cells[id as int].handles + 1),
    {
        let ghost before = *self;
        self.cells[id].handles = self.cells[id].handles + 1;
        proof {
            before.lemma_touch(*self, id);
            before.lemma_stored_same_links(*self, id);
            let cell = self@.cells[id as int];
            assert(before@.cell_wf(id as int));
            before@.lemma_wf_retouched(id, cell);
        }
    }

    /// Counts one more pending visit of the live cell `id`.
    pub(crate) fn mark_dirty(&mut self, id: usize)
        requires
            old(self).wf(),
            old(self)@.alive(id),
            old(self)@.cells[id as int].dirty < isize::MAX,
        ensures
            final(self).wf(),
            final(self)@ == old(self)@.with_dirty(id, old(self)@.cells[id as int].dirty + 1),
            final(self).still_pruned(*old(self)),
    {
        let ghost before = *self;
        assert(before@.cell_wf(id as int));
        self.cells[id].dirty = self.cells[id].dirty + 1;
        proof {
            before.lemma_touch_pruned(*self, id);
            before.lemma_touch(*self, id);
            before.lemma_stored_same_links(*self, id);
            let cell = self@.cells[id as int];
            before@.lemma_wf_retouched(id, cell);
        }
    }

    /// Stores a successor link from the live cell `id` to the live cell `to`.
    pub(crate) fn link_successor(&mut self, id: usize, to: usize)
        requires
            old(self).wf(),
            old(self)@.alive(id),
            old(self)@.alive(to),
            !reaches(old(self)@.forward(), to, id),
        ensures
            final(self).wf(),
            final(self)@ == old(self)@.with_successor(id, to),
    {
        let ghost before = *self;
        self.cells[id].successors.push(WeakSignalRef { id: to });
        proof {
            before.lemma_touch(*self, id);
            assert forall|k: int| 0 <= k < self.cells@[id as int].successors@.len() implies (
            #[trigger] self.cells@[id as int].successors@[k]).id < before.cells@.len() by {
                if k < before.cells@[id as int].successors@.len() {
                    assert(before.cells@[id as int].successors@[k].id < before.cells@.len());
                }
            }
            assert forall|k: int| 0 <= k < self.cells@[id as int].predecessors@.len() implies (
            #[trigger] self.cells@[id as int].predecessors@[k]).id < id by {
                assert(before.cells@[id as int].predecessors@[k].id < id);
            }
            before.lemma_stored_kept(*self, id);
            let lm = before.live_map();
            let was = before.cells@[id as int].successors@;
            assert(link_ids(was.push(WeakSignalRef { id: to })) =~= link_ids(was).push(to));
            lemma_filter_push(link_ids(was), to, is_live(lm));
            assert(self@.cells =~= before@.with_successor(id, to).cells);
            before@.lemma_wf_with_successor(id, to);
        }
    }

    /// Stores a predecessor link from the live cell `id` to the older live
    /// cell `to`.
    pub(crate) fn link_predecessor(&mut self, id: usize, to: usize)
        requires
            old(self).wf(),
            old(self)@.alive(id),
            old(self)@.alive(to),
            to < id,
        ensures
            final(self).wf(),
            final(self)@ == old(self)@.with_predecessor(id, to),
    {
        let ghost before = *self;
        self.cells[id].predecessors.push(WeakSignalRef { id: to });
        proof {
            before.lemma_touch(*self, id);
            assert forall|k: int| 0 <= k < self.cells@[id as int].successors@.len() implies (
            #[trigger] self.cells@[id as int].successors@[k]).id < before.cells@.len() by {
                assert(before.cells@[id as int].successors@[k].id < before.cells@.len());
            }
            assert forall|k: int| 0 <= k < self.cells@[id as int].predecessors@.len() implies (
            #[trigger] self.cells@[id as int].predecessors@[k]).id < id by {
                if k < before.cells@[id as int].predecessors@.len() {
                    assert(before.cells@[id as int].predecessors@[k].id < id);
                }
            }
            before.lemma_stored_kept(*self, id);
            let lm = before.live_map();
            let was = before.cells@[id as int].predecessors@;
            assert(link_ids(was.push(WeakSignalRef { id: to })) =~= link_ids(was).push(to));
            lemma_filter_push(link_ids(was), to, is_live(lm));
            assert(self@.cells =~= before@.with_predecessor(id, to).cells);
            before@.lemma_wf_with_predecessor(id, to);
        }
    }

    /// Lets go of one hold on the cell `id`: a pending visit, or else a
    /// handle. A cell that nothing holds after that is reclaimed.
    pub(crate) fn let_go(&mut self, id: usize, visit: bool)
        requires
            old(self).wf(),
            id < old(self)@.cells.len(),
            visit ==> old(self)@.cells[id as int].dirty >= 1,
            !visit ==> old(self)@.cells[id as int].handles >= 1,
        ensures
            final(self).wf(),
            visit ==> final(self)@ == old(self)@.with_dirty(
                id,
                old(self)@.cells[id as int].dirty - 1,
            ).settle(id),
            !visit ==> final(self)@ == old(self)@.with_handles(
                id,
                old(self)@.cells[id as int].handles - 1,
            ).settle(id),
    {
        let ghost before = *self;
        assert(before@.cell_wf(id as int));
        if visit {
            self.cells[id].dirty = self.cells[id].dirty - 1;
        } else {
            self.cells[id].handles = self.cells[id].handles - 1;
        }
        let ghost counted = *self;
        let ghost dirty = counted.cells@[id as int].dirty as int;
        let ghost handles = counted.cells@[id as int].handles as int;
        let ghost held = before@.with_dirty(id, dirty).with_handles(id, handles);
        proof {
            if visit {
                assert(held.cells =~= before@.with_dirty(id, dirty).cells);
            } else {
                assert(held.cells =~= before@.with_handles(id, handles).cells);
            }
            before@.lemma_wf_unheld(id, dirty, handles);
        }
        let cell = &self.cells[id];
        if cell.pinned || cell.handles > 0 || cell.dirty > 0 {
            proof {
                before.lemma_touch(*self, id);
                before.lemma_stored_same_links(*self, id);
                assert(self@.cells =~= held.cells);
            }
        } else {
            self.cells[id].value = Value::Nil;
            self.cells[id].react_fns = Vec::new();
            self.cells[id].successors = Vec::new();
            self.cells[id].predecessors = Vec::new();
            self.cells[id].explicitly_modified = false;
            proof {
                before.lemma_stored_kept(*self, id);
                let lm = before.live_map();
                let now = self.live_map();
                assert(now =~= lm.update(id as int, false));
                lemma_filter_empty::<usize>(is_live(now));
                assert(link_ids(Seq::<WeakSignalRef>::empty()) =~= Seq::<usize>::empty());
                assert(self.cells@[id as int].successors@ =~= Seq::<WeakSignalRef>::empty());
                assert(self.cells@[id as int].predecessors@ =~= Seq::<WeakSignalRef>::empty());
                assert(self.cells@[id as int].react_fns@ =~= Seq::<Reaction<F>>::empty());
                let goal = held.reclaim(id);
                assert forall|c: int| 0 <= c < self.cells@.len() implies self@.cells[c]
                    == goal.cells[c] by {
                    if c != id {
                        let stored = before.cells@[c];
                        assert(self.cells@[c] == stored);
                        let succ = link_ids(stored.successors@);
                        assert forall|i: int| 0 <= i < succ.len() implies is_live(now)(
                            #[trigger] succ[i],
                        ) == (is_live(lm)(succ[i]) && other_than(id)(succ[i])) by {}
                        lemma_filter_twice(succ, is_live(lm), other_than(id), is_live(now));
                        let pred = link_ids(stored.predecessors@);
                        assert forall|i: int| 0 <= i < pred.len() implies is_live(now)(
                            #[trigger] pred[i],
                        ) == (is_live(lm)(pred[i]) && other_than(id)(pred[i])) by {}
                        lemma_filter_twice(pred, is_live(lm), other_than(id), is_live(now));
                        assert(held.cells[c] == before@.cells[c]);
                    }
                }
                assert(self@.cells =~= goal.cells);
            }
        }
    }

    /// Drops the stored links of the cell `id` that lead to cells that are
    /// gone, and returns the cells that the others lead to: the successors
    /// where `forward` is set, else the predecessors.
    pub(crate) fn live_links(&mut self, id: usize, forward: bool) -> (out: Vec<usize>)
        requires
            old(self).wf(),
            id < old(self)@.cells.len(),
        ensures
            final(self).wf(),
            final(self)@ == old(self)@,
            forward ==> out@ == old(self)@.cells[id as int].successors,
            !forward ==> out@ == old(self)@.cells[id as int].predecessors,
            final(self).pruned(id, forward),
            final(self).still_pruned(*old(self)),
    {
        let ghost before = *self;
        let ghost lm = before.live_map();
        let ghost links = if forward {
            before.cells@[id as int].successors@
        } else {
            before.cells@[id as int].predecessors@
        };
        let n = if forward {
            self.cells[id].successors.len()
        } else {
            self.cells[id].predecessors.len()
        };
        let mut kept: Vec<WeakSignalRef> = Vec::new();
        let mut out: Vec<usize> = Vec::new();
        let mut k: usize = 0;
        proof {
            assert(link_ids(links.take(0)) =~= Seq::<usize>::empty());
            lemma_filter_empty::<usize>(is_live(lm));
            assert(link_ids(kept@) =~= out@);
        }
        while k < n
            invariant
                *self == before,
                before.wf(),
                id < before.cells@.len(),
                lm == before.live_map(),
                links == if forward {
                    before.cells@[id as int].successors@
                } else {
                    before.cells@[id as int].predecessors@
                },
                n == links.len(),
                k <= n,
                out@ == live_only(link_ids(links.take(k as int)), lm),
                link_ids(kept@) == out@,
                forall|j: int| 0 <= j < kept@.len() ==> links.contains(#[trigger] kept@[j]),
            decreases n - k,
        {
            let w = if forward {
                self.cells[id].successors[k]
            } else {
                self.cells[id].predecessors[k]
            };
            let live = self.is_alive(w.id);
            proof {
                assert(links.take(k as int + 1) =~= links.take(k as int).push(w));
                assert(link_ids(links.take(k as int).push(w)) =~= link_ids(
                    links.take(k as int),
                ).push(w.id));
                lemma_filter_push(link_ids(links.take(k as int)), w.id, is_live(lm));
                assert(links[k as int] == w);
            }
            if live {
                kept.push(w);
                out.push(w.id);
                proof {
                    assert(link_ids(kept@) =~= out@);
                }
            }
            k += 1;
        }
        if forward {
            self.cells[id].successors = kept;
        } else {
            self.cells[id].predecessors = kept;
        }
        proof {
            assert(links.take(n as int) =~= links);
            lemma_filter_elements(link_ids(links), is_live(lm));
            lemma_filter_all(out@, is_live(lm));
            before.lemma_touch(*self, id);
            assert(self@.cells =~= before@.cells);
            assert(self.pruned(id, forward));
            assert forall|c: usize, dir: bool| #[trigger]
                before.pruned(c, dir) implies self.pruned(c, dir) by {
                if c != id {
                    assert(self.cells@[c as int] == before.cells@[c as int]);
                } else if dir != forward {
                    assert(self.cells@[c as int].successors@ == before.cells@[c as int].successors@ || self.cells@[c as int].predecessors@ == before.cells@[c as int].predecessors@);
                }
            }
            assert forall|j: int| 0 <= j < self.cells@[id as int].successors@.len() implies (
            #[trigger] self.cells@[id as int].successors@[j]).id < before.cells@.len() by {
                if forward {
                    let e = kept@[j];
                    assert(links.contains(e));
                    let i = choose|i: int| 0 <= i < links.len() && links[i] == e;
                    assert(before.cells@[id as int].successors@[i].id < before.cells@.len());
                } else {
                    assert(before.cells@[id as int].successors@[j].id < before.cells@.len());
                }
            }
            assert forall|j: int| 0 <= j < self.cells@[id as int].predecessors@.len() implies (
            #[trigger] self.cells@[id as int].predecessors@[j]).id < id by {
                if !forward {
                    let e = kept@[j];
                    assert(links.contains(e));
                    let i = choose|i: int| 0 <= i < links.len() && links[i] == e;
                    assert(before.cells@[id as int].predecessors@[i].id < id);
                } else {
                    assert(before.cells@[id as int].predecessors@[j].id < id);
                }
            }
            if !self.cells@[id as int].live() {
                assert(!before.cells@[id as int].live());
                assert(before.cells@[id as int].bare());
                assert(kept@.len() == 0) by {
                    if kept@.len() > 0 {
                        assert(links.contains(kept@[0]));
                    }
                }
            }
            before.lemma_stored_kept(*self, id);
        }
        out
    }

    /// The number of links stored for the cell `id`: successor links where
    /// `forward` is set, else predecessor links.
    pub fn count_stored_links(&self, id: usize, forward: bool) -> (n: usize)
        requires
            id < self@.cells.len(),
        ensures
            n == self.links_stored(id, forward),
    {
        if forward {
            self.cells[id].successors.len()
        } else {
            self.cells[id].predecessors.len()
        }
    }

    /// A copy of the value of the cell `id`.
    pub fn value_copy(&self, id: usize) -> (v: Value<T>) where T: Copy
        requires
            id < self@.cells.len(),
        ensures
            v == self@.cells[id as int].value,
    {
        self.cells[id].value.duplicate()
    }

    /// The value of the cell `id`.
    pub(crate) fn value_of(&self, id: usize) -> (v: &Value<T>)
        requires
            id < self@.cells.len(),
        ensures
            *v == self@.cells[id as int].value,
    {
        &self.cells[id].value
    }

    /// Whether the cell `id` counts as written directly.
    pub fn flag_of(&self, id: usize) -> (b: bool)
        requires
            id < self@.cells.len(),
        ensures
            b == self@.cells[id as int].explicitly_modified,
    {
        self.cells[id].explicitly_modified
    }

    /// The number of pending visits of the cell `id`.
    pub fn dirty_of(&self, id: usize) -> (d: isize)
        requires
            id < self@.cells.len(),
        ensures
            d == self@.cells[id as int].dirty,
    {
        self.cells[id].dirty
    }

    /// The number of handles of the cell `id`.
    pub fn handles_of(&self, id: usize) -> (n: usize)
        requires
            id < self@.cells.len(),
        ensures
            n == self@.cells[id as int].handles,
    {
        self.cells[id].handles
    }

    /// The number of reactions attached to the cell `id`.
    pub fn reaction_count(&self, id: usize) -> (n: usize)
        requires
            id < self@.cells.len(),
        ensures
            n == self@.cells[id as int].react_fns.len(),
    {
        self.cells[id].react_fns.len()
    }

    /// The reaction `k` of the cell `id`.
    pub(crate) fn reaction(&self, id: usize, k: usize) -> (r: &Reaction<F>)
        requires
            id < self@.cells.len(),
            k < self@.cells[id as int].react_fns.len(),
        ensures
            *r == self@.cells[id as int].react_fns[k as int],
    {
        &self.cells[id].react_fns[k]
    }
}

/// The cells that the visits `tokens` name.
pub closed spec fn token_ids(tokens: Seq<SignalGuardInner>) -> Seq<usize> {
    tokens.map_values(|t: SignalGuardInner| t.id)
}

/// One more visit names one more cell.
pub proof fn lemma_token_push(tokens: Seq<SignalGuardInner>, t: SignalGuardInner)
    ensures
        token_ids(tokens.push(t)) == token_ids(tokens).push(t@),
{
    assert(token_ids(tokens.push(t)) =~= token_ids(tokens).push(t@));
}

/// Visits joined name the cells of both.
pub proof fn lemma_token_add(a: Seq<SignalGuardInner>, b: Seq<SignalGuardInner>)
    ensures
        token_ids(a + b) == token_ids(a) + token_ids(b),
        token_ids(Seq::empty()) == Seq::<usize>::empty(),
        token_ids(a).len() == a.len(),
{
    assert(token_ids(a + b) =~= token_ids(a) + token_ids(b));
    assert(token_ids(Seq::empty()) =~= Seq::<usize>::empty());
}

/// The cell that one of the visits names.
pub proof fn lemma_token_at(tokens: Seq<SignalGuardInner>, i: int)
    requires
        0 <= i < tokens.len(),
    ensures
        token_ids(tokens)[i] == tokens[i]@,
{
}

impl SignalGuard {
    /// The visits held, first to last.
    pub fn into_tokens(self) -> (tokens: Vec<SignalGuardInner>)
        ensures
            token_ids(tokens@) == self@,
    {
        self.0
    }

    /// The number of visits held.
    pub fn len(&self) -> (n: usize)
        ensures
            n == self@.len(),
    {
        proof {
            lemma_token_add(self.0@, Seq::empty());
        }
        self.0.len()
    }

    /// The cell of visit `k`.
    pub fn cell_at(&self, k: usize) -> (id: usize)
        requires
            k < self@.len(),
        ensures
            id == self@[k as int],
    {
        proof {
            lemma_token_add(self.0@, Seq::empty());
            lemma_token_at(self.0@, k as int);
        }
        self.0[k].id
    }

    /// A guard that holds `tokens`.
    pub(crate) fn of(tokens: Vec<SignalGuardInner>) -> (guard: Self)
        ensures
            guard@ == token_ids(tokens@),
    {
        SignalGuard(tokens)
    }
}

impl Signal {
    /// A handle that names the cell `id`.
    pub(crate) fn of(id: usize) -> (s: Self)
        ensures
            s@ == id,
    {
        Signal { id }
    }

    /// The name of the cell: its position in the graph.
    pub fn id(&self) -> (id: usize)
        ensures
            id == self@,
    {
        self.id
    }

    /// Makes the handle name the cell `id`.
    pub(crate) fn rebind(&mut self, id: usize)
        ensures
            final(self)@ == id,
    {
        self.id = id;
    }
}

impl WeakSignalRef {
    /// A link to the cell `id`.
    pub(crate) fn of(id: usize) -> (w: Self)
        ensures
            w@ == id,
    {
        WeakSignalRef { id }
    }

    /// The name of the cell linked to.
    pub fn id(&self) -> (id: usize)
        ensures
            id == self@,
    {
        self.id
    }
}

impl SignalGuardInner {
    /// A visit of the cell `id`.
    pub(crate) fn of(id: usize) -> (t: Self)
        ensures
            t@ == id,
    {
        SignalGuardInner { id }
    }

    /// The cell visited.
    pub fn id(&self) -> (id: usize)
        ensures
            id == self@,
    {
        self.id
    }
}

} // verus!
