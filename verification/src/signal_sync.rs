//! The thread-safe twin of the signals.
//!
//! A [`SignalGraphSync`] holds values and functions that may cross threads,
//! so the graph as a whole may: behind a lock it is shared by any number of
//! writers. Every operation takes the graph by exclusive reference, which is
//! what the lock hands out, and gives it back when it returns: writers
//! interleave operation by operation, down to the release of a single visit
//! ([`SignalGuardInnerSync::drop`]). The operations are those of the
//! single-owner signals, and they are stated over the same model: what a
//! batch does to a graph does not depend on which of the two holds it. Of
//! releases that the writers' interleaving may reorder, [`crate::interleave`]
//! proves that the order does not matter where the cells are unrelated.
use vstd::prelude::*;
use crate::api::LiftableSync;
use crate::graph::{functional, Graph};
use crate::signal::{
    lemma_token_add, lemma_token_at, token_ids, Signal, SignalGraph, SignalGuard, SignalGuardInner,
    WeakSignalRef,
};
use crate::value::Value;
use crate::walk::reaches;

verus! {

/// A link to a cell that does not keep the cell.
#[derive(Clone, Copy, Debug)]
pub struct WeakSignalRefSync(WeakSignalRef);

/// One pending visit of a cell.
#[derive(Debug)]
pub struct SignalGuardInnerSync(SignalGuardInner);

/// The visits of one or more writes; releasing it fires the reactions.
#[derive(Debug)]
pub struct SignalGuardSync(SignalGuard);

/// A handle to a cell.
#[derive(Debug)]
pub struct SignalSync(Signal);

/// The cells of one graph, all of which may cross threads.
pub struct SignalGraphSync<T: Send + Sync, F: Send + Sync> {
    graph: SignalGraph<T, F>,
}

impl View for WeakSignalRefSync {
    type V = usize;

    /// The cell linked to.
    closed spec fn view(&self) -> usize {
        self.0@
    }
}

impl View for SignalGuardInnerSync {
    type V = usize;

    /// The cell visited.
    closed spec fn view(&self) -> usize {
        self.0@
    }
}

impl View for SignalGuardSync {
    type V = Seq<usize>;

    /// The cells visited, in the order of the visits.
    closed spec fn view(&self) -> Seq<usize> {
        self.0@
    }
}

impl View for SignalSync {
    type V = usize;

    /// The cell that the handle names.
    closed spec fn view(&self) -> usize {
        self.0@
    }
}

impl<T: Send + Sync, F: Fn(&Value<T>) -> Value<T> + Send + Sync> View for SignalGraphSync<T, F> {
    type V = Graph<T, F>;

    /// The model of the graph: that of the single-owner graph it holds.
    closed spec fn view(&self) -> Graph<T, F> {
        self.graph@
    }
}

/// The cells that the signals of `items` name, in order.
pub open spec fn cells_of_sync<S: LiftableSync>(items: Seq<S>) -> Seq<usize> {
    Seq::new(items.len(), |i: int| items[i].cell())
}

impl<T: Send + Sync, F: Fn(&Value<T>) -> Value<T> + Send + Sync> SignalGraphSync<T, F> {
    /// The invariant of the graph.
    pub closed spec fn wf(self) -> bool {
        self.graph.wf()
    }

    /// A well-formed graph has a well-formed model.
    pub proof fn lemma_wf(self)
        requires
            self.wf(),
        ensures
            self@.wf(),
    {
        self.graph.lemma_wf();
    }

    /// A graph without cells.
    pub fn new() -> (g: Self)
        ensures
            g.wf(),
            g@.cells.len() == 0,
    {
        SignalGraphSync { graph: SignalGraph::new() }
    }

    /// The graph `graph`, to be shared between threads: the same cells, the
    /// same model.
    pub fn share(graph: SignalGraph<T, F>) -> (g: Self)
        requires
            graph.wf(),
        ensures
            g.wf(),
            g@ == graph@,
    {
        SignalGraphSync { graph }
    }

    /// The graph, for a single owner again: the same cells, the same model.
    pub fn into_inner(self) -> (graph: SignalGraph<T, F>)
        requires
            self.wf(),
        ensures
            graph.wf(),
            graph@ == self@,
    {
        self.graph
    }

    /// The number of cells ever created in the graph.
    pub fn len(&self) -> (n: usize)
        ensures
            n == self@.cells.len(),
    {
        self.graph.len()
    }

    /// Whether something holds the cell `id`.
    pub fn is_alive(&self, id: usize) -> (r: bool)
        ensures
            r == self@.alive(id),
    {
        self.graph.is_alive(id)
    }

    /// Whether the counters have room for the visits of a write to the cell
    /// `id`.
    pub fn has_room(&mut self, id: usize) -> (ok: bool)
        requires
            old(self).wf(),
            id < old(self)@.cells.len(),
        ensures
            final(self).wf(),
            final(self)@ == old(self)@,
            ok == old(self)@.room(old(self)@.walk(id)),
    {
        self.graph.has_room(id)
    }

    /// The number of pending visits of the cell `id`.
    pub fn dirty_of(&self, id: usize) -> (d: isize)
        requires
            id < self@.cells.len(),
        ensures
            d == self@.cells[id as int].dirty,
    {
        self.graph.dirty_of(id)
    }

    /// The number of handles of the cell `id`.
    pub fn handles_of(&self, id: usize) -> (n: usize)
        requires
            id < self@.cells.len(),
        ensures
            n == self@.cells[id as int].handles,
    {
        self.graph.handles_of(id)
    }
}

impl WeakSignalRefSync {
    /// A weak link to the cell of `signal`.
    pub fn new(signal: &SignalSync) -> (link: Self)
        ensures
            link@ == signal@,
    {
        WeakSignalRefSync(WeakSignalRef::new(&signal.0))
    }

    /// Whether the cell linked to is still there.
    pub fn is_alive<T: Send + Sync, F: Fn(&Value<T>) -> Value<T> + Send + Sync>(
        &self,
        graph: &SignalGraphSync<T, F>,
    ) -> (alive: bool)
        ensures
            alive == graph@.alive(self@),
    {
        self.0.is_alive(&graph.graph)
    }

    /// A handle to the cell linked to, if the cell is still there (and one
    /// more handle of it can be counted).
    pub fn upgrade<T: Send + Sync, F: Fn(&Value<T>) -> Value<T> + Send + Sync>(
        &self,
        graph: &mut SignalGraphSync<T, F>,
    ) -> (signal: Option<SignalSync>)
        requires
            old(graph).wf(),
        ensures
            final(graph).wf(),
            signal is Some == (old(graph)@.alive(self@) && old(graph)@.cells[self@ as int].handles
                < usize::MAX),
            signal matches Some(s) ==> s@ == self@ && final(graph)@ == old(graph)@.held(self@),
            signal is None ==> final(graph)@ == old(graph)@,
    {
        match self.0.upgrade(&mut graph.graph) {
            Some(s) => Some(SignalSync(s)),
            None => None,
        }
    }
}

impl SignalGuardInnerSync {
    /// The cell visited.
    pub fn id(&self) -> (id: usize)
        ensures
            id == self@,
    {
        self.0.id()
    }

    /// Releases the visit, as [`SignalGuardInner::drop`] does.
    pub fn drop<T: Send + Sync, F: Fn(&Value<T>) -> Value<T> + Send + Sync>(
        self,
        graph: &mut SignalGraphSync<T, F>,
    ) -> (fired: bool)
        requires
            old(graph).wf(),
            self@ < old(graph)@.cells.len(),
            old(graph)@.cells[self@ as int].dirty >= 1,
        ensures
            final(graph).wf(),
            final(graph)@ == old(graph)@.release_one(self@),
            fired == old(graph)@.fires(self@),
            old(graph)@.release_one_seen(self@),
    {
        self.0.drop(&mut graph.graph)
    }
}

impl SignalGuardSync {
    /// The number of visits held.
    pub fn len(&self) -> (n: usize)
        ensures
            n == self@.len(),
    {
        self.0.len()
    }

    /// The visits held, first to last.
    pub fn into_tokens(self) -> (tokens: Vec<SignalGuardInnerSync>)
        ensures
            tokens@.len() == self@.len(),
            forall|i: int| 0 <= i < tokens@.len() ==> (#[trigger] tokens@[i])@ == self@[i],
    {
        let inner = self.0.into_tokens();
        proof {
            lemma_token_add(inner@, Seq::empty());
        }
        let n = inner.len();
        let mut out: Vec<SignalGuardInnerSync> = Vec::new();
        let mut i: usize = 0;
        while i < n
            invariant
                n == inner@.len(),
                i <= n,
                out@.len() == i,
                forall|k: int| 0 <= k < i ==> (#[trigger] out@[k])@ == token_ids(inner@)[k],
            decreases n - i,
        {
            proof {
                lemma_token_at(inner@, i as int);
            }
            out.push(SignalGuardInnerSync(SignalGuardInner::of(inner[i].id())));
            i += 1;
        }
        out
    }

    /// The guard that holds the visits of `self`, then those of `other`.
    pub fn and(self, other: SignalGuardSync) -> (guard: SignalGuardSync)
        ensures
            guard@ == self@ + other@,
    {
        SignalGuardSync(self.0.and(other.0))
    }

    /// Whether every visit of the guard is pending in `graph`.
    pub fn covered_by<T: Send + Sync, F: Fn(&Value<T>) -> Value<T> + Send + Sync>(
        &self,
        graph: &SignalGraphSync<T, F>,
    ) -> (covered: bool)
        requires
            graph.wf(),
        ensures
            covered == graph@.covers(self@),
    {
        self.0.covered_by(&graph.graph)
    }

    /// Releases the visits of the guard where every one of them is pending,
    /// as [`SignalGuard::try_drop`] does.
    pub fn try_drop<T: Send + Sync, F: Fn(&Value<T>) -> Value<T> + Send + Sync>(
        self,
        graph: &mut SignalGraphSync<T, F>,
    ) -> (fired: Result<Vec<usize>, SignalGuardSync>)
        requires
            old(graph).wf(),
        ensures
            final(graph).wf(),
            fired is Ok == old(graph)@.covers(self@),
            fired matches Ok(cells) ==> final(graph)@ == old(graph)@.release(self@) && cells@
                == old(graph)@.fired(self@) && old(graph)@.release_seen(self@),
            fired matches Err(guard) ==> guard@ == self@ && final(graph)@ == old(graph)@,
    {
        match self.0.try_drop(&mut graph.graph) {
            Ok(cells) => Ok(cells),
            Err(guard) => Err(SignalGuardSync(guard)),
        }
    }

    /// Releases the visits of the guard, first to last, and returns the
    /// cells that fired, in the order of their firing.
    pub fn drop<T: Send + Sync, F: Fn(&Value<T>) -> Value<T> + Send + Sync>(
        self,
        graph: &mut SignalGraphSync<T, F>,
    ) -> (fired: Vec<usize>)
        requires
            old(graph).wf(),
            old(graph)@.covers(self@),
        ensures
            final(graph).wf(),
            final(graph)@ == old(graph)@.release(self@),
            fired@ == old(graph)@.fired(self@),
            old(graph)@.release_seen(self@),
    {
        self.0.drop(&mut graph.graph)
    }
}

impl SignalSync {
    /// The name of the cell: its position in the graph.
    pub fn id(&self) -> (id: usize)
        ensures
            id == self@,
    {
        self.0.id()
    }

    /// Creates a cell that holds `initial`, and returns the handle to it.
    pub fn new<T: Send + Sync, F: Fn(&Value<T>) -> Value<T> + Send + Sync>(
        graph: &mut SignalGraphSync<T, F>,
        initial: Value<T>,
    ) -> (signal: SignalSync)
        requires
            old(graph).wf(),
        ensures
            final(graph).wf(),
            final(graph)@ == old(graph)@.with_new(initial),
            signal@ == old(graph)@.next(),
            final(graph)@.grown(old(graph)@),
    {
        SignalSync(Signal::new(&mut graph.graph, initial))
    }

    /// Sends `new_value` to the cell, as [`Signal::send`] does.
    pub fn send<T: Send + Sync, F: Fn(&Value<T>) -> Value<T> + Send + Sync>(
        &self,
        graph: &mut SignalGraphSync<T, F>,
        new_value: Value<T>,
    ) -> (guard: SignalGuardSync)
        requires
            old(graph).wf(),
            old(graph)@.alive(self@),
            old(graph)@.room(old(graph)@.walk(self@)),
        ensures
            final(graph).wf(),
            final(graph)@ == old(graph)@.sent(self@, new_value),
            guard@ == old(graph)@.walk(self@),
            final(graph)@.covers(guard@),
    {
        SignalGuardSync(self.0.send(&mut graph.graph, new_value))
    }

    /// Sends `new_value` to the cell where the cell lives and the counters
    /// have room, as [`Signal::try_send`] does.
    pub fn try_send<T: Send + Sync, F: Fn(&Value<T>) -> Value<T> + Send + Sync>(
        &self,
        graph: &mut SignalGraphSync<T, F>,
        new_value: Value<T>,
    ) -> (sent: Result<SignalGuardSync, Value<T>>)
        requires
            old(graph).wf(),
        ensures
            final(graph).wf(),
            sent is Ok == (old(graph)@.alive(self@) && old(graph)@.room(old(graph)@.walk(self@))),
            sent matches Ok(guard) ==> final(graph)@ == old(graph)@.sent(self@, new_value)
                && guard@ == old(graph)@.walk(self@) && final(graph)@.covers(guard@),
            sent matches Err(value) ==> value == new_value && final(graph)@ == old(graph)@,
    {
        match self.0.try_send(&mut graph.graph, new_value) {
            Ok(guard) => Ok(SignalGuardSync(guard)),
            Err(value) => Err(value),
        }
    }

    /// Sends a change to the cell where the cell lives and the counters have
    /// room, as [`Signal::try_send_with`] does.
    pub fn try_send_with<
        T: Send + Sync,
        F: Fn(&Value<T>) -> Value<T> + Send + Sync,
        M: FnOnce(&Value<T>) -> Value<T>,
    >(&self, graph: &mut SignalGraphSync<T, F>, f: M) -> (sent: Result<SignalGuardSync, M>)
        requires
            old(graph).wf(),
            old(graph)@.alive(self@) ==> call_requires(
                f,
                (&old(graph)@.cells[self@ as int].value,),
            ),
        ensures
            final(graph).wf(),
            sent is Ok == (old(graph)@.alive(self@) && old(graph)@.room(old(graph)@.walk(self@))),
            sent matches Ok(guard) ==> {
                &&& final(graph)@ == old(graph)@.sent(
                    self@,
                    final(graph)@.cells[self@ as int].value,
                )
                &&& call_ensures(
                    f,
                    (&old(graph)@.cells[self@ as int].value,),
                    final(graph)@.cells[self@ as int].value,
                )
                &&& guard@ == old(graph)@.walk(self@)
                &&& final(graph)@.covers(guard@)
            },
            sent matches Err(unused) ==> unused == f && final(graph)@ == old(graph)@,
    {
        match self.0.try_send_with(&mut graph.graph, f) {
            Ok(guard) => Ok(SignalGuardSync(guard)),
            Err(unused) => Err(unused),
        }
    }

    /// Sends a change to the cell, as [`Signal::send_with`] does.
    pub fn send_with<
        T: Send + Sync,
        F: Fn(&Value<T>) -> Value<T> + Send + Sync,
        M: FnOnce(&Value<T>) -> Value<T>,
    >(&self, graph: &mut SignalGraphSync<T, F>, f: M) -> (guard: SignalGuardSync)
        requires
            old(graph).wf(),
            old(graph)@.alive(self@),
            old(graph)@.room(old(graph)@.walk(self@)),
            call_requires(f, (&old(graph)@.cells[self@ as int].value,)),
        ensures
            final(graph).wf(),
            final(graph)@ == old(graph)@.sent(self@, final(graph)@.cells[self@ as int].value),
            call_ensures(
                f,
                (&old(graph)@.cells[self@ as int].value,),
                final(graph)@.cells[self@ as int].value,
            ),
            guard@ == old(graph)@.walk(self@),
            final(graph)@.covers(guard@),
    {
        SignalGuardSync(self.0.send_with(&mut graph.graph, f))
    }

    /// One more handle to the cell.
    pub fn clone<T: Send + Sync, F: Fn(&Value<T>) -> Value<T> + Send + Sync>(
        &self,
        graph: &mut SignalGraphSync<T, F>,
    ) -> (signal: SignalSync)
        requires
            old(graph).wf(),
            old(graph)@.alive(self@),
            old(graph)@.cells[self@ as int].handles < usize::MAX,
        ensures
            final(graph).wf(),
            final(graph)@ == old(graph)@.held(self@),
            signal@ == self@,
    {
        SignalSync(self.0.clone(&mut graph.graph))
    }

    /// One more handle to the cell where the cell lives and the count has
    /// room, as [`Signal::try_clone`] does.
    pub fn try_clone<T: Send + Sync, F: Fn(&Value<T>) -> Value<T> + Send + Sync>(
        &self,
        graph: &mut SignalGraphSync<T, F>,
    ) -> (signal: Option<SignalSync>)
        requires
            old(graph).wf(),
        ensures
            final(graph).wf(),
            signal is Some == (old(graph)@.alive(self@) && old(graph)@.cells[self@ as int].handles
                < usize::MAX),
            signal matches Some(s) ==> s@ == self@ && final(graph)@ == old(graph)@.held(self@),
            signal is None ==> final(graph)@ == old(graph)@,
    {
        match self.0.try_clone(&mut graph.graph) {
            Some(signal) => Some(SignalSync(signal)),
            None => None,
        }
    }

    /// Gives the handle up, as [`Signal::drop`] does.
    pub fn drop<T: Send + Sync, F: Fn(&Value<T>) -> Value<T> + Send + Sync>(
        self,
        graph: &mut SignalGraphSync<T, F>,
    )
        requires
            old(graph).wf(),
            self@ < old(graph)@.cells.len(),
            old(graph)@.cells[self@ as int].handles >= 1,
        ensures
            final(graph).wf(),
            final(graph)@ == old(graph)@.unheld(self@),
    {
        self.0.drop(&mut graph.graph)
    }

    /// Makes this cell depend on `dependency` where both live and the link
    /// closes no cycle, as [`Signal::try_depend`] does.
    pub fn try_depend<T: Send + Sync, F: Fn(&Value<T>) -> Value<T> + Send + Sync>(
        &self,
        graph: &mut SignalGraphSync<T, F>,
        dependency: SignalSync,
    ) -> (linked: Result<SignalSync, SignalSync>)
        requires
            old(graph).wf(),
        ensures
            final(graph).wf(),
            linked is Ok == (old(graph)@.alive(self@) && old(graph)@.alive(dependency@) && !reaches(
                old(graph)@.forward(),
                self@,
                dependency@,
            )),
            linked matches Ok(signal) ==> signal@ == dependency@ && final(graph)@
                == old(graph)@.depending(self@, dependency@),
            linked matches Err(signal) ==> signal@ == dependency@ && final(graph)@ == old(graph)@,
    {
        match self.0.try_depend(&mut graph.graph, dependency.0) {
            Ok(signal) => Ok(SignalSync(signal)),
            Err(signal) => Err(SignalSync(signal)),
        }
    }

    /// Makes this handle name the cell of `signal`, as [`Signal::set`]
    /// does.
    pub fn set<T: Send + Sync, F: Fn(&Value<T>) -> Value<T> + Send + Sync>(
        &mut self,
        graph: &mut SignalGraphSync<T, F>,
        signal: SignalSync,
    )
        requires
            old(graph).wf(),
            old(self)@ < old(graph)@.cells.len(),
            old(graph)@.cells[old(self)@ as int].handles >= 1,
        ensures
            final(graph).wf(),
            final(graph)@ == old(graph)@.unheld(old(self)@),
            final(self)@ == signal@,
    {
        self.0.set(&mut graph.graph, signal.0)
    }

    /// Whether something still holds the cell.
    pub fn is_alive<T: Send + Sync, F: Fn(&Value<T>) -> Value<T> + Send + Sync>(
        &self,
        graph: &SignalGraphSync<T, F>,
    ) -> (alive: bool)
        ensures
            alive == graph@.alive(self@),
    {
        self.0.is_alive(&graph.graph)
    }

    /// The number of pending visits of the cell.
    pub fn dirty<T: Send + Sync, F: Fn(&Value<T>) -> Value<T> + Send + Sync>(
        &self,
        graph: &SignalGraphSync<T, F>,
    ) -> (dirty: isize)
        requires
            self@ < graph@.cells.len(),
        ensures
            dirty == graph@.cells[self@ as int].dirty,
    {
        self.0.dirty(&graph.graph)
    }

    /// Whether the cell counts as written directly in the current batch.
    pub fn is_explicitly_modified<T: Send + Sync, F: Fn(&Value<T>) -> Value<T> + Send + Sync>(
        &self,
        graph: &SignalGraphSync<T, F>,
    ) -> (flag: bool)
        requires
            self@ < graph@.cells.len(),
        ensures
            flag == graph@.cells[self@ as int].explicitly_modified,
    {
        self.0.is_explicitly_modified(&graph.graph)
    }

    /// Whether successor links lead from this cell to the cell of `other`,
    /// as [`Signal::leads_to`] tells.
    pub fn leads_to<T: Send + Sync, F: Fn(&Value<T>) -> Value<T> + Send + Sync>(
        &self,
        graph: &mut SignalGraphSync<T, F>,
        other: &SignalSync,
    ) -> (found: bool)
        requires
            old(graph).wf(),
            self@ < old(graph)@.cells.len(),
        ensures
            final(graph).wf(),
            final(graph)@ == old(graph)@,
            found == reaches(old(graph)@.forward(), self@, other@),
    {
        self.0.leads_to(&mut graph.graph, &other.0)
    }

    /// A copy of the value that the cell holds.
    pub fn get<T: Copy + Send + Sync, F: Fn(&Value<T>) -> Value<T> + Send + Sync>(
        &self,
        graph: &SignalGraphSync<T, F>,
    ) -> (value: Value<T>)
        requires
            self@ < graph@.cells.len(),
        ensures
            value == graph@.cells[self@ as int].value,
    {
        self.0.get(&graph.graph)
    }

    /// Derives a cell by `f` with a weak link, as [`Signal::map`] does.
    pub fn map<T: Send + Sync, F: Fn(&Value<T>) -> Value<T> + Send + Sync>(
        &self,
        graph: &mut SignalGraphSync<T, F>,
        f: F,
    ) -> (signal: SignalSync)
        requires
            old(graph).wf(),
            old(graph)@.alive(self@),
            functional(f),
        ensures
            final(graph).wf(),
            final(graph)@ == old(graph)@.mapped(self@, f, false),
            signal@ == old(graph)@.next(),
            final(graph)@.grown(old(graph)@),
            call_ensures(
                f,
                (&old(graph)@.cells[self@ as int].value,),
                final(graph)@.cells[signal@ as int].value,
            ),
    {
        self.map_ref(graph, f, false)
    }

    /// Derives a cell by `f` with a strong link, as [`Signal::with`] does.
    pub fn with<T: Send + Sync, F: Fn(&Value<T>) -> Value<T> + Send + Sync>(
        &self,
        graph: &mut SignalGraphSync<T, F>,
        f: F,
    ) -> (signal: SignalSync)
        requires
            old(graph).wf(),
            old(graph)@.alive(self@),
            functional(f),
        ensures
            final(graph).wf(),
            final(graph)@ == old(graph)@.mapped(self@, f, true),
            signal@ == old(graph)@.next(),
            final(graph)@.grown(old(graph)@),
            call_ensures(
                f,
                (&old(graph)@.cells[self@ as int].value,),
                final(graph)@.cells[signal@ as int].value,
            ),
    {
        self.map_ref(graph, f, true)
    }

    /// Derives a cell by `f`, with a weak or a strong link.
    pub(crate) fn map_ref<T: Send + Sync, F: Fn(&Value<T>) -> Value<T> + Send + Sync>(
        &self,
        graph: &mut SignalGraphSync<T, F>,
        f: F,
        strong: bool,
    ) -> (signal: SignalSync)
        requires
            old(graph).wf(),
            old(graph)@.alive(self@),
            functional(f),
        ensures
            final(graph).wf(),
            final(graph)@ == old(graph)@.mapped(self@, f, strong),
            signal@ == old(graph)@.next(),
            final(graph)@.grown(old(graph)@),
            call_ensures(
                f,
                (&old(graph)@.cells[self@ as int].value,),
                final(graph)@.cells[signal@ as int].value,
            ),
    {
        SignalSync(self.0.map_ref(&mut graph.graph, f, strong))
    }

    /// Derives a cell that writes back to this one, as
    /// [`Signal::contramap`] does.
    pub fn contramap<T: Default + Send + Sync, F: Fn(&Value<T>) -> Value<T> + Send + Sync>(
        &self,
        graph: &mut SignalGraphSync<T, F>,
        f: F,
    ) -> (signal: SignalSync)
        requires
            old(graph).wf(),
            old(graph)@.alive(self@),
            functional(f),
        ensures
            final(graph).wf(),
            final(graph)@ == old(graph)@.comapped(
                self@,
                f,
                final(graph)@.cells[signal@ as int].value,
            ),
            signal@ == old(graph)@.next(),
            final(graph)@.grown(old(graph)@),
            final(graph)@.cells[signal@ as int].value matches Value::Item(d) && T::default.ensures(
                (),
                d,
            ),
    {
        SignalSync(self.0.contramap(&mut graph.graph, f))
    }

    /// Derives a cell linked to this one in both directions, as
    /// [`Signal::promap`] does.
    pub fn promap<T: Default + Send + Sync, F: Fn(&Value<T>) -> Value<T> + Send + Sync>(
        &self,
        graph: &mut SignalGraphSync<T, F>,
        f: F,
        g: F,
    ) -> (signal: SignalSync)
        requires
            old(graph).wf(),
            old(graph)@.alive(self@),
            functional(f),
            functional(g),
        ensures
            final(graph).wf(),
            final(graph)@ == old(graph)@.promapped(
                self@,
                f,
                g,
                final(graph)@.cells[signal@ as int].value,
            ),
            signal@ == old(graph)@.next(),
            final(graph)@.grown(old(graph)@),
            final(graph)@.cells[signal@ as int].value matches Value::Item(d) && T::default.ensures(
                (),
                d,
            ),
    {
        SignalSync(self.0.promap(&mut graph.graph, f, g))
    }

    /// Combines this cell and `another` into a pair with weak links, as
    /// [`Signal::combine`] does.
    pub fn combine<
        T: Copy + Send + Sync,
        F: Fn(&Value<T>) -> Value<T> + Send + Sync,
        S: LiftableSync,
    >(&self, graph: &mut SignalGraphSync<T, F>, another: S) -> (signal: SignalSync)
        requires
            old(graph).wf(),
            old(graph)@.alive(self@),
            old(graph)@.alive(another.cell()),
        ensures
            final(graph).wf(),
            final(graph)@ == old(graph)@.lifted(seq![self@, another.cell()], false),
            signal@ == old(graph)@.next(),
            final(graph)@.grown(old(graph)@),
            final(graph)@.cells[signal@ as int].value == Value::pair_of(
                old(graph)@.cells[self@ as int].value,
                old(graph)@.cells[another.cell() as int].value,
            ),
    {
        self.combine_ref(graph, another, false)
    }

    /// Combines this cell and `another` into a pair with strong links, as
    /// [`Signal::and`] does.
    pub fn and<
        T: Copy + Send + Sync,
        F: Fn(&Value<T>) -> Value<T> + Send + Sync,
        S: LiftableSync,
    >(&self, graph: &mut SignalGraphSync<T, F>, another: S) -> (signal: SignalSync)
        requires
            old(graph).wf(),
            old(graph)@.alive(self@),
            old(graph)@.alive(another.cell()),
        ensures
            final(graph).wf(),
            final(graph)@ == old(graph)@.lifted(seq![self@, another.cell()], true),
            signal@ == old(graph)@.next(),
            final(graph)@.grown(old(graph)@),
            final(graph)@.cells[signal@ as int].value == Value::pair_of(
                old(graph)@.cells[self@ as int].value,
                old(graph)@.cells[another.cell() as int].value,
            ),
    {
        self.combine_ref(graph, another, true)
    }

    /// Combines two cells into a pair, with weak or strong links.
    pub(crate) fn combine_ref<
        T: Copy + Send + Sync,
        F: Fn(&Value<T>) -> Value<T> + Send + Sync,
        S: LiftableSync,
    >(&self, graph: &mut SignalGraphSync<T, F>, another: S, strong: bool) -> (signal: SignalSync)
        requires
            old(graph).wf(),
            old(graph)@.alive(self@),
            old(graph)@.alive(another.cell()),
        ensures
            final(graph).wf(),
            final(graph)@ == old(graph)@.lifted(seq![self@, another.cell()], strong),
            signal@ == old(graph)@.next(),
            final(graph)@.grown(old(graph)@),
            final(graph)@.cells[signal@ as int].value == Value::pair_of(
                old(graph)@.cells[self@ as int].value,
                old(graph)@.cells[another.cell() as int].value,
            ),
    {
        SignalSync(self.0.combine_ref(&mut graph.graph, &another.as_ref().0, strong))
    }

    /// Lifts this cell and `others` into a sequence with weak links, as
    /// [`Signal::extend`] does.
    pub fn extend<
        T: Copy + Send + Sync,
        F: Fn(&Value<T>) -> Value<T> + Send + Sync,
        S: LiftableSync,
    >(&self, graph: &mut SignalGraphSync<T, F>, others: Vec<S>) -> (signal: SignalSync)
        requires
            old(graph).wf(),
            old(graph)@.alive(self@),
            forall|i: int|
                0 <= i < others@.len() ==> old(graph)@.alive((#[trigger] others@[i]).cell()),
        ensures
            final(graph).wf(),
            final(graph)@ == old(graph)@.lifted(seq![self@] + cells_of_sync(others@), false),
            signal@ == old(graph)@.next(),
            final(graph)@.grown(old(graph)@),
    {
        self.extend_ref(graph, others, false)
    }

    /// Lifts this cell and `others` into a sequence with strong links, as
    /// [`Signal::follow`] does.
    pub fn follow<
        T: Copy + Send + Sync,
        F: Fn(&Value<T>) -> Value<T> + Send + Sync,
        S: LiftableSync,
    >(&self, graph: &mut SignalGraphSync<T, F>, others: Vec<S>) -> (signal: SignalSync)
        requires
            old(graph).wf(),
            old(graph)@.alive(self@),
            forall|i: int|
                0 <= i < others@.len() ==> old(graph)@.alive((#[trigger] others@[i]).cell()),
        ensures
            final(graph).wf(),
            final(graph)@ == old(graph)@.lifted(seq![self@] + cells_of_sync(others@), true),
            signal@ == old(graph)@.next(),
            final(graph)@.grown(old(graph)@),
    {
        self.extend_ref(graph, others, true)
    }

    /// Lifts this cell and `others` into a sequence, with weak or strong
    /// links.
    pub(crate) fn extend_ref<
        T: Copy + Send + Sync,
        F: Fn(&Value<T>) -> Value<T> + Send + Sync,
        S: LiftableSync,
    >(&self, graph: &mut SignalGraphSync<T, F>, others: Vec<S>, strong: bool) -> (signal:
        SignalSync)
        requires
            old(graph).wf(),
            old(graph)@.alive(self@),
            forall|i: int|
                0 <= i < others@.len() ==> old(graph)@.alive((#[trigger] others@[i]).cell()),
        ensures
            final(graph).wf(),
            final(graph)@ == old(graph)@.lifted(seq![self@] + cells_of_sync(others@), strong),
            signal@ == old(graph)@.next(),
            final(graph)@.grown(old(graph)@),
    {
        let mut sources: Vec<usize> = Vec::new();
        sources.push(self.id());
        let n = others.len();
        let mut i: usize = 0;
        assert(sources@ =~= seq![self@] + cells_of_sync(others@.take(0)));
        while i < n
            invariant
                n == others@.len(),
                i <= n,
                sources@ == seq![self@] + cells_of_sync(others@.take(i as int)),
            decreases n - i,
        {
            sources.push(others[i].as_ref().id());
            assert(sources@ =~= seq![self@] + cells_of_sync(others@.take(i as int + 1)));
            i += 1;
        }
        assert(others@.take(n as int) =~= others@);
        assert forall|j: int| 0 <= j < sources@.len() implies graph@.alive(
            #[trigger] sources@[j],
        ) by {
            if j > 0 {
                assert(graph@.alive(others@[j - 1].cell()));
            }
        }
        let new = graph.graph.lift_ids(&sources, strong);
        SignalSync(Signal::of(new))
    }

    /// Lifts the cells of `items` into a sequence with weak links, as
    /// [`Signal::lift_from_array`] does.
    pub fn lift_from_array<
        T: Copy + Send + Sync,
        F: Fn(&Value<T>) -> Value<T> + Send + Sync,
        S: LiftableSync,
        const N: usize,
    >(graph: &mut SignalGraphSync<T, F>, items: [S; N]) -> (signal: SignalSync)
        requires
            old(graph).wf(),
            forall|i: int| 0 <= i < N ==> old(graph)@.alive((#[trigger] items@[i]).cell()),
        ensures
            final(graph).wf(),
            final(graph)@ == old(graph)@.lifted(cells_of_sync(items@), false),
            signal@ == old(graph)@.next(),
            final(graph)@.grown(old(graph)@),
    {
        let mut sources: Vec<usize> = Vec::new();
        let mut i: usize = 0;
        assert(sources@ =~= cells_of_sync(items@.take(0)));
        while i < N
            invariant
                i <= N,
                items@.len() == N,
                sources@ == cells_of_sync(items@.take(i as int)),
            decreases N - i,
        {
            sources.push(items[i].as_ref().id());
            assert(sources@ =~= cells_of_sync(items@.take(i as int + 1)));
            i += 1;
        }
        assert(items@.take(N as int) =~= items@);
        assert forall|j: int| 0 <= j < sources@.len() implies graph@.alive(
            #[trigger] sources@[j],
        ) by {
            assert(graph@.alive(items@[j].cell()));
        }
        let new = graph.graph.lift_ids(&sources, false);
        SignalSync(Signal::of(new))
    }

    /// Makes this cell take over the value of `dependency` whenever that
    /// fires, as [`Signal::depend`] does. Returns `dependency`.
    pub fn depend<T: Send + Sync, F: Fn(&Value<T>) -> Value<T> + Send + Sync>(
        &self,
        graph: &mut SignalGraphSync<T, F>,
        dependency: SignalSync,
    ) -> (signal: SignalSync)
        requires
            old(graph).wf(),
            old(graph)@.alive(self@),
            old(graph)@.alive(dependency@),
            !reaches(old(graph)@.forward(), self@, dependency@),
        ensures
            final(graph).wf(),
            final(graph)@ == old(graph)@.depending(self@, dependency@),
            signal@ == dependency@,
            final(graph)@.cells.len() == old(graph)@.cells.len(),
            final(graph)@.keeps(old(graph)@),
    {
        SignalSync(self.0.depend(&mut graph.graph, dependency.0))
    }
}

} // verus!
