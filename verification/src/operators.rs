//! The operators that write a cell or derive one cell from others.
//!
//! Each operator is stated as a function on the model: the graph after the
//! call is that function of the graph before it.
use vstd::prelude::*;
use crate::api::Liftable;
use crate::graph::{apply, functional, Cell, Graph, Reaction};
use crate::signal::{Signal, SignalGraph, SignalGuard, SignalGuardInner, WeakSignalRef};
use crate::value::Value;
use crate::walk::{descend, descend_from, lemma_sink_reaches_itself_only, reaches};

verus! {

impl<T, F: Fn(&Value<T>) -> Value<T>> Graph<T, F> {
    /// The name that the next new cell gets.
    pub open spec fn next(self) -> usize {
        self.cells.len() as usize
    }

    /// The graph with cell `id` kept by a strong link, where `strong` is set.
    pub open spec fn pin_if(self, strong: bool, id: usize) -> Graph<T, F> {
        if strong {
            self.with_pin(id)
        } else {
            self
        }
    }

    /// The graph with reaction `r` attached to `source` and a successor
    /// link from `source` to the cell that `r` writes.
    pub open spec fn derived(self, source: usize, r: Reaction<F>) -> Graph<T, F> {
        self.with_reaction(source, r).with_successor(source, r.target())
    }

    /// The graph after `value` was written directly to cell `id`.
    pub open spec fn written(self, id: usize, value: Value<T>) -> Graph<T, F> {
        self.with_value(id, value).with_flag(id, true)
    }

    /// The graph after `value` was sent to cell `id`: the value is written,
    /// and every cell that the write reaches is marked.
    pub open spec fn sent(self, id: usize, value: Value<T>) -> Graph<T, F> {
        self.written(id, value).marked(self.walk(id))
    }

    /// The graph after a cell was derived from `source` by `func`.
    pub open spec fn mapped(self, source: usize, func: F, strong: bool) -> Graph<T, F> {
        let new = self.next();
        self.with_new(apply(func, self.cells[source as int].value)).derived(
            source,
            Reaction::Forward { target: new, func },
        ).pin_if(strong, source).pin_if(strong, new)
    }

    /// The graph after a cell that starts at `initial` was set to write
    /// back to `source` by `func`.
    pub open spec fn comapped(self, source: usize, func: F, initial: Value<T>) -> Graph<T, F> {
        let new = self.next();
        self.with_new(initial).with_predecessor(new, source).with_reaction(
            new,
            Reaction::Backward { target: source, func },
        )
    }

    /// The graph after a cell that starts at `initial` was linked to
    /// `source` in both directions: forward by `func`, back by `back`.
    pub open spec fn promapped(self, source: usize, func: F, back: F, initial: Value<T>) -> Graph<
        T,
        F,
    > {
        let new = self.next();
        self.with_new(initial).derived(
            source,
            Reaction::Forward { target: new, func },
        ).with_predecessor(new, source).with_reaction(
            new,
            Reaction::Backward { target: source, func: back },
        )
    }

    /// The values of the cells `sources`, in order.
    pub open spec fn values(self, sources: Seq<usize>) -> Seq<Value<T>> {
        Seq::new(sources.len(), |i: int| self.cells[sources[i] as int].value)
    }

    /// The graph after the first `n` of `sources` were wired to the slots
    /// of `target`: source `i` to slot `i`.
    pub open spec fn wired(self, target: usize, sources: Seq<usize>, n: nat, strong: bool) -> Graph<
        T,
        F,
    >
        decreases n,
    {
        if n == 0 {
            self
        } else {
            self.wired(target, sources, (n - 1) as nat, strong).derived(
                sources[n - 1],
                Reaction::Slot { target, index: (n - 1) as usize },
            ).pin_if(strong, sources[n - 1])
        }
    }

    /// The graph after `sources` were lifted into one cell: the new cell
    /// holds the tuple of their values, and each source is wired to its
    /// slot.
    pub open spec fn lifted(self, sources: Seq<usize>, strong: bool) -> Graph<T, F> {
        let new = self.next();
        self.with_new(Value::tuple(self.values(sources))).pin_if(strong, new).wired(
            new,
            sources,
            sources.len(),
            strong,
        )
    }

    /// The graph after `target` was made to take over the value of
    /// `dependency` whenever that changes.
    pub open spec fn depending(self, target: usize, dependency: usize) -> Graph<T, F> {
        self.derived(dependency, Reaction::Whole { target })
    }

    /// The graph after one handle of cell `id` was given up.
    pub open spec fn unheld(self, id: usize) -> Graph<T, F> {
        self.with_handles(id, self.cells[id as int].handles - 1).settle(id)
    }

    /// The graph after one more handle of cell `id` was made.
    pub open spec fn held(self, id: usize) -> Graph<T, F> {
        self.with_handles(id, self.cells[id as int].handles + 1)
    }

    /// Every cell of `before` is in `self` with the value, the counts and
    /// the mark of a direct write that it had, and is kept if it was. So
    /// every cell that lived in `before` lives in `self`.
    pub open spec fn keeps(self, before: Graph<T, F>) -> bool {
        &&& before.cells.len() <= self.cells.len()
        &&& forall|c: int|
            0 <= c < before.cells.len() ==> {
                let now = #[trigger] self.cells[c];
                let was = before.cells[c];
                &&& now.value == was.value
                &&& now.dirty == was.dirty
                &&& now.handles == was.handles
                &&& now.explicitly_modified == was.explicitly_modified
                &&& was.pinned ==> now.pinned
            }
    }

    /// `self` is `before` with one more cell, which lives.
    pub open spec fn grown(self, before: Graph<T, F>) -> bool {
        &&& self.cells.len() == before.cells.len() + 1
        &&& self.alive(before.next())
        &&& self.keeps(before)
    }

    /// What deriving a cell by a function makes of the graph, cell by cell.
    pub proof fn lemma_mapped(self, source: usize, func: F, strong: bool)
        requires
            source < self.cells.len(),
            self.cells.len() < usize::MAX,
        ensures
            self.mapped(source, func, strong).cells.len() == self.cells.len() + 1,
            self.mapped(source, func, strong).cells[self.next() as int] == (Cell {
                pinned: strong,
                ..Cell::<T, F>::fresh(apply(func, self.cells[source as int].value))
            }),
            self.mapped(source, func, strong).cells[source as int] == (Cell {
                react_fns: self.cells[source as int].react_fns.push(
                    Reaction::Forward { target: self.next(), func },
                ),
                successors: self.cells[source as int].successors.push(self.next()),
                pinned: self.cells[source as int].pinned || strong,
                ..self.cells[source as int]
            }),
            forall|c: int|
                0 <= c < self.cells.len() && c != source ==> (#[trigger] self.mapped(
                    source,
                    func,
                    strong,
                ).cells[c]) == self.cells[c],
    {
    }

    /// What deriving a cell that writes back makes of the graph, cell by
    /// cell.
    pub proof fn lemma_comapped(self, source: usize, func: F, initial: Value<T>)
        requires
            source < self.cells.len(),
            self.cells.len() < usize::MAX,
        ensures
            self.comapped(source, func, initial).cells.len() == self.cells.len() + 1,
            self.comapped(source, func, initial).cells[self.next() as int] == (Cell {
                react_fns: seq![Reaction::Backward { target: source, func }],
                predecessors: seq![source],
                ..Cell::<T, F>::fresh(initial)
            }),
            forall|c: int|
                0 <= c < self.cells.len() ==> (#[trigger] self.comapped(
                    source,
                    func,
                    initial,
                ).cells[c]) == self.cells[c],
    {
        let h = self.comapped(source, func, initial);
        assert(h.cells[self.next() as int].react_fns =~= seq![
            Reaction::Backward { target: source, func },
        ]);
        assert(h.cells[self.next() as int].predecessors =~= seq![source]);
    }

    /// What linking a new cell in both directions makes of the graph, cell
    /// by cell.
    pub proof fn lemma_promapped(self, source: usize, func: F, back: F, initial: Value<T>)
        requires
            source < self.cells.len(),
            self.cells.len() < usize::MAX,
        ensures
            self.promapped(source, func, back, initial).cells.len() == self.cells.len() + 1,
            self.promapped(source, func, back, initial).cells[self.next() as int] == (Cell {
                react_fns: seq![Reaction::Backward { target: source, func: back }],
                predecessors: seq![source],
                ..Cell::<T, F>::fresh(initial)
            }),
            self.promapped(source, func, back, initial).cells[source as int] == (Cell {
                react_fns: self.cells[source as int].react_fns.push(
                    Reaction::Forward { target: self.next(), func },
                ),
                successors: self.cells[source as int].successors.push(self.next()),
                ..self.cells[source as int]
            }),
            forall|c: int|
                0 <= c < self.cells.len() && c != source ==> (#[trigger] self.promapped(
                    source,
                    func,
                    back,
                    initial,
                ).cells[c]) == self.cells[c],
    {
        let h = self.promapped(source, func, back, initial);
        assert(h.cells[self.next() as int].react_fns =~= seq![
            Reaction::Backward { target: source, func: back },
        ]);
        assert(h.cells[self.next() as int].predecessors =~= seq![source]);
    }

    /// What a dependency makes of the graph, cell by cell.
    pub proof fn lemma_depending(self, target: usize, dependency: usize)
        requires
            dependency < self.cells.len(),
        ensures
            self.depending(target, dependency).cells.len() == self.cells.len(),
            self.depending(target, dependency).cells[dependency as int] == (Cell {
                react_fns: self.cells[dependency as int].react_fns.push(
                    Reaction::Whole { target },
                ),
                successors: self.cells[dependency as int].successors.push(target),
                ..self.cells[dependency as int]
            }),
            forall|c: int|
                0 <= c < self.cells.len() && c != dependency ==> (#[trigger] self.depending(
                    target,
                    dependency,
                ).cells[c]) == self.cells[c],
    {
    }

    /// What wiring the first `n` of `sources` to `target` makes of the
    /// graph, cell by cell.
    pub proof fn lemma_wired(self, target: usize, sources: Seq<usize>, n: nat, strong: bool)
        requires
            n <= sources.len(),
            self.cells.len() <= usize::MAX,
            forall|i: int| 0 <= i < sources.len() ==> (#[trigger] sources[i]) < self.cells.len(),
        ensures
            self.wired(target, sources, n, strong).cells.len() == self.cells.len(),
            forall|c: int|
                0 <= c < self.cells.len() ==> {
                    let now = #[trigger] self.wired(target, sources, n, strong).cells[c];
                    let was = self.cells[c];
                    &&& now.value == was.value
                    &&& now.dirty == was.dirty
                    &&& now.handles == was.handles
                    &&& now.explicitly_modified == was.explicitly_modified
                    &&& now.predecessors == was.predecessors
                    &&& now.pinned == (was.pinned || (strong && sources.take(n as int).contains(
                        c as usize,
                    )))
                    &&& !sources.take(n as int).contains(c as usize) ==> now == was
                },
            sources.no_duplicates() ==> forall|i: int|
                0 <= i < n ==> {
                    let now = self.wired(target, sources, n, strong).cells[(
                    #[trigger] sources[i]) as int];
                    let was = self.cells[sources[i] as int];
                    &&& now.react_fns == was.react_fns.push(
                        Reaction::Slot { target, index: i as usize },
                    )
                    &&& now.successors == was.successors.push(target)
                },
        decreases n,
    {
        if n > 0 {
            let m = (n - 1) as nat;
            self.lemma_wired(target, sources, m, strong);
            let before = self.wired(target, sources, m, strong);
            let after = self.wired(target, sources, n, strong);
            let source = sources[m as int];
            assert(sources.take(n as int) =~= sources.take(m as int).push(source));
            assert forall|c: int| 0 <= c < self.cells.len() implies {
                let now = #[trigger] after.cells[c];
                let was = self.cells[c];
                &&& now.value == was.value
                &&& now.dirty == was.dirty
                &&& now.handles == was.handles
                &&& now.explicitly_modified == was.explicitly_modified
                &&& now.predecessors == was.predecessors
                &&& now.pinned == (was.pinned || (strong && sources.take(n as int).contains(
                    c as usize,
                )))
                &&& !sources.take(n as int).contains(c as usize) ==> now == was
            } by {
                let mid = before.cells[c];
                if c == source {
                    assert(sources.take(n as int)[m as int] == source);
                } else {
                    assert(after.cells[c] == mid);
                    if sources.take(n as int).contains(c as usize) {
                        let j = choose|j: int|
                            0 <= j < sources.take(n as int).len() && sources.take(n as int)[j]
                                == c as usize;
                        assert(sources.take(n as int)[m as int] == source);
                        assert(j != m);
                        assert(sources.take(m as int)[j] == c as usize);
                    }
                    if sources.take(m as int).contains(c as usize) {
                        let j = choose|j: int|
                            0 <= j < sources.take(m as int).len() && sources.take(m as int)[j]
                                == c as usize;
                        assert(sources.take(n as int)[j] == c as usize);
                    }
                }
            }
            if sources.no_duplicates() {
                assert forall|i: int| 0 <= i < n implies {
                    let now = after.cells[(#[trigger] sources[i]) as int];
                    let was = self.cells[sources[i] as int];
                    &&& now.react_fns == was.react_fns.push(
                        Reaction::Slot { target, index: i as usize },
                    )
                    &&& now.successors == was.successors.push(target)
                } by {
                    if i < m {
                        assert(sources[i] != source);
                        assert(after.cells[sources[i] as int] == before.cells[sources[i] as int]);
                    } else {
                        if sources.take(m as int).contains(source) {
                            let j = choose|j: int|
                                0 <= j < sources.take(m as int).len() && sources.take(m as int)[j]
                                    == source;
                            assert(sources[j] == sources[m as int]);
                        }
                        assert(before.cells[source as int] == self.cells[source as int]);
                    }
                }
            }
        } else {
            assert(sources.take(0) =~= Seq::<usize>::empty());
        }
    }

    /// What lifting cells into one makes of the graph, cell by cell: the new
    /// cell holds the tuple of the values of the sources, and each source
    /// has one more reaction and one more successor for each of its slots.
    pub proof fn lemma_lifted(self, sources: Seq<usize>, strong: bool)
        requires
            self.cells.len() < usize::MAX,
            forall|i: int| 0 <= i < sources.len() ==> (#[trigger] sources[i]) < self.cells.len(),
        ensures
            self.lifted(sources, strong).cells.len() == self.cells.len() + 1,
            self.lifted(sources, strong).cells[self.next() as int] == (Cell {
                pinned: strong,
                ..Cell::<T, F>::fresh(Value::tuple(self.values(sources)))
            }),
            self.lifted(sources, strong).cells[self.next() as int].value.slots() == self.values(
                sources,
            ),
            forall|c: int|
                0 <= c < self.cells.len() ==> {
                    let now = #[trigger] self.lifted(sources, strong).cells[c];
                    let was = self.cells[c];
                    &&& now.value == was.value
                    &&& now.dirty == was.dirty
                    &&& now.handles == was.handles
                    &&& now.explicitly_modified == was.explicitly_modified
                    &&& now.predecessors == was.predecessors
                    &&& now.pinned == (was.pinned || (strong && sources.contains(c as usize)))
                    &&& !sources.contains(c as usize) ==> now == was
                },
            sources.no_duplicates() ==> forall|i: int|
                0 <= i < sources.len() ==> {
                    let now = self.lifted(sources, strong).cells[(#[trigger] sources[i]) as int];
                    let was = self.cells[sources[i] as int];
                    &&& now.react_fns == was.react_fns.push(
                        Reaction::Slot { target: self.next(), index: i as usize },
                    )
                    &&& now.successors == was.successors.push(self.next())
                },
    {
        let new = self.next();
        let base = self.with_new(Value::tuple(self.values(sources))).pin_if(strong, new);
        base.lemma_wired(new, sources, sources.len(), strong);
        assert(sources.take(sources.len() as int) =~= sources);
        Value::lemma_tuple_slots(self.values(sources));
        let made = self.lifted(sources, strong);
        assert(!sources.contains(new)) by {
            if sources.contains(new) {
                let j = choose|j: int| 0 <= j < sources.len() && sources[j] == new;
                assert(sources[j] < self.cells.len());
            }
        }
        assert(made.cells[new as int] == base.cells[new as int]);
        assert forall|c: int| 0 <= c < self.cells.len() implies {
            let now = #[trigger] made.cells[c];
            let was = self.cells[c];
            &&& now.value == was.value
            &&& now.dirty == was.dirty
            &&& now.handles == was.handles
            &&& now.explicitly_modified == was.explicitly_modified
            &&& now.predecessors == was.predecessors
            &&& now.pinned == (was.pinned || (strong && sources.contains(c as usize)))
            &&& !sources.contains(c as usize) ==> now == was
        } by {
            assert(base.cells[c] == self.cells[c]);
        }
        if sources.no_duplicates() {
            assert forall|i: int| 0 <= i < sources.len() implies {
                let now = made.cells[(#[trigger] sources[i]) as int];
                let was = self.cells[sources[i] as int];
                &&& now.react_fns == was.react_fns.push(
                    Reaction::Slot { target: new, index: i as usize },
                )
                &&& now.successors == was.successors.push(new)
            } by {
                assert(base.cells[sources[i] as int] == self.cells[sources[i] as int]);
            }
        }
    }

    /// A direct write changes no link and no count.
    pub proof fn lemma_written_shape(self, id: usize, value: Value<T>)
        requires
            id < self.cells.len(),
        ensures
            self.written(id, value).forward() == self.forward(),
            self.written(id, value).backward() == self.backward(),
            self.written(id, value).walk(id) == self.walk(id),
            self.room(self.walk(id)) ==> self.written(id, value).room(self.walk(id)),
    {
        assert(self.written(id, value).forward() =~= self.forward());
        assert(self.written(id, value).backward() =~= self.backward());
    }
}

impl<T, F: Fn(&Value<T>) -> Value<T>> SignalGraph<T, F> {
    /// Attaches `r` to the live cell `source` and links `source` to the
    /// cell that `r` writes.
    pub(crate) fn derive(&mut self, source: usize, r: Reaction<F>)
        requires
            old(self).wf(),
            old(self)@.alive(source),
            old(self)@.alive(r.target()),
            old(self)@.reaction_wf(source as int, r),
            !reaches(old(self)@.forward(), r.target(), source),
        ensures
            final(self).wf(),
            final(self)@ == old(self)@.derived(source, r),
    {
        let target = match &r {
            Reaction::Forward { target, .. } => *target,
            Reaction::Backward { target, .. } => *target,
            Reaction::Slot { target, .. } => *target,
            Reaction::Whole { target } => *target,
        };
        let ghost g0 = self@;
        self.attach(source, r);
        proof {
            assert(self@.forward() =~= g0.forward());
        }
        self.link_successor(source, target);
    }

    /// Lifts the live cells `sources` into one new cell, which holds the
    /// tuple of their values; source `i` is wired to slot `i`. Returns the
    /// name of the new cell.
    pub(crate) fn lift_ids(&mut self, sources: &Vec<usize>, strong: bool) -> (new: usize) where
        T: Copy,

        requires
            old(self).wf(),
            forall|i: int| 0 <= i < sources@.len() ==> old(self)@.alive(#[trigger] sources@[i]),
        ensures
            final(self).wf(),
            final(self)@ == old(self)@.lifted(sources@, strong),
            new == old(self)@.next(),
            final(self)@.grown(old(self)@),
    {
        let ghost g0 = self@;
        let n = sources.len();
        let mut values: Vec<Value<T>> = Vec::new();
        let mut i: usize = 0;
        while i < n
            invariant
                self@ == g0,
                n == sources@.len(),
                i <= n,
                forall|j: int| 0 <= j < sources@.len() ==> g0.alive(#[trigger] sources@[j]),
                values@.len() == i,
                forall|j: int|
                    0 <= j < i ==> values@[j] == g0.cells[sources@[j] as int].value,
            decreases n - i,
        {
            assert(g0.alive(sources@[i as int]));
            values.push(self.value_of(sources[i]).duplicate());
            i += 1;
        }
        assert(values@ =~= g0.values(sources@));
        proof {
            self.lemma_wf();
        }
        let new = self.push_cell(Value::from_vec(values));
        self.pin_if(strong, new);
        let ghost g1 = self@;
        let mut i: usize = 0;
        while i < n
            invariant
                self.wf(),
                n == sources@.len(),
                i <= n,
                new == g0.next(),
                new < self@.cells.len(),
                self@.cells.len() == g0.cells.len() + 1,
                self@.alive(new),
                self@.cells[new as int].successors.len() == 0,
                forall|j: int|
                    0 <= j < sources@.len() ==> (#[trigger] sources@[j]) < new && self@.alive(
                        sources@[j],
                    ),
                self@ == g1.wired(new, sources@, i as nat, strong),
            decreases n - i,
        {
            let source = sources[i];
            let ghost before = self@;
            proof {
                self.lemma_wf();
                assert(sources@[i as int] < new && self@.alive(sources@[i as int]));
                if reaches(self@.forward(), new, source) {
                    lemma_sink_reaches_itself_only(self@.forward(), new, source);
                }
            }
            self.derive(source, Reaction::Slot { target: new, index: i });
            self.pin_if(strong, source);
            proof {
                assert forall|j: int| 0 <= j < sources@.len() implies (#[trigger] sources@[j])
                    < new && self@.alive(sources@[j]) by {
                    assert(before.alive(sources@[j]));
                }
            }
            i += 1;
        }
        proof {
            self.lemma_wf();
            g0.lemma_lifted(sources@, strong);
        }
        new
    }

    /// Whether successor links lead from the cell `from` to the cell `to`.
    pub(crate) fn leads_to(&mut self, from: usize, to: usize, Ghost(rank): Ghost<Seq<nat>>) -> (found:
        bool)
        requires
            old(self).wf(),
            from < old(self)@.cells.len(),
            crate::walk::is_ranking(old(self)@.forward(), rank),
        ensures
            final(self).wf(),
            final(self)@ == old(self)@,
            found == reaches(old(self)@.forward(), from, to),
        decreases rank[from as int],
    {
        let ghost links = self@.forward();
        proof {
            crate::walk::lemma_reaches_unfold(links, from, to);
        }
        if from == to {
            return true;
        }
        let children = self.live_links(from, true);
        let mut k: usize = 0;
        while k < children.len()
            invariant
                self.wf(),
                self@ == old(self)@,
                links == self@.forward(),
                from < self@.cells.len(),
                crate::walk::is_ranking(links, rank),
                children@ == links[from as int],
                k <= children.len(),
                forall|j: int| 0 <= j < k ==> !reaches(links, #[trigger] links[from as int][j], to),
            decreases children.len() - k,
        {
            assert(links[from as int][k as int] == children[k as int]);
            let found = self.leads_to(children[k], to, Ghost(rank));
            if found {
                proof {
                    crate::walk::lemma_reaches_unfold(links, from, to);
                    assert(reaches(links, links[from as int][k as int], to));
                }
                return true;
            }
            k += 1;
        }
        proof {
            crate::walk::lemma_reaches_unfold(links, from, to);
        }
        false
    }

    /// Keeps the live cell `id` by a strong link, where `strong` is set.
    pub(crate) fn pin_if(&mut self, strong: bool, id: usize)
        requires
            old(self).wf(),
            old(self)@.alive(id),
        ensures
            final(self).wf(),
            final(self)@ == old(self)@.pin_if(strong, id),
    {
        if strong {
            self.pin(id);
        }
    }
}

impl Signal {
    /// Creates a cell that holds `initial`, and returns the handle to it.
    pub fn new<T, F: Fn(&Value<T>) -> Value<T>>(graph: &mut SignalGraph<T, F>, initial: Value<T>) -> (signal:
        Signal)
        requires
            old(graph).wf(),
        ensures
            final(graph).wf(),
            final(graph)@ == old(graph)@.with_new(initial),
            signal@ == old(graph)@.next(),
            final(graph)@.grown(old(graph)@),
    {
        proof {
            graph.lemma_wf();
        }
        let id = graph.push_cell(initial);
        proof {
            graph.lemma_wf();
        }
        Signal::of(id)
    }

    /// Replaces the value of the cell by `f` of it. A direct write: see
    /// [`Signal::send`].
    pub(crate) fn modify<T, F: Fn(&Value<T>) -> Value<T>, M: FnOnce(&Value<T>) -> Value<T>>(
        &self,
        graph: &mut SignalGraph<T, F>,
        f: M,
    )
        requires
            old(graph).wf(),
            old(graph)@.alive(self@),
            call_requires(f, (&old(graph)@.cells[self@ as int].value,)),
        ensures
            final(graph).wf(),
            final(graph)@ == old(graph)@.with_value(
                self@,
                final(graph)@.cells[self@ as int].value,
            ),
            call_ensures(
                f,
                (&old(graph)@.cells[self@ as int].value,),
                final(graph)@.cells[self@ as int].value,
            ),
    {
        let mut value = f(graph.value_of(self.id()));
        graph.swap_value(self.id(), &mut value);
    }

    /// The guard of a write to the cell: one token for every visit.
    pub(crate) fn guard<T, F: Fn(&Value<T>) -> Value<T>>(&self, graph: &mut SignalGraph<T, F>) -> (guard:
        SignalGuard)
        requires
            old(graph).wf(),
            old(graph)@.alive(self@),
            old(graph)@.room(old(graph)@.walk(self@)),
        ensures
            final(graph).wf(),
            final(graph)@ == old(graph)@.marked(old(graph)@.walk(self@)),
            guard@ == old(graph)@.walk(self@),
            final(graph).pruned_along(descend(old(graph)@.forward(), self@), true),
            final(graph).pruned_along(
                seq![self@] + descend_from(old(graph)@.backward(), self@, 0),
                false,
            ),
    {
        let mut result: Vec<SignalGuardInner> = Vec::new();
        proof {
            crate::signal::lemma_token_add(result@, Seq::empty());
        }
        graph.collect_guards(self.id(), &mut result);
        assert(Seq::<usize>::empty() + graph@.walk(self@) =~= graph@.walk(self@));
        proof {
            old(graph)@.lemma_marked_shape(old(graph)@.walk(self@));
        }
        assert(Seq::<usize>::empty() + old(graph)@.walk(self@) =~= old(graph)@.walk(self@));
        proof {
            let up = descend_from(old(graph)@.backward(), self@, 0);
            let back = seq![self@] + up;
            assert forall|i: int| 0 <= i < back.len() implies graph.pruned(
                #[trigger] back[i],
                false,
            ) by {
                if i > 0 {
                    assert(back[i] == up[i - 1]);
                }
            }
        }
        SignalGuard::of(result)
    }

    /// Sends `new_value` to the cell: the value is replaced, the cell counts
    /// as written directly, and every cell that the write reaches gets one
    /// pending visit for each path. The guard returned holds the visits;
    /// nothing reacts before it is released.
    pub fn send<T, F: Fn(&Value<T>) -> Value<T>>(
        &self,
        graph: &mut SignalGraph<T, F>,
        new_value: Value<T>,
    ) -> (guard: SignalGuard)
        requires
            old(graph).wf(),
            old(graph)@.alive(self@),
            old(graph)@.room(old(graph)@.walk(self@)),
        ensures
            final(graph).wf(),
            final(graph)@ == old(graph)@.sent(self@, new_value),
            guard@ == old(graph)@.walk(self@),
            final(graph)@.covers(guard@),
            final(graph).pruned_along(descend(old(graph)@.forward(), self@), true),
            final(graph).pruned_along(
                seq![self@] + descend_from(old(graph)@.backward(), self@, 0),
                false,
            ),
    {
        let ghost g0 = graph@;
        proof {
            graph.lemma_wf();
        }
        let mut value = new_value;
        graph.swap_value(self.id(), &mut value);
        graph.set_flag(self.id(), true);
        proof {
            g0.lemma_written_shape(self@, new_value);
        }
        let guard = self.guard(graph);
        proof {
            graph.lemma_wf();
            g0.lemma_walk_range(self@);
            assert forall|c: int| 0 <= c < g0.cells.len() implies (#[trigger] g0.written(
                self@,
                new_value,
            ).cells[c]).dirty >= 0 by {
                assert(g0.cell_wf(c));
            }
            g0.written(self@, new_value).lemma_marked_covers(g0.walk(self@));
        }
        guard
    }

    /// Sends `new_value` to the cell as [`Signal::send`] does, where the
    /// cell lives and the counters have room for the visits of the write.
    /// Otherwise the graph stays as it is, and `new_value` comes back.
    pub fn try_send<T, F: Fn(&Value<T>) -> Value<T>>(
        &self,
        graph: &mut SignalGraph<T, F>,
        new_value: Value<T>,
    ) -> (sent: Result<SignalGuard, Value<T>>)
        requires
            old(graph).wf(),
        ensures
            final(graph).wf(),
            sent is Ok == (old(graph)@.alive(self@) && old(graph)@.room(old(graph)@.walk(self@))),
            sent matches Ok(guard) ==> final(graph)@ == old(graph)@.sent(self@, new_value)
                && guard@ == old(graph)@.walk(self@) && final(graph)@.covers(guard@),
            sent matches Err(value) ==> value == new_value && final(graph)@ == old(graph)@,
    {
        if !graph.is_alive(self.id()) {
            return Err(new_value);
        }
        if !graph.has_room(self.id()) {
            return Err(new_value);
        }
        Ok(self.send(graph, new_value))
    }

    /// Sends a change to the cell: the value is replaced by `f` of it, the
    /// cell counts as written directly, and the cells that the write reaches
    /// are marked as by [`Signal::send`].
    pub fn send_with<T, F: Fn(&Value<T>) -> Value<T>, M: FnOnce(&Value<T>) -> Value<T>>(
        &self,
        graph: &mut SignalGraph<T, F>,
        f: M,
    ) -> (guard: SignalGuard)
        requires
            old(graph).wf(),
            old(graph)@.alive(self@),
            old(graph)@.room(old(graph)@.walk(self@)),
            call_requires(f, (&old(graph)@.cells[self@ as int].value,)),
        ensures
            final(graph).wf(),
            final(graph)@ == old(graph)@.sent(self@, final(graph)@.cells[self@ as int].value),
            call_ensures(
                f,
                (&old(graph)@.cells[self@ as int].value,),
                final(graph)@.cells[self@ as int].value,
            ),
            guard@ == old(graph)@.walk(self@),
            final(graph)@.covers(guard@),
            final(graph).pruned_along(descend(old(graph)@.forward(), self@), true),
            final(graph).pruned_along(
                seq![self@] + descend_from(old(graph)@.backward(), self@, 0),
                false,
            ),
    {
        let ghost g0 = graph@;
        proof {
            graph.lemma_wf();
        }
        self.modify(graph, f);
        let ghost value = graph@.cells[self@ as int].value;
        graph.set_flag(self.id(), true);
        proof {
            g0.lemma_written_shape(self@, value);
        }
        let guard = self.guard(graph);
        proof {
            g0.lemma_walk_range(self@);
            assert forall|c: int| 0 <= c < g0.cells.len() implies (#[trigger] g0.written(
                self@,
                value,
            ).cells[c]).dirty >= 0 by {
                assert(g0.cell_wf(c));
            }
            g0.written(self@, value).lemma_marked_covers(g0.walk(self@));
        }
        guard
    }

    /// Sends a change to the cell as [`Signal::send_with`] does, where the
    /// cell lives and the counters have room for the visits of the write.
    /// Otherwise the graph stays as it is, `f` is not called and comes
    /// back.
    pub fn try_send_with<T, F: Fn(&Value<T>) -> Value<T>, M: FnOnce(&Value<T>) -> Value<T>>(
        &self,
        graph: &mut SignalGraph<T, F>,
        f: M,
    ) -> (sent: Result<SignalGuard, M>)
        requires
            old(graph).wf(),
            old(graph)@.alive(self@) ==> call_requires(
                f,
                (&old(graph)@.cells[self@ as int].value,),
            ),
        ensures
            final(graph).wf(),
            sent is Ok == (old(graph)@.alive(self@) && old(graph)@.room(old(graph)@.walk(self@))),
            sent matches Ok(guard) ==> {
                &&& final(graph)@ == old(graph)@.sent(
                    self@,
                    final(graph)@.cells[self@ as int].value,
                )
                &&& call_ensures(
                    f,
                    (&old(graph)@.cells[self@ as int].value,),
                    final(graph)@.cells[self@ as int].value,
                )
                &&& guard@ == old(graph)@.walk(self@)
                &&& final(graph)@.covers(guard@)
            },
            sent matches Err(unused) ==> unused == f && final(graph)@ == old(graph)@,
    {
        if !graph.is_alive(self.id()) {
            return Err(f);
        }
        if !graph.has_room(self.id()) {
            return Err(f);
        }
        Ok(self.send_with(graph, f))
    }

    /// Makes this handle name the cell of `signal`. The handle that it was
    /// is given up: the cell that it named is reclaimed if nothing else holds
    /// it.
    pub fn set<T, F: Fn(&Value<T>) -> Value<T>>(
        &mut self,
        graph: &mut SignalGraph<T, F>,
        signal: Signal,
    )
        requires
            old(graph).wf(),
            old(self)@ < old(graph)@.cells.len(),
            old(graph)@.cells[old(self)@ as int].handles >= 1,
        ensures
            final(graph).wf(),
            final(graph)@ == old(graph)@.unheld(old(self)@),
            final(self)@ == signal@,
    {
        graph.let_go(self.id(), false);
        self.rebind(signal.id());
    }

    /// One more handle to the cell.
    pub fn clone<T, F: Fn(&Value<T>) -> Value<T>>(&self, graph: &mut SignalGraph<T, F>) -> (signal:
        Signal)
        requires
            old(graph).wf(),
            old(graph)@.alive(self@),
            old(graph)@.cells[self@ as int].handles < usize::MAX,
        ensures
            final(graph).wf(),
            final(graph)@ == old(graph)@.held(self@),
            signal@ == self@,
    {
        graph.hold(self.id());
        Signal::of(self.id())
    }

    /// One more handle to the cell, where the cell lives and the count of
    /// its handles has room. Otherwise the graph stays as it is.
    pub fn try_clone<T, F: Fn(&Value<T>) -> Value<T>>(&self, graph: &mut SignalGraph<T, F>) -> (signal:
        Option<Signal>)
        requires
            old(graph).wf(),
        ensures
            final(graph).wf(),
            signal is Some == (old(graph)@.alive(self@) && old(graph)@.cells[self@ as int].handles
                < usize::MAX),
            signal matches Some(s) ==> s@ == self@ && final(graph)@ == old(graph)@.held(self@),
            signal is None ==> final(graph)@ == old(graph)@,
    {
        if graph.is_alive(self.id()) && graph.handles_of(self.id()) < usize::MAX {
            Some(self.clone(graph))
        } else {
            None
        }
    }

    /// Gives the handle up. The cell is reclaimed if nothing else holds it:
    /// no other handle, no pending visit, no strong link.
    pub fn drop<T, F: Fn(&Value<T>) -> Value<T>>(self, graph: &mut SignalGraph<T, F>)
        requires
            old(graph).wf(),
            self@ < old(graph)@.cells.len(),
            old(graph)@.cells[self@ as int].handles >= 1,
        ensures
            final(graph).wf(),
            final(graph)@ == old(graph)@.unheld(self@),
    {
        graph.let_go(self.id(), false);
    }

    /// Derives a cell that holds `f` of this cell's value and follows it:
    /// when this cell fires, the new cell is recomputed, unless it was
    /// written directly in the batch. The link is weak: the new cell lives
    /// only as long as something else holds it.
    pub fn map<T, F: Fn(&Value<T>) -> Value<T>>(&self, graph: &mut SignalGraph<T, F>, f: F) -> (signal:
        Signal)
        requires
            old(graph).wf(),
            old(graph)@.alive(self@),
            functional(f),
        ensures
            final(graph).wf(),
            final(graph)@ == old(graph)@.mapped(self@, f, false),
            signal@ == old(graph)@.next(),
            call_ensures(
                f,
                (&old(graph)@.cells[self@ as int].value,),
                final(graph)@.cells[signal@ as int].value,
            ),
            final(graph)@.grown(old(graph)@),
    {
        self.map_ref(graph, f, false)
    }

    /// Derives a cell as [`Signal::map`] does, with a strong link: the new
    /// cell and this one are kept from then on.
    pub fn with<T, F: Fn(&Value<T>) -> Value<T>>(&self, graph: &mut SignalGraph<T, F>, f: F) -> (signal:
        Signal)
        requires
            old(graph).wf(),
            old(graph)@.alive(self@),
            functional(f),
        ensures
            final(graph).wf(),
            final(graph)@ == old(graph)@.mapped(self@, f, true),
            signal@ == old(graph)@.next(),
            call_ensures(
                f,
                (&old(graph)@.cells[self@ as int].value,),
                final(graph)@.cells[signal@ as int].value,
            ),
            final(graph)@.grown(old(graph)@),
    {
        self.map_ref(graph, f, true)
    }

    /// Derives a cell by `f`, with a weak or a strong link.
    pub(crate) fn map_ref<T, F: Fn(&Value<T>) -> Value<T>>(
        &self,
        graph: &mut SignalGraph<T, F>,
        f: F,
        strong: bool,
    ) -> (signal: Signal)
        requires
            old(graph).wf(),
            old(graph)@.alive(self@),
            functional(f),
        ensures
            final(graph).wf(),
            final(graph)@ == old(graph)@.mapped(self@, f, strong),
            signal@ == old(graph)@.next(),
            call_ensures(
                f,
                (&old(graph)@.cells[self@ as int].value,),
                final(graph)@.cells[signal@ as int].value,
            ),
            final(graph)@.grown(old(graph)@),
    {
        let ghost g0 = graph@;
        let source = self.id();
        proof {
            graph.lemma_wf();
        }
        let value = f(graph.value_of(source));
        let new = graph.push_cell(value);
        proof {
            graph.lemma_wf();
            if reaches(graph@.forward(), new, source) {
                lemma_sink_reaches_itself_only(graph@.forward(), new, source);
            }
        }
        graph.derive(source, Reaction::Forward { target: new, func: f });
        graph.pin_if(strong, source);
        graph.pin_if(strong, new);
        proof {
            g0.lemma_mapped(source, f, strong);
        }
        Signal::of(new)
    }

    /// Derives a cell that writes back to this one: when the new cell was
    /// written directly and fires, this cell becomes `f` of the new cell's
    /// value and counts as written directly. The new cell starts at the
    /// default item. This cell is a predecessor of the new one: it fires
    /// after the cells that the new one leads to.
    pub fn contramap<T: Default, F: Fn(&Value<T>) -> Value<T>>(
        &self,
        graph: &mut SignalGraph<T, F>,
        f: F,
    ) -> (signal: Signal)
        requires
            old(graph).wf(),
            old(graph)@.alive(self@),
            functional(f),
        ensures
            final(graph).wf(),
            final(graph)@ == old(graph)@.comapped(
                self@,
                f,
                final(graph)@.cells[signal@ as int].value,
            ),
            signal@ == old(graph)@.next(),
            final(graph)@.cells[signal@ as int].value matches Value::Item(d) && T::default.ensures(
                (),
                d,
            ),
            final(graph)@.grown(old(graph)@),
    {
        let ghost g0 = graph@;
        let source = self.id();
        proof {
            graph.lemma_wf();
        }
        let new = graph.push_cell(Value::Item(T::default()));
        proof {
            graph.lemma_wf();
        }
        graph.link_predecessor(new, source);
        proof {
            graph.lemma_wf();
            assert(graph@.cells[new as int].predecessors.last() == source);
        }
        graph.attach(new, Reaction::Backward { target: source, func: f });
        proof {
            g0.lemma_comapped(source, f, graph@.cells[new as int].value);
        }
        Signal::of(new)
    }

    /// Derives a cell linked to this one in both directions. Forward, as
    /// by [`Signal::map`] with `f`, while the new cell was not written
    /// directly in the batch; backward, as by [`Signal::contramap`] with `g`,
    /// while it was. The new cell starts at the default item.
    pub fn promap<T: Default, F: Fn(&Value<T>) -> Value<T>>(
        &self,
        graph: &mut SignalGraph<T, F>,
        f: F,
        g: F,
    ) -> (signal: Signal)
        requires
            old(graph).wf(),
            old(graph)@.alive(self@),
            functional(f),
            functional(g),
        ensures
            final(graph).wf(),
            final(graph)@ == old(graph)@.promapped(
                self@,
                f,
                g,
                final(graph)@.cells[signal@ as int].value,
            ),
            signal@ == old(graph)@.next(),
            final(graph)@.cells[signal@ as int].value matches Value::Item(d) && T::default.ensures(
                (),
                d,
            ),
            final(graph)@.grown(old(graph)@),
    {
        let ghost g0 = graph@;
        let source = self.id();
        proof {
            graph.lemma_wf();
        }
        let new = graph.push_cell(Value::Item(T::default()));
        proof {
            graph.lemma_wf();
            if reaches(graph@.forward(), new, source) {
                lemma_sink_reaches_itself_only(graph@.forward(), new, source);
            }
        }
        graph.derive(source, Reaction::Forward { target: new, func: f });
        graph.link_predecessor(new, source);
        proof {
            graph.lemma_wf();
            assert(graph@.cells[new as int].predecessors.last() == source);
        }
        graph.attach(new, Reaction::Backward { target: source, func: g });
        proof {
            g0.lemma_promapped(source, f, g, graph@.cells[new as int].value);
        }
        Signal::of(new)
    }

    /// Makes this cell take over the value of `dependency` whenever that
    /// fires, unless this cell was written directly in the batch. The values
    /// are exchanged: `dependency` is left with the value that this cell
    /// held. Returns `dependency`.
    ///
    /// The link must close no cycle: this cell must not lead to
    /// `dependency`.
    pub fn depend<T, F: Fn(&Value<T>) -> Value<T>>(
        &self,
        graph: &mut SignalGraph<T, F>,
        dependency: Signal,
    ) -> (signal: Signal)
        requires
            old(graph).wf(),
            old(graph)@.alive(self@),
            old(graph)@.alive(dependency@),
            !reaches(old(graph)@.forward(), self@, dependency@),
        ensures
            final(graph).wf(),
            final(graph)@ == old(graph)@.depending(self@, dependency@),
            signal@ == dependency@,
            final(graph)@.cells.len() == old(graph)@.cells.len(),
            final(graph)@.keeps(old(graph)@),
    {
        let ghost g0 = graph@;
        proof {
            crate::walk::lemma_reaches_self(graph@.forward(), self@);
        }
        graph.derive(dependency.id(), Reaction::Whole { target: self.id() });
        proof {
            g0.lemma_depending(self@, dependency@);
        }
        dependency
    }

    /// Whether something still holds the cell.
    pub fn is_alive<T, F: Fn(&Value<T>) -> Value<T>>(&self, graph: &SignalGraph<T, F>) -> (alive:
        bool)
        ensures
            alive == graph@.alive(self@),
    {
        graph.is_alive(self.id())
    }

    /// The number of pending visits of the cell.
    pub fn dirty<T, F: Fn(&Value<T>) -> Value<T>>(&self, graph: &SignalGraph<T, F>) -> (dirty:
        isize)
        requires
            self@ < graph@.cells.len(),
        ensures
            dirty == graph@.cells[self@ as int].dirty,
    {
        graph.dirty_of(self.id())
    }

    /// Whether the cell counts as written directly in the current batch.
    pub fn is_explicitly_modified<T, F: Fn(&Value<T>) -> Value<T>>(
        &self,
        graph: &SignalGraph<T, F>,
    ) -> (flag: bool)
        requires
            self@ < graph@.cells.len(),
        ensures
            flag == graph@.cells[self@ as int].explicitly_modified,
    {
        graph.flag_of(self.id())
    }

    /// The number of reactions attached to the cell.
    pub fn reactions<T, F: Fn(&Value<T>) -> Value<T>>(&self, graph: &SignalGraph<T, F>) -> (n:
        usize)
        requires
            self@ < graph@.cells.len(),
        ensures
            n == graph@.cells[self@ as int].react_fns.len(),
    {
        graph.reaction_count(self.id())
    }

    /// Whether successor links lead from this cell to the cell of `other`:
    /// whether `other` depends on this cell, directly or not. A cell leads to
    /// itself.
    pub fn leads_to<T, F: Fn(&Value<T>) -> Value<T>>(
        &self,
        graph: &mut SignalGraph<T, F>,
        other: &Signal,
    ) -> (found: bool)
        requires
            old(graph).wf(),
            self@ < old(graph)@.cells.len(),
        ensures
            final(graph).wf(),
            final(graph)@ == old(graph)@,
            found == reaches(old(graph)@.forward(), self@, other@),
    {
        let ghost rank = crate::walk::ranking(graph@.forward());
        proof {
            graph.lemma_wf();
        }
        graph.leads_to(self.id(), other.id(), Ghost(rank))
    }

    /// Makes this cell depend on `dependency` as [`Signal::depend`] does,
    /// where both cells live and the link closes no cycle. Otherwise the
    /// graph stays as it is. Either way `dependency` is handed back: as
    /// `Ok` where the cells are linked, as `Err` where they are not.
    pub fn try_depend<T, F: Fn(&Value<T>) -> Value<T>>(
        &self,
        graph: &mut SignalGraph<T, F>,
        dependency: Signal,
    ) -> (linked: Result<Signal, Signal>)
        requires
            old(graph).wf(),
        ensures
            final(graph).wf(),
            linked is Ok == (old(graph)@.alive(self@) && old(graph)@.alive(dependency@) && !reaches(
                old(graph)@.forward(),
                self@,
                dependency@,
            )),
            linked matches Ok(signal) ==> signal@ == dependency@ && final(graph)@
                == old(graph)@.depending(self@, dependency@),
            linked matches Err(signal) ==> signal@ == dependency@ && final(graph)@ == old(graph)@,
    {
        if !graph.is_alive(self.id()) || !graph.is_alive(dependency.id()) {
            return Err(dependency);
        }
        if self.leads_to(graph, &dependency) {
            return Err(dependency);
        }
        Ok(self.depend(graph, dependency))
    }

    /// A copy of the value that the cell holds.
    pub fn get<T: Copy, F: Fn(&Value<T>) -> Value<T>>(&self, graph: &SignalGraph<T, F>) -> (value:
        Value<T>)
        requires
            self@ < graph@.cells.len(),
        ensures
            value == graph@.cells[self@ as int].value,
    {
        graph.value_of(self.id()).duplicate()
    }
    /// Combines this cell and `another` into one cell that holds the pair
    /// of their values. When a source fires, its value is exchanged with the
    /// content of its slot of the pair, the other slot staying as it is,
    /// unless the pair was written directly in the batch. The links are
    /// weak.
    pub fn combine<T: Copy, F: Fn(&Value<T>) -> Value<T>, S: Liftable>(
        &self,
        graph: &mut SignalGraph<T, F>,
        another: S,
    ) -> (signal: Signal)
        requires
            old(graph).wf(),
            old(graph)@.alive(self@),
            old(graph)@.alive(another.cell()),
        ensures
            final(graph).wf(),
            final(graph)@ == old(graph)@.lifted(seq![self@, another.cell()], false),
            signal@ == old(graph)@.next(),
            final(graph)@.grown(old(graph)@),
            final(graph)@.cells[signal@ as int].value == Value::pair_of(
                old(graph)@.cells[self@ as int].value,
                old(graph)@.cells[another.cell() as int].value,
            ),
    {
        self.combine_ref(graph, another, false)
    }

    /// Combines two cells as [`Signal::combine`] does, with strong links:
    /// the new cell and both sources are kept from then on.
    pub fn and<T: Copy, F: Fn(&Value<T>) -> Value<T>, S: Liftable>(
        &self,
        graph: &mut SignalGraph<T, F>,
        another: S,
    ) -> (signal: Signal)
        requires
            old(graph).wf(),
            old(graph)@.alive(self@),
            old(graph)@.alive(another.cell()),
        ensures
            final(graph).wf(),
            final(graph)@ == old(graph)@.lifted(seq![self@, another.cell()], true),
            signal@ == old(graph)@.next(),
            final(graph)@.grown(old(graph)@),
            final(graph)@.cells[signal@ as int].value == Value::pair_of(
                old(graph)@.cells[self@ as int].value,
                old(graph)@.cells[another.cell() as int].value,
            ),
    {
        self.combine_ref(graph, another, true)
    }

    /// Combines two cells into a pair, with weak or strong links.
    pub(crate) fn combine_ref<T: Copy, F: Fn(&Value<T>) -> Value<T>, S: Liftable>(
        &self,
        graph: &mut SignalGraph<T, F>,
        another: S,
        strong: bool,
    ) -> (signal: Signal)
        requires
            old(graph).wf(),
            old(graph)@.alive(self@),
            old(graph)@.alive(another.cell()),
        ensures
            final(graph).wf(),
            final(graph)@ == old(graph)@.lifted(seq![self@, another.cell()], strong),
            signal@ == old(graph)@.next(),
            final(graph)@.grown(old(graph)@),
            final(graph)@.cells[signal@ as int].value == Value::pair_of(
                old(graph)@.cells[self@ as int].value,
                old(graph)@.cells[another.cell() as int].value,
            ),
    {
        let mut sources: Vec<usize> = Vec::new();
        sources.push(self.id());
        sources.push(another.as_ref().id());
        assert(sources@ =~= seq![self@, another.cell()]);
        proof {
            graph.lemma_wf();
            let first = graph@.cells[self@ as int].value;
            let second = graph@.cells[another.cell() as int].value;
            assert(graph@.values(sources@) =~= seq![first, second]);
            Value::lemma_pair_is_tuple(first, second);
        }
        let ghost g0 = graph@;
        let new = graph.lift_ids(&sources, strong);
        proof {
            graph.lemma_wf();
            g0.lemma_lifted(sources@, strong);
        }
        Signal::of(new)
    }

    /// Lifts this cell and `others` into one cell that holds the sequence
    /// of their values, this cell's first. When a source fires, its value is
    /// exchanged with the content of its slot, unless the new cell was
    /// written directly in the batch. The links are weak.
    pub fn extend<T: Copy, F: Fn(&Value<T>) -> Value<T>, S: Liftable>(
        &self,
        graph: &mut SignalGraph<T, F>,
        others: Vec<S>,
    ) -> (signal: Signal)
        requires
            old(graph).wf(),
            old(graph)@.alive(self@),
            forall|i: int| 0 <= i < others@.len() ==> old(graph)@.alive((#[trigger] others@[i]).cell()),
        ensures
            final(graph).wf(),
            final(graph)@ == old(graph)@.lifted(seq![self@] + cells_of(others@), false),
            signal@ == old(graph)@.next(),
            final(graph)@.grown(old(graph)@),
    {
        self.extend_ref(graph, others, false)
    }

    /// Lifts cells as [`Signal::extend`] does, with strong links: the new
    /// cell and all sources are kept from then on.
    pub fn follow<T: Copy, F: Fn(&Value<T>) -> Value<T>, S: Liftable>(
        &self,
        graph: &mut SignalGraph<T, F>,
        others: Vec<S>,
    ) -> (signal: Signal)
        requires
            old(graph).wf(),
            old(graph)@.alive(self@),
            forall|i: int| 0 <= i < others@.len() ==> old(graph)@.alive((#[trigger] others@[i]).cell()),
        ensures
            final(graph).wf(),
            final(graph)@ == old(graph)@.lifted(seq![self@] + cells_of(others@), true),
            signal@ == old(graph)@.next(),
            final(graph)@.grown(old(graph)@),
    {
        self.extend_ref(graph, others, true)
    }

    /// Lifts this cell and `others` into a sequence, with weak or strong
    /// links.
    pub(crate) fn extend_ref<T: Copy, F: Fn(&Value<T>) -> Value<T>, S: Liftable>(
        &self,
        graph: &mut SignalGraph<T, F>,
        others: Vec<S>,
        strong: bool,
    ) -> (signal: Signal)
        requires
            old(graph).wf(),
            old(graph)@.alive(self@),
            forall|i: int| 0 <= i < others@.len() ==> old(graph)@.alive((#[trigger] others@[i]).cell()),
        ensures
            final(graph).wf(),
            final(graph)@ == old(graph)@.lifted(seq![self@] + cells_of(others@), strong),
            signal@ == old(graph)@.next(),
            final(graph)@.grown(old(graph)@),
    {
        let mut sources: Vec<usize> = Vec::new();
        sources.push(self.id());
        let n = others.len();
        let mut i: usize = 0;
        assert(sources@ =~= seq![self@] + cells_of(others@.take(0)));
        while i < n
            invariant
                n == others@.len(),
                i <= n,
                sources@ == seq![self@] + cells_of(others@.take(i as int)),
            decreases n - i,
        {
            sources.push(others[i].as_ref().id());
            assert(sources@ =~= seq![self@] + cells_of(others@.take(i as int + 1)));
            i += 1;
        }
        assert(others@.take(n as int) =~= others@);
        assert forall|j: int| 0 <= j < sources@.len() implies graph@.alive(
            #[trigger] sources@[j],
        ) by {
            if j > 0 {
                assert(graph@.alive(others@[j - 1].cell()));
            }
        }
        let new = graph.lift_ids(&sources, strong);
        Signal::of(new)
    }

    /// Lifts the cells of `items` into one cell that holds the sequence of
    /// their values, in order. When a source fires, its value is exchanged
    /// with the content of its slot, unless the new cell was written
    /// directly in the batch. The links are weak.
    pub fn lift_from_array<T: Copy, F: Fn(&Value<T>) -> Value<T>, S: Liftable, const N: usize>(
        graph: &mut SignalGraph<T, F>,
        items: [S; N],
    ) -> (signal: Signal)
        requires
            old(graph).wf(),
            forall|i: int| 0 <= i < N ==> old(graph)@.alive((#[trigger] items@[i]).cell()),
        ensures
            final(graph).wf(),
            final(graph)@ == old(graph)@.lifted(cells_of(items@), false),
            signal@ == old(graph)@.next(),
            final(graph)@.grown(old(graph)@),
    {
        let mut sources: Vec<usize> = Vec::new();
        let mut i: usize = 0;
        assert(sources@ =~= cells_of(items@.take(0)));
        while i < N
            invariant
                i <= N,
                items@.len() == N,
                sources@ == cells_of(items@.take(i as int)),
            decreases N - i,
        {
            sources.push(items[i].as_ref().id());
            assert(sources@ =~= cells_of(items@.take(i as int + 1)));
            i += 1;
        }
        assert(items@.take(N as int) =~= items@);
        assert forall|j: int| 0 <= j < sources@.len() implies graph@.alive(
            #[trigger] sources@[j],
        ) by {
            assert(graph@.alive(items@[j].cell()));
        }
        let new = graph.lift_ids(&sources, false);
        Signal::of(new)
    }
}

/// The cells that the signals of `items` name, in order.
pub open spec fn cells_of<S: Liftable>(items: Seq<S>) -> Seq<usize> {
    Seq::new(items.len(), |i: int| items[i].cell())
}

impl SignalGuard {
    /// The guard that holds the visits of `self`, then those of `other`.
    pub fn and(self, other: SignalGuard) -> (guard: SignalGuard)
        ensures
            guard@ == self@ + other@,
    {
        let mut first = self.into_tokens();
        let mut second = other.into_tokens();
        proof {
            crate::signal::lemma_token_add(first@, second@);
        }
        first.append(&mut second);
        SignalGuard::of(first)
    }
}

impl WeakSignalRef {
    /// A weak link to the cell of `signal`.
    pub fn new(signal: &Signal) -> (link: Self)
        ensures
            link@ == signal@,
    {
        WeakSignalRef::of(signal.id())
    }

    /// Whether the cell linked to is still there.
    pub fn is_alive<T, F: Fn(&Value<T>) -> Value<T>>(&self, graph: &SignalGraph<T, F>) -> (alive:
        bool)
        ensures
            alive == graph@.alive(self@),
    {
        graph.is_alive(self.id())
    }

    /// A handle to the cell linked to, if the cell is still there (and one
    /// more handle of it can be counted).
    pub fn upgrade<T, F: Fn(&Value<T>) -> Value<T>>(&self, graph: &mut SignalGraph<T, F>) -> (signal:
        Option<Signal>)
        requires
            old(graph).wf(),
        ensures
            final(graph).wf(),
            signal is Some == (old(graph)@.alive(self@) && old(graph)@.cells[self@ as int].handles
                < usize::MAX),
            signal matches Some(s) ==> s@ == self@ && final(graph)@ == old(graph)@.held(self@),
            signal is None ==> final(graph)@ == old(graph)@,
    {
        if graph.is_alive(self.id()) && graph.handles_of(self.id()) < usize::MAX {
            graph.hold(self.id());
            Some(Signal::of(self.id()))
        } else {
            None
        }
    }
}

} // verus!
