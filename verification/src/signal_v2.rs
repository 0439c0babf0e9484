//! Signals with immediate propagation.
//!
//! A simpler engine than that of [`crate::signal`]: a write returns when
//! every cell derived from the written one has been recomputed, depth-first.
//! There are no batches and no guards. A derived cell has one source and
//! holds the function that computes it from the source's value; it is never
//! reclaimed.
use vstd::prelude::*;
use crate::graph::{apply, functional};
use crate::value::Value;

verus! {

/// How a derived cell is computed: by `func`, from the value of `source`.
pub struct Rule<F> {
    pub source: usize,
    pub func: F,
}

/// The part of a cell that no write changes.
pub struct Node<F> {
    /// How the cell is computed, if it is derived.
    pub rule: Option<Rule<F>>,
    /// The cells derived from this one, in the order of their derivation.
    pub successors: Seq<usize>,
}

/// What the graph stores for one cell.
pub struct SignalInner<T, F> {
    value: Value<T>,
    react_fn: Option<Rule<F>>,
    successors: Vec<usize>,
}

/// A handle to a cell.
#[derive(Debug)]
pub struct Signal {
    id: usize,
}

/// The cells of one graph.
pub struct SignalGraph<T, F> {
    cells: Vec<SignalInner<T, F>>,
}

impl View for Signal {
    type V = usize;

    /// The cell that the handle names.
    closed spec fn view(&self) -> usize {
        self.id
    }
}

/// A derived cell is computed from an earlier cell by a function, and every
/// successor of a cell is a later cell that is computed from it.
pub open spec fn well_shaped<T, F: Fn(&Value<T>) -> Value<T>>(shape: Seq<Node<F>>) -> bool {
    &&& forall|c: int|
        0 <= c < shape.len() ==> ((#[trigger] shape[c]).rule matches Some(rule) ==> rule.source < c
            && functional::<T, F>(rule.func))
    &&& forall|c: int, k: int|
        0 <= c < shape.len() && 0 <= k < shape[c].successors.len() ==> {
            let s = #[trigger] shape[c].successors[k];
            &&& c < s < shape.len()
            &&& shape[s as int].rule matches Some(rule) && rule.source == c
        }
}

/// The values after cell `id` was recomputed from its source and the change
/// was passed on.
pub open spec fn reacted<T, F: Fn(&Value<T>) -> Value<T>>(
    shape: Seq<Node<F>>,
    values: Seq<Value<T>>,
    id: usize,
) -> Seq<Value<T>>
    decreases shape.len() - id, shape[id as int].successors.len() + 1,
    when well_shaped::<T, F>(shape) && id < shape.len()
{
    match shape[id as int].rule {
        Some(rule) => propagated_from(
            shape,
            values.update(id as int, apply(rule.func, values[rule.source as int])),
            id,
            0,
        ),
        None => values,
    }
}

/// The values after the successors of cell `id` at positions `k` and later
/// were recomputed, each with all that derives from it, in order.
pub open spec fn propagated_from<T, F: Fn(&Value<T>) -> Value<T>>(
    shape: Seq<Node<F>>,
    values: Seq<Value<T>>,
    id: usize,
    k: nat,
) -> Seq<Value<T>>
    decreases shape.len() - id, shape[id as int].successors.len() - k,
    when well_shaped::<T, F>(shape) && id < shape.len()
{
    if k >= shape[id as int].successors.len() {
        values
    } else {
        propagated_from(
            shape,
            reacted(shape, values, shape[id as int].successors[k as int]),
            id,
            k + 1,
        )
    }
}

/// Every call of a function made while cell `id` reacted returned what
/// `apply` names for it.
pub open spec fn reacted_seen<T, F: Fn(&Value<T>) -> Value<T>>(
    shape: Seq<Node<F>>,
    values: Seq<Value<T>>,
    id: usize,
) -> bool
    decreases shape.len() - id, shape[id as int].successors.len() + 1,
    when well_shaped::<T, F>(shape) && id < shape.len()
{
    match shape[id as int].rule {
        Some(rule) => {
            &&& call_ensures(
                rule.func,
                (&values[rule.source as int],),
                apply(rule.func, values[rule.source as int]),
            )
            &&& propagated_seen(
                shape,
                values.update(id as int, apply(rule.func, values[rule.source as int])),
                id,
                0,
            )
        },
        None => true,
    }
}

/// Every call of a function made while the successors of cell `id` at
/// positions `k` and later reacted returned what `apply` names for it.
pub open spec fn propagated_seen<T, F: Fn(&Value<T>) -> Value<T>>(
    shape: Seq<Node<F>>,
    values: Seq<Value<T>>,
    id: usize,
    k: nat,
) -> bool
    decreases shape.len() - id, shape[id as int].successors.len() - k,
    when well_shaped::<T, F>(shape) && id < shape.len()
{
    if k >= shape[id as int].successors.len() {
        true
    } else {
        &&& reacted_seen(shape, values, shape[id as int].successors[k as int])
        &&& propagated_seen(
            shape,
            reacted(shape, values, shape[id as int].successors[k as int]),
            id,
            k + 1,
        )
    }
}

/// Reacting changes no value but those of later cells.
pub proof fn lemma_reacted_len<T, F: Fn(&Value<T>) -> Value<T>>(
    shape: Seq<Node<F>>,
    values: Seq<Value<T>>,
    id: usize,
)
    requires
        well_shaped::<T, F>(shape),
        id < shape.len(),
        values.len() == shape.len(),
    ensures
        reacted(shape, values, id).len() == values.len(),
        forall|c: int| 0 <= c < id ==> reacted(shape, values, id)[c] == values[c],
    decreases shape.len() - id, shape[id as int].successors.len() + 1,
{
    match shape[id as int].rule {
        Some(rule) => {
            let written = values.update(id as int, apply(rule.func, values[rule.source as int]));
            lemma_propagated_len(shape, written, id, 0);
            assert forall|c: int| 0 <= c < id implies reacted(shape, values, id)[c]
                == values[c] by {
                assert(propagated_from(shape, written, id, 0)[c] == written[c]);
            }
        },
        None => {},
    }
}

/// Passing a change on changes no value but those of later cells.
pub proof fn lemma_propagated_len<T, F: Fn(&Value<T>) -> Value<T>>(
    shape: Seq<Node<F>>,
    values: Seq<Value<T>>,
    id: usize,
    k: nat,
)
    requires
        well_shaped::<T, F>(shape),
        id < shape.len(),
        values.len() == shape.len(),
    ensures
        propagated_from(shape, values, id, k).len() == values.len(),
        forall|c: int| 0 <= c <= id ==> propagated_from(shape, values, id, k)[c] == values[c],
    decreases shape.len() - id, shape[id as int].successors.len() - k,
{
    if k < shape[id as int].successors.len() {
        let s = shape[id as int].successors[k as int];
        lemma_reacted_len(shape, values, s);
        lemma_propagated_len(shape, reacted(shape, values, s), id, k + 1);
    }
}

impl<T, F> SignalInner<T, F> {
    /// The part of the cell that no write changes.
    pub closed spec fn node(self) -> Node<F> {
        Node { rule: self.react_fn, successors: self.successors@ }
    }
}

impl<T, F: Fn(&Value<T>) -> Value<T>> SignalGraph<T, F> {
    /// The part of the graph that no write changes: the rules and the
    /// successors of the cells.
    pub closed spec fn shape(self) -> Seq<Node<F>> {
        Seq::new(self.cells@.len(), |c: int| self.cells@[c].node())
    }

    /// The values of the cells.
    pub closed spec fn values(self) -> Seq<Value<T>> {
        Seq::new(self.cells@.len(), |c: int| self.cells@[c].value)
    }

    /// The invariant of the graph.
    pub open spec fn wf(self) -> bool {
        &&& self.shape().len() == self.values().len()
        &&& well_shaped::<T, F>(self.shape())
    }

    /// A graph without cells.
    pub fn new() -> (g: Self)
        ensures
            g.wf(),
            g.values().len() == 0,
    {
        SignalGraph { cells: Vec::new() }
    }

    /// The number of cells.
    pub fn len(&self) -> (n: usize)
        ensures
            n == self.values().len(),
    {
        self.cells.len()
    }

    /// Recomputes cell `id` from its source and passes the change on.
    fn react(&mut self, id: usize)
        requires
            old(self).wf(),
            id < old(self).values().len(),
        ensures
            final(self).wf(),
            final(self).shape() == old(self).shape(),
            final(self).values() == reacted(old(self).shape(), old(self).values(), id),
            reacted_seen(old(self).shape(), old(self).values(), id),
        decreases old(self).values().len() - id, 1nat,
    {
        let ghost shape = self.shape();
        let ghost was = self.values();
        let computed = match &self.cells[id].react_fn {
            Some(rule) => {
                assert(shape[id as int].rule == Some(*rule));
                let source = rule.source;
                assert(source < id && functional(rule.func));
                Some((rule.func)(&self.cells[source].value))
            },
            None => None,
        };
        match computed {
            Some(value) => {
                self.cells[id].value = value;
                assert(self.shape() =~= shape);
                assert(self.values() =~= was.update(id as int, value));
                self.propagate(id);
            },
            None => {},
        }
    }

    /// Recomputes the successors of cell `id`, each with all that derives
    /// from it, in order.
    fn propagate(&mut self, id: usize)
        requires
            old(self).wf(),
            id < old(self).values().len(),
        ensures
            final(self).wf(),
            final(self).shape() == old(self).shape(),
            final(self).values() == propagated_from(old(self).shape(), old(self).values(), id, 0),
            propagated_seen(old(self).shape(), old(self).values(), id, 0),
        decreases old(self).values().len() - id, 0nat,
    {
        let ghost shape = self.shape();
        let ghost was = self.values();
        let n = self.cells[id].successors.len();
        let mut k: usize = 0;
        while k < n
            invariant
                self.wf(),
                self.shape() == shape,
                id < shape.len(),
                was.len() == shape.len(),
                was == old(self).values(),
                n == shape[id as int].successors.len(),
                k <= n,
                propagated_from(shape, self.values(), id, k as nat) == propagated_from(
                    shape,
                    was,
                    id,
                    0,
                ),
                propagated_seen(shape, self.values(), id, k as nat) ==> propagated_seen(
                    shape,
                    was,
                    id,
                    0,
                ),
            decreases n - k,
        {
            let next = self.cells[id].successors[k];
            assert(next == shape[id as int].successors[k as int]);
            assert(id < next < shape.len());
            assert(self.values().len() == was.len());
            self.react(next);
            k += 1;
        }
    }

    /// Creates a cell that holds `initial`, and returns the handle to it.
    fn push_cell(&mut self, value: Value<T>, rule: Option<Rule<F>>) -> (id: usize)
        requires
            old(self).wf(),
            rule matches Some(r) ==> r.source < old(self).values().len() && functional::<T, F>(
                r.func,
            ),
        ensures
            final(self).wf(),
            id == old(self).values().len(),
            final(self).values() == old(self).values().push(value),
            final(self).shape() == old(self).shape().push(
                Node { rule, successors: Seq::empty() },
            ),
    {
        let id = self.cells.len();
        let ghost shape = self.shape();
        self.cells.push(SignalInner { value, react_fn: rule, successors: Vec::new() });
        assert(self.values() =~= old(self).values().push(value));
        assert(self.shape() =~= shape.push(Node { rule, successors: Seq::empty() }));
        assert forall|c: int, k: int|
            0 <= c < self.shape().len() && 0 <= k < self.shape()[c].successors.len() implies {
            let s = #[trigger] self.shape()[c].successors[k];
            &&& c < s < self.shape().len()
            &&& self.shape()[s as int].rule matches Some(rule) && rule.source == c
        } by {
            assert(self.shape()[c].successors[k] == shape[c].successors[k]);
        }
        id
    }
}

impl Signal {
    /// The name of the cell: its position in the graph.
    pub fn id(&self) -> (id: usize)
        ensures
            id == self@,
    {
        self.id
    }

    /// Creates a cell that holds `initial`, and returns the handle to it.
    pub fn new<T, F: Fn(&Value<T>) -> Value<T>>(graph: &mut SignalGraph<T, F>, initial: Value<T>) -> (signal:
        Signal)
        requires
            old(graph).wf(),
        ensures
            final(graph).wf(),
            signal@ == old(graph).values().len(),
            final(graph).values() == old(graph).values().push(initial),
            final(graph).shape() == old(graph).shape().push(
                Node { rule: None, successors: Seq::empty() },
            ),
    {
        Signal { id: graph.push_cell(initial, None) }
    }

    /// A copy of the value that the cell holds.
    pub fn get<T: Copy, F: Fn(&Value<T>) -> Value<T>>(&self, graph: &SignalGraph<T, F>) -> (value:
        Value<T>)
        requires
            self@ < graph.values().len(),
        ensures
            value == graph.values()[self@ as int],
    {
        graph.cells[self.id].value.duplicate()
    }

    /// Replaces the value of the cell by `f` of it.
    fn modify<T, F: Fn(&Value<T>) -> Value<T>, M: FnOnce(&Value<T>) -> Value<T>>(
        &self,
        graph: &mut SignalGraph<T, F>,
        f: M,
    )
        requires
            old(graph).wf(),
            self@ < old(graph).values().len(),
            call_requires(f, (&old(graph).values()[self@ as int],)),
        ensures
            final(graph).wf(),
            final(graph).shape() == old(graph).shape(),
            final(graph).values() == old(graph).values().update(
                self@ as int,
                final(graph).values()[self@ as int],
            ),
            call_ensures(
                f,
                (&old(graph).values()[self@ as int],),
                final(graph).values()[self@ as int],
            ),
    {
        let ghost shape = graph.shape();
        let ghost was = graph.values();
        let value = f(&graph.cells[self.id].value);
        graph.cells[self.id].value = value;
        assert(graph.shape() =~= shape);
        assert(graph.values() =~= was.update(self@ as int, value));
    }

    /// Recomputes every cell derived from this one, depth-first.
    fn propagate<T, F: Fn(&Value<T>) -> Value<T>>(&self, graph: &mut SignalGraph<T, F>)
        requires
            old(graph).wf(),
            self@ < old(graph).values().len(),
        ensures
            final(graph).wf(),
            final(graph).shape() == old(graph).shape(),
            final(graph).values() == propagated_from(
                old(graph).shape(),
                old(graph).values(),
                self@,
                0,
            ),
            propagated_seen(old(graph).shape(), old(graph).values(), self@, 0),
    {
        graph.propagate(self.id);
    }

    /// Writes `new_value` to the cell and recomputes every cell derived
    /// from it, depth-first: each from the new value of its source.
    pub fn send<T, F: Fn(&Value<T>) -> Value<T>>(
        &self,
        graph: &mut SignalGraph<T, F>,
        new_value: Value<T>,
    )
        requires
            old(graph).wf(),
            self@ < old(graph).values().len(),
        ensures
            final(graph).wf(),
            final(graph).shape() == old(graph).shape(),
            final(graph).values() == propagated_from(
                old(graph).shape(),
                old(graph).values().update(self@ as int, new_value),
                self@,
                0,
            ),
            propagated_seen(
                old(graph).shape(),
                old(graph).values().update(self@ as int, new_value),
                self@,
                0,
            ),
    {
        let ghost shape = graph.shape();
        let ghost was = graph.values();
        graph.cells[self.id].value = new_value;
        assert(graph.shape() =~= shape);
        assert(graph.values() =~= was.update(self@ as int, new_value));
        self.propagate(graph);
    }

    /// Replaces the value of the cell by `f` of it and recomputes every cell
    /// derived from it, as [`Signal::send`] does.
    pub fn send_with<T, F: Fn(&Value<T>) -> Value<T>, M: FnOnce(&Value<T>) -> Value<T>>(
        &self,
        graph: &mut SignalGraph<T, F>,
        f: M,
    )
        requires
            old(graph).wf(),
            self@ < old(graph).values().len(),
            call_requires(f, (&old(graph).values()[self@ as int],)),
        ensures
            call_ensures(
                f,
                (&old(graph).values()[self@ as int],),
                final(graph).values()[self@ as int],
            ),
            final(graph).wf(),
            final(graph).shape() == old(graph).shape(),
            final(graph).values() == propagated_from(
                old(graph).shape(),
                old(graph).values().update(self@ as int, final(graph).values()[self@ as int]),
                self@,
                0,
            ),
            propagated_seen(
                old(graph).shape(),
                old(graph).values().update(self@ as int, final(graph).values()[self@ as int]),
                self@,
                0,
            ),
    {
        self.modify(graph, f);
        proof {
            lemma_propagated_len(graph.shape(), graph.values(), self@, 0);
        }
        self.propagate(graph);
    }

    /// Derives a cell that holds `f` of this cell's value and is recomputed
    /// whenever this cell is written or recomputed.
    pub fn map<T, F: Fn(&Value<T>) -> Value<T>>(&self, graph: &mut SignalGraph<T, F>, f: F) -> (signal:
        Signal)
        requires
            old(graph).wf(),
            self@ < old(graph).values().len(),
            functional(f),
        ensures
            final(graph).wf(),
            signal@ == old(graph).values().len(),
            final(graph).values() == old(graph).values().push(
                apply(f, old(graph).values()[self@ as int]),
            ),
            call_ensures(
                f,
                (&old(graph).values()[self@ as int],),
                final(graph).values()[signal@ as int],
            ),
            final(graph).shape() == old(graph).shape().update(
                self@ as int,
                Node {
                    successors: old(graph).shape()[self@ as int].successors.push(signal@),
                    ..old(graph).shape()[self@ as int]
                },
            ).push(
                Node { rule: Some(Rule { source: self@, func: f }), successors: Seq::empty() },
            ),
    {
        let value = f(&graph.cells[self.id].value);
        let new = graph.push_cell(value, Some(Rule { source: self.id, func: f }));
        let ghost shape = graph.shape();
        let ghost values = graph.values();
        graph.cells[self.id].successors.push(new);
        proof {
            assert(graph.values() =~= values);
            let now = graph.shape();
            assert(now =~= shape.update(
                self@ as int,
                Node { successors: shape[self@ as int].successors.push(new), ..shape[self@ as int] },
            ));
            assert forall|c: int|
                0 <= c < now.len() implies ((#[trigger] now[c]).rule matches Some(rule)
                ==> rule.source < c && functional::<T, F>(rule.func)) by {
                assert(now[c].rule == shape[c].rule);
            }
            assert forall|c: int, k: int|
                0 <= c < now.len() && 0 <= k < now[c].successors.len() implies {
                let s = #[trigger] now[c].successors[k];
                &&& c < s < now.len()
                &&& now[s as int].rule matches Some(rule) && rule.source == c
            } by {
                if c == self@ && k == shape[c].successors.len() {
                } else {
                    assert(now[c].successors[k] == shape[c].successors[k]);
                }
            }
        }
        Signal { id: new }
    }
}

} // verus!
