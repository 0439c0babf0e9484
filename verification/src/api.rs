//! What can be lifted into one signal.
use vstd::prelude::*;
use crate::operators::cells_of;
use crate::signal::{Signal, SignalGraph};
use crate::signal_sync::{cells_of_sync, SignalGraphSync, SignalSync};
use crate::value::Value;

verus! {

/// A value that stands for a signal: a handle, or a reference to one.
pub trait Liftable {
    /// The cell that the underlying signal names.
    spec fn cell(&self) -> usize;

    /// The underlying signal.
    fn as_ref(&self) -> (signal: &Signal)
        ensures
            signal@ == self.cell(),
    ;
}

impl Liftable for Signal {
    open spec fn cell(&self) -> usize {
        self@
    }

    fn as_ref(&self) -> (signal: &Signal) {
        self
    }
}

impl<'a> Liftable for &'a Signal {
    open spec fn cell(&self) -> usize {
        (**self)@
    }

    fn as_ref(&self) -> (signal: &Signal) {
        *self
    }
}

/// A value that stands for a thread-safe signal: a handle, or a reference
/// to one.
pub trait LiftableSync {
    /// The cell that the underlying signal names.
    spec fn cell(&self) -> usize;

    /// The underlying signal.
    fn as_ref(&self) -> (signal: &SignalSync)
        ensures
            signal@ == self.cell(),
    ;
}

impl LiftableSync for SignalSync {
    open spec fn cell(&self) -> usize {
        self@
    }

    fn as_ref(&self) -> (signal: &SignalSync) {
        self
    }
}

impl<'a> LiftableSync for &'a SignalSync {
    open spec fn cell(&self) -> usize {
        (**self)@
    }

    fn as_ref(&self) -> (signal: &SignalSync) {
        *self
    }
}

/// A collection of signals that can be lifted into one signal: a pair into
/// a signal of pairs, a vector or an array into a signal of sequences.
pub trait LiftInto: Sized {
    /// The cells of the collection, in order.
    spec fn sources(&self) -> Seq<usize>;

    /// Lifts the collection into one new cell, which holds the tuple of the
    /// values of the sources and follows each of them by weak links.
    fn lift<T: Copy, F: Fn(&Value<T>) -> Value<T>>(self, graph: &mut SignalGraph<T, F>) -> (signal:
        Signal)
        requires
            old(graph).wf(),
            forall|i: int|
                0 <= i < self.sources().len() ==> old(graph)@.alive(#[trigger] self.sources()[i]),
        ensures
            final(graph).wf(),
            final(graph)@ == old(graph)@.lifted(self.sources(), false),
            signal@ == old(graph)@.next(),
            final(graph)@.grown(old(graph)@),
    ;
}

impl<S1: Liftable, S2: Liftable> LiftInto for (S1, S2) {
    open spec fn sources(&self) -> Seq<usize> {
        seq![self.0.cell(), self.1.cell()]
    }

    fn lift<T: Copy, F: Fn(&Value<T>) -> Value<T>>(self, graph: &mut SignalGraph<T, F>) -> (signal:
        Signal) {
        assert(graph@.alive(self.sources()[0]));
        assert(graph@.alive(self.sources()[1]));
        let (first, second) = self;
        first.as_ref().combine(graph, second.as_ref())
    }
}

impl<S: Liftable> LiftInto for Vec<S> {
    open spec fn sources(&self) -> Seq<usize> {
        cells_of(self@)
    }

    fn lift<T: Copy, F: Fn(&Value<T>) -> Value<T>>(self, graph: &mut SignalGraph<T, F>) -> (signal:
        Signal) {
        let ghost me = self;
        let mut items = self;
        let ghost all = items@;
        if items.len() == 0 {
            assert(cells_of(all) =~= Seq::<usize>::empty());
            let empty: [S; 0] = [];
            assert(cells_of(empty@) =~= Seq::<usize>::empty());
            Signal::lift_from_array(graph, empty)
        } else {
            let first = items.remove(0);
            proof {
                assert(seq![first.cell()] + cells_of(items@) =~= cells_of(all));
                assert(me.sources() == cells_of(all));
                assert(graph@.alive(me.sources()[0]));
                assert forall|i: int| 0 <= i < items@.len() implies graph@.alive(
                    (#[trigger] items@[i]).cell(),
                ) by {
                    assert(graph@.alive(me.sources()[i + 1]));
                }
            }
            first.as_ref().extend(graph, items)
        }
    }
}

impl<S: Liftable, const N: usize> LiftInto for [S; N] {
    open spec fn sources(&self) -> Seq<usize> {
        cells_of(self@)
    }

    fn lift<T: Copy, F: Fn(&Value<T>) -> Value<T>>(self, graph: &mut SignalGraph<T, F>) -> (signal:
        Signal) {
        assert forall|i: int| 0 <= i < N implies graph@.alive((#[trigger] self@[i]).cell()) by {
            assert(graph@.alive(self.sources()[i]));
        }
        Signal::lift_from_array(graph, self)
    }
}

/// A collection of thread-safe signals that can be lifted into one: a pair
/// into a signal of pairs, a vector or an array into a signal of sequences.
pub trait LiftIntoSync: Sized {
    /// The cells of the collection, in order.
    spec fn sources(&self) -> Seq<usize>;

    /// Lifts the collection into one new cell, which holds the tuple of the
    /// values of the sources and follows each of them by weak links.
    fn lift<T: Copy + Send + Sync, F: Fn(&Value<T>) -> Value<T> + Send + Sync>(
        self,
        graph: &mut SignalGraphSync<T, F>,
    ) -> (signal: SignalSync)
        requires
            old(graph).wf(),
            forall|i: int|
                0 <= i < self.sources().len() ==> old(graph)@.alive(#[trigger] self.sources()[i]),
        ensures
            final(graph).wf(),
            final(graph)@ == old(graph)@.lifted(self.sources(), false),
            signal@ == old(graph)@.next(),
            final(graph)@.grown(old(graph)@),
    ;
}

impl<S1: LiftableSync, S2: LiftableSync> LiftIntoSync for (S1, S2) {
    open spec fn sources(&self) -> Seq<usize> {
        seq![self.0.cell(), self.1.cell()]
    }

    fn lift<T: Copy + Send + Sync, F: Fn(&Value<T>) -> Value<T> + Send + Sync>(
        self,
        graph: &mut SignalGraphSync<T, F>,
    ) -> (signal: SignalSync) {
        assert(graph@.alive(self.sources()[0]));
        assert(graph@.alive(self.sources()[1]));
        let (first, second) = self;
        first.as_ref().combine(graph, second.as_ref())
    }
}

impl<S: LiftableSync> LiftIntoSync for Vec<S> {
    open spec fn sources(&self) -> Seq<usize> {
        cells_of_sync(self@)
    }

    fn lift<T: Copy + Send + Sync, F: Fn(&Value<T>) -> Value<T> + Send + Sync>(
        self,
        graph: &mut SignalGraphSync<T, F>,
    ) -> (signal: SignalSync) {
        let ghost me = self;
        let mut items = self;
        let ghost all = items@;
        if items.len() == 0 {
            assert(cells_of_sync(all) =~= Seq::<usize>::empty());
            let empty: [S; 0] = [];
            assert(cells_of_sync(empty@) =~= Seq::<usize>::empty());
            SignalSync::lift_from_array(graph, empty)
        } else {
            let first = items.remove(0);
            proof {
                assert(seq![first.cell()] + cells_of_sync(items@) =~= cells_of_sync(all));
                assert(me.sources() == cells_of_sync(all));
                assert(graph@.alive(me.sources()[0]));
                assert forall|i: int| 0 <= i < items@.len() implies graph@.alive(
                    (#[trigger] items@[i]).cell(),
                ) by {
                    assert(graph@.alive(me.sources()[i + 1]));
                }
            }
            first.as_ref().extend(graph, items)
        }
    }
}

impl<S: LiftableSync, const N: usize> LiftIntoSync for [S; N] {
    open spec fn sources(&self) -> Seq<usize> {
        cells_of_sync(self@)
    }

    fn lift<T: Copy + Send + Sync, F: Fn(&Value<T>) -> Value<T> + Send + Sync>(
        self,
        graph: &mut SignalGraphSync<T, F>,
    ) -> (signal: SignalSync) {
        assert forall|i: int| 0 <= i < N implies graph@.alive((#[trigger] self@[i]).cell()) by {
            assert(graph@.alive(self.sources()[i]));
        }
        SignalSync::lift_from_array(graph, self)
    }
}

} // verus!
