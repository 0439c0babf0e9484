//! Values held by cells.
//!
//! A cell of the graph holds one [`Value`]: a plain item, or a tuple of
//! values. Tuples are what the combining operators build: every source cell
//! owns one slot of the tuple, and a reaction of that source exchanges the
//! source's value with the content of its slot.
use vstd::prelude::*;

verus! {

/// A value stored in a cell.
///
/// `Nil` is the empty tuple; `Cons(head, tail)` is the tuple whose first slot
/// is `head` and whose other slots are those of `tail`.
#[derive(Debug, PartialEq, Eq)]
pub enum Value<T> {
    Nil,
    Item(T),
    Cons(Box<Value<T>>, Box<Value<T>>),
}

impl<T> Value<T> {
    /// The slots of a tuple, in order; a value that is no tuple has none.
    pub open spec fn slots(self) -> Seq<Value<T>>
        decreases self,
    {
        match self {
            Value::Cons(head, tail) => seq![*head] + tail.slots(),
            _ => Seq::empty(),
        }
    }

    /// The tuple `self` with slot `i` replaced by `v`; `self` where it has no
    /// slot `i`.
    pub open spec fn with_slot(self, i: int, v: Value<T>) -> Value<T>
        decreases self,
    {
        match self {
            Value::Cons(head, tail) => if i == 0 {
                Value::Cons(Box::new(v), tail)
            } else {
                Value::Cons(head, Box::new(tail.with_slot(i - 1, v)))
            },
            other => other,
        }
    }

    /// The tuple whose slots are the elements of `items`.
    pub open spec fn tuple(items: Seq<Value<T>>) -> Value<T>
        decreases items.len(),
    {
        if items.len() == 0 {
            Value::Nil
        } else {
            Value::Cons(Box::new(items[0]), Box::new(Value::tuple(items.drop_first())))
        }
    }

    /// The two-slot tuple `(first, second)`.
    pub open spec fn pair_of(first: Value<T>, second: Value<T>) -> Value<T> {
        Value::Cons(Box::new(first), Box::new(Value::Cons(Box::new(second), Box::new(Value::Nil))))
    }

    /// A tuple built from a sequence has exactly that sequence as its slots.
    pub proof fn lemma_tuple_slots(items: Seq<Value<T>>)
        ensures
            Value::tuple(items).slots() == items,
        decreases items.len(),
    {
        if items.len() > 0 {
            Self::lemma_tuple_slots(items.drop_first());
            assert(seq![items[0]] + items.drop_first() =~= items);
        } else {
            assert(Value::<T>::Nil.slots() =~= items);
        }
    }

    /// Replacing slot `i` changes that slot and no other.
    pub proof fn lemma_with_slot(self, i: int, v: Value<T>)
        requires
            0 <= i < self.slots().len(),
        ensures
            self.with_slot(i, v).slots() == self.slots().update(i, v),
        decreases self,
    {
        match self {
            Value::Cons(head, tail) => {
                if i == 0 {
                    assert(self.with_slot(i, v).slots() =~= self.slots().update(i, v));
                } else {
                    tail.lemma_with_slot(i - 1, v);
                    assert(self.with_slot(i, v).slots() =~= self.slots().update(i, v));
                }
            },
            _ => {},
        }
    }

    /// A pair is the tuple of its two components.
    pub proof fn lemma_pair_is_tuple(first: Value<T>, second: Value<T>)
        ensures
            Value::pair_of(first, second) == Value::tuple(seq![first, second]),
            Value::pair_of(first, second).slots() == seq![first, second],
    {
        let s = seq![first, second];
        assert(s.drop_first() =~= seq![second]);
        assert(seq![second].drop_first() =~= Seq::<Value<T>>::empty());
        assert(Value::tuple(seq![second]) == Value::Cons(
            Box::new(second),
            Box::new(Value::tuple(Seq::<Value<T>>::empty())),
        ));
        Self::lemma_tuple_slots(s);
    }

    /// Builds the two-slot tuple `(first, second)`.
    pub fn pair(first: Value<T>, second: Value<T>) -> (r: Value<T>)
        ensures
            r == Value::pair_of(first, second),
    {
        Value::Cons(Box::new(first), Box::new(Value::Cons(Box::new(second), Box::new(Value::Nil))))
    }

    /// Builds the tuple whose slots are the elements of `items`, in order.
    pub fn from_vec(items: Vec<Value<T>>) -> (r: Value<T>)
        ensures
            r == Value::tuple(items@),
    {
        let mut items = items;
        let ghost all = items@;
        let mut acc: Value<T> = Value::Nil;
        assert(all.subrange(all.len() as int, all.len() as int) =~= Seq::empty());
        while items.len() > 0
            invariant
                items@ == all.subrange(0, items.len() as int),
                items.len() <= all.len(),
                acc == Value::tuple(all.subrange(items.len() as int, all.len() as int)),
            decreases items.len(),
        {
            let ghost n = items.len() as int;
            let last = items.pop().unwrap();
            proof {
                let rest = all.subrange(n - 1, all.len() as int);
                assert(rest.drop_first() =~= all.subrange(n, all.len() as int));
                assert(rest[0] == last);
                assert(items@ =~= all.subrange(0, n - 1));
            }
            acc = Value::Cons(Box::new(last), Box::new(acc));
        }
        assert(all.subrange(0, all.len() as int) =~= all);
        acc
    }

    /// Whether the value is a tuple with a slot `i`.
    pub fn has_slot(&self, i: usize) -> (r: bool)
        ensures
            r == (i < self.slots().len()),
        decreases self,
    {
        match self {
            Value::Cons(_, tail) => i == 0 || tail.has_slot(i - 1),
            _ => false,
        }
    }

    /// Exchanges the content of slot `i` with `other`.
    ///
    /// Returns whether the exchange took place: a value without a slot `i`
    /// is left as it is, and so is `other`.
    pub fn exchange_slot(&mut self, i: usize, other: &mut Value<T>) -> (done: bool)
        ensures
            done == (i < old(self).slots().len()),
            done ==> *final(other) == old(self).slots()[i as int] && *final(self) == old(
                self,
            ).with_slot(i as int, *old(other)),
            !done ==> *final(other) == *old(other) && *final(self) == *old(self),
        decreases *old(self),
    {
        match self {
            Value::Cons(head, tail) => {
                if i == 0 {
                    std::mem::swap(&mut **head, other);
                    true
                } else {
                    tail.exchange_slot(i - 1, other)
                }
            },
            _ => false,
        }
    }
}

impl<T: Copy> Value<T> {
    /// A copy of the value.
    pub fn duplicate(&self) -> (r: Value<T>)
        ensures
            r == *self,
        decreases self,
    {
        match self {
            Value::Nil => Value::Nil,
            Value::Item(t) => Value::Item(*t),
            Value::Cons(head, tail) => Value::Cons(
                Box::new(head.duplicate()),
                Box::new(tail.duplicate()),
            ),
        }
    }

    /// The item held, if the value is a plain item.
    pub fn item(&self) -> (r: Option<T>)
        ensures
            r == (match *self {
                Value::Item(t) => Some(t),
                _ => None,
            }),
    {
        match self {
            Value::Item(t) => Some(*t),
            _ => None,
        }
    }

    /// A copy of slot `i`, if the value is a tuple that has one.
    pub fn slot(&self, i: usize) -> (r: Option<Value<T>>)
        ensures
            r == (if i < self.slots().len() {
                Some(self.slots()[i as int])
            } else {
                None
            }),
        decreases self,
    {
        match self {
            Value::Cons(head, tail) => {
                if i == 0 {
                    Some(head.duplicate())
                } else {
                    tail.slot(i - 1)
                }
            },
            _ => None,
        }
    }

    /// Copies of the slots of a tuple, in order.
    pub fn to_vec(&self) -> (r: Vec<Value<T>>)
        ensures
            r@ == self.slots(),
    {
        let mut out: Vec<Value<T>> = Vec::new();
        let mut cur = self;
        assert(out@ + cur.slots() =~= self.slots());
        loop
            invariant
                out@ + cur.slots() == self.slots(),
            ensures
                out@ == self.slots(),
            decreases cur,
        {
            match cur {
                Value::Cons(head, tail) => {
                    out.push(head.duplicate());
                    assert(out@ + tail.slots() =~= self.slots());
                    cur = &**tail;
                },
                _ => {
                    assert(out@ + cur.slots() =~= out@);
                    break ;
                },
            }
        }
        out
    }
}

} // verus!
