use agility::api::{LiftInto, Liftable};
use agility::signal::{Signal, SignalGraph};
use agility::value::Value;
use std::cell::RefCell;
use std::rc::Rc;

type Func = Box<dyn Fn(&Value<i32>) -> Value<i32>>;
type Graph = SignalGraph<i32, Func>;

/// A point whose coordinates are signals, lifted into one signal of points.
struct Point {
    x: Signal,
    y: Signal,
}

impl Point {
    fn lift(self, g: &mut Graph) -> Signal {
        let lifted = [&self.x, &self.y].lift(g);
        self.x.drop(g);
        self.y.drop(g);
        lifted
    }
}

fn coordinate(v: &Value<i32>, i: usize) -> i32 {
    v.slot(i).and_then(|s| s.item()).expect("a coordinate")
}

fn with_coordinate(v: &Value<i32>, i: usize, to: i32) -> Value<i32> {
    let mut items = v.to_vec();
    items[i] = Value::Item(to);
    Value::from_vec(items)
}

#[test]
fn it_works() {
    let mut g: Graph = SignalGraph::new();
    let lines: Rc<RefCell<Vec<String>>> = Rc::default();
    let p = Point {
        x: Signal::new(&mut g, Value::Item(1)),
        y: Signal::new(&mut g, Value::Item(2)),
    };

    let lifted = p.lift(&mut g);
    let seen = lines.clone();
    lifted
        .with(
            &mut g,
            Box::new(move |pt| {
                seen.borrow_mut()
                    .push(format!("Point: ({}, {})", coordinate(pt, 0), coordinate(pt, 1)));
                Value::Nil
            }),
        )
        .drop(&mut g);
    assert_eq!(lines.borrow_mut().drain(..).collect::<Vec<_>>(), vec!["Point: (1, 2)"]);

    let first = lifted.send_with(&mut g, |p| with_coordinate(p, 0, 10));
    let second = lifted.send_with(&mut g, |p| with_coordinate(p, 1, 20));
    first.drop(&mut g);
    assert!(lines.borrow().is_empty());
    second.drop(&mut g);
    assert_eq!(lines.borrow_mut().drain(..).collect::<Vec<_>>(), vec!["Point: (10, 20)"]);
}

#[test]
fn lifting_a_vector() {
    let mut g: Graph = SignalGraph::new();
    let a = Signal::new(&mut g, Value::Item(1));
    let b = Signal::new(&mut g, Value::Item(2));
    let c = Signal::new(&mut g, Value::Item(3));
    let d = vec![&a, &b, &c].lift(&mut g);
    assert_eq!(d.get(&g).to_vec(), vec![Value::Item(1), Value::Item(2), Value::Item(3)]);
    a.send(&mut g, Value::Item(10)).drop(&mut g);
    assert_eq!(d.get(&g).to_vec(), vec![Value::Item(10), Value::Item(2), Value::Item(3)]);
    let first = b.send(&mut g, Value::Item(20));
    let second = c.send(&mut g, Value::Item(30));
    let fired = first.and(second).drop(&mut g);
    assert_eq!(fired, vec![b.id(), c.id(), d.id()]);
    assert_eq!(d.get(&g).to_vec(), vec![Value::Item(10), Value::Item(20), Value::Item(30)]);
}

#[test]
fn lifting_nothing() {
    let mut g: Graph = SignalGraph::new();
    let none: Vec<Signal> = Vec::new();
    let d = none.lift(&mut g);
    assert_eq!(d.get(&g), Value::Nil);
    assert_eq!(g.len(), 1);
}

#[test]
fn a_reference_stands_for_its_signal() {
    let mut g: Graph = SignalGraph::new();
    let a = Signal::new(&mut g, Value::Item(1));
    assert_eq!(Liftable::as_ref(&a).id(), a.id());
    assert_eq!(Liftable::as_ref(&&a).id(), a.id());
}
