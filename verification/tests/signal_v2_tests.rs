use agility::signal_v2::{Signal, SignalGraph};
use agility::value::Value;
use std::cell::RefCell;
use std::rc::Rc;

type Func = Box<dyn Fn(&Value<i32>) -> Value<i32>>;
type Graph = SignalGraph<i32, Func>;

fn num(v: &Value<i32>) -> i32 {
    v.item().expect("a plain item")
}

fn map_int(f: impl Fn(i32) -> i32 + 'static) -> Func {
    Box::new(move |v| Value::Item(f(num(v))))
}

#[test]
fn signal_v2_test_signal() {
    let mut g: Graph = SignalGraph::new();
    let lines: Rc<RefCell<Vec<String>>> = Rc::default();
    let signal = Signal::new(&mut g, Value::Item(0));
    let seen = lines.clone();
    let _a = signal.map(
        &mut g,
        map_int(move |i| {
            seen.borrow_mut().push(format!("Mapping signal value: {}", i));
            i + 1
        }),
    );
    signal.send(&mut g, Value::Item(5));
    assert_eq!(_a.get(&g), Value::Item(6));
    signal.send(&mut g, Value::Item(10));
    assert_eq!(
        *lines.borrow(),
        vec!["Mapping signal value: 0", "Mapping signal value: 5", "Mapping signal value: 10"]
    );
    assert_eq!(_a.get(&g), Value::Item(11));
    assert_eq!(signal.get(&g), Value::Item(10));
}

#[test]
fn a_write_reaches_every_level_at_once() {
    let mut g: Graph = SignalGraph::new();
    let a = Signal::new(&mut g, Value::Item(1));
    let b = a.map(&mut g, map_int(|x| x + 1));
    let c = b.map(&mut g, map_int(|x| x * 10));
    let d = a.map(&mut g, map_int(|x| -x));
    assert_eq!(g.len(), 4);
    assert_eq!(c.get(&g), Value::Item(20));
    a.send(&mut g, Value::Item(4));
    assert_eq!(b.get(&g), Value::Item(5));
    assert_eq!(c.get(&g), Value::Item(50));
    assert_eq!(d.get(&g), Value::Item(-4));
    // a write to a derived cell passes on from there
    b.send(&mut g, Value::Item(7));
    assert_eq!(c.get(&g), Value::Item(70));
    assert_eq!(a.get(&g), Value::Item(4));
}

#[test]
fn a_change_in_place_is_passed_on() {
    let mut g: Graph = SignalGraph::new();
    let a = Signal::new(&mut g, Value::Item(3));
    let b = a.map(&mut g, map_int(|x| x * 2));
    a.send_with(&mut g, |v| Value::Item(num(v) + 1));
    assert_eq!(a.get(&g), Value::Item(4));
    assert_eq!(b.get(&g), Value::Item(8));
    assert_eq!(b.id(), 1);
}
