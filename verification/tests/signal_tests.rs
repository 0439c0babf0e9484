use agility::api::LiftInto;
use agility::signal::{Signal, SignalGraph};
use agility::value::Value;
use std::cell::RefCell;
use std::rc::Rc;

type Func = Box<dyn Fn(&Value<i32>) -> Value<i32>>;
type Graph = SignalGraph<i32, Func>;
type Log = Rc<RefCell<Vec<String>>>;

fn num(v: &Value<i32>) -> i32 {
    v.item().expect("a plain item")
}

fn nums(v: &Value<i32>) -> Vec<i32> {
    v.to_vec().iter().map(num).collect()
}

fn list(items: &[i32]) -> Value<i32> {
    Value::from_vec(items.iter().map(|x| Value::Item(*x)).collect())
}

fn map_int(f: impl Fn(i32) -> i32 + 'static) -> Func {
    Box::new(move |v| Value::Item(f(num(v))))
}

/// A reaction function that records what it sees and yields the empty tuple.
fn observe(log: &Log, line: impl Fn(&Value<i32>) -> String + 'static) -> Func {
    let log = log.clone();
    Box::new(move |v| {
        log.borrow_mut().push(line(v));
        Value::Nil
    })
}

fn taken(log: &Log) -> Vec<String> {
    log.borrow_mut().drain(..).collect()
}

#[test]
fn signal_test_signal() {
    let mut g: Graph = SignalGraph::new();
    let log: Log = Log::default();
    let a = Signal::new(&mut g, Value::Item(0));
    let _a = a.map(&mut g, observe(&log, |x| format!("a changed: {}", num(x))));
    assert_eq!(taken(&log), vec!["a changed: 0"]);
    let first = a.send(&mut g, Value::Item(100));
    let second = a.send(&mut g, Value::Item(5));
    assert_eq!(first.drop(&mut g), Vec::<usize>::new());
    assert!(taken(&log).is_empty());
    assert_eq!(second.drop(&mut g), vec![a.id(), _a.id()]);
    assert_eq!(taken(&log), vec!["a changed: 5"]);
    assert_eq!(a.get(&g), Value::Item(5));
}

#[test]
fn test_signal1() {
    let mut g: Graph = SignalGraph::new();
    let log: Log = Log::default();
    let a = Signal::new(&mut g, Value::Item(0));
    let b = a.map(&mut g, map_int(|x| x * 2));
    let _b = b.map(&mut g, observe(&log, |x| format!("b changed: {}", num(x))));
    taken(&log);
    let b_id = b.id();
    b.drop(&mut g);
    assert!(!g.is_alive(b_id));
    let guard = a.send(&mut g, Value::Item(100));
    assert_eq!(guard.drop(&mut g), vec![a.id()]);
    assert!(taken(&log).is_empty());
    assert_eq!(a.get(&g), Value::Item(100));
}

#[test]
fn test_signal2() {
    let mut g: Graph = SignalGraph::new();
    let log: Log = Log::default();
    let a = Signal::new(&mut g, Value::Item(0));
    let b = a.map(&mut g, map_int(|x| x * 2));
    let ab = a.combine(&mut g, &b);
    let _ab = ab.map(
        &mut g,
        observe(&log, |v| {
            let p = nums(v);
            format!("c changed: {} + {} = {}", p[0], p[1], p[0] + p[1])
        }),
    );
    taken(&log);
    let first = a.send(&mut g, Value::Item(5));
    let second = a.send(&mut g, Value::Item(100));
    first.drop(&mut g);
    assert!(taken(&log).is_empty());
    second.drop(&mut g);
    assert_eq!(taken(&log), vec!["c changed: 100 + 200 = 300"]);
    assert_eq!(nums(&ab.get(&g)), vec![100, 200]);
}

#[test]
fn test_signal3() {
    let mut g: Graph = SignalGraph::new();
    let log: Log = Log::default();
    let a = Signal::new(&mut g, Value::Item(0));
    let b = a.map(&mut g, map_int(|x| x * 2));
    let ab = (&a, &b).lift(&mut g);
    let _ab = ab.map(
        &mut g,
        observe(&log, |v| {
            let p = nums(v);
            format!("c changed: {} + {} = {}", p[0], p[1], p[0] + p[1])
        }),
    );
    taken(&log);
    let first = a.send(&mut g, Value::Item(5));
    let second = b.send(&mut g, Value::Item(100));
    first.drop(&mut g);
    second.drop(&mut g);
    assert_eq!(taken(&log), vec!["c changed: 5 + 100 = 105"]);
}

#[test]
fn test_signal4() {
    let mut g: Graph = SignalGraph::new();
    let log: Log = Log::default();
    let a = Signal::new(&mut g, Value::Item(0));
    let b = Signal::new(&mut g, Value::Item(10));
    let c = Signal::new(&mut g, Value::Item(20));
    let abc = [&a, &b, &c].lift(&mut g);
    assert_eq!(nums(&abc.get(&g)), vec![0, 10, 20]);
    let _abc = abc.map(
        &mut g,
        observe(&log, |v| {
            let p = nums(v);
            format!("d changed: {} + {} + {} = {}", p[0], p[1], p[2], p[0] + p[1] + p[2])
        }),
    );
    let d = Signal::new(&mut g, Value::Item(0));
    let abcd = abc.combine(&mut g, &d);
    let _abcd = abcd.map(
        &mut g,
        observe(&log, |v| {
            let pair = v.to_vec();
            let p = nums(&pair[0]);
            let q = num(&pair[1]);
            format!(
                "e changed: {} + {} + {} + {} = {}",
                p[0],
                p[1],
                p[2],
                q,
                p.iter().sum::<i32>() + q
            )
        }),
    );
    taken(&log);
    let g1 = a.send(&mut g, Value::Item(5));
    let g2 = b.send(&mut g, Value::Item(15));
    let g3 = c.send(&mut g, Value::Item(25));
    let g4 = abc.send(&mut g, list(&[2, 3, 4]));
    assert_eq!(abc.dirty(&g), 4);
    g1.drop(&mut g);
    g2.drop(&mut g);
    g3.drop(&mut g);
    assert!(taken(&log).is_empty());
    g4.drop(&mut g);
    assert_eq!(
        taken(&log),
        vec!["d changed: 2 + 3 + 4 = 9", "e changed: 2 + 3 + 4 + 0 = 9"]
    );
    assert_eq!(abc.dirty(&g), 0);
    assert!(!abc.is_explicitly_modified(&g));
}

#[test]
fn signal_test_signal5() {
    let mut g: Graph = SignalGraph::new();
    let log: Log = Log::default();
    let result = Signal::new(&mut g, Value::Item(42));
    let source1 = result.contramap(&mut g, map_int(|x| x + 1));
    let source2 = source1.contramap(&mut g, map_int(|x| x * 2));
    assert_eq!(source1.get(&g), Value::Item(0));

    let _observer_1 = result.map(&mut g, observe(&log, |x| format!("result changed: {}", num(x))));
    let _observer_2 =
        source1.map(&mut g, observe(&log, |x| format!("source1 changed: {}", num(x))));
    let _observer_3 =
        source2.map(&mut g, observe(&log, |x| format!("source2 changed: {}", num(x))));
    taken(&log);

    source1.send(&mut g, Value::Item(100)).drop(&mut g);
    assert_eq!(taken(&log), vec!["source1 changed: 100", "result changed: 101"]);

    source2.send(&mut g, Value::Item(200)).drop(&mut g);
    assert_eq!(
        taken(&log),
        vec!["source2 changed: 200", "source1 changed: 400", "result changed: 401"]
    );

    let first = source1.send(&mut g, Value::Item(300));
    let second = source2.send(&mut g, Value::Item(400));
    first.drop(&mut g);
    second.drop(&mut g);
    assert_eq!(
        taken(&log),
        vec!["source2 changed: 400", "source1 changed: 800", "result changed: 801"]
    );
    assert_eq!(result.get(&g), Value::Item(801));
}

#[test]
fn test_promap_forward() {
    let mut g: Graph = SignalGraph::new();
    let log: Log = Log::default();
    let source = Signal::new(&mut g, Value::Item(10));
    let derived = source.promap(&mut g, map_int(|x| x * 2), map_int(|y| y / 2));
    assert_eq!(derived.get(&g), Value::Item(0));

    derived
        .map(&mut g, observe(&log, |x| format!("derived changed: {}", num(x))))
        .drop(&mut g);
    assert_eq!(taken(&log), vec!["derived changed: 0"]);
    source.send(&mut g, Value::Item(5)).drop(&mut g);
    assert!(taken(&log).is_empty());
    assert_eq!(derived.get(&g), Value::Item(10));
    assert_eq!(source.get(&g), Value::Item(5));
}

#[test]
fn test_promap_backward() {
    let mut g: Graph = SignalGraph::new();
    let log: Log = Log::default();
    let source = Signal::new(&mut g, Value::Item(10));
    let derived = source.promap(&mut g, map_int(|x| x * 2), map_int(|y| y / 2));

    source
        .map(&mut g, observe(&log, |x| format!("source changed: {}", num(x))))
        .drop(&mut g);
    derived
        .map(&mut g, observe(&log, |x| format!("derived changed: {}", num(x))))
        .drop(&mut g);
    taken(&log);
    let fired = derived.send(&mut g, Value::Item(50)).drop(&mut g);
    assert_eq!(fired, vec![derived.id(), source.id()]);
    assert!(taken(&log).is_empty());
    assert_eq!(source.get(&g), Value::Item(25));
    assert_eq!(derived.get(&g), Value::Item(50));
}

#[test]
fn test_promap_bidirectional() {
    let mut g: Graph = SignalGraph::new();
    let log: Log = Log::default();
    let a = Signal::new(&mut g, Value::Item(10));
    let b = a.promap(&mut g, map_int(|x| x * 2), map_int(|y| y / 2));
    let c = b.promap(&mut g, map_int(|x| x + 3), map_int(|y| y - 3));

    let _observer_a = a.map(&mut g, observe(&log, |x| format!("a changed: {}", num(x))));
    let _observer_b = b.map(&mut g, observe(&log, |x| format!("b changed: {}", num(x))));
    let _observer_c = c.map(&mut g, observe(&log, |x| format!("c changed: {}", num(x))));
    taken(&log);

    a.send(&mut g, Value::Item(5)).drop(&mut g);
    assert_eq!(taken(&log), vec!["a changed: 5", "b changed: 10", "c changed: 13"]);

    c.send(&mut g, Value::Item(13)).drop(&mut g);
    assert_eq!(taken(&log), vec!["c changed: 13", "b changed: 10", "a changed: 5"]);

    b.send(&mut g, Value::Item(10)).drop(&mut g);
    assert_eq!(taken(&log), vec!["b changed: 10", "c changed: 13", "a changed: 5"]);

    let first = a.send(&mut g, Value::Item(20));
    let second = c.send(&mut g, Value::Item(50));
    first.and(second).drop(&mut g);
    assert_eq!(taken(&log), vec!["c changed: 50", "b changed: 47", "a changed: 23"]);
    assert_eq!(a.get(&g), Value::Item(23));
    assert_eq!(b.get(&g), Value::Item(46));
    assert_eq!(c.get(&g), Value::Item(50));

    let first = b.send(&mut g, Value::Item(30));
    let second = c.send(&mut g, Value::Item(60));
    first.drop(&mut g);
    second.drop(&mut g);
    assert_eq!(taken(&log), vec!["c changed: 60", "b changed: 57", "a changed: 28"]);
}

#[test]
fn test_high_order_signal() {
    // The derived cell holds what an inner signal starts from; the inner
    // signal is made from it and written, as the reactions of the derived
    // cell would.
    let mut g: Graph = SignalGraph::new();
    let log: Log = Log::default();
    let source = Signal::new(&mut g, Value::Item(0));
    let derived = source.map(&mut g, map_int(|x| x + 1));
    source.send(&mut g, Value::Item(5)).drop(&mut g);
    assert_eq!(derived.get(&g), Value::Item(6));

    let start = derived.get(&g);
    let inner = Signal::new(&mut g, start);
    let _observer =
        inner.map(&mut g, observe(&log, |x| format!("derived changed: {}", num(x))));
    assert_eq!(taken(&log), vec!["derived changed: 6"]);
    inner.send(&mut g, Value::Item(233)).drop(&mut g);
    assert_eq!(taken(&log), vec!["derived changed: 233"]);
}

#[test]
fn test_depend() {
    let mut g: Graph = SignalGraph::new();
    let log: Log = Log::default();
    let a = Signal::new(&mut g, Value::Item(10));
    let b = Signal::new(&mut g, Value::Item(10));
    let c = Signal::new(&mut g, Value::Item(10));

    let _observer_a = a.map(&mut g, observe(&log, |x| format!("a changed: {}", num(x))));
    let _observer_b = b.map(&mut g, observe(&log, |x| format!("b changed: {}", num(x))));
    let _observer_c = c.map(&mut g, observe(&log, |x| format!("c changed: {}", num(x))));
    taken(&log);

    let doubled = b.with(&mut g, map_int(|x| x * 2));
    let doubled_id = doubled.id();
    c.depend(&mut g, doubled).drop(&mut g);
    assert!(g.is_alive(doubled_id));
    let a_again = a.clone(&mut g);
    b.depend(&mut g, a_again).drop(&mut g);

    a.send(&mut g, Value::Item(42)).drop(&mut g);
    assert_eq!(taken(&log), vec!["a changed: 42", "b changed: 42", "c changed: 84"]);
    assert_eq!(a.get(&g), Value::Item(10));
    assert_eq!(b.get(&g), Value::Item(42));
    assert_eq!(c.get(&g), Value::Item(84));
}

#[test]
fn test_depend2() {
    let mut g: Graph = SignalGraph::new();
    let log: Log = Log::default();
    let a = Signal::new(&mut g, Value::Item(10));
    let b = a.map(&mut g, map_int(|x| x));
    let c = b.map(&mut g, map_int(|x| x));

    let _observer_a = a.map(&mut g, observe(&log, |x| format!("a changed: {}", num(x))));
    let _observer_b = b.map(&mut g, observe(&log, |x| format!("b changed: {}", num(x))));
    let _observer_c = c.map(&mut g, observe(&log, |x| format!("c changed: {}", num(x))));
    taken(&log);

    let first = a.send(&mut g, Value::Item(42));
    let second = b.send(&mut g, Value::Item(88));
    first.drop(&mut g);
    second.drop(&mut g);
    assert_eq!(taken(&log), vec!["a changed: 42", "b changed: 88", "c changed: 88"]);
    assert_eq!(c.get(&g), Value::Item(88));
}
