use agility::api::LiftIntoSync;
use agility::signal::{Signal, SignalGraph};
use agility::signal_sync::{SignalGraphSync, SignalSync, WeakSignalRefSync};
use agility::value::Value;
use std::sync::{Arc, Mutex};

type Func = Box<dyn Fn(&Value<i32>) -> Value<i32> + Send + Sync>;
type Graph = SignalGraphSync<i32, Func>;
type Log = Arc<Mutex<Vec<String>>>;

fn num(v: &Value<i32>) -> i32 {
    v.item().expect("a plain item")
}

fn nums(v: &Value<i32>) -> Vec<i32> {
    v.to_vec().iter().map(num).collect()
}

fn map_int(f: impl Fn(i32) -> i32 + Send + Sync + 'static) -> Func {
    Box::new(move |v| Value::Item(f(num(v))))
}

fn observe(log: &Log, line: impl Fn(&Value<i32>) -> String + Send + Sync + 'static) -> Func {
    let log = log.clone();
    Box::new(move |v| {
        log.lock().unwrap().push(line(v));
        Value::Nil
    })
}

fn taken(log: &Log) -> Vec<String> {
    log.lock().unwrap().drain(..).collect()
}

fn crosses_threads<X: Send>(_: &X) {}

#[test]
fn test_signal_sync_basic() {
    let mut g: Graph = SignalGraphSync::new();
    let log: Log = Log::default();
    let a = SignalSync::new(&mut g, Value::Item(0));
    let _a = a.map(&mut g, observe(&log, |x| format!("a changed: {}", num(x))));
    taken(&log);
    let first = a.send(&mut g, Value::Item(100));
    let second = a.send(&mut g, Value::Item(5));
    first.drop(&mut g);
    assert!(taken(&log).is_empty());
    second.drop(&mut g);
    assert_eq!(taken(&log), vec!["a changed: 5"]);
    crosses_threads(&g);
}

#[test]
fn test_signal_sync_map() {
    let mut g: Graph = SignalGraphSync::new();
    let log: Log = Log::default();
    let a = SignalSync::new(&mut g, Value::Item(0));
    let b = a.map(&mut g, map_int(|x| x * 2));
    let _b = b.map(&mut g, observe(&log, |x| format!("b changed: {}", num(x))));
    taken(&log);
    let link = WeakSignalRefSync::new(&b);
    assert!(link.is_alive(&g));
    b.drop(&mut g);
    assert!(!link.is_alive(&g));
    assert!(link.upgrade(&mut g).is_none());
    a.send(&mut g, Value::Item(100)).drop(&mut g);
    assert!(taken(&log).is_empty());
}

#[test]
fn test_signal_sync_combine() {
    let mut g: Graph = SignalGraphSync::new();
    let log: Log = Log::default();
    let a = SignalSync::new(&mut g, Value::Item(0));
    let b = a.map(&mut g, map_int(|x| x * 2));
    let ab = a.and(&mut g, &b);
    let _ab = ab.map(
        &mut g,
        observe(&log, |v| {
            let p = nums(v);
            format!("c changed: {} + {} = {}", p[0], p[1], p[0] + p[1])
        }),
    );
    let ab_id = ab.id();
    ab.drop(&mut g);
    assert!(g.is_alive(ab_id));
    taken(&log);
    let first = a.send(&mut g, Value::Item(5));
    let second = a.send(&mut g, Value::Item(100));
    first.drop(&mut g);
    second.drop(&mut g);
    assert_eq!(taken(&log), vec!["c changed: 100 + 200 = 300"]);
}

#[test]
fn signal_sync_test_signal5() {
    let mut g: Graph = SignalGraphSync::new();
    let log: Log = Log::default();
    let result = SignalSync::new(&mut g, Value::Item(42));
    let source1 = result.contramap(&mut g, map_int(|x| x + 1));
    let source2 = source1.contramap(&mut g, map_int(|x| x * 2));

    let _observer_1 = result.map(&mut g, observe(&log, |x| format!("result changed: {}", num(x))));
    let _observer_2 =
        source1.map(&mut g, observe(&log, |x| format!("source1 changed: {}", num(x))));
    let _observer_3 =
        source2.map(&mut g, observe(&log, |x| format!("source2 changed: {}", num(x))));
    taken(&log);

    source1.send(&mut g, Value::Item(100)).drop(&mut g);
    assert_eq!(taken(&log), vec!["source1 changed: 100", "result changed: 101"]);

    source2.send(&mut g, Value::Item(200)).drop(&mut g);
    assert_eq!(
        taken(&log),
        vec!["source2 changed: 200", "source1 changed: 400", "result changed: 401"]
    );

    let first = source1.send(&mut g, Value::Item(300));
    let second = source2.send(&mut g, Value::Item(400));
    first.drop(&mut g);
    second.drop(&mut g);
    assert_eq!(
        taken(&log),
        vec!["source2 changed: 400", "source1 changed: 800", "result changed: 801"]
    );
}

#[test]
fn test_depend_sync() {
    let mut g: Graph = SignalGraphSync::new();
    let log: Log = Log::default();
    let a = SignalSync::new(&mut g, Value::Item(10));
    let b = SignalSync::new(&mut g, Value::Item(10));
    let c = SignalSync::new(&mut g, Value::Item(10));

    let _observer_a = a.map(&mut g, observe(&log, |x| format!("a changed: {}", num(x))));
    let _observer_b = b.map(&mut g, observe(&log, |x| format!("b changed: {}", num(x))));
    let _observer_c = c.map(&mut g, observe(&log, |x| format!("c changed: {}", num(x))));
    taken(&log);

    let b = c.depend(&mut g, b);
    let a = b.depend(&mut g, a);

    let first = a.send(&mut g, Value::Item(42));
    let second = b.send(&mut g, Value::Item(88));
    first.drop(&mut g);
    second.drop(&mut g);
    assert_eq!(taken(&log), vec!["a changed: 42", "b changed: 88", "c changed: 88"]);
    assert_eq!(a.get(&g), Value::Item(42));
    assert_eq!(b.get(&g), Value::Item(10));
    assert_eq!(c.get(&g), Value::Item(88));
}

/// One scenario run on both kinds of graph: the cells end with the same
/// values and fire in the same order.
#[test]
fn twin_gives_the_same_values() {
    let mut shared: Graph = SignalGraphSync::new();
    let a = SignalSync::new(&mut shared, Value::Item(1));
    let b = a.map(&mut shared, map_int(|x| x + 1));
    let c = a.map(&mut shared, map_int(|x| x * 10));
    let d = (&b, &c).lift(&mut shared);
    let fired_shared = a.send(&mut shared, Value::Item(4)).drop(&mut shared);

    let mut own: SignalGraph<i32, Func> = SignalGraph::new();
    let a1 = Signal::new(&mut own, Value::Item(1));
    let b1 = a1.map(&mut own, map_int(|x| x + 1));
    let c1 = a1.map(&mut own, map_int(|x| x * 10));
    let d1 = b1.combine(&mut own, &c1);
    let fired_own = a1.send(&mut own, Value::Item(4)).drop(&mut own);

    assert_eq!(fired_shared, fired_own);
    assert_eq!(d.get(&shared), d1.get(&own));
    assert_eq!(nums(&d.get(&shared)), vec![5, 40]);

    let moved = SignalGraphSync::share(own);
    assert_eq!(d1.get(&moved.into_inner()), d.get(&shared));
}

/// A graph behind a lock: each writer takes the lock for its batch.
#[test]
fn shared_behind_a_lock() {
    let shared = Arc::new(Mutex::new(Graph::new()));
    let a = SignalSync::new(&mut shared.lock().unwrap(), Value::Item(0));
    let b = a.map(&mut shared.lock().unwrap(), map_int(|x| x + 1));
    for writer in 0..4 {
        let graph = shared.clone();
        let mut g = graph.lock().unwrap();
        a.send(&mut g, Value::Item(writer)).drop(&mut g);
    }
    assert_eq!(b.get(&shared.lock().unwrap()), Value::Item(4));
}

fn two_chains(g: &mut Graph) -> [SignalSync; 4] {
    let a = SignalSync::new(g, Value::Item(1));
    let a2 = a.map(g, map_int(|x| x + 1));
    let b = SignalSync::new(g, Value::Item(10));
    let b2 = b.map(g, map_int(|x| x * 2));
    [a, a2, b, b2]
}

/// Two writers on unrelated cells: however the releases of their visits
/// fall, the cells end with the same values.
#[test]
fn interleaved_releases_of_unrelated_writes_agree() {
    let mut one: Graph = SignalGraphSync::new();
    let cells = two_chains(&mut one);
    let first = cells[0].send(&mut one, Value::Item(5));
    let second = cells[2].send(&mut one, Value::Item(50));
    first.drop(&mut one);
    second.drop(&mut one);

    let mut other: Graph = SignalGraphSync::new();
    let twins = two_chains(&mut other);
    let mut first = twins[0].send(&mut other, Value::Item(5)).into_tokens();
    let mut second = twins[2].send(&mut other, Value::Item(50)).into_tokens();
    // the visits in turn, the second writer first
    let (a2, a) = (first.pop().unwrap(), first.pop().unwrap());
    let (b2, b) = (second.pop().unwrap(), second.pop().unwrap());
    assert!(b.drop(&mut other));
    assert!(a.drop(&mut other));
    assert!(a2.drop(&mut other));
    assert!(b2.drop(&mut other));

    for i in 0..4 {
        assert_eq!(cells[i].get(&one), twins[i].get(&other));
    }
    assert_eq!(cells[1].get(&one), Value::Item(6));
    assert_eq!(cells[3].get(&one), Value::Item(100));
}
