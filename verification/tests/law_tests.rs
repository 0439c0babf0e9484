use agility::signal::{Signal, SignalGraph, WeakSignalRef};
use agility::value::Value;
use std::cell::RefCell;
use std::rc::Rc;

type Func = Box<dyn Fn(&Value<i32>) -> Value<i32>>;
type Graph = SignalGraph<i32, Func>;
type Log = Rc<RefCell<Vec<Vec<i32>>>>;

fn num(v: &Value<i32>) -> i32 {
    v.item().expect("a plain item")
}

fn nums(v: &Value<i32>) -> Vec<i32> {
    v.to_vec().iter().map(num).collect()
}

fn map_int(f: impl Fn(i32) -> i32 + 'static) -> Func {
    Box::new(move |v| Value::Item(f(num(v))))
}

/// A reaction function that records the tuple it sees.
fn record(log: &Log) -> Func {
    let log = log.clone();
    Box::new(move |v| {
        log.borrow_mut().push(nums(v));
        Value::Nil
    })
}

fn taken(log: &Log) -> Vec<Vec<i32>> {
    log.borrow_mut().drain(..).collect()
}

#[test]
fn a_diamond_fires_its_tip_once_with_both_sides_new() {
    let mut g: Graph = SignalGraph::new();
    let log = Log::default();
    let a = Signal::new(&mut g, Value::Item(1));
    let b = a.map(&mut g, map_int(|x| x + 1));
    let c = a.map(&mut g, map_int(|x| x * 10));
    let d = b.combine(&mut g, &c);
    let seen = d.map(&mut g, record(&log));
    assert_eq!(taken(&log), vec![vec![2, 10]]);

    let guard = a.send(&mut g, Value::Item(4));
    // `d` and its observer lie on both paths
    assert_eq!(guard.len(), 7);
    assert_eq!(d.dirty(&g), 2);
    let fired = guard.drop(&mut g);
    assert_eq!(fired, vec![a.id(), b.id(), c.id(), d.id(), seen.id()]);
    assert_eq!(taken(&log), vec![vec![5, 40]]);
    assert_eq!(d.dirty(&g), 0);
}

#[test]
fn two_writes_in_one_batch_fire_the_pair_once() {
    let mut g: Graph = SignalGraph::new();
    let log = Log::default();
    let x = Signal::new(&mut g, Value::Item(1));
    let y = Signal::new(&mut g, Value::Item(2));
    let xy = x.combine(&mut g, &y);
    let _seen = xy.map(&mut g, record(&log));
    taken(&log);

    let first = x.send(&mut g, Value::Item(10));
    let second = y.send(&mut g, Value::Item(20));
    let fired = first.and(second).drop(&mut g);
    assert_eq!(fired.iter().filter(|c| **c == xy.id()).count(), 1);
    assert_eq!(taken(&log), vec![vec![10, 20]]);
}

#[test]
fn a_direct_write_wins_within_its_batch() {
    let mut g: Graph = SignalGraph::new();
    let a = Signal::new(&mut g, Value::Item(0));
    let b = a.map(&mut g, map_int(|x| x + 1));

    let direct = b.send(&mut g, Value::Item(100));
    let derived = a.send(&mut g, Value::Item(1));
    assert!(b.is_explicitly_modified(&g));
    direct.drop(&mut g);
    derived.drop(&mut g);
    assert_eq!(b.get(&g), Value::Item(100));
    assert!(!b.is_explicitly_modified(&g));

    // the next batch derives again
    a.send(&mut g, Value::Item(2)).drop(&mut g);
    assert_eq!(b.get(&g), Value::Item(3));
}

#[test]
fn a_weakly_derived_cell_is_reclaimed_with_its_last_handle() {
    let mut g: Graph = SignalGraph::new();
    let log = Log::default();
    let a = Signal::new(&mut g, Value::Item(0));
    let b = a.map(&mut g, record(&log));
    taken(&log);
    let link = WeakSignalRef::new(&b);
    assert!(link.is_alive(&g));
    b.drop(&mut g);
    assert!(!link.is_alive(&g));
    assert!(link.upgrade(&mut g).is_none());
    assert_eq!(g.reaction_count(link.id()), 0);
    assert_eq!(g.value_copy(link.id()), Value::Nil);

    // the link is stored until the next walk through `a` drops it
    assert_eq!(g.count_stored_links(a.id(), true), 1);
    let guard = a.send(&mut g, Value::Item(7));
    assert_eq!(guard.len(), 1);
    assert_eq!(g.count_stored_links(a.id(), true), 0);
    guard.drop(&mut g);
    assert!(taken(&log).is_empty());
    // the reaction stays with `a`
    assert_eq!(a.reactions(&g), 1);
}

#[test]
fn a_strongly_derived_cell_outlives_its_handle() {
    let mut g: Graph = SignalGraph::new();
    let log = Log::default();
    let a = Signal::new(&mut g, Value::Item(0));
    let observer = a.with(&mut g, Box::new({
        let log = log.clone();
        move |v| {
            log.borrow_mut().push(vec![num(v)]);
            Value::Nil
        }
    }));
    taken(&log);
    let id = observer.id();
    observer.drop(&mut g);
    assert!(g.is_alive(id));
    a.send(&mut g, Value::Item(1)).drop(&mut g);
    a.send(&mut g, Value::Item(2)).drop(&mut g);
    assert_eq!(taken(&log), vec![vec![1], vec![2]]);
}

#[test]
fn a_write_to_the_derived_cell_goes_back() {
    let mut g: Graph = SignalGraph::new();
    let a = Signal::new(&mut g, Value::Item(7));
    let b = a.contramap(&mut g, map_int(|u| u / 2));
    assert_eq!(b.get(&g), Value::Item(0));

    let mut tokens = b.send(&mut g, Value::Item(100)).into_tokens();
    assert_eq!(tokens.len(), 2);
    let second = tokens.pop().unwrap();
    let first = tokens.pop().unwrap();
    assert_eq!((first.id(), second.id()), (b.id(), a.id()));

    // `b` fires and writes `a`, which then counts as written directly
    assert!(first.drop(&mut g));
    assert_eq!(a.get(&g), Value::Item(50));
    assert!(a.is_explicitly_modified(&g));
    // `a` fires last
    assert!(second.drop(&mut g));
    assert!(!a.is_explicitly_modified(&g));
    assert_eq!(a.get(&g), Value::Item(50));
    assert_eq!(b.get(&g), Value::Item(100));
}

#[test]
fn the_function_written_back_is_applied_as_given() {
    let mut g: Graph = SignalGraph::new();
    let a = Signal::new(&mut g, Value::Item(7));
    let b = a.contramap(&mut g, map_int(|u| u * 2));
    b.send(&mut g, Value::Item(100)).drop(&mut g);
    assert_eq!(a.get(&g), Value::Item(200));
}

#[test]
fn an_array_is_lifted_in_order() {
    let mut g: Graph = SignalGraph::new();
    let log = Log::default();
    let a = Signal::new(&mut g, Value::Item(1));
    let b = Signal::new(&mut g, Value::Item(2));
    let c = Signal::new(&mut g, Value::Item(3));
    let abc = Signal::lift_from_array(&mut g, [&a, &b, &c]);
    let _seen = abc.map(&mut g, record(&log));
    assert_eq!(taken(&log), vec![vec![1, 2, 3]]);

    let first = a.send(&mut g, Value::Item(10));
    let second = b.send(&mut g, Value::Item(20));
    let third = c.send(&mut g, Value::Item(30));
    let fired = first.and(second).and(third).drop(&mut g);
    assert_eq!(fired.iter().filter(|x| **x == abc.id()).count(), 1);
    assert_eq!(nums(&abc.get(&g)), vec![10, 20, 30]);
    assert_eq!(taken(&log), vec![vec![10, 20, 30]]);
}

#[test]
fn a_released_batch_leaves_no_pending_visit() {
    let mut g: Graph = SignalGraph::new();
    let a = Signal::new(&mut g, Value::Item(1));
    let b = a.map(&mut g, map_int(|x| x + 1));
    let c = b.promap(&mut g, map_int(|x| x * 2), map_int(|y| y / 2));
    let cells = [&a, &b, &c];
    let guard = c.send(&mut g, Value::Item(8));
    assert_eq!(cells.map(|s| s.dirty(&g)), [0, 1, 1]);
    guard.drop(&mut g);
    assert_eq!(cells.map(|s| s.dirty(&g)), [0, 0, 0]);
    assert_eq!(b.get(&g), Value::Item(4));
    assert_eq!(a.get(&g), Value::Item(1));
}

#[test]
fn values_are_exchanged_not_copied() {
    let mut g: Graph = SignalGraph::new();
    let a = Signal::new(&mut g, Value::Item(1));
    let b = Signal::new(&mut g, Value::Item(2));
    let ab = a.combine(&mut g, &b);
    assert_eq!(nums(&ab.get(&g)), vec![1, 2]);
    a.send(&mut g, Value::Item(10)).drop(&mut g);
    // the new value went into the slot; the source got what the slot held
    assert_eq!(nums(&ab.get(&g)), vec![10, 2]);
    assert_eq!(a.get(&g), Value::Item(1));
    assert_eq!(b.get(&g), Value::Item(2));
}

#[test]
fn a_slot_that_is_gone_is_skipped() {
    let mut g: Graph = SignalGraph::new();
    let a = Signal::new(&mut g, Value::Item(1));
    let b = Signal::new(&mut g, Value::Item(2));
    let ab = a.combine(&mut g, &b);
    // a direct write may give the pair another shape
    ab.send(&mut g, Value::Item(0)).drop(&mut g);
    a.send(&mut g, Value::Item(10)).drop(&mut g);
    assert_eq!(ab.get(&g), Value::Item(0));
    assert_eq!(a.get(&g), Value::Item(10));
}

#[test]
fn one_cell_twice_in_a_pair() {
    let mut g: Graph = SignalGraph::new();
    let a = Signal::new(&mut g, Value::Item(1));
    let aa = a.combine(&mut g, &a);
    assert_eq!(nums(&aa.get(&g)), vec![1, 1]);
    let guard = a.send(&mut g, Value::Item(5));
    assert_eq!(aa.dirty(&g), 2);
    assert_eq!(guard.drop(&mut g), vec![a.id(), aa.id()]);
    // the first reaction moves 5 into slot 0, the second moves the old 1 on
    assert_eq!(nums(&aa.get(&g)), vec![5, 1]);
    assert_eq!(a.get(&g), Value::Item(1));
}

#[test]
fn strong_pairs_and_sequences_keep_their_sources() {
    let mut g: Graph = SignalGraph::new();
    let a = Signal::new(&mut g, Value::Item(1));
    let b = Signal::new(&mut g, Value::Item(2));
    let c = Signal::new(&mut g, Value::Item(3));
    let ab = a.and(&mut g, &b);
    let abc = a.follow(&mut g, vec![&b, &c]);
    let ids = [a.id(), b.id(), c.id(), ab.id(), abc.id()];
    ab.drop(&mut g);
    abc.drop(&mut g);
    b.drop(&mut g);
    c.drop(&mut g);
    assert!(ids.iter().all(|id| g.is_alive(*id)));
    a.send(&mut g, Value::Item(9)).drop(&mut g);
    assert_eq!(nums(&g.value_copy(ids[4])), vec![1, 2, 3]);
    assert_eq!(nums(&g.value_copy(ids[3])), vec![9, 2]);
}

#[test]
fn weak_sequences_go_with_their_handles() {
    let mut g: Graph = SignalGraph::new();
    let a = Signal::new(&mut g, Value::Item(1));
    let b = Signal::new(&mut g, Value::Item(2));
    let ab = a.extend(&mut g, vec![&b]);
    assert_eq!(nums(&ab.get(&g)), vec![1, 2]);
    let id = ab.id();
    ab.drop(&mut g);
    assert!(!g.is_alive(id));
    assert_eq!(a.send(&mut g, Value::Item(5)).drop(&mut g), vec![a.id()]);
}

#[test]
fn handles_are_counted() {
    let mut g: Graph = SignalGraph::new();
    let a = Signal::new(&mut g, Value::Item(1));
    let again = a.clone(&mut g);
    assert_eq!(g.handles_of(a.id()), 2);
    let id = a.id();
    a.drop(&mut g);
    assert!(g.is_alive(id));
    let link = WeakSignalRef::new(&again);
    let third = link.upgrade(&mut g).expect("the cell lives");
    assert_eq!(g.handles_of(id), 2);
    again.drop(&mut g);
    third.drop(&mut g);
    assert!(!g.is_alive(id));
}

#[test]
fn a_handle_is_set_to_another_cell() {
    let mut g: Graph = SignalGraph::new();
    let mut a = Signal::new(&mut g, Value::Item(1));
    let b = Signal::new(&mut g, Value::Item(2));
    let old = a.id();
    let target = b.id();
    a.set(&mut g, b);
    assert_eq!(a.id(), target);
    assert!(!g.is_alive(old));
    assert_eq!(a.get(&g), Value::Item(2));
}

#[test]
fn a_pending_visit_keeps_a_cell() {
    let mut g: Graph = SignalGraph::new();
    let a = Signal::new(&mut g, Value::Item(1));
    let b = a.map(&mut g, map_int(|x| x + 1));
    let guard = a.send(&mut g, Value::Item(5));
    let id = b.id();
    b.drop(&mut g);
    // the guard still holds a visit of `b`
    assert!(g.is_alive(id));
    assert_eq!(guard.drop(&mut g), vec![a.id(), id]);
    assert!(!g.is_alive(id));
}

#[test]
fn leads_to_follows_successor_links() {
    let mut g: Graph = SignalGraph::new();
    let a = Signal::new(&mut g, Value::Item(1));
    let b = a.map(&mut g, map_int(|x| x + 1));
    let c = b.map(&mut g, map_int(|x| x + 1));
    let d = Signal::new(&mut g, Value::Item(0));
    assert!(a.leads_to(&mut g, &c));
    assert!(a.leads_to(&mut g, &a));
    assert!(!c.leads_to(&mut g, &a));
    assert!(!a.leads_to(&mut g, &d));
    // so `d` may depend on `c`, and then `a` leads to it
    let c = d.depend(&mut g, c);
    assert!(a.leads_to(&mut g, &d));
    a.send(&mut g, Value::Item(10)).drop(&mut g);
    assert_eq!(d.get(&g), Value::Item(12));
    assert_eq!(c.get(&g), Value::Item(0));
}

#[test]
fn send_with_is_a_direct_write() {
    let mut g: Graph = SignalGraph::new();
    let a = Signal::new(&mut g, Value::Item(1));
    let b = a.map(&mut g, map_int(|x| x + 1));
    let direct = b.send_with(&mut g, |v| Value::Item(num(v) * 100));
    assert!(b.is_explicitly_modified(&g));
    let derived = a.send(&mut g, Value::Item(5));
    direct.and(derived).drop(&mut g);
    assert_eq!(b.get(&g), Value::Item(200));
}

#[test]
fn an_empty_graph_has_no_cells() {
    let g: Graph = SignalGraph::new();
    assert_eq!(g.len(), 0);
    assert!(!g.is_alive(0));
}

#[test]
fn a_write_to_a_cell_that_is_not_there_is_refused() {
    let mut g: Graph = SignalGraph::new();
    let a = Signal::new(&mut g, Value::Item(1));
    let guard = a.try_send(&mut g, Value::Item(2)).expect("the cell lives");
    assert!(guard.covered_by(&g));
    assert_eq!(guard.try_drop(&mut g).expect("the visits are pending"), vec![a.id()]);
    assert!(g.has_room(a.id()));

    // the handle names no cell of another graph
    let mut other: Graph = SignalGraph::new();
    assert_eq!(a.try_send(&mut other, Value::Item(3)).err(), Some(Value::Item(3)));
    assert_eq!(other.len(), 0);
    // nor a live cell, once the cell in its place is gone
    let gone = Signal::new(&mut other, Value::Item(0));
    gone.drop(&mut other);
    assert_eq!(a.try_send(&mut other, Value::Item(4)).err(), Some(Value::Item(4)));
}

#[test]
fn a_guard_is_released_once() {
    let mut g: Graph = SignalGraph::new();
    let a = Signal::new(&mut g, Value::Item(1));
    let b = a.map(&mut g, map_int(|x| x + 1));
    let first = a.send(&mut g, Value::Item(2));
    let second = a.send(&mut g, Value::Item(3));
    let both = first.and(second);
    assert!(both.covered_by(&g));
    assert_eq!(both.len(), 4);
    assert_eq!(both.cell_at(1), b.id());
    both.drop(&mut g);
    // the visits of another graph are not pending here
    let mut other: Graph = SignalGraph::new();
    let x = Signal::new(&mut other, Value::Item(0));
    let foreign = x.send(&mut other, Value::Item(1));
    assert!(!foreign.covered_by(&g));
    let back = foreign.try_drop(&mut g).expect_err("nothing is pending in the other graph");
    assert_eq!(b.get(&g), Value::Item(4));
    assert_eq!(back.try_drop(&mut other).expect("pending where it was made"), vec![x.id()]);
}

#[test]
fn a_dependency_that_closes_a_cycle_is_refused() {
    let mut g: Graph = SignalGraph::new();
    let a = Signal::new(&mut g, Value::Item(1));
    let b = a.map(&mut g, map_int(|x| x + 1));
    // `a` leads to `b`: `a` cannot depend on `b`
    let b = a.try_depend(&mut g, b).expect_err("the link would close a cycle");
    assert_eq!(a.reactions(&g), 1);
    // nor on itself
    let again = a.clone(&mut g);
    let again = a.try_depend(&mut g, again).expect_err("a cell leads to itself");
    again.drop(&mut g);
    // the other way round there is no cycle
    let c = Signal::new(&mut g, Value::Item(0));
    let c = b.try_depend(&mut g, c).expect("no path leads from b to c");
    c.send(&mut g, Value::Item(9)).drop(&mut g);
    assert_eq!(b.get(&g), Value::Item(9));
    assert_eq!(c.get(&g), Value::Item(2));
}

#[test]
fn a_change_in_place_is_tried() {
    let mut g: Graph = SignalGraph::new();
    let a = Signal::new(&mut g, Value::Item(1));
    let b = a.map(&mut g, map_int(|x| x * 2));
    let guard = match a.try_send_with(&mut g, |v| Value::Item(num(v) + 10)) {
        Ok(guard) => guard,
        Err(_) => panic!("the cell lives"),
    };
    guard.drop(&mut g);
    assert_eq!(b.get(&g), Value::Item(22));
}

#[test]
fn a_handle_is_cloned_while_the_cell_lives() {
    let mut g: Graph = SignalGraph::new();
    let a = Signal::new(&mut g, Value::Item(1));
    let again = a.try_clone(&mut g).expect("the cell lives");
    assert_eq!(again.id(), a.id());
    assert_eq!(g.handles_of(a.id()), 2);
    let id = a.id();
    a.drop(&mut g);
    let mut other: Graph = SignalGraph::new();
    assert!(again.try_clone(&mut other).is_none());
    again.drop(&mut g);
    assert!(!g.is_alive(id));
}
