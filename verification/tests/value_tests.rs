use agility::value::Value;

fn list(items: &[i32]) -> Value<i32> {
    Value::from_vec(items.iter().map(|x| Value::Item(*x)).collect())
}

#[test]
fn a_tuple_has_its_items_as_slots() {
    let v = list(&[1, 2, 3]);
    assert_eq!(v.to_vec(), vec![Value::Item(1), Value::Item(2), Value::Item(3)]);
    assert_eq!(v.slot(1), Some(Value::Item(2)));
    assert_eq!(v.slot(3), None);
    assert!(v.has_slot(2));
    assert!(!v.has_slot(3));
    assert_eq!(v.item(), None);
}

#[test]
fn the_empty_tuple_is_nil() {
    assert_eq!(list(&[]), Value::Nil);
    assert_eq!(Value::<i32>::Nil.to_vec(), Vec::<Value<i32>>::new());
    assert!(!Value::<i32>::Nil.has_slot(0));
}

#[test]
fn an_item_has_no_slots() {
    let v = Value::Item(5);
    assert_eq!(v.item(), Some(5));
    assert_eq!(v.to_vec(), Vec::<Value<i32>>::new());
    assert_eq!(v.slot(0), None);
}

#[test]
fn a_pair_is_a_tuple_of_two() {
    let p = Value::pair(Value::Item(1), list(&[2, 3]));
    assert_eq!(p.to_vec(), vec![Value::Item(1), list(&[2, 3])]);
    assert_eq!(p, Value::from_vec(vec![Value::Item(1), list(&[2, 3])]));
}

#[test]
fn a_slot_is_exchanged_in_place() {
    let mut v = list(&[1, 2, 3]);
    let mut other = Value::Item(20);
    assert!(v.exchange_slot(1, &mut other));
    assert_eq!(v, list(&[1, 20, 3]));
    assert_eq!(other, Value::Item(2));
}

#[test]
fn a_missing_slot_is_not_exchanged() {
    let mut v = list(&[1]);
    let mut other = Value::Item(20);
    assert!(!v.exchange_slot(1, &mut other));
    assert_eq!(v, list(&[1]));
    assert_eq!(other, Value::Item(20));
    let mut item = Value::Item(1);
    assert!(!item.exchange_slot(0, &mut other));
    assert_eq!(item, Value::Item(1));
}

#[test]
fn a_duplicate_is_equal() {
    let v = Value::pair(list(&[1, 2]), Value::Item(3));
    assert_eq!(v.duplicate(), v);
}
