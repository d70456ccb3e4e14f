use branchlang::value::Value;

fn num(i: i32) -> Value {
    Value::Int(i)
}

fn text(s: &str) -> Value {
    Value::Str(s.to_string())
}

#[test]
fn scalars_equal_by_content() {
    assert!(num(3).equals(&num(3)));
    assert!(!num(3).equals(&num(4)));
    assert!(Value::Bool(true).equals(&Value::Bool(true)));
    assert!(!Value::Bool(true).equals(&Value::Bool(false)));
    assert!(text("ab").equals(&text("ab")));
    assert!(!text("ab").equals(&text("ba")));
    assert!(!num(1).equals(&Value::Bool(true)));
    assert!(!num(0).equals(&Value::Float(0)));
    assert!(!Value::List(vec![]).equals(&Value::Members(vec![])));
}

#[test]
fn float_equality_is_bit_exact() {
    let pos = Value::Float(0.0f64.to_bits());
    let neg = Value::Float((-0.0f64).to_bits());
    assert!(!pos.equals(&neg));
    assert_ne!(pos.hash(), neg.hash());
    let nan = f64::NAN.to_bits();
    assert!(Value::Float(nan).equals(&Value::Float(nan)));
    assert_eq!(Value::Float(nan).hash(), Value::Float(nan).hash());
    let other_nan = nan ^ 1;
    assert!(!Value::Float(nan).equals(&Value::Float(other_nan)));
}

#[test]
fn set_equality_ignores_insertion_order() {
    let empty = Value::Members(vec![]);
    let a = empty
        .with_inserted(&num(1))
        .unwrap()
        .with_inserted(&text("two"))
        .unwrap()
        .with_inserted(&Value::Bool(true))
        .unwrap();
    let b = empty
        .with_inserted(&Value::Bool(true))
        .unwrap()
        .with_inserted(&num(1))
        .unwrap()
        .with_inserted(&text("two"))
        .unwrap();
    assert!(a.equals(&b));
    assert!(b.equals(&a));
    assert_eq!(a.hash(), b.hash());
}

#[test]
fn sets_of_different_elements_differ() {
    let a = Value::Members(vec![num(1), num(2)]);
    let b = Value::Members(vec![num(1), num(3)]);
    let c = Value::Members(vec![num(1)]);
    assert!(!a.equals(&b));
    assert!(!a.equals(&c));
    assert!(!c.equals(&a));
}

#[test]
fn list_equality_is_order_sensitive() {
    let a = Value::List(vec![num(1), num(2), num(3)]);
    let b = Value::List(vec![num(3), num(2), num(1)]);
    let c = Value::List(vec![num(1), num(2), num(3)]);
    assert!(!a.equals(&b));
    assert!(a.equals(&c));
    assert_eq!(a.hash(), c.hash());
    assert_ne!(a.hash(), b.hash());
    assert!(!a.equals(&Value::List(vec![num(1), num(2)])));
}

#[test]
fn equal_nested_values_hash_equally() {
    let inner_a = Value::Members(vec![num(1), Value::List(vec![text("x"), num(2)])]);
    let inner_b = Value::Members(vec![Value::List(vec![text("x"), num(2)]), num(1)]);
    let a = Value::List(vec![inner_a, Value::Float(7)]);
    let b = Value::List(vec![inner_b, Value::Float(7)]);
    assert!(a.equals(&b));
    assert_eq!(a.hash(), b.hash());
    let sa = Value::Members(vec![a, num(9)]);
    let sb = Value::Members(vec![num(9), b]);
    assert!(sa.equals(&sb));
    assert_eq!(sa.hash(), sb.hash());
}

#[test]
fn hash_values_are_exact() {
    assert_eq!(num(0).hash(), 0xaf63bc730601b7df);
    assert_eq!(num(-1).hash(), 0x6b1d7317f9fe466e);
    assert_eq!(num(7).hash(), 0xaf63b9730601b2c6);
    assert_eq!(Value::Bool(true).hash(), 0xaa895feaaecbd58a);
    assert_eq!(text("ab").hash(), 0x8866c92c7ae40e5e);
    assert_eq!(text("").hash(), 0x165667b19e3779f9);
    assert_eq!(Value::List(vec![]).hash(), 0x27d4eb2f165667c5);
    assert_eq!(Value::List(vec![num(1), num(2)]).hash(), 0x1c32cfdfb84cd6aa);
    assert_eq!(Value::Members(vec![]).hash(), 0x42576c7fd59e5239);
    assert_eq!(Value::Members(vec![num(1), num(2), num(3)]).hash(), 0xf8f4561a3c563048);
    assert_eq!(Value::Members(vec![num(3), num(1), num(2)]).hash(), 0xf8f4561a3c563048);
    assert_eq!(Value::Float(1.5f64.to_bits()).hash(), 0x3e07eb334b90d7af);
}

#[test]
fn duplicate_is_equal_and_separate() {
    let a = Value::List(vec![num(1), Value::Members(vec![text("s")])]);
    let b = a.duplicate();
    assert!(a.equals(&b));
    assert_eq!(a.hash(), b.hash());
}

#[test]
fn push_builds_a_new_list() {
    let a = Value::List(vec![num(1)]);
    let b = a.with_pushed(&num(2)).unwrap();
    assert!(a.equals(&Value::List(vec![num(1)])));
    assert!(b.equals(&Value::List(vec![num(1), num(2)])));
    assert!(num(1).with_pushed(&num(2)).is_none());
    assert!(Value::Members(vec![]).with_pushed(&num(2)).is_none());
}

#[test]
fn insert_keeps_elements_unique() {
    let a = Value::Members(vec![num(1)]);
    let b = a.with_inserted(&num(1)).unwrap();
    let c = a.with_inserted(&num(2)).unwrap();
    assert!(b.equals(&a));
    match &b {
        Value::Members(items) => assert_eq!(items.len(), 1),
        _ => panic!("not a set"),
    }
    match &c {
        Value::Members(items) => assert_eq!(items.len(), 2),
        _ => panic!("not a set"),
    }
    assert!(a.equals(&Value::Members(vec![num(1)])));
    assert!(Value::List(vec![]).with_inserted(&num(1)).is_none());
}
