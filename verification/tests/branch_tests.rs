use branchlang::branch::Branch;
use branchlang::value::Value;
use branchlang::world::World;

fn name(s: &str) -> String {
    s.to_string()
}

#[test]
fn new_branch_has_no_children() {
    let b = Branch::new(&name("x"), Some(Value::Int(5)), 3);
    assert_eq!(b.variable, "x");
    assert_eq!(b.generation, 3);
    assert!(b.nested.is_empty());
    assert!(b.delta.unwrap().equals(&Value::Int(5)));
}

#[test]
fn stale_merge_changes_nothing() {
    let mut w = World::new();
    w.set(&name("x"), Value::Int(1));
    let mut b = Branch::new(&name("x"), Some(Value::Int(2)), w.get_generation(&name("x")));
    b.nested.push(Branch::new(&name("y"), Some(Value::Int(3)), 0));
    w.advance_generation(&name("x"));
    b.merge(&mut w);
    assert!(w.get(&name("x")).unwrap().equals(&Value::Int(1)));
    assert_eq!(w.get_generation(&name("x")), 1);
    assert!(w.get(&name("y")).is_none());
    assert_eq!(w.get_generation(&name("y")), 0);
}

#[test]
fn fresh_merge_applies_delta_and_advances() {
    let mut w = World::new();
    w.set(&name("x"), Value::Int(1));
    w.advance_generation(&name("x"));
    let b = Branch::new(&name("x"), Some(Value::Int(9)), w.get_generation(&name("x")));
    b.merge(&mut w);
    assert!(w.get(&name("x")).unwrap().equals(&Value::Int(9)));
    assert_eq!(w.get_generation(&name("x")), 2);
}

#[test]
fn merge_without_delta_still_advances() {
    let mut w = World::new();
    w.set(&name("x"), Value::Int(1));
    let b = Branch::new(&name("x"), None, 0);
    b.merge(&mut w);
    assert!(w.get(&name("x")).unwrap().equals(&Value::Int(1)));
    assert_eq!(w.get_generation(&name("x")), 1);
    let again = Branch::new(&name("x"), Some(Value::Int(4)), 0);
    again.merge(&mut w);
    assert!(w.get(&name("x")).unwrap().equals(&Value::Int(1)));
    assert_eq!(w.get_generation(&name("x")), 1);
}

#[test]
fn nested_branches_compose() {
    let mut w = World::new();
    let mut a = Branch::new(&name("x"), Some(Value::Int(1)), 0);
    a.nested.push(Branch::new(&name("y"), Some(Value::Int(2)), 0));
    a.merge(&mut w);
    assert!(w.get(&name("x")).unwrap().equals(&Value::Int(1)));
    assert!(w.get(&name("y")).unwrap().equals(&Value::Int(2)));
    assert_eq!(w.get_generation(&name("x")), 1);
    assert_eq!(w.get_generation(&name("y")), 1);
}

#[test]
fn nested_branch_is_judged_on_its_own() {
    let mut w = World::new();
    let mut a = Branch::new(&name("x"), Some(Value::Int(1)), 0);
    a.nested.push(Branch::new(&name("y"), Some(Value::Int(2)), 0));
    a.nested.push(Branch::new(&name("z"), Some(Value::Int(3)), 0));
    w.advance_generation(&name("y"));
    a.merge(&mut w);
    assert!(w.get(&name("x")).unwrap().equals(&Value::Int(1)));
    assert!(w.get(&name("y")).is_none());
    assert_eq!(w.get_generation(&name("y")), 1);
    assert!(w.get(&name("z")).unwrap().equals(&Value::Int(3)));
    assert_eq!(w.get_generation(&name("z")), 1);
}

#[test]
fn nested_branches_merge_in_opening_order() {
    let mut w = World::new();
    let mut a = Branch::new(&name("x"), None, 0);
    a.nested.push(Branch::new(&name("y"), Some(Value::Int(1)), 0));
    a.nested.push(Branch::new(&name("y"), Some(Value::Int(2)), 1));
    a.nested.push(Branch::new(&name("y"), Some(Value::Int(3)), 1));
    a.merge(&mut w);
    assert!(w.get(&name("y")).unwrap().equals(&Value::Int(2)));
    assert_eq!(w.get_generation(&name("y")), 2);
}

#[test]
fn merge_into_leaves_the_branch() {
    let mut w = World::new();
    let b = Branch::new(&name("x"), Some(Value::Str(name("v"))), 0);
    b.merge_into(&mut w);
    assert!(w.get(&name("x")).unwrap().equals(&Value::Str(name("v"))));
    assert_eq!(b.generation, 0);
    b.merge_into(&mut w);
    assert_eq!(w.get_generation(&name("x")), 1);
}
