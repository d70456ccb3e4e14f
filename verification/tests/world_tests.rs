use branchlang::value::Value;
use branchlang::world::World;

fn name(s: &str) -> String {
    s.to_string()
}

#[test]
fn new_world_is_empty() {
    let w = World::new();
    assert!(w.get(&name("x")).is_none());
    assert_eq!(w.get_generation(&name("x")), 0);
}

#[test]
fn set_overwrites_and_keeps_generation() {
    let mut w = World::new();
    w.set(&name("x"), Value::Int(1));
    assert!(w.get(&name("x")).unwrap().equals(&Value::Int(1)));
    assert_eq!(w.get_generation(&name("x")), 0);
    w.advance_generation(&name("x"));
    w.set(&name("x"), Value::Bool(false));
    assert!(w.get(&name("x")).unwrap().equals(&Value::Bool(false)));
    assert_eq!(w.get_generation(&name("x")), 1);
    assert!(w.get(&name("y")).is_none());
}

#[test]
fn advance_creates_generation_at_one() {
    let mut w = World::new();
    w.advance_generation(&name("g"));
    assert_eq!(w.get_generation(&name("g")), 1);
    assert!(w.get(&name("g")).is_none());
    w.advance_generation(&name("g"));
    w.advance_generation(&name("g"));
    assert_eq!(w.get_generation(&name("g")), 3);
    assert_eq!(w.get_generation(&name("h")), 0);
}

#[test]
fn names_are_independent() {
    let mut w = World::new();
    w.set(&name("a"), Value::Int(1));
    w.set(&name("b"), Value::Int(2));
    w.advance_generation(&name("b"));
    assert!(w.get(&name("a")).unwrap().equals(&Value::Int(1)));
    assert!(w.get(&name("b")).unwrap().equals(&Value::Int(2)));
    assert_eq!(w.get_generation(&name("a")), 0);
    assert_eq!(w.get_generation(&name("b")), 1);
}

#[test]
fn names_lists_what_the_world_knows() {
    let mut w = World::new();
    assert!(w.names().is_empty());
    w.set(&name("b"), Value::Int(1));
    w.advance_generation(&name("a"));
    w.set(&name("b"), Value::Int(2));
    assert_eq!(w.names(), vec![name("b"), name("a")]);
}
