use branchlang::branch::Branch;
use branchlang::interp::{execute_ast, execute_node, AstNode, Console, Output, PrintTarget};
use branchlang::value::Value;
use branchlang::world::World;

fn name(s: &str) -> String {
    s.to_string()
}

fn console(lines: &[&str]) -> Console {
    Console { inputs: lines.iter().map(|l| l.to_string()).collect(), next: 0, outputs: Vec::new() }
}

fn assign(n: &str, v: Value) -> AstNode {
    AstNode::Let { name: name(n), value: v }
}

fn branch(n: &str, body: Vec<AstNode>) -> AstNode {
    AstNode::Branch { variable: name(n), body }
}

fn merge(n: &str) -> AstNode {
    AstNode::Merge { variable: name(n) }
}

fn run(ast: Vec<AstNode>, lines: &[&str]) -> (World, Vec<Option<Branch>>, Console) {
    let mut w = World::new();
    let mut reg = Vec::new();
    let mut c = console(lines);
    execute_ast(&ast, &mut w, &mut reg, &mut c);
    (w, reg, c)
}

fn live_names(reg: &Vec<Option<Branch>>) -> Vec<String> {
    reg.iter().flatten().map(|b| b.variable.clone()).collect()
}

#[test]
fn let_then_branch_then_merge() {
    let mut w = World::new();
    let mut reg = Vec::new();
    let mut c = console(&[]);
    execute_node(&assign("x", Value::Int(1)), &mut w, &mut reg, &mut c);
    assert!(w.get(&name("x")).unwrap().equals(&Value::Int(1)));
    assert_eq!(w.get_generation(&name("x")), 0);
    let rest = vec![branch("x", vec![assign("x", Value::Int(2))]), merge("x")];
    execute_ast(&rest, &mut w, &mut reg, &mut c);
    assert!(w.get(&name("x")).unwrap().equals(&Value::Int(2)));
    assert_eq!(w.get_generation(&name("x")), 1);
    assert!(live_names(&reg).is_empty());
}

#[test]
fn let_in_a_body_commits_at_once() {
    let (w, reg, _) = run(
        vec![assign("x", Value::Int(1)), branch("x", vec![assign("x", Value::Int(2))])],
        &[],
    );
    assert!(w.get(&name("x")).unwrap().equals(&Value::Int(2)));
    assert_eq!(w.get_generation(&name("x")), 0);
    assert_eq!(live_names(&reg), vec![name("x")]);
}

#[test]
fn merge_without_branch_is_silent() {
    let (w, reg, c) = run(vec![assign("x", Value::Int(1)), merge("x"), merge("y")], &[]);
    assert!(w.get(&name("x")).unwrap().equals(&Value::Int(1)));
    assert_eq!(w.get_generation(&name("x")), 0);
    assert_eq!(w.get_generation(&name("y")), 0);
    assert!(reg.is_empty());
    assert!(c.outputs.is_empty());
}

#[test]
fn stale_branch_is_dropped_silently() {
    let (w, reg, _) = run(
        vec![branch("x", vec![]), branch("x", vec![]), merge("x"), merge("x")],
        &[],
    );
    assert_eq!(w.get_generation(&name("x")), 1);
    assert!(live_names(&reg).is_empty());
}

#[test]
fn second_merge_after_commit_sees_stale_branch() {
    let (w, _, _) = run(
        vec![
            branch("y", vec![branch("x", vec![])]),
            branch("x", vec![]),
            merge("x"),
            merge("y"),
        ],
        &[],
    );
    assert_eq!(w.get_generation(&name("x")), 1);
    assert_eq!(w.get_generation(&name("y")), 1);
}

#[test]
fn branches_opened_in_a_body_become_children() {
    let (w, reg, _) = run(
        vec![branch("a", vec![branch("b", vec![]), branch("c", vec![]), merge("b")])],
        &[],
    );
    assert_eq!(w.get_generation(&name("b")), 1);
    assert_eq!(live_names(&reg), vec![name("a")]);
    let a = reg.iter().flatten().next().unwrap();
    assert_eq!(a.nested.len(), 1);
    assert_eq!(a.nested[0].variable, "c");
    assert_eq!(a.generation, 0);
    assert!(a.delta.is_none());
}

#[test]
fn earlier_branches_are_not_taken_as_children() {
    let (w, reg, _) = run(
        vec![branch("a", vec![]), branch("b", vec![branch("c", vec![])]), merge("b")],
        &[],
    );
    assert_eq!(live_names(&reg), vec![name("a")]);
    assert_eq!(w.get_generation(&name("a")), 0);
    assert_eq!(w.get_generation(&name("b")), 1);
    assert_eq!(w.get_generation(&name("c")), 1);
}

#[test]
fn nested_merge_commits_each_variable() {
    let (w, _, _) = run(
        vec![branch("x", vec![branch("y", vec![])]), merge("x")],
        &[],
    );
    assert_eq!(w.get_generation(&name("x")), 1);
    assert_eq!(w.get_generation(&name("y")), 1);
}

#[test]
fn unmerged_branch_never_commits() {
    let (w, reg, _) = run(vec![assign("x", Value::Int(1)), branch("x", vec![])], &[]);
    assert_eq!(w.get_generation(&name("x")), 0);
    assert_eq!(live_names(&reg), vec![name("x")]);
}

#[test]
fn print_shows_value_or_undefined() {
    let (_, _, c) = run(
        vec![
            assign("x", Value::Int(4)),
            AstNode::Print { target: PrintTarget::Variable(name("x")) },
            AstNode::Print { target: PrintTarget::Variable(name("nope")) },
            AstNode::Print { target: PrintTarget::Value(Value::Str(name("hi"))) },
        ],
        &[],
    );
    assert_eq!(c.outputs.len(), 3);
    match &c.outputs[0] {
        Output::Shown(v) => assert!(v.equals(&Value::Int(4))),
        _ => panic!("wrong output"),
    }
    match &c.outputs[1] {
        Output::Undefined(n) => assert_eq!(n, "nope"),
        _ => panic!("wrong output"),
    }
    match &c.outputs[2] {
        Output::Shown(v) => assert!(v.equals(&Value::Str(name("hi")))),
        _ => panic!("wrong output"),
    }
}

#[test]
fn input_binds_lines_in_order() {
    let (w, _, c) = run(
        vec![
            AstNode::Input { prompt: Some(name("first? ")), variable: name("a") },
            AstNode::Input { prompt: None, variable: name("b") },
            AstNode::Input { prompt: None, variable: name("c") },
        ],
        &["one", "two"],
    );
    assert!(w.get(&name("a")).unwrap().equals(&Value::Str(name("one"))));
    assert!(w.get(&name("b")).unwrap().equals(&Value::Str(name("two"))));
    assert!(w.get(&name("c")).unwrap().equals(&Value::Str(name(""))));
    assert_eq!(c.next, 2);
    assert_eq!(c.outputs.len(), 1);
    match &c.outputs[0] {
        Output::Prompt(p) => assert_eq!(p, "first? "),
        _ => panic!("wrong output"),
    }
    assert_eq!(w.get_generation(&name("a")), 0);
}

#[test]
fn listpush_is_copy_on_write() {
    let (w, _, c) = run(
        vec![
            assign("l", Value::List(vec![Value::Int(1)])),
            AstNode::Print { target: PrintTarget::Variable(name("l")) },
            AstNode::ListPush { variable: name("l"), value: Value::Int(2) },
        ],
        &[],
    );
    assert!(w
        .get(&name("l"))
        .unwrap()
        .equals(&Value::List(vec![Value::Int(1), Value::Int(2)])));
    match &c.outputs[0] {
        Output::Shown(v) => assert!(v.equals(&Value::List(vec![Value::Int(1)]))),
        _ => panic!("wrong output"),
    }
    assert_eq!(w.get_generation(&name("l")), 0);
}

#[test]
fn listpush_on_other_values_is_silent() {
    let (w, _, _) = run(
        vec![
            assign("n", Value::Int(1)),
            assign("s", Value::Members(vec![])),
            AstNode::ListPush { variable: name("n"), value: Value::Int(2) },
            AstNode::ListPush { variable: name("s"), value: Value::Int(2) },
            AstNode::ListPush { variable: name("gone"), value: Value::Int(2) },
        ],
        &[],
    );
    assert!(w.get(&name("n")).unwrap().equals(&Value::Int(1)));
    assert!(w.get(&name("s")).unwrap().equals(&Value::Members(vec![])));
    assert!(w.get(&name("gone")).is_none());
}

#[test]
fn setinsert_adds_once() {
    let (w, _, _) = run(
        vec![
            assign("s", Value::Members(vec![])),
            assign("l", Value::List(vec![])),
            AstNode::SetInsert { variable: name("s"), value: Value::Int(2) },
            AstNode::SetInsert { variable: name("s"), value: Value::Int(3) },
            AstNode::SetInsert { variable: name("s"), value: Value::Int(2) },
            AstNode::SetInsert { variable: name("l"), value: Value::Int(2) },
            AstNode::SetInsert { variable: name("gone"), value: Value::Int(2) },
        ],
        &[],
    );
    let s = w.get(&name("s")).unwrap();
    assert!(s.equals(&Value::Members(vec![Value::Int(3), Value::Int(2)])));
    match s {
        Value::Members(items) => assert_eq!(items.len(), 2),
        _ => panic!("not a set"),
    }
    assert!(w.get(&name("l")).unwrap().equals(&Value::List(vec![])));
    assert!(w.get(&name("gone")).is_none());
}
