use branchlang::interp::{AstNode, Output, PrintTarget};
use branchlang::lexer::lex;
use branchlang::parser::parse;
use branchlang::program::{count_opens, run};
use branchlang::value::Value;

fn program(s: &str) -> Vec<AstNode> {
    let src: Vec<char> = s.chars().collect();
    let tokens = lex(&src);
    parse(&tokens, &src).unwrap()
}

#[test]
fn count_opens_counts_at_every_depth() {
    assert_eq!(count_opens(&program("")), Some(0));
    assert_eq!(count_opens(&program("let x = 1; merge x;")), Some(0));
    assert_eq!(count_opens(&program("branch a { } branch b { branch c { branch d { } } }")), Some(4));
}

#[test]
fn run_starts_from_an_empty_world() {
    let ast = program("let x = 1; branch x { let x = 2; } merge x; print x; print y;");
    let (world, outputs) = run(&ast, Vec::new()).unwrap();
    let x = "x".to_string();
    assert!(world.get(&x).unwrap().equals(&Value::Int(2)));
    assert_eq!(world.get_generation(&x), 1);
    assert_eq!(outputs.len(), 2);
    match &outputs[0] {
        Output::Shown(v) => assert!(v.equals(&Value::Int(2))),
        _ => panic!("wrong output"),
    }
    match &outputs[1] {
        Output::Undefined(n) => assert_eq!(n, "y"),
        _ => panic!("wrong output"),
    }
}

#[test]
fn run_reads_the_lines_it_is_given() {
    let ast = vec![
        AstNode::Input { prompt: None, variable: "a".to_string() },
        AstNode::Print { target: PrintTarget::Variable("a".to_string()) },
    ];
    let (world, outputs) = run(&ast, vec!["typed".to_string()]).unwrap();
    assert!(world.get(&"a".to_string()).unwrap().equals(&Value::Str("typed".to_string())));
    match &outputs[0] {
        Output::Shown(v) => assert!(v.equals(&Value::Str("typed".to_string()))),
        _ => panic!("wrong output"),
    }
}

#[test]
fn run_nested_branches_commit_per_variable() {
    let ast = program("let y = 0; branch x { branch y { } let q = 1; } branch y { } merge y; merge x;");
    let (world, _) = run(&ast, Vec::new()).unwrap();
    assert_eq!(world.get_generation(&"x".to_string()), 1);
    assert_eq!(world.get_generation(&"y".to_string()), 1);
    assert!(world.get(&"q".to_string()).unwrap().equals(&Value::Int(1)));
}
