use branchlang::branch::Branch;
use branchlang::interp::{execute_ast, AstNode, Console, PrintTarget};
use branchlang::lexer::{lex, Token};
use branchlang::parser::{parse, parse_block, parse_statement, ParseError};
use branchlang::value::Value;
use branchlang::world::World;

fn chars(s: &str) -> Vec<char> {
    s.chars().collect()
}

fn program(s: &str) -> Result<Vec<AstNode>, ParseError> {
    let src = chars(s);
    let tokens = lex(&src);
    parse(&tokens, &src)
}

#[test]
fn lex_punctuation_and_keywords() {
    let tokens = lex(&chars("let branch merge print input true false = { } [ ] , ;"));
    assert_eq!(
        tokens,
        vec![
            Token::Let,
            Token::Branch,
            Token::Merge,
            Token::Print,
            Token::Input,
            Token::Bool(true),
            Token::Bool(false),
            Token::Equals,
            Token::LBrace,
            Token::RBrace,
            Token::LBracket,
            Token::RBracket,
            Token::Comma,
            Token::Semicolon,
        ]
    );
}

#[test]
fn lex_names_numbers_and_strings() {
    let tokens = lex(&chars("x1_y 042 \"a b\"z"));
    assert_eq!(
        tokens,
        vec![
            Token::Identifier { start: 0, end: 4 },
            Token::Number(42),
            Token::Str { start: 10, end: 13 },
            Token::Identifier { start: 14, end: 15 },
        ]
    );
}

#[test]
fn lex_keyword_prefix_is_a_name() {
    assert_eq!(lex(&chars("lets")), vec![Token::Identifier { start: 0, end: 4 }]);
    assert_eq!(lex(&chars("le")), vec![Token::Identifier { start: 0, end: 2 }]);
    assert_eq!(lex(&chars("let1")), vec![Token::Identifier { start: 0, end: 4 }]);
}

#[test]
fn lex_passes_over_unknown_characters_and_space() {
    assert_eq!(lex(&chars("")), vec![]);
    assert_eq!(lex(&chars(" \t\n\u{a0}\u{3000}")), vec![]);
    assert_eq!(lex(&chars("#1.5-_")), vec![Token::Number(1), Token::Number(5)]);
}

#[test]
fn lex_unterminated_string_runs_to_the_end() {
    assert_eq!(lex(&chars("\"abc")), vec![Token::Str { start: 1, end: 4 }]);
    assert_eq!(lex(&chars("\"")), vec![Token::Str { start: 1, end: 1 }]);
    assert_eq!(
        lex(&chars("\"\"\"x\"")),
        vec![Token::Str { start: 1, end: 1 }, Token::Str { start: 3, end: 4 }]
    );
}

#[test]
fn lex_large_number_is_capped() {
    assert_eq!(lex(&chars("2147483647")), vec![Token::Number(2147483647)]);
    assert_eq!(lex(&chars("2147483648")), vec![Token::Number(2147483647)]);
    assert_eq!(lex(&chars("99999999999999999999")), vec![Token::Number(2147483647)]);
}

#[test]
fn parse_let_forms() {
    let ast = program("let a = 1; let b = true; let c = \"s\"; let d = []; let e = [ , ;").unwrap();
    assert_eq!(ast.len(), 5);
    let expected = [
        ("a", Value::Int(1)),
        ("b", Value::Bool(true)),
        ("c", Value::Str("s".to_string())),
        ("d", Value::List(vec![])),
        ("e", Value::Members(vec![])),
    ];
    for (node, (n, v)) in ast.iter().zip(expected.iter()) {
        match node {
            AstNode::Let { name, value } => {
                assert_eq!(name, n);
                assert!(value.equals(v));
            }
            _ => panic!("not a let"),
        }
    }
}

#[test]
fn parse_let_takes_one_more_token() {
    let ast = program("let a = 1 print a").unwrap();
    assert_eq!(ast.len(), 1);
    let ast = program("let a = 1").unwrap();
    assert_eq!(ast.len(), 1);
}

#[test]
fn parse_errors() {
    assert_eq!(program("let").unwrap_err(), ParseError::InvalidLetSyntax);
    assert_eq!(program("let 1 = 2").unwrap_err(), ParseError::InvalidLetSyntax);
    assert_eq!(program("let x 2").unwrap_err(), ParseError::InvalidLetSyntax);
    assert_eq!(program("let x =").unwrap_err(), ParseError::InvalidLetValue);
    assert_eq!(program("let x = y").unwrap_err(), ParseError::InvalidLetValue);
    assert_eq!(program("branch { }").unwrap_err(), ParseError::ExpectedIdentifier);
    assert_eq!(program("branch").unwrap_err(), ParseError::ExpectedIdentifier);
    assert_eq!(program("branch x let").unwrap_err(), ParseError::ExpectedBrace);
    assert_eq!(program("print ;").unwrap_err(), ParseError::InvalidPrintTarget);
    assert_eq!(program("print true").unwrap_err(), ParseError::InvalidPrintTarget);
    assert_eq!(program("branch x { print }").unwrap_err(), ParseError::InvalidPrintTarget);
}

#[test]
fn parse_print_and_input() {
    let ast = program("print x print 3 print \"hi\" input \"p? \" v input v input \"q\" 1").unwrap();
    assert_eq!(ast.len(), 4);
    match &ast[0] {
        AstNode::Print { target: PrintTarget::Variable(n) } => assert_eq!(n, "x"),
        _ => panic!("wrong node"),
    }
    match &ast[1] {
        AstNode::Print { target: PrintTarget::Value(v) } => assert!(v.equals(&Value::Int(3))),
        _ => panic!("wrong node"),
    }
    match &ast[2] {
        AstNode::Print { target: PrintTarget::Value(v) } => {
            assert!(v.equals(&Value::Str("hi".to_string())))
        }
        _ => panic!("wrong node"),
    }
    match &ast[3] {
        AstNode::Input { prompt, variable } => {
            assert_eq!(prompt.as_deref(), Some("p? "));
            assert_eq!(variable, "v");
        }
        _ => panic!("wrong node"),
    }
}

#[test]
fn parse_branch_body() {
    let ast = program("branch x { let y = 2; listpush l 3; setinsert s 4; merge y; branch z { } } merge x;")
        .unwrap();
    assert_eq!(ast.len(), 2);
    match &ast[0] {
        AstNode::Branch { variable, body } => {
            assert_eq!(variable, "x");
            assert_eq!(body.len(), 5);
            match &body[1] {
                AstNode::ListPush { variable, value } => {
                    assert_eq!(variable, "l");
                    assert!(value.equals(&Value::Int(3)));
                }
                _ => panic!("wrong node"),
            }
            match &body[2] {
                AstNode::SetInsert { variable, value } => {
                    assert_eq!(variable, "s");
                    assert!(value.equals(&Value::Int(4)));
                }
                _ => panic!("wrong node"),
            }
            match &body[3] {
                AstNode::Merge { variable } => assert_eq!(variable, "y"),
                _ => panic!("wrong node"),
            }
            match &body[4] {
                AstNode::Branch { variable, body } => {
                    assert_eq!(variable, "z");
                    assert!(body.is_empty());
                }
                _ => panic!("wrong node"),
            }
        }
        _ => panic!("wrong node"),
    }
    match &ast[1] {
        AstNode::Merge { variable } => assert_eq!(variable, "x"),
        _ => panic!("wrong node"),
    }
}

#[test]
fn parse_listpush_is_a_statement_inside_blocks_only() {
    let ast = program("listpush l 3").unwrap();
    assert!(ast.is_empty());
    let ast = program("branch b { listpush l x listpush 3 }").unwrap();
    match &ast[0] {
        AstNode::Branch { body, .. } => assert!(body.is_empty()),
        _ => panic!("wrong node"),
    }
}

#[test]
fn parse_unclosed_block_ends_with_the_tokens() {
    let ast = program("branch x { let y = 1;").unwrap();
    assert_eq!(ast.len(), 1);
    match &ast[0] {
        AstNode::Branch { body, .. } => assert_eq!(body.len(), 1),
        _ => panic!("wrong node"),
    }
}

#[test]
fn parse_statement_and_block_report_positions() {
    let src = chars("merge x ; } print y");
    let tokens = lex(&src);
    let (node, next) = parse_statement(&tokens, &src, 0, false).unwrap();
    assert!(matches!(node, Some(AstNode::Merge { .. })));
    assert_eq!(next, 2);
    let (node, next) = parse_statement(&tokens, &src, 0, true).unwrap();
    assert!(matches!(node, Some(AstNode::Merge { .. })));
    assert_eq!(next, 3);
    let (body, next) = parse_block(&tokens, &src, 0, true).unwrap();
    assert_eq!(body.len(), 1);
    assert_eq!(next, 4);
    let (all, next) = parse_block(&tokens, &src, 0, false).unwrap();
    assert_eq!(all.len(), 2);
    assert_eq!(next, 6);
}

#[test]
fn program_text_runs_end_to_end() {
    let ast = program("let x = 1; branch x { let x = 2; } merge x;").unwrap();
    let mut w = World::new();
    let mut reg: Vec<Option<Branch>> = Vec::new();
    let mut c = Console { inputs: Vec::new(), next: 0, outputs: Vec::new() };
    execute_ast(&ast, &mut w, &mut reg, &mut c);
    let x = "x".to_string();
    assert!(w.get(&x).unwrap().equals(&Value::Int(2)));
    assert_eq!(w.get_generation(&x), 1);
}
