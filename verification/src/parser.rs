//! The parser: from tokens to the statements of a program.

use vstd::prelude::*;
use crate::interp::{ast_models, AstModel, AstNode, PrintModel, PrintTarget};
use crate::lexer::{span_is, Token};
use crate::value::{Val, Value};

verus! {

/// Why a sequence of tokens is no program.
#[derive(Debug, Clone, Copy, PartialEq, Eq)]
pub enum ParseError {
    /// `let` is not followed by a name and an equals sign.
    InvalidLetSyntax,
    /// The equals sign of a `let` is not followed by a literal.
    InvalidLetValue,
    /// `branch` is not followed by a name.
    ExpectedIdentifier,
    /// The name of a branch is not followed by an opening brace.
    ExpectedBrace,
    /// `print` is followed by neither a name nor a literal.
    InvalidPrintTarget,
}

/// What the parser makes of the tokens at one position: a statement, nothing
/// (tokens that are passed over), or an error. `next` is the position at
/// which it goes on.
pub ghost enum Outcome {
    Node { node: AstModel, next: int },
    Skip { next: int },
    Fail(ParseError),
}

/// What the parser makes of a block: its statements and the position after
/// it, or an error.
pub ghost enum Block {
    Done { nodes: Seq<AstModel>, next: int },
    Fail(ParseError),
}

/// The characters of a span; none where the span does not lie in the source.
pub open spec fn span_text(src: Seq<char>, start: int, end: int) -> Seq<char> {
    if 0 <= start <= end <= src.len() {
        src.subrange(start, end)
    } else {
        Seq::empty()
    }
}

/// The token at `pos`, if there is one.
pub open spec fn token_at(tokens: Seq<Token>, pos: int) -> Option<Token> {
    if 0 <= pos < tokens.len() {
        Some(tokens[pos])
    } else {
        None
    }
}

/// The position after the token at `pos` is taken, if there is one.
pub open spec fn after(tokens: Seq<Token>, pos: int) -> int {
    if pos < tokens.len() {
        pos + 1
    } else {
        pos
    }
}

/// The rest of a `let`, from the token after the keyword: a name, an equals
/// sign, a literal, and one more token of any kind. An opening bracket
/// stands for the empty list where a closing bracket follows it, and else,
/// with the token after it, for the empty set.
pub open spec fn let_at(tokens: Seq<Token>, src: Seq<char>, pos: int) -> Outcome {
    match token_at(tokens, pos) {
        Some(Token::Identifier { start, end }) => match token_at(tokens, pos + 1) {
            Some(Token::Equals) => {
                let name = span_text(src, start as int, end as int);
                match token_at(tokens, pos + 2) {
                    Some(Token::Number(n)) => Outcome::Node {
                        node: AstModel::Let { name, value: Val::Int(n) },
                        next: after(tokens, pos + 3),
                    },
                    Some(Token::Float(bits)) => Outcome::Node {
                        node: AstModel::Let { name, value: Val::Float(bits) },
                        next: after(tokens, pos + 3),
                    },
                    Some(Token::Bool(b)) => Outcome::Node {
                        node: AstModel::Let { name, value: Val::Bool(b) },
                        next: after(tokens, pos + 3),
                    },
                    Some(Token::Str { start: s, end: e }) => Outcome::Node {
                        node: AstModel::Let {
                            name,
                            value: Val::Str(span_text(src, s as int, e as int)),
                        },
                        next: after(tokens, pos + 3),
                    },
                    Some(Token::LBracket) => match token_at(tokens, pos + 3) {
                        Some(Token::RBracket) => Outcome::Node {
                            node: AstModel::Let { name, value: Val::List(Seq::empty()) },
                            next: after(tokens, pos + 4),
                        },
                        _ => Outcome::Node {
                            node: AstModel::Let { name, value: Val::Members(Seq::empty()) },
                            next: after(tokens, after(tokens, pos + 3)),
                        },
                    },
                    _ => Outcome::Fail(ParseError::InvalidLetValue),
                }
            },
            _ => Outcome::Fail(ParseError::InvalidLetSyntax),
        },
        _ => Outcome::Fail(ParseError::InvalidLetSyntax),
    }
}

/// The rest of a `print`, from the token after the keyword: a name or a
/// literal.
pub open spec fn print_at(tokens: Seq<Token>, src: Seq<char>, pos: int) -> Outcome {
    match token_at(tokens, pos) {
        Some(Token::Identifier { start, end }) => Outcome::Node {
            node: AstModel::Print {
                target: PrintModel::Variable(span_text(src, start as int, end as int)),
            },
            next: pos + 1,
        },
        Some(Token::Number(n)) => Outcome::Node {
            node: AstModel::Print { target: PrintModel::Value(Val::Int(n)) },
            next: pos + 1,
        },
        Some(Token::Float(bits)) => Outcome::Node {
            node: AstModel::Print { target: PrintModel::Value(Val::Float(bits)) },
            next: pos + 1,
        },
        Some(Token::Str { start, end }) => Outcome::Node {
            node: AstModel::Print {
                target: PrintModel::Value(Val::Str(span_text(src, start as int, end as int))),
            },
            next: pos + 1,
        },
        _ => Outcome::Fail(ParseError::InvalidPrintTarget),
    }
}

/// The rest of an `input`, from the token after the keyword: a string and
/// a name. Where either is missing, what was read is passed over.
pub open spec fn input_at(tokens: Seq<Token>, src: Seq<char>, pos: int) -> Outcome {
    match token_at(tokens, pos) {
        Some(Token::Str { start, end }) => match token_at(tokens, pos + 1) {
            Some(Token::Identifier { start: s, end: e }) => Outcome::Node {
                node: AstModel::Input {
                    prompt: Some(span_text(src, start as int, end as int)),
                    variable: span_text(src, s as int, e as int),
                },
                next: pos + 2,
            },
            _ => Outcome::Skip { next: after(tokens, pos + 1) },
        },
        _ => Outcome::Skip { next: after(tokens, pos) },
    }
}

/// The rest of a `merge`, from the token after the keyword: a name, and
/// inside a block one more token of any kind.
pub open spec fn merge_at(tokens: Seq<Token>, src: Seq<char>, pos: int, inside: bool) -> Outcome {
    match token_at(tokens, pos) {
        Some(Token::Identifier { start, end }) => Outcome::Node {
            node: AstModel::Merge { variable: span_text(src, start as int, end as int) },
            next: if inside {
                after(tokens, pos + 1)
            } else {
                pos + 1
            },
        },
        _ => Outcome::Skip { next: after(tokens, pos) },
    }
}

/// The rest of a `listpush` or `setinsert`, from the token after the word:
/// a name and a number. Where either is missing, what was read is passed
/// over.
pub open spec fn grow_at(tokens: Seq<Token>, src: Seq<char>, pos: int, list: bool) -> Outcome {
    match token_at(tokens, pos) {
        Some(Token::Identifier { start, end }) => match token_at(tokens, pos + 1) {
            Some(Token::Number(n)) => {
                let variable = span_text(src, start as int, end as int);
                Outcome::Node {
                    node: if list {
                        AstModel::ListPush { variable, value: Val::Int(n) }
                    } else {
                        AstModel::SetInsert { variable, value: Val::Int(n) }
                    },
                    next: pos + 2,
                }
            },
            _ => Outcome::Skip { next: after(tokens, pos + 1) },
        },
        _ => Outcome::Skip { next: after(tokens, pos) },
    }
}

pub open spec fn word_listpush() -> Seq<char> {
    seq!['l', 'i', 's', 't', 'p', 'u', 's', 'h']
}

pub open spec fn word_setinsert() -> Seq<char> {
    seq!['s', 'e', 't', 'i', 'n', 's', 'e', 'r', 't']
}

/// What the parser makes of the tokens from `pos` on, where a statement may
/// start. `listpush` and `setinsert` are statements inside a block only.
/// A `branch` takes a name, an opening brace and a block. Any other token
/// is passed over.
pub open spec fn statement_at(tokens: Seq<Token>, src: Seq<char>, pos: int, inside: bool) -> Outcome
    decreases tokens.len() - pos, 0nat,
{
    match token_at(tokens, pos) {
        Some(Token::Let) => let_at(tokens, src, pos + 1),
        Some(Token::Branch) => match token_at(tokens, pos + 1) {
            Some(Token::Identifier { start, end }) => match token_at(tokens, pos + 2) {
                Some(Token::LBrace) => match block_from(tokens, src, pos + 3, true, Seq::empty()) {
                    Block::Done { nodes, next } => Outcome::Node {
                        node: AstModel::Branch {
                            variable: span_text(src, start as int, end as int),
                            body: nodes,
                        },
                        next,
                    },
                    Block::Fail(e) => Outcome::Fail(e),
                },
                _ => Outcome::Fail(ParseError::ExpectedBrace),
            },
            _ => Outcome::Fail(ParseError::ExpectedIdentifier),
        },
        Some(Token::Merge) => merge_at(tokens, src, pos + 1, inside),
        Some(Token::Print) => print_at(tokens, src, pos + 1),
        Some(Token::Input) => input_at(tokens, src, pos + 1),
        Some(Token::Identifier { start, end }) => if inside && span_text(
            src,
            start as int,
            end as int,
        ) == word_listpush() {
            grow_at(tokens, src, pos + 1, true)
        } else if inside && span_text(src, start as int, end as int) == word_setinsert() {
            grow_at(tokens, src, pos + 1, false)
        } else {
            Outcome::Skip { next: pos + 1 }
        },
        _ => Outcome::Skip { next: pos + 1 },
    }
}

/// The statements from `pos` on, after those of `acc`: to the end of the
/// tokens, or, inside a block, to its closing brace, which is taken.
pub open spec fn block_from(
    tokens: Seq<Token>,
    src: Seq<char>,
    pos: int,
    inside: bool,
    acc: Seq<AstModel>,
) -> Block
    decreases tokens.len() - pos, 1nat,
{
    if pos < 0 || pos >= tokens.len() {
        Block::Done { nodes: acc, next: pos }
    } else if inside && tokens[pos] == Token::RBrace {
        Block::Done { nodes: acc, next: pos + 1 }
    } else {
        match statement_at(tokens, src, pos, inside) {
            Outcome::Node { node, next } => if pos < next <= tokens.len() {
                block_from(tokens, src, next, inside, acc.push(node))
            } else {
                Block::Done { nodes: acc.push(node), next }
            },
            Outcome::Skip { next } => if pos < next <= tokens.len() {
                block_from(tokens, src, next, inside, acc)
            } else {
                Block::Done { nodes: acc, next }
            },
            Outcome::Fail(e) => Block::Fail(e),
        }
    }
}

/// The statements of a whole program, or why the tokens are none.
pub open spec fn parsed(tokens: Seq<Token>, src: Seq<char>) -> Block {
    block_from(tokens, src, 0, false, Seq::empty())
}

/// A result of the parser says what an outcome says.
pub open spec fn agrees(r: Result<(Option<AstNode>, usize), ParseError>, o: Outcome) -> bool {
    match o {
        Outcome::Node { node, next } => match r {
            Ok((Some(n), p)) => n@ == node && p == next,
            _ => false,
        },
        Outcome::Skip { next } => match r {
            Ok((None, p)) => p == next,
            _ => false,
        },
        Outcome::Fail(e) => match r {
            Err(f) => f == e,
            _ => false,
        },
    }
}

/// A parsed block says what a block outcome says.
pub open spec fn block_agrees(r: Result<(Vec<AstNode>, usize), ParseError>, b: Block) -> bool {
    match b {
        Block::Done { nodes, next } => match r {
            Ok((ast, p)) => ast_models(ast@) == nodes && p == next,
            _ => false,
        },
        Block::Fail(e) => match r {
            Err(f) => f == e,
            _ => false,
        },
    }
}

/// `String::push` of std, which puts one character at the end of a string:
/// the text after the call is the text before it followed by `c`.
#[verifier::external_body]
fn push_char(s: &mut String, c: char)
    ensures
        final(s)@ == old(s)@.push(c),
{
    s.push(c);
}

fn text_of(src: &Vec<char>, start: usize, end: usize) -> (s: String)
    ensures
        s@ == span_text(src@, start as int, end as int),
{
    let mut s = String::new();
    if start <= end && end <= src.len() {
        let mut k: usize = start;
        assert(s@ =~= src@.subrange(start as int, k as int));
        while k < end
            invariant
                start <= k <= end <= src.len(),
                s@ == src@.subrange(start as int, k as int),
            decreases end - k,
        {
            push_char(&mut s, src[k]);
            k += 1;
            assert(s@ =~= src@.subrange(start as int, k as int));
        }
    }
    s
}

fn text_is(src: &Vec<char>, start: usize, end: usize, word: &Vec<char>) -> (r: bool)
    ensures
        r == (span_text(src@, start as int, end as int) == word@),
{
    if start <= end && end <= src.len() {
        span_is(src, start, end, word)
    } else {
        assert(word.len() == 0 ==> word@ =~= Seq::<char>::empty());
        word.len() == 0
    }
}

fn peek(tokens: &Vec<Token>, pos: usize) -> (r: Option<Token>)
    ensures
        r == token_at(tokens@, pos as int),
{
    if pos < tokens.len() {
        Some(tokens[pos])
    } else {
        None
    }
}

fn step_after(tokens: &Vec<Token>, pos: usize) -> (r: usize)
    requires
        pos <= tokens.len(),
    ensures
        r == after(tokens@, pos as int),
        pos <= r <= tokens.len(),
{
    if pos < tokens.len() {
        pos + 1
    } else {
        pos
    }
}

fn parse_let(tokens: &Vec<Token>, src: &Vec<char>, pos: usize) -> (r: Result<
    (Option<AstNode>, usize),
    ParseError,
>)
    requires
        pos <= tokens.len(),
    ensures
        agrees(r, let_at(tokens@, src@, pos as int)),
        r is Ok ==> pos <= r->Ok_0.1 <= tokens.len(),
{
    match peek(tokens, pos) {
        Some(Token::Identifier { start, end }) => match peek(tokens, pos + 1) {
            Some(Token::Equals) => {
                let (value, next) = match peek(tokens, pos + 2) {
                    Some(Token::Number(n)) => (Value::Int(n), pos + 3),
                    Some(Token::Float(bits)) => (Value::Float(bits), pos + 3),
                    Some(Token::Bool(b)) => (Value::Bool(b), pos + 3),
                    Some(Token::Str { start: s, end: e }) => (
                        Value::Str(text_of(src, s, e)),
                        pos + 3,
                    ),
                    Some(Token::LBracket) => match peek(tokens, pos + 3) {
                        Some(Token::RBracket) => {
                            let items: Vec<Value> = Vec::new();
                            assert(crate::value::model_seq(items@) =~= Seq::empty());
                            (Value::List(items), pos + 4)
                        },
                        _ => {
                            let items: Vec<Value> = Vec::new();
                            assert(crate::value::model_seq(items@) =~= Seq::empty());
                            (Value::Members(items), step_after(tokens, pos + 3))
                        },
                    },
                    _ => {
                        return Err(ParseError::InvalidLetValue);
                    },
                };
                let name = text_of(src, start, end);
                Ok((Some(AstNode::Let { name, value }), step_after(tokens, next)))
            },
            _ => Err(ParseError::InvalidLetSyntax),
        },
        _ => Err(ParseError::InvalidLetSyntax),
    }
}

fn parse_print(tokens: &Vec<Token>, src: &Vec<char>, pos: usize) -> (r: Result<
    (Option<AstNode>, usize),
    ParseError,
>)
    requires
        pos <= tokens.len(),
    ensures
        agrees(r, print_at(tokens@, src@, pos as int)),
        r is Ok ==> pos <= r->Ok_0.1 <= tokens.len(),
{
    let target = match peek(tokens, pos) {
        Some(Token::Identifier { start, end }) => PrintTarget::Variable(text_of(src, start, end)),
        Some(Token::Number(n)) => PrintTarget::Value(Value::Int(n)),
        Some(Token::Float(bits)) => PrintTarget::Value(Value::Float(bits)),
        Some(Token::Str { start, end }) => PrintTarget::Value(Value::Str(text_of(src, start, end))),
        _ => {
            return Err(ParseError::InvalidPrintTarget);
        },
    };
    Ok((Some(AstNode::Print { target }), pos + 1))
}

fn parse_input(tokens: &Vec<Token>, src: &Vec<char>, pos: usize) -> (r: Result<
    (Option<AstNode>, usize),
    ParseError,
>)
    requires
        pos <= tokens.len(),
    ensures
        agrees(r, input_at(tokens@, src@, pos as int)),
        r is Ok,
        pos <= r->Ok_0.1 <= tokens.len(),
{
    match peek(tokens, pos) {
        Some(Token::Str { start, end }) => match peek(tokens, pos + 1) {
            Some(Token::Identifier { start: s, end: e }) => {
                let prompt = Some(text_of(src, start, end));
                let variable = text_of(src, s, e);
                Ok((Some(AstNode::Input { prompt, variable }), pos + 2))
            },
            _ => Ok((None, step_after(tokens, pos + 1))),
        },
        _ => Ok((None, step_after(tokens, pos))),
    }
}

fn parse_merge(tokens: &Vec<Token>, src: &Vec<char>, pos: usize, inside: bool) -> (r: Result<
    (Option<AstNode>, usize),
    ParseError,
>)
    requires
        pos <= tokens.len(),
    ensures
        agrees(r, merge_at(tokens@, src@, pos as int, inside)),
        r is Ok,
        pos <= r->Ok_0.1 <= tokens.len(),
{
    match peek(tokens, pos) {
        Some(Token::Identifier { start, end }) => {
            let variable = text_of(src, start, end);
            let next = if inside {
                step_after(tokens, pos + 1)
            } else {
                pos + 1
            };
            Ok((Some(AstNode::Merge { variable }), next))
        },
        _ => Ok((None, step_after(tokens, pos))),
    }
}

fn parse_grow(tokens: &Vec<Token>, src: &Vec<char>, pos: usize, list: bool) -> (r: Result<
    (Option<AstNode>, usize),
    ParseError,
>)
    requires
        pos <= tokens.len(),
    ensures
        agrees(r, grow_at(tokens@, src@, pos as int, list)),
        r is Ok,
        pos <= r->Ok_0.1 <= tokens.len(),
{
    match peek(tokens, pos) {
        Some(Token::Identifier { start, end }) => match peek(tokens, pos + 1) {
            Some(Token::Number(n)) => {
                let variable = text_of(src, start, end);
                let node = if list {
                    AstNode::ListPush { variable, value: Value::Int(n) }
                } else {
                    AstNode::SetInsert { variable, value: Value::Int(n) }
                };
                Ok((Some(node), pos + 2))
            },
            _ => Ok((None, step_after(tokens, pos + 1))),
        },
        _ => Ok((None, step_after(tokens, pos))),
    }
}

/// Parses what stands at `pos`: one statement, or tokens that are passed
/// over.
pub fn parse_statement(tokens: &Vec<Token>, src: &Vec<char>, pos: usize, inside: bool) -> (r:
    Result<(Option<AstNode>, usize), ParseError>)
    requires
        pos < tokens.len(),
    ensures
        agrees(r, statement_at(tokens@, src@, pos as int, inside)),
        r is Ok ==> pos < r->Ok_0.1 <= tokens.len(),
    decreases tokens.len() - pos, 0nat,
{
    match tokens[pos] {
        Token::Let => parse_let(tokens, src, pos + 1),
        Token::Branch => match peek(tokens, pos + 1) {
            Some(Token::Identifier { start, end }) => match peek(tokens, pos + 2) {
                Some(Token::LBrace) => match parse_block(tokens, src, pos + 3, true) {
                    Ok((body, next)) => {
                        let variable = text_of(src, start, end);
                        Ok((Some(AstNode::Branch { variable, body }), next))
                    },
                    Err(e) => Err(e),
                },
                _ => Err(ParseError::ExpectedBrace),
            },
            _ => Err(ParseError::ExpectedIdentifier),
        },
        Token::Merge => parse_merge(tokens, src, pos + 1, inside),
        Token::Print => parse_print(tokens, src, pos + 1),
        Token::Input => parse_input(tokens, src, pos + 1),
        Token::Identifier { start, end } => {
            if inside && text_is(
                src,
                start,
                end,
                &vec!['l', 'i', 's', 't', 'p', 'u', 's', 'h'],
            ) {
                parse_grow(tokens, src, pos + 1, true)
            } else if inside && text_is(
                src,
                start,
                end,
                &vec!['s', 'e', 't', 'i', 'n', 's', 'e', 'r', 't'],
            ) {
                parse_grow(tokens, src, pos + 1, false)
            } else {
                Ok((None, pos + 1))
            }
        },
        _ => Ok((None, pos + 1)),
    }
}

/// Parses the statements from `pos` on: to the end of the tokens, or,
/// inside a block, to its closing brace.
pub fn parse_block(tokens: &Vec<Token>, src: &Vec<char>, pos: usize, inside: bool) -> (r: Result<
    (Vec<AstNode>, usize),
    ParseError,
>)
    requires
        pos <= tokens.len(),
    ensures
        block_agrees(r, block_from(tokens@, src@, pos as int, inside, Seq::empty())),
        r is Ok ==> pos <= r->Ok_0.1 <= tokens.len(),
    decreases tokens.len() - pos, 1nat,
{
    let ghost whole = block_from(tokens@, src@, pos as int, inside, Seq::empty());
    let mut ast: Vec<AstNode> = Vec::new();
    let mut at: usize = pos;
    assert(ast_models(ast@) =~= Seq::empty());
    while at < tokens.len()
        invariant
            pos <= at <= tokens.len(),
            whole == block_from(tokens@, src@, pos as int, inside, Seq::empty()),
            block_from(tokens@, src@, at as int, inside, ast_models(ast@)) == whole,
        decreases tokens.len() - at,
    {
        match tokens[at] {
            Token::RBrace => {
                if inside {
                    return Ok((ast, at + 1));
                }
            },
            _ => {},
        }
        let ghost before = ast_models(ast@);
        match parse_statement(tokens, src, at, inside) {
            Ok((Some(node), next)) => {
                ast.push(node);
                assert(ast_models(ast@) =~= before.push(node@));
                at = next;
            },
            Ok((None, next)) => {
                at = next;
            },
            Err(e) => {
                return Err(e);
            },
        }
    }
    Ok((ast, at))
}

/// Parses a whole program from its tokens and the source they were read
/// from.
pub fn parse(tokens: &Vec<Token>, src: &Vec<char>) -> (r: Result<Vec<AstNode>, ParseError>)
    ensures
        match parsed(tokens@, src@) {
            Block::Done { nodes, next } => r is Ok && ast_models(r->Ok_0@) == nodes,
            Block::Fail(e) => r == Err::<Vec<AstNode>, ParseError>(e),
        },
{
    match parse_block(tokens, src, 0, false) {
        Ok((ast, _)) => Ok(ast),
        Err(e) => Err(e),
    }
}

} // verus!
