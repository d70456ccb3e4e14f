//! The tokenizer: from the characters of a program to its tokens. Names and
//! string literals are handed out as spans of the source.

use vstd::prelude::*;

verus! {

/// One token. A span runs from `start` to just before `end`, counted in
/// characters of the source.
#[derive(Debug, Clone, Copy, PartialEq, Eq)]
pub enum Token {
    Let,
    Branch,
    Merge,
    Print,
    Input,
    Identifier { start: usize, end: usize },
    Number(i32),
    /// A float literal, as the bit pattern of its value.
    Float(u64),
    Bool(bool),
    /// A string literal; the span leaves the quotes out.
    Str { start: usize, end: usize },
    Equals,
    LBrace,
    RBrace,
    Semicolon,
    LBracket,
    RBracket,
    Comma,
}

/// The kinds of runs of characters that the tokenizer scans.
pub enum RunKind {
    /// Decimal digits.
    Digits,
    /// Letters, digits and underscores.
    Word,
    /// Anything up to the next double quote.
    Text,
}

/// White space, as Unicode defines it.
pub open spec fn is_space(c: char) -> bool {
    let u = c as u32;
    (0x09 <= u <= 0x0d) || u == 0x20 || u == 0x85 || u == 0xa0 || u == 0x1680 || (0x2000 <= u
        <= 0x200a) || u == 0x2028 || u == 0x2029 || u == 0x202f || u == 0x205f || u == 0x3000
}

/// An ASCII decimal digit.
pub open spec fn is_digit(c: char) -> bool {
    0x30 <= c as u32 <= 0x39
}

/// An ASCII letter.
pub open spec fn is_letter(c: char) -> bool {
    (0x41 <= c as u32 <= 0x5a) || (0x61 <= c as u32 <= 0x7a)
}

/// `c` belongs to a run of the given kind.
pub open spec fn in_run(kind: RunKind, c: char) -> bool {
    match kind {
        RunKind::Digits => is_digit(c),
        RunKind::Word => is_letter(c) || is_digit(c) || c == '_',
        RunKind::Text => c != '"',
    }
}

/// Where the run of the given kind that starts at `pos` ends: the first
/// position at or after `pos` whose character is not of the run, or the end
/// of the source.
pub open spec fn run_end(src: Seq<char>, pos: int, kind: RunKind) -> int
    decreases src.len() - pos,
{
    if 0 <= pos < src.len() && in_run(kind, src[pos]) {
        run_end(src, pos + 1, kind)
    } else {
        pos
    }
}

/// The value of the decimal digits from `start` to just before `end`; a
/// value too large for 32 bits counts as the largest that fits.
pub open spec fn number(src: Seq<char>, start: int, end: int) -> int
    decreases end - start,
{
    if end <= start {
        0
    } else {
        let v = number(src, start, end - 1) * 10 + (src[end - 1] as u32 - 0x30);
        if v > i32::MAX {
            i32::MAX as int
        } else {
            v
        }
    }
}

/// The token that a word stands for: a keyword, a truth value, or a name.
pub open spec fn word_token(src: Seq<char>, start: int, end: int) -> Token {
    let text = src.subrange(start, end);
    if text == seq!['l', 'e', 't'] {
        Token::Let
    } else if text == seq!['b', 'r', 'a', 'n', 'c', 'h'] {
        Token::Branch
    } else if text == seq!['m', 'e', 'r', 'g', 'e'] {
        Token::Merge
    } else if text == seq!['p', 'r', 'i', 'n', 't'] {
        Token::Print
    } else if text == seq!['i', 'n', 'p', 'u', 't'] {
        Token::Input
    } else if text == seq!['t', 'r', 'u', 'e'] {
        Token::Bool(true)
    } else if text == seq!['f', 'a', 'l', 's', 'e'] {
        Token::Bool(false)
    } else {
        Token::Identifier { start: start as usize, end: end as usize }
    }
}

/// The token of a single punctuation character, if it is one.
pub open spec fn punctuation(c: char) -> Option<Token> {
    if c == '=' {
        Some(Token::Equals)
    } else if c == '{' {
        Some(Token::LBrace)
    } else if c == '}' {
        Some(Token::RBrace)
    } else if c == '[' {
        Some(Token::LBracket)
    } else if c == ']' {
        Some(Token::RBracket)
    } else if c == ',' {
        Some(Token::Comma)
    } else if c == ';' {
        Some(Token::Semicolon)
    } else {
        None
    }
}

/// What the tokenizer reads at one position: a token or nothing, and the
/// position at which it goes on.
pub ghost struct Lexeme {
    pub token: Option<Token>,
    pub next: int,
}

/// What stands at `pos`. White space and characters that start no token
/// are passed over. A string literal runs to the next double quote, or to
/// the end of the source where there is none.
pub open spec fn lexeme_at(src: Seq<char>, pos: int) -> Lexeme {
    let c = src[pos];
    if is_space(c) {
        Lexeme { token: None, next: pos + 1 }
    } else if punctuation(c) is Some {
        Lexeme { token: punctuation(c), next: pos + 1 }
    } else if c == '"' {
        let e = run_end(src, pos + 1, RunKind::Text);
        Lexeme {
            token: Some(Token::Str { start: (pos + 1) as usize, end: e as usize }),
            next: if e < src.len() {
                e + 1
            } else {
                e
            },
        }
    } else if is_digit(c) {
        let e = run_end(src, pos, RunKind::Digits);
        Lexeme { token: Some(Token::Number(number(src, pos, e) as i32)), next: e }
    } else if is_letter(c) {
        let e = run_end(src, pos, RunKind::Word);
        Lexeme { token: Some(word_token(src, pos, e)), next: e }
    } else {
        Lexeme { token: None, next: pos + 1 }
    }
}

/// The tokens of the source from `pos` on.
pub open spec fn lexed(src: Seq<char>, pos: int) -> Seq<Token>
    decreases src.len() - pos,
{
    if pos < 0 || pos >= src.len() {
        Seq::empty()
    } else {
        let here = lexeme_at(src, pos);
        if here.next <= pos || here.next > src.len() {
            Seq::empty()
        } else {
            match here.token {
                Some(t) => seq![t] + lexed(src, here.next),
                None => lexed(src, here.next),
            }
        }
    }
}

/// A run ends at or after its start, and within the source.
pub proof fn lemma_run_end_bounds(src: Seq<char>, pos: int, kind: RunKind)
    requires
        0 <= pos <= src.len(),
    ensures
        pos <= run_end(src, pos, kind) <= src.len(),
        0 <= pos < src.len() && in_run(kind, src[pos]) ==> pos < run_end(src, pos, kind),
    decreases src.len() - pos,
{
    if pos < src.len() && in_run(kind, src[pos]) {
        lemma_run_end_bounds(src, pos + 1, kind);
    }
}

/// The tokenizer always moves on, and never past the end of the source.
pub proof fn lemma_lexeme_advances(src: Seq<char>, pos: int)
    requires
        0 <= pos < src.len(),
    ensures
        pos < lexeme_at(src, pos).next <= src.len(),
{
    lemma_run_end_bounds(src, pos + 1, RunKind::Text);
    lemma_run_end_bounds(src, pos, RunKind::Digits);
    lemma_run_end_bounds(src, pos, RunKind::Word);
}

/// The decimal value of a run of digits is within 32 bits.
pub proof fn lemma_number_bounds(src: Seq<char>, start: int, end: int)
    requires
        0 <= start <= end <= src.len(),
        forall|k: int| start <= k < end ==> is_digit(#[trigger] src[k]),
    ensures
        0 <= number(src, start, end) <= i32::MAX,
    decreases end - start,
{
    if start < end {
        lemma_number_bounds(src, start, end - 1);
    }
}

fn char_in_run(kind: &RunKind, c: char) -> (r: bool)
    ensures
        r == in_run(*kind, c),
{
    let u = c as u32;
    match kind {
        RunKind::Digits => 0x30 <= u && u <= 0x39,
        RunKind::Word => (0x41 <= u && u <= 0x5a) || (0x61 <= u && u <= 0x7a) || (0x30 <= u && u
            <= 0x39) || c == '_',
        RunKind::Text => c != '"',
    }
}

fn scan(src: &Vec<char>, pos: usize, kind: RunKind) -> (e: usize)
    requires
        pos <= src.len(),
    ensures
        e == run_end(src@, pos as int, kind),
        pos <= e <= src.len(),
        forall|k: int| pos <= k < e ==> in_run(kind, #[trigger] src@[k]),
{
    let mut i: usize = pos;
    while i < src.len() && char_in_run(&kind, src[i])
        invariant
            pos <= i <= src.len(),
            run_end(src@, pos as int, kind) == run_end(src@, i as int, kind),
            forall|k: int| pos <= k < i ==> in_run(kind, #[trigger] src@[k]),
        decreases src.len() - i,
    {
        i += 1;
    }
    i
}

fn decimal(src: &Vec<char>, start: usize, end: usize) -> (r: i32)
    requires
        start <= end <= src.len(),
        forall|k: int| start <= k < end ==> is_digit(#[trigger] src@[k]),
    ensures
        r == number(src@, start as int, end as int),
{
    let mut num: i32 = 0;
    let mut k: usize = start;
    while k < end
        invariant
            start <= k <= end <= src.len(),
            forall|j: int| start <= j < end ==> is_digit(#[trigger] src@[j]),
            num == number(src@, start as int, k as int),
            0 <= num,
        decreases end - k,
    {
        assert(is_digit(src@[k as int]));
        let d: i64 = (src[k] as u32 - 0x30) as i64;
        let v: i64 = (num as i64) * 10 + d;
        num = if v > i32::MAX as i64 {
            i32::MAX
        } else {
            v as i32
        };
        k += 1;
    }
    num
}

pub(crate) fn span_is(src: &Vec<char>, start: usize, end: usize, word: &Vec<char>) -> (r: bool)
    requires
        start <= end <= src.len(),
    ensures
        r == (src@.subrange(start as int, end as int) == word@),
{
    let ghost text = src@.subrange(start as int, end as int);
    if end - start != word.len() {
        return false;
    }
    let mut k: usize = 0;
    while k < word.len()
        invariant
            start <= end <= src.len(),
            end - start == word.len(),
            k <= word.len(),
            text == src@.subrange(start as int, end as int),
            forall|j: int| 0 <= j < k ==> text[j] == word@[j],
        decreases word.len() - k,
    {
        if src[start + k] != word[k] {
            assert(text[k as int] != word@[k as int]);
            return false;
        }
        k += 1;
    }
    assert(text =~= word@);
    true
}

fn word_at(src: &Vec<char>, start: usize, end: usize) -> (t: Token)
    requires
        start <= end <= src.len(),
    ensures
        t == word_token(src@, start as int, end as int),
{
    if span_is(src, start, end, &vec!['l', 'e', 't']) {
        Token::Let
    } else if span_is(src, start, end, &vec!['b', 'r', 'a', 'n', 'c', 'h']) {
        Token::Branch
    } else if span_is(src, start, end, &vec!['m', 'e', 'r', 'g', 'e']) {
        Token::Merge
    } else if span_is(src, start, end, &vec!['p', 'r', 'i', 'n', 't']) {
        Token::Print
    } else if span_is(src, start, end, &vec!['i', 'n', 'p', 'u', 't']) {
        Token::Input
    } else if span_is(src, start, end, &vec!['t', 'r', 'u', 'e']) {
        Token::Bool(true)
    } else if span_is(src, start, end, &vec!['f', 'a', 'l', 's', 'e']) {
        Token::Bool(false)
    } else {
        Token::Identifier { start, end }
    }
}

fn space(c: char) -> (r: bool)
    ensures
        r == is_space(c),
{
    let u = c as u32;
    (0x09 <= u && u <= 0x0d) || u == 0x20 || u == 0x85 || u == 0xa0 || u == 0x1680 || (0x2000 <= u
        && u <= 0x200a) || u == 0x2028 || u == 0x2029 || u == 0x202f || u == 0x205f || u == 0x3000
}

fn punctuation_of(c: char) -> (r: Option<Token>)
    ensures
        r == punctuation(c),
{
    if c == '=' {
        Some(Token::Equals)
    } else if c == '{' {
        Some(Token::LBrace)
    } else if c == '}' {
        Some(Token::RBrace)
    } else if c == '[' {
        Some(Token::LBracket)
    } else if c == ']' {
        Some(Token::RBracket)
    } else if c == ',' {
        Some(Token::Comma)
    } else if c == ';' {
        Some(Token::Semicolon)
    } else {
        None
    }
}

fn lex_one(src: &Vec<char>, pos: usize) -> (r: (Option<Token>, usize))
    requires
        pos < src.len(),
    ensures
        r.0 == lexeme_at(src@, pos as int).token,
        r.1 == lexeme_at(src@, pos as int).next,
        pos < r.1 <= src.len(),
{
    proof {
        lemma_lexeme_advances(src@, pos as int);
    }
    let c = src[pos];
    let mark = punctuation_of(c);
    if space(c) {
        (None, pos + 1)
    } else if mark.is_some() {
        (mark, pos + 1)
    } else if c == '"' {
        let e = scan(src, pos + 1, RunKind::Text);
        let next = if e < src.len() {
            e + 1
        } else {
            e
        };
        (Some(Token::Str { start: pos + 1, end: e }), next)
    } else if char_in_run(&RunKind::Digits, c) {
        let e = scan(src, pos, RunKind::Digits);
        (Some(Token::Number(decimal(src, pos, e))), e)
    } else if (0x41 <= c as u32 && c as u32 <= 0x5a) || (0x61 <= c as u32 && c as u32 <= 0x7a) {
        let e = scan(src, pos, RunKind::Word);
        (Some(word_at(src, pos, e)), e)
    } else {
        (None, pos + 1)
    }
}

/// The tokens of a program, in source order.
pub fn lex(src: &Vec<char>) -> (tokens: Vec<Token>)
    ensures
        tokens@ == lexed(src@, 0),
{
    let mut tokens: Vec<Token> = Vec::new();
    let mut pos: usize = 0;
    while pos < src.len()
        invariant
            pos <= src.len(),
            tokens@ + lexed(src@, pos as int) == lexed(src@, 0),
        decreases src.len() - pos,
    {
        let ghost before = tokens@;
        let (token, next) = lex_one(src, pos);
        match token {
            Some(t) => {
                tokens.push(t);
                assert(before.push(t) + lexed(src@, next as int) =~= before + (seq![t] + lexed(
                    src@,
                    next as int,
                )));
            },
            None => {},
        }
        pos = next;
    }
    assert(tokens@ + Seq::<Token>::empty() =~= tokens@);
    tokens
}

} // verus!
