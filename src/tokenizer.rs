//! The lexer: source bytes to tokens.

use vstd::prelude::*;
use crate::combinator::{
    bytes_eq, dec_value, is_int, is_kw_or_var, is_op, is_quote, parse_decimal, spec_is_int,
    spec_is_kw_or_var, spec_is_op, spec_is_quote, spec_is_ws, DOLLAR, NEWLINE, SEMICOLON, STAR,
};
use crate::stream::{
    accepts, diagnostic, find_byte, line_start, rows_before, run_end, lemma_find_byte_bounds,
    lemma_find_byte_prefix, lemma_find_byte_shift, lemma_run_end_accepts, lemma_run_end_bounds,
    lemma_run_end_prefix, lemma_run_end_shift, lemma_run_end_stops, CharClass, IStream,
};

verus! {

#[derive(Debug, Clone, Copy, PartialEq, Eq, Structural)]
pub enum Keyword {
    Const,
    Let,
    Function,
    External,
    While,
    Call,
    SizeOf,
}

#[derive(Debug, Clone, Copy, PartialEq, Eq, Structural)]
pub enum Operator {
    Assign,
    Add,
    Subtract,
    Divide,
    Multiply,
    Modulus,
    Decrement,
    Increment,
    Not,
    Equal,
    NotEqual,
}

/// Braces are `{ }`, brackets are `[ ]`.
#[derive(Debug, Clone, Copy, PartialEq, Eq, Structural)]
pub enum Separator {
    OpenBracket,
    CloseBracket,
    OpenBrace,
    CloseBrace,
    Colon,
    OpenParentheses,
    CloseParentheses,
    Comma,
}

/// An element type of declared storage.
#[derive(Debug, Clone, Copy, PartialEq, Eq, Structural)]
pub enum Type {
    Uint8,
    Uint64,
}

#[derive(Debug, Clone)]
pub enum Literal {
    String(Vec<u8>),
    Int(u64),
}

#[derive(Debug, Clone)]
pub enum Identifier {
    Variable(Vec<u8>),
    Register(Vec<u8>),
    DerefRegister(Vec<u8>),
}

#[derive(Debug, Clone)]
pub enum Token {
    Eof,
    Newline,
    Literal(Literal),
    Identifier(Identifier),
    Keyword(Keyword),
    Operator(Operator),
    Separator(Separator),
    /// Raw instruction text, passed to the output as it stands.
    Inline(Vec<u8>),
}

/// The value of a `Literal`.
pub enum LiteralV {
    Str(Seq<u8>),
    Int(u64),
}

/// The value of an `Identifier`.
pub enum IdentifierV {
    Variable(Seq<u8>),
    Register(Seq<u8>),
    DerefRegister(Seq<u8>),
}

/// The value of a `Token`, with byte strings as sequences.
pub enum TokenV {
    Eof,
    Newline,
    Literal(LiteralV),
    Identifier(IdentifierV),
    Keyword(Keyword),
    Operator(Operator),
    Separator(Separator),
    Inline(Seq<u8>),
}

impl View for Literal {
    type V = LiteralV;

    open spec fn view(&self) -> LiteralV {
        match self {
            Literal::String(s) => LiteralV::Str(s@),
            Literal::Int(i) => LiteralV::Int(*i),
        }
    }
}

impl View for Identifier {
    type V = IdentifierV;

    open spec fn view(&self) -> IdentifierV {
        match self {
            Identifier::Variable(v) => IdentifierV::Variable(v@),
            Identifier::Register(v) => IdentifierV::Register(v@),
            Identifier::DerefRegister(v) => IdentifierV::DerefRegister(v@),
        }
    }
}

impl View for Token {
    type V = TokenV;

    open spec fn view(&self) -> TokenV {
        match self {
            Token::Eof => TokenV::Eof,
            Token::Newline => TokenV::Newline,
            Token::Literal(l) => TokenV::Literal(l@),
            Token::Identifier(i) => TokenV::Identifier(i@),
            Token::Keyword(k) => TokenV::Keyword(*k),
            Token::Operator(o) => TokenV::Operator(*o),
            Token::Separator(s) => TokenV::Separator(*s),
            Token::Inline(b) => TokenV::Inline(b@),
        }
    }
}

pub open spec fn tokens_view(v: Seq<Token>) -> Seq<TokenV> {
    v.map_values(|t: Token| t@)
}

impl Literal {
    pub fn copy(&self) -> (r: Literal)
        ensures
            r@ == self@,
    {
        match self {
            Literal::String(s) => Literal::String(s.clone()),
            Literal::Int(i) => Literal::Int(*i),
        }
    }
}

impl Token {
    pub fn copy(&self) -> (r: Token)
        ensures
            r@ == self@,
    {
        match self {
            Token::Eof => Token::Eof,
            Token::Newline => Token::Newline,
            Token::Literal(l) => Token::Literal(l.copy()),
            Token::Identifier(Identifier::Variable(v)) => Token::Identifier(Identifier::Variable(v.clone())),
            Token::Identifier(Identifier::Register(v)) => Token::Identifier(Identifier::Register(v.clone())),
            Token::Identifier(Identifier::DerefRegister(v)) => Token::Identifier(
                Identifier::DerefRegister(v.clone()),
            ),
            Token::Keyword(k) => Token::Keyword(*k),
            Token::Operator(o) => Token::Operator(*o),
            Token::Separator(s) => Token::Separator(*s),
            Token::Inline(b) => Token::Inline(b.clone()),
        }
    }
}

impl PartialEq for Literal {
    fn eq(&self, other: &Literal) -> (r: bool) {
        match (self, other) {
            (Literal::String(a), Literal::String(b)) => bytes_eq(a.as_slice(), b.as_slice()),
            (Literal::Int(a), Literal::Int(b)) => *a == *b,
            _ => false,
        }
    }
}

impl vstd::std_specs::cmp::PartialEqSpecImpl for Literal {
    open spec fn obeys_eq_spec() -> bool {
        true
    }

    open spec fn eq_spec(&self, other: &Literal) -> bool {
        self@ == other@
    }
}

impl PartialEq for Identifier {
    fn eq(&self, other: &Identifier) -> (r: bool) {
        match (self, other) {
            (Identifier::Variable(a), Identifier::Variable(b)) => bytes_eq(a.as_slice(), b.as_slice()),
            (Identifier::Register(a), Identifier::Register(b)) => bytes_eq(a.as_slice(), b.as_slice()),
            (Identifier::DerefRegister(a), Identifier::DerefRegister(b)) => bytes_eq(
                a.as_slice(),
                b.as_slice(),
            ),
            _ => false,
        }
    }
}

impl vstd::std_specs::cmp::PartialEqSpecImpl for Identifier {
    open spec fn obeys_eq_spec() -> bool {
        true
    }

    open spec fn eq_spec(&self, other: &Identifier) -> bool {
        self@ == other@
    }
}

impl PartialEq for Token {
    fn eq(&self, other: &Token) -> (r: bool) {
        match (self, other) {
            (Token::Eof, Token::Eof) => true,
            (Token::Newline, Token::Newline) => true,
            (Token::Literal(a), Token::Literal(b)) => a.eq(b),
            (Token::Identifier(a), Token::Identifier(b)) => a.eq(b),
            (Token::Keyword(a), Token::Keyword(b)) => *a == *b,
            (Token::Operator(a), Token::Operator(b)) => *a == *b,
            (Token::Separator(a), Token::Separator(b)) => *a == *b,
            (Token::Inline(a), Token::Inline(b)) => bytes_eq(a.as_slice(), b.as_slice()),
            _ => false,
        }
    }
}

impl vstd::std_specs::cmp::PartialEqSpecImpl for Token {
    open spec fn obeys_eq_spec() -> bool {
        true
    }

    open spec fn eq_spec(&self, other: &Token) -> bool {
        self@ == other@
    }
}

/// How each keyword is spelled.
pub open spec fn keyword_text(k: Keyword) -> Seq<u8> {
    match k {
        Keyword::Const => seq![0x63u8, 0x6f, 0x6e, 0x73, 0x74],
        Keyword::Let => seq![0x6cu8, 0x65, 0x74],
        Keyword::Function => seq![0x66u8, 0x6e],
        Keyword::External => seq![0x65u8, 0x78, 0x74, 0x65, 0x72, 0x6e],
        Keyword::While => seq![0x77u8, 0x68, 0x69, 0x6c, 0x65],
        Keyword::Call => seq![0x63u8, 0x61, 0x6c, 0x6c],
        Keyword::SizeOf => seq![0x73u8, 0x69, 0x7a, 0x65, 0x6f, 0x66],
    }
}

/// How each operator is spelled.
pub open spec fn operator_text(o: Operator) -> Seq<u8> {
    match o {
        Operator::Assign => seq![0x3du8],
        Operator::Add => seq![0x2bu8],
        Operator::Subtract => seq![0x2du8],
        Operator::Divide => seq![0x2fu8],
        Operator::Multiply => seq![0x2au8],
        Operator::Modulus => seq![0x25u8],
        Operator::Decrement => seq![0x2du8, 0x2d],
        Operator::Increment => seq![0x2bu8, 0x2b],
        Operator::Not => seq![0x21u8],
        Operator::Equal => seq![0x3du8, 0x3d],
        Operator::NotEqual => seq![0x21u8, 0x3d],
    }
}

/// How each separator is spelled.
pub open spec fn separator_byte(s: Separator) -> u8 {
    match s {
        Separator::OpenBracket => 0x5b,
        Separator::CloseBracket => 0x5d,
        Separator::OpenBrace => 0x7b,
        Separator::CloseBrace => 0x7d,
        Separator::Colon => 0x3a,
        Separator::OpenParentheses => 0x28,
        Separator::CloseParentheses => 0x29,
        Separator::Comma => 0x2c,
    }
}

/// The name of the one-byte element type.
pub open spec fn byte_type_text() -> Seq<u8> {
    seq![0x62u8, 0x79, 0x74, 0x65]
}

pub open spec fn keyword_of(w: Seq<u8>) -> Option<Keyword> {
    if exists|k: Keyword| keyword_text(k) == w {
        Some(choose|k: Keyword| keyword_text(k) == w)
    } else {
        None
    }
}

pub open spec fn operator_of(w: Seq<u8>) -> Option<Operator> {
    if exists|o: Operator| operator_text(o) == w {
        Some(choose|o: Operator| operator_text(o) == w)
    } else {
        None
    }
}

pub open spec fn separator_of(c: u8) -> Option<Separator> {
    if exists|s: Separator| separator_byte(s) == c {
        Some(choose|s: Separator| separator_byte(s) == c)
    } else {
        None
    }
}

pub open spec fn type_of(w: Seq<u8>) -> Option<Type> {
    if w == byte_type_text() {
        Some(Type::Uint8)
    } else {
        None
    }
}

pub fn get_kw(s: &Vec<u8>) -> (r: Option<Keyword>)
    ensures
        r == keyword_of(s@),
{
    let r = if bytes_eq(s.as_slice(), &[0x63u8, 0x6f, 0x6e, 0x73, 0x74]) {
        Some(Keyword::Const)
    } else if bytes_eq(s.as_slice(), &[0x6cu8, 0x65, 0x74]) {
        Some(Keyword::Let)
    } else if bytes_eq(s.as_slice(), &[0x66u8, 0x6e]) {
        Some(Keyword::Function)
    } else if bytes_eq(s.as_slice(), &[0x65u8, 0x78, 0x74, 0x65, 0x72, 0x6e]) {
        Some(Keyword::External)
    } else if bytes_eq(s.as_slice(), &[0x77u8, 0x68, 0x69, 0x6c, 0x65]) {
        Some(Keyword::While)
    } else if bytes_eq(s.as_slice(), &[0x63u8, 0x61, 0x6c, 0x6c]) {
        Some(Keyword::Call)
    } else if bytes_eq(s.as_slice(), &[0x73u8, 0x69, 0x7a, 0x65, 0x6f, 0x66]) {
        Some(Keyword::SizeOf)
    } else {
        None
    };
    proof {
        match r {
            Some(k) => {
                assert(keyword_text(k) == s@);
                assert forall|j: Keyword| keyword_text(j) == s@ implies j == k by {
                    assert(keyword_text(j) == keyword_text(k));
                }
            },
            None => {
                assert forall|j: Keyword| keyword_text(j) != s@ by {
                    match j {
                        Keyword::Const => {},
                        Keyword::Let => {},
                        Keyword::Function => {},
                        Keyword::External => {},
                        Keyword::While => {},
                        Keyword::Call => {},
                        Keyword::SizeOf => {},
                    }
                }
            },
        }
    }
    r
}

pub fn get_op(s: &Vec<u8>) -> (r: Option<Operator>)
    ensures
        r == operator_of(s@),
{
    let n = s.len();
    let r = if n == 1 {
        let c = s[0];
        if c == 0x3d {
            Some(Operator::Assign)
        } else if c == 0x2b {
            Some(Operator::Add)
        } else if c == 0x2d {
            Some(Operator::Subtract)
        } else if c == 0x2f {
            Some(Operator::Divide)
        } else if c == 0x2a {
            Some(Operator::Multiply)
        } else if c == 0x25 {
            Some(Operator::Modulus)
        } else if c == 0x21 {
            Some(Operator::Not)
        } else {
            None
        }
    } else if n == 2 {
        let c0 = s[0];
        let c1 = s[1];
        if c0 == 0x2d && c1 == 0x2d {
            Some(Operator::Decrement)
        } else if c0 == 0x2b && c1 == 0x2b {
            Some(Operator::Increment)
        } else if c0 == 0x21 && c1 == 0x3d {
            Some(Operator::NotEqual)
        } else if c0 == 0x3d && c1 == 0x3d {
            Some(Operator::Equal)
        } else {
            None
        }
    } else {
        None
    };
    proof {
        match r {
            Some(o) => {
                assert(operator_text(o) =~= s@);
                assert forall|j: Operator| operator_text(j) == s@ implies j == o by {
                    assert(operator_text(j) == operator_text(o));
                }
            },
            None => {
                assert forall|j: Operator| operator_text(j) != s@ by {
                    if s@.len() == 1 || s@.len() == 2 {
                        assert(operator_text(j)[0] != s@[0] || operator_text(j).len() != s@.len()
                            || operator_text(j)[1] != s@[1]);
                    }
                    match j {
                        Operator::Assign => {},
                        Operator::Add => {},
                        Operator::Subtract => {},
                        Operator::Divide => {},
                        Operator::Multiply => {},
                        Operator::Modulus => {},
                        Operator::Decrement => {},
                        Operator::Increment => {},
                        Operator::Not => {},
                        Operator::Equal => {},
                        Operator::NotEqual => {},
                    }
                }
            },
        }
    }
    r
}

pub fn get_sep(c: u8) -> (r: Option<Separator>)
    ensures
        r == separator_of(c),
{
    let r = if c == 0x5b {
        Some(Separator::OpenBracket)
    } else if c == 0x5d {
        Some(Separator::CloseBracket)
    } else if c == 0x7b {
        Some(Separator::OpenBrace)
    } else if c == 0x7d {
        Some(Separator::CloseBrace)
    } else if c == 0x3a {
        Some(Separator::Colon)
    } else if c == 0x28 {
        Some(Separator::OpenParentheses)
    } else if c == 0x29 {
        Some(Separator::CloseParentheses)
    } else if c == 0x2c {
        Some(Separator::Comma)
    } else {
        None
    };
    proof {
        match r {
            Some(sp) => {
                assert(separator_byte(sp) == c);
                assert forall|j: Separator| separator_byte(j) == c implies j == sp by {
                    assert(separator_byte(j) == separator_byte(sp));
                }
            },
            None => {
                assert forall|j: Separator| separator_byte(j) != c by {
                    match j {
                        Separator::OpenBracket => {},
                        Separator::CloseBracket => {},
                        Separator::OpenBrace => {},
                        Separator::CloseBrace => {},
                        Separator::Colon => {},
                        Separator::OpenParentheses => {},
                        Separator::CloseParentheses => {},
                        Separator::Comma => {},
                    }
                }
            },
        }
    }
    r
}

pub fn get_type(t: &Vec<u8>) -> (r: Option<Type>)
    ensures
        r == type_of(t@),
{
    if bytes_eq(t.as_slice(), &[0x62u8, 0x79, 0x74, 0x65]) {
        Some(Type::Uint8)
    } else {
        None
    }
}

/// Why lexing stopped before the end of the input.
#[derive(Debug, Clone, Copy, PartialEq, Eq, Structural)]
pub enum LexFaultKind {
    UnknownCharacter,
    UnknownOperator,
    IntegerOverflow,
    UnterminatedString,
    UnterminatedComment,
}

/// What lexing yields: the tokens, which always end with the one end-of-input
/// token, and the kind and position of the fault that stopped it early, if any.
pub struct Lexed {
    pub tokens: Seq<TokenV>,
    pub fault: Option<(LexFaultKind, nat)>,
}

pub open spec fn lexed_end() -> Lexed {
    Lexed { tokens: seq![TokenV::Eof], fault: None }
}

pub open spec fn lexed_fault(kind: LexFaultKind, at: nat) -> Lexed {
    Lexed { tokens: seq![TokenV::Eof], fault: Some((kind, at)) }
}

pub open spec fn lexed_cons(t: TokenV, rest: Lexed) -> Lexed {
    Lexed { tokens: seq![t] + rest.tokens, fault: rest.fault }
}

/// The token that a word of letters and `_` makes.
pub open spec fn word_token(w: Seq<u8>) -> TokenV {
    match keyword_of(w) {
        Some(k) => TokenV::Keyword(k),
        None => TokenV::Identifier(IdentifierV::Variable(w)),
    }
}

/// Lexes `s` from position `i` on.
#[verifier::opaque]
pub open spec fn lex_from(s: Seq<u8>, i: nat) -> Lexed
    decreases s.len() - i,
{
    if i >= s.len() {
        lexed_end()
    } else {
        let c = s[i as int];
        if spec_is_ws(c) {
            lex_from(s, i + 1)
        } else if c == NEWLINE {
            lexed_cons(TokenV::Newline, lex_from(s, i + 1))
        } else if c == SEMICOLON {
            let e = find_byte(s, i + 1, NEWLINE);
            proof {
                lemma_find_byte_bounds(s, i + 1, NEWLINE);
            }
            if e >= s.len() {
                lexed_fault(LexFaultKind::UnterminatedComment, e)
            } else {
                lexed_cons(TokenV::Newline, lex_from(s, e + 1))
            }
        } else if spec_is_quote(c) {
            let e = run_end(CharClass::StringBody, s, i + 1);
            proof {
                lemma_run_end_bounds(CharClass::StringBody, s, i + 1);
            }
            if e >= s.len() {
                lexed_fault(LexFaultKind::UnterminatedString, e)
            } else {
                lexed_cons(
                    TokenV::Literal(LiteralV::Str(s.subrange(i + 1int, e as int))),
                    lex_from(s, e + 1),
                )
            }
        } else if spec_is_int(c) {
            let e = run_end(CharClass::Digit, s, i + 1);
            proof {
                lemma_run_end_bounds(CharClass::Digit, s, i + 1);
            }
            let v = dec_value(s.subrange(i as int, e as int));
            if v > u64::MAX {
                lexed_fault(LexFaultKind::IntegerOverflow, e)
            } else {
                lexed_cons(TokenV::Literal(LiteralV::Int(v as u64)), lex_from(s, e))
            }
        } else if spec_is_kw_or_var(c) {
            let e = run_end(CharClass::Word, s, i + 1);
            proof {
                lemma_run_end_bounds(CharClass::Word, s, i + 1);
            }
            lexed_cons(word_token(s.subrange(i as int, e as int)), lex_from(s, e))
        } else if spec_is_op(c) {
            let e = run_end(CharClass::OperatorChar, s, i + 1);
            proof {
                lemma_run_end_bounds(CharClass::OperatorChar, s, i + 1);
            }
            match operator_of(s.subrange(i as int, e as int)) {
                Some(o) => lexed_cons(TokenV::Operator(o), lex_from(s, e)),
                None => lexed_fault(LexFaultKind::UnknownOperator, e),
            }
        } else if c == DOLLAR {
            if i + 1 < s.len() && s[i + 1int] == STAR {
                let e = run_end(CharClass::RegisterName, s, i + 2);
                proof {
                    lemma_run_end_bounds(CharClass::RegisterName, s, i + 2);
                }
                lexed_cons(
                    TokenV::Identifier(IdentifierV::DerefRegister(s.subrange(i + 2int, e as int))),
                    lex_from(s, e),
                )
            } else {
                let e = run_end(CharClass::RegisterName, s, i + 1);
                proof {
                    lemma_run_end_bounds(CharClass::RegisterName, s, i + 1);
                }
                lexed_cons(
                    TokenV::Identifier(IdentifierV::Register(s.subrange(i + 1int, e as int))),
                    lex_from(s, e),
                )
            }
        } else {
            match separator_of(c) {
                Some(sp) => lexed_cons(TokenV::Separator(sp), lex_from(s, i + 1)),
                None => lexed_fault(LexFaultKind::UnknownCharacter, i),
            }
        }
    }
}

/// Where the token that starts at `p`, a byte that is no space or tab, ends:
/// just past its run of bytes, past the closing quote of a string, or past
/// the line break that ends a comment.
pub open spec fn token_end(s: Seq<u8>, p: nat) -> nat {
    if p >= s.len() {
        p
    } else {
        let c = s[p as int];
        if c == NEWLINE {
            p + 1
        } else if c == SEMICOLON {
            find_byte(s, p + 1, NEWLINE) + 1
        } else if spec_is_quote(c) {
            run_end(CharClass::StringBody, s, p + 1) + 1
        } else if spec_is_int(c) {
            run_end(CharClass::Digit, s, p + 1)
        } else if spec_is_kw_or_var(c) {
            run_end(CharClass::Word, s, p + 1)
        } else if spec_is_op(c) {
            run_end(CharClass::OperatorChar, s, p + 1)
        } else if c == DOLLAR {
            if p + 1 < s.len() && s[p + 1int] == STAR {
                run_end(CharClass::RegisterName, s, p + 2)
            } else {
                run_end(CharClass::RegisterName, s, p + 1)
            }
        } else {
            p + 1
        }
    }
}

/// Lexes the whole input.
pub open spec fn lex(s: Seq<u8>) -> Lexed {
    lex_from(s, 0)
}

/// Skipping spaces and tabs changes nothing that follows.
pub proof fn lemma_skip_whitespace(s: Seq<u8>, p: nat)
    requires
        p <= s.len(),
    ensures
        lex_from(s, p) == lex_from(s, run_end(CharClass::Whitespace, s, p)),
    decreases s.len() - p,
{
    reveal_with_fuel(lex_from, 1);
    if p < s.len() && accepts(CharClass::Whitespace, s, p as int) {
        lemma_skip_whitespace(s, p + 1);
    }
}

pub proof fn lemma_lex_end(s: Seq<u8>, i: nat)
    requires
        i >= s.len(),
    ensures
        lex_from(s, i) == lexed_end(),
{
    reveal_with_fuel(lex_from, 1);
}

pub proof fn lemma_lex_newline(s: Seq<u8>, i: nat)
    requires
        i < s.len(),
        s[i as int] == NEWLINE,
    ensures
        lex_from(s, i) == lexed_cons(TokenV::Newline, lex_from(s, i + 1)),
{
    reveal_with_fuel(lex_from, 1);
}

pub proof fn lemma_lex_comment(s: Seq<u8>, i: nat)
    requires
        i < s.len(),
        s[i as int] == SEMICOLON,
    ensures
        ({
            let e = find_byte(s, i + 1, NEWLINE);
            lex_from(s, i) == if e >= s.len() {
                lexed_fault(LexFaultKind::UnterminatedComment, e)
            } else {
                lexed_cons(TokenV::Newline, lex_from(s, e + 1))
            }
        }),
{
    reveal_with_fuel(lex_from, 1);
}

pub proof fn lemma_lex_string(s: Seq<u8>, i: nat)
    requires
        i < s.len(),
        spec_is_quote(s[i as int]),
    ensures
        ({
            let e = run_end(CharClass::StringBody, s, i + 1);
            lex_from(s, i) == if e >= s.len() {
                lexed_fault(LexFaultKind::UnterminatedString, e)
            } else {
                lexed_cons(
                    TokenV::Literal(LiteralV::Str(s.subrange(i + 1int, e as int))),
                    lex_from(s, e + 1),
                )
            }
        }),
{
    reveal_with_fuel(lex_from, 1);
}

pub proof fn lemma_lex_number(s: Seq<u8>, i: nat)
    requires
        i < s.len(),
        spec_is_int(s[i as int]),
    ensures
        ({
            let e = run_end(CharClass::Digit, s, i + 1);
            let v = dec_value(s.subrange(i as int, e as int));
            lex_from(s, i) == if v > u64::MAX {
                lexed_fault(LexFaultKind::IntegerOverflow, e)
            } else {
                lexed_cons(TokenV::Literal(LiteralV::Int(v as u64)), lex_from(s, e))
            }
        }),
{
    reveal_with_fuel(lex_from, 1);
}

pub proof fn lemma_lex_word(s: Seq<u8>, i: nat)
    requires
        i < s.len(),
        spec_is_kw_or_var(s[i as int]),
    ensures
        ({
            let e = run_end(CharClass::Word, s, i + 1);
            lex_from(s, i) == lexed_cons(word_token(s.subrange(i as int, e as int)), lex_from(s, e))
        }),
{
    reveal_with_fuel(lex_from, 1);
}

pub proof fn lemma_lex_operator(s: Seq<u8>, i: nat)
    requires
        i < s.len(),
        spec_is_op(s[i as int]),
    ensures
        ({
            let e = run_end(CharClass::OperatorChar, s, i + 1);
            lex_from(s, i) == match operator_of(s.subrange(i as int, e as int)) {
                Some(o) => lexed_cons(TokenV::Operator(o), lex_from(s, e)),
                None => lexed_fault(LexFaultKind::UnknownOperator, e),
            }
        }),
{
    reveal_with_fuel(lex_from, 1);
}

pub proof fn lemma_lex_register(s: Seq<u8>, i: nat)
    requires
        i < s.len(),
        s[i as int] == DOLLAR,
    ensures
        i + 1 < s.len() && s[i + 1int] == STAR ==> ({
            let e = run_end(CharClass::RegisterName, s, i + 2);
            lex_from(s, i) == lexed_cons(
                TokenV::Identifier(IdentifierV::DerefRegister(s.subrange(i + 2int, e as int))),
                lex_from(s, e),
            )
        }),
        !(i + 1 < s.len() && s[i + 1int] == STAR) ==> ({
            let e = run_end(CharClass::RegisterName, s, i + 1);
            lex_from(s, i) == lexed_cons(
                TokenV::Identifier(IdentifierV::Register(s.subrange(i + 1int, e as int))),
                lex_from(s, e),
            )
        }),
{
    reveal_with_fuel(lex_from, 1);
}

pub proof fn lemma_lex_separator(s: Seq<u8>, i: nat)
    requires
        i < s.len(),
        !spec_is_ws(s[i as int]),
        s[i as int] != NEWLINE,
        s[i as int] != SEMICOLON,
        !spec_is_quote(s[i as int]),
        !spec_is_int(s[i as int]),
        !spec_is_kw_or_var(s[i as int]),
        !spec_is_op(s[i as int]),
        s[i as int] != DOLLAR,
    ensures
        lex_from(s, i) == match separator_of(s[i as int]) {
            Some(sp) => lexed_cons(TokenV::Separator(sp), lex_from(s, i + 1)),
            None => lexed_fault(LexFaultKind::UnknownCharacter, i),
        },
{
    reveal_with_fuel(lex_from, 1);
}

/// Lexing always ends with the end-of-input token, and with only one.
pub proof fn lemma_lex_ends_once(s: Seq<u8>, i: nat)
    ensures
        lex_from(s, i).tokens.len() >= 1,
        lex_from(s, i).tokens.last() is Eof,
        forall|k: int|
            0 <= k < lex_from(s, i).tokens.len() - 1 ==> !(#[trigger] lex_from(s, i).tokens[k] is Eof),
    decreases s.len() - i,
{
    reveal_with_fuel(lex_from, 1);
    if i < s.len() {
        let c = s[i as int];
        lemma_lex_ends_once(s, i + 1);
        if c == SEMICOLON {
            lemma_find_byte_bounds(s, i + 1, NEWLINE);
            let e = find_byte(s, i + 1, NEWLINE);
            if e < s.len() {
                lemma_lex_ends_once(s, e + 1);
            }
        } else if spec_is_quote(c) {
            lemma_run_end_bounds(CharClass::StringBody, s, i + 1);
            let e = run_end(CharClass::StringBody, s, i + 1);
            if e < s.len() {
                lemma_lex_ends_once(s, e + 1);
            }
        } else if spec_is_int(c) {
            lemma_run_end_bounds(CharClass::Digit, s, i + 1);
            lemma_lex_ends_once(s, run_end(CharClass::Digit, s, i + 1));
        } else if spec_is_kw_or_var(c) {
            lemma_run_end_bounds(CharClass::Word, s, i + 1);
            lemma_lex_ends_once(s, run_end(CharClass::Word, s, i + 1));
        } else if spec_is_op(c) {
            lemma_run_end_bounds(CharClass::OperatorChar, s, i + 1);
            lemma_lex_ends_once(s, run_end(CharClass::OperatorChar, s, i + 1));
        } else if c == DOLLAR {
            lemma_run_end_bounds(CharClass::RegisterName, s, i + 1);
            lemma_lex_ends_once(s, run_end(CharClass::RegisterName, s, i + 1));
            if i + 1 < s.len() {
                lemma_run_end_bounds(CharClass::RegisterName, s, i + 2);
                lemma_lex_ends_once(s, run_end(CharClass::RegisterName, s, i + 2));
            }
        }
        let r = lex_from(s, i);
        if r.tokens.len() > 1 {
            assert(r.tokens == seq![r.tokens[0]] + r.tokens.drop_first());
            assert forall|k: int| 0 <= k < r.tokens.len() - 1 implies !(#[trigger] r.tokens[k] is Eof) by {
                if k > 0 {
                    assert(r.tokens[k] == r.tokens.drop_first()[k - 1]);
                }
            }
        }
    }
}

/// A space or a tab makes no token.
pub proof fn lemma_whitespace_makes_no_token(s: Seq<u8>, i: nat)
    requires
        i < s.len(),
        spec_is_ws(s[i as int]),
    ensures
        lex_from(s, i) == lex_from(s, i + 1),
{
    reveal_with_fuel(lex_from, 1);
}

/// A run of spaces and tabs makes no token.
pub proof fn lemma_blank_run_makes_no_token(s: Seq<u8>, i: nat, j: nat)
    requires
        i <= j <= s.len(),
        forall|k: int| i <= k < j ==> spec_is_ws(#[trigger] s[k]),
    ensures
        lex_from(s, i) == lex_from(s, j),
    decreases j - i,
{
    if i < j {
        lemma_whitespace_makes_no_token(s, i);
        lemma_blank_run_makes_no_token(s, i + 1, j);
    }
}

proof fn lemma_find_byte_at(s: Seq<u8>, a: nat, j: nat, c: u8)
    requires
        a <= j < s.len(),
        s[j as int] == c,
        forall|k: int| a <= k < j ==> #[trigger] s[k] != c,
    ensures
        find_byte(s, a, c) == j,
    decreases j - a,
{
    if a < j {
        lemma_find_byte_at(s, a + 1, j, c);
    }
}

/// A comment makes no token: lexing from `;` is lexing from the line break
/// that ends the comment, which makes its one line-break token.
pub proof fn lemma_comment_makes_no_token(s: Seq<u8>, i: nat, j: nat)
    requires
        i < j < s.len(),
        s[i as int] == SEMICOLON,
        s[j as int] == NEWLINE,
        forall|k: int| i < k < j ==> #[trigger] s[k] != NEWLINE,
    ensures
        lex_from(s, i) == lex_from(s, j),
{
    lemma_find_byte_at(s, i + 1, j, NEWLINE);
    lemma_lex_comment(s, i);
    lemma_lex_newline(s, j);
}

/// A line break makes exactly one line-break token, whatever spaces and tabs
/// stand around it.
pub proof fn lemma_line_break_makes_one_token(s: Seq<u8>, i: nat, j: nat, k: nat)
    requires
        i <= j < k <= s.len(),
        s[j as int] == NEWLINE,
        forall|m: int| i <= m < j ==> spec_is_ws(#[trigger] s[m]),
        forall|m: int| j < m < k ==> spec_is_ws(#[trigger] s[m]),
    ensures
        lex_from(s, i).tokens == seq![TokenV::Newline] + lex_from(s, k).tokens,
{
    lemma_blank_run_makes_no_token(s, i, j);
    lemma_lex_newline(s, j);
    lemma_blank_run_makes_no_token(s, j + 1, k);
}

/// The number of line-break tokens in `ts`.
pub open spec fn line_break_tokens(ts: Seq<TokenV>) -> nat
    decreases ts.len(),
{
    if ts.len() == 0 {
        0
    } else {
        (if ts[0] is Newline {
            1nat
        } else {
            0nat
        }) + line_break_tokens(ts.drop_first())
    }
}

/// The number of line breaks among the bytes of `s` from `i` on.
pub open spec fn line_breaks_from(s: Seq<u8>, i: nat) -> nat
    decreases s.len() - i,
{
    if i >= s.len() {
        0
    } else {
        (if s[i as int] == NEWLINE {
            1nat
        } else {
            0nat
        }) + line_breaks_from(s, i + 1)
    }
}

proof fn lemma_no_line_breaks(s: Seq<u8>, a: nat, b: nat)
    requires
        a <= b <= s.len(),
        forall|k: int| a <= k < b ==> #[trigger] s[k] != NEWLINE,
    ensures
        line_breaks_from(s, a) == line_breaks_from(s, b),
    decreases b - a,
{
    if a < b {
        lemma_no_line_breaks(s, a + 1, b);
    }
}

proof fn lemma_line_break_tokens_cons(t: TokenV, rest: Seq<TokenV>)
    ensures
        line_break_tokens(seq![t] + rest) == (if t is Newline {
            1nat
        } else {
            0nat
        }) + line_break_tokens(rest),
{
    assert((seq![t] + rest).drop_first() =~= rest);
}

proof fn lemma_find_byte_skips(s: Seq<u8>, a: nat, c: u8, k: int)
    requires
        a <= k < find_byte(s, a, c),
    ensures
        s[k] != c,
    decreases s.len() - a,
{
    if a < s.len() && s[a as int] != c && k > a {
        lemma_find_byte_skips(s, a + 1, c, k);
    }
}

/// A run of `class` that starts at `a` holds no line break.
proof fn lemma_run_has_no_line_break(class: CharClass, s: Seq<u8>, a: nat)
    requires
        a <= s.len(),
        class != CharClass::StringBody,
        class != CharClass::Whitespace,
    ensures
        forall|k: int| a <= k < run_end(class, s, a) ==> #[trigger] s[k] != NEWLINE,
{
    assert forall|k: int| a <= k < run_end(class, s, a) implies #[trigger] s[k] != NEWLINE by {
        lemma_run_end_accepts(class, s, a, k);
    }
}

/// Without string literals, and where lexing meets no fault, every line break
/// of the input makes exactly one line-break token and nothing else makes
/// one: the two counts agree, whatever spaces, tabs and comments stand around.
pub proof fn lemma_line_break_count(s: Seq<u8>, i: nat)
    requires
        forall|k: int| i <= k < s.len() ==> !spec_is_quote(#[trigger] s[k]),
        lex_from(s, i).fault is None,
    ensures
        line_break_tokens(lex_from(s, i).tokens) == line_breaks_from(s, i),
    decreases s.len() - i,
{
    reveal_with_fuel(lex_from, 1);
    if i >= s.len() {
        assert(line_break_tokens(seq![TokenV::Eof]) == 0) by {
            lemma_line_break_tokens_cons(TokenV::Eof, Seq::empty());
        }
        return;
    }
    let c = s[i as int];
    if spec_is_ws(c) {
        lemma_line_break_count(s, i + 1);
    } else if c == NEWLINE {
        lemma_line_break_count(s, i + 1);
        lemma_line_break_tokens_cons(TokenV::Newline, lex_from(s, i + 1).tokens);
    } else if c == SEMICOLON {
        lemma_find_byte_bounds(s, i + 1, NEWLINE);
        let e = find_byte(s, i + 1, NEWLINE);
        assert forall|k: int| i <= k < e implies #[trigger] s[k] != NEWLINE by {
            if k > i {
                lemma_find_byte_skips(s, i + 1, NEWLINE, k);
            }
        }
        lemma_no_line_breaks(s, i, e);
        lemma_line_break_count(s, e + 1);
        lemma_line_break_tokens_cons(TokenV::Newline, lex_from(s, e + 1).tokens);
    } else {
        let e: nat = if spec_is_int(c) {
            run_end(CharClass::Digit, s, i + 1)
        } else if spec_is_kw_or_var(c) {
            run_end(CharClass::Word, s, i + 1)
        } else if spec_is_op(c) {
            run_end(CharClass::OperatorChar, s, i + 1)
        } else if c == DOLLAR {
            if i + 1 < s.len() && s[i + 1int] == STAR {
                run_end(CharClass::RegisterName, s, i + 2)
            } else {
                run_end(CharClass::RegisterName, s, i + 1)
            }
        } else {
            i + 1
        };
        lemma_run_end_bounds(CharClass::Digit, s, i + 1);
        lemma_run_end_bounds(CharClass::Word, s, i + 1);
        lemma_run_end_bounds(CharClass::OperatorChar, s, i + 1);
        lemma_run_end_bounds(CharClass::RegisterName, s, i + 1);
        lemma_run_has_no_line_break(CharClass::Digit, s, i + 1);
        lemma_run_has_no_line_break(CharClass::Word, s, i + 1);
        lemma_run_has_no_line_break(CharClass::OperatorChar, s, i + 1);
        lemma_run_has_no_line_break(CharClass::RegisterName, s, i + 1);
        if i + 2 <= s.len() {
            lemma_run_end_bounds(CharClass::RegisterName, s, i + 2);
            lemma_run_has_no_line_break(CharClass::RegisterName, s, i + 2);
        }
        assert forall|k: int| i <= k < e implies #[trigger] s[k] != NEWLINE by {}
        lemma_no_line_breaks(s, i, e);
        lemma_line_break_count(s, e);
        let r = lex_from(s, i);
        lemma_line_break_tokens_cons(r.tokens[0], lex_from(s, e).tokens);
        assert(r.tokens == seq![r.tokens[0]] + lex_from(s, e).tokens);
    }
}

proof fn lemma_equal_suffix_part(s: Seq<u8>, t: Seq<u8>, i: nat, j: nat, a: int, b: int)
    requires
        i <= s.len(),
        j <= t.len(),
        s.subrange(i as int, s.len() as int) == t.subrange(j as int, t.len() as int),
        i <= a <= b <= s.len(),
    ensures
        s.subrange(a, b) == t.subrange(a - i + j, b - i + j),
        s.len() - i == t.len() - j,
{
    let x = s.subrange(i as int, s.len() as int);
    let y = t.subrange(j as int, t.len() as int);
    assert(x.len() == s.len() - i && y.len() == t.len() - j);
    assert forall|k: int| 0 <= k < b - a implies s.subrange(a, b)[k] == t.subrange(a - i + j, b - i + j)[k] by {
        assert(s[a + k] == x[a + k - i]);
        assert(t[a - i + j + k] == y[a + k - i]);
    }
    assert(s.subrange(a, b) =~= t.subrange(a - i + j, b - i + j));
}

/// Lexing from a position depends on what follows it alone.
pub proof fn lemma_lex_depends_on_suffix(s: Seq<u8>, t: Seq<u8>, i: nat, j: nat)
    requires
        i <= s.len(),
        j <= t.len(),
        s.subrange(i as int, s.len() as int) == t.subrange(j as int, t.len() as int),
    ensures
        lex_from(s, i).tokens == lex_from(t, j).tokens,
    decreases s.len() - i,
{
    reveal_with_fuel(lex_from, 1);
    lemma_equal_suffix_part(s, t, i, j, i as int, s.len() as int);
    if i >= s.len() {
        return;
    }
    lemma_equal_suffix_part(s, t, i, j, i as int, i + 1int);
    assert(s[i as int] == s.subrange(i as int, i + 1int)[0]);
    assert(t[j as int] == t.subrange(j as int, j + 1int)[0]);
    let c = s[i as int];
    let d = j - i;
    if spec_is_ws(c) || c == NEWLINE {
        lemma_equal_suffix_part(s, t, i, j, i + 1int, s.len() as int);
        lemma_lex_depends_on_suffix(s, t, i + 1, j + 1);
    } else if c == SEMICOLON {
        lemma_find_byte_bounds(s, i + 1, NEWLINE);
        lemma_find_byte_shift(s, t, i, j, i + 1, NEWLINE);
        let e = find_byte(s, i + 1, NEWLINE);
        if e < s.len() {
            lemma_equal_suffix_part(s, t, i, j, e + 1int, s.len() as int);
            lemma_lex_depends_on_suffix(s, t, e + 1, (e + 1 + d) as nat);
        }
    } else if spec_is_quote(c) {
        lemma_run_end_bounds(CharClass::StringBody, s, i + 1);
        lemma_run_end_shift(CharClass::StringBody, s, t, i, j, i + 1);
        let e = run_end(CharClass::StringBody, s, i + 1);
        if e < s.len() {
            lemma_equal_suffix_part(s, t, i, j, i + 1int, e as int);
            lemma_equal_suffix_part(s, t, i, j, e + 1int, s.len() as int);
            lemma_lex_depends_on_suffix(s, t, e + 1, (e + 1 + d) as nat);
        }
    } else if spec_is_int(c) || spec_is_kw_or_var(c) || spec_is_op(c) {
        let class = if spec_is_int(c) {
            CharClass::Digit
        } else if spec_is_kw_or_var(c) {
            CharClass::Word
        } else {
            CharClass::OperatorChar
        };
        lemma_run_end_bounds(class, s, i + 1);
        lemma_run_end_shift(class, s, t, i, j, i + 1);
        let e = run_end(class, s, i + 1);
        lemma_equal_suffix_part(s, t, i, j, i as int, e as int);
        lemma_equal_suffix_part(s, t, i, j, e as int, s.len() as int);
        lemma_lex_depends_on_suffix(s, t, e, (e + d) as nat);
    } else if c == DOLLAR {
        if i + 1 < s.len() {
            lemma_equal_suffix_part(s, t, i, j, i + 1int, i + 2int);
            assert(s[i + 1int] == s.subrange(i + 1int, i + 2int)[0]);
            assert(t[j + 1int] == t.subrange(j + 1int, j + 2int)[0]);
        }
        let k: nat = if i + 1 < s.len() && s[i + 1int] == STAR {
            i + 2
        } else {
            i + 1
        };
        lemma_run_end_bounds(CharClass::RegisterName, s, k);
        lemma_run_end_shift(CharClass::RegisterName, s, t, i, j, k);
        let e = run_end(CharClass::RegisterName, s, k);
        lemma_equal_suffix_part(s, t, i, j, k as int, e as int);
        lemma_equal_suffix_part(s, t, i, j, e as int, s.len() as int);
        lemma_lex_depends_on_suffix(s, t, e, (e + d) as nat);
    } else {
        lemma_equal_suffix_part(s, t, i, j, i + 1int, s.len() as int);
        lemma_lex_depends_on_suffix(s, t, i + 1, j + 1);
    }
}

proof fn lemma_cons_drop_last(t: TokenV, x: Seq<TokenV>, y: Seq<TokenV>)
    requires
        x.len() >= 1,
    ensures
        (seq![t] + x).drop_last() + y == seq![t] + (x.drop_last() + y),
{
    assert((seq![t] + x).drop_last() + y =~= seq![t] + (x.drop_last() + y));
}

/// Lexing an input that starts with `u` and goes on with a space or a tab
/// gives the tokens of `u` alone, then those lexed from the end of `u`, when
/// `u` lexes without a fault: no token of `u` runs into what follows.
pub proof fn lemma_lex_prefix(s: Seq<u8>, u: Seq<u8>, i: nat)
    requires
        u.len() < s.len(),
        forall|x: int| 0 <= x < u.len() ==> #[trigger] s[x] == u[x],
        spec_is_ws(s[u.len() as int]),
        i <= u.len(),
        lex_from(u, i).fault is None,
    ensures
        lex_from(s, i).tokens == lex_from(u, i).tokens.drop_last() + lex_from(s, u.len()).tokens,
    decreases u.len() - i,
{
    reveal_with_fuel(lex_from, 1);
    let n = u.len();
    if i >= n {
        assert(lex_from(u, i).tokens.drop_last() + lex_from(s, n).tokens =~= lex_from(s, n).tokens);
        return;
    }
    let c = u[i as int];
    assert(s[i as int] == c);
    let e: nat = if spec_is_ws(c) || c == NEWLINE {
        i + 1
    } else if c == SEMICOLON {
        find_byte(u, i + 1, NEWLINE) + 1
    } else if spec_is_quote(c) {
        run_end(CharClass::StringBody, u, i + 1) + 1
    } else if spec_is_int(c) {
        run_end(CharClass::Digit, u, i + 1)
    } else if spec_is_kw_or_var(c) {
        run_end(CharClass::Word, u, i + 1)
    } else if spec_is_op(c) {
        run_end(CharClass::OperatorChar, u, i + 1)
    } else if c == DOLLAR {
        if i + 1 < n && u[i + 1int] == STAR {
            run_end(CharClass::RegisterName, u, i + 2)
        } else {
            run_end(CharClass::RegisterName, u, i + 1)
        }
    } else {
        i + 1
    };
    if c == SEMICOLON {
        lemma_find_byte_bounds(u, i + 1, NEWLINE);
        lemma_find_byte_prefix(s, u, i + 1, NEWLINE);
    } else if spec_is_quote(c) {
        lemma_run_end_bounds(CharClass::StringBody, u, i + 1);
        lemma_run_end_prefix(CharClass::StringBody, s, u, i + 1);
    } else if spec_is_int(c) || spec_is_kw_or_var(c) || spec_is_op(c) {
        let class = if spec_is_int(c) {
            CharClass::Digit
        } else if spec_is_kw_or_var(c) {
            CharClass::Word
        } else {
            CharClass::OperatorChar
        };
        lemma_run_end_bounds(class, u, i + 1);
        lemma_run_end_prefix(class, s, u, i + 1);
    } else if c == DOLLAR {
        if i + 1 < n {
            assert(s[i + 1int] == u[i + 1int]);
            lemma_run_end_bounds(CharClass::RegisterName, u, i + 2);
            lemma_run_end_prefix(CharClass::RegisterName, s, u, i + 2);
        } else {
            assert(s[i + 1int] != STAR);
        }
        lemma_run_end_bounds(CharClass::RegisterName, u, i + 1);
        lemma_run_end_prefix(CharClass::RegisterName, s, u, i + 1);
    }
    if e <= n && lex_from(u, e).fault is None {
        lemma_lex_prefix(s, u, e);
        lemma_lex_ends_once(u, e);
        assert(s.subrange(i as int, e as int) =~= u.subrange(i as int, e as int));
        if e >= 1 && i + 1 <= e - 1 {
            assert(s.subrange(i + 1int, e - 1) =~= u.subrange(i + 1int, e - 1));
        }
        if i + 2 <= e {
            assert(s.subrange(i + 2int, e as int) =~= u.subrange(i + 2int, e as int));
        }
        if i + 1 <= e {
            assert(s.subrange(i + 1int, e as int) =~= u.subrange(i + 1int, e as int));
        }
        let r = lex_from(u, i).tokens;
        if r.len() > lex_from(u, e).tokens.len() {
            lemma_cons_drop_last(r[0], lex_from(u, e).tokens, lex_from(s, n).tokens);
        }
    }
}

/// An extra space or tab inside a run of blanks changes no token: where `u`
/// lexes without a fault and a nonempty run `w` of blanks follows it, `u w v`
/// and `u w b v` lex to the same tokens for any blank `b` and any `v`.
pub proof fn lemma_extra_blank_changes_no_token(u: Seq<u8>, w: Seq<u8>, b: u8, v: Seq<u8>)
    requires
        lex(u).fault is None,
        w.len() >= 1,
        forall|k: int| 0 <= k < w.len() ==> spec_is_ws(#[trigger] w[k]),
        spec_is_ws(b),
    ensures
        lex(u + w + v).tokens == lex(u + w + seq![b] + v).tokens,
{
    let s1 = u + w + v;
    let s2 = u + w + seq![b] + v;
    let n = u.len();
    assert(s1[n as int] == w[0]);
    assert(s2[n as int] == w[0]);
    lemma_lex_prefix(s1, u, 0);
    lemma_lex_prefix(s2, u, 0);
    lemma_blank_run_makes_no_token(s1, n, n + w.len());
    assert forall|k: int| n <= k < n + w.len() + 1 implies spec_is_ws(#[trigger] s2[k]) by {
        if k < n + w.len() {
            assert(s2[k] == w[k - n]);
        }
    }
    lemma_blank_run_makes_no_token(s2, n, n + w.len() + 1);
    assert(s1.subrange((n + w.len()) as int, s1.len() as int) =~= v);
    assert(s2.subrange((n + w.len() + 1) as int, s2.len() as int) =~= v);
    lemma_lex_depends_on_suffix(s1, s2, n + w.len(), n + w.len() + 1);
}

/// Where and why lexing stopped, with what a diagnostic needs: the row, the
/// column and the text of the report.
#[derive(Debug)]
pub struct LexFault {
    pub kind: LexFaultKind,
    pub offset: usize,
    pub row: usize,
    pub col: usize,
    pub report: Vec<u8>,
}

/// The fault `f` is the one that `g` describes, reported against `s` under `label`.
pub open spec fn fault_agrees(
    f: Option<LexFault>,
    g: Option<(LexFaultKind, nat)>,
    s: Seq<u8>,
    label: Seq<u8>,
) -> bool {
    match (f, g) {
        (None, None) => true,
        (Some(f), Some((kind, at))) => {
            let start = line_start(s, at);
            &&& f.kind == kind
            &&& f.offset == at
            &&& f.row == rows_before(s, at)
            &&& f.col == at - start
            &&& f.report@ == diagnostic(
                label,
                f.row as nat,
                s.subrange(start as int, find_byte(s, start, NEWLINE) as int),
                f.col as nat,
            )
        },
        _ => false,
    }
}

/// The tokens read from a stream, and the fault that stopped reading, if any.
pub struct Tokenizer<'a> {
    pub istream: IStream<'a>,
    pub tokens: Vec<Token>,
    pub fault: Option<LexFault>,
}

impl<'a> Tokenizer<'a> {
    /// Lexes what is left of `istream`.
    pub fn new(istream: IStream<'a>) -> (r: Tokenizer<'a>)
        requires
            istream.wf(),
        ensures
            tokens_view(r.tokens@) == lex_from(istream.bytes(), istream.pos()).tokens,
            fault_agrees(
                r.fault,
                lex_from(istream.bytes(), istream.pos()).fault,
                istream.bytes(),
                istream.label(),
            ),
    {
        let mut tokenizer = Tokenizer { istream, tokens: Vec::new(), fault: None };
        tokenizer.find_tokens();
        tokenizer
    }

    pub fn get_tokens(&self) -> (r: &Vec<Token>)
        ensures
            r == &self.tokens,
    {
        &self.tokens
    }

    fn record_fault(&mut self, kind: LexFaultKind)
        requires
            old(self).istream.wf(),
        ensures
            final(self).istream == old(self).istream,
            final(self).tokens == old(self).tokens,
            fault_agrees(
                final(self).fault,
                Some((kind, old(self).istream.pos())),
                old(self).istream.bytes(),
                old(self).istream.label(),
            ),
    {
        let report = self.istream.err();
        self.fault = Some(
            LexFault {
                kind,
                offset: self.istream.idx,
                row: self.istream.row,
                col: self.istream.col,
                report,
            },
        );
    }

    fn find_tokens(&mut self)
        requires
            old(self).istream.wf(),
            old(self).fault is None,
            old(self).tokens@.len() == 0,
        ensures
            tokens_view(final(self).tokens@) == lex_from(
                old(self).istream.bytes(),
                old(self).istream.pos(),
            ).tokens,
            fault_agrees(
                final(self).fault,
                lex_from(old(self).istream.bytes(), old(self).istream.pos()).fault,
                old(self).istream.bytes(),
                old(self).istream.label(),
            ),
    {
        let ghost s = self.istream.bytes();
        let ghost label = self.istream.label();
        let ghost whole = lex_from(s, self.istream.pos());
        assert(tokens_view(self.tokens@) =~= Seq::<TokenV>::empty());
        loop
            invariant_except_break
                self.fault is None,
                tokens_view(self.tokens@) + lex_from(s, self.istream.pos()).tokens == whole.tokens,
                lex_from(s, self.istream.pos()).fault == whole.fault,
            invariant
                self.istream.wf(),
                self.istream.bytes() == s,
                self.istream.label() == label,
            ensures
                tokens_view(self.tokens@).push(TokenV::Eof) == whole.tokens,
                fault_agrees(self.fault, whole.fault, s, label),
            decreases s.len() - self.istream.pos(),
        {
            let ghost before = self.tokens@;
            let t = self.take_token();
            match t {
                Token::Eof => {
                    assert(tokens_view(self.tokens@).push(TokenV::Eof) =~= tokens_view(self.tokens@)
                        + seq![TokenV::Eof]);
                    break ;
                },
                _ => {},
            }
            self.tokens.push(t);
            assert(tokens_view(self.tokens@) =~= tokens_view(before).push(t@));
            assert(tokens_view(self.tokens@) + lex_from(s, self.istream.pos()).tokens
                =~= tokens_view(before) + (seq![t@] + lex_from(s, self.istream.pos()).tokens));
        }
        let ghost before = self.tokens@;
        self.tokens.push(Token::Eof);
        assert(tokens_view(self.tokens@) =~= tokens_view(before).push(TokenV::Eof));
    }

    /// Reads one token; the end-of-input token at the end of the input or
    /// where a fault stops lexing.
    fn take_token(&mut self) -> (t: Token)
        requires
            old(self).istream.wf(),
            old(self).fault is None,
        ensures
            final(self).istream.wf(),
            final(self).istream.bytes() == old(self).istream.bytes(),
            final(self).istream.label() == old(self).istream.label(),
            final(self).tokens == old(self).tokens,
            ({
                let r = lex_from(old(self).istream.bytes(), old(self).istream.pos());
                if t@ is Eof {
                    &&& r.tokens == seq![TokenV::Eof]
                    &&& fault_agrees(
                        final(self).fault,
                        r.fault,
                        old(self).istream.bytes(),
                        old(self).istream.label(),
                    )
                } else {
                    &&& final(self).fault is None
                    &&& final(self).istream.pos() > old(self).istream.pos()
                    &&& final(self).istream.pos() == token_end(
                        old(self).istream.bytes(),
                        run_end(CharClass::Whitespace, old(self).istream.bytes(), old(self).istream.pos()),
                    )
                    &&& r == lexed_cons(t@, lex_from(old(self).istream.bytes(), final(self).istream.pos()))
                }
            }),
    {
        let ghost s = self.istream.bytes();
        let ghost from = self.istream.pos();
        self.istream.take_while(CharClass::Whitespace);
        proof {
            lemma_skip_whitespace(s, from);
            lemma_run_end_bounds(CharClass::Whitespace, s, from);
            lemma_run_end_stops(CharClass::Whitespace, s, from);
        }
        if self.istream.empty {
            proof {
                lemma_lex_end(s, self.istream.pos());
            }
            return Token::Eof;
        }
        let ghost p = self.istream.pos();
        let peek: u8 = self.istream.input[self.istream.idx];
        assert(peek == s[p as int]);
        if peek == NEWLINE {
            proof {
                lemma_lex_newline(s, p);
            }
            self.istream.next();
            return Token::Newline;
        }
        if peek == SEMICOLON {
            let found = self.istream.take_to_c(NEWLINE);
            proof {
                lemma_find_byte_bounds(s, p + 1, NEWLINE);
                lemma_lex_comment(s, p);
            }
            if !found {
                self.record_fault(LexFaultKind::UnterminatedComment);
                return Token::Eof;
            }
            return Token::Newline;
        }
        if is_quote(peek) {
            proof {
                lemma_lex_string(s, p);
            }
            self.istream.next();
            let body = self.istream.take_while(CharClass::StringBody);
            if self.istream.empty {
                self.record_fault(LexFaultKind::UnterminatedString);
                return Token::Eof;
            }
            self.istream.next();
            return Token::Literal(Literal::String(body));
        }
        if is_int(peek) {
            let digits = self.istream.take_while(CharClass::Digit);
            proof {
                lemma_run_end_bounds(CharClass::Digit, s, p);
            }
            assert(run_end(CharClass::Digit, s, p) == run_end(CharClass::Digit, s, p + 1));
            proof {
                lemma_lex_number(s, p);
                assert forall|k: int| 0 <= k < digits@.len() implies spec_is_int(
                    #[trigger] digits@[k],
                ) by {
                    lemma_run_end_accepts(CharClass::Digit, s, p, p + k);
                }
            }
            return match parse_decimal(&digits) {
                Some(v) => Token::Literal(Literal::Int(v)),
                None => {
                    self.record_fault(LexFaultKind::IntegerOverflow);
                    Token::Eof
                },
            };
        }
        if is_kw_or_var(peek) {
            let word = self.istream.take_while(CharClass::Word);
            assert(run_end(CharClass::Word, s, p) == run_end(CharClass::Word, s, p + 1));
            proof {
                lemma_lex_word(s, p);
                lemma_run_end_bounds(CharClass::Word, s, p + 1);
            }
            return match get_kw(&word) {
                Some(kw) => Token::Keyword(kw),
                None => Token::Identifier(Identifier::Variable(word)),
            };
        }
        if is_op(peek) {
            let op = self.istream.take_while(CharClass::OperatorChar);
            assert(run_end(CharClass::OperatorChar, s, p) == run_end(
                CharClass::OperatorChar,
                s,
                p + 1,
            ));
            proof {
                lemma_lex_operator(s, p);
                lemma_run_end_bounds(CharClass::OperatorChar, s, p + 1);
            }
            return match get_op(&op) {
                Some(o) => Token::Operator(o),
                None => {
                    self.record_fault(LexFaultKind::UnknownOperator);
                    Token::Eof
                },
            };
        }
        if peek == DOLLAR {
            proof {
                lemma_lex_register(s, p);
            }
            self.istream.next();
            let deref = match self.istream.peek(0) {
                Some(c) => c == STAR,
                None => false,
            };
            if deref {
                self.istream.next();
                let reg = self.istream.take_while(CharClass::RegisterName);
                return Token::Identifier(Identifier::DerefRegister(reg));
            } else {
                let reg = self.istream.take_while(CharClass::RegisterName);
                return Token::Identifier(Identifier::Register(reg));
            }
        }
        proof {
            lemma_lex_separator(s, p);
        }
        match get_sep(peek) {
            Some(separator) => {
                self.istream.next();
                Token::Separator(separator)
            },
            None => {
                self.record_fault(LexFaultKind::UnknownCharacter);
                Token::Eof
            },
        }
    }
}

/// Lexes `input`; `label` names it in a diagnostic.
pub fn tokenize(input: &Vec<u8>, label: &Vec<u8>) -> (r: (Vec<Token>, Option<LexFault>))
    ensures
        tokens_view(r.0@) == lex(input@).tokens,
        fault_agrees(r.1, lex(input@).fault, input@, label@),
        r.0@.len() >= 1,
        r.0@.last() is Eof,
        forall|k: int| 0 <= k < r.0@.len() - 1 ==> !(#[trigger] r.0@[k] is Eof),
{
    proof {
        lemma_lex_ends_once(input@, 0);
    }
    let tokenizer = Tokenizer::new(IStream::new(input, label));
    let r = (tokenizer.tokens, tokenizer.fault);
    assert forall|k: int| 0 <= k < r.0@.len() implies (#[trigger] r.0@[k] is Eof) == (
    tokens_view(r.0@)[k] is Eof) by {}
    r
}

/// The suffix `: [ TYPE , COUNT ]` of a declaration.
pub open spec fn type_and_count(ts: Seq<TokenV>) -> Option<(Type, u64)> {
    if ts.len() == 6 && ts[0] == TokenV::Separator(Separator::Colon) && ts[1] == TokenV::Separator(
        Separator::OpenBracket,
    ) && ts[3] == TokenV::Separator(Separator::Comma) && ts[5] == TokenV::Separator(
        Separator::CloseBracket,
    ) {
        match (ts[2], ts[4]) {
            (
                TokenV::Identifier(IdentifierV::Variable(t)),
                TokenV::Literal(LiteralV::Int(n)),
            ) => match type_of(t) {
                Some(ty) => Some((ty, n)),
                None => None,
            },
            _ => None,
        }
    } else {
        None
    }
}

/// Exactly one literal token.
pub open spec fn single_literal(ts: Seq<TokenV>) -> Option<LiteralV> {
    if ts.len() == 1 {
        match ts[0] {
            TokenV::Literal(l) => Some(l),
            _ => None,
        }
    } else {
        None
    }
}

/// Reads the suffix `: [ TYPE , COUNT ]` of a declaration.
pub fn get_v_description(vt: &Vec<Token>) -> (r: Option<(Type, u64)>)
    ensures
        r == type_and_count(tokens_view(vt@)),
{
    let ghost ts = tokens_view(vt@);
    if vt.len() != 6 {
        return None;
    }
    assert(ts[0] == vt@[0]@ && ts[1] == vt@[1]@ && ts[2] == vt@[2]@);
    assert(ts[3] == vt@[3]@ && ts[4] == vt@[4]@ && ts[5] == vt@[5]@);
    let shape = match (&vt[0], &vt[1], &vt[3], &vt[5]) {
        (Token::Separator(a), Token::Separator(b), Token::Separator(c), Token::Separator(d)) => *a
            == Separator::Colon && *b == Separator::OpenBracket && *c == Separator::Comma && *d
            == Separator::CloseBracket,
        _ => false,
    };
    if !shape {
        return None;
    }
    match (&vt[2], &vt[4]) {
        (Token::Identifier(Identifier::Variable(t)), Token::Literal(Literal::Int(n))) => match get_type(t) {
            Some(ty) => Some((ty, *n)),
            None => None,
        },
        _ => None,
    }
}

/// Reads a token slice that must hold exactly one literal.
pub fn get_literal(vt: &Vec<Token>) -> (r: Option<Literal>)
    ensures
        match single_literal(tokens_view(vt@)) {
            Some(l) => r matches Some(x) && x@ == l,
            None => r is None,
        },
{
    if vt.len() != 1 {
        return None;
    }
    assert(tokens_view(vt@)[0] == vt@[0]@);
    match &vt[0] {
        Token::Literal(l) => Some(l.copy()),
        _ => None,
    }
}

} // verus!
