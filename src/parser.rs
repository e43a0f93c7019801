//! The parser: tokens to a tree of scopes.

use vstd::prelude::*;
use crate::combinator::bytes_eq;
use crate::tokenizer::{
    Identifier, IdentifierV, Keyword, Literal, LiteralV, Operator, Separator, Token, TokenV, Type,
    tokens_view, type_and_count, single_literal, get_v_description, get_literal,
};

verus! {

broadcast use vstd::std_specs::vec::axiom_vec_index_decreases;

/// An expression tree. `Unary` is parsed by no rule yet and has no code.
#[derive(Debug)]
pub enum Expression {
    Binary { left: Box<Expression>, right: Box<Expression>, operator: Operator },
    Unary { operand: Box<Expression>, operator: Operator },
    Number { value: u64 },
    Register { reg: Vec<u8> },
    Variable { var: Vec<u8> },
    /// The size symbol derived from a declared name.
    SizeOf { var: Vec<u8> },
}

/// The value of an `Expression`, with byte strings as sequences.
pub enum ExprV {
    Binary { left: Box<ExprV>, right: Box<ExprV>, operator: Operator },
    Unary { operand: Box<ExprV>, operator: Operator },
    Number { value: u64 },
    Register { reg: Seq<u8> },
    Variable { var: Seq<u8> },
    SizeOf { var: Seq<u8> },
}

impl View for Expression {
    type V = ExprV;

    open spec fn view(&self) -> ExprV
        decreases self,
    {
        match self {
            Expression::Binary { left, right, operator } => ExprV::Binary {
                left: Box::new((**left).view()),
                right: Box::new((**right).view()),
                operator: *operator,
            },
            Expression::Unary { operand, operator } => ExprV::Unary {
                operand: Box::new((**operand).view()),
                operator: *operator,
            },
            Expression::Number { value } => ExprV::Number { value: *value },
            Expression::Register { reg } => ExprV::Register { reg: reg@ },
            Expression::Variable { var } => ExprV::Variable { var: var@ },
            Expression::SizeOf { var } => ExprV::SizeOf { var: var@ },
        }
    }
}

/// A statement of a scope.
#[derive(Debug)]
pub enum Statement {
    NewConst { name: Vec<u8>, literal: Literal, v_type: Option<(Type, u64)> },
    NewLet { name: Vec<u8>, literal: Option<Literal>, v_type: Option<(Type, u64)> },
    RegisterAssign { register: Vec<u8>, expression: Expression },
    RegisterDerefAssign { register: Vec<u8>, expression: Expression },
    InlineAssembly { instructions: Vec<u8> },
    Call { f: Vec<u8> },
    Scoped { scoped: ScopeImpl },
}

/// What kind of scope a frame is, and what its closing brace ends.
#[derive(Debug)]
pub enum ScopeImplType {
    Global,
    Fn { name: Vec<u8>, external: bool },
    If { left: Expression, right: Expression, condition: Operator },
}

/// A scope frame: its kind and its statements in order.
#[derive(Debug)]
pub struct ScopeImpl {
    pub scope_type: ScopeImplType,
    pub scope: Vec<Statement>,
}

/// The value of a `Statement`.
pub enum StatementV {
    NewConst { name: Seq<u8>, literal: LiteralV, v_type: Option<(Type, u64)> },
    NewLet { name: Seq<u8>, literal: Option<LiteralV>, v_type: Option<(Type, u64)> },
    RegisterAssign { register: Seq<u8>, expression: ExprV },
    RegisterDerefAssign { register: Seq<u8>, expression: ExprV },
    InlineAssembly { instructions: Seq<u8> },
    Call { f: Seq<u8> },
    Scoped { scoped: ScopeV },
}

/// The value of a `ScopeImplType`.
pub enum ScopeKindV {
    Global,
    Fn { name: Seq<u8>, external: bool },
    If { left: ExprV, right: ExprV, condition: Operator },
}

/// The value of a `ScopeImpl`: its kind and the values of its statements.
pub struct ScopeV {
    pub kind: ScopeKindV,
    pub body: Seq<StatementV>,
}

pub open spec fn literal_opt_view(l: Option<Literal>) -> Option<LiteralV> {
    match l {
        Some(l) => Some(l@),
        None => None,
    }
}

impl View for ScopeImplType {
    type V = ScopeKindV;

    open spec fn view(&self) -> ScopeKindV {
        match self {
            ScopeImplType::Global => ScopeKindV::Global,
            ScopeImplType::Fn { name, external } => ScopeKindV::Fn { name: name@, external: *external },
            ScopeImplType::If { left, right, condition } => ScopeKindV::If {
                left: left@,
                right: right@,
                condition: *condition,
            },
        }
    }
}

pub open spec fn statement_view(s: &Statement) -> StatementV
    decreases s, 0nat,
{
    match s {
        Statement::NewConst { name, literal, v_type } => StatementV::NewConst {
            name: name@,
            literal: literal@,
            v_type: *v_type,
        },
        Statement::NewLet { name, literal, v_type } => StatementV::NewLet {
            name: name@,
            literal: literal_opt_view(*literal),
            v_type: *v_type,
        },
        Statement::RegisterAssign { register, expression } => StatementV::RegisterAssign {
            register: register@,
            expression: expression@,
        },
        Statement::RegisterDerefAssign { register, expression } => StatementV::RegisterDerefAssign {
            register: register@,
            expression: expression@,
        },
        Statement::InlineAssembly { instructions } => StatementV::InlineAssembly {
            instructions: instructions@,
        },
        Statement::Call { f } => StatementV::Call { f: f@ },
        Statement::Scoped { scoped } => StatementV::Scoped {
            scoped: ScopeV {
                kind: scoped.scope_type@,
                body: statements_view(&scoped.scope, scoped.scope.len() as nat),
            },
        },
    }
}

/// The views of the first `k` statements of `v`.
pub open spec fn statements_view(v: &Vec<Statement>, k: nat) -> Seq<StatementV>
    decreases v, k,
{
    if k == 0 || k > v.len() {
        Seq::empty()
    } else {
        statements_view(v, (k - 1) as nat).push(statement_view(&v[k - 1]))
    }
}

impl View for Statement {
    type V = StatementV;

    open spec fn view(&self) -> StatementV {
        statement_view(self)
    }
}

impl View for ScopeImpl {
    type V = ScopeV;

    open spec fn view(&self) -> ScopeV {
        ScopeV { kind: self.scope_type@, body: statements_view(&self.scope, self.scope.len() as nat) }
    }
}

pub proof fn lemma_statements_view(v: &Vec<Statement>, k: nat)
    requires
        k <= v.len(),
    ensures
        statements_view(v, k).len() == k,
        forall|j: int| 0 <= j < k ==> #[trigger] statements_view(v, k)[j] == v@[j]@,
    decreases k,
{
    if k > 0 {
        lemma_statements_view(v, (k - 1) as nat);
    }
}

/// The first position at or after `k` that holds the operator `o`.
pub open spec fn first_op(ts: Seq<TokenV>, o: Operator, k: nat) -> Option<nat>
    decreases ts.len() - k,
{
    if k >= ts.len() {
        None
    } else if ts[k as int] == TokenV::Operator(o) {
        Some(k)
    } else {
        first_op(ts, o, k + 1)
    }
}

/// Where an expression splits: at the first `+` if there is one, else at the
/// first `-`, else at the first `*`.
pub open spec fn split_point(ts: Seq<TokenV>) -> Option<(nat, Operator)> {
    match first_op(ts, Operator::Add, 0) {
        Some(k) => Some((k, Operator::Add)),
        None => match first_op(ts, Operator::Subtract, 0) {
            Some(k) => Some((k, Operator::Subtract)),
            None => match first_op(ts, Operator::Multiply, 0) {
                Some(k) => Some((k, Operator::Multiply)),
                None => None,
            },
        },
    }
}

pub open spec fn upper_byte(c: u8) -> u8 {
    if 0x61 <= c <= 0x7a {
        (c - 0x20) as u8
    } else {
        c
    }
}

/// The size symbol of a declared name: the name in upper case, then `_LEN`.
pub open spec fn size_symbol(name: Seq<u8>) -> Seq<u8> {
    name.map_values(|c: u8| upper_byte(c)) + seq![0x5fu8, 0x4c, 0x45, 0x4e]
}

/// A slice without a splitting operator: one atom.
pub open spec fn parse_atom(ts: Seq<TokenV>) -> Option<ExprV> {
    if ts.len() == 1 {
        match ts[0] {
            TokenV::Literal(LiteralV::Int(v)) => Some(ExprV::Number { value: v }),
            TokenV::Identifier(IdentifierV::Register(r)) => Some(ExprV::Register { reg: r }),
            TokenV::Identifier(IdentifierV::Variable(v)) => Some(ExprV::Variable { var: v }),
            _ => None,
        }
    } else if ts.len() == 4 && ts[0] == TokenV::Keyword(Keyword::SizeOf) && ts[1]
        == TokenV::Separator(Separator::OpenParentheses) && ts[3] == TokenV::Separator(
        Separator::CloseParentheses,
    ) {
        match ts[2] {
            TokenV::Identifier(IdentifierV::Variable(v)) => Some(ExprV::SizeOf { var: size_symbol(v) }),
            _ => None,
        }
    } else {
        None
    }
}

pub proof fn lemma_first_op_bounds(ts: Seq<TokenV>, o: Operator, k: nat)
    ensures
        first_op(ts, o, k) matches Some(j) ==> k <= j < ts.len() && ts[j as int] == TokenV::Operator(o),
    decreases ts.len() - k,
{
    if k < ts.len() && ts[k as int] != TokenV::Operator(o) {
        lemma_first_op_bounds(ts, o, k + 1);
    }
}

pub proof fn lemma_split_point_bounds(ts: Seq<TokenV>)
    ensures
        split_point(ts) matches Some((k, o)) ==> k < ts.len() && ts[k as int] == TokenV::Operator(o),
{
    lemma_first_op_bounds(ts, Operator::Add, 0);
    lemma_first_op_bounds(ts, Operator::Subtract, 0);
    lemma_first_op_bounds(ts, Operator::Multiply, 0);
}

pub proof fn lemma_first_op_none(ts: Seq<TokenV>, o: Operator, k: nat, j: int)
    requires
        first_op(ts, o, k) is None,
        k <= j < ts.len(),
    ensures
        ts[j] != TokenV::Operator(o),
    decreases ts.len() - k,
{
    if k < j {
        lemma_first_op_none(ts, o, k + 1, j);
    }
}

/// A token that is an atom by itself: an integer, a register or a variable.
pub open spec fn is_atom_token(t: TokenV) -> bool {
    ||| t matches TokenV::Literal(LiteralV::Int(_))
    ||| t matches TokenV::Identifier(IdentifierV::Register(_))
    ||| t matches TokenV::Identifier(IdentifierV::Variable(_))
}

pub open spec fn is_arith_op_token(t: TokenV) -> bool {
    ||| t == TokenV::Operator(Operator::Add)
    ||| t == TokenV::Operator(Operator::Subtract)
    ||| t == TokenV::Operator(Operator::Multiply)
}

/// Atoms joined by `+`, `-` and `*`: `a op a op ... a`.
pub open spec fn arith_chain(ts: Seq<TokenV>) -> bool {
    &&& ts.len() % 2 == 1
    &&& forall|k: int|
        0 <= k < ts.len() ==> if k % 2 == 0 {
            is_atom_token(#[trigger] ts[k])
        } else {
            is_arith_op_token(ts[k])
        }
}

/// Parsing never fails on atoms joined by `+`, `-` and `*`. (Its result is
/// `parse_expr` of the tokens, so the same tokens always give the same tree.)
pub proof fn lemma_parse_expr_total(ts: Seq<TokenV>)
    requires
        arith_chain(ts),
    ensures
        parse_expr(ts) is Some,
    decreases ts.len(),
{
    lemma_split_point_bounds(ts);
    match split_point(ts) {
        Some((k, o)) => {
            assert(k % 2 == 1) by {
                if k % 2 == 0 {
                    assert(is_atom_token(ts[k as int]));
                }
            }
            let l = ts.subrange(0, k as int);
            let r = ts.subrange(k + 1int, ts.len() as int);
            assert forall|j: int| 0 <= j < l.len() implies if j % 2 == 0 {
                is_atom_token(#[trigger] l[j])
            } else {
                is_arith_op_token(l[j])
            } by {
                assert(l[j] == ts[j]);
            }
            assert forall|j: int| 0 <= j < r.len() implies if j % 2 == 0 {
                is_atom_token(#[trigger] r[j])
            } else {
                is_arith_op_token(r[j])
            } by {
                assert(r[j] == ts[j + k + 1]);
                assert((j + k + 1) % 2 == j % 2);
            }
            lemma_parse_expr_total(l);
            lemma_parse_expr_total(r);
        },
        None => {
            if ts.len() > 1 {
                assert(is_arith_op_token(ts[1]));
                if first_op(ts, Operator::Add, 0) is None {
                    lemma_first_op_none(ts, Operator::Add, 0, 1);
                }
                if first_op(ts, Operator::Subtract, 0) is None {
                    lemma_first_op_none(ts, Operator::Subtract, 0, 1);
                }
                if first_op(ts, Operator::Multiply, 0) is None {
                    lemma_first_op_none(ts, Operator::Multiply, 0, 1);
                }
            }
            assert(is_atom_token(ts[0]));
        },
    }
}

/// Parses a slice of tokens as an expression.
pub open spec fn parse_expr(ts: Seq<TokenV>) -> Option<ExprV>
    decreases ts.len(),
{
    match split_point(ts) {
        Some((k, o)) => {
            proof {
                lemma_split_point_bounds(ts);
            }
            match (parse_expr(ts.subrange(0, k as int)), parse_expr(ts.subrange(k + 1int, ts.len() as int))) {
                (Some(l), Some(r)) => Some(ExprV::Binary { left: Box::new(l), right: Box::new(r), operator: o }),
                _ => None,
            }
        },
        None => parse_atom(ts),
    }
}

/// The first position in `lo..hi` that holds the operator `o`.
fn find_op(tks: &Vec<Token>, lo: usize, hi: usize, o: Operator) -> (r: Option<usize>)
    requires
        lo <= hi <= tks@.len(),
    ensures
        match first_op(tokens_view(tks@).subrange(lo as int, hi as int), o, 0) {
            Some(k) => r == Some((k + lo) as usize),
            None => r is None,
        },
{
    let ghost sub = tokens_view(tks@).subrange(lo as int, hi as int);
    let mut j: usize = lo;
    while j < hi
        invariant
            lo <= j <= hi <= tks@.len(),
            sub == tokens_view(tks@).subrange(lo as int, hi as int),
            first_op(sub, o, 0) == first_op(sub, o, (j - lo) as nat),
        decreases hi - j,
    {
        let hit = match &tks[j] {
            Token::Operator(op) => *op == o,
            _ => false,
        };
        assert(sub[j - lo] == tks@[j as int]@);
        if hit {
            return Some(j);
        }
        j = j + 1;
    }
    None
}

/// The size symbol of `name`.
pub fn size_symbol_of(name: &Vec<u8>) -> (r: Vec<u8>)
    ensures
        r@ == size_symbol(name@),
{
    let mut out: Vec<u8> = Vec::new();
    let mut i: usize = 0;
    while i < name.len()
        invariant
            i <= name@.len(),
            out@ == name@.subrange(0, i as int).map_values(|c: u8| upper_byte(c)),
        decreases name@.len() - i,
    {
        let c = name[i];
        let u: u8 = if 0x61 <= c && c <= 0x7a {
            c - 0x20
        } else {
            c
        };
        out.push(u);
        i = i + 1;
        assert(out@ =~= name@.subrange(0, i as int).map_values(|c: u8| upper_byte(c)));
    }
    out.extend_from_slice(&[0x5fu8, 0x4c, 0x45, 0x4e]);
    assert(name@.subrange(0, i as int) =~= name@);
    assert(out@ =~= size_symbol(name@));
    out
}

fn parse_atom_range(tks: &Vec<Token>, lo: usize, hi: usize) -> (r: Option<Expression>)
    requires
        lo <= hi <= tks@.len(),
    ensures
        match parse_atom(tokens_view(tks@).subrange(lo as int, hi as int)) {
            Some(e) => r matches Some(x) && x@ == e,
            None => r is None,
        },
{
    let ghost sub = tokens_view(tks@).subrange(lo as int, hi as int);
    if hi - lo == 1 {
        assert(sub[0] == tks@[lo as int]@);
        match &tks[lo] {
            Token::Literal(Literal::Int(v)) => Some(Expression::Number { value: *v }),
            Token::Identifier(Identifier::Register(r)) => Some(Expression::Register { reg: r.clone() }),
            Token::Identifier(Identifier::Variable(v)) => Some(Expression::Variable { var: v.clone() }),
            _ => None,
        }
    } else if hi - lo == 4 {
        assert(sub[0] == tks@[lo as int]@);
        assert(sub[1] == tks@[lo + 1]@);
        assert(sub[2] == tks@[lo + 2]@);
        assert(sub[3] == tks@[lo + 3]@);
        let head = match &tks[lo] {
            Token::Keyword(k) => *k == Keyword::SizeOf,
            _ => false,
        };
        let open = match &tks[lo + 1] {
            Token::Separator(s) => *s == Separator::OpenParentheses,
            _ => false,
        };
        let close = match &tks[lo + 3] {
            Token::Separator(s) => *s == Separator::CloseParentheses,
            _ => false,
        };
        if head && open && close {
            match &tks[lo + 2] {
                Token::Identifier(Identifier::Variable(v)) => Some(
                    Expression::SizeOf { var: size_symbol_of(v) },
                ),
                _ => None,
            }
        } else {
            None
        }
    } else {
        None
    }
}

fn parse_range(tks: &Vec<Token>, lo: usize, hi: usize) -> (r: Option<Expression>)
    requires
        lo <= hi <= tks@.len(),
    ensures
        match parse_expr(tokens_view(tks@).subrange(lo as int, hi as int)) {
            Some(e) => r matches Some(x) && x@ == e,
            None => r is None,
        },
    decreases hi - lo,
{
    let ghost view = tokens_view(tks@);
    let ghost sub = view.subrange(lo as int, hi as int);
    proof {
        lemma_split_point_bounds(sub);
        lemma_first_op_bounds(sub, Operator::Add, 0);
        lemma_first_op_bounds(sub, Operator::Subtract, 0);
        lemma_first_op_bounds(sub, Operator::Multiply, 0);
    }
    let split: Option<(usize, Operator)> = match find_op(tks, lo, hi, Operator::Add) {
        Some(k) => Some((k, Operator::Add)),
        None => match find_op(tks, lo, hi, Operator::Subtract) {
            Some(k) => Some((k, Operator::Subtract)),
            None => match find_op(tks, lo, hi, Operator::Multiply) {
                Some(k) => Some((k, Operator::Multiply)),
                None => None,
            },
        },
    };
    match split {
        Some((k, o)) => {
            assert(sub.subrange(0, k - lo) =~= view.subrange(lo as int, k as int));
            assert(sub.subrange(k - lo + 1, sub.len() as int) =~= view.subrange(k + 1, hi as int));
            let left = parse_range(tks, lo, k);
            let right = parse_range(tks, k + 1, hi);
            match (left, right) {
                (Some(l), Some(r)) => Some(
                    Expression::Binary { left: Box::new(l), right: Box::new(r), operator: o },
                ),
                _ => None,
            }
        },
        None => parse_atom_range(tks, lo, hi),
    }
}

/// The token at `i`; past the end, the end of input.
pub open spec fn tok_at(ts: Seq<TokenV>, i: int) -> TokenV {
    if 0 <= i < ts.len() {
        ts[i]
    } else {
        TokenV::Eof
    }
}

/// The tokens that end a declaration's name and suffix: `=`, a line break,
/// the end of input.
pub open spec fn assign_or_newline() -> Seq<TokenV> {
    seq![TokenV::Operator(Operator::Assign), TokenV::Newline, TokenV::Eof]
}

/// The tokens that end a line: a line break, the end of input.
pub open spec fn end_of_line() -> Seq<TokenV> {
    seq![TokenV::Newline, TokenV::Eof]
}

/// The tokens that end a conditional's left side: `==`, `!=`, the end of input.
pub open spec fn comparison() -> Seq<TokenV> {
    seq![TokenV::Operator(Operator::Equal), TokenV::Operator(Operator::NotEqual), TokenV::Eof]
}

/// The tokens that end a conditional's right side: `{`, the end of input.
pub open spec fn open_brace() -> Seq<TokenV> {
    seq![TokenV::Separator(Separator::OpenBrace), TokenV::Eof]
}

/// Where a scan from `k` stops: at the first token among `stops`, or at the
/// end of the sequence.
pub open spec fn scan_end(ts: Seq<TokenV>, k: nat, stops: Seq<TokenV>) -> nat
    decreases ts.len() - k,
{
    if k < ts.len() && !stops.contains(ts[k as int]) {
        scan_end(ts, k + 1, stops)
    } else {
        k
    }
}

pub proof fn lemma_scan_end_bounds(ts: Seq<TokenV>, k: nat, stops: Seq<TokenV>)
    requires
        k <= ts.len(),
    ensures
        k <= scan_end(ts, k, stops) <= ts.len(),
    decreases ts.len() - k,
{
    if k < ts.len() && !stops.contains(ts[k as int]) {
        lemma_scan_end_bounds(ts, k + 1, stops);
    }
}

#[derive(Debug, Clone, Copy, PartialEq, Eq, Structural)]
pub enum ParseErrorKind {
    UnexpectedToken,
    MalformedDeclaration,
    MissingStorageSize,
    NestedFunction,
    UnmatchedBrace,
    UnclosedScope,
    MalformedExpression,
}

/// A parse error and the position of the token that starts the statement
/// in which it was found.
#[derive(Debug, Clone, Copy, PartialEq, Eq, Structural)]
pub struct ParseError {
    pub kind: ParseErrorKind,
    pub at: usize,
}

/// What one statement does: where the cursor goes, the scope stack after it,
/// and the statement to add to the innermost scope, if any.
pub struct Step {
    pub next: nat,
    pub stack: Seq<ScopeV>,
    pub stmt: Option<StatementV>,
}

/// The word that opens a conditional.
pub open spec fn if_word() -> Seq<u8> {
    seq![0x69u8, 0x66]
}

pub open spec fn has_function(stack: Seq<ScopeV>) -> bool {
    exists|k: int| 0 <= k < stack.len() && (#[trigger] stack[k]).kind is Fn
}

pub open spec fn open_scope(stack: Seq<ScopeV>, kind: ScopeKindV) -> Seq<ScopeV> {
    stack.push(ScopeV { kind, body: Seq::empty() })
}

/// Appends `st` to the innermost scope.
pub open spec fn add_to_top(stack: Seq<ScopeV>, st: StatementV) -> Seq<ScopeV> {
    stack.update(
        stack.len() - 1,
        ScopeV { kind: stack.last().kind, body: stack.last().body.push(st) },
    )
}

/// `const NAME [: [TYPE, COUNT]] = LITERAL` or `let NAME [: [TYPE, COUNT]] [= LITERAL]`.
pub open spec fn parse_declaration(ts: Seq<TokenV>, i: nat, is_const: bool) -> Result<
    (nat, StatementV),
    ParseErrorKind,
> {
    match tok_at(ts, i + 1int) {
        TokenV::Identifier(IdentifierV::Variable(name)) => {
            let d = scan_end(ts, i + 2, assign_or_newline());
            let suffix = ts.subrange(i + 2int, d as int);
            let desc = type_and_count(suffix);
            if suffix.len() > 0 && desc is None {
                Err(ParseErrorKind::MalformedDeclaration)
            } else if tok_at(ts, d as int) == TokenV::Operator(Operator::Assign) {
                let l = scan_end(ts, d + 1, end_of_line());
                match single_literal(ts.subrange(d + 1int, l as int)) {
                    Some(lit) => Ok(
                        (
                            l,
                            if is_const {
                                StatementV::NewConst { name, literal: lit, v_type: desc }
                            } else {
                                StatementV::NewLet { name, literal: Some(lit), v_type: desc }
                            },
                        ),
                    ),
                    None => Err(ParseErrorKind::MalformedDeclaration),
                }
            } else if is_const {
                Err(ParseErrorKind::MalformedDeclaration)
            } else if desc is None {
                Err(ParseErrorKind::MissingStorageSize)
            } else {
                Ok((d, StatementV::NewLet { name, literal: None, v_type: desc }))
            }
        },
        _ => Err(ParseErrorKind::UnexpectedToken),
    }
}

/// `[extern] fn NAME`: opens a function scope.
pub open spec fn parse_function(ts: Seq<TokenV>, i: nat, stack: Seq<ScopeV>, external: bool) -> Result<
    Step,
    ParseErrorKind,
> {
    let at = if external {
        i + 2
    } else {
        i + 1
    };
    if external && tok_at(ts, i + 1int) != TokenV::Keyword(Keyword::Function) {
        Err(ParseErrorKind::UnexpectedToken)
    } else {
        match tok_at(ts, at as int) {
            TokenV::Identifier(IdentifierV::Variable(name)) => if has_function(stack) {
                Err(ParseErrorKind::NestedFunction)
            } else {
                Ok(
                    Step {
                        next: (at + 1) as nat,
                        stack: open_scope(stack, ScopeKindV::Fn { name, external }),
                        stmt: None,
                    },
                )
            },
            _ => Err(ParseErrorKind::UnexpectedToken),
        }
    }
}

/// `call ( NAME )`.
pub open spec fn parse_call(ts: Seq<TokenV>, i: nat) -> Result<(nat, StatementV), ParseErrorKind> {
    if tok_at(ts, i + 1int) == TokenV::Separator(Separator::OpenParentheses) && tok_at(ts, i + 3int)
        == TokenV::Separator(Separator::CloseParentheses) {
        match tok_at(ts, i + 2int) {
            TokenV::Identifier(IdentifierV::Variable(f)) => Ok(((i + 4) as nat, StatementV::Call { f })),
            _ => Err(ParseErrorKind::UnexpectedToken),
        }
    } else {
        Err(ParseErrorKind::UnexpectedToken)
    }
}

/// `if LEFT (== | !=) RIGHT {`: opens a conditional scope.
pub open spec fn parse_if(ts: Seq<TokenV>, i: nat, stack: Seq<ScopeV>) -> Result<Step, ParseErrorKind> {
    let c = scan_end(ts, i + 1, comparison());
    match parse_expr(ts.subrange(i + 1int, c as int)) {
        None => Err(ParseErrorKind::MalformedExpression),
        Some(left) => match tok_at(ts, c as int) {
            TokenV::Operator(condition) => {
                let b = scan_end(ts, c + 1, open_brace());
                match parse_expr(ts.subrange(c + 1int, b as int)) {
                    None => Err(ParseErrorKind::MalformedExpression),
                    Some(right) => if tok_at(ts, b as int) == TokenV::Separator(Separator::OpenBrace) {
                        Ok(
                            Step {
                                next: b + 1,
                                stack: open_scope(stack, ScopeKindV::If { left, right, condition }),
                                stmt: None,
                            },
                        )
                    } else {
                        Err(ParseErrorKind::UnexpectedToken)
                    },
                }
            },
            _ => Err(ParseErrorKind::UnexpectedToken),
        },
    }
}

/// `$reg = EXPR` or `$*reg = EXPR`, up to the end of the line.
pub open spec fn parse_assign(ts: Seq<TokenV>, i: nat, register: Seq<u8>, deref: bool) -> Result<
    (nat, StatementV),
    ParseErrorKind,
> {
    if tok_at(ts, i + 1int) == TokenV::Operator(Operator::Assign) {
        let e = scan_end(ts, i + 2, end_of_line());
        match parse_expr(ts.subrange(i + 2int, e as int)) {
            Some(expression) => Ok(
                (
                    e,
                    if deref {
                        StatementV::RegisterDerefAssign { register, expression }
                    } else {
                        StatementV::RegisterAssign { register, expression }
                    },
                ),
            ),
            None => Err(ParseErrorKind::MalformedExpression),
        }
    } else {
        Err(ParseErrorKind::UnexpectedToken)
    }
}

pub open spec fn emit(r: Result<(nat, StatementV), ParseErrorKind>, stack: Seq<ScopeV>) -> Result<
    Step,
    ParseErrorKind,
> {
    match r {
        Ok((next, st)) => Ok(Step { next, stack, stmt: Some(st) }),
        Err(k) => Err(k),
    }
}

/// One statement, led by the token at `i`.
pub open spec fn parse_step(ts: Seq<TokenV>, i: nat, stack: Seq<ScopeV>) -> Result<Step, ParseErrorKind> {
    match tok_at(ts, i as int) {
        TokenV::Keyword(Keyword::Const) => emit(parse_declaration(ts, i, true), stack),
        TokenV::Keyword(Keyword::Let) => emit(parse_declaration(ts, i, false), stack),
        TokenV::Keyword(Keyword::External) => parse_function(ts, i, stack, true),
        TokenV::Keyword(Keyword::Function) => parse_function(ts, i, stack, false),
        TokenV::Keyword(Keyword::Call) => emit(parse_call(ts, i), stack),
        TokenV::Identifier(IdentifierV::Variable(w)) => if w == if_word() {
            parse_if(ts, i, stack)
        } else {
            Ok(Step { next: i + 1, stack, stmt: None })
        },
        TokenV::Identifier(IdentifierV::Register(r)) => emit(parse_assign(ts, i, r, false), stack),
        TokenV::Identifier(IdentifierV::DerefRegister(r)) => emit(parse_assign(ts, i, r, true), stack),
        TokenV::Separator(Separator::CloseBrace) => if stack.len() < 2 {
            Err(ParseErrorKind::UnmatchedBrace)
        } else {
            Ok(
                Step {
                    next: i + 1,
                    stack: add_to_top(stack.drop_last(), StatementV::Scoped { scoped: stack.last() }),
                    stmt: None,
                },
            )
        },
        TokenV::Inline(b) => Ok(
            Step { next: i + 1, stack, stmt: Some(StatementV::InlineAssembly { instructions: b }) },
        ),
        _ => Ok(Step { next: i + 1, stack, stmt: None }),
    }
}

pub proof fn lemma_parse_step_advances(ts: Seq<TokenV>, i: nat, stack: Seq<ScopeV>)
    requires
        i < ts.len(),
    ensures
        parse_step(ts, i, stack) matches Ok(step) ==> i < step.next <= ts.len(),
{
    lemma_scan_end_bounds(ts, i + 1, comparison());
    if i + 2 <= ts.len() {
        lemma_scan_end_bounds(ts, i + 2, assign_or_newline());
        lemma_scan_end_bounds(ts, i + 2, end_of_line());
        let d = scan_end(ts, i + 2, assign_or_newline());
        if d < ts.len() {
            lemma_scan_end_bounds(ts, d + 1, end_of_line());
        }
    }
    let c = scan_end(ts, i + 1, comparison());
    if c < ts.len() {
        lemma_scan_end_bounds(ts, c + 1, open_brace());
    }
}

/// Parses statements from `i` on, with `stack` as the scopes opened so far;
/// the result is the final stack, which holds the global scope alone.
pub open spec fn parse_from(ts: Seq<TokenV>, i: nat, stack: Seq<ScopeV>) -> Result<
    Seq<ScopeV>,
    (ParseErrorKind, nat),
>
    decreases ts.len() - i,
{
    if tok_at(ts, i as int) is Eof {
        if stack.len() == 1 {
            Ok(stack)
        } else {
            Err((ParseErrorKind::UnclosedScope, i))
        }
    } else {
        match parse_step(ts, i, stack) {
            Err(kind) => Err((kind, i)),
            Ok(step) => {
                proof {
                    lemma_parse_step_advances(ts, i, stack);
                }
                parse_from(
                    ts,
                    step.next,
                    match step.stmt {
                        Some(st) => add_to_top(step.stack, st),
                        None => step.stack,
                    },
                )
            },
        }
    }
}

pub open spec fn global_stack() -> Seq<ScopeV> {
    seq![ScopeV { kind: ScopeKindV::Global, body: Seq::empty() }]
}

/// Parses a whole token sequence into its global scope.
pub open spec fn parse_tokens(ts: Seq<TokenV>) -> Result<ScopeV, (ParseErrorKind, nat)> {
    match parse_from(ts, 0, global_stack()) {
        Ok(stack) => Ok(stack[0]),
        Err(e) => Err(e),
    }
}

/// The invariants of the scope stack: the global scope at the base and
/// nowhere else, and at most one function scope open.
pub open spec fn stack_wf(stack: Seq<ScopeV>) -> bool {
    &&& stack.len() >= 1
    &&& stack[0].kind is Global
    &&& forall|k: int| 1 <= k < stack.len() ==> (#[trigger] stack[k]).kind !is Global
    &&& forall|j: int, k: int|
        0 <= j < k < stack.len() && (#[trigger] stack[j]).kind is Fn ==> (#[trigger] stack[k]).kind !is Fn
}

/// The stack after a step, with its statement added to the innermost scope.
pub open spec fn stack_after(step: Step) -> Seq<ScopeV> {
    match step.stmt {
        Some(st) => add_to_top(step.stack, st),
        None => step.stack,
    }
}

/// Every statement keeps the invariants of the scope stack: a function
/// cannot open inside another, and no brace closes the global scope.
pub proof fn lemma_parse_step_keeps_stack_wf(ts: Seq<TokenV>, i: nat, stack: Seq<ScopeV>)
    requires
        stack_wf(stack),
    ensures
        parse_step(ts, i, stack) matches Ok(step) ==> stack_wf(stack_after(step)),
{
    if let Ok(step) = parse_step(ts, i, stack) {
        let next = stack_after(step);
        if step.stack.len() == stack.len() + 1 {
            assert(step.stack.drop_last() =~= stack);
            assert(step.stmt is None);
            if step.stack.last().kind is Fn {
                assert(!has_function(stack));
            }
            assert forall|j: int, k: int|
                0 <= j < k < next.len() && (#[trigger] next[j]).kind is Fn implies (
                #[trigger] next[k]).kind !is Fn by {
                if k == next.len() - 1 && next[k].kind is Fn {
                    assert(has_function(stack)) by {
                        assert(stack[j].kind is Fn);
                    }
                }
            }
        } else if step.stack.len() + 1 == stack.len() {
            assert forall|k: int| 0 <= k < next.len() implies (#[trigger] next[k]).kind == stack[k].kind by {}
        } else {
            assert forall|k: int| 0 <= k < next.len() implies (#[trigger] next[k]).kind == stack[k].kind by {}
        }
    }
}

/// A `let` parses without a value only together with its type and count.
pub proof fn lemma_unvalued_let_is_sized(ts: Seq<TokenV>, i: nat, stack: Seq<ScopeV>)
    ensures
        parse_step(ts, i, stack) matches Ok(step) ==> (step.stmt matches Some(
            StatementV::NewLet { literal: None, v_type, .. },
        ) ==> v_type is Some),
{
}

/// Parsing from a well-formed stack meets only well-formed stacks; at the end
/// the global scope stands alone.
pub proof fn lemma_parse_from_keeps_stack_wf(ts: Seq<TokenV>, i: nat, stack: Seq<ScopeV>)
    requires
        stack_wf(stack),
    ensures
        parse_from(ts, i, stack) matches Ok(st) ==> stack_wf(st) && st.len() == 1,
    decreases ts.len() - i,
{
    if !(tok_at(ts, i as int) is Eof) {
        if let Ok(step) = parse_step(ts, i, stack) {
            lemma_parse_step_advances(ts, i, stack);
            lemma_parse_step_keeps_stack_wf(ts, i, stack);
            lemma_parse_from_keeps_stack_wf(ts, step.next, stack_after(step));
        }
    }
}

pub open spec fn scopes_view(v: Seq<ScopeImpl>) -> Seq<ScopeV> {
    v.map_values(|s: ScopeImpl| s@)
}

pub open spec fn statement_opt_view(s: Option<Statement>) -> Option<StatementV> {
    match s {
        Some(s) => Some(s@),
        None => None,
    }
}

proof fn lemma_push_statement(v: &Vec<Statement>, w: &Vec<Statement>, s: Statement)
    requires
        w@ == v@.push(s),
    ensures
        statements_view(w, w.len() as nat) == statements_view(v, v.len() as nat).push(s@),
{
    lemma_statements_view(v, v.len() as nat);
    lemma_statements_view(w, w.len() as nat);
    assert(statements_view(w, w.len() as nat) =~= statements_view(v, v.len() as nat).push(s@));
}

/// Whether `t` is one of `tks`.
fn is_stop(tks: &[Token], t: &Token) -> (r: bool)
    ensures
        r == tokens_view(tks@).contains(t@),
{
    let ghost stops = tokens_view(tks@);
    let mut j: usize = 0;
    while j < tks.len()
        invariant
            j <= tks@.len(),
            stops == tokens_view(tks@),
            forall|k: int| 0 <= k < j ==> stops[k] != t@,
        decreases tks@.len() - j,
    {
        assert(stops[j as int] == tks@[j as int]@);
        if t.eq(&tks[j]) {
            return true;
        }
        j = j + 1;
    }
    false
}

fn assign_or_newline_tokens() -> (r: Vec<Token>)
    ensures
        tokens_view(r@) == assign_or_newline(),
{
    let r = vec![Token::Operator(Operator::Assign), Token::Newline, Token::Eof];
    assert(tokens_view(r@) =~= assign_or_newline());
    r
}

fn end_of_line_tokens() -> (r: Vec<Token>)
    ensures
        tokens_view(r@) == end_of_line(),
{
    let r = vec![Token::Newline, Token::Eof];
    assert(tokens_view(r@) =~= end_of_line());
    r
}

fn comparison_tokens() -> (r: Vec<Token>)
    ensures
        tokens_view(r@) == comparison(),
{
    let r = vec![Token::Operator(Operator::Equal), Token::Operator(Operator::NotEqual), Token::Eof];
    assert(tokens_view(r@) =~= comparison());
    r
}

fn open_brace_tokens() -> (r: Vec<Token>)
    ensures
        tokens_view(r@) == open_brace(),
{
    let r = vec![Token::Separator(Separator::OpenBrace), Token::Eof];
    assert(tokens_view(r@) =~= open_brace());
    r
}

/// A cursor over a token sequence and the stack of scopes opened so far.
pub struct Parser<'a> {
    pub tokens: &'a Vec<Token>,
    pub idx: usize,
    pub scope_stack: Vec<ScopeImpl>,
}

impl<'a> Parser<'a> {
    pub open spec fn ts(&self) -> Seq<TokenV> {
        tokens_view(self.tokens@)
    }

    pub open spec fn stack(&self) -> Seq<ScopeV> {
        scopes_view(self.scope_stack@)
    }

    /// Parses `tokens` into a stack that holds the global scope alone.
    pub fn new(tokens: &'a Vec<Token>) -> (r: Result<Parser<'a>, ParseError>)
        ensures
            match parse_from(tokens_view(tokens@), 0, global_stack()) {
                Ok(stack) => r matches Ok(p) && p.stack() == stack && p.scope_stack@.len() == 1
                    && stack_wf(p.stack()),
                Err((kind, at)) => r matches Err(e) && e.kind == kind && e.at == at,
            },
    {
        let mut parser = Parser {
            tokens,
            idx: 0,
            scope_stack: vec![ScopeImpl { scope_type: ScopeImplType::Global, scope: Vec::new() }],
        };
        assert(parser.stack() =~= global_stack());
        proof {
            lemma_parse_from_keeps_stack_wf(tokens_view(tokens@), 0, global_stack());
        }
        match parser.find_statements() {
            Ok(()) => Ok(parser),
            Err(e) => Err(e),
        }
    }

    pub fn next(&mut self) -> (r: &'a Token)
        requires
            old(self).idx < old(self).tokens.len(),
        ensures
            *r == old(self).tokens@[old(self).idx as int],
            final(self).idx == old(self).idx + 1,
            final(self).tokens == old(self).tokens,
            final(self).scope_stack == old(self).scope_stack,
    {
        let tokens: &'a Vec<Token> = self.tokens;
        let ntoken: &'a Token = &tokens[self.idx];
        self.idx = self.idx + 1;
        ntoken
    }

    pub fn peek(&self) -> (r: Option<&'a Token>)
        ensures
            match r {
                Some(t) => self.idx < self.tokens.len() && *t == self.tokens@[self.idx as int],
                None => self.idx >= self.tokens.len(),
            },
    {
        let tokens: &'a Vec<Token> = self.tokens;
        if self.idx >= tokens.len() {
            None
        } else {
            Some(&tokens[self.idx])
        }
    }

    /// Parses statements up to the end of input.
    pub fn find_statements(&mut self) -> (r: Result<(), ParseError>)
        requires
            old(self).idx <= old(self).tokens.len(),
            old(self).scope_stack@.len() >= 1,
        ensures
            final(self).tokens == old(self).tokens,
            match parse_from(old(self).ts(), old(self).idx as nat, old(self).stack()) {
                Ok(stack) => r is Ok && final(self).stack() == stack,
                Err((kind, at)) => r matches Err(e) && e.kind == kind && e.at == at,
            },
    {
        let ghost ts = self.ts();
        let ghost whole = parse_from(ts, self.idx as nat, self.stack());
        loop
            invariant
                whole == parse_from(old(self).ts(), old(self).idx as nat, old(self).stack()),
                self.tokens == old(self).tokens,
                self.scope_stack@.len() >= 1,
                ts == self.ts(),
                self.idx <= self.tokens.len(),
                parse_from(ts, self.idx as nat, self.stack()) == whole,
            decreases ts.len() - self.idx,
        {
            let head = self.peek();
            let at_end = match head {
                None => true,
                Some(Token::Eof) => true,
                _ => false,
            };
            assert(at_end == tok_at(ts, self.idx as int) is Eof);
            assert(at_end || self.idx < self.tokens.len());
            if at_end {
                if self.scope_stack.len() == 1 {
                    return Ok(());
                } else {
                    return Err(ParseError { kind: ParseErrorKind::UnclosedScope, at: self.idx });
                }
            }
            proof {
                lemma_parse_step_advances(ts, self.idx as nat, self.stack());
            }
            match self.get_statement() {
                Err(e) => {
                    return Err(e);
                },
                Ok(Some(s)) => {
                    self.add_statement(s);
                },
                Ok(None) => {},
            }
        }
    }

    /// Parses the statement that starts at the cursor.
    pub fn get_statement(&mut self) -> (r: Result<Option<Statement>, ParseError>)
        requires
            old(self).idx < old(self).tokens.len(),
        ensures
            final(self).tokens == old(self).tokens,
            match parse_step(old(self).ts(), old(self).idx as nat, old(self).stack()) {
                Ok(step) => r matches Ok(o) && final(self).idx == step.next && final(self).stack()
                    == step.stack && statement_opt_view(o) == step.stmt,
                Err(kind) => r matches Err(e) && e.kind == kind && e.at == old(self).idx
                    && final(self).scope_stack == old(self).scope_stack,
            },
    {
        let start = self.idx;
        let tokens: &'a Vec<Token> = self.tokens;
        let t: &'a Token = &tokens[start];
        assert(self.ts()[start as int] == t@);
        match t {
            Token::Keyword(Keyword::Const) => match self.parse_declaration(true) {
                Ok(s) => Ok(Some(s)),
                Err(kind) => Err(ParseError { kind, at: start }),
            },
            Token::Keyword(Keyword::Let) => match self.parse_declaration(false) {
                Ok(s) => Ok(Some(s)),
                Err(kind) => Err(ParseError { kind, at: start }),
            },
            Token::Keyword(Keyword::External) => {
                self.idx = start + 1;
                let is_fn = match self.peek() {
                    Some(Token::Keyword(k)) => *k == Keyword::Function,
                    _ => false,
                };
                if !is_fn {
                    return Err(ParseError { kind: ParseErrorKind::UnexpectedToken, at: start });
                }
                self.idx = start + 2;
                match self.open_function(true) {
                    Ok(()) => Ok(None),
                    Err(kind) => Err(ParseError { kind, at: start }),
                }
            },
            Token::Keyword(Keyword::Function) => {
                self.idx = start + 1;
                match self.open_function(false) {
                    Ok(()) => Ok(None),
                    Err(kind) => Err(ParseError { kind, at: start }),
                }
            },
            Token::Keyword(Keyword::Call) => match self.parse_call() {
                Ok(s) => Ok(Some(s)),
                Err(kind) => Err(ParseError { kind, at: start }),
            },
            Token::Identifier(Identifier::Variable(w)) => {
                if bytes_eq(w.as_slice(), &[0x69u8, 0x66]) {
                    match self.parse_if() {
                        Ok(()) => Ok(None),
                        Err(kind) => Err(ParseError { kind, at: start }),
                    }
                } else {
                    self.idx = start + 1;
                    Ok(None)
                }
            },
            Token::Identifier(Identifier::Register(r)) => match self.parse_assign(r.clone(), false) {
                Ok(s) => Ok(Some(s)),
                Err(kind) => Err(ParseError { kind, at: start }),
            },
            Token::Identifier(Identifier::DerefRegister(r)) => match self.parse_assign(r.clone(), true) {
                Ok(s) => Ok(Some(s)),
                Err(kind) => Err(ParseError { kind, at: start }),
            },
            Token::Separator(Separator::CloseBrace) => {
                if self.scope_stack.len() < 2 {
                    return Err(ParseError { kind: ParseErrorKind::UnmatchedBrace, at: start });
                }
                self.idx = start + 1;
                let ghost before = self.scope_stack@;
                match self.scope_stack.pop() {
                    Some(done) => {
                        assert(self.stack() =~= scopes_view(before).drop_last());
                        self.add_statement(Statement::Scoped { scoped: done });
                        Ok(None)
                    },
                    None => Ok(None),
                }
            },
            Token::Inline(b) => {
                self.idx = start + 1;
                Ok(Some(Statement::InlineAssembly { instructions: b.clone() }))
            },
            _ => {
                self.idx = start + 1;
                Ok(None)
            },
        }
    }

    fn parse_declaration(&mut self, is_const: bool) -> (r: Result<Statement, ParseErrorKind>)
        requires
            old(self).idx < old(self).tokens.len(),
        ensures
            final(self).tokens == old(self).tokens,
            final(self).scope_stack == old(self).scope_stack,
            match parse_declaration(old(self).ts(), old(self).idx as nat, is_const) {
                Ok((l, st)) => r matches Ok(s) && s@ == st && final(self).idx == l,
                Err(kind) => r == Err::<Statement, ParseErrorKind>(kind),
            },
    {
        let ghost ts = self.ts();
        let ghost i = self.idx;
        self.idx = self.idx + 1;
        let name = match self.peek() {
            Some(Token::Identifier(Identifier::Variable(n))) => n.clone(),
            _ => {
                return Err(ParseErrorKind::UnexpectedToken);
            },
        };
        self.idx = self.idx + 1;
        let suffix = self.take_to_tokens(assign_or_newline_tokens().as_slice());
        let desc = get_v_description(&suffix);
        let malformed = match desc {
            Some(_) => false,
            None => suffix.len() > 0,
        };
        if malformed {
            return Err(ParseErrorKind::MalformedDeclaration);
        }
        let at_assign = match self.peek() {
            Some(Token::Operator(o)) => *o == Operator::Assign,
            _ => false,
        };
        if at_assign {
            self.idx = self.idx + 1;
            let literal_tokens = self.take_to_tokens(end_of_line_tokens().as_slice());
            match get_literal(&literal_tokens) {
                Some(literal) => if is_const {
                    Ok(Statement::NewConst { name, literal, v_type: desc })
                } else {
                    Ok(Statement::NewLet { name, literal: Some(literal), v_type: desc })
                },
                None => Err(ParseErrorKind::MalformedDeclaration),
            }
        } else if is_const {
            Err(ParseErrorKind::MalformedDeclaration)
        } else {
            match desc {
                Some(_) => Ok(Statement::NewLet { name, literal: None, v_type: desc }),
                None => Err(ParseErrorKind::MissingStorageSize),
            }
        }
    }

    fn has_function(&self) -> (r: bool)
        ensures
            r == has_function(self.stack()),
    {
        let mut k: usize = 0;
        while k < self.scope_stack.len()
            invariant
                k <= self.scope_stack@.len(),
                forall|j: int| 0 <= j < k ==> (#[trigger] self.stack()[j]).kind !is Fn,
            decreases self.scope_stack@.len() - k,
        {
            let is_fn = match &self.scope_stack[k].scope_type {
                ScopeImplType::Fn { .. } => true,
                _ => false,
            };
            assert(self.stack()[k as int] == self.scope_stack@[k as int]@);
            if is_fn {
                return true;
            }
            k = k + 1;
        }
        false
    }

    /// Opens a function scope named by `name`, unless a function is open already.
    pub fn create_function(&mut self, name: &Token, external: bool) -> (r: Result<(), ParseErrorKind>)
        ensures
            final(self).tokens == old(self).tokens,
            r is Err ==> final(self).scope_stack == old(self).scope_stack,
            final(self).idx == old(self).idx,
            match name@ {
                TokenV::Identifier(IdentifierV::Variable(n)) => if has_function(old(self).stack()) {
                    r == Err::<(), ParseErrorKind>(ParseErrorKind::NestedFunction)
                } else {
                    r is Ok && final(self).stack() == open_scope(
                        old(self).stack(),
                        ScopeKindV::Fn { name: n, external },
                    )
                },
                _ => r == Err::<(), ParseErrorKind>(ParseErrorKind::UnexpectedToken),
            },
    {
        let name = match name {
            Token::Identifier(Identifier::Variable(n)) => n.clone(),
            _ => {
                return Err(ParseErrorKind::UnexpectedToken);
            },
        };
        if self.has_function() {
            return Err(ParseErrorKind::NestedFunction);
        }
        let ghost before = self.scope_stack@;
        self.scope_stack.push(
            ScopeImpl { scope_type: ScopeImplType::Fn { name, external }, scope: Vec::new() },
        );
        assert(self.stack() =~= open_scope(scopes_view(before), ScopeKindV::Fn { name: name@, external }));
        Ok(())
    }

    /// Opens the function scope whose name stands at the cursor.
    fn open_function(&mut self, external: bool) -> (r: Result<(), ParseErrorKind>)
        ensures
            final(self).tokens == old(self).tokens,
            r is Err ==> final(self).scope_stack == old(self).scope_stack,
            match tok_at(old(self).ts(), old(self).idx as int) {
                TokenV::Identifier(IdentifierV::Variable(name)) => if has_function(old(self).stack()) {
                    r == Err::<(), ParseErrorKind>(ParseErrorKind::NestedFunction)
                } else {
                    r is Ok && final(self).idx == old(self).idx + 1 && final(self).stack()
                        == open_scope(old(self).stack(), ScopeKindV::Fn { name, external })
                },
                _ => r == Err::<(), ParseErrorKind>(ParseErrorKind::UnexpectedToken),
            },
    {
        match self.peek() {
            Some(name) => {
                match self.create_function(name, external) {
                    Ok(()) => {},
                    Err(kind) => {
                        return Err(kind);
                    },
                }
                self.idx = self.idx + 1;
                Ok(())
            },
            None => Err(ParseErrorKind::UnexpectedToken),
        }
    }

    fn parse_call(&mut self) -> (r: Result<Statement, ParseErrorKind>)
        requires
            old(self).idx < old(self).tokens.len(),
        ensures
            final(self).tokens == old(self).tokens,
            final(self).scope_stack == old(self).scope_stack,
            match parse_call(old(self).ts(), old(self).idx as nat) {
                Ok((l, st)) => r matches Ok(s) && s@ == st && final(self).idx == l,
                Err(kind) => r == Err::<Statement, ParseErrorKind>(kind),
            },
    {
        self.idx = self.idx + 1;
        let open = match self.peek() {
            Some(Token::Separator(sp)) => *sp == Separator::OpenParentheses,
            _ => false,
        };
        if !open {
            return Err(ParseErrorKind::UnexpectedToken);
        }
        self.idx = self.idx + 1;
        let f = match self.peek() {
            Some(Token::Identifier(Identifier::Variable(f))) => f.clone(),
            _ => {
                return Err(ParseErrorKind::UnexpectedToken);
            },
        };
        self.idx = self.idx + 1;
        let close = match self.peek() {
            Some(Token::Separator(sp)) => *sp == Separator::CloseParentheses,
            _ => false,
        };
        if !close {
            return Err(ParseErrorKind::UnexpectedToken);
        }
        self.idx = self.idx + 1;
        Ok(Statement::Call { f })
    }

    fn parse_if(&mut self) -> (r: Result<(), ParseErrorKind>)
        requires
            old(self).idx < old(self).tokens.len(),
        ensures
            final(self).tokens == old(self).tokens,
            r is Err ==> final(self).scope_stack == old(self).scope_stack,
            match parse_if(old(self).ts(), old(self).idx as nat, old(self).stack()) {
                Ok(step) => r is Ok && final(self).idx == step.next && final(self).stack() == step.stack,
                Err(kind) => r == Err::<(), ParseErrorKind>(kind),
            },
    {
        self.idx = self.idx + 1;
        let left_tokens = self.take_to_tokens(comparison_tokens().as_slice());
        let left = match self.parse_expression(left_tokens) {
            Some(e) => e,
            None => {
                return Err(ParseErrorKind::MalformedExpression);
            },
        };
        let condition = match self.peek() {
            Some(Token::Operator(o)) => *o,
            _ => {
                return Err(ParseErrorKind::UnexpectedToken);
            },
        };
        self.idx = self.idx + 1;
        let right_tokens = self.take_to_tokens(open_brace_tokens().as_slice());
        let right = match self.parse_expression(right_tokens) {
            Some(e) => e,
            None => {
                return Err(ParseErrorKind::MalformedExpression);
            },
        };
        let brace = match self.peek() {
            Some(Token::Separator(sp)) => *sp == Separator::OpenBrace,
            _ => false,
        };
        if !brace {
            return Err(ParseErrorKind::UnexpectedToken);
        }
        self.idx = self.idx + 1;
        let ghost before = self.scope_stack@;
        let ghost kind = ScopeKindV::If { left: left@, right: right@, condition };
        self.scope_stack.push(
            ScopeImpl { scope_type: ScopeImplType::If { left, right, condition }, scope: Vec::new() },
        );
        assert(self.stack() =~= open_scope(scopes_view(before), kind));
        Ok(())
    }

    fn parse_assign(&mut self, register: Vec<u8>, deref: bool) -> (r: Result<Statement, ParseErrorKind>)
        requires
            old(self).idx < old(self).tokens.len(),
        ensures
            final(self).tokens == old(self).tokens,
            final(self).scope_stack == old(self).scope_stack,
            match parse_assign(old(self).ts(), old(self).idx as nat, register@, deref) {
                Ok((l, st)) => r matches Ok(s) && s@ == st && final(self).idx == l,
                Err(kind) => r == Err::<Statement, ParseErrorKind>(kind),
            },
    {
        self.idx = self.idx + 1;
        let is_assign = match self.peek() {
            Some(Token::Operator(o)) => *o == Operator::Assign,
            _ => false,
        };
        if !is_assign {
            return Err(ParseErrorKind::UnexpectedToken);
        }
        self.idx = self.idx + 1;
        let expression_tokens = self.take_to_tokens(end_of_line_tokens().as_slice());
        match self.parse_expression(expression_tokens) {
            Some(expression) => if deref {
                Ok(Statement::RegisterDerefAssign { register, expression })
            } else {
                Ok(Statement::RegisterAssign { register, expression })
            },
            None => Err(ParseErrorKind::MalformedExpression),
        }
    }

    /// Parses a token slice as an expression.
    pub fn parse_expression(&self, tks: Vec<Token>) -> (r: Option<Expression>)
        ensures
            match parse_expr(tokens_view(tks@)) {
                Some(e) => r matches Some(x) && x@ == e,
                None => r is None,
            },
    {
        assert(tokens_view(tks@).subrange(0, tks@.len() as int) =~= tokens_view(tks@));
        parse_range(&tks, 0, tks.len())
    }

    /// Appends `s` to the innermost scope.
    pub fn add_statement(&mut self, s: Statement)
        requires
            old(self).scope_stack@.len() >= 1,
        ensures
            final(self).tokens == old(self).tokens,
            final(self).idx == old(self).idx,
            final(self).stack() == add_to_top(old(self).stack(), s@),
            final(self).scope_stack@.len() == old(self).scope_stack@.len(),
    {
        let ghost before = self.scope_stack@;
        match self.scope_stack.pop() {
            Some(mut top) => {
                let ghost body = top.scope;
                top.scope.push(s);
                proof {
                    lemma_push_statement(&body, &top.scope, s);
                }
                self.scope_stack.push(top);
                assert(self.stack() =~= add_to_top(scopes_view(before), s@));
            },
            None => {},
        }
    }

    /// The global scope.
    pub fn get_statements(&self) -> (r: &ScopeImpl)
        requires
            self.scope_stack@.len() >= 1,
        ensures
            *r == self.scope_stack@[0],
    {
        &self.scope_stack[0]
    }

    /// Takes the tokens from the cursor up to the first one among `tks`.
    pub fn take_to_tokens(&mut self, tks: &[Token]) -> (r: Vec<Token>)
        requires
            old(self).idx <= old(self).tokens.len(),
        ensures
            final(self).tokens == old(self).tokens,
            final(self).scope_stack == old(self).scope_stack,
            final(self).idx == scan_end(old(self).ts(), old(self).idx as nat, tokens_view(tks@)),
            tokens_view(r@) == old(self).ts().subrange(old(self).idx as int, final(self).idx as int),
    {
        let ghost ts = self.ts();
        let ghost start = self.idx;
        let mut taken: Vec<Token> = Vec::new();
        while self.idx < self.tokens.len() && !is_stop(tks, &self.tokens[self.idx])
            invariant
                self.tokens == old(self).tokens,
                self.scope_stack == old(self).scope_stack,
                ts == self.ts(),
                start <= self.idx <= ts.len(),
                scan_end(ts, self.idx as nat, tokens_view(tks@)) == scan_end(ts, start as nat, tokens_view(tks@)),
                tokens_view(taken@) == ts.subrange(start as int, self.idx as int),
            decreases ts.len() - self.idx,
        {
            let t = self.tokens[self.idx].copy();
            let ghost before = taken@;
            taken.push(t);
            assert(ts[self.idx as int] == self.tokens@[self.idx as int]@);
            self.idx = self.idx + 1;
            assert(tokens_view(taken@) =~= tokens_view(before).push(t@));
            assert(tokens_view(taken@) =~= ts.subrange(start as int, self.idx as int));
        }
        proof {
            if self.idx < ts.len() {
                assert(ts[self.idx as int] == self.tokens@[self.idx as int]@);
            }
        }
        taken
    }

    /// The tokens of `given_tks` up to the first one among `tks`.
    pub fn take_given_to_tokens(given_tks: &Vec<Token>, tks: &[Token]) -> (r: Vec<Token>)
        ensures
            tokens_view(r@) == tokens_view(given_tks@).subrange(
                0,
                scan_end(tokens_view(given_tks@), 0, tokens_view(tks@)) as int,
            ),
    {
        let ghost ts = tokens_view(given_tks@);
        let mut taken: Vec<Token> = Vec::new();
        let mut k: usize = 0;
        while k < given_tks.len() && !is_stop(tks, &given_tks[k])
            invariant
                k <= ts.len(),
                ts == tokens_view(given_tks@),
                scan_end(ts, k as nat, tokens_view(tks@)) == scan_end(ts, 0, tokens_view(tks@)),
                tokens_view(taken@) == ts.subrange(0, k as int),
            decreases ts.len() - k,
        {
            let t = given_tks[k].copy();
            let ghost before = taken@;
            taken.push(t);
            assert(ts[k as int] == given_tks@[k as int]@);
            k = k + 1;
            assert(tokens_view(taken@) =~= tokens_view(before).push(t@));
            assert(tokens_view(taken@) =~= ts.subrange(0, k as int));
        }
        proof {
            if k < ts.len() {
                assert(ts[k as int] == given_tks@[k as int]@);
            }
        }
        taken
    }
}

/// Parses a token sequence into its global scope.
pub fn parse(tokens: &Vec<Token>) -> (r: Result<ScopeImpl, ParseError>)
    ensures
        match parse_tokens(tokens_view(tokens@)) {
            Ok(root) => r matches Ok(s) && s@ == root,
            Err((kind, at)) => r matches Err(e) && e.kind == kind && e.at == at,
        },
{
    match Parser::new(tokens) {
        Ok(mut parser) => {
            let ghost stack = parser.scope_stack@;
            match parser.scope_stack.pop() {
                Some(root) => {
                    assert(stack[0] == root);
                    Ok(root)
                },
                None => Err(ParseError { kind: ParseErrorKind::UnclosedScope, at: 0 }),
            }
        },
        Err(e) => Err(e),
    }
}

} // verus!
