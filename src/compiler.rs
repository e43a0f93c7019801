//! The code generator: a scope tree to four sections of assembly text.

use vstd::prelude::*;
use crate::combinator::{decimal, push_decimal, NEWLINE};
use crate::parser::{
    lemma_statements_view, size_symbol, size_symbol_of, ExprV, Expression,
    ScopeImpl, ScopeImplType, ScopeKindV, ScopeV, Statement, StatementV,
};
use crate::tokenizer::{Literal, LiteralV, Operator, Type};

verus! {

broadcast use vstd::std_specs::vec::axiom_vec_index_decreases;

/// Why an expression or a declaration has no code.
#[derive(Debug, Clone, Copy, PartialEq, Eq, Structural)]
pub enum GenError {
    /// The operator has no rule for the shapes of its operands.
    Unsupported,
    /// A variable, a size symbol or a unary operation where a value is needed.
    NotComputable,
    /// Folding two numbers overflows.
    FoldOverflow,
    /// Storage declared with neither a value nor a size.
    UnsizedStorage,
}

/// What an expression reduces to: an immediate or a register.
#[derive(Debug)]
pub enum Operand {
    Number(u64),
    Register(Vec<u8>),
}

/// The value of an `Operand`.
pub enum OperandV {
    Number(u64),
    Register(Seq<u8>),
}

impl View for Operand {
    type V = OperandV;

    open spec fn view(&self) -> OperandV {
        match self {
            Operand::Number(v) => OperandV::Number(*v),
            Operand::Register(r) => OperandV::Register(r@),
        }
    }
}

pub open spec fn mov_text() -> Seq<u8> {
    seq![0x6du8, 0x6f, 0x76]
}

pub open spec fn add_text() -> Seq<u8> {
    seq![0x61u8, 0x64, 0x64]
}

pub open spec fn sub_text() -> Seq<u8> {
    seq![0x73u8, 0x75, 0x62]
}

pub open spec fn lea_text() -> Seq<u8> {
    seq![0x6cu8, 0x65, 0x61]
}

pub open spec fn cmp_text() -> Seq<u8> {
    seq![0x63u8, 0x6d, 0x70]
}

/// One instruction line: `MNEMONIC DST, SRC` and a line feed.
pub open spec fn instr(mnemonic: Seq<u8>, dst: Seq<u8>, src: Seq<u8>) -> Seq<u8> {
    mnemonic + seq![0x20u8] + dst + seq![0x2cu8, 0x20] + src + seq![NEWLINE]
}

/// `[r]`
pub open spec fn bracketed(r: Seq<u8>) -> Seq<u8> {
    seq![0x5bu8] + r + seq![0x5du8]
}

/// `byte [r]`
pub open spec fn byte_at(r: Seq<u8>) -> Seq<u8> {
    seq![0x62u8, 0x79, 0x74, 0x65, 0x20] + bracketed(r)
}

pub open spec fn operand_text(a: OperandV) -> Seq<u8> {
    match a {
        OperandV::Number(v) => decimal(v as nat),
        OperandV::Register(r) => r,
    }
}

/// Two numbers folded at compile time.
pub open spec fn fold(o: Operator, a: u64, b: u64) -> Result<u64, GenError> {
    match o {
        Operator::Add => if a + b <= u64::MAX {
            Ok((a + b) as u64)
        } else {
            Err(GenError::FoldOverflow)
        },
        Operator::Multiply => if a * b <= u64::MAX {
            Ok((a * b) as u64)
        } else {
            Err(GenError::FoldOverflow)
        },
        _ => Err(GenError::Unsupported),
    }
}

/// The instruction that applies `o` with an immediate to a register.
pub open spec fn reg_imm_text(o: Operator, r: Seq<u8>, v: u64) -> Result<Seq<u8>, GenError> {
    match o {
        Operator::Add => Ok(instr(add_text(), r, decimal(v as nat))),
        Operator::Multiply => Ok(
            instr(lea_text(), r, bracketed(r + seq![0x2au8] + decimal(v as nat))),
        ),
        Operator::Subtract => Ok(instr(sub_text(), r, decimal(v as nat))),
        _ => Err(GenError::Unsupported),
    }
}

/// The instruction that applies `o` to two registers.
pub open spec fn reg_reg_text(o: Operator, r1: Seq<u8>, r2: Seq<u8>) -> Result<Seq<u8>, GenError> {
    match o {
        Operator::Add => Ok(instr(add_text(), r1, r2)),
        Operator::Subtract => Ok(instr(sub_text(), r1, r2)),
        _ => Err(GenError::Unsupported),
    }
}

/// Reduces an expression to an operand and the instructions that compute it:
/// the right operand first, then the left, then the pair by its shapes.
pub open spec fn reduce(e: ExprV) -> Result<(OperandV, Seq<u8>), GenError>
    decreases e,
{
    match e {
        ExprV::Binary { left, right, operator } => match reduce(*right) {
            Err(x) => Err(x),
            Ok((ar, cr)) => match reduce(*left) {
                Err(x) => Err(x),
                Ok((al, cl)) => {
                    let code = cr + cl;
                    match (al, ar) {
                        (OperandV::Number(a), OperandV::Number(b)) => match fold(operator, a, b) {
                            Ok(v) => Ok((OperandV::Number(v), code)),
                            Err(x) => Err(x),
                        },
                        (OperandV::Register(r), OperandV::Number(v)) => match reg_imm_text(
                            operator,
                            r,
                            v,
                        ) {
                            Ok(t) => Ok((OperandV::Register(r), code + t)),
                            Err(x) => Err(x),
                        },
                        (OperandV::Number(v), OperandV::Register(r)) => match reg_imm_text(
                            operator,
                            r,
                            v,
                        ) {
                            Ok(t) => Ok((OperandV::Register(r), code + t)),
                            Err(x) => Err(x),
                        },
                        (OperandV::Register(r1), OperandV::Register(r2)) => match reg_reg_text(
                            operator,
                            r1,
                            r2,
                        ) {
                            Ok(t) => Ok((OperandV::Register(r1), code + t)),
                            Err(x) => Err(x),
                        },
                    }
                },
            },
        },
        ExprV::Number { value } => Ok((OperandV::Number(value), Seq::empty())),
        ExprV::Register { reg } => Ok((OperandV::Register(reg), Seq::empty())),
        _ => Err(GenError::NotComputable),
    }
}

/// Adding an immediate to a register, in either order, reduces to that
/// register and exactly one `add` line into it.
pub proof fn lemma_register_add_immediate(r: Seq<u8>, v: u64)
    ensures
        reduce(
            ExprV::Binary {
                left: Box::new(ExprV::Register { reg: r }),
                right: Box::new(ExprV::Number { value: v }),
                operator: Operator::Add,
            },
        ) == Ok::<(OperandV, Seq<u8>), GenError>(
            (OperandV::Register(r), instr(add_text(), r, decimal(v as nat))),
        ),
        reduce(
            ExprV::Binary {
                left: Box::new(ExprV::Number { value: v }),
                right: Box::new(ExprV::Register { reg: r }),
                operator: Operator::Add,
            },
        ) == Ok::<(OperandV, Seq<u8>), GenError>(
            (OperandV::Register(r), instr(add_text(), r, decimal(v as nat))),
        ),
{
    reveal_with_fuel(reduce, 2);
    let empty = Seq::<u8>::empty();
    assert(empty + empty + instr(add_text(), r, decimal(v as nat)) =~= instr(add_text(), r, decimal(v as nat)));
}

/// Two numbers joined by `+` or `*` fold to one number and no instructions.
pub proof fn lemma_numbers_fold(a: u64, b: u64, o: Operator)
    requires
        o == Operator::Add || o == Operator::Multiply,
        fold(o, a, b) is Ok,
    ensures
        reduce(
            ExprV::Binary {
                left: Box::new(ExprV::Number { value: a }),
                right: Box::new(ExprV::Number { value: b }),
                operator: o,
            },
        ) == Ok::<(OperandV, Seq<u8>), GenError>(
            (OperandV::Number(fold(o, a, b)->Ok_0), Seq::empty()),
        ),
{
    reveal_with_fuel(reduce, 2);
    assert(Seq::<u8>::empty() + Seq::<u8>::empty() =~= Seq::<u8>::empty());
}

/// The text of `$dst = e` (`deref`: `$*dst = e`).
pub open spec fn assign_text(dst: Seq<u8>, deref: bool, e: ExprV) -> Result<Seq<u8>, GenError> {
    match e {
        ExprV::Variable { var } => Ok(
            instr(
                mov_text(),
                if deref {
                    bracketed(dst)
                } else {
                    dst
                },
                var,
            ),
        ),
        _ => match reduce(e) {
            Ok((a, code)) => Ok(
                code + instr(
                    mov_text(),
                    if deref {
                        byte_at(dst)
                    } else {
                        dst
                    },
                    operand_text(a),
                ),
            ),
            Err(x) => Err(x),
        },
    }
}

/// The local label numbered `n`: `._n_`.
pub open spec fn label(n: nat) -> Seq<u8> {
    seq![0x2eu8, 0x5f] + decimal(n) + seq![0x5fu8]
}

/// The branch past a conditional's body: taken when the comparison fails.
pub open spec fn branch_text(condition: Operator, n: nat) -> Seq<u8> {
    match condition {
        Operator::NotEqual => seq![0x6au8, 0x65, 0x20] + label(n) + seq![NEWLINE],
        Operator::Equal => seq![0x6au8, 0x6e, 0x65, 0x20] + label(n) + seq![NEWLINE],
        _ => Seq::empty(),
    }
}

pub open spec fn is_conditional(st: StatementV) -> bool {
    st matches StatementV::Scoped { scoped } && scoped.kind is If
}

/// The text of one statement of a function or conditional body, with `n` the
/// number of its label if it is a conditional.
pub open spec fn statement_text(st: StatementV, n: nat) -> Result<Seq<u8>, GenError>
    decreases st, 0nat,
{
    match st {
        StatementV::InlineAssembly { instructions } => Ok(instructions + seq![NEWLINE]),
        StatementV::RegisterAssign { register, expression } => assign_text(register, false, expression),
        StatementV::RegisterDerefAssign { register, expression } => assign_text(
            register,
            true,
            expression,
        ),
        StatementV::Call { f } => Ok(seq![0x63u8, 0x61, 0x6c, 0x6c, 0x20] + f + seq![NEWLINE]),
        StatementV::Scoped { scoped } => match scoped.kind {
            ScopeKindV::If { left, right, condition } => match reduce(left) {
                Err(x) => Err(x),
                Ok((al, cl)) => match reduce(right) {
                    Err(x) => Err(x),
                    Ok((ar, cr)) => match body_text(scoped.body, 0, 0) {
                        Err(x) => Err(x),
                        Ok(body) => Ok(
                            cl + cr + instr(cmp_text(), operand_text(al), operand_text(ar))
                                + branch_text(condition, n) + body + label(n) + seq![0x3au8, NEWLINE],
                        ),
                    },
                },
            },
            _ => Ok(Seq::empty()),
        },
        _ => Ok(Seq::empty()),
    }
}

/// The text of statements `k..` of a body, with `n` the number of the next label.
pub open spec fn body_text(b: Seq<StatementV>, k: nat, n: nat) -> Result<Seq<u8>, GenError>
    decreases b, b.len() - k,
{
    if k >= b.len() {
        Ok(Seq::empty())
    } else {
        match statement_text(b[k as int], n) {
            Err(x) => Err(x),
            Ok(t) => match body_text(
                b,
                k + 1,
                if is_conditional(b[k as int]) {
                    n + 1
                } else {
                    n
                },
            ) {
                Err(x) => Err(x),
                Ok(rest) => Ok(t + rest),
            },
        }
    }
}

/// The four sections of the output.
pub struct Sections {
    pub header: Seq<u8>,
    pub text: Seq<u8>,
    pub ro_data: Seq<u8>,
    pub bss: Seq<u8>,
}

pub open spec fn initial_sections() -> Sections {
    Sections {
        header: Seq::empty(),
        text: seq![0x73u8, 0x65, 0x63, 0x74, 0x69, 0x6f, 0x6e, 0x20, 0x2e, 0x74, 0x65, 0x78, 0x74, 0x0a],
        ro_data: seq![0x73u8, 0x65, 0x63, 0x74, 0x69, 0x6f, 0x6e, 0x20, 0x2e, 0x64, 0x61, 0x74, 0x61, 0x0a],
        bss: seq![0x73u8, 0x65, 0x63, 0x74, 0x69, 0x6f, 0x6e, 0x20, 0x2e, 0x62, 0x73, 0x73, 0x0a],
    }
}

/// `NAME_LEN equ $ - name` and a line feed.
pub open spec fn size_line(name: Seq<u8>) -> Seq<u8> {
    size_symbol(name) + seq![0x20u8, 0x65, 0x71, 0x75, 0x20, 0x24, 0x20, 0x2d, 0x20] + name + seq![NEWLINE]
}

/// `name: resb n` (or `resq` for 64-bit units) and a line feed.
pub open spec fn reserve_line(name: Seq<u8>, ty: Type, n: u64) -> Seq<u8> {
    name + match ty {
        Type::Uint8 => seq![0x3au8, 0x20, 0x72, 0x65, 0x73, 0x62, 0x20],
        Type::Uint64 => seq![0x3au8, 0x20, 0x72, 0x65, 0x73, 0x71, 0x20],
    } + decimal(n as nat) + seq![NEWLINE]
}

/// `name: db "bytes", 10` and a line feed.
pub open spec fn data_line(name: Seq<u8>, bytes: Seq<u8>) -> Seq<u8> {
    name + seq![0x3au8, 0x20, 0x64, 0x62, 0x20, 0x22] + bytes + seq![0x22u8, 0x2c, 0x20, 0x31, 0x30, NEWLINE]
}

/// `global name` and a line feed.
pub open spec fn export_line(name: Seq<u8>) -> Seq<u8> {
    seq![0x67u8, 0x6c, 0x6f, 0x62, 0x61, 0x6c, 0x20] + name + seq![NEWLINE]
}

pub open spec fn ret_text() -> Seq<u8> {
    seq![0x72u8, 0x65, 0x74, NEWLINE, NEWLINE]
}

/// What one statement of the global scope adds to the sections.
pub open spec fn global_statement(st: StatementV, acc: Sections) -> Result<Sections, GenError> {
    match st {
        StatementV::Scoped { scoped } => match scoped.kind {
            ScopeKindV::Fn { name, external } => match body_text(scoped.body, 0, 0) {
                Ok(body) => Ok(
                    Sections {
                        header: if external {
                            acc.header + export_line(name)
                        } else {
                            acc.header
                        },
                        text: acc.text + name + seq![0x3au8, NEWLINE] + body + ret_text(),
                        ro_data: acc.ro_data,
                        bss: acc.bss,
                    },
                ),
                Err(x) => Err(x),
            },
            _ => Ok(acc),
        },
        StatementV::NewLet { name, literal, v_type } => match literal {
            Some(_) => Ok(acc),
            None => match v_type {
                Some((ty, n)) => Ok(
                    Sections {
                        header: acc.header,
                        text: acc.text,
                        ro_data: acc.ro_data,
                        bss: acc.bss + reserve_line(name, ty, n) + size_line(name),
                    },
                ),
                None => Err(GenError::UnsizedStorage),
            },
        },
        StatementV::NewConst { name, literal, v_type } => match literal {
            LiteralV::Str(bytes) => Ok(
                Sections {
                    header: acc.header,
                    text: acc.text,
                    ro_data: acc.ro_data + data_line(name, bytes) + size_line(name),
                    bss: acc.bss,
                },
            ),
            _ => Ok(acc),
        },
        _ => Ok(acc),
    }
}

/// The sections after statements `k..` of the global scope.
pub open spec fn global_from(b: Seq<StatementV>, k: nat, acc: Sections) -> Result<Sections, GenError>
    decreases b.len() - k,
{
    if k >= b.len() {
        Ok(acc)
    } else {
        match global_statement(b[k as int], acc) {
            Ok(next) => global_from(b, k + 1, next),
            Err(x) => Err(x),
        }
    }
}

/// The output for a global scope.
pub open spec fn generate(root: ScopeV) -> Result<Sections, GenError> {
    global_from(root.body, 0, initial_sections())
}

pub open spec fn after(done: Seq<u8>, r: Result<Seq<u8>, GenError>) -> Result<Seq<u8>, GenError> {
    match r {
        Ok(t) => Ok(done + t),
        Err(x) => Err(x),
    }
}

/// Appends one instruction line.
fn push_instr(out: &mut Vec<u8>, mnemonic: &[u8], dst: &[u8], src: &[u8])
    ensures
        final(out)@ == old(out)@ + instr(mnemonic@, dst@, src@),
{
    out.extend_from_slice(mnemonic);
    out.push(0x20);
    out.extend_from_slice(dst);
    out.extend_from_slice(&[0x2cu8, 0x20]);
    out.extend_from_slice(src);
    out.push(NEWLINE);
    assert(final(out)@ =~= old(out)@ + instr(mnemonic@, dst@, src@));
}

fn bracket(r: &[u8]) -> (b: Vec<u8>)
    ensures
        b@ == bracketed(r@),
{
    let mut b: Vec<u8> = Vec::new();
    b.push(0x5b);
    b.extend_from_slice(r);
    b.push(0x5d);
    assert(b@ =~= bracketed(r@));
    b
}

/// The four output sections, each a byte buffer that only grows.
pub struct Program {
    pub header: Vec<u8>,
    pub text: Vec<u8>,
    pub ro_data: Vec<u8>,
    pub bss: Vec<u8>,
}

impl Program {
    pub open spec fn sections(&self) -> Sections {
        Sections { header: self.header@, text: self.text@, ro_data: self.ro_data@, bss: self.bss@ }
    }

    /// Empty sections, each but the header opened by its section line.
    pub fn new() -> (r: Program)
        ensures
            r.sections() == initial_sections(),
    {
        let mut p = Program { header: Vec::new(), text: Vec::new(), ro_data: Vec::new(), bss: Vec::new() };
        p.append_text(&[0x73u8, 0x65, 0x63, 0x74, 0x69, 0x6f, 0x6e, 0x20, 0x2e, 0x74, 0x65, 0x78, 0x74, 0x0a]);
        p.append_bss(&[0x73u8, 0x65, 0x63, 0x74, 0x69, 0x6f, 0x6e, 0x20, 0x2e, 0x62, 0x73, 0x73, 0x0a]);
        p.append_data(&[0x73u8, 0x65, 0x63, 0x74, 0x69, 0x6f, 0x6e, 0x20, 0x2e, 0x64, 0x61, 0x74, 0x61, 0x0a]);
        assert(p.sections().text =~= initial_sections().text);
        assert(p.sections().bss =~= initial_sections().bss);
        assert(p.sections().ro_data =~= initial_sections().ro_data);
        assert(p.sections().header =~= initial_sections().header);
        p
    }

    /// Folds two numbers.
    pub fn operator_function(operator: Operator, a: u64, b: u64) -> (r: Result<u64, GenError>)
        ensures
            r == fold(operator, a, b),
    {
        match operator {
            Operator::Add => if a <= u64::MAX - b {
                Ok(a + b)
            } else {
                Err(GenError::FoldOverflow)
            },
            Operator::Multiply => if b == 0 || a <= u64::MAX / b {
                assert(a * b <= u64::MAX) by (nonlinear_arith)
                    requires
                        b == 0 || a <= u64::MAX / b,
                ;
                Ok(a * b)
            } else {
                assert(a * b > u64::MAX) by (nonlinear_arith)
                    requires
                        b > 0,
                        a > u64::MAX / b,
                ;
                Err(GenError::FoldOverflow)
            },
            _ => Err(GenError::Unsupported),
        }
    }

    /// The text of an operand.
    pub fn expression_data(data: &Operand) -> (r: Vec<u8>)
        ensures
            r@ == operand_text(data@),
    {
        match data {
            Operand::Number(v) => {
                let mut out: Vec<u8> = Vec::new();
                push_decimal(&mut out, *v);
                assert(out@ =~= decimal(*v as nat));
                out
            },
            Operand::Register(r) => r.clone(),
        }
    }

    /// The instruction that applies `operator` with an immediate to a register.
    pub fn operator_reg_imm(operator: Operator, register: &Vec<u8>, imm: u64) -> (r: Result<Vec<u8>, GenError>)
        ensures
            match reg_imm_text(operator, register@, imm) {
                Ok(t) => r matches Ok(v) && v@ == t,
                Err(x) => r matches Err(y) && y == x,
            },
    {
        let mut value: Vec<u8> = Vec::new();
        push_decimal(&mut value, imm);
        assert(value@ =~= decimal(imm as nat));
        let mut out: Vec<u8> = Vec::new();
        match operator {
            Operator::Add => {
                push_instr(&mut out, &[0x61u8, 0x64, 0x64], register.as_slice(), value.as_slice());
                assert(out@ =~= instr(add_text(), register@, decimal(imm as nat)));
                Ok(out)
            },
            Operator::Multiply => {
                let mut scaled: Vec<u8> = register.clone();
                scaled.push(0x2a);
                scaled.extend_from_slice(value.as_slice());
                let src = bracket(scaled.as_slice());
                push_instr(&mut out, &[0x6cu8, 0x65, 0x61], register.as_slice(), src.as_slice());
                assert(scaled@ =~= register@ + seq![0x2au8] + decimal(imm as nat));
                assert(out@ =~= instr(lea_text(), register@, bracketed(register@ + seq![0x2au8] + decimal(imm as nat))));
                Ok(out)
            },
            Operator::Subtract => {
                push_instr(&mut out, &[0x73u8, 0x75, 0x62], register.as_slice(), value.as_slice());
                assert(out@ =~= instr(sub_text(), register@, decimal(imm as nat)));
                Ok(out)
            },
            _ => Err(GenError::Unsupported),
        }
    }

    /// The instruction that applies `operator` to two registers.
    pub fn operator_reg_reg(operator: Operator, r1: &Vec<u8>, r2: &Vec<u8>) -> (r: Result<Vec<u8>, GenError>)
        ensures
            match reg_reg_text(operator, r1@, r2@) {
                Ok(t) => r matches Ok(v) && v@ == t,
                Err(x) => r matches Err(y) && y == x,
            },
    {
        let mut out: Vec<u8> = Vec::new();
        match operator {
            Operator::Add => {
                push_instr(&mut out, &[0x61u8, 0x64, 0x64], r1.as_slice(), r2.as_slice());
                assert(out@ =~= instr(add_text(), r1@, r2@));
                Ok(out)
            },
            Operator::Subtract => {
                push_instr(&mut out, &[0x73u8, 0x75, 0x62], r1.as_slice(), r2.as_slice());
                assert(out@ =~= instr(sub_text(), r1@, r2@));
                Ok(out)
            },
            _ => Err(GenError::Unsupported),
        }
    }

    /// Reduces an expression to an operand and the instructions that compute it.
    pub fn compile_expression(&self, expr: &Expression) -> (r: Result<(Operand, Vec<u8>), GenError>)
        ensures
            match reduce(expr@) {
                Ok((a, code)) => r matches Ok((x, c)) && x@ == a && c@ == code,
                Err(e) => r matches Err(y) && y == e,
            },
        decreases expr,
    {
        match expr {
            Expression::Binary { left, right, operator } => {
                let (atom_right, right_code) = match self.compile_expression(&**right) {
                    Ok(p) => p,
                    Err(e) => {
                        return Err(e);
                    },
                };
                let (atom_left, left_code) = match self.compile_expression(&**left) {
                    Ok(p) => p,
                    Err(e) => {
                        return Err(e);
                    },
                };
                let mut instructions = right_code;
                instructions.extend_from_slice(left_code.as_slice());
                match (atom_left, atom_right) {
                    (Operand::Number(v1), Operand::Number(v2)) => match Program::operator_function(*operator, v1, v2) {
                        Ok(v) => Ok((Operand::Number(v), instructions)),
                        Err(e) => Err(e),
                    },
                    (Operand::Register(reg), Operand::Number(value)) => match Program::operator_reg_imm(*operator, &reg, value) {
                        Ok(code) => {
                            instructions.extend_from_slice(code.as_slice());
                            Ok((Operand::Register(reg), instructions))
                        },
                        Err(e) => Err(e),
                    },
                    (Operand::Number(value), Operand::Register(reg)) => match Program::operator_reg_imm(*operator, &reg, value) {
                        Ok(code) => {
                            instructions.extend_from_slice(code.as_slice());
                            Ok((Operand::Register(reg), instructions))
                        },
                        Err(e) => Err(e),
                    },
                    (Operand::Register(r1), Operand::Register(r2)) => match Program::operator_reg_reg(*operator, &r1, &r2) {
                        Ok(code) => {
                            instructions.extend_from_slice(code.as_slice());
                            Ok((Operand::Register(r1), instructions))
                        },
                        Err(e) => Err(e),
                    },
                }
            },
            Expression::Number { value } => Ok((Operand::Number(*value), Vec::new())),
            Expression::Register { reg } => Ok((Operand::Register(reg.clone()), Vec::new())),
            _ => Err(GenError::NotComputable),
        }
    }

    /// Compiles `$register = expression` (`deref`: `$*register = expression`).
    fn compile_assign(&mut self, register: &Vec<u8>, expression: &Expression, deref: bool) -> (r: Result<
        (),
        GenError,
    >)
        ensures
            final(self).header == old(self).header,
            final(self).ro_data == old(self).ro_data,
            final(self).bss == old(self).bss,
            match assign_text(register@, deref, expression@) {
                Ok(t) => r is Ok && final(self).text@ == old(self).text@ + t,
                Err(x) => r == Err::<(), GenError>(x),
            },
    {
        match expression {
            Expression::Variable { var } => {
                let mut line: Vec<u8> = Vec::new();
                if deref {
                    let dst = bracket(register.as_slice());
                    push_instr(&mut line, &[0x6du8, 0x6f, 0x76], dst.as_slice(), var.as_slice());
                } else {
                    push_instr(&mut line, &[0x6du8, 0x6f, 0x76], register.as_slice(), var.as_slice());
                }
                assert(line@ =~= instr(mov_text(), if deref { bracketed(register@) } else { register@ }, var@));
                self.append_text(line.as_slice());
                Ok(())
            },
            _ => {
                let (data_reg, expr_code) = match self.compile_expression(expression) {
                    Ok(p) => p,
                    Err(e) => {
                        return Err(e);
                    },
                };
                self.append_text(expr_code.as_slice());
                let src = Program::expression_data(&data_reg);
                let mut line: Vec<u8> = Vec::new();
                if deref {
                    let mut dst: Vec<u8> = Vec::new();
                    dst.extend_from_slice(&[0x62u8, 0x79, 0x74, 0x65, 0x20]);
                    let b = bracket(register.as_slice());
                    dst.extend_from_slice(b.as_slice());
                    assert(dst@ =~= byte_at(register@));
                    push_instr(&mut line, &[0x6du8, 0x6f, 0x76], dst.as_slice(), src.as_slice());
                } else {
                    push_instr(&mut line, &[0x6du8, 0x6f, 0x76], register.as_slice(), src.as_slice());
                }
                assert(line@ =~= instr(mov_text(), if deref { byte_at(register@) } else { register@ }, src@));
                self.append_text(line.as_slice());
                assert(self.text@ =~= old(self).text@ + (expr_code@ + line@));
                Ok(())
            },
        }
    }

    /// Compiles one statement of a function or conditional body; `n` numbers
    /// its label if it is a conditional.
    pub fn compile_statement(&mut self, statement: &Statement, n: usize) -> (r: Result<(), GenError>)
        ensures
            final(self).header == old(self).header,
            final(self).ro_data == old(self).ro_data,
            final(self).bss == old(self).bss,
            match statement_text(statement@, n as nat) {
                Ok(t) => r is Ok && final(self).text@ == old(self).text@ + t,
                Err(x) => r == Err::<(), GenError>(x),
            },
        decreases statement, 0nat,
    {
        match statement {
            Statement::InlineAssembly { instructions } => {
                self.append_text(instructions.as_slice());
                self.append_text(&[NEWLINE]);
                assert(self.text@ =~= old(self).text@ + (instructions@ + seq![NEWLINE]));
                Ok(())
            },
            Statement::RegisterAssign { register, expression } => self.compile_assign(register, expression, false),
            Statement::RegisterDerefAssign { register, expression } => self.compile_assign(register, expression, true),
            Statement::Call { f } => {
                self.append_text(&[0x63u8, 0x61, 0x6c, 0x6c, 0x20]);
                self.append_text(f.as_slice());
                self.append_text(&[NEWLINE]);
                assert(self.text@ =~= old(self).text@ + (seq![0x63u8, 0x61, 0x6c, 0x6c, 0x20] + f@ + seq![NEWLINE]));
                Ok(())
            },
            Statement::Scoped { scoped } => self.compile_conditional(scoped, n),
            _ => {
                assert(old(self).text@ =~= old(self).text@ + Seq::<u8>::empty());
                Ok(())
            },
        }
    }

    /// Compiles a conditional: the comparison, the branch past the body, the
    /// body and the label. Any other scope inside a body has no code.
    fn compile_conditional(&mut self, scoped: &ScopeImpl, n: usize) -> (r: Result<(), GenError>)
        ensures
            final(self).header == old(self).header,
            final(self).ro_data == old(self).ro_data,
            final(self).bss == old(self).bss,
            match statement_text(StatementV::Scoped { scoped: scoped@ }, n as nat) {
                Ok(t) => r is Ok && final(self).text@ == old(self).text@ + t,
                Err(x) => r == Err::<(), GenError>(x),
            },
        decreases scoped, 1nat,
    {

        match &scoped.scope_type {
        ScopeImplType::If { left, right, condition } => {
            let (left_src, left_code) = match self.compile_expression(left) {
                Ok(p) => p,
                Err(e) => {
                    return Err(e);
                },
            };
            let (right_src, right_code) = match self.compile_expression(right) {
                Ok(p) => p,
                Err(e) => {
                    return Err(e);
                },
            };
            let mut head: Vec<u8> = left_code;
            head.extend_from_slice(right_code.as_slice());
            let l = Program::expression_data(&left_src);
            let r = Program::expression_data(&right_src);
            push_instr(&mut head, &[0x63u8, 0x6d, 0x70], l.as_slice(), r.as_slice());
            let mut label_text: Vec<u8> = Vec::new();
            label_text.extend_from_slice(&[0x2eu8, 0x5f]);
            push_decimal(&mut label_text, n as u64);
            label_text.push(0x5f);
            assert(label_text@ =~= label(n as nat));
            match condition {
                Operator::NotEqual => {
                    head.extend_from_slice(&[0x6au8, 0x65, 0x20]);
                    head.extend_from_slice(label_text.as_slice());
                    head.push(NEWLINE);
                },
                Operator::Equal => {
                    head.extend_from_slice(&[0x6au8, 0x6e, 0x65, 0x20]);
                    head.extend_from_slice(label_text.as_slice());
                    head.push(NEWLINE);
                },
                _ => {},
            }
            assert(head@ =~= left_code@ + right_code@ + instr(cmp_text(), l@, r@)
                + branch_text(*condition, n as nat));
            self.append_text(head.as_slice());
            let ghost mid = self.text@;
            match self.compile_scope(scoped) {
                Ok(()) => {},
                Err(e) => {
                    return Err(e);
                },
            }
            let ghost body = self.text@.subrange(mid.len() as int, self.text@.len() as int);
            assert(self.text@ =~= mid + body);
            self.append_text(label_text.as_slice());
            self.append_text(&[0x3au8, NEWLINE]);
            assert(self.text@ =~= old(self).text@ + (head@ + body + label(n as nat) + seq![0x3au8, NEWLINE]));
            Ok(())
        },
        _ => {
            assert(old(self).text@ =~= old(self).text@ + Seq::<u8>::empty());
            Ok(())
        },
        }
    }

    /// Compiles the body of a function or a conditional.
    pub fn compile_scope(&mut self, f: &ScopeImpl) -> (r: Result<(), GenError>)
        ensures
            final(self).header == old(self).header,
            final(self).ro_data == old(self).ro_data,
            final(self).bss == old(self).bss,
            match body_text(f@.body, 0, 0) {
                Ok(t) => r is Ok && final(self).text@ == old(self).text@ + t,
                Err(x) => r == Err::<(), GenError>(x),
            },
        decreases f, 0nat,
    {
        let ghost b = f@.body;
        proof {
            lemma_statements_view(&f.scope, f.scope.len() as nat);
        }
        let ghost start = self.text@;
        let ghost mut done: Seq<u8> = Seq::empty();
        let mut scope_counter: usize = 0;
        let mut k: usize = 0;
        assert(start =~= start + done);
        assert(after(done, body_text(b, 0, 0)) =~= body_text(b, 0, 0)) by {
            if let Ok(t) = body_text(b, 0, 0) {
                assert(done + t =~= t);
            }
        }
        while k < f.scope.len()
            invariant
                k <= f.scope.len(),
                scope_counter <= k,
                b == f@.body,
                b.len() == f.scope@.len(),
                forall|j: int| 0 <= j < b.len() ==> #[trigger] b[j] == f.scope@[j]@,
                self.header == old(self).header,
                self.ro_data == old(self).ro_data,
                self.bss == old(self).bss,
                self.text@ == start + done,
                start == old(self).text@,
                after(done, body_text(b, k as nat, scope_counter as nat)) == body_text(b, 0, 0),
            decreases f.scope@.len() - k,
        {
            let ghost before = self.text@;
            let ghost n = scope_counter as nat;
            match self.compile_statement(&f.scope[k], scope_counter) {
                Ok(()) => {},
                Err(e) => {
                    return Err(e);
                },
            }
            let ghost t = self.text@.subrange(before.len() as int, self.text@.len() as int);
            proof {
                assert(b[k as int] == f.scope@[k as int]@);
                if let Ok(t2) = statement_text(b[k as int], n) {
                    assert(t =~= t2);
                }
            }
            let opens_label = match &f.scope[k] {
                Statement::Scoped { scoped } => match &scoped.scope_type {
                    ScopeImplType::If { .. } => true,
                    _ => false,
                },
                _ => false,
            };
            assert(opens_label == is_conditional(b[k as int]));
            if opens_label {
                scope_counter = scope_counter + 1;
            }
            proof {
                assert(self.text@ =~= before + t);
                assert(statement_text(b[k as int], n) == Ok::<Seq<u8>, GenError>(t));
                let rest = body_text(b, (k + 1) as nat, scope_counter as nat);
                assert(body_text(b, k as nat, n) == after(t, rest));
                if let Ok(x) = rest {
                    assert((done + t) + x =~= done + (t + x));
                }
                done = done + t;
                assert(self.text@ =~= start + done);
            }
            k = k + 1;
        }
        assert(self.text@ =~= old(self).text@ + done);
        Ok(())
    }

    /// Compiles the global scope, the first of `scopes`.
    pub fn compile(&mut self, scopes: &Vec<ScopeImpl>) -> (r: Result<(), GenError>)
        requires
            scopes@.len() >= 1,
        ensures
            match global_from(scopes@[0]@.body, 0, old(self).sections()) {
                Ok(out) => r is Ok && final(self).sections() == out,
                Err(x) => r == Err::<(), GenError>(x),
            },
    {
        let global = &scopes[0];
        let ghost b = global@.body;
        proof {
            lemma_statements_view(&global.scope, global.scope.len() as nat);
        }
        let mut k: usize = 0;
        while k < global.scope.len()
            invariant
                k <= global.scope.len(),
                b == global@.body,
                b == scopes@[0]@.body,
                b.len() == global.scope@.len(),
                forall|j: int| 0 <= j < b.len() ==> #[trigger] b[j] == global.scope@[j]@,
                global_from(b, k as nat, self.sections()) == global_from(b, 0, old(self).sections()),
            decreases global.scope@.len() - k,
        {
            let ghost acc = self.sections();
            assert(b[k as int] == global.scope@[k as int]@);
            match &global.scope[k] {
                Statement::Scoped { scoped } => match &scoped.scope_type {
                    ScopeImplType::Fn { name, external } => {
                        if *external {
                            self.append_header(&[0x67u8, 0x6c, 0x6f, 0x62, 0x61, 0x6c, 0x20]);
                            self.append_header(name.as_slice());
                            self.append_header(&[NEWLINE]);
                        }
                        assert(self.header@ =~= if *external { acc.header + export_line(name@) } else { acc.header });
                        self.append_text(name.as_slice());
                        self.append_text(&[0x3au8, NEWLINE]);
                        let ghost mid = self.text@;
                        match self.compile_scope(scoped) {
                            Ok(()) => {},
                            Err(e) => {
                                assert(global_statement(b[k as int], acc) == Err::<Sections, GenError>(e));
                                assert(global_from(b, k as nat, acc) == Err::<Sections, GenError>(e));
                                return Err(e);
                            },
                        }
                        let ghost body = self.text@.subrange(mid.len() as int, self.text@.len() as int);
                        assert(self.text@ =~= mid + body);
                        self.append_text(&[0x72u8, 0x65, 0x74, NEWLINE, NEWLINE]);
                        assert(self.text@ =~= acc.text + name@ + seq![0x3au8, NEWLINE] + body + ret_text());
                    },
                    _ => {},
                },
                Statement::NewLet { name, literal, v_type } => match literal {
                    Some(_) => {},
                    None => match v_type {
                        Some((vt, size)) => {
                            self.append_bss(name.as_slice());
                            match vt {
                                Type::Uint8 => self.append_bss(&[0x3au8, 0x20, 0x72, 0x65, 0x73, 0x62, 0x20]),
                                Type::Uint64 => self.append_bss(&[0x3au8, 0x20, 0x72, 0x65, 0x73, 0x71, 0x20]),
                            }
                            let mut count: Vec<u8> = Vec::new();
                            push_decimal(&mut count, *size);
                            self.append_bss(count.as_slice());
                            self.append_bss(&[NEWLINE]);
                            self.append_size_line(name, false);
                            assert(self.bss@ =~= acc.bss + reserve_line(name@, *vt, *size) + size_line(name@));
                        },
                        None => {
                            assert(global_statement(b[k as int], acc) == Err::<Sections, GenError>(
                                GenError::UnsizedStorage,
                            ));
                            assert(global_from(b, k as nat, acc) == Err::<Sections, GenError>(
                                GenError::UnsizedStorage,
                            ));
                            return Err(GenError::UnsizedStorage);
                        },
                    },
                },
                Statement::NewConst { name, literal, v_type } => match literal {
                    Literal::String(s) => {
                        self.append_data(name.as_slice());
                        self.append_data(&[0x3au8, 0x20, 0x64, 0x62, 0x20, 0x22]);
                        self.append_data(s.as_slice());
                        self.append_data(&[0x22u8, 0x2c, 0x20, 0x31, 0x30, NEWLINE]);
                        self.append_size_line(name, true);
                        assert(self.ro_data@ =~= acc.ro_data + data_line(name@, s@) + size_line(name@));
                    },
                    _ => {},
                },
                _ => {},
            }
            assert(global_statement(b[k as int], acc) == Ok::<Sections, GenError>(self.sections()));
            k = k + 1;
        }
        Ok(())
    }

    /// Appends `NAME_LEN equ $ - name` to the data section (`to_data`) or to
    /// the storage section.
    fn append_size_line(&mut self, name: &Vec<u8>, to_data: bool)
        ensures
            final(self).header == old(self).header,
            final(self).text == old(self).text,
            to_data ==> final(self).ro_data@ == old(self).ro_data@ + size_line(name@)
                && final(self).bss == old(self).bss,
            !to_data ==> final(self).bss@ == old(self).bss@ + size_line(name@)
                && final(self).ro_data == old(self).ro_data,
    {
        let mut line = size_symbol_of(name);
        line.extend_from_slice(&[0x20u8, 0x65, 0x71, 0x75, 0x20, 0x24, 0x20, 0x2d, 0x20]);
        line.extend_from_slice(name.as_slice());
        line.push(NEWLINE);
        assert(line@ =~= size_line(name@));
        if to_data {
            self.append_data(line.as_slice());
        } else {
            self.append_bss(line.as_slice());
        }
    }

    pub fn append_text(&mut self, text: &[u8])
        ensures
            final(self).text@ == old(self).text@ + text@,
            final(self).header == old(self).header,
            final(self).ro_data == old(self).ro_data,
            final(self).bss == old(self).bss,
    {
        self.text.extend_from_slice(text);
    }

    pub fn append_header(&mut self, text: &[u8])
        ensures
            final(self).header@ == old(self).header@ + text@,
            final(self).text == old(self).text,
            final(self).ro_data == old(self).ro_data,
            final(self).bss == old(self).bss,
    {
        self.header.extend_from_slice(text);
    }

    pub fn append_data(&mut self, text: &[u8])
        ensures
            final(self).ro_data@ == old(self).ro_data@ + text@,
            final(self).header == old(self).header,
            final(self).text == old(self).text,
            final(self).bss == old(self).bss,
    {
        self.ro_data.extend_from_slice(text);
    }

    pub fn append_bss(&mut self, text: &[u8])
        ensures
            final(self).bss@ == old(self).bss@ + text@,
            final(self).header == old(self).header,
            final(self).text == old(self).text,
            final(self).ro_data == old(self).ro_data,
    {
        self.bss.extend_from_slice(text);
    }
}

} // verus!
