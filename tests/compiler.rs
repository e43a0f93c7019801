use dslc::compile_source;
use dslc::compiler::{GenError, Operand, Program};
use dslc::parser::{Expression, Parser, ScopeImpl, ScopeImplType, Statement};
use dslc::tokenizer::{Identifier, Keyword, Operator, Separator, Token, Type};
use dslc::CompileError;

fn num(v: u64) -> Box<Expression> {
    Box::new(Expression::Number { value: v })
}

fn reg(r: &str) -> Box<Expression> {
    Box::new(Expression::Register { reg: r.as_bytes().to_vec() })
}

fn bin(left: Box<Expression>, right: Box<Expression>, operator: Operator) -> Expression {
    Expression::Binary { left, right, operator }
}

fn text(b: &[u8]) -> String {
    String::from_utf8(b.to_vec()).unwrap()
}

fn compile(src: &str) -> Program {
    match compile_source(&src.as_bytes().to_vec(), &b"test".to_vec()) {
        Ok(p) => p,
        Err(e) => panic!("compile failed: {:?}", e),
    }
}

#[test]
fn numbers_fold_without_code() {
    let p = Program::new();
    let (atom, code) = p.compile_expression(&bin(num(3), num(4), Operator::Add)).ok().unwrap();
    assert!(matches!(atom, Operand::Number(7)));
    assert!(code.is_empty());
    let (atom, code) = p.compile_expression(&bin(num(3), num(4), Operator::Multiply)).ok().unwrap();
    assert!(matches!(atom, Operand::Number(12)));
    assert!(code.is_empty());
}

#[test]
fn register_plus_immediate_is_one_add() {
    let p = Program::new();
    let (atom, code) = p.compile_expression(&bin(reg("a"), num(5), Operator::Add)).ok().unwrap();
    assert!(matches!(atom, Operand::Register(r) if r == b"a".to_vec()));
    assert_eq!(text(&code), "add a, 5\n");
    let (atom, code) = p.compile_expression(&bin(num(5), reg("c"), Operator::Add)).ok().unwrap();
    assert!(matches!(atom, Operand::Register(r) if r == b"c".to_vec()));
    assert_eq!(text(&code), "add c, 5\n");
}

#[test]
fn register_immediate_forms() {
    let p = Program::new();
    let (_, code) = p.compile_expression(&bin(reg("b"), num(3), Operator::Multiply)).ok().unwrap();
    assert_eq!(text(&code), "lea b, [b*3]\n");
    let (_, code) = p.compile_expression(&bin(reg("b"), num(3), Operator::Subtract)).ok().unwrap();
    assert_eq!(text(&code), "sub b, 3\n");
}

#[test]
fn register_register_forms() {
    let p = Program::new();
    let (atom, code) = p.compile_expression(&bin(reg("a"), reg("b"), Operator::Add)).ok().unwrap();
    assert!(matches!(atom, Operand::Register(r) if r == b"a".to_vec()));
    assert_eq!(text(&code), "add a, b\n");
    let (_, code) = p.compile_expression(&bin(reg("a"), reg("b"), Operator::Subtract)).ok().unwrap();
    assert_eq!(text(&code), "sub a, b\n");
    let e = p.compile_expression(&bin(reg("a"), reg("b"), Operator::Multiply)).err().unwrap();
    assert_eq!(e, GenError::Unsupported);
}

#[test]
fn prologues_run_right_then_left() {
    // ($a + 1) + ($b * 2): the right side's code comes first.
    let p = Program::new();
    let e = bin(
        Box::new(bin(reg("a"), num(1), Operator::Add)),
        Box::new(bin(reg("b"), num(2), Operator::Multiply)),
        Operator::Add,
    );
    let (atom, code) = p.compile_expression(&e).ok().unwrap();
    assert!(matches!(atom, Operand::Register(r) if r == b"a".to_vec()));
    assert_eq!(text(&code), "lea b, [b*2]\nadd a, 1\nadd a, b\n");
}

#[test]
fn number_subtraction_is_unsupported() {
    let p = Program::new();
    let e = p.compile_expression(&bin(num(5), num(3), Operator::Subtract)).err().unwrap();
    assert_eq!(e, GenError::Unsupported);
}

#[test]
fn variables_are_not_computable() {
    let p = Program::new();
    let v = Expression::Variable { var: b"x".to_vec() };
    assert_eq!(p.compile_expression(&v).err().unwrap(), GenError::NotComputable);
    let e = bin(Box::new(Expression::SizeOf { var: b"X_LEN".to_vec() }), num(1), Operator::Add);
    assert_eq!(p.compile_expression(&e).err().unwrap(), GenError::NotComputable);
}

#[test]
fn folding_overflow_is_an_error() {
    let p = Program::new();
    let e = p.compile_expression(&bin(num(u64::MAX), num(1), Operator::Add)).err().unwrap();
    assert_eq!(e, GenError::FoldOverflow);
    assert_eq!(Program::operator_function(Operator::Multiply, 1 << 33, 1 << 31), Err(GenError::FoldOverflow));
    assert_eq!(Program::operator_function(Operator::Divide, 4, 2), Err(GenError::Unsupported));
}

#[test]
fn operand_text() {
    assert_eq!(Program::expression_data(&Operand::Number(1024)), b"1024".to_vec());
    assert_eq!(Program::expression_data(&Operand::Register(b"d".to_vec())), b"d".to_vec());
}

#[test]
fn empty_program_has_section_lines() {
    let p = compile("");
    assert_eq!(text(&p.header), "");
    assert_eq!(text(&p.text), "section .text\n");
    assert_eq!(text(&p.ro_data), "section .data\n");
    assert_eq!(text(&p.bss), "section .bss\n");
}

#[test]
fn constant_string_goes_to_read_only_data() {
    let p = compile("const GREETING = \"hi\"\n");
    assert_eq!(text(&p.ro_data), "section .data\nGREETING: db \"hi\", 10\nGREETING_LEN equ $ - GREETING\n");
    assert_eq!(text(&p.text), "section .text\n");
}

#[test]
fn uninitialized_storage_goes_to_bss() {
    let p = compile("let buf: [byte, 16]\n");
    assert_eq!(text(&p.bss), "section .bss\nbuf: resb 16\nBUF_LEN equ $ - buf\n");
}

#[test]
fn function_folds_constant_assignment() {
    let p = compile("fn main {\n    $a = 3 + 4\n}\n");
    assert_eq!(text(&p.text), "section .text\nmain:\nmov a, 7\nret\n\n");
    assert_eq!(text(&p.header), "");
}

#[test]
fn exported_function_calls() {
    let p = compile("extern fn start {\n    call(main)\n}\n");
    assert_eq!(text(&p.header), "global start\n");
    assert_eq!(text(&p.text), "section .text\nstart:\ncall main\nret\n\n");
}

#[test]
fn conditional_branches_past_body() {
    let p = compile("fn f {\n    if $a != 2 {\n        $a = 1\n    }\n}\n");
    assert_eq!(
        text(&p.text),
        "section .text\nf:\ncmp a, 2\nje ._0_\nmov a, 1\n._0_:\nret\n\n"
    );
}

#[test]
fn equal_comparison_branches_if_not_equal() {
    let p = compile("fn f {\n  if $a == $b {\n    $*c = $a\n  }\n  if 1 == $c {\n  }\n}\n");
    assert_eq!(
        text(&p.text),
        "section .text\nf:\ncmp a, b\njne ._0_\nmov byte [c], a\n._0_:\ncmp 1, c\njne ._1_\n._1_:\nret\n\n"
    );
}

#[test]
fn variable_loads_and_stores() {
    let p = compile("fn g {\n  $a = buf\n  $*b = buf\n}\n");
    assert_eq!(text(&p.text), "section .text\ng:\nmov a, buf\nmov [b], buf\nret\n\n");
}

#[test]
fn size_symbol_is_not_computable() {
    let e = compile_source(&b"fn g {\n  $c = sizeof(buf)\n}\n".to_vec(), &b"t".to_vec()).err().unwrap();
    assert!(matches!(e, CompileError::Generation(GenError::NotComputable)));
}

#[test]
fn lexical_and_parse_errors_stop_compilation() {
    let e = compile_source(&b"fn f {\n #\n}\n".to_vec(), &b"t".to_vec()).err().unwrap();
    assert!(matches!(e, CompileError::Lexical(_)));
    let e = compile_source(&b"fn f {\n".to_vec(), &b"t".to_vec()).err().unwrap();
    assert!(matches!(e, CompileError::Parse(_)));
}

#[test]
fn storage_without_size_is_an_error() {
    let global = ScopeImpl {
        scope_type: ScopeImplType::Global,
        scope: vec![Statement::NewLet { name: b"x".to_vec(), literal: None, v_type: None }],
    };
    let mut p = Program::new();
    assert_eq!(p.compile(&vec![global]), Err(GenError::UnsizedStorage));
}

#[test]
fn quad_word_storage_uses_resq() {
    let global = ScopeImpl {
        scope_type: ScopeImplType::Global,
        scope: vec![Statement::NewLet { name: b"tab".to_vec(), literal: None, v_type: Some((Type::Uint64, 4)) }],
    };
    let mut p = Program::new();
    assert_eq!(p.compile(&vec![global]), Ok(()));
    assert_eq!(text(&p.bss), "section .bss\ntab: resq 4\nTAB_LEN equ $ - tab\n");
}

#[test]
fn inline_instructions_pass_through() {
    let tokens = vec![
        Token::Keyword(Keyword::Function),
        Token::Identifier(Identifier::Variable(b"main".to_vec())),
        Token::Inline(b"nop".to_vec()),
        Token::Separator(Separator::CloseBrace),
        Token::Eof,
    ];
    let parser = Parser::new(&tokens).ok().unwrap();
    let mut p = Program::new();
    assert_eq!(p.compile(&parser.scope_stack), Ok(()));
    assert_eq!(text(&p.text), "section .text\nmain:\nnop\nret\n\n");
}

#[test]
fn nested_conditionals_number_labels_per_body() {
    let p = compile("fn f {\n if $a == 1 {\n  if $b == 2 {\n  }\n }\n}\n");
    assert_eq!(
        text(&p.text),
        "section .text\nf:\ncmp a, 1\njne ._0_\ncmp b, 2\njne ._0_\n._0_:\n._0_:\nret\n\n"
    );
}

#[test]
fn top_level_initialized_let_has_no_output() {
    let p = compile("let n = 3\nconst k = 4\n");
    assert_eq!(text(&p.bss), "section .bss\n");
    assert_eq!(text(&p.ro_data), "section .data\n");
}
