use dslc::parser::{
    parse, Expression, ParseErrorKind, Parser, ScopeImpl, ScopeImplType, Statement,
};
use dslc::tokenizer::{tokenize, Identifier, Literal, Operator, Token, Type};

fn tokens(src: &str) -> Vec<Token> {
    let (tokens, fault) = tokenize(&src.as_bytes().to_vec(), &b"test".to_vec());
    assert!(fault.is_none());
    tokens
}

fn expression(src: &str) -> Option<Expression> {
    let mut ts = tokens(src);
    ts.pop();
    let all = tokens("");
    let parser = Parser::new(&all).ok().unwrap();
    parser.parse_expression(ts)
}

#[test]
fn single_atoms() {
    assert!(matches!(expression("42"), Some(Expression::Number { value: 42 })));
    assert!(matches!(expression("$a"), Some(Expression::Register { reg }) if reg == b"a".to_vec()));
    assert!(matches!(expression("buf"), Some(Expression::Variable { var }) if var == b"buf".to_vec()));
    assert!(matches!(expression("sizeof(buf)"), Some(Expression::SizeOf { var }) if var == b"BUF_LEN".to_vec()));
}

#[test]
fn first_kind_in_priority_list_splits() {
    // `+` is looked for before `*`, wherever it stands.
    match expression("$a * 2 + 1") {
        Some(Expression::Binary { left, right, operator: Operator::Add }) => {
            assert!(matches!(*left, Expression::Binary { operator: Operator::Multiply, .. }));
            assert!(matches!(*right, Expression::Number { value: 1 }));
        }
        other => panic!("unexpected {:?}", other),
    }
    // `-` before `*`; the first `-` splits.
    match expression("5 - 2 - 1") {
        Some(Expression::Binary { left, right, operator: Operator::Subtract }) => {
            assert!(matches!(*left, Expression::Number { value: 5 }));
            assert!(matches!(*right, Expression::Binary { operator: Operator::Subtract, .. }));
        }
        other => panic!("unexpected {:?}", other),
    }
}

#[test]
fn chains_of_atoms_always_parse() {
    for src in ["1", "$a + 2", "x * $b - 3 + y", "1 - 2 * 3 + 4 - 5 * $c"] {
        assert!(expression(src).is_some(), "{}", src);
    }
}

#[test]
fn malformed_expressions() {
    assert!(expression("").is_none());
    assert!(expression("1 2").is_none());
    assert!(expression("+").is_none());
    assert!(expression("\"s\"").is_none());
    assert!(expression("sizeof(1)").is_none());
}

#[test]
fn declarations() {
    let root = parse(&tokens("const msg = \"hi\"\nlet buf: [byte, 16]\nlet n = 3\n")).ok().unwrap();
    assert_eq!(root.scope.len(), 3);
    assert!(matches!(&root.scope[0], Statement::NewConst { name, literal: Literal::String(s), v_type: None }
        if *name == b"msg".to_vec() && *s == b"hi".to_vec()));
    assert!(matches!(&root.scope[1], Statement::NewLet { name, literal: None, v_type: Some((Type::Uint8, 16)) }
        if *name == b"buf".to_vec()));
    assert!(matches!(&root.scope[2], Statement::NewLet { literal: Some(Literal::Int(3)), v_type: None, .. }));
}

#[test]
fn functions_calls_and_conditionals_nest() {
    let src = "extern fn start {\n  call(main)\n  if $a == 1 {\n    $*b = 2\n  }\n}\n";
    let root = parse(&tokens(src)).ok().unwrap();
    assert_eq!(root.scope.len(), 1);
    match &root.scope[0] {
        Statement::Scoped { scoped } => {
            assert!(matches!(&scoped.scope_type, ScopeImplType::Fn { name, external: true } if *name == b"start".to_vec()));
            assert_eq!(scoped.scope.len(), 2);
            assert!(matches!(&scoped.scope[0], Statement::Call { f } if *f == b"main".to_vec()));
            match &scoped.scope[1] {
                Statement::Scoped { scoped } => {
                    assert!(matches!(&scoped.scope_type, ScopeImplType::If { condition: Operator::Equal, .. }));
                    assert!(matches!(&scoped.scope[0], Statement::RegisterDerefAssign { register, .. } if *register == b"b".to_vec()));
                }
                other => panic!("unexpected {:?}", other),
            }
        }
        other => panic!("unexpected {:?}", other),
    }
}

#[test]
fn while_keyword_is_inert() {
    let root = parse(&tokens("while\n")).ok().unwrap();
    assert_eq!(root.scope.len(), 0);
}

#[test]
fn nested_function_is_an_error() {
    let e = parse(&tokens("fn a {\nfn b {\n}\n}\n")).err().unwrap();
    assert_eq!(e.kind, ParseErrorKind::NestedFunction);
    assert_eq!(e.at, 4);
}

#[test]
fn unmatched_brace_is_an_error() {
    let e = parse(&tokens("}\n")).err().unwrap();
    assert_eq!(e.kind, ParseErrorKind::UnmatchedBrace);
    assert_eq!(e.at, 0);
}

#[test]
fn unclosed_scope_is_an_error() {
    let e = parse(&tokens("fn a {\n")).err().unwrap();
    assert_eq!(e.kind, ParseErrorKind::UnclosedScope);
}

#[test]
fn const_needs_a_value() {
    let e = parse(&tokens("const x\n")).err().unwrap();
    assert_eq!(e.kind, ParseErrorKind::MalformedDeclaration);
    let e = parse(&tokens("const x = 1 2\n")).err().unwrap();
    assert_eq!(e.kind, ParseErrorKind::MalformedDeclaration);
}

#[test]
fn let_without_value_needs_a_size() {
    let e = parse(&tokens("let x\n")).err().unwrap();
    assert_eq!(e.kind, ParseErrorKind::MissingStorageSize);
    let e = parse(&tokens("let x: [word, 2]\n")).err().unwrap();
    assert_eq!(e.kind, ParseErrorKind::MalformedDeclaration);
}

#[test]
fn bad_call_and_assignment() {
    let e = parse(&tokens("call main\n")).err().unwrap();
    assert_eq!(e.kind, ParseErrorKind::UnexpectedToken);
    let e = parse(&tokens("$a + 1\n")).err().unwrap();
    assert_eq!(e.kind, ParseErrorKind::UnexpectedToken);
    let e = parse(&tokens("$a = 1 2\n")).err().unwrap();
    assert_eq!(e.kind, ParseErrorKind::MalformedExpression);
}

#[test]
fn scans_stop_at_terminators() {
    let ts = tokens("a b = c\n");
    let taken = Parser::take_given_to_tokens(&ts, &[Token::Operator(Operator::Assign), Token::Newline]);
    assert_eq!(
        taken,
        vec![
            Token::Identifier(Identifier::Variable(b"a".to_vec())),
            Token::Identifier(Identifier::Variable(b"b".to_vec()))
        ]
    );
    let mut parser = Parser::new(&ts).ok().unwrap();
    assert_eq!(parser.get_statements().scope.len(), 0);
    parser.idx = 0;
    assert_eq!(parser.take_to_tokens(&[Token::Newline]).len(), 4);
    assert_eq!(parser.idx, 4);
    assert_eq!(*parser.peek().unwrap(), Token::Newline);
    assert_eq!(*parser.next(), Token::Newline);
}

#[test]
fn create_function_refuses_nesting() {
    let ts = tokens("");
    let mut parser = Parser::new(&ts).ok().unwrap();
    let name = Token::Identifier(Identifier::Variable(b"f".to_vec()));
    assert_eq!(parser.create_function(&name, true), Ok(()));
    assert_eq!(parser.scope_stack.len(), 2);
    assert_eq!(parser.create_function(&name, false), Err(ParseErrorKind::NestedFunction));
    assert_eq!(parser.create_function(&Token::Newline, false), Err(ParseErrorKind::UnexpectedToken));
    assert_eq!(parser.scope_stack.len(), 2);
}

#[test]
fn get_statement_reads_one_statement() {
    let ts = tokens("$a = 1 + $b\n");
    let mut parser = Parser::new(&ts).ok().unwrap();
    parser.idx = 0;
    match parser.get_statement() {
        Ok(Some(Statement::RegisterAssign { register, expression: Expression::Binary { operator: Operator::Add, .. } })) => {
            assert_eq!(register, b"a".to_vec());
        }
        other => panic!("unexpected {:?}", other),
    }
    assert_eq!(parser.idx, 5);
}

#[test]
fn closing_brace_appends_scope_to_enclosing_one() {
    let ts = tokens("fn f {\n}\n");
    let mut parser = Parser {
        tokens: &ts,
        idx: 0,
        scope_stack: vec![ScopeImpl { scope_type: ScopeImplType::Global, scope: Vec::new() }],
    };
    assert!(matches!(parser.get_statement(), Ok(None)));
    assert_eq!(parser.scope_stack.len(), 2);
    parser.idx = 4;
    assert!(matches!(parser.get_statement(), Ok(None)));
    assert_eq!(parser.idx, 5);
    assert_eq!(parser.scope_stack.len(), 1);
    assert_eq!(parser.scope_stack[0].scope.len(), 1);
    assert!(matches!(&parser.scope_stack[0].scope[0], Statement::Scoped { scoped }
        if matches!(&scoped.scope_type, ScopeImplType::Fn { name, external: false } if *name == b"f".to_vec())));
}

#[test]
fn closing_brace_at_global_scope_keeps_the_stack() {
    let ts = tokens("}\n");
    let mut parser = Parser {
        tokens: &ts,
        idx: 0,
        scope_stack: vec![ScopeImpl { scope_type: ScopeImplType::Global, scope: Vec::new() }],
    };
    let e = parser.get_statement().err().unwrap();
    assert_eq!(e.kind, ParseErrorKind::UnmatchedBrace);
    assert_eq!(parser.scope_stack.len(), 1);
}

#[test]
fn scans_run_to_the_end_without_a_terminator() {
    let ts = tokens("a b");
    let taken = Parser::take_given_to_tokens(&ts, &[Token::Newline]);
    assert_eq!(taken.len(), 3);
    assert_eq!(taken[2], Token::Eof);
    let taken = Parser::take_given_to_tokens(&ts, &[]);
    assert_eq!(taken, ts);
}
