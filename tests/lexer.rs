use dslc::stream::IStream;
use dslc::tokenizer::{
    get_kw, get_op, get_sep, get_type, tokenize, Identifier, Keyword, LexFaultKind, Literal,
    Operator, Separator, Token, Tokenizer, Type,
};

fn lex(src: &str) -> Vec<Token> {
    let (tokens, fault) = tokenize(&src.as_bytes().to_vec(), &b"test".to_vec());
    assert!(fault.is_none(), "unexpected fault: {:?}", fault);
    tokens
}

fn var(s: &str) -> Token {
    Token::Identifier(Identifier::Variable(s.as_bytes().to_vec()))
}

fn reg(s: &str) -> Token {
    Token::Identifier(Identifier::Register(s.as_bytes().to_vec()))
}

fn ends_with_one_eof(tokens: &[Token]) -> bool {
    !tokens.is_empty()
        && tokens[tokens.len() - 1] == Token::Eof
        && tokens[..tokens.len() - 1].iter().all(|t| *t != Token::Eof)
}

#[test]
fn every_input_ends_with_one_end_of_input() {
    let inputs: [&[u8]; 8] = [
        b"",
        b"   ",
        b"let x: [byte, 4]\n",
        b"\"unterminated",
        b"; comment without line break",
        b"#",
        b"=+=",
        b"99999999999999999999999",
    ];
    for input in inputs.iter() {
        let (tokens, _) = tokenize(&input.to_vec(), &b"in".to_vec());
        assert!(ends_with_one_eof(&tokens), "input {:?} gave {:?}", input, tokens);
    }
}

#[test]
fn empty_input_is_one_end_of_input() {
    assert_eq!(lex(""), vec![Token::Eof]);
}

#[test]
fn blanks_and_comments_make_no_tokens() {
    assert_eq!(lex("  \t  "), vec![Token::Eof]);
    assert_eq!(lex("; a comment\n"), vec![Token::Newline, Token::Eof]);
    assert_eq!(lex("x ; trailing words\ny"), vec![var("x"), Token::Newline, var("y"), Token::Eof]);
    assert_eq!(lex("  x  "), lex("x"));
}

#[test]
fn each_line_break_makes_one_token() {
    assert_eq!(lex("\n"), vec![Token::Newline, Token::Eof]);
    assert_eq!(lex("  \t\n \t "), vec![Token::Newline, Token::Eof]);
    assert_eq!(lex("\n\n\n"), vec![Token::Newline, Token::Newline, Token::Newline, Token::Eof]);
    assert_eq!(lex("a \n b"), vec![var("a"), Token::Newline, var("b"), Token::Eof]);
}

#[test]
fn escaped_quote_stays_in_string() {
    let tokens = lex("\"a\\\"b\"");
    assert_eq!(
        tokens,
        vec![Token::Literal(Literal::String(b"a\\\"b".to_vec())), Token::Eof]
    );
}

#[test]
fn string_keeps_its_bytes() {
    assert_eq!(
        lex("\"hi there\""),
        vec![Token::Literal(Literal::String(b"hi there".to_vec())), Token::Eof]
    );
}

#[test]
fn integers_are_decimal() {
    assert_eq!(
        lex("0 42 18446744073709551615"),
        vec![
            Token::Literal(Literal::Int(0)),
            Token::Literal(Literal::Int(42)),
            Token::Literal(Literal::Int(u64::MAX)),
            Token::Eof
        ]
    );
}

#[test]
fn keywords_and_variables() {
    assert_eq!(
        lex("const let fn extern while call sizeof if my_name"),
        vec![
            Token::Keyword(Keyword::Const),
            Token::Keyword(Keyword::Let),
            Token::Keyword(Keyword::Function),
            Token::Keyword(Keyword::External),
            Token::Keyword(Keyword::While),
            Token::Keyword(Keyword::Call),
            Token::Keyword(Keyword::SizeOf),
            var("if"),
            var("my_name"),
            Token::Eof
        ]
    );
}

#[test]
fn operators() {
    assert_eq!(
        lex("= + - / * % -- ++ ! != =="),
        vec![
            Token::Operator(Operator::Assign),
            Token::Operator(Operator::Add),
            Token::Operator(Operator::Subtract),
            Token::Operator(Operator::Divide),
            Token::Operator(Operator::Multiply),
            Token::Operator(Operator::Modulus),
            Token::Operator(Operator::Decrement),
            Token::Operator(Operator::Increment),
            Token::Operator(Operator::Not),
            Token::Operator(Operator::NotEqual),
            Token::Operator(Operator::Equal),
            Token::Eof
        ]
    );
}

#[test]
fn separators() {
    assert_eq!(
        lex("[]{}:(),"),
        vec![
            Token::Separator(Separator::OpenBracket),
            Token::Separator(Separator::CloseBracket),
            Token::Separator(Separator::OpenBrace),
            Token::Separator(Separator::CloseBrace),
            Token::Separator(Separator::Colon),
            Token::Separator(Separator::OpenParentheses),
            Token::Separator(Separator::CloseParentheses),
            Token::Separator(Separator::Comma),
            Token::Eof
        ]
    );
}

#[test]
fn registers_and_dereferences() {
    assert_eq!(
        lex("$ab $*cd"),
        vec![
            reg("ab"),
            Token::Identifier(Identifier::DerefRegister(b"cd".to_vec())),
            Token::Eof
        ]
    );
}

#[test]
fn unknown_character_stops_with_report() {
    let (tokens, fault) = tokenize(&b"x\n  #".to_vec(), &b"prog.s".to_vec());
    assert_eq!(tokens, vec![var("x"), Token::Newline, Token::Eof]);
    let fault = fault.unwrap();
    assert_eq!(fault.kind, LexFaultKind::UnknownCharacter);
    assert_eq!(fault.offset, 4);
    assert_eq!(fault.row, 1);
    assert_eq!(fault.col, 2);
    assert_eq!(
        String::from_utf8(fault.report).unwrap(),
        "Could not parse: prog.s\n1:   #\n     ^\n"
    );
}

#[test]
fn unknown_operator_is_a_fault() {
    let (tokens, fault) = tokenize(&b"a =+= b".to_vec(), &b"t".to_vec());
    assert_eq!(tokens, vec![var("a"), Token::Eof]);
    let fault = fault.unwrap();
    assert_eq!(fault.kind, LexFaultKind::UnknownOperator);
    assert_eq!(fault.offset, 5);
}

#[test]
fn integer_overflow_is_a_fault() {
    let (tokens, fault) = tokenize(&b"18446744073709551616".to_vec(), &b"t".to_vec());
    assert_eq!(tokens, vec![Token::Eof]);
    assert_eq!(fault.unwrap().kind, LexFaultKind::IntegerOverflow);
}

#[test]
fn unterminated_string_is_a_fault() {
    let (tokens, fault) = tokenize(&b"\"abc".to_vec(), &b"t".to_vec());
    assert_eq!(tokens, vec![Token::Eof]);
    assert_eq!(fault.unwrap().kind, LexFaultKind::UnterminatedString);
}

#[test]
fn unterminated_comment_is_a_fault() {
    let (tokens, fault) = tokenize(&b"x ; no end".to_vec(), &b"t".to_vec());
    assert_eq!(tokens, vec![var("x"), Token::Eof]);
    assert_eq!(fault.unwrap().kind, LexFaultKind::UnterminatedComment);
}

#[test]
fn tokenizer_on_a_stream() {
    let input = b"call(main)\n".to_vec();
    let label = b"s".to_vec();
    let tk = Tokenizer::new(IStream::new(&input, &label));
    assert_eq!(
        *tk.get_tokens(),
        vec![
            Token::Keyword(Keyword::Call),
            Token::Separator(Separator::OpenParentheses),
            var("main"),
            Token::Separator(Separator::CloseParentheses),
            Token::Newline,
            Token::Eof
        ]
    );
    assert!(tk.fault.is_none());
}

#[test]
fn table_lookups() {
    assert_eq!(get_kw(&b"sizeof".to_vec()), Some(Keyword::SizeOf));
    assert_eq!(get_kw(&b"size".to_vec()), None);
    assert_eq!(get_op(&b"!=".to_vec()), Some(Operator::NotEqual));
    assert_eq!(get_op(&b"+-".to_vec()), None);
    assert_eq!(get_sep(b':'), Some(Separator::Colon));
    assert_eq!(get_sep(b'#'), None);
    assert_eq!(get_type(&b"byte".to_vec()), Some(Type::Uint8));
    assert_eq!(get_type(&b"word".to_vec()), None);
}

#[test]
fn comment_line_keeps_its_line_break() {
    assert_eq!(lex("; c\n; d\n"), vec![Token::Newline, Token::Newline, Token::Eof]);
    assert_eq!(lex("a ; c\nb"), vec![var("a"), Token::Newline, var("b"), Token::Eof]);
}

#[test]
fn runs_end_where_the_next_token_starts() {
    assert_eq!(
        lex("007!=x"),
        vec![Token::Literal(Literal::Int(7)), Token::Operator(Operator::NotEqual), var("x"), Token::Eof]
    );
    assert_eq!(
        lex("\"a\"b"),
        vec![Token::Literal(Literal::String(b"a".to_vec())), var("b"), Token::Eof]
    );
}

#[test]
fn line_break_tokens_match_line_breaks() {
    let src = "fn f { ; open\n  $a = 1 \t\n\n}  ; done\n";
    let breaks = src.bytes().filter(|b| *b == b'\n').count();
    let tokens = lex(src);
    assert_eq!(tokens.iter().filter(|t| **t == Token::Newline).count(), breaks);
}

#[test]
fn extra_blanks_change_no_token() {
    assert_eq!(lex("let x: [byte, 4]\n$a = 3 + 4\n"), lex("let  x:\t [byte,  4] \n$a  =   3 +\t4 \n"));
    assert_eq!(lex("call(main) ; c\n"), lex("call(main)   \t ; c\n"));
}
