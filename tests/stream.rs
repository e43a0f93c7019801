use dslc::combinator::{is_int, is_kw_or_var, is_op, is_quote, is_register_name, is_ws, parse_decimal, push_decimal};
use dslc::stream::{CharClass, IStream};

#[test]
fn byte_classes() {
    assert!(is_ws(b' ') && is_ws(b'\t') && !is_ws(b'\n'));
    assert!(is_int(b'0') && is_int(b'9') && !is_int(b'a'));
    assert!(is_quote(b'"') && !is_quote(b'\''));
    assert!(is_kw_or_var(b'a') && is_kw_or_var(b'Z') && is_kw_or_var(b'_') && !is_kw_or_var(b'1'));
    assert!(is_op(b'=') && is_op(b'%') && is_op(b'!') && !is_op(b'$'));
    assert!(is_register_name(b'q') && !is_register_name(b'Q'));
}

#[test]
fn decimal_round_trip() {
    let mut out = Vec::new();
    push_decimal(&mut out, 1234567890);
    assert_eq!(out, b"1234567890".to_vec());
    assert_eq!(parse_decimal(&out), Some(1234567890));
    assert_eq!(parse_decimal(&b"18446744073709551616".to_vec()), None);
}

#[test]
fn stream_tracks_rows_and_columns() {
    let input = b"ab\ncd".to_vec();
    let label = b"f".to_vec();
    let mut is = IStream::new(&input, &label);
    assert_eq!(is.len(), 5);
    assert_eq!(is.peek(0), Some(b'a'));
    assert_eq!(is.peek(-1), None);
    assert_eq!(is.next(), b'a');
    assert_eq!(is.peek(-1), Some(b'a'));
    assert_eq!(is.take_while(CharClass::Word), b"b".to_vec());
    assert!(is.take_to_c(b'\n'));
    assert_eq!((is.row, is.col), (1, 0));
    assert_eq!(is.get_current_line(), b"cd".to_vec());
    is.next();
    assert_eq!((is.row, is.col), (1, 1));
    assert_eq!(String::from_utf8(is.err()).unwrap(), "Could not parse: f\n1: cd\n    ^\n");
    assert_eq!(is.take_while(CharClass::Word), b"d".to_vec());
    assert!(is.empty);
}

#[test]
fn take_to_c_consumes_the_byte() {
    let input = b"; note\nx".to_vec();
    let label = b"f".to_vec();
    let mut is = IStream::new(&input, &label);
    assert!(is.take_to_c(b'\n'));
    assert_eq!(is.peek(0), Some(b'x'));
    assert!(!is.take_to_c(b'\n'));
    assert_eq!(is.peek(0), None);
    assert!(is.empty);
}
