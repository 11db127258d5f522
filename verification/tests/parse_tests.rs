use minijson::parse::{parse, parse_token, TokenParseError, MAX_DEPTH};
use minijson::serialize::serialize;
use minijson::tokenize::{tokenize, Token};
use minijson::Value;

fn check(input: &Vec<Token>, expected: Value) {
    let actual = parse_token(input, &mut 0, MAX_DEPTH).unwrap();
    assert_eq!(actual, expected);
}

#[test]
fn parses_string_no_escapes() {
    let input = vec![Token::String("hello world".into())];
    let expected = Value::String("hello world".into());

    check(&input, expected);
}

#[test]
fn empty_containers() {
    let toks = tokenize(String::from("[]")).unwrap();
    assert_eq!(parse(&toks).unwrap(), Value::Array(vec![]));
    let toks = tokenize(String::from("{}")).unwrap();
    assert_eq!(parse(&toks).unwrap(), Value::Object(vec![]));
}

#[test]
fn nesting() {
    let toks = tokenize(String::from("[1,[2,3],{\"a\":true}]")).unwrap();
    let expected = Value::Array(vec![
        Value::Number("1".into()),
        Value::Array(vec![Value::Number("2".into()), Value::Number("3".into())]),
        Value::Object(vec![("a".into(), Value::Boolean(true))]),
    ]);
    assert_eq!(parse(&toks).unwrap(), expected);
}

#[test]
fn scalars() {
    let toks = tokenize(String::from("null")).unwrap();
    assert_eq!(parse(&toks).unwrap(), Value::Null);
    let toks = tokenize(String::from("true")).unwrap();
    assert_eq!(parse(&toks).unwrap(), Value::Boolean(true));
    let toks = tokenize(String::from("false")).unwrap();
    assert_eq!(parse(&toks).unwrap(), Value::Boolean(false));
}

#[test]
fn escape_resolution_single_pass() {
    // The text "a\"b" (a quote escaped inside a string literal) parses to
    // the three characters a, quote, b: one unescape pass only.
    let toks = tokenize(String::from(r#""a\"b""#)).unwrap();
    assert_eq!(parse(&toks).unwrap(), Value::String(String::from("a\"b")));
}

#[test]
fn named_escapes() {
    let toks = tokenize(String::from(r#""x\n\t\r\b\f\/\\y""#)).unwrap();
    assert_eq!(
        parse(&toks).unwrap(),
        Value::String(String::from("x\n\t\r\u{0008}\u{000c}/\\y"))
    );
}

#[test]
fn unicode_escape() {
    let toks = tokenize(String::from(r#""\u0041\u00e9""#)).unwrap();
    assert_eq!(parse(&toks).unwrap(), Value::String(String::from("A\u{e9}")));
}

#[test]
fn bad_escapes() {
    let toks = tokenize(String::from(r#""\x""#)).unwrap();
    assert_eq!(
        parse(&toks),
        Err(TokenParseError::StringDecodeError(String::from(r"\x")))
    );
    // A lone surrogate is not a Unicode scalar value.
    let toks = tokenize(String::from(r#""\ud800""#)).unwrap();
    assert_eq!(
        parse(&toks),
        Err(TokenParseError::StringDecodeError(String::from(r"\ud800")))
    );
    // Incomplete escape at the end of the literal body.
    let toks = tokenize(String::from(r#""\u00""#)).unwrap();
    assert_eq!(
        parse(&toks),
        Err(TokenParseError::StringDecodeError(String::from(r"\u00")))
    );
}

#[test]
fn unexpected_end_of_input() {
    let toks = tokenize(String::from("[1,2")).unwrap();
    assert_eq!(parse(&toks), Err(TokenParseError::UnexpectedEndOfInput));
}

#[test]
fn malformed_key() {
    let toks = tokenize(String::from("{1:2}")).unwrap();
    assert_eq!(
        parse(&toks),
        Err(TokenParseError::MalformedKey(Token::Number("1".into()), 1))
    );
}

#[test]
fn unexpected_token() {
    let toks = tokenize(String::from(",")).unwrap();
    assert_eq!(
        parse(&toks),
        Err(TokenParseError::UnexpectedToken(Token::Comma, 0))
    );
}

#[test]
fn trailing_data_rejected() {
    let toks = tokenize(String::from("{} {}")).unwrap();
    assert_eq!(parse(&toks), Err(TokenParseError::TrailingData(2)));
}

#[test]
fn depth_exceeded() {
    let text = format!("{}1{}", "[".repeat(70), "]".repeat(70));
    let toks = tokenize(text).unwrap();
    assert_eq!(parse(&toks), Err(TokenParseError::DepthExceeded));
}

#[test]
fn duplicate_keys_last_wins() {
    let toks = tokenize(String::from(r#"{"a":1,"b":2,"a":3}"#)).unwrap();
    let expected = Value::Object(vec![
        ("a".into(), Value::Number("3".into())),
        ("b".into(), Value::Number("2".into())),
    ]);
    assert_eq!(parse(&toks).unwrap(), expected);
}

#[test]
fn round_trip() {
    let original = Value::Array(vec![
        Value::Number("1.5".into()),
        Value::Null,
        Value::Boolean(false),
        Value::String("say \"hi\"\\".into()),
        Value::Object(vec![
            ("k".into(), Value::Array(vec![])),
            ("m".into(), Value::Number("-2e3".into())),
        ]),
    ]);
    let text = serialize(&original);
    let toks = tokenize(text).unwrap();
    let reparsed = parse(&toks).unwrap();
    assert_eq!(reparsed, original);
}

#[test]
fn serialize_forms() {
    assert_eq!(serialize(&Value::Null), "null");
    assert_eq!(
        serialize(&Value::Object(vec![("a".into(), Value::Boolean(true))])),
        r#"{"a":true}"#
    );
    assert_eq!(
        serialize(&Value::String("q\"w".into())),
        r#""q\"w""#
    );
}
