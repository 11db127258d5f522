use minijson::tokenize::{tokenize, Token, TokenizeError};

#[test]
fn test_tokenize() {
    let input = String::from(",");
    let expected = vec![Token::Comma];
    let tokens = tokenize(input).unwrap();
    assert_eq!(tokens, expected);
}

#[test]
fn all_punctuation() {
    let input = String::from("{}[],:");
    let expected = vec![
        Token::LeftBrace,
        Token::RightBrace,
        Token::LeftBracket,
        Token::RightBracket,
        Token::Comma,
        Token::Colon,
    ];
    let tokens = tokenize(input).unwrap();
    assert_eq!(tokens, expected);
}

#[test]
fn just_null() {
    let input = String::from("null");
    let expected = [Token::Null];

    let actual = tokenize(input).unwrap();

    assert_eq!(actual, expected);
}

#[test]
fn just_false() {
    let input = String::from("false");
    let expected = [Token::False];

    let actual = tokenize(input).unwrap();

    assert_eq!(actual, expected);
}

#[test]
fn just_true() {
    let input = String::from("true");
    let expected = [Token::True];

    let actual = tokenize(input).unwrap();

    assert_eq!(actual, expected);
}

#[test]
fn true_comma() {
    let input = String::from("true,");
    let expected = [Token::True, Token::Comma];

    let actual = tokenize(input).unwrap();

    assert_eq!(actual, expected);
}

#[test]
fn integer() {
    let input = String::from("123");
    let expected = [Token::Number(String::from("123"))];

    let actual = tokenize(input).unwrap();

    assert_eq!(actual, expected);
    // The literal denotes the same double the original token carried.
    match &actual[0] {
        Token::Number(lit) => assert_eq!(lit.parse::<f64>().unwrap(), 123.0),
        _ => unreachable!(),
    }
}

#[test]
fn floating_point() {
    let input = String::from("1.23");
    let expected = [Token::Number(String::from("1.23"))];

    let actual = tokenize(input).unwrap();

    assert_eq!(actual, expected);
    match &actual[0] {
        Token::Number(lit) => assert_eq!(lit.parse::<f64>().unwrap(), 1.23),
        _ => unreachable!(),
    }
}

#[test]
fn just_ken() {
    let input = String::from("\"ken\"");
    let expected = [Token::String(String::from("ken"))];

    let actual = tokenize(input).unwrap();

    assert_eq!(actual, expected);
}

#[test]
fn escaped_quote() {
    let input = String::from(r#""the \" is OK""#);
    let expected = [Token::String(String::from(r#"the \" is OK"#))];

    let actual = tokenize(input).unwrap();

    assert_eq!(actual, expected);
}

#[test]
fn whitespace_insensitive() {
    let spaced = tokenize(String::from(" {  } ")).unwrap();
    let tight = tokenize(String::from("{}")).unwrap();
    assert_eq!(spaced, tight);
    assert_eq!(tight, vec![Token::LeftBrace, Token::RightBrace]);
}

#[test]
fn whitespace_only_input_is_empty() {
    assert_eq!(tokenize(String::from("   \t\n")).unwrap(), vec![]);
    assert_eq!(tokenize(String::new()).unwrap(), vec![]);
}

#[test]
fn numeric_fidelity_trailing_zero() {
    let actual = tokenize(String::from("1.50")).unwrap();
    assert_eq!(actual, [Token::Number(String::from("1.50"))]);
    match &actual[0] {
        Token::Number(lit) => assert_eq!(lit.parse::<f64>().unwrap(), 1.5),
        _ => unreachable!(),
    }
}

#[test]
fn negative_and_exponent() {
    let actual = tokenize(String::from("-1.5e3")).unwrap();
    assert_eq!(actual, [Token::Number(String::from("-1.5e3"))]);
    match &actual[0] {
        Token::Number(lit) => assert_eq!(lit.parse::<f64>().unwrap(), -1500.0),
        _ => unreachable!(),
    }
}

#[test]
fn unfinished_literal() {
    assert_eq!(
        tokenize(String::from("nul")),
        Err(TokenizeError::UnfinishedLiteralValue)
    );
    assert_eq!(
        tokenize(String::from("falze")),
        Err(TokenizeError::UnfinishedLiteralValue)
    );
    assert_eq!(
        tokenize(String::from("trua")),
        Err(TokenizeError::UnfinishedLiteralValue)
    );
}

#[test]
fn unclosed_quotes() {
    assert_eq!(
        tokenize(String::from("\"unterminated")),
        Err(TokenizeError::UnclosedQuotes)
    );
}

#[test]
fn bad_number_buffer() {
    assert_eq!(
        tokenize(String::from("1e")),
        Err(TokenizeError::ParseNumberError(String::from("1e")))
    );
    assert_eq!(
        tokenize(String::from("-")),
        Err(TokenizeError::ParseNumberError(String::from("-")))
    );
}

#[test]
fn char_not_recognized() {
    assert_eq!(
        tokenize(String::from("%")),
        Err(TokenizeError::CharNotRecognized('%'))
    );
}
