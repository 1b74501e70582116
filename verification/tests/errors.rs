use rsjson::Json;
use rsjson::lex::tokenize;
use rsjson::parse::{parse, ParseError};
use rsjson::token::LexError;

#[test]
fn trailing_comma_in_object_rejected() {
    assert!(Json::fromString("{\"a\":1,}").is_err());
}

#[test]
fn unterminated_string_rejected() {
    assert!(Json::fromString("{\"a\":\"unterminated").is_err());
    assert_eq!(
        tokenize("{\"a\":\"unterminated"),
        Err(LexError::UnterminatedString)
    );
}

#[test]
fn missing_value_rejected() {
    assert!(Json::fromString("{\"a\":}").is_err());
}

#[test]
fn bare_list_rejected_at_top_level() {
    let r = Json::fromString("[1,2]");
    assert_eq!(
        r.unwrap_err(),
        "Json format error: missing opening curly bracket"
    );
}

#[test]
fn empty_input_rejected() {
    let r = Json::fromString("");
    assert_eq!(
        r.unwrap_err(),
        "Json format error: missing opening curly bracket"
    );
}

#[test]
fn generic_error_message_for_malformed_content() {
    let r = Json::fromString("{\"a\":1,}");
    assert_eq!(r.unwrap_err(), "Json format error");
}

#[test]
fn unterminated_number_rejected() {
    assert_eq!(tokenize("{\"a\":1"), Err(LexError::UnterminatedNumber));
}

#[test]
fn malformed_decimal_rejected() {
    assert_eq!(tokenize("{\"a\":1.2.3}"), Err(LexError::MalformedNumber));
    assert_eq!(tokenize("{\"a\":.}"), Err(LexError::MalformedNumber));
}

#[test]
fn oversized_integer_rejected() {
    assert_eq!(
        tokenize("{\"a\":99999999999999999999999999}"),
        Err(LexError::IntegerOverflow)
    );
}

#[test]
fn broken_literal_rejected() {
    assert_eq!(tokenize("{\"a\":tru}"), Err(LexError::UnknownLiteral));
    assert_eq!(tokenize("{\"a\":nul}"), Err(LexError::UnknownLiteral));
    assert_eq!(tokenize("{\"a\":fals}"), Err(LexError::UnknownLiteral));
}

#[test]
fn stray_character_rejected() {
    assert_eq!(tokenize("{\"a\": @}"), Err(LexError::UnexpectedChar));
}

#[test]
fn parser_error_kinds() {
    let toks = tokenize("{\"a\" 1}").unwrap();
    assert_eq!(parse(&toks), Err(ParseError::ExpectedColon));

    let toks = tokenize("{1:2}").unwrap();
    assert_eq!(parse(&toks), Err(ParseError::ExpectedLabel));

    let toks = tokenize("{\"a\":}").unwrap();
    assert_eq!(parse(&toks), Err(ParseError::ExpectedValue));

    let toks = tokenize("{\"a\":1").unwrap_err();
    assert_eq!(toks, LexError::UnterminatedNumber);

    let toks = tokenize("{\"a\":1 ").unwrap();
    assert_eq!(parse(&toks), Err(ParseError::UnexpectedEnd));

    let toks = tokenize("{\"a\":1 2}").unwrap();
    assert_eq!(parse(&toks), Err(ParseError::ExpectedCommaOrBrace));

    let toks = tokenize("{\"a\":[1 2]}").unwrap();
    assert_eq!(parse(&toks), Err(ParseError::ExpectedCommaOrBracket));

    let toks = tokenize("{\"a\":1}{}").unwrap();
    assert_eq!(parse(&toks), Err(ParseError::TrailingTokens));

    let toks = tokenize("{\"a\":{\"b\":1}").unwrap();
    assert_eq!(parse(&toks), Err(ParseError::UnexpectedEnd));

    let toks = tokenize("42").unwrap_err();
    assert_eq!(toks, LexError::UnterminatedNumber);

    let toks = tokenize("true").unwrap();
    assert_eq!(parse(&toks), Err(ParseError::MissingOpenBrace));

    // a comma must be followed by another entry or element
    let toks = tokenize("{\"a\":1,}").unwrap();
    assert_eq!(parse(&toks), Err(ParseError::ExpectedLabel));

    let toks = tokenize("{\"k\":[1,2,]}").unwrap();
    assert_eq!(parse(&toks), Err(ParseError::ExpectedValue));
}

#[test]
fn empty_list_and_nested_empty_object_accepted() {
    let j = Json::fromString("{\"l\":[],\"o\":{}}").unwrap();
    assert_eq!(j.toString(), "{\"l\":[],\"o\":{}}");
}
