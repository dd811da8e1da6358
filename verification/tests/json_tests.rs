use jsonish::lexer::{Lexer, LexError};
use jsonish::parser::{Parser, ParseError};
use jsonish::render::{AstDisplay, AstWrapper};
use jsonish::token::JsonToken;
use jsonish::value::JsonValue;

fn parse_text(text: &str) -> Result<JsonValue, ParseError> {
    let mut lexer = Lexer::new(text);
    let tokens = lexer.tokenize().expect("lexing should succeed");
    let mut parser = Parser::new(tokens.as_slice());
    parser.parse()
}

#[test]
fn tokenize_structural_and_whitespace() {
    let mut lexer = Lexer::new("{ }");
    let tokens = lexer.tokenize().unwrap();
    assert_eq!(
        tokens,
        vec![JsonToken::LeftBrace, JsonToken::Whitespace, JsonToken::RightBrace]
    );
}

#[test]
fn tokenize_each_whitespace_char_separately() {
    let mut lexer = Lexer::new("[\t\n\r ]");
    let tokens = lexer.tokenize().unwrap();
    assert_eq!(tokens.len(), 6);
    assert_eq!(tokens[1], JsonToken::Whitespace);
    assert_eq!(tokens[2], JsonToken::Whitespace);
    assert_eq!(tokens[3], JsonToken::Whitespace);
    assert_eq!(tokens[4], JsonToken::Whitespace);
}

#[test]
fn tokenize_string_payload() {
    let mut lexer = Lexer::new("{\"k\": \"ab\"}");
    let tokens = lexer.tokenize().unwrap();
    assert_eq!(tokens[1], JsonToken::String("k".to_string()));
    assert_eq!(tokens[4], JsonToken::String("ab".to_string()));
}

#[test]
fn tokenize_number_keeps_raw_text() {
    let mut lexer = Lexer::new("[12.50]");
    let tokens = lexer.tokenize().unwrap();
    assert_eq!(tokens[1], JsonToken::Number("12.50".to_string()));
}

#[test]
fn tokenize_keywords() {
    let mut lexer = Lexer::new("[true,false,null]");
    let tokens = lexer.tokenize().unwrap();
    assert_eq!(tokens[1], JsonToken::Boolean(true));
    assert_eq!(tokens[3], JsonToken::Boolean(false));
    assert_eq!(tokens[5], JsonToken::Null);
}

#[test]
fn tokenize_unterminated_string_fails() {
    let mut lexer = Lexer::new("{\"a\":\"hi");
    assert_eq!(lexer.tokenize(), Err(LexError::UnterminatedString));
}

#[test]
fn tokenize_invalid_character_fails() {
    let mut lexer = Lexer::new("{@}");
    assert_eq!(lexer.tokenize(), Err(LexError::InvalidCharacter('@')));
}

#[test]
fn tokenize_invalid_constant_fails() {
    let mut lexer = Lexer::new("[trxx]");
    assert_eq!(
        lexer.tokenize(),
        Err(LexError::InvalidConstant("trxx".to_string()))
    );
}

#[test]
fn tokenize_eof_mid_keyword_fails() {
    let mut lexer = Lexer::new("[tr");
    assert_eq!(lexer.tokenize(), Err(LexError::UnexpectedEof));
}

#[test]
fn empty_object_parses() {
    let v = parse_text("{}").unwrap();
    match v {
        JsonValue::JsonObject(pairs) => assert_eq!(pairs.len(), 0),
        _ => panic!("expected an object"),
    }
}

#[test]
fn empty_array_parses() {
    let v = parse_text("[]").unwrap();
    match v {
        JsonValue::JsonArray(items) => assert_eq!(items.len(), 0),
        _ => panic!("expected an array"),
    }
}

#[test]
fn whitespace_insensitive_parse() {
    let a = parse_text("{\"a\":1}").unwrap();
    let b = parse_text("{ \"a\" : 1 }").unwrap();
    let c = parse_text("{\n\"a\"\n:\n1\n}").unwrap();
    assert_eq!(a.render_compact(), b.render_compact());
    assert_eq!(b.render_compact(), c.render_compact());
    assert_eq!(a.render_compact(), "{\"a\": 1}");
}

#[test]
fn trailing_comma_in_object_fails() {
    assert_eq!(parse_text("{\"a\":1,}").unwrap_err(), ParseError::TrailingComma);
}

#[test]
fn trailing_comma_in_array_fails() {
    assert_eq!(parse_text("[1,]").unwrap_err(), ParseError::TrailingComma);
}

#[test]
fn no_trailing_comma_succeeds() {
    assert!(parse_text("{\"a\":1}").is_ok());
    assert!(parse_text("[1]").is_ok());
}

#[test]
fn bare_scalar_rejected() {
    assert_eq!(parse_text("42").unwrap_err(), ParseError::NoTokensToParse);
}

#[test]
fn bare_string_rejected() {
    assert_eq!(parse_text("\"hi\"").unwrap_err(), ParseError::NoTokensToParse);
}

#[test]
fn empty_input_rejected() {
    assert_eq!(parse_text("").unwrap_err(), ParseError::NoTokensToParse);
}

#[test]
fn missing_colon_fails() {
    assert_eq!(parse_text("{\"a\" 1}").unwrap_err(), ParseError::ExpectedColon);
}

#[test]
fn non_string_key_fails() {
    assert_eq!(parse_text("{1:2}").unwrap_err(), ParseError::ExpectedKeyOrRightBrace);
}

#[test]
fn missing_comma_between_pairs_fails() {
    assert_eq!(
        parse_text("{\"a\":1 \"b\":2}").unwrap_err(),
        ParseError::ExpectedCommaOrRightBrace
    );
}

#[test]
fn leading_comma_in_array_fails() {
    assert_eq!(parse_text("[,1]").unwrap_err(), ParseError::UnexpectedToken);
}

#[test]
fn missing_comma_between_elements_tolerated() {
    let v = parse_text("[1 2]").unwrap();
    assert_eq!(v.render_compact(), "[1, 2]");
}

#[test]
fn nested_structure_parses() {
    let v = parse_text("{\"a\":[1,2,{\"b\":null}]}").unwrap();
    match &v {
        JsonValue::JsonObject(pairs) => {
            assert_eq!(pairs.len(), 1);
            assert_eq!(pairs[0].0, "a");
            match pairs[0].1.as_ref() {
                JsonValue::JsonArray(items) => {
                    assert_eq!(items.len(), 3);
                    match items[0].as_ref() {
                        JsonValue::Number(n) => assert_eq!(n, "1"),
                        _ => panic!("expected a number"),
                    }
                    match items[1].as_ref() {
                        JsonValue::Number(n) => assert_eq!(n, "2"),
                        _ => panic!("expected a number"),
                    }
                    match items[2].as_ref() {
                        JsonValue::JsonObject(inner) => {
                            assert_eq!(inner.len(), 1);
                            assert_eq!(inner[0].0, "b");
                            assert!(matches!(inner[0].1.as_ref(), JsonValue::Null));
                        },
                        _ => panic!("expected an object"),
                    }
                },
                _ => panic!("expected an array"),
            }
        },
        _ => panic!("expected an object"),
    }
    assert_eq!(v.render_compact(), "{\"a\": [1, 2, {\"b\": null}]}");
}

#[test]
fn duplicate_keys_kept_in_order() {
    let v = parse_text("{\"a\":1,\"a\":2}").unwrap();
    assert_eq!(v.render_compact(), "{\"a\": 1, \"a\": 2}");
}

#[test]
fn compact_render_leaves() {
    let v = parse_text("[\"s\", 3.5, true, false, null]").unwrap();
    assert_eq!(v.render_compact(), "[\"s\", 3.5, true, false, null]");
}

#[test]
fn round_trip_through_compact_text() {
    let sources = [
        "{}",
        "[]",
        "{\"a\": [1, 2, {\"b\": null}], \"c\": \"x y\"}",
        "[[[]]]",
        "[true, false, null, 0.5, \"\"]",
    ];
    for text in sources {
        let v = parse_text(text).unwrap();
        let rendered = v.render_compact();
        let reparsed = parse_text(&rendered).unwrap();
        assert_eq!(reparsed.render_compact(), rendered);
    }
}

#[test]
fn rendering_twice_is_identical() {
    let v = parse_text("{\"a\": [1, {\"b\": true}]}").unwrap();
    assert_eq!(v.render_compact(), v.render_compact());
    assert_eq!(v.ast_fmt(0), v.ast_fmt(0));
}

#[test]
fn ast_render_null() {
    let v = parse_text("[null]").unwrap();
    match v {
        JsonValue::JsonArray(items) => {
            assert_eq!(items[0].ast_fmt(0), "Null\n");
        },
        _ => panic!("expected an array"),
    }
}

#[test]
fn ast_render_object() {
    let v = parse_text("{\"a\": 1}").unwrap();
    assert_eq!(
        v.ast_fmt(0),
        "JsonObject of size 1 {\n  Key: a, Value:     Number: 1\n}\n"
    );
}

#[test]
fn ast_render_array() {
    let v = parse_text("[true]").unwrap();
    assert_eq!(v.ast_fmt(0), "JsonArray of size 1 [\n    Boolean: true\n]\n");
}

#[test]
fn ast_render_string_leaf() {
    let v = parse_text("[\"hi\"]").unwrap();
    match v {
        JsonValue::JsonArray(items) => {
            assert_eq!(items[0].ast_fmt(2), "  String: \"hi\"\n");
        },
        _ => panic!("expected an array"),
    }
}

#[test]
fn ast_render_counts_above_nine() {
    let v = parse_text("[1,2,3,4,5,6,7,8,9,0,1,2]").unwrap();
    let text = v.ast_fmt(0);
    assert!(text.starts_with("JsonArray of size 12 [\n"));
}

#[test]
fn permissive_number_text_kept_verbatim() {
    let v = parse_text("[01.2.3]").unwrap();
    assert_eq!(v.render_compact(), "[01.2.3]");
}

#[test]
fn ast_wrapper_dumps_from_depth_zero() {
    let v = parse_text("{\"a\": 1}").unwrap();
    assert_eq!(AstWrapper(&v).to_text(), v.ast_fmt(0));
}

#[test]
fn tokens_past_the_root_are_left_unread() {
    let v = parse_text("{} 42").unwrap();
    assert_eq!(v.render_compact(), "{}");
}
