use engine_core::grammar::{JsonGrammar, JsonParserState};

#[test]
fn test_valid_json_object_transitions() {
    let mut grammar = JsonGrammar::new();
    assert!(grammar.is_token_valid("{\"name\":"));
    grammar.advance("{\"name\":");
    assert!(grammar.is_token_valid("\"get_weather\","));
    grammar.advance("\"get_weather\",");
    assert!(grammar.is_token_valid("\"arguments\":{\"city\":\"Paris\"}}"));
    grammar.advance("\"arguments\":{\"city\":\"Paris\"}}");
    assert!(grammar.is_complete());
}

#[test]
fn test_reject_invalid_json_transitions() {
    let mut grammar = JsonGrammar::new();
    grammar.advance("{\"name\":");
    assert!(!grammar.is_token_valid(":"));
    assert!(!grammar.is_token_valid(","));
}

#[test]
fn test_schema_guided_allowed_keys() {
    let grammar = JsonGrammar::inside_object().with_keys(&["city", "weather"]);
    assert!(grammar.is_token_valid("\"city\":"));
    assert!(!grammar.is_token_valid("\"invalid_key\":"));
}

#[test]
fn rejection_is_final() {
    let mut grammar = JsonGrammar::new();
    assert!(grammar.advance("{"));
    assert!(!grammar.advance("}}"));
    // Once a token is rejected, nothing is accepted any more.
    assert!(!grammar.advance("}"));
    assert!(!grammar.advance(" "));
    assert!(!grammar.is_token_valid(" "));
}

#[test]
fn valid_token_is_accepted_by_advance() {
    let mut grammar = JsonGrammar::new();
    for tok in ["{", "\"a\"", ":", "[1, 2.5, -3e2]", ",", "\"b\":", "null", "}"] {
        assert!(grammar.is_token_valid(tok), "token {tok:?}");
        assert!(grammar.advance(tok), "token {tok:?}");
    }
    assert!(grammar.is_complete());
}

#[test]
fn nothing_may_follow_a_complete_value() {
    let mut grammar = JsonGrammar::new();
    assert!(grammar.advance("{}"));
    assert!(grammar.is_complete());
    assert!(!grammar.is_token_valid("x"));
    assert!(grammar.is_token_valid("  "));
}

#[test]
fn bare_literal_at_top_level_is_valid_json() {
    let mut grammar = JsonGrammar::new();
    assert!(grammar.is_token_valid("true"));
    assert!(grammar.advance("true"));
    assert_eq!(grammar.state, JsonParserState::InBooleanOrNull);
    assert!(grammar.is_complete());
    assert!(grammar.advance("  "));
    assert!(grammar.is_complete());

    let mut partial = JsonGrammar::new();
    assert!(partial.advance("nul"));
    assert!(!partial.is_complete());
    assert!(!JsonGrammar::new().advance("trux"));
}

#[test]
fn open_string_at_top_level_is_not_complete() {
    let mut grammar = JsonGrammar::new();
    assert!(grammar.advance("\"abc"));
    assert!(!grammar.is_complete());
    assert!(grammar.advance("\""));
    assert!(grammar.is_complete());
}

#[test]
fn top_level_numbers_follow_json_number_syntax() {
    for (text, complete) in [
        ("42", true),
        ("-0.5e+3", true),
        ("0", true),
        ("1e", false),
        ("-", false),
        ("1.", false),
        ("7 ", true),
    ] {
        let mut grammar = JsonGrammar::new();
        assert!(grammar.advance(text), "text {text:?}");
        assert_eq!(grammar.is_complete(), complete, "text {text:?}");
    }
    for text in ["01", "1e ", "1.5.2", "--1", "1-2"] {
        let mut grammar = JsonGrammar::new();
        assert!(!grammar.advance(text), "text {text:?}");
        assert!(!grammar.is_complete(), "text {text:?}");
    }
}

#[test]
fn numbers_inside_containers_follow_json_number_syntax() {
    let grammar = JsonGrammar::new();
    assert!(grammar.is_token_valid("[1, -2.5e3, 0]"));
    assert!(!grammar.is_token_valid("[1-2]"));
    assert!(!grammar.is_token_valid("[1.]"));
    assert!(!grammar.is_token_valid("{\"a\": 00}"));
    assert!(!grammar.is_token_valid("{\"a\": -}"));
}

#[test]
fn objects_reject_a_trailing_comma() {
    let grammar = JsonGrammar::new();
    assert!(grammar.is_token_valid("{ }"));
    assert!(grammar.is_token_valid("{\"a\": 1}"));
    assert!(!grammar.is_token_valid("{\"a\": 1,}"));
    assert!(!grammar.is_token_valid("{\"a\": 1, }"));
    assert!(!grammar.is_token_valid("[1,]"));
}

#[test]
fn strings_follow_json_escapes() {
    let grammar = JsonGrammar::new();
    assert!(grammar.is_token_valid("\"a\\n\\\"b\\u00e9\\/\""));
    assert!(!grammar.is_token_valid("\"\\a\""));
    assert!(!grammar.is_token_valid("\"\\0\""));
    assert!(!grammar.is_token_valid("\"\\u12G4\""));
    assert!(!grammar.is_token_valid("\"\\u12\""));
    assert!(!grammar.is_token_valid("\"tab\there\""));
    // Keys take the same escapes.
    assert!(grammar.is_token_valid("{\"a\\\"b\\u0041\": 1}"));
    assert!(!grammar.is_token_valid("{\"a\\qb\": 1}"));
    assert!(!grammar.is_token_valid("{\"a\\u00\": 1}"));
    let mut grammar = JsonGrammar::new();
    assert!(grammar.advance("\"\\u00E9\""));
    assert!(grammar.is_complete());
}

#[test]
fn only_json_whitespace_between_tokens() {
    let grammar = JsonGrammar::new();
    assert!(grammar.is_token_valid("{ \t\r\n}"));
    assert!(!grammar.is_token_valid("{\u{a0}}"));
    assert!(!grammar.is_token_valid("[1,\u{2028}2]"));
}

#[test]
fn only_one_value_at_top_level() {
    let mut grammar = JsonGrammar::new();
    assert!(grammar.advance("1"));
    assert!(!grammar.is_token_valid(","));
    assert!(!grammar.advance(", 2"));
    assert_eq!(grammar.state, JsonParserState::Error);
    let mut grammar = JsonGrammar::new();
    assert!(grammar.advance("\"a\" "));
    assert!(!grammar.advance(","));
    // Inside an array a comma still separates values.
    let mut grammar = JsonGrammar::new();
    assert!(grammar.advance("[1, true, \"x\"]"));
    assert!(grammar.is_complete());
}

#[test]
fn bracket_stack_holds_only_closers() {
    let mut grammar = JsonGrammar::new();
    for tok in ["{\"a\":", "[", "{\"b\":", "[1", "]", "}", "]", "}"] {
        grammar.advance(tok);
        assert_eq!(grammar.depth, grammar.stack.len());
        assert!(grammar.stack.iter().all(|c| *c == '}' || *c == ']'));
        if grammar.state == JsonParserState::Complete {
            assert_eq!(grammar.depth, 0);
        }
    }
    assert_eq!(grammar.state, JsonParserState::Complete);
    grammar.advance("x");
    assert_eq!(grammar.depth, grammar.stack.len());
}

#[test]
fn buffer_records_exactly_the_text_read() {
    let mut grammar = JsonGrammar::new();
    assert!(grammar.advance("[1, {\"a\": [true]}"));
    assert!(grammar.advance("]"));
    assert_eq!(grammar.buffer, "[1, {\"a\": [true]}]");
    assert!(grammar.is_complete());
}

#[test]
fn error_state_absorbs_every_piece() {
    let mut grammar = JsonGrammar::new();
    assert!(grammar.advance("\"a\\"));
    assert!(!grammar.advance("x"));
    assert_eq!(grammar.state, JsonParserState::Error);
    assert!(!grammar.in_escape);
    assert!(!grammar.advance("\""));
    assert_eq!(grammar.state, JsonParserState::Error);
    assert!(grammar.advance(""));
    assert_eq!(grammar.state, JsonParserState::Error);
}

#[test]
fn allowed_keys_compare_the_raw_key_text() {
    let grammar = JsonGrammar::inside_object().with_keys(&["a\\nb"]);
    assert!(grammar.is_token_valid("\"a\\nb\": 1"));
    assert!(!grammar.is_token_valid("\"a\\tb\": 1"));
}
