use engine_core::grammar::{GrammarParser, JsonObjectGrammar};

#[test]
fn test_json_object_grammar_state_transitions() {
    let mut grammar = JsonObjectGrammar::new();
    assert!(!grammar.is_accepted());

    // Token 1: "{"
    grammar.advance(1, "{\n").unwrap();
    assert!(!grammar.is_accepted());

    // Token 2: "  \"name\": \"Hermes\","
    grammar.advance(2, "  \"name\": \"Hermes\",\n").unwrap();
    assert!(!grammar.is_accepted());

    // Token 3: "  \"tool_call\": {\"fn\": \"web_search\"}\n"
    grammar.advance(3, "  \"tool_call\": {\"fn\": \"web_search\"}\n").unwrap();
    assert!(!grammar.is_accepted());

    // Token 4: "}" -> Closes root JSON object
    grammar.advance(4, "}").unwrap();
    assert!(grammar.is_accepted());

    // Token 5: Any attempt to append syntax after closing fails
    assert!(grammar.advance(5, "extra text").is_err());
}

#[test]
fn json_object_grammar_error_texts() {
    let mut grammar = JsonObjectGrammar::new();
    let err = grammar.advance(7, "]").unwrap_err();
    assert_eq!(err, "Syntax error advancing grammar with piece \"]\"");
    // A rejected piece leaves the grammar in error: nothing is accepted any more.
    assert!(!grammar.is_accepted());
    let err = grammar.advance(8, "{}").unwrap_err();
    assert_eq!(err, "Syntax error advancing grammar with piece \"{}\"");

    let mut grammar = JsonObjectGrammar::new();
    grammar.advance(1, "{}").unwrap();
    let err = grammar.advance(2, "{}").unwrap_err();
    assert_eq!(err, "Cannot append tokens after JSON completion");
    assert!(grammar.advance(3, " \n").is_ok());

    let mut grammar = JsonObjectGrammar::new();
    grammar.advance(1, "{\"a\": [1, {\"b\": null}]}").unwrap();
    assert!(grammar.is_accepted());
}
