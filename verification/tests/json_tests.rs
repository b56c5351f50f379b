use llk::LlkError;
use llk::LlkGrammar;
use llk::LlkParser;

#[test]
fn from_json_accepts_valid_document() {
    let doc = r#"{
        "term_symbols": "ab",
        "nterm_symbols": "SA",
        "start_symbol": "S",
        "lookahead": 2,
        "productions": [
            {"nterm": "S", "derivative": "Ab"},
            {"nterm": "A", "derivative": "aA"},
            {"nterm": "A", "derivative": "a"}
        ]
    }"#;
    let grammar = LlkGrammar::from_json(doc).unwrap();
    let tree = LlkParser::new(grammar).parse("aab").unwrap();
    let leaves: String = tree
        .lrn()
        .into_iter()
        .filter(|(_, id)| id.is_none())
        .map(|(c, _)| c)
        .collect();
    assert_eq!(leaves, "aab");
}

#[test]
fn from_json_normalises_epsilon() {
    let doc = r#"{
        "term_symbols": "ab",
        "nterm_symbols": "SA",
        "start_symbol": "S",
        "lookahead": 2,
        "productions": [
            {"nterm": "S", "derivative": "aAb"},
            {"nterm": "A", "derivative": "a"},
            {"nterm": "A", "derivative": null},
            {"nterm": "A", "derivative": ""}
        ]
    }"#;
    // the null and the empty-string derivative both mean epsilon, so
    // the grammar has two identical epsilon productions for A and the
    // LL(k) disjointness check must reject it
    assert!(matches!(
        LlkGrammar::from_json(doc),
        Err(LlkError::InvalidGrammar(_))
    ));
}

#[test]
fn from_json_epsilon_parses() {
    let doc = r#"{
        "term_symbols": "ab",
        "nterm_symbols": "SA",
        "start_symbol": "S",
        "lookahead": 1,
        "productions": [
            {"nterm": "S", "derivative": "aAb"},
            {"nterm": "A", "derivative": "a"},
            {"nterm": "A", "derivative": null}
        ]
    }"#;
    let grammar = LlkGrammar::from_json(doc).unwrap();
    let parser = LlkParser::new(grammar);
    assert!(parser.parse("ab").is_ok());
    assert!(parser.parse("aab").is_ok());
    assert!(matches!(
        parser.parse("aaab"),
        Err(LlkError::DerivationFailed(_))
    ));
}

#[test]
fn from_json_rejects_malformed_documents() {
    assert!(matches!(
        LlkGrammar::from_json("not json at all"),
        Err(LlkError::GrammarFromJsonFailed(_))
    ));
    assert!(matches!(
        LlkGrammar::from_json(r#"{"term_symbols": 3}"#),
        Err(LlkError::GrammarFromJsonFailed(_))
    ));
    assert!(matches!(
        LlkGrammar::from_json(r#"{"term_symbols": "ab", "nterm_symbols": "S"}"#),
        Err(LlkError::GrammarFromJsonFailed(_))
    ));
    assert!(matches!(
        LlkGrammar::from_json(
            r#"{"term_symbols": "ab", "nterm_symbols": "S", "start_symbol": "SS",
                "lookahead": 1, "productions": []}"#
        ),
        Err(LlkError::GrammarFromJsonFailed(_))
    ));
    assert!(matches!(
        LlkGrammar::from_json(
            r#"{"term_symbols": "ab", "nterm_symbols": "S", "start_symbol": "S",
                "lookahead": 1, "productions": [{"nterm": "S", "derivative": 7}]}"#
        ),
        Err(LlkError::GrammarFromJsonFailed(_))
    ));
    assert!(matches!(
        LlkGrammar::from_json(
            r#"{"term_symbols": "ab", "nterm_symbols": "S", "start_symbol": "S",
                "lookahead": 1, "productions": "none"}"#
        ),
        Err(LlkError::GrammarFromJsonFailed(_))
    ));
    assert!(matches!(
        LlkGrammar::from_json(
            r#"{"term_symbols": "ab", "nterm_symbols": "S", "start_symbol": "S",
                "lookahead": 1.5, "productions": []}"#
        ),
        Err(LlkError::GrammarFromJsonFailed(_))
    ));
}

#[test]
fn from_json_rejects_invalid_grammar() {
    let doc = r#"{
        "term_symbols": "a",
        "nterm_symbols": "S",
        "start_symbol": "S",
        "lookahead": 99,
        "productions": [{"nterm": "S", "derivative": "a"}]
    }"#;
    assert!(matches!(
        LlkGrammar::from_json(doc),
        Err(LlkError::InvalidGrammar(_))
    ));
}

#[test]
fn grammar_helpers() {
    let grammar = LlkGrammar::new(
        vec!['a', 'b', '$'],
        vec!['S', 'A'],
        'S',
        3,
        vec![
            ('S', Some("Ab$".to_string())),
            ('A', Some("aA".to_string())),
            ('A', Some("a".to_string())),
        ],
    )
    .unwrap();

    assert!(grammar.is_term('a') && grammar.is_term('$'));
    assert!(!grammar.is_term('S') && !grammar.is_term('X'));
    assert!(grammar.is_nterm('S') && grammar.is_nterm('A'));
    assert!(!grammar.is_nterm('a'));
    assert!(!grammar.derives_epsilon('A'));

    let derivatives = grammar.derive('A');
    assert_eq!(
        derivatives,
        vec![Some("aA".to_string()), Some("a".to_string())]
    );
    assert_eq!(grammar.derive('a'), vec![Some("a".to_string())]);

    let prefixes = grammar.get_term_prefixes("Ab$");
    assert_eq!(prefixes.len(), 3);
    for p in ["ab$", "aab", "aaa"] {
        assert!(prefixes.iter().any(|x| x == p));
    }

    let suffixes = grammar.get_nterm_suffixes("AbAa", 'A').unwrap();
    assert_eq!(suffixes, vec!["bAa".to_string(), "a".to_string()]);
    assert!(grammar.get_nterm_suffixes("ba", 'A').is_none());
    assert!(grammar.get_nterm_suffixes("", 'A').is_none());

    assert_eq!(
        LlkGrammar::format_production(&('S', Some("Ab$".to_string()))),
        "(S -> Ab$)"
    );
    assert_eq!(LlkGrammar::format_production(&('A', None)), "(A -> )");
}
