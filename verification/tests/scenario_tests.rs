use llk::Llk;
use llk::LlkError;
use llk::LlkGrammar;
use llk::LlkParser;

fn parse_grammar() -> LlkGrammar {
    LlkGrammar::new(
        vec!['a', 'b'],
        vec!['S', 'A'],
        'S',
        2,
        vec![
            ('S', Some("Ab".to_string())),
            ('A', Some("aA".to_string())),
            ('A', Some("a".to_string())),
        ],
    )
    .unwrap()
}

#[test]
fn parse_lrn_traversal() {
    let parser = LlkParser::new(parse_grammar());
    let tree = parser.parse("aaab").unwrap();
    let lrn = tree.lrn();
    let expected: Vec<(char, Option<usize>)> = vec![
        ('S', Some(0)),
        ('A', Some(1)),
        ('a', None),
        ('A', Some(1)),
        ('a', None),
        ('A', Some(2)),
        ('a', None),
        ('b', None),
    ];
    assert_eq!(lrn, expected);
}

#[test]
fn parse_round_trip_leaves() {
    let parser = LlkParser::new(parse_grammar());
    for input in ["ab", "aab", "aaab", "aaaaab"] {
        let tree = parser.parse(input).unwrap();
        let leaves: String = tree
            .lrn()
            .into_iter()
            .filter(|(_, id)| id.is_none())
            .map(|(c, _)| c)
            .collect();
        assert_eq!(leaves, input);
    }
}

#[test]
fn parse_unknown_symbol() {
    let parser = LlkParser::new(parse_grammar());
    assert!(matches!(
        parser.parse("aXb"),
        Err(LlkError::UnknownSymbol('X'))
    ));
}

#[test]
fn parse_derivation_failures() {
    let parser = LlkParser::new(parse_grammar());
    assert!(matches!(
        parser.parse("ba"),
        Err(LlkError::DerivationFailed(_))
    ));
    assert!(matches!(
        parser.parse(""),
        Err(LlkError::DerivationFailed(_))
    ));
    assert!(matches!(
        parser.parse("aa"),
        Err(LlkError::DerivationFailed(_))
    ));
    assert!(matches!(
        parser.parse("abb"),
        Err(LlkError::DerivationFailed(_))
    ));
}

#[test]
fn llk_facade_parse() {
    let llk = Llk::new(
        vec!['a', 'b'],
        vec!['S', 'A'],
        'S',
        2,
        vec![
            ('S', Some("Ab".to_string())),
            ('A', Some("aA".to_string())),
            ('A', Some("a".to_string())),
        ],
    )
    .unwrap();
    let tree = llk.parse("ab").unwrap();
    let lrn = tree.lrn();
    assert_eq!(lrn, vec![('S', Some(0)), ('A', Some(2)), ('a', None), ('b', None)]);
    assert!(matches!(llk.follow('S'), Ok(v) if v.is_empty()));
}

#[test]
fn validator_rejects_llk_conflict() {
    let r = LlkGrammar::new(
        vec!['a'],
        vec!['S', 'B', 'C'],
        'S',
        1,
        vec![
            ('S', Some("aB".to_string())),
            ('S', Some("aC".to_string())),
            ('B', Some("a".to_string())),
            ('C', Some("a".to_string())),
        ],
    );
    assert!(matches!(r, Err(LlkError::InvalidGrammar(_))));
}

#[test]
fn validator_rejects_unreachable() {
    let r = LlkGrammar::new(
        vec!['a'],
        vec!['S', 'B'],
        'S',
        1,
        vec![('S', Some("a".to_string())), ('B', Some("a".to_string()))],
    );
    assert!(matches!(r, Err(LlkError::InvalidGrammar(_))));
}

#[test]
fn validator_rejects_left_recursion() {
    let r = LlkGrammar::new(
        vec!['a'],
        vec!['S'],
        'S',
        1,
        vec![('S', Some("Sa".to_string())), ('S', Some("a".to_string()))],
    );
    assert!(matches!(r, Err(LlkError::InvalidGrammar(_))));
}

#[test]
fn validator_rejects_cross_left_recursion() {
    let r = LlkGrammar::new(
        vec!['a'],
        vec!['S', 'B'],
        'S',
        1,
        vec![
            ('S', Some("Ba".to_string())),
            ('S', Some("a".to_string())),
            ('B', Some("Sa".to_string())),
            ('B', Some("a".to_string())),
        ],
    );
    assert!(matches!(r, Err(LlkError::InvalidGrammar(_))));
}

#[test]
fn validator_rejects_bad_symbols() {
    let empty_terms = LlkGrammar::new(
        vec![],
        vec!['S'],
        'S',
        1,
        vec![('S', Some("a".to_string()))],
    );
    assert!(matches!(empty_terms, Err(LlkError::InvalidGrammar(_))));

    let start_not_nterm = LlkGrammar::new(
        vec!['a'],
        vec!['B'],
        'S',
        1,
        vec![('B', Some("a".to_string()))],
    );
    assert!(matches!(start_not_nterm, Err(LlkError::InvalidGrammar(_))));

    let overlapping = LlkGrammar::new(
        vec!['a', 'S'],
        vec!['S'],
        'S',
        1,
        vec![('S', Some("a".to_string()))],
    );
    assert!(matches!(overlapping, Err(LlkError::InvalidGrammar(_))));
}

#[test]
fn validator_rejects_end_marker_in_alphabet() {
    let in_terms = LlkGrammar::new(
        vec!['a', '\0'],
        vec!['S'],
        'S',
        1,
        vec![('S', Some("a".to_string()))],
    );
    assert!(matches!(in_terms, Err(LlkError::InvalidGrammar(_))));

    let in_nterms = LlkGrammar::new(
        vec!['a'],
        vec!['S', '\0'],
        'S',
        1,
        vec![('S', Some("a".to_string())), ('\0', Some("a".to_string()))],
    );
    assert!(matches!(in_nterms, Err(LlkError::InvalidGrammar(_))));
}

#[test]
fn validator_rejects_bad_lookahead() {
    let zero = LlkGrammar::new(
        vec!['a'],
        vec!['S'],
        'S',
        0,
        vec![('S', Some("a".to_string()))],
    );
    assert!(matches!(zero, Err(LlkError::InvalidGrammar(_))));

    let too_big = LlkGrammar::new(
        vec!['a'],
        vec!['S'],
        'S',
        17,
        vec![('S', Some("a".to_string()))],
    );
    assert!(matches!(too_big, Err(LlkError::InvalidGrammar(_))));
}

#[test]
fn lut_contents() {
    let lut = LlkParser::create_lut(&parse_grammar());
    let expected: Vec<(char, &str, &str, usize)> = vec![
        ('S', "aa", "Ab", 0),
        ('S', "ab", "Ab", 0),
        ('A', "aa", "aA", 1),
        ('A', "ab", "a", 2),
    ];
    assert_eq!(lut.len(), expected.len());
    for (nterm, la, rhs, id) in expected {
        assert!(lut.iter().any(|e| {
            e.nterm == nterm
                && e.lookahead.iter().collect::<String>() == la
                && e.derivation.iter().collect::<String>() == rhs
                && e.production_id == id
        }));
    }
}

#[test]
fn parse_repeated_calls_agree() {
    let parser = LlkParser::new(parse_grammar());
    let first_run = parser.parse("aaab").unwrap().lrn();
    let second_run = parser.parse("aaab").unwrap().lrn();
    assert_eq!(first_run, second_run);
    assert!(parser.parse("ba").is_err());
    assert!(parser.parse("ba").is_err());
}

#[test]
fn first_repeated_calls_agree() {
    let grammar = parse_grammar();
    let once = grammar.first("Ab").unwrap();
    let again = grammar.first("Ab").unwrap();
    assert_eq!(once.len(), again.len());
    for x in &once {
        assert!(again.contains(x));
    }
}

#[test]
fn first_rejects_unknown_symbol() {
    let grammar = parse_grammar();
    assert!(matches!(
        grammar.first("aXb"),
        Err(LlkError::UnknownSymbol('X'))
    ));
}

#[test]
fn first_of_epsilon_production() {
    let grammar = LlkGrammar::new(
        vec!['a', 'b'],
        vec!['S', 'A'],
        'S',
        1,
        vec![
            ('S', Some("aAb".to_string())),
            ('A', Some("a".to_string())),
            ('A', None),
        ],
    )
    .unwrap();
    let f = grammar.first("A").unwrap();
    assert_eq!(f.len(), 2);
    assert!(f.contains(&None));
    assert!(f.contains(&Some("a".to_string())));
    let tree = LlkParser::new(grammar).parse("ab").unwrap();
    let lrn = tree.lrn();
    assert_eq!(
        lrn,
        vec![('S', Some(0)), ('a', None), ('A', Some(2)), ('b', None)]
    );
}
