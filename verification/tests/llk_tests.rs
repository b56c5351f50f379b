use llk::Llk;
use llk::LlkError;
use llk::LlkGrammar;
use llk::LlkParser;

fn sample_grammar() -> LlkGrammar {
    LlkGrammar::new(
        vec!['a', 'b', '$'],
        vec!['S', 'A'],
        'S',
        3,
        vec![
            ('S', Some("Ab$".to_string())),
            ('A', Some("aA".to_string())),
            ('A', Some("a".to_string())),
        ],
    )
    .unwrap()
}

fn opt_set_eq(actual: &[Option<String>], expected: &[Option<&str>]) -> bool {
    actual.len() == expected.len()
        && expected.iter().all(|e| {
            actual.iter().any(|x| match (x, e) {
                (Some(s), Some(t)) => s == t,
                (None, None) => true,
                _ => false,
            })
        })
}

fn str_set_eq(actual: &[String], expected: &[&str]) -> bool {
    actual.len() == expected.len() && expected.iter().all(|e| actual.iter().any(|x| x == e))
}

#[test]
fn grammar_first_set_test() {
    let grammar = sample_grammar();

    assert!(opt_set_eq(
        &grammar.first("S").unwrap(),
        &[Some("ab$"), Some("aab"), Some("aaa")],
    ));
    assert!(opt_set_eq(
        &grammar.first("A").unwrap(),
        &[Some("a"), Some("aa"), Some("aaa")],
    ));
    assert!(opt_set_eq(&grammar.first("a").unwrap(), &[Some("a")]));
    assert!(opt_set_eq(&grammar.first("b").unwrap(), &[Some("b")]));
    assert!(opt_set_eq(&grammar.first("$").unwrap(), &[Some("$")]));
    assert!(opt_set_eq(
        &grammar.first("Ab$").unwrap(),
        &[Some("ab$"), Some("aab"), Some("aaa")],
    ));
    assert!(opt_set_eq(
        &grammar.first("aA").unwrap(),
        &[Some("aaa"), Some("aa")],
    ));
}

#[test]
fn follow_set_test() {
    let grammar = sample_grammar();

    assert!(str_set_eq(&grammar.follow('S').unwrap(), &[]));
    assert!(str_set_eq(&grammar.follow('A').unwrap(), &["b$"]));
    assert!(matches!(
        grammar.follow('a'),
        Err(LlkError::IllegalOperation(_))
    ));
}

#[test]
fn create_lut_test() {
    let grammar = sample_grammar();

    println!("Here comes the LUT: {:?}", LlkParser::create_lut(&grammar));
}

#[test]
fn parsing_test() {
    let term_symbols = vec!['a', 'b'];
    let nterm_symbols = vec!['S', 'A'];
    let start_symbol = 'S';
    let lookahead = 2;
    let productions = vec![
        ('S', Some("Ab".to_string())),
        ('A', Some("aA".to_string())),
        ('A', Some("a".to_string())),
    ];

    let grammar = LlkGrammar::new(
        term_symbols,
        nterm_symbols,
        start_symbol,
        lookahead,
        productions,
    )
    .unwrap();

    let parser = LlkParser::new(grammar);

    let tree = parser.parse("aaab").unwrap();
    for (symbol, production_id) in tree.lrn() {
        println!("{:?}", (symbol, production_id));
    }
}

#[test]
fn lib_first_set_test() {
    let llk = Llk::new(
        vec!['a', 'b', '$'],
        vec!['S', 'A'],
        'S',
        3,
        vec![
            ('S', Some("Ab$".to_string())),
            ('A', Some("aA".to_string())),
            ('A', Some("a".to_string())),
        ],
    )
    .unwrap();

    assert!(opt_set_eq(
        &llk.first("S").unwrap(),
        &[Some("ab$"), Some("aab"), Some("aaa")],
    ));
    assert!(opt_set_eq(
        &llk.first("A").unwrap(),
        &[Some("a"), Some("aa"), Some("aaa")],
    ));
    assert!(opt_set_eq(&llk.first("a").unwrap(), &[Some("a")]));
    assert!(opt_set_eq(&llk.first("b").unwrap(), &[Some("b")]));
    assert!(opt_set_eq(&llk.first("$").unwrap(), &[Some("$")]));
    assert!(opt_set_eq(
        &llk.first("Ab$").unwrap(),
        &[Some("ab$"), Some("aab"), Some("aaa")],
    ));
    assert!(opt_set_eq(
        &llk.first("aA").unwrap(),
        &[Some("aaa"), Some("aa")],
    ));
}
