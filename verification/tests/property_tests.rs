use backus_naur_form_parser_and_compiler::backus_naur_form::BackusNaurForm;
use backus_naur_form_parser_and_compiler::backus_naur_form::CompileFunction;
use backus_naur_form_parser_and_compiler::backus_naur_form::PassThrough;
use backus_naur_form_parser_and_compiler::backus_naur_form::replace_ranges;
use backus_naur_form_parser_and_compiler::backus_naur_form::rule::non_terminal_symbol_from_rule;
use backus_naur_form_parser_and_compiler::backus_naur_form::rule::parse_rule;
use backus_naur_form_parser_and_compiler::backus_naur_form::stringify_expression;
use backus_naur_form_parser_and_compiler::backus_naur_form::symbol::non_terminal_symbol::NonTerminalSymbol;
use backus_naur_form_parser_and_compiler::NonTerminalToken;
use backus_naur_form_parser_and_compiler::Symbol;
use backus_naur_form_parser_and_compiler::Token;

fn math_grammar() -> BackusNaurForm<PassThrough> {
    let mut bnf: BackusNaurForm<PassThrough> = BackusNaurForm::default();
    bnf.add_non_terminal_symbol_from_rule(
        r#"<digit> ::= "1" | "2" | "3" | "4" | "5" | "6" | "7" | "8" | "9" | "0""#,
        0,
    );
    bnf.add_non_terminal_symbol_from_rule(r#"<number> ::= <digit> | <number> <number>"#, 0);
    bnf.add_non_terminal_symbol_from_rule(
        r#"<product> ::= <number> "*" <number> | <expression> "*" <number>"#,
        1,
    );
    bnf.add_non_terminal_symbol_from_rule(
        r#"<sum> ::= <number> "+" <number> | <expression> "+" <number>"#,
        0,
    );
    bnf.add_non_terminal_symbol_from_rule(r#"<expression> ::= <product> | <sum>"#, 0);
    bnf
}

fn flatten(tokens: &[Token]) -> String {
    let mut out = String::new();
    for token in tokens {
        out += &token.get_terminals();
    }
    out
}

#[test]
fn round_trip_rebuilds_the_input() {
    let bnf = math_grammar();
    for input in ["12+2*45", "1*2", " 1 ++ 23 *", "", "xyz"] {
        let tokens = bnf.symbolize_string(input);
        assert_eq!(flatten(&tokens), input.to_string());
    }
}

#[test]
fn round_trip_of_empty_input_is_empty() {
    let bnf = math_grammar();
    let tokens = bnf.symbolize_string("");
    assert_eq!(tokens.len(), 0);
    assert_eq!(flatten(&tokens), "".to_string());
}

#[test]
fn symbolize_again_on_flattened_output_gives_the_same_tree() {
    let bnf = math_grammar();
    for input in ["12+2*45", "1*2", "12 3"] {
        let first = bnf.symbolize_string(input);
        let again = bnf.symbolize_string(&flatten(&first));
        assert_eq!(first, again);
    }
}

#[test]
fn recursive_array_rule_merges_with_the_doubled_shape() {
    let mut bnf: BackusNaurForm<PassThrough> = BackusNaurForm::default();
    bnf.add_non_terminal_symbol_from_rule(r#"<digit> ::= "1" | "2" | "3""#, 0);
    bnf.add_non_terminal_symbol_from_rule(r#"<number> ::= <digit> | <number> <number>"#, 0);
    let number = |vec| Token::from_non_terminal("number", vec);
    let digit = |d: &str| Token::from_non_terminal("digit", vec![Token::from_terminal(d)]);
    assert_eq!(
        bnf.symbolize_string("12"),
        vec![number(vec![number(vec![digit("1")]), number(vec![digit("2")])])]
    );
}

#[test]
fn recursive_array_rule_does_not_merge_with_the_mixed_shape() {
    // `<number> ::= <digit> | <number> <digit>` cannot merge "12": once
    // every digit became a number, no literal digit is left to its right
    let mut bnf: BackusNaurForm<PassThrough> = BackusNaurForm::default();
    bnf.add_non_terminal_symbol_from_rule(r#"<digit> ::= "1" | "2" | "3""#, 0);
    bnf.add_non_terminal_symbol_from_rule(r#"<number> ::= <digit> | <number> <digit>"#, 0);
    let number = |vec| Token::from_non_terminal("number", vec);
    let digit = |d: &str| Token::from_non_terminal("digit", vec![Token::from_terminal(d)]);
    let tokens = bnf.symbolize_string("12");
    assert_ne!(tokens.len(), 1);
    assert_eq!(
        tokens,
        vec![number(vec![digit("1")]), number(vec![digit("2")])]
    );
}

#[test]
fn root_detection_follows_the_top_level_count() {
    let mut bnf: BackusNaurForm<PassThrough> = BackusNaurForm::default();
    bnf.add_non_terminal_symbol_from_rule(r#"<digit> ::= "1" | "2" | "3""#, 0);
    bnf.add_non_terminal_symbol_from_rule(r#"<operator> ::= "+" | "-""#, 0);
    bnf.add_non_terminal_symbol_from_rule(r#"<expression> ::= <digit> <operator> <digit>"#, 0);

    assert_eq!(bnf.symbolize_string("2+3").len(), 1);
    assert!(bnf.compiles_to_root_token("2+3"));

    assert_ne!(bnf.symbolize_string("2+3 ").len(), 1);
    assert!(!bnf.compiles_to_root_token("2+3 "));
    assert!(!bnf.compiles_to_root_token(""));
}

#[derive(Debug)]
enum Doubler {
    Digit,
}

impl CompileFunction for Doubler {
    fn compile(&self, token: &NonTerminalToken, _bnf: &BackusNaurForm<Self>) -> String {
        match self {
            Doubler::Digit => (token
                .get_terminals()
                .parse::<usize>()
                .expect("a digit node spells a number")
                * 2)
            .to_string(),
        }
    }
}

#[test]
fn compile_only_touches_top_level_nodes_with_callbacks() {
    // a callback on <digit> alone never fires: the uppermost node is the
    // <expression>, which has no callback, so its text passes through
    let mut bnf: BackusNaurForm<Doubler> = BackusNaurForm::default();
    bnf.add_non_terminal_symbol_from_rule(r#"<digit> ::= "1" | "2" | "3""#, 0);
    bnf.add_non_terminal_symbol_from_rule(r#"<operator> ::= "+" | "-""#, 0);
    bnf.add_non_terminal_symbol_from_rule(r#"<expression> ::= <digit> <operator> <digit>"#, 0);
    bnf.add_compile_function("digit", Doubler::Digit);

    assert_eq!(bnf.compile_string("2+3"), "2+3".to_string());
}

#[test]
fn compile_doubles_top_level_digits() {
    // with digits at the top level the callback fires for each of them
    let mut bnf: BackusNaurForm<Doubler> = BackusNaurForm::default();
    bnf.add_non_terminal_symbol_from_rule(r#"<digit> ::= "1" | "2" | "3""#, 0);
    bnf.add_compile_function("digit", Doubler::Digit);

    assert_eq!(bnf.compile_string("12 3"), "24 6".to_string());
}

#[derive(Debug)]
enum Tagger {
    First,
    Second,
}

impl CompileFunction for Tagger {
    fn compile(&self, _token: &NonTerminalToken, _bnf: &BackusNaurForm<Self>) -> String {
        match self {
            Tagger::First => "first".to_string(),
            Tagger::Second => "second".to_string(),
        }
    }
}

#[test]
fn last_registered_callback_wins() {
    let mut bnf: BackusNaurForm<Tagger> = BackusNaurForm::default();
    bnf.add_non_terminal_symbol_from_rule(r#"<digit> ::= "1""#, 0);
    bnf.add_compile_function("digit", Tagger::First);
    bnf.add_compile_function("digit", Tagger::Second);
    assert_eq!(bnf.compile_string("1"), "second".to_string());
}

#[test]
fn compile_token_requires_a_registered_callback() {
    let mut bnf: BackusNaurForm<Tagger> = BackusNaurForm::default();
    bnf.add_non_terminal_symbol_from_rule(r#"<digit> ::= "1""#, 0);
    let node = NonTerminalToken::new("digit", vec![Token::from_terminal("1")]);
    assert_eq!(bnf.compile_token(&node), None);
    bnf.add_compile_function("digit", Tagger::First);
    assert_eq!(bnf.compile_token(&node), Some("first".to_string()));
}

#[test]
fn contains_symbol_looks_at_registered_names() {
    let mut bnf: BackusNaurForm<PassThrough> = BackusNaurForm::default();
    bnf.add_non_terminal_symbol_from_rule(r#"<digit> ::= "1""#, 0);
    assert!(bnf.contains_symbol("digit"));
    assert!(!bnf.contains_symbol("number"));
    assert!(!bnf.contains_symbol("<digit>"));
}

fn join_ints(parts: Vec<i32>) -> i32 {
    let mut sum = 0;
    for p in parts {
        sum += p;
    }
    sum
}

#[test]
fn replace_ranges_feeds_the_removed_elements_to_the_reducer() {
    let mut vec = vec![1, 2, 3, 4];
    let mut ranges = vec![(1usize, 3usize)];
    replace_ranges(&mut vec, &mut ranges, join_ints);
    assert_eq!(vec, vec![1, 5, 4]);
}

#[test]
fn replace_ranges_sorts_the_ranges_it_was_given() {
    let mut vec = vec![10, 20, 30, 40, 50];
    let mut ranges = vec![(3usize, 5usize), (0usize, 2usize)];
    replace_ranges(&mut vec, &mut ranges, join_ints);
    assert_eq!(ranges, vec![(0, 2), (3, 5)]);
    assert_eq!(vec, vec![30, 30, 90]);
}

#[test]
fn overlapping_candidates_collapse_leftmost_first() {
    // "11" matches at offsets 0 and 1; the candidates overlap, so only the
    // leftmost window is collapsed and the rest stays
    let mut bnf: BackusNaurForm<PassThrough> = BackusNaurForm::default();
    bnf.add_non_terminal_symbol_from_rule(r#"<pair> ::= "1" "1""#, 0);
    let tokens = bnf.symbolize_string("111");
    assert_eq!(
        tokens,
        vec![
            Token::from_non_terminal(
                "pair",
                vec![Token::from_terminal("1"), Token::from_terminal("1")]
            ),
            Token::from_terminal("1")
        ]
    );
}

#[test]
fn test_non_terminal_symbol_from_rule() {
    let rule = r#"<test> ::= "a" "b" "c" | "c" "b" "a" | <abc>"#;
    let non_terminal_symbol = non_terminal_symbol_from_rule(rule);
    assert_eq!(
        non_terminal_symbol,
        NonTerminalSymbol::new(
            "test".to_string(),
            vec![
                vec![
                    Symbol::Terminal("a".to_string()),
                    Symbol::Terminal("b".to_string()),
                    Symbol::Terminal("c".to_string())
                ],
                vec![
                    Symbol::Terminal("c".to_string()),
                    Symbol::Terminal("b".to_string()),
                    Symbol::Terminal("a".to_string())
                ],
                vec![Symbol::NonTerminal("abc".to_string())]
            ]
        )
    )
}

#[test]
fn stringify_writes_the_rule_back() {
    let symbol = non_terminal_symbol_from_rule(r#"<test> ::= "a" "b" | <abc>"#);
    assert_eq!(
        stringify_expression(symbol.get_rule()),
        "\"a\" \"b\" | <abc> ".to_string()
    );
}

#[test]
fn symbol_queries_walk_the_tree() {
    let digit = |d: &str| Token::from_non_terminal("digit", vec![Token::from_terminal(d)]);
    let node = NonTerminalToken::new(
        "expression",
        vec![digit("2"), Token::from_terminal("+"), digit("3")],
    );
    let digit_type = Symbol::NonTerminal("digit".to_string());
    let plus = Symbol::Terminal("+".to_string());
    let two = Symbol::Terminal("2".to_string());

    assert!(node.contains_child(&digit_type));
    assert!(node.contains_child(&plus));
    assert!(!node.contains_child(&two));
    assert!(node.contains_descendant(&two));
    assert_eq!(node.find_child(&digit_type), Some(&digit("2")));
    assert_eq!(node.find_child(&two), None);
    assert_eq!(node.find_descendant(&two), Some(&digit("2")));
    assert_eq!(
        node.get_child_tokens_of_type(&digit_type),
        vec![&digit("2"), &digit("3")]
    );
    assert_eq!(
        node.get_descendant_tokens_of_type(&digit_type),
        vec![&digit("2"), &digit("3")]
    );
    assert_eq!(node.get_type(), Symbol::NonTerminal("expression".to_string()));
    assert_eq!(node.get_child_indexes().len(), 3);
}

#[test]
fn token_conversions_follow_the_variant() {
    let leaf = Token::from_terminal("x");
    let node = Token::from_non_terminal("name", vec![leaf.clone()]);
    assert!(leaf.is_terminal());
    assert!(!node.is_terminal());
    assert_eq!(leaf.get_symbol(), "x");
    assert_eq!(node.get_symbol(), "name");
    assert!(leaf.to_terminal_token_ref().is_some());
    assert!(leaf.to_non_terminal_ref().is_none());
    assert!(node.to_non_terminal_ref().is_some());
    assert!(node.clone().to_non_terminal().is_some());
    assert!(leaf.clone().to_terminal().is_some());
    assert!(node.clone().to_terminal().is_none());
}

#[test]
fn mutable_lookups_edit_the_tree_in_place() {
    let digit = |d: &str| Token::from_non_terminal("digit", vec![Token::from_terminal(d)]);
    let mut node = NonTerminalToken::new(
        "expression",
        vec![digit("2"), Token::from_terminal("+"), digit("3")],
    );
    let digit_type = Symbol::NonTerminal("digit".to_string());
    {
        let child = node.find_child_mut(&digit_type).expect("a digit child exists");
        *child = digit("7");
    }
    assert_eq!(node.get_child_tokens()[0], digit("7"));
    {
        let second = node.get_child_tokens_mut();
        second[1] = Token::from_terminal("-");
    }
    assert_eq!(node.get_terminals(), "7-3".to_string());
    {
        let deep = node
            .find_descendant_mut(&Symbol::Terminal("3".to_string()))
            .expect("a subtree holding 3 exists");
        *deep = digit("9");
    }
    assert_eq!(node.get_terminals(), "7-9".to_string());
}

#[test]
fn malformed_rules_parse_to_nothing() {
    assert!(parse_rule("<a> ::= \"1\"").is_some());
    assert!(parse_rule("<a> ::= \"1\" | <b> <c>").is_some());
    assert!(parse_rule("no marker here").is_none());
    assert!(parse_rule("a ::= \"1\"").is_none());
    assert!(parse_rule("<a> ::= \"1").is_none());
    assert!(parse_rule("<a> ::= <b").is_none());
    assert!(parse_rule("<a> ::= | \"1\"").is_none());
    assert!(parse_rule("<a> ::= \"1\" x").is_none());
    assert!(parse_rule("<a> ::= \"1\" |").is_none());
    assert!(parse_rule("<a> ::= ").is_none());
}

#[test]
fn equal_priority_rules_apply_later_declarations_first() {
    // among rules of one priority, the pass visits later declarations
    // before earlier ones, so the later rule claims a shared window
    let mut bnf: BackusNaurForm<PassThrough> = BackusNaurForm::default();
    bnf.add_non_terminal_symbol_from_rule("<a> ::= \"x\"", 0);
    bnf.add_non_terminal_symbol_from_rule("<b> ::= \"x\"", 0);
    assert_eq!(
        bnf.symbolize_string("x"),
        vec![Token::from_non_terminal("b", vec![Token::from_terminal("x")])]
    );
}

#[test]
fn duplicate_names_each_apply_independently() {
    let mut bnf: BackusNaurForm<PassThrough> = BackusNaurForm::default();
    bnf.add_non_terminal_symbol_from_rule("<a> ::= \"1\"", 0);
    bnf.add_non_terminal_symbol_from_rule("<a> ::= \"2\"", 1);
    assert_eq!(
        bnf.symbolize_string("12"),
        vec![
            Token::from_non_terminal("a", vec![Token::from_terminal("1")]),
            Token::from_non_terminal("a", vec![Token::from_terminal("2")])
        ]
    );
}

#[test]
fn replace_ranges_inserts_for_an_empty_range() {
    // an empty range removes nothing: the reducer's output for the empty
    // sub-sequence is inserted at its position
    let mut vec = vec![1, 2, 3];
    let mut ranges = vec![(2usize, 2usize)];
    replace_ranges(&mut vec, &mut ranges, join_ints);
    assert_eq!(vec, vec![1, 2, 0, 3]);

    let mut vec = vec![7, 8, 9];
    let mut ranges = vec![(3usize, 3usize), (0usize, 0usize)];
    replace_ranges(&mut vec, &mut ranges, join_ints);
    assert_eq!(vec, vec![0, 7, 8, 9, 0]);
}

#[test]
fn empty_and_wider_ranges_at_one_start_both_apply() {
    // the empty range marks an insertion point just before the window the
    // wider range collapses
    let mut vec = vec![1, 2, 3, 4];
    let mut ranges = vec![(1usize, 3usize), (1usize, 1usize)];
    replace_ranges(&mut vec, &mut ranges, join_ints);
    assert_eq!(ranges, vec![(1, 1), (1, 3)]);
    assert_eq!(vec, vec![1, 0, 5, 4]);
}
