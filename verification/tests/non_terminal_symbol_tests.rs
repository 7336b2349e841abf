use backus_naur_form_parser_and_compiler::backus_naur_form::characterize_string;
use backus_naur_form_parser_and_compiler::backus_naur_form::rule::non_terminal_symbol_from_rule;
use backus_naur_form_parser_and_compiler::Token;

#[test]
fn test_get_ranges_of_possible_symbolization() {
    let digit = non_terminal_symbol_from_rule(r#"<digit> ::= "1" | "2" | "3""#);
    let tokenized_string = characterize_string("12 3");
    assert_eq!(
        digit.get_ranges_of_possible_symbolization(&tokenized_string),
        vec![(0, 1), (1, 2), (3, 4)]
    );
}

#[test]
fn non_terminal_symbol_test_symbolization() {
    let digit = non_terminal_symbol_from_rule(r#"<digit> ::= "1" | "2" | "3""#);
    // a simple case
    let mut tokenized_string = characterize_string("12 3");
    // characterized string: every character is a terminal token
    assert_eq!(
        tokenized_string,
        vec![
            Token::from_terminal("1"),
            Token::from_terminal("2"),
            Token::from_terminal(" "),
            Token::from_terminal("3")
        ]
    );
    // a simple non recursive case
    digit.symbolize_vec(&mut tokenized_string);
    assert_eq!(
        tokenized_string,
        vec![
            Token::from_non_terminal("digit", vec![Token::from_terminal("1")]),
            Token::from_non_terminal("digit", vec![Token::from_terminal("2")]),
            Token::from_terminal(" "),
            Token::from_non_terminal("digit", vec![Token::from_terminal("3")])
        ]
    )
}

#[test]
fn test_recursive_symbolization() {
    let digit = non_terminal_symbol_from_rule(r#"<digit> ::= "1" | "2" | "3""#);
    let number = non_terminal_symbol_from_rule("<number> ::= <digit> | <number> <number>");
    // a simple case
    let mut tokenized_string = characterize_string("12 3");
    digit.symbolize_vec(&mut tokenized_string);
    assert_eq!(
        tokenized_string,
        vec![
            Token::from_non_terminal("digit", vec![Token::from_terminal("1")]),
            Token::from_non_terminal("digit", vec![Token::from_terminal("2")]),
            Token::from_terminal(" "),
            Token::from_non_terminal("digit", vec![Token::from_terminal("3")])
        ]
    );

    number.symbolize_vec(&mut tokenized_string);

    assert_eq!(
        tokenized_string,
        vec![
            Token::from_non_terminal(
                "number",
                vec![
                    Token::from_non_terminal(
                        "number",
                        vec![Token::from_non_terminal(
                            "digit",
                            vec![Token::from_terminal("1")]
                        )]
                    ),
                    Token::from_non_terminal(
                        "number",
                        vec![Token::from_non_terminal(
                            "digit",
                            vec![Token::from_terminal("2")]
                        )]
                    )
                ]
            ),
            Token::from_terminal(" "),
            Token::from_non_terminal(
                "number",
                vec![Token::from_non_terminal(
                    "digit",
                    vec![Token::from_terminal("3")]
                )]
            )
        ]
    )
}

#[test]
fn test_characterization() {
    let string = "ab c";
    assert_eq!(
        characterize_string(string),
        vec![
            Token::from_terminal("a"),
            Token::from_terminal("b"),
            Token::from_terminal(" "),
            Token::from_terminal("c")
        ]
    )
}
