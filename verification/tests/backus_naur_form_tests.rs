use backus_naur_form_parser_and_compiler::backus_naur_form::BackusNaurForm;
use backus_naur_form_parser_and_compiler::backus_naur_form::CompileFunction;
use backus_naur_form_parser_and_compiler::backus_naur_form::PassThrough;
use backus_naur_form_parser_and_compiler::backus_naur_form::replace_ranges;
use backus_naur_form_parser_and_compiler::backus_naur_form::rule::non_terminal_symbol_from_rule;
use backus_naur_form_parser_and_compiler::NonTerminalToken;
use backus_naur_form_parser_and_compiler::Symbol;
use backus_naur_form_parser_and_compiler::Token;

#[test]
fn test_backus_naur_form() {
    let mut bnf: BackusNaurForm<PassThrough> = BackusNaurForm::default();
    bnf.add_non_terminal_symbol_from_rule(
        r#"<digit> ::= "0" | "1" | "2" | "3" | "4" | "5" | "6" | "7" | "8" | "9""#,
        0,
    );
    bnf.add_non_terminal_symbol_from_rule(r#"<number> ::= <digit> | <number> <digit>"#, 0);

    let mut rhs: BackusNaurForm<PassThrough> = BackusNaurForm::default();
    let non_terminal_symbol1 = non_terminal_symbol_from_rule(
        r#"<digit> ::= "0" | "1" | "2" | "3" | "4" | "5" | "6" | "7" | "8" | "9""#,
    );
    let non_terminal_symbol2 =
        non_terminal_symbol_from_rule(r#"<number> ::= <digit> | <number> <digit>"#);
    rhs.add_non_terminal_symbol(non_terminal_symbol1, 0);
    rhs.add_non_terminal_symbol(non_terminal_symbol2, 0);
    assert_eq!(bnf, rhs);
}

fn replace_with<T>(_: Vec<T>) -> i32 {
    99
}

#[test]
fn test_replace_ranges() {
    let vec = vec![1, 2, 3, 8, 1, 2, 3, 5];
    let mut pattern = vec![(3usize, 4usize)];
    let mut pattern1 = vec![(0usize, 3usize), (4usize, 7usize)];
    let mut pattern2: Vec<(usize, usize)> = vec![];

    let mut vec_copy = vec.clone();
    replace_ranges(&mut vec_copy, &mut pattern, replace_with);
    assert_eq!(vec_copy, vec![1, 2, 3, 99, 1, 2, 3, 5]);

    let mut vec_copy = vec.clone();
    replace_ranges(&mut vec_copy, &mut pattern1, replace_with);
    assert_eq!(vec_copy, vec![99, 8, 99, 5]);

    let mut vec_copy = vec.clone();
    replace_ranges(&mut vec_copy, &mut pattern2, replace_with);
    assert_eq!(vec_copy, vec![1, 2, 3, 8, 1, 2, 3, 5]);
}

#[test]
fn test_priority() {
    let mut bnf: BackusNaurForm<PassThrough> = BackusNaurForm::default();
    bnf.add_non_terminal_symbol_from_rule(r#"<digit> ::= "1" | "2""#, 0);
    bnf.add_non_terminal_symbol_from_rule(r#"<sum> ::= <digit> "+" <digit>"#, 0);
    bnf.add_non_terminal_symbol_from_rule(r#"<product> ::= <digit> "*" <digit>"#, 1);

    let string = "1*2";
    assert_eq!(
        bnf.symbolize_string(string),
        vec![Token::from_non_terminal(
            "product",
            vec![
                Token::from_non_terminal("digit", vec![Token::from_terminal("1")]),
                Token::from_terminal("*"),
                Token::from_non_terminal("digit", vec![Token::from_terminal("2")])
            ]
        )]
    )
}

#[test]
fn backus_naur_form_test_symbolization() {
    let expression = |vec| Token::from_non_terminal("expression", vec);
    let product = |vec| Token::from_non_terminal("product", vec);
    let sum = |vec| Token::from_non_terminal("sum", vec);
    let number = |vec| Token::from_non_terminal("number", vec);
    let digit = |vec| Token::from_non_terminal("digit", vec);
    let terminal = |str: &str| Token::from_terminal(str);
    // a bunch of recursive rules: really just a simple math language
    let mut bnf: BackusNaurForm<PassThrough> = BackusNaurForm::default();
    bnf.add_non_terminal_symbol_from_rule(
        r#"<digit> ::= "1" | "2" | "3" | "4" | "5" | "6" | "7" | "8" | "9" | "0""#,
        0,
    );
    bnf.add_non_terminal_symbol_from_rule(r#"<number> ::= <digit> | <number> <number>"#, 0);
    bnf.add_non_terminal_symbol_from_rule(
        r#"<quotient> ::= <number> "/" <number>
            | <expression> "/" <number>
            | <number> "/" <expression>
            | <expression> "/" <expression>"#,
        1,
    );
    bnf.add_non_terminal_symbol_from_rule(
        r#"<product> ::= <number> "*" <number>
            | <expression> "*" <number>
            | <number> "*" <expression>
            | <expression> "*" <expression>"#,
        1,
    );
    bnf.add_non_terminal_symbol_from_rule(
        r#"<sum> ::= <number> "+" <number>
            | <expression> "+" <number>
            | <number> "+" <expression>
            | <expression> "+" <expression>"#,
        0,
    );
    bnf.add_non_terminal_symbol_from_rule(
        r#"<difference> ::= <number> "-" <number>
            | <expression> "-" <number>
            | <number> "-" <expression>
            | <expression> "-" <expression>"#,
        0,
    );
    bnf.add_non_terminal_symbol_from_rule(
        r#"<expression> ::= <quotient> | <product> | <sum> | <difference>"#,
        0,
    );

    // test the product creation
    let string = "2*4";
    assert_eq!(
        bnf.symbolize_string(string),
        vec![expression(vec![product(vec![
            number(vec![digit(vec![terminal("2")])]),
            terminal("*"),
            number(vec![digit(vec![terminal("4")])])
        ])])]
    );

    // uses only numbers with 2 digits since with 3 digits or more the
    // nesting may go really deep
    let string = "12+2*45";
    let two_times_fourtyfive = expression(vec![product(vec![
        number(vec![digit(vec![terminal("2")])]),
        terminal("*"),
        number(vec![
            number(vec![digit(vec![terminal("4")])]),
            number(vec![digit(vec![terminal("5")])]),
        ]),
    ])]);
    assert_eq!(
        bnf.symbolize_string(string),
        vec![Token::from_non_terminal(
            "expression",
            vec![sum(vec![
                number(vec![
                    number(vec![digit(vec![terminal("1")])]),
                    number(vec![digit(vec![terminal("2")])])
                ]),
                terminal("+"),
                two_times_fourtyfive
            ])]
        )]
    )
}

#[derive(Debug)]
enum MathCallback {
    ExpressionDirect,
    DigitDoubler,
    ExpressionViaDigits,
}

impl CompileFunction for MathCallback {
    fn compile(&self, token: &NonTerminalToken, bnf: &BackusNaurForm<Self>) -> String {
        match self {
            MathCallback::ExpressionDirect => {
                let digits =
                    token.get_child_tokens_of_type(&Symbol::NonTerminal("digit".to_string()));
                let _operator =
                    token.get_child_tokens_of_type(&Symbol::NonTerminal("operator".to_string()));
                let parsed_and_doubled = digits
                    .into_iter()
                    .map(|digit| {
                        (digit
                            .get_terminals()
                            .parse::<usize>()
                            .expect("failed to parse <digit> to usize")
                            * 2)
                        .to_string()
                    })
                    .collect::<Vec<_>>();

                parsed_and_doubled
                    .first()
                    .expect("failed to parse first digit")
                    .to_owned()
                    + "<here comes the operator>"
                    + parsed_and_doubled.last().expect("failed to parse last digit")
            }
            MathCallback::DigitDoubler => (token
                .get_terminals()
                .parse::<usize>()
                .expect("failed to parse <digit> to usize")
                * 2)
            .to_string(),
            MathCallback::ExpressionViaDigits => {
                let digits =
                    token.get_child_tokens_of_type(&Symbol::NonTerminal("digit".to_string()));
                let _operator =
                    token.get_child_tokens_of_type(&Symbol::NonTerminal("operator".to_string()));
                let digits = digits
                    .into_iter()
                    .map(|digit| {
                        bnf.compile_token(
                            digit
                                .to_non_terminal_ref()
                                .expect("<digit> should be a non terminal token"),
                        )
                        .expect("no compile function available for <digit>")
                    })
                    .collect::<Vec<String>>();
                digits.first().unwrap().to_string()
                    + "<here comes the operator>"
                    + digits.last().unwrap()
            }
        }
    }
}

#[test]
fn test_compile_string() {
    let mut bnf: BackusNaurForm<MathCallback> = BackusNaurForm::default();
    bnf.add_compile_function("expression", MathCallback::ExpressionDirect);
    bnf.add_non_terminal_symbol_from_rule(r#"<digit> ::= "1" | "2" | "3""#, 0);
    bnf.add_non_terminal_symbol_from_rule(r#"<operator> ::= "+" | "-" | "*" | "/""#, 0);
    bnf.add_non_terminal_symbol_from_rule(r#"<expression> ::= <digit> <operator> <digit>"#, 0);

    // test whether its symbolized into exactly one symbol
    assert_eq!(
        bnf.symbolize_string("2+3"),
        vec![Token::from_non_terminal(
            "expression",
            vec![
                Token::from_non_terminal("digit", vec![Token::from_terminal("2")]),
                Token::from_non_terminal("operator", vec![Token::from_terminal("+")]),
                Token::from_non_terminal("digit", vec![Token::from_terminal("3")])
            ]
        )]
    );

    bnf.add_compile_function("digit", MathCallback::DigitDoubler);
    bnf.add_compile_function("expression", MathCallback::ExpressionViaDigits);

    // check whether the operation gets turned into a expression
    assert!(bnf.compiles_to_root_token("2+3"));

    // test a simple equation
    assert_eq!(
        bnf.compile_string("2+3"),
        "4<here comes the operator>6".to_string()
    );
}
