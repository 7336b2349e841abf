use backus_naur_form_parser_and_compiler::backus_naur_form::token::TokenIndex;
use backus_naur_form_parser_and_compiler::NonTerminalToken;
use backus_naur_form_parser_and_compiler::Token;

#[test]
fn test_get_sub_tokens() {
    let t = Token::from_terminal("t");
    let a = Token::from_terminal("a");
    let nested = Token::from_non_terminal("t", vec![a.clone()]);

    let non_terminal = NonTerminalToken::new(
        "test",
        vec![
            t.clone(),
            a.clone(),
            a.clone(),
            nested.clone(),
            Token::from_non_terminal("a", vec![nested.clone()]),
        ],
    );

    assert_eq!(
        non_terminal.get_child_tokens(),
        &vec![
            t.clone(),
            a.clone(),
            a.clone(),
            nested.clone(),
            Token::from_non_terminal("a", vec![nested.clone()]),
        ]
    );
}

#[test]
fn test_get_terminals() {
    let digit = |terminal_digit: &str| {
        Token::from_non_terminal("digit", vec![Token::from_terminal(terminal_digit)])
    };
    let operator = Token::from_non_terminal("operator", vec![Token::from_terminal("+")]);
    let expression =
        |lhs, operator, rhs| Token::from_non_terminal("expression", vec![lhs, operator, rhs]);

    let non_terminal = expression(
        digit("2"),
        operator.clone(),
        expression(digit("4"), operator.clone(), digit("3")),
    );

    match non_terminal {
        Token::NonTerminalToken(non_terminal) => {
            assert_eq!(non_terminal.get_terminals(), "2+4+3".to_string())
        }
        _ => panic!("this will never be happen"),
    }
}

#[test]
fn test_get_sub_tokens_of_type() {
    let a = Token::from_terminal("a");
    let b = Token::from_terminal("b");
    let nested = Token::from_non_terminal("nested", vec![a.clone()]);
    let non_terminal = NonTerminalToken::new(
        "test",
        vec![
            a.clone(),
            b.clone(),
            nested.clone(),
            b.clone(),
            Token::from_non_terminal("c", vec![nested.clone()]),
            a.clone(),
        ],
    );
    assert_eq!(
        non_terminal.get_descendant_tokens(),
        vec![
            &a,
            &b,
            &nested,
            &a,
            &b,
            &Token::from_non_terminal("c", vec![nested.clone()]),
            &nested,
            &a,
            &a
        ]
    );
}

#[test]
fn test_token_index() {
    let digit = |digit| Token::from_non_terminal("digit", vec![Token::from_terminal(digit)]);
    let operator =
        |operator| Token::from_non_terminal("operator", vec![Token::from_terminal(operator)]);
    let expression =
        |lhs, operator, rhs| Token::from_non_terminal("expression", vec![lhs, operator, rhs]);

    let product = |num1, num2| expression(digit(num1), operator("*"), digit(num2));
    let divide_by_sum_of_two_digits = |dividend, divisor1, divisor2| {
        expression(
            digit(dividend),
            operator("/"),
            expression(digit(divisor1), operator("+"), digit(divisor2)),
        )
    };

    // this will be (2*4)+(3/(4+5)) but tokenized
    let mut non_terminal = expression(
        product("2", "4"),
        operator("+"),
        divide_by_sum_of_two_digits("3", "4", "5"),
    );

    // test immutable borrows
    assert_eq!(non_terminal.get(&TokenIndex(vec![1])), Some(&operator("+")));
    assert_eq!(non_terminal.get(&TokenIndex(vec![2, 0])), Some(&digit("3")));
    assert_eq!(
        non_terminal.get(&TokenIndex(vec![2, 2, 1])),
        Some(&operator("+"))
    );
    assert_eq!(non_terminal.get(&TokenIndex(vec![2, 3, 4])), None);

    // test mut borrows
    assert_eq!(
        non_terminal.get_mut(TokenIndex(vec![1])),
        Some(&mut operator("+"))
    );
    assert_eq!(
        non_terminal.get_mut(TokenIndex(vec![2, 0])),
        Some(&mut digit("3"))
    );
    assert_eq!(
        non_terminal.get_mut(TokenIndex(vec![2, 2, 1])),
        Some(&mut operator("+"))
    );
    assert_eq!(non_terminal.get_mut(TokenIndex(vec![2, 3, 4])), None);
}
