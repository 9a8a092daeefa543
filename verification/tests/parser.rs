use arith_expr::{evaluate, parse, parse_expr, parse_number, parse_term, Expr, ParseError, Token};

fn num(v: i32) -> Box<Expr> {
    Box::new(Expr::Number(v))
}

fn expected(what: &str, found: Token) -> ParseError {
    ParseError::Expected { expected: what.to_string(), found }
}

#[test]
fn parse_digit_string_yields_its_value() {
    for (input, value) in [("0", 0), ("7", 7), ("42", 42), ("1234567", 1234567), ("2147483647", i32::MAX)] {
        let tree = parse(&input.to_string()).unwrap();
        assert_eq!(tree, Expr::Number(value));
        assert_eq!(evaluate(&tree), value);
    }
}

#[test]
fn parse_digit_string_with_leading_zeros() {
    let tree = parse(&"000123".to_string()).unwrap();
    assert_eq!(tree, Expr::Number(123));
    assert_eq!(evaluate(&tree), 123);
}

#[test]
fn parse_literal_beyond_i32_wraps() {
    assert_eq!(parse(&"2147483648".to_string()), Ok(Expr::Number(i32::MIN)));
    assert_eq!(parse(&"4294967295".to_string()), Ok(Expr::Number(-1)));
    assert_eq!(parse(&"4294967296".to_string()), Ok(Expr::Number(0)));
    assert_eq!(parse(&"4294967301".to_string()), Ok(Expr::Number(5)));
    assert_eq!(parse(&"99999999999".to_string()), Ok(Expr::Number(1215752191)));
}

#[test]
fn parse_addition() {
    let tree = parse(&"1+2".to_string()).unwrap();
    assert_eq!(tree, Expr::Add(num(1), num(2)));
    assert_eq!(evaluate(&tree), 3);
}

#[test]
fn parse_parenthesized_then_subtract() {
    let tree = parse(&"(1+2)-3".to_string()).unwrap();
    assert_eq!(tree, Expr::Sub(Box::new(Expr::Add(num(1), num(2))), num(3)));
    assert_eq!(evaluate(&tree), 0);
}

#[test]
fn parse_subtraction_groups_to_the_right() {
    let tree = parse(&"1-2-3".to_string()).unwrap();
    assert_eq!(tree, Expr::Sub(num(1), Box::new(Expr::Sub(num(2), num(3)))));
    assert_eq!(evaluate(&tree), 2);
}

#[test]
fn parse_subtraction_takes_a_whole_expression_on_the_right() {
    let tree = parse(&"10-2+3".to_string()).unwrap();
    assert_eq!(tree, Expr::Sub(num(10), Box::new(Expr::Add(num(2), num(3)))));
    assert_eq!(evaluate(&tree), 5);
}

#[test]
fn parse_unmatched_left_paren() {
    assert_eq!(parse(&"(1+2".to_string()), Err(ParseError::UnexpectedEndOfInput));
}

#[test]
fn parse_trailing_right_paren() {
    assert_eq!(parse(&"1+2)".to_string()), Err(expected("end of input", Token::RParen)));
}

#[test]
fn parse_invalid_character_fails_before_parsing() {
    assert_eq!(parse(&"1+a".to_string()), Err(ParseError::InvalidToken('a')));
    assert_eq!(parse(&"(+a".to_string()), Err(ParseError::InvalidToken('a')));
}

#[test]
fn parse_whitespace_insensitive() {
    let spaced = parse(&"1 + 2".to_string()).unwrap();
    let dense = parse(&"1+2".to_string()).unwrap();
    assert_eq!(spaced, dense);
    assert_eq!(
        parse(&" ( 1\t+ 2 )\n- 3 ".to_string()),
        parse(&"(1+2)-3".to_string())
    );
    assert_eq!(parse(&"1 2".to_string()), Ok(Expr::Number(12)));
}

#[test]
fn parse_addition_takes_one_term_on_the_right() {
    assert_eq!(parse(&"1+2+3".to_string()), Err(expected("end of input", Token::Plus)));
    assert_eq!(parse(&"1+2-3".to_string()), Err(expected("end of input", Token::Minus)));
}

#[test]
fn parse_empty_input() {
    assert_eq!(parse(&String::new()), Err(ParseError::UnexpectedEndOfInput));
    assert_eq!(parse(&"   ".to_string()), Err(ParseError::UnexpectedEndOfInput));
}

#[test]
fn parse_operator_without_operand() {
    assert_eq!(parse(&"1+".to_string()), Err(ParseError::UnexpectedEndOfInput));
    assert_eq!(parse(&"1-".to_string()), Err(ParseError::UnexpectedEndOfInput));
    assert_eq!(parse(&"+1".to_string()), Err(expected("digit", Token::Plus)));
    assert_eq!(parse(&"1+-2".to_string()), Err(expected("digit", Token::Minus)));
    assert_eq!(parse(&")".to_string()), Err(expected("digit", Token::RParen)));
}

#[test]
fn parse_mismatched_right_paren() {
    assert_eq!(parse(&"(1 2 (".to_string()), Err(expected("right parenthesis", Token::LParen)));
    assert_eq!(parse(&"(1+2+3)".to_string()), Err(expected("right parenthesis", Token::Plus)));
    assert_eq!(parse(&"()".to_string()), Err(expected("digit", Token::RParen)));
}

#[test]
fn parse_nested_parentheses() {
    let tree = parse(&"((1))-((2)+(3))".to_string()).unwrap();
    assert_eq!(tree, Expr::Sub(num(1), Box::new(Expr::Add(num(2), num(3)))));
    assert_eq!(evaluate(&tree), -4);
}

#[test]
fn parse_number_takes_the_longest_run() {
    let tokens = [Token::Digit(1), Token::Digit(2), Token::Digit(3), Token::Plus, Token::Digit(4)];
    let (expr, rest) = parse_number(&tokens).unwrap();
    assert_eq!(expr, Expr::Number(123));
    assert_eq!(rest, &tokens[3..]);
}

#[test]
fn parse_number_consumes_everything_when_all_digits() {
    let tokens = [Token::Digit(9), Token::Digit(0)];
    let (expr, rest) = parse_number(&tokens).unwrap();
    assert_eq!(expr, Expr::Number(90));
    assert!(rest.is_empty());
}

#[test]
fn parse_number_rejects_other_tokens() {
    assert_eq!(parse_number(&[Token::Minus, Token::Digit(1)]), Err(expected("digit", Token::Minus)));
    assert_eq!(parse_number(&[Token::LParen]), Err(expected("digit", Token::LParen)));
    assert_eq!(parse_number(&[]), Err(ParseError::UnexpectedEndOfInput));
}

#[test]
fn parse_number_folds_whatever_digits_carry() {
    let tokens = [Token::Digit(12), Token::Digit(34)];
    let (expr, rest) = parse_number(&tokens).unwrap();
    assert_eq!(expr, Expr::Number(154));
    assert!(rest.is_empty());
    let tokens = [Token::Digit(u32::MAX)];
    assert_eq!(parse_number(&tokens).unwrap().0, Expr::Number(-1));
}

#[test]
fn parse_term_reads_a_group_and_returns_the_rest() {
    let tokens = [
        Token::LParen,
        Token::Digit(1),
        Token::Plus,
        Token::Digit(2),
        Token::RParen,
        Token::Minus,
        Token::Digit(3),
    ];
    let (expr, rest) = parse_term(&tokens).unwrap();
    assert_eq!(expr, Expr::Add(num(1), num(2)));
    assert_eq!(rest, &tokens[5..]);
}

#[test]
fn parse_term_failures() {
    assert_eq!(parse_term(&[]), Err(ParseError::UnexpectedEndOfInput));
    assert_eq!(parse_term(&[Token::LParen]), Err(ParseError::UnexpectedEndOfInput));
    assert_eq!(parse_term(&[Token::LParen, Token::Digit(1)]), Err(ParseError::UnexpectedEndOfInput));
    assert_eq!(
        parse_term(&[Token::LParen, Token::Digit(1), Token::LParen]),
        Err(expected("right parenthesis", Token::LParen))
    );
    assert_eq!(parse_term(&[Token::Plus]), Err(expected("digit", Token::Plus)));
}

#[test]
fn parse_expr_leaves_what_it_does_not_own() {
    let tokens = [Token::Digit(1), Token::Plus, Token::Digit(2), Token::RParen, Token::Digit(5)];
    let (expr, rest) = parse_expr(&tokens).unwrap();
    assert_eq!(expr, Expr::Add(num(1), num(2)));
    assert_eq!(rest, &tokens[3..]);

    let tokens = [Token::Digit(7), Token::LParen];
    let (expr, rest) = parse_expr(&tokens).unwrap();
    assert_eq!(expr, Expr::Number(7));
    assert_eq!(rest, &tokens[1..]);
}

#[test]
fn parse_expr_propagates_the_first_error() {
    assert_eq!(parse_expr(&[]), Err(ParseError::UnexpectedEndOfInput));
    assert_eq!(
        parse_expr(&[Token::Digit(1), Token::Minus, Token::RParen]),
        Err(expected("digit", Token::RParen))
    );
    assert_eq!(
        parse_expr(&[Token::Digit(1), Token::Plus]),
        Err(ParseError::UnexpectedEndOfInput)
    );
}
