use expr_compiler::ast::{ASTError, ASTNode, TokenCursor};
use expr_compiler::scan::{scan_line, Token, TokenError};

fn num(value: i32) -> ASTNode {
    ASTNode {
        operation: Token::INT(value),
        left: None,
        right: None,
    }
}

fn op(operation: Token, left: ASTNode, right: ASTNode) -> ASTNode {
    ASTNode {
        operation,
        left: Some(Box::new(left)),
        right: Some(Box::new(right)),
    }
}

fn bad(column: usize) -> TokenError {
    TokenError {
        line: 1,
        column,
        character: '@',
    }
}

#[test]
fn multiplication_goes_before_addition() {
    let tree = ASTNode::parse(scan_line("2 + 3 * 4", 1)).unwrap();
    assert_eq!(
        tree,
        op(Token::PLUS, num(2), op(Token::ASTERISK, num(3), num(4)))
    );
    assert_eq!(tree.test_evaluate(), Ok(14));

    let tree = ASTNode::parse(scan_line("2 * 3 + 4", 1)).unwrap();
    assert_eq!(
        tree,
        op(Token::PLUS, op(Token::ASTERISK, num(2), num(3)), num(4))
    );
    assert_eq!(tree.test_evaluate(), Ok(10));
}

#[test]
fn equal_operators_group_from_the_left() {
    let tree = ASTNode::parse(scan_line("10 - 3 - 2", 1)).unwrap();
    assert_eq!(
        tree,
        op(Token::MINUS, op(Token::MINUS, num(10), num(3)), num(2))
    );
    assert_eq!(tree.test_evaluate(), Ok(5));

    let tree = ASTNode::parse(scan_line("100 / 10 / 5", 1)).unwrap();
    assert_eq!(tree.test_evaluate(), Ok(2));

    let tree = ASTNode::parse(scan_line("8 - 2 + 1", 1)).unwrap();
    assert_eq!(tree.test_evaluate(), Ok(7));
}

#[test]
fn a_long_expression_has_the_expected_tree() {
    let tree = ASTNode::parse(scan_line("1+3-5*44/6+4", 1)).unwrap();
    let product = op(
        Token::SLASH,
        op(Token::ASTERISK, num(5), num(44)),
        num(6),
    );
    let expected = op(
        Token::PLUS,
        op(Token::MINUS, op(Token::PLUS, num(1), num(3)), product),
        num(4),
    );
    assert_eq!(tree, expected);
    assert_eq!(tree.test_evaluate(), Ok(1 + 3 - 5 * 44 / 6 + 4));
}

#[test]
fn a_single_integer_is_a_leaf() {
    assert_eq!(ASTNode::parse(vec![Ok(Token::INT(7))]), Ok(num(7)));
}

#[test]
fn a_token_that_is_no_operator_ends_the_expression() {
    let tokens = vec![Ok(Token::INT(1)), Ok(Token::INT(2)), Ok(Token::INT(3))];
    assert_eq!(ASTNode::parse(tokens), Ok(num(1)));
    let tokens = vec![
        Ok(Token::INT(1)),
        Ok(Token::PLUS),
        Ok(Token::INT(2)),
        Ok(Token::EndOfLine),
        Ok(Token::PLUS),
    ];
    assert_eq!(ASTNode::parse(tokens), Ok(op(Token::PLUS, num(1), num(2))));
}

#[test]
fn an_empty_sequence_is_an_empty_expression() {
    assert_eq!(ASTNode::parse(Vec::new()), Err(ASTError::EmptyExpression));
}

#[test]
fn a_missing_operand_at_the_end_is_an_empty_expression() {
    let tokens = vec![Ok(Token::INT(5)), Ok(Token::PLUS)];
    assert_eq!(ASTNode::parse(tokens), Err(ASTError::EmptyExpression));
}

#[test]
fn a_token_in_the_place_of_an_operand_is_unexpected() {
    let tokens = vec![Ok(Token::PLUS), Ok(Token::INT(5))];
    assert_eq!(
        ASTNode::parse(tokens),
        Err(ASTError::UnexpectedToken(Token::PLUS))
    );
    let tokens = vec![Ok(Token::INT(5)), Ok(Token::ASTERISK), Ok(Token::SLASH)];
    assert_eq!(
        ASTNode::parse(tokens),
        Err(ASTError::UnexpectedToken(Token::SLASH))
    );
    let tokens = vec![Ok(Token::EndOfFile)];
    assert_eq!(
        ASTNode::parse(tokens),
        Err(ASTError::UnexpectedToken(Token::EndOfFile))
    );
}

#[test]
fn a_scanner_error_is_passed_on_wherever_it_is_met() {
    assert_eq!(
        ASTNode::parse(vec![Err(bad(0))]),
        Err(ASTError::LexicalError(bad(0)))
    );
    assert_eq!(
        ASTNode::parse(vec![Ok(Token::INT(5)), Err(bad(1))]),
        Err(ASTError::LexicalError(bad(1)))
    );
    assert_eq!(
        ASTNode::parse(vec![Ok(Token::INT(5)), Ok(Token::PLUS), Err(bad(2))]),
        Err(ASTError::LexicalError(bad(2)))
    );
    assert_eq!(
        ASTNode::parse(vec![
            Ok(Token::INT(5)),
            Ok(Token::PLUS),
            Ok(Token::INT(6)),
            Ok(Token::ASTERISK),
            Ok(Token::INT(7)),
            Err(bad(5)),
            Err(bad(6)),
        ]),
        Err(ASTError::LexicalError(bad(5)))
    );
    assert_eq!(
        ASTNode::parse(scan_line("1 @ 2", 1)),
        Err(ASTError::LexicalError(TokenError {
            line: 1,
            column: 2,
            character: '@'
        }))
    );
}

#[test]
fn an_error_behind_the_end_of_the_expression_is_not_met() {
    let tokens = vec![Ok(Token::INT(1)), Ok(Token::INT(2)), Err(bad(2))];
    assert_eq!(ASTNode::parse(tokens), Ok(num(1)));
}

#[test]
fn new_joins_two_subtrees_or_passes_the_error_on() {
    assert_eq!(
        ASTNode::new(Ok(Token::PLUS), Box::new(num(1)), Box::new(num(2))),
        Ok(op(Token::PLUS, num(1), num(2)))
    );
    assert_eq!(
        ASTNode::new(Err(bad(3)), Box::new(num(1)), Box::new(num(2))),
        Err(ASTError::LexicalError(bad(3)))
    );
}

#[test]
fn only_an_integer_makes_a_leaf() {
    assert_eq!(ASTNode::make_leaf(Token::INT(-3)), Ok(num(-3)));
    for token in [
        Token::PLUS,
        Token::MINUS,
        Token::ASTERISK,
        Token::SLASH,
        Token::EndOfLine,
        Token::EndOfFile,
    ] {
        assert_eq!(ASTNode::make_leaf(token), Err(ASTError::InvalidLeafNode));
    }
}

#[test]
fn the_precedence_of_each_token() {
    assert_eq!(ASTNode::get_precedence(&Token::PLUS), Ok(1));
    assert_eq!(ASTNode::get_precedence(&Token::MINUS), Ok(1));
    assert_eq!(ASTNode::get_precedence(&Token::ASTERISK), Ok(2));
    assert_eq!(ASTNode::get_precedence(&Token::SLASH), Ok(2));
    assert_eq!(ASTNode::get_precedence(&Token::INT(9)), Ok(0));
    assert_eq!(
        ASTNode::get_precedence(&Token::EndOfLine),
        Err(ASTError::ExpectedOperator)
    );
    assert_eq!(
        ASTNode::get_precedence(&Token::EndOfFile),
        Err(ASTError::ExpectedOperator)
    );
}

#[test]
fn a_primary_is_one_token() {
    let mut tokens = TokenCursor::new(vec![Ok(Token::INT(4)), Ok(Token::PLUS)]);
    assert_eq!(ASTNode::parse_primary(&mut tokens), Ok(num(4)));
    assert_eq!(tokens.peek(), Some(Ok(Token::PLUS)));
    assert_eq!(
        ASTNode::parse_primary(&mut tokens),
        Err(ASTError::UnexpectedToken(Token::PLUS))
    );
    assert_eq!(tokens.peek(), None);
    assert_eq!(
        ASTNode::parse_primary(&mut tokens),
        Err(ASTError::EmptyExpression)
    );
    assert_eq!(tokens.next(), None);
}

#[test]
fn a_weaker_operator_ends_a_stricter_expression() {
    let mut tokens = TokenCursor::new(scan_line("2 * 3 + 4", 1));
    assert_eq!(
        ASTNode::parse_one_line_expression(&mut tokens, 2),
        Ok(op(Token::ASTERISK, num(2), num(3)))
    );
    assert_eq!(tokens.next(), Some(Ok(Token::PLUS)));
    assert_eq!(
        ASTNode::parse_one_line_expression(&mut tokens, 3),
        Ok(num(4))
    );
    assert_eq!(tokens.next(), None);
}

#[test]
fn both_small_precedences_take_every_operator() {
    for min in [0u8, 1u8] {
        let mut tokens = TokenCursor::new(scan_line("2 * 3 + 4", 1));
        assert_eq!(
            ASTNode::parse_one_line_expression(&mut tokens, min),
            Ok(op(Token::PLUS, op(Token::ASTERISK, num(2), num(3)), num(4)))
        );
        assert_eq!(tokens.peek(), None);
    }
}

#[test]
fn division_rounds_toward_zero() {
    assert_eq!(op(Token::SLASH, num(7), num(2)).test_evaluate(), Ok(3));
    assert_eq!(op(Token::SLASH, num(-7), num(2)).test_evaluate(), Ok(-3));
    assert_eq!(op(Token::SLASH, num(7), num(-2)).test_evaluate(), Ok(-3));
    assert_eq!(op(Token::SLASH, num(-7), num(-2)).test_evaluate(), Ok(3));
    assert_eq!(
        op(Token::SLASH, num(i32::MIN), num(1)).test_evaluate(),
        Ok(i32::MIN)
    );
    assert_eq!(
        op(Token::SLASH, num(i32::MIN), num(i32::MIN)).test_evaluate(),
        Ok(1)
    );
    assert_eq!(op(Token::SLASH, num(0), num(-5)).test_evaluate(), Ok(0));
}

#[test]
fn division_by_zero_is_an_error() {
    assert_eq!(
        op(Token::SLASH, num(7), num(0)).test_evaluate(),
        Err(ASTError::ExpectedInteger)
    );
    let tree = ASTNode::parse(scan_line("1 + 4 / 0", 1)).unwrap();
    assert_eq!(tree.test_evaluate(), Err(ASTError::ExpectedInteger));
}

#[test]
fn an_operator_without_an_operand_has_no_value() {
    let lonely = ASTNode {
        operation: Token::PLUS,
        left: None,
        right: None,
    };
    assert_eq!(lonely.test_evaluate(), Err(ASTError::ExpectedInteger));
    let half = ASTNode {
        operation: Token::MINUS,
        left: Some(Box::new(num(1))),
        right: None,
    };
    assert_eq!(half.test_evaluate(), Err(ASTError::ExpectedInteger));
}

#[test]
fn a_boundary_token_has_no_value() {
    assert_eq!(
        op(Token::EndOfFile, num(1), num(2)).test_evaluate(),
        Err(ASTError::UnexpectedToken(Token::EndOfFile))
    );
    let nested = op(
        Token::PLUS,
        ASTNode {
            operation: Token::EndOfLine,
            left: None,
            right: None,
        },
        op(Token::SLASH, num(1), num(0)),
    );
    assert_eq!(
        nested.test_evaluate(),
        Err(ASTError::UnexpectedToken(Token::EndOfLine))
    );
}

#[test]
fn the_values_at_the_limits() {
    assert_eq!(
        op(Token::PLUS, num(i32::MAX - 1), num(1)).test_evaluate(),
        Ok(i32::MAX)
    );
    assert_eq!(
        op(Token::MINUS, num(i32::MIN + 1), num(1)).test_evaluate(),
        Ok(i32::MIN)
    );
    assert_eq!(
        op(Token::ASTERISK, num(-46341), num(46340)).test_evaluate(),
        Ok(-46341 * 46340)
    );
}

#[test]
fn a_clone_is_the_same_tree() {
    let tree = ASTNode::parse(scan_line("1 + 2 * 3 - 4", 1)).unwrap();
    assert_eq!(tree.clone(), tree);
}
