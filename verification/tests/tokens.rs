use rustcalc::ast::{rpn_to_ast, ASTNode};
use rustcalc::error::EvaluationError;
use rustcalc::lexer::{Lexer, Token};
use rustcalc::number::{char_to_digit, digit_to_char, Decimal};
use rustcalc::operator::{is_left_associative, precedence};
use rustcalc::parser::Parser;

fn number(whole: &[u8], fraction: &[u8]) -> Token {
    Token::Number(Decimal { whole: whole.to_vec(), fraction: fraction.to_vec() })
}

fn leaf(whole: &[u8]) -> ASTNode {
    ASTNode::Number(Decimal { whole: whole.to_vec(), fraction: Vec::new() })
}

fn tokens_of(text: &str) -> Result<Vec<Token>, EvaluationError> {
    let mut lexer = Lexer::new(text);
    let mut tokens = Vec::new();
    loop {
        let token = lexer.next_token()?;
        if token == Token::EOF {
            return Ok(tokens);
        }
        tokens.push(token);
    }
}

fn postfix_of(text: &str) -> Result<Vec<Token>, EvaluationError> {
    let mut lexer = Lexer::new(text);
    let mut parser = Parser::new(&mut lexer)?;
    parser.shunting_yard()
}

#[test]
fn tokens_of_a_sum() {
    assert_eq!(
        tokens_of("12 + 3.5"),
        Ok(vec![number(&[1, 2], &[]), Token::Operator('+'), number(&[3], &[5])])
    );
}

#[test]
fn every_symbol_has_its_token() {
    assert_eq!(
        tokens_of("1+2-3*4/5^6"),
        Ok(vec![
            number(&[1], &[]),
            Token::Operator('+'),
            number(&[2], &[]),
            Token::Operator('-'),
            number(&[3], &[]),
            Token::Operator('*'),
            number(&[4], &[]),
            Token::Operator('/'),
            number(&[5], &[]),
            Token::Operator('^'),
            number(&[6], &[]),
        ])
    );
    assert_eq!(tokens_of("()"), Ok(vec![Token::LParen, Token::RParen]));
}

#[test]
fn blanks_give_no_token() {
    assert_eq!(tokens_of(" \t\t  "), Ok(vec![]));
    assert_eq!(tokens_of(" 1\t"), Ok(vec![number(&[1], &[])]));
}

#[test]
fn sign_at_the_start_is_unary() {
    assert_eq!(tokens_of("-1"), Ok(vec![Token::UnaryOperator('-'), number(&[1], &[])]));
    assert_eq!(tokens_of("+1"), Ok(vec![Token::UnaryOperator('+'), number(&[1], &[])]));
}

#[test]
fn sign_after_an_operator_is_unary() {
    assert_eq!(
        tokens_of("1*-2"),
        Ok(vec![
            number(&[1], &[]),
            Token::Operator('*'),
            Token::UnaryOperator('-'),
            number(&[2], &[]),
        ])
    );
}

#[test]
fn sign_after_a_sign_is_unary() {
    assert_eq!(
        tokens_of("-+1"),
        Ok(vec![Token::UnaryOperator('-'), Token::UnaryOperator('+'), number(&[1], &[])])
    );
}

#[test]
fn sign_after_an_opening_parenthesis_is_unary() {
    assert_eq!(
        tokens_of("(-1"),
        Ok(vec![Token::LParen, Token::UnaryOperator('-'), number(&[1], &[])])
    );
}

#[test]
fn sign_after_an_operand_is_binary() {
    assert_eq!(
        tokens_of("1-2"),
        Ok(vec![number(&[1], &[]), Token::Operator('-'), number(&[2], &[])])
    );
    assert_eq!(
        tokens_of(")+2"),
        Ok(vec![Token::RParen, Token::Operator('+'), number(&[2], &[])])
    );
}

#[test]
fn number_runs_as_far_as_digits_and_points_go() {
    assert_eq!(tokens_of("12.75"), Ok(vec![number(&[1, 2], &[7, 5])]));
    assert_eq!(tokens_of("12."), Ok(vec![number(&[1, 2], &[])]));
    assert_eq!(
        tokens_of("1 2"),
        Ok(vec![number(&[1], &[]), number(&[2], &[])])
    );
}

#[test]
fn number_with_two_points_fails() {
    assert_eq!(tokens_of("1.2.3"), Err(EvaluationError::UnexpectedCharacter('.')));
    assert_eq!(tokens_of("1.."), Err(EvaluationError::UnexpectedCharacter('.')));
}

#[test]
fn tokenizer_goes_on_behind_a_failed_number() {
    let mut lexer = Lexer::new("1.2.3+4");
    assert_eq!(lexer.next_token(), Err(EvaluationError::UnexpectedCharacter('.')));
    assert_eq!(lexer.next_token(), Ok(Token::UnaryOperator('+')));
    assert_eq!(lexer.next_token(), Ok(number(&[4], &[])));
    assert_eq!(lexer.next_token(), Ok(Token::EOF));
}

#[test]
fn tokenizer_goes_on_behind_an_unknown_character() {
    let mut lexer = Lexer::new("1 a - 2");
    assert_eq!(lexer.next_token(), Ok(number(&[1], &[])));
    assert_eq!(lexer.next_token(), Err(EvaluationError::UnexpectedCharacter('a')));
    assert_eq!(lexer.next_token(), Ok(Token::Operator('-')));
    assert_eq!(lexer.next_token(), Ok(number(&[2], &[])));
}

#[test]
fn unknown_character_carries_the_character() {
    assert_eq!(tokens_of("1 % 2"), Err(EvaluationError::UnexpectedCharacter('%')));
    assert_eq!(tokens_of("q"), Err(EvaluationError::UnexpectedCharacter('q')));
    assert_eq!(tokens_of("\u{661}"), Err(EvaluationError::UnexpectedCharacter('\u{661}')));
}

#[test]
fn end_marker_comes_again_and_again() {
    let mut lexer = Lexer::new("7 ");
    assert_eq!(lexer.next_token(), Ok(number(&[7], &[])));
    assert_eq!(lexer.next_token(), Ok(Token::EOF));
    assert_eq!(lexer.next_token(), Ok(Token::EOF));
    assert_eq!(lexer.next_token(), Ok(Token::EOF));
    let mut empty = Lexer::new("");
    assert_eq!(empty.next_token(), Ok(Token::EOF));
    assert_eq!(empty.next_token(), Ok(Token::EOF));
}

#[test]
fn precedence_table() {
    assert_eq!(precedence(&Token::Operator('+')), 1);
    assert_eq!(precedence(&Token::Operator('-')), 1);
    assert_eq!(precedence(&Token::Operator('*')), 2);
    assert_eq!(precedence(&Token::Operator('/')), 2);
    assert_eq!(precedence(&Token::Operator('^')), 3);
    assert_eq!(precedence(&Token::UnaryOperator('+')), 10);
    assert_eq!(precedence(&Token::UnaryOperator('-')), 10);
    assert_eq!(precedence(&Token::Operator('x')), 0);
    assert_eq!(precedence(&Token::LParen), 0);
    assert_eq!(precedence(&Token::RParen), 0);
    assert_eq!(precedence(&Token::EOF), 0);
    assert_eq!(precedence(&number(&[1], &[])), 0);
}

#[test]
fn associativity_table() {
    assert!(is_left_associative(&Token::Operator('+')));
    assert!(is_left_associative(&Token::Operator('-')));
    assert!(is_left_associative(&Token::Operator('*')));
    assert!(is_left_associative(&Token::Operator('/')));
    assert!(!is_left_associative(&Token::Operator('^')));
    assert!(!is_left_associative(&Token::UnaryOperator('+')));
    assert!(!is_left_associative(&Token::UnaryOperator('-')));
}

#[test]
fn postfix_of_sum_and_product() {
    assert_eq!(
        postfix_of("2+3*4"),
        Ok(vec![
            number(&[2], &[]),
            number(&[3], &[]),
            number(&[4], &[]),
            Token::Operator('*'),
            Token::Operator('+'),
        ])
    );
    assert_eq!(
        postfix_of("2*3+4"),
        Ok(vec![
            number(&[2], &[]),
            number(&[3], &[]),
            Token::Operator('*'),
            number(&[4], &[]),
            Token::Operator('+'),
        ])
    );
}

#[test]
fn postfix_of_parentheses() {
    assert_eq!(
        postfix_of("(2+3)*4"),
        Ok(vec![
            number(&[2], &[]),
            number(&[3], &[]),
            Token::Operator('+'),
            number(&[4], &[]),
            Token::Operator('*'),
        ])
    );
}

#[test]
fn postfix_of_equal_precedence() {
    assert_eq!(
        postfix_of("8-3-2"),
        Ok(vec![
            number(&[8], &[]),
            number(&[3], &[]),
            Token::Operator('-'),
            number(&[2], &[]),
            Token::Operator('-'),
        ])
    );
    assert_eq!(
        postfix_of("2^3^2"),
        Ok(vec![
            number(&[2], &[]),
            number(&[3], &[]),
            number(&[2], &[]),
            Token::Operator('^'),
            Token::Operator('^'),
        ])
    );
}

#[test]
fn postfix_of_signs() {
    assert_eq!(
        postfix_of("-2^2"),
        Ok(vec![
            number(&[2], &[]),
            Token::UnaryOperator('-'),
            number(&[2], &[]),
            Token::Operator('^'),
        ])
    );
}

#[test]
fn postfix_of_nothing_is_empty() {
    assert_eq!(postfix_of(""), Ok(vec![]));
    assert_eq!(postfix_of("()"), Ok(vec![]));
}

#[test]
fn postfix_fails_on_parentheses() {
    assert_eq!(postfix_of("(1"), Err(EvaluationError::MismatchedParentheses));
    assert_eq!(postfix_of("1)"), Err(EvaluationError::MismatchedParentheses));
    assert_eq!(postfix_of("(1))("), Err(EvaluationError::MismatchedParentheses));
}

#[test]
fn parser_stops_at_the_first_failure() {
    let mut lexer = Lexer::new("1)+2");
    {
        let mut parser = Parser::new(&mut lexer).unwrap();
        assert_eq!(parser.parse(), Err(EvaluationError::MismatchedParentheses));
    }
    assert_eq!(lexer.next_token(), Ok(Token::Operator('+')));
    assert_eq!(lexer.next_token(), Ok(number(&[2], &[])));
}

#[test]
fn parser_draws_the_tokens_to_the_end() {
    let mut lexer = Lexer::new("1+2 ");
    {
        let mut parser = Parser::new(&mut lexer).unwrap();
        assert!(parser.parse().is_ok());
        assert_eq!(parser.parse(), Err(EvaluationError::MalformedExpression));
    }
    assert_eq!(lexer.next_token(), Ok(Token::EOF));
}

#[test]
fn parser_fails_at_once_on_a_bad_first_token() {
    let mut lexer = Lexer::new("?1");
    assert!(matches!(Parser::new(&mut lexer), Err(EvaluationError::UnexpectedCharacter('?'))));
    assert_eq!(lexer.next_token(), Ok(number(&[1], &[])));
}

#[test]
fn fold_of_a_binary_operator() {
    let rpn = vec![number(&[8], &[]), number(&[3], &[]), Token::Operator('-')];
    assert_eq!(
        rpn_to_ast(rpn),
        Some(ASTNode::BinaryOperator {
            lhs: Box::new(leaf(&[8])),
            op: '-',
            rhs: Box::new(leaf(&[3])),
        })
    );
}

#[test]
fn fold_of_a_sign() {
    let rpn = vec![number(&[5], &[]), Token::UnaryOperator('-')];
    assert_eq!(
        rpn_to_ast(rpn),
        Some(ASTNode::UnaryOperator { op: '-', operand: Box::new(leaf(&[5])) })
    );
}

#[test]
fn fold_passes_over_parentheses() {
    let rpn = vec![Token::LParen, number(&[5], &[]), Token::RParen, Token::EOF];
    assert_eq!(rpn_to_ast(rpn), Some(leaf(&[5])));
}

#[test]
fn fold_fails_without_operands() {
    assert_eq!(rpn_to_ast(vec![]), None);
    assert_eq!(rpn_to_ast(vec![Token::Operator('+')]), None);
    assert_eq!(rpn_to_ast(vec![number(&[1], &[]), Token::Operator('+')]), None);
    assert_eq!(rpn_to_ast(vec![Token::UnaryOperator('-')]), None);
}

#[test]
fn fold_fails_on_trees_left_over() {
    assert_eq!(rpn_to_ast(vec![number(&[1], &[]), number(&[2], &[])]), None);
}

#[test]
fn digits_and_characters() {
    for d in 0u8..=9 {
        let c = digit_to_char(d);
        assert_eq!(c, char::from_digit(d as u32, 10).unwrap());
        assert_eq!(char_to_digit(c), d);
    }
}

#[test]
fn decimal_written_out() {
    let d = Decimal { whole: vec![1, 2], fraction: vec![0, 5] };
    assert_eq!(d.to_chars(), vec!['1', '2', '.', '0', '5']);
    let d = Decimal { whole: vec![0], fraction: vec![] };
    assert_eq!(d.to_chars(), vec!['0']);
}

#[test]
fn decimal_validity() {
    assert!(Decimal { whole: vec![1], fraction: vec![9, 0] }.is_valid());
    assert!(!Decimal { whole: vec![], fraction: vec![1] }.is_valid());
    assert!(!Decimal { whole: vec![10], fraction: vec![] }.is_valid());
    assert!(!Decimal { whole: vec![1], fraction: vec![3, 11] }.is_valid());
}
