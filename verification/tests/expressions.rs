use rustcalc::ast::ASTNode;
use rustcalc::error::EvaluationError;
use rustcalc::number::Decimal;
use rustcalc::parser::parse_text;

fn num(whole: &[u8]) -> ASTNode {
    ASTNode::Number(Decimal { whole: whole.to_vec(), fraction: Vec::new() })
}

fn frac(whole: &[u8], fraction: &[u8]) -> ASTNode {
    ASTNode::Number(Decimal { whole: whole.to_vec(), fraction: fraction.to_vec() })
}

fn bin(lhs: ASTNode, op: char, rhs: ASTNode) -> ASTNode {
    ASTNode::BinaryOperator { lhs: Box::new(lhs), op, rhs: Box::new(rhs) }
}

fn un(op: char, operand: ASTNode) -> ASTNode {
    ASTNode::UnaryOperator { op, operand: Box::new(operand) }
}

fn value(d: &Decimal) -> f64 {
    assert!(d.is_valid());
    let text: String = d.to_chars().into_iter().collect();
    text.parse().unwrap()
}

fn eval(node: &ASTNode) -> f64 {
    match node {
        ASTNode::Number(d) => value(d),
        ASTNode::UnaryOperator { op, operand } => {
            let x = eval(operand);
            match op {
                '+' => x,
                '-' => -x,
                _ => panic!("Invalid unary operator: {op}"),
            }
        }
        ASTNode::BinaryOperator { lhs, op, rhs } => {
            let l = eval(lhs);
            let r = eval(rhs);
            match op {
                '+' => l + r,
                '-' => l - r,
                '*' => l * r,
                '/' => l / r,
                '^' => l.powf(r),
                _ => panic!("Invalid binary operator: {op}"),
            }
        }
    }
}

fn evaluate(text: &str) -> Result<f64, EvaluationError> {
    parse_text(text).map(|tree| eval(&tree))
}

#[test]
fn literal_alone_is_its_number() {
    assert_eq!(parse_text("42"), Ok(num(&[4, 2])));
    assert_eq!(parse_text("3.14"), Ok(frac(&[3], &[1, 4])));
    assert_eq!(parse_text("007"), Ok(num(&[0, 0, 7])));
    assert_eq!(parse_text("12."), Ok(num(&[1, 2])));
    assert_eq!(parse_text("0.50"), Ok(frac(&[0], &[5, 0])));
    assert_eq!(evaluate("42"), Ok(42.0));
    assert_eq!(evaluate("3.14"), Ok(3.14));
    assert_eq!(evaluate("0.5"), Ok(0.5));
    assert_eq!(evaluate("12."), Ok(12.0));
    assert_eq!(evaluate("123456789012345678901234567890"), Ok(123456789012345678901234567890.0));
}

#[test]
fn literal_with_blanks_around() {
    assert_eq!(parse_text("  \t 7 \t"), Ok(num(&[7])));
}

#[test]
fn subtraction_groups_from_the_left() {
    let tree = parse_text("8-3-2").unwrap();
    assert_eq!(tree, bin(bin(num(&[8]), '-', num(&[3])), '-', num(&[2])));
    assert_eq!(eval(&tree), 3.0);
}

#[test]
fn division_groups_from_the_left() {
    let tree = parse_text("8/4/2").unwrap();
    assert_eq!(tree, bin(bin(num(&[8]), '/', num(&[4])), '/', num(&[2])));
    assert_eq!(eval(&tree), 1.0);
}

#[test]
fn power_groups_from_the_right() {
    let tree = parse_text("2^3^2").unwrap();
    assert_eq!(tree, bin(num(&[2]), '^', bin(num(&[3]), '^', num(&[2]))));
    assert_eq!(eval(&tree), 512.0);
}

#[test]
fn product_binds_tighter_than_sum() {
    let tree = parse_text("2+3*4").unwrap();
    assert_eq!(tree, bin(num(&[2]), '+', bin(num(&[3]), '*', num(&[4]))));
    assert_eq!(eval(&tree), 14.0);
}

#[test]
fn parentheses_override_precedence() {
    let tree = parse_text("(2+3)*4").unwrap();
    assert_eq!(tree, bin(bin(num(&[2]), '+', num(&[3])), '*', num(&[4])));
    assert_eq!(eval(&tree), 20.0);
}

#[test]
fn power_binds_tighter_than_product() {
    let tree = parse_text("2*3^2").unwrap();
    assert_eq!(tree, bin(num(&[2]), '*', bin(num(&[3]), '^', num(&[2]))));
    assert_eq!(eval(&tree), 18.0);
}

#[test]
fn sign_binds_tighter_than_sum() {
    let tree = parse_text("-3+4").unwrap();
    assert_eq!(tree, bin(un('-', num(&[3])), '+', num(&[4])));
    assert_eq!(eval(&tree), 1.0);
}

#[test]
fn sign_binds_tighter_than_power() {
    let tree = parse_text("-2^2").unwrap();
    assert_eq!(tree, bin(un('-', num(&[2])), '^', num(&[2])));
    assert_eq!(eval(&tree), 4.0);
}

#[test]
fn sign_in_an_exponent() {
    let tree = parse_text("2^-2").unwrap();
    assert_eq!(tree, bin(num(&[2]), '^', un('-', num(&[2]))));
    assert_eq!(eval(&tree), 0.25);
}

#[test]
fn signs_in_a_row() {
    let tree = parse_text("--2").unwrap();
    assert_eq!(tree, un('-', un('-', num(&[2]))));
    assert_eq!(eval(&tree), 2.0);
    let tree = parse_text("2 - -+3").unwrap();
    assert_eq!(tree, bin(num(&[2]), '-', un('-', un('+', num(&[3])))));
    assert_eq!(eval(&tree), 5.0);
}

#[test]
fn sign_after_an_opening_parenthesis() {
    let tree = parse_text("4*(-1.5)").unwrap();
    assert_eq!(tree, bin(num(&[4]), '*', un('-', frac(&[1], &[5]))));
    assert_eq!(eval(&tree), -6.0);
}

#[test]
fn minus_after_a_closing_parenthesis_is_binary() {
    let tree = parse_text("(1)-2").unwrap();
    assert_eq!(tree, bin(num(&[1]), '-', num(&[2])));
    assert_eq!(eval(&tree), -1.0);
}

#[test]
fn division_by_zero_is_no_error() {
    assert_eq!(evaluate("1/0"), Ok(f64::INFINITY));
    assert_eq!(evaluate("-1/0"), Ok(f64::NEG_INFINITY));
    assert!(evaluate("0/0").unwrap().is_nan());
}

#[test]
fn power_of_a_negative_base_with_a_fraction() {
    assert!(evaluate("(-8)^0.5").unwrap().is_nan());
    assert_eq!(evaluate("4^0.5"), Ok(2.0));
}

#[test]
fn open_parenthesis_never_closed() {
    assert_eq!(parse_text("(2+3"), Err(EvaluationError::MismatchedParentheses));
    assert_eq!(evaluate("(2+3"), Err(EvaluationError::MismatchedParentheses));
    assert_eq!(parse_text("("), Err(EvaluationError::MismatchedParentheses));
}

#[test]
fn closing_parenthesis_without_partner() {
    assert_eq!(parse_text("2+3)"), Err(EvaluationError::MismatchedParentheses));
    assert_eq!(evaluate("2+3)"), Err(EvaluationError::MismatchedParentheses));
    assert_eq!(parse_text(")"), Err(EvaluationError::MismatchedParentheses));
}

#[test]
fn empty_text_is_malformed() {
    assert_eq!(parse_text(""), Err(EvaluationError::MalformedExpression));
    assert_eq!(parse_text(" \t "), Err(EvaluationError::MalformedExpression));
    assert_eq!(parse_text("()"), Err(EvaluationError::MalformedExpression));
}

#[test]
fn lone_operator_is_malformed() {
    assert_eq!(parse_text("+"), Err(EvaluationError::MalformedExpression));
    assert_eq!(parse_text("*"), Err(EvaluationError::MalformedExpression));
    assert_eq!(parse_text("2*"), Err(EvaluationError::MalformedExpression));
    assert_eq!(parse_text("2-"), Err(EvaluationError::MalformedExpression));
}

#[test]
fn two_numbers_are_malformed() {
    assert_eq!(parse_text("2 3"), Err(EvaluationError::MalformedExpression));
    assert_eq!(evaluate("2 3"), Err(EvaluationError::MalformedExpression));
}

#[test]
fn unknown_character_is_reported() {
    assert_eq!(parse_text("2 + x"), Err(EvaluationError::UnexpectedCharacter('x')));
    assert_eq!(parse_text("$"), Err(EvaluationError::UnexpectedCharacter('$')));
    assert_eq!(parse_text(".5"), Err(EvaluationError::UnexpectedCharacter('.')));
}

#[test]
fn second_decimal_point_is_reported() {
    assert_eq!(parse_text("1.2.3"), Err(EvaluationError::UnexpectedCharacter('.')));
    assert_eq!(parse_text("2+1..5"), Err(EvaluationError::UnexpectedCharacter('.')));
}

#[test]
fn the_error_met_first_wins() {
    assert_eq!(parse_text("2) $"), Err(EvaluationError::MismatchedParentheses));
    assert_eq!(parse_text("2 $ )"), Err(EvaluationError::UnexpectedCharacter('$')));
    assert_eq!(parse_text("(2 $"), Err(EvaluationError::UnexpectedCharacter('$')));
    assert_eq!(parse_text("2 3 $"), Err(EvaluationError::UnexpectedCharacter('$')));
}

#[test]
fn same_text_same_result() {
    for text in ["8-3-2", "2^3^2", "(2+3", "2 3", "", "1.2.3", "-2^2"] {
        assert_eq!(parse_text(text), parse_text(text));
    }
    assert_eq!(evaluate("2+3*4"), evaluate("2+3*4"));
}

#[test]
fn parsed_trees_are_sound() {
    fn sound(node: &ASTNode) -> bool {
        match node {
            ASTNode::Number(d) => d.is_valid(),
            ASTNode::BinaryOperator { lhs, op, rhs } => {
                "+-*/^".contains(*op) && sound(lhs) && sound(rhs)
            }
            ASTNode::UnaryOperator { op, operand } => "+-".contains(*op) && sound(operand),
        }
    }
    for text in ["8-3-2", "2^-3^2", "-(2+3)*4/5.25", "+1"] {
        assert!(sound(&parse_text(text).unwrap()));
    }
}
