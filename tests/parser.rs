use polish_calc::ast::Expr;
use polish_calc::eval::calculate;
use polish_calc::lexer::Lexer;
use polish_calc::parser::{Parser, SyntaxError};
use polish_calc::token::Token;

fn parse_str(code: &str) -> Result<Expr, SyntaxError> {
    let mut parser = Parser::new(Lexer::new(code));
    parser.parse_expr()
}

#[test]
fn parser_single_num() {
    let lexer = Lexer::new("1");
    let mut parser = Parser::new(lexer);

    assert_eq!(Expr::Num(1), parser.parse_expr().unwrap());
}

#[test]
fn single_additional_expr() {
    let lexer = Lexer::new("+ 1 2");
    let mut parser = Parser::new(lexer);

    assert_eq!(
        Expr::Plus(Box::new(Expr::Num(1)), Box::new(Expr::Num(2))),
        parser.parse_expr().unwrap()
    );
}

#[test]
fn parse_and_evaluate_sum() {
    assert_eq!(3, calculate(parse_str("+ 1 2").unwrap()));
}

#[test]
fn parse_and_evaluate_nested_sum() {
    let expr = parse_str("+ 1 + 2 3").unwrap();
    assert_eq!(
        Expr::Plus(
            Box::new(Expr::Num(1)),
            Box::new(Expr::Plus(Box::new(Expr::Num(2)), Box::new(Expr::Num(3))))
        ),
        expr
    );
    assert_eq!(6, calculate(expr));
}

#[test]
fn parse_parenthesized() {
    let expr = parse_str("(+ 1 2)").unwrap();
    assert_eq!(
        Expr::Parened(Box::new(Expr::Plus(Box::new(Expr::Num(1)), Box::new(Expr::Num(2))))),
        expr
    );
    assert_eq!(3, calculate(expr));
    assert_eq!(5, calculate(parse_str("((5))").unwrap()));
}

#[test]
fn missing_operand_is_eof() {
    assert_eq!(Err(SyntaxError::UnexpectedEof), parse_str("+ 1"));
    assert_eq!(Err(SyntaxError::UnexpectedEof), parse_str(""));
    assert_eq!(Err(SyntaxError::UnexpectedEof), parse_str("   "));
}

#[test]
fn bad_start_is_unexpected_token() {
    assert_eq!(
        Err(SyntaxError::UnexpectedToken(Token::RightParen)),
        parse_str(") 1")
    );
}

#[test]
fn unclosed_paren() {
    assert_eq!(Err(SyntaxError::UnexpectedEof), parse_str("(1"));
    assert_eq!(
        Err(SyntaxError::UnexpectedToken(Token::Int(2))),
        parse_str("(1 2)")
    );
}

#[test]
fn trailing_tokens_are_left() {
    assert_eq!(Ok(Expr::Num(1)), parse_str("1 2"));
}

#[test]
fn lexical_error_ends_the_stream() {
    assert_eq!(Err(SyntaxError::UnexpectedEof), parse_str("+ 1 x"));
    assert_eq!(Err(SyntaxError::UnexpectedEof), parse_str("+ 1 99999999999"));
}
