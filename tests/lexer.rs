use polish_calc::lexer::Lexer;
use polish_calc::token::Token;

#[test]
fn lexer_single_num() {
    let mut lexer = Lexer::new("1 23 4 567 0");

    assert_eq!(Some(Token::Int(1)), lexer.next_token());
    assert_eq!(Some(Token::Int(23)), lexer.next_token());
    assert_eq!(Some(Token::Int(4)), lexer.next_token());
    assert_eq!(Some(Token::Int(567)), lexer.next_token());
    assert_eq!(Some(Token::Int(0)), lexer.next_token());
    assert_eq!(None, lexer.next_token());
}

#[test]
fn unnested_additional_expr() {
    let mut lexer = Lexer::new("+ 1 2");

    assert_eq!(Some(Token::Plus), lexer.next_token());
    assert_eq!(Some(Token::Int(1)), lexer.next_token());
    assert_eq!(Some(Token::Int(2)), lexer.next_token());
    assert_eq!(None, lexer.next_token());
}

#[test]
fn whitespace() {
    let mut lexer = Lexer::new("     \r\r\n\n\t  \n\n\n\t    ");

    assert_eq!(None, lexer.next_token());
}

#[test]
fn parened_expr() {
    let mut lexer = Lexer::new("(1)");

    assert_eq!(Some(Token::LeftParen), lexer.next_token());
    assert_eq!(Some(Token::Int(1)), lexer.next_token());
    assert_eq!(Some(Token::RightParen), lexer.next_token());
    assert_eq!(None, lexer.next_char());
}

fn lex_all(code: &str) -> Vec<Token> {
    let mut lexer = Lexer::new(code);
    let mut out = Vec::new();
    while let Some(t) = lexer.next_token() {
        out.push(t);
    }
    out
}

#[test]
fn largest_literal_lexes_alone() {
    let mut lexer = Lexer::new("2147483647");
    assert_eq!(Some(Token::Int(i32::MAX)), lexer.next_token());
    assert_eq!(None, lexer.next_token());
    assert_eq!(None, lexer.next_char());
}

#[test]
fn literal_nine_and_leading_zeros() {
    assert_eq!(vec![Token::Int(9), Token::Int(7)], lex_all("9 007"));
    assert_eq!(vec![Token::Int(1234567890)], lex_all("1234567890"));
}

#[test]
fn overflowing_literal_fails() {
    let mut lexer = Lexer::new("2147483648 5");
    assert_eq!(None, lexer.next_token());
    assert_eq!(Some(' '), lexer.next_char());
}

#[test]
fn whitespace_amount_does_not_matter() {
    assert_eq!(lex_all("1 2"), lex_all("1  2"));
    assert_eq!(lex_all("+ 1 2"), lex_all("+\t\t1 \n\r 2"));
    assert_eq!(vec![Token::Int(1), Token::Int(2)], lex_all("1 \n 2"));
    assert_eq!(vec![Token::Int(12)], lex_all("12"));
}

#[test]
fn empty_input_has_no_tokens() {
    let mut lexer = Lexer::new("");
    assert_eq!(None, lexer.next_token());
    assert!(lex_all("  \t\n").is_empty());
}

#[test]
fn unknown_character_is_an_error() {
    let mut lexer = Lexer::new("1 a 2");
    assert_eq!(Some(Token::Int(1)), lexer.next_token());
    assert_eq!(None, lexer.next_token());
    assert_eq!(Some('a'), lexer.next_char());
}

#[test]
fn tokens_need_no_separator() {
    assert_eq!(
        vec![Token::LeftParen, Token::Plus, Token::Int(1), Token::Int(2), Token::RightParen],
        lex_all("(+1 2)")
    );
}
