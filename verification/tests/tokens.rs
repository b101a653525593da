use rlox::token::{Literal, Token, TokenType};

#[test]
fn test_show() {
    let t = Token::new(
        TokenType::Identifier,
        String::from("9"),
        Literal::Integer(9),
        12,
    );
    println!("{:?}", t);
}

#[test]
fn token_new_keeps_fields() {
    let t = Token::new(
        TokenType::String,
        String::from("\"ab\""),
        Literal::String(String::from("ab")),
        3,
    );
    assert_eq!(t.token_type, TokenType::String);
    assert_eq!(t.lexeme, "\"ab\"");
    assert_eq!(t.literal, Literal::String(String::from("ab")));
    assert_eq!(t.line, 3);
}
