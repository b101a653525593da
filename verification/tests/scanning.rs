use rlox::scanner::Scanner;
use rlox::token::{Diagnostic, Literal, Token, TokenType};

fn scan(source: &str) -> (Vec<Token>, Vec<Diagnostic>) {
    Scanner::new(String::from(source)).scan_tokens()
}

fn types(tokens: &[Token]) -> Vec<TokenType> {
    tokens.iter().map(|t| t.token_type).collect()
}

#[test]
fn scan_tokens() {
    let scanner = Scanner::new(String::from(";,{{"));
    let vec = scanner.scan_tokens();
    println!("{:?}", vec);
}

#[test]
fn punctuation_sequence() {
    let (tokens, diagnostics) = scan(";,{{");
    assert!(diagnostics.is_empty());
    assert_eq!(
        types(&tokens),
        vec![
            TokenType::Semicolon,
            TokenType::Comma,
            TokenType::LeftBrace,
            TokenType::LeftBrace,
            TokenType::Eof,
        ]
    );
}

#[test]
fn comments_are_discarded() {
    let (tokens, diagnostics) = scan("// foo\n1");
    assert!(diagnostics.is_empty());
    assert_eq!(types(&tokens), vec![TokenType::Integer, TokenType::Eof]);
    assert_eq!(tokens[0].literal, Literal::Integer(1));
    assert_eq!(tokens[0].lexeme, "1");
    assert_eq!(tokens[0].line, 2);
}

#[test]
fn comment_without_newline() {
    let (tokens, diagnostics) = scan("// just a comment");
    assert!(diagnostics.is_empty());
    assert_eq!(types(&tokens), vec![TokenType::Eof]);
    assert_eq!(tokens[0].line, 1);
}

#[test]
fn multi_line_string_counts_lines() {
    let (tokens, diagnostics) = scan("\"ab\ncd\"");
    assert!(diagnostics.is_empty());
    assert_eq!(types(&tokens), vec![TokenType::String, TokenType::Eof]);
    assert_eq!(tokens[0].literal, Literal::String(String::from("ab\ncd")));
    assert_eq!(tokens[0].lexeme, "\"ab\ncd\"");
    // The string token records the line it began on.
    assert_eq!(tokens[0].line, 1);
    // The following end-of-input token sits on line 2.
    assert_eq!(tokens[1].line, 2);
}

#[test]
fn string_literal_strips_quotes() {
    let (tokens, diagnostics) = scan("\"hi\"");
    assert!(diagnostics.is_empty());
    assert_eq!(tokens[0].lexeme, "\"hi\"");
    assert_eq!(tokens[0].literal, Literal::String(String::from("hi")));
}

#[test]
fn maximal_munch_keyword_prefix() {
    let (tokens, diagnostics) = scan("classy");
    assert!(diagnostics.is_empty());
    assert_eq!(types(&tokens), vec![TokenType::Identifier, TokenType::Eof]);
    assert_eq!(tokens[0].lexeme, "classy");
}

#[test]
fn keywords_are_classified() {
    let source = "and class else false fun for if nil or print return super this true var while";
    let (tokens, diagnostics) = scan(source);
    assert!(diagnostics.is_empty());
    assert_eq!(
        types(&tokens),
        vec![
            TokenType::And,
            TokenType::Class,
            TokenType::Else,
            TokenType::False,
            TokenType::Fun,
            TokenType::For,
            TokenType::If,
            TokenType::Nil,
            TokenType::Or,
            TokenType::Print,
            TokenType::Return,
            TokenType::Super,
            TokenType::This,
            TokenType::True,
            TokenType::Var,
            TokenType::While,
            TokenType::Eof,
        ]
    );
}

#[test]
fn two_character_operator_lookahead() {
    let (tokens, diagnostics) = scan("!=!");
    assert!(diagnostics.is_empty());
    assert_eq!(
        types(&tokens),
        vec![TokenType::BangEqual, TokenType::Bang, TokenType::Eof]
    );
}

#[test]
fn lone_bang() {
    let (tokens, diagnostics) = scan("!");
    assert!(diagnostics.is_empty());
    assert_eq!(types(&tokens), vec![TokenType::Bang, TokenType::Eof]);
}

#[test]
fn operator_variants() {
    let (tokens, diagnostics) = scan("<= >= == != < > = !");
    assert!(diagnostics.is_empty());
    assert_eq!(
        types(&tokens),
        vec![
            TokenType::LessEqual,
            TokenType::GreaterEqual,
            TokenType::EqualEqual,
            TokenType::BangEqual,
            TokenType::Less,
            TokenType::Greater,
            TokenType::Equal,
            TokenType::Bang,
            TokenType::Eof,
        ]
    );
}

#[test]
fn all_single_character_tokens() {
    let (tokens, diagnostics) = scan("(){},.-+;*/");
    assert!(diagnostics.is_empty());
    assert_eq!(
        types(&tokens),
        vec![
            TokenType::LeftParen,
            TokenType::RightParen,
            TokenType::LeftBrace,
            TokenType::RightBrace,
            TokenType::Comma,
            TokenType::Dot,
            TokenType::Minus,
            TokenType::Plus,
            TokenType::Semicolon,
            TokenType::Star,
            TokenType::Slash,
            TokenType::Eof,
        ]
    );
}

#[test]
fn integer_literal() {
    let (tokens, diagnostics) = scan("42");
    assert!(diagnostics.is_empty());
    assert_eq!(types(&tokens), vec![TokenType::Integer, TokenType::Eof]);
    assert_eq!(tokens[0].literal, Literal::Integer(42));
    assert_eq!(tokens[0].lexeme, "42");
}

#[test]
fn float_literal_keeps_exact_text() {
    let (tokens, diagnostics) = scan("3.14");
    assert!(diagnostics.is_empty());
    assert_eq!(types(&tokens), vec![TokenType::Float, TokenType::Eof]);
    assert_eq!(tokens[0].literal, Literal::Float(String::from("3.14")));
    assert_eq!(tokens[0].lexeme, "3.14");
}

#[test]
fn trailing_dot_is_not_part_of_the_number() {
    let (tokens, diagnostics) = scan("3.");
    assert!(diagnostics.is_empty());
    assert_eq!(
        types(&tokens),
        vec![TokenType::Integer, TokenType::Dot, TokenType::Eof]
    );
    assert_eq!(tokens[0].literal, Literal::Integer(3));
}

#[test]
fn leading_dot_is_a_dot_token() {
    let (tokens, diagnostics) = scan(".5");
    assert!(diagnostics.is_empty());
    assert_eq!(
        types(&tokens),
        vec![TokenType::Dot, TokenType::Integer, TokenType::Eof]
    );
    assert_eq!(tokens[1].literal, Literal::Integer(5));
}

#[test]
fn largest_integer_fits() {
    let (tokens, diagnostics) = scan("4294967295");
    assert!(diagnostics.is_empty());
    assert_eq!(tokens[0].literal, Literal::Integer(u32::MAX));
}

#[test]
fn integer_overflow_is_a_diagnostic() {
    let (tokens, diagnostics) = scan("4294967296");
    assert_eq!(types(&tokens), vec![TokenType::Eof]);
    assert_eq!(diagnostics, vec![Diagnostic::NumericParseOverflow { line: 1 }]);
}

#[test]
fn unterminated_string_diagnostic() {
    let (tokens, diagnostics) = scan("\"abc");
    assert_eq!(types(&tokens), vec![TokenType::Eof]);
    assert_eq!(diagnostics, vec![Diagnostic::UnterminatedString { line: 1 }]);
}

#[test]
fn unterminated_string_after_other_statements() {
    let (tokens, diagnostics) = scan("1 + 2;\n\"oops");
    assert_eq!(
        types(&tokens),
        vec![
            TokenType::Integer,
            TokenType::Plus,
            TokenType::Integer,
            TokenType::Semicolon,
            TokenType::Eof,
        ]
    );
    // The diagnostic carries the line the string literal started on.
    assert_eq!(diagnostics, vec![Diagnostic::UnterminatedString { line: 2 }]);
}

#[test]
fn unknown_character_diagnostic() {
    let (tokens, diagnostics) = scan("@");
    assert_eq!(types(&tokens), vec![TokenType::Eof]);
    assert_eq!(
        diagnostics,
        vec![Diagnostic::UnknownCharacter { ch: '@', line: 1 }]
    );
}

#[test]
fn scan_continues_after_unknown_character() {
    let (tokens, diagnostics) = scan("@ 1\n#");
    assert_eq!(types(&tokens), vec![TokenType::Integer, TokenType::Eof]);
    assert_eq!(tokens[0].literal, Literal::Integer(1));
    assert_eq!(
        diagnostics,
        vec![
            Diagnostic::UnknownCharacter { ch: '@', line: 1 },
            Diagnostic::UnknownCharacter { ch: '#', line: 2 },
        ]
    );
}

#[test]
fn empty_source_yields_lone_eof() {
    let (tokens, diagnostics) = scan("");
    assert!(diagnostics.is_empty());
    assert_eq!(tokens.len(), 1);
    assert_eq!(tokens[0].token_type, TokenType::Eof);
    assert_eq!(tokens[0].lexeme, "");
    assert_eq!(tokens[0].literal, Literal::NoValue);
    assert_eq!(tokens[0].line, 1);
}

#[test]
fn exactly_one_eof_and_it_is_last() {
    let (tokens, _) = scan("var x = 1; \"s\" // c\n@");
    let eof_count = tokens
        .iter()
        .filter(|t| t.token_type == TokenType::Eof)
        .count();
    assert_eq!(eof_count, 1);
    assert_eq!(tokens.last().unwrap().token_type, TokenType::Eof);
}

#[test]
fn whitespace_only_advances_lines() {
    let (tokens, diagnostics) = scan(" \t\r\n");
    assert!(diagnostics.is_empty());
    assert_eq!(types(&tokens), vec![TokenType::Eof]);
    assert_eq!(tokens[0].line, 2);
}

#[test]
fn line_numbers_follow_newlines() {
    let (tokens, diagnostics) = scan("1\n2");
    assert!(diagnostics.is_empty());
    assert_eq!(tokens[0].line, 1);
    assert_eq!(tokens[1].line, 2);
    assert_eq!(tokens[2].line, 2);
}

#[test]
fn slash_between_numbers_is_division() {
    let (tokens, diagnostics) = scan("1/2");
    assert!(diagnostics.is_empty());
    assert_eq!(
        types(&tokens),
        vec![
            TokenType::Integer,
            TokenType::Slash,
            TokenType::Integer,
            TokenType::Eof,
        ]
    );
}

#[test]
fn lexemes_match_source_slices() {
    let source = "foo = 12; // note\n\"s\" 3.5";
    let chars: Vec<char> = source.chars().collect();
    let (tokens, diagnostics) = scan(source);
    assert!(diagnostics.is_empty());
    assert!(tokens.len() > 1);
    for t in &tokens {
        if t.token_type == TokenType::Eof {
            assert_eq!(t.lexeme, "");
            continue;
        }
        let sliced: String = chars[t.start..t.end].iter().collect();
        assert_eq!(sliced, t.lexeme);
        assert!(t.lexeme.len() >= 1);
    }
}

#[test]
fn identifier_lexemes_are_separate_slices() {
    let (tokens, diagnostics) = scan("foo bar");
    assert!(diagnostics.is_empty());
    assert_eq!(tokens[0].lexeme, "foo");
    assert_eq!(tokens[1].lexeme, "bar");
}

#[test]
fn underscore_starts_an_identifier() {
    let (tokens, diagnostics) = scan("_tmp1");
    assert!(diagnostics.is_empty());
    assert_eq!(types(&tokens), vec![TokenType::Identifier, TokenType::Eof]);
    assert_eq!(tokens[0].lexeme, "_tmp1");
}

#[test]
fn diagnostics_carry_line_and_message() {
    let (_, diagnostics) = scan("\n\n\"oops");
    assert_eq!(diagnostics.len(), 1);
    assert_eq!(diagnostics[0].line(), 3);
    assert_eq!(diagnostics[0].message(), "unterminated string literal");
    let (_, diagnostics) = scan("@");
    assert_eq!(diagnostics[0].line(), 1);
    assert_eq!(diagnostics[0].message(), "unknown character");
    let (_, diagnostics) = scan("99999999999999999999");
    assert_eq!(diagnostics[0].line(), 1);
    assert_eq!(diagnostics[0].message(), "numeric literal out of range");
}
