use starql::error::{Error, LexError};
use starql::lexer::{Lexer, TokenType};

fn kinds(q: &str) -> Vec<TokenType> {
    Lexer::new(q).tokenize().unwrap().iter().map(|t| t.token_type).collect()
}

fn paren_expected() -> Vec<TokenType> {
    vec![
        TokenType::Identifier,
        TokenType::Equal,
        TokenType::Number,
        TokenType::Semicolon,
        TokenType::Identifier,
        TokenType::Equal,
        TokenType::String,
        TokenType::Semicolon,
        TokenType::Identifier,
        TokenType::Equal,
        TokenType::ListBegin,
        TokenType::Number,
        TokenType::Comma,
        TokenType::Identifier,
        TokenType::Comma,
        TokenType::Number,
        TokenType::ListEnd,
        TokenType::Pipe,
        TokenType::Identifier,
        TokenType::LeftParen,
        TokenType::Identifier,
        TokenType::Equal,
        TokenType::Identifier,
        TokenType::RightParen,
        TokenType::Eof,
    ]
}

#[test]
fn lexer_lex_paren() {
    let lexer = Lexer::new("x = 05.13;  z = \"foo\"; y = [3, x, 4] | incr(by=x)");
    let actual = lexer.tokenize().unwrap();
    let kinds: Vec<TokenType> = actual.iter().map(|t| t.token_type).collect();
    assert_eq!(paren_expected(), kinds);
}

#[test]
fn tests_lex_paren() {
    let lexer = Lexer::new("x = 05.13;  z = \"foo\"; y = [3, x, 4] | incr(by=x)");
    let actual = lexer.tokenize().unwrap();
    assert_eq!(actual[2].lexeme, "05.13");
    assert_eq!(actual[6].lexeme, "\"foo\"");
    assert_eq!(actual[6].literal(), "foo");
    assert_eq!(actual.len(), paren_expected().len());
}

#[test]
fn two_character_operators() {
    assert_eq!(
        kinds("== != >= <= > < = !"),
        vec![
            TokenType::EqualEqual,
            TokenType::BangEqual,
            TokenType::GreaterEqual,
            TokenType::LesserEqual,
            TokenType::Greater,
            TokenType::Lesser,
            TokenType::Equal,
            TokenType::Bang,
            TokenType::Eof,
        ]
    );
}

#[test]
fn keywords_and_variables() {
    assert_eq!(
        kinds("true false or and orx $abc @"),
        vec![
            TokenType::Bool,
            TokenType::Bool,
            TokenType::Or,
            TokenType::And,
            TokenType::Identifier,
            TokenType::Variable,
            TokenType::Variable,
            TokenType::Eof,
        ]
    );
    let toks = Lexer::new("$abc").tokenize().unwrap();
    assert_eq!(toks[0].literal(), "abc");
}

#[test]
fn number_then_identifier() {
    assert_eq!(kinds("12abc"), vec![TokenType::Number, TokenType::Identifier, TokenType::Eof]);
}

#[test]
fn comments_and_lines() {
    let toks = Lexer::new("// one\nx\n\n y // end").tokenize().unwrap();
    assert_eq!(toks.len(), 3);
    assert_eq!(toks[0].linenum, 2);
    assert_eq!(toks[1].linenum, 4);
}

#[test]
fn lex_errors() {
    assert!(matches!(Lexer::new("\"abc").tokenize(), Err(Error::Lex { kind: LexError::UnterminatedString, .. })));
    assert!(matches!(Lexer::new("5.").tokenize(), Err(Error::Lex { kind: LexError::MalformedNumber, .. })));
    assert!(matches!(Lexer::new("5.x").tokenize(), Err(Error::Lex { kind: LexError::MalformedNumber, .. })));
    assert!(matches!(Lexer::new("$1").tokenize(), Err(Error::Lex { kind: LexError::BadVariable, .. })));
    assert!(matches!(Lexer::new("1\n#").tokenize(), Err(Error::Lex { kind: LexError::UnexpectedChar('#'), line: 2 })));
}

#[test]
fn empty_input_is_just_eof() {
    assert_eq!(kinds(""), vec![TokenType::Eof]);
}
