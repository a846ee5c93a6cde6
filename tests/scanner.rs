use rlox::scanner::{ScanError, Scanner};
use rlox::token::{Token, TokenType};

fn test_scan(input: &str, expected: &str, expected_type: TokenType) {
    let Token { literal, token_type, .. } = Scanner::new(input).scan_token().unwrap();
    assert_eq!(literal, expected);
    assert_eq!(token_type, expected_type);
}

fn test_scan_token(input: &str) -> TokenType {
    Scanner::new(input).scan_token().unwrap().token_type
}

#[test]
fn test_primitives() {
    assert_eq!(test_scan_token("("), TokenType::LeftParen);
    assert_eq!(test_scan_token(")"), TokenType::RightParen);
    assert_eq!(test_scan_token("{"), TokenType::LeftBrace);
    assert_eq!(test_scan_token("}"), TokenType::RightBrace);
    assert_eq!(test_scan_token(";"), TokenType::Semicolon);
    assert_eq!(test_scan_token(","), TokenType::Comma);
    assert_eq!(test_scan_token("."), TokenType::Dot);
    assert_eq!(test_scan_token("-"), TokenType::Minus);
    assert_eq!(test_scan_token("+"), TokenType::Plus);
    assert_eq!(test_scan_token("/"), TokenType::Slash);
    assert_eq!(test_scan_token("*"), TokenType::Star);
    assert_eq!(test_scan_token("!"), TokenType::Bang);
    assert_eq!(test_scan_token("!="), TokenType::BangEqual);
    assert_eq!(test_scan_token("="), TokenType::Equal);
    assert_eq!(test_scan_token("=="), TokenType::EqualEqual);
    assert_eq!(test_scan_token("<"), TokenType::Less);
    assert_eq!(test_scan_token("<="), TokenType::LessEqual);
    assert_eq!(test_scan_token(">"), TokenType::Greater);
    assert_eq!(test_scan_token(">="), TokenType::GreaterEqual);
}

#[test]
fn test_number() {
    test_scan("   123 ", "123", TokenType::Number);
    test_scan("   123.123 ", "123.123", TokenType::Number);
}

#[test]
fn test_string() {
    test_scan("   \"blah\" ", "\"blah\"", TokenType::String);
    test_scan("
\"Here's a multiline
string\"
", "\"Here's a multiline\nstring\"", TokenType::String);
}

#[test]
fn test_keywords() {
    test_scan("and", "and", TokenType::And);
    test_scan("class", "class", TokenType::Class);
    test_scan("else", "else", TokenType::Else);
    test_scan("false", "false", TokenType::False);
    test_scan("for", "for", TokenType::For);
    test_scan("fun", "fun", TokenType::Fun);
    test_scan("if", "if", TokenType::If);
    test_scan("nil", "nil", TokenType::Nil);
    test_scan("or", "or", TokenType::Or);
    test_scan("print", "print", TokenType::Print);
    test_scan("return", "return", TokenType::Return);
    test_scan("super", "super", TokenType::Super);
    test_scan("this", "this", TokenType::This);
    test_scan("true", "true", TokenType::True);
    test_scan("var", "var", TokenType::Var);
    test_scan("while", "while", TokenType::While);
}

#[test]
fn test_identifier() {
    test_scan("   blah ", "blah", TokenType::Identifier);
    test_scan("   foo9000 ", "foo9000", TokenType::Identifier);
}

#[test]
fn keyword_prefixes_and_extensions_are_identifiers() {
    test_scan("an", "an", TokenType::Identifier);
    test_scan("andy", "andy", TokenType::Identifier);
    test_scan("f", "f", TokenType::Identifier);
    test_scan("fa", "fa", TokenType::Identifier);
    test_scan("t", "t", TokenType::Identifier);
    test_scan("thisx", "thisx", TokenType::Identifier);
    test_scan("whilst", "whilst", TokenType::Identifier);
}

#[test]
fn non_ascii_letters_start_identifiers() {
    test_scan("été", "été", TokenType::Identifier);
    test_scan("  λx1 ", "λx1", TokenType::Identifier);
}

#[test]
fn trailing_point_is_not_part_of_number() {
    let mut s = Scanner::new("12.");
    let t = s.scan_token().unwrap();
    assert_eq!(t.literal, "12");
    assert_eq!(t.token_type, TokenType::Number);
    let t = s.scan_token().unwrap();
    assert_eq!(t.token_type, TokenType::Dot);
    let t = s.scan_token().unwrap();
    assert_eq!(t.token_type, TokenType::EOF);
}

#[test]
fn comments_and_newlines_are_skipped() {
    let mut s = Scanner::new("// a comment\n  // another\n\t42 // trailing");
    let t = s.scan_token().unwrap();
    assert_eq!(t.literal, "42");
    assert_eq!(t.line, 3);
    let t = s.scan_token().unwrap();
    assert_eq!(t.token_type, TokenType::EOF);
    assert_eq!(t.line, 3);
    assert_eq!(t.literal, "");
}

#[test]
fn slash_alone_is_an_operator() {
    let mut s = Scanner::new("4 / 2");
    assert_eq!(s.scan_token().unwrap().token_type, TokenType::Number);
    assert_eq!(s.scan_token().unwrap().token_type, TokenType::Slash);
    assert_eq!(s.scan_token().unwrap().token_type, TokenType::Number);
}

#[test]
fn multiline_string_ends_on_its_last_line() {
    let mut s = Scanner::new("\"a\nb\nc\" x");
    let t = s.scan_token().unwrap();
    assert_eq!(t.line, 3);
    let t = s.scan_token().unwrap();
    assert_eq!(t.literal, "x");
    assert_eq!(t.line, 3);
}

#[test]
fn unterminated_string_is_a_scan_error() {
    let mut s = Scanner::new("\"abc");
    assert!(matches!(s.scan_token(), Err(ScanError::UnterminatedString)));
    assert_eq!(s.scan_token().unwrap().token_type, TokenType::EOF);
}

#[test]
fn unexpected_character_is_a_scan_error() {
    let mut s = Scanner::new("@ 1");
    assert!(matches!(s.scan_token(), Err(ScanError::UnexpectedCharacter)));
    assert_eq!(s.lexeme(), "@");
    let t = s.scan_token().unwrap();
    assert_eq!(t.token_type, TokenType::Number);
}

#[test]
fn end_of_input_repeats() {
    let mut s = Scanner::new("   ");
    assert_eq!(s.scan_token().unwrap().token_type, TokenType::EOF);
    assert_eq!(s.scan_token().unwrap().token_type, TokenType::EOF);
}
