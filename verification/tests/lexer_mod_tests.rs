use blockpipe::lexer::{lex, Token};

#[test]
fn mod_test_integer() {
    let lexed = lex("1 12 -1 -12");
    assert_eq!(lexed[0].0, Ok(Token::IntegerLiteral(1)));
    assert_eq!(lexed[1].0, Ok(Token::IntegerLiteral(12)));
    assert_eq!(lexed[2].0, Ok(Token::IntegerLiteral(-1)));
    assert_eq!(lexed[3].0, Ok(Token::IntegerLiteral(-12)));
}

#[test]
fn mod_test_float() {
    let lexed = lex("1.0 12.0 -1.0 -12.0");
    assert_eq!(lexed[0].0, Ok(Token::FloatLiteral((1.0f64).to_bits())));
    assert_eq!(lexed[1].0, Ok(Token::FloatLiteral((12.0f64).to_bits())));
    assert_eq!(lexed[2].0, Ok(Token::FloatLiteral((-1.0f64).to_bits())));
    assert_eq!(lexed[3].0, Ok(Token::FloatLiteral((-12.0f64).to_bits())));
}

#[test]
fn mod_test_string() {
    let lexed = lex(r#""hello world""#);
    assert_eq!(lexed[0].0, Ok(Token::StringLiteral("hello world".to_string())));
}

#[test]
fn mod_test_boolean() {
    let lexed = lex("T F");
    assert_eq!(lexed[0].0, Ok(Token::BooleanLiteral(true)));
    assert_eq!(lexed[1].0, Ok(Token::BooleanLiteral(false)));
}

#[test]
fn mod_test_parentheses() {
    let lexed = lex("() ( )");
    assert_eq!(lexed[0].0, Ok(Token::LeftParen));
    assert_eq!(lexed[1].0, Ok(Token::RightParen));
    assert_eq!(lexed[2].0, Ok(Token::LeftParen));
    assert_eq!(lexed[3].0, Ok(Token::RightParen));
}

#[test]
fn mod_test_braces() {
    let lexed = lex("{} { }");
    assert_eq!(lexed[0].0, Ok(Token::LeftBrace));
    assert_eq!(lexed[1].0, Ok(Token::RightBrace));
    assert_eq!(lexed[2].0, Ok(Token::LeftBrace));
    assert_eq!(lexed[3].0, Ok(Token::RightBrace));
}

#[test]
fn mod_test_pipe() {
    let lexed = lex("|");
    assert_eq!(lexed[0].0, Ok(Token::Pipe));
}

#[test]
fn mod_test_type() {
    let lexed = lex("type");
    assert_eq!(lexed[0].0, Ok(Token::Type));
}

#[test]
fn test_paste() {
    let lexed = lex("paste");
    assert_eq!(lexed[0].0, Ok(Token::Paste));
}

#[test]
fn test_all() {
    let lexed = lex("(){}|\"hello world\"T F 1 1.0 type paste");
    assert_eq!(lexed[0].0, Ok(Token::LeftParen));
    assert_eq!(lexed[1].0, Ok(Token::RightParen));
    assert_eq!(lexed[2].0, Ok(Token::LeftBrace));
    assert_eq!(lexed[3].0, Ok(Token::RightBrace));
    assert_eq!(lexed[4].0, Ok(Token::Pipe));
    assert_eq!(lexed[5].0, Ok(Token::StringLiteral("hello world".to_string())));
    assert_eq!(lexed[6].0, Ok(Token::BooleanLiteral(true)));
    assert_eq!(lexed[7].0, Ok(Token::BooleanLiteral(false)));
    assert_eq!(lexed[8].0, Ok(Token::IntegerLiteral(1)));
    assert_eq!(lexed[9].0, Ok(Token::FloatLiteral((1.0f64).to_bits())));
    assert_eq!(lexed[10].0, Ok(Token::Type));
    assert_eq!(lexed[11].0, Ok(Token::Paste));
    assert_eq!(lexed.len(), 12);
}
