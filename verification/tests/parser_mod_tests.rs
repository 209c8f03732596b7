use blockpipe::ast::{ASTNode, LiteralVariant};
use blockpipe::lex_and_parse;

#[test]
fn mod_test_empty_tuple() {
    let code = "()";
    assert_eq!(lex_and_parse(code), Ok(ASTNode::Tuple(vec![])));
}

#[test]
fn mod_test_literal_tuple() {
    let code = r#"
        (
            "hello"
            "world"
            2
            2.0
            -2
            -2.0
        )
    "#;
    assert_eq!(
        lex_and_parse(code),
        Ok(ASTNode::Tuple(vec![
            ASTNode::Literal(LiteralVariant::StringLiteral("hello".to_string())),
            ASTNode::Literal(LiteralVariant::StringLiteral("world".to_string())),
            ASTNode::Literal(LiteralVariant::IntegerLiteral(2)),
            ASTNode::Literal(LiteralVariant::FloatLiteral((2.0f64).to_bits())),
            ASTNode::Literal(LiteralVariant::IntegerLiteral(-2)),
            ASTNode::Literal(LiteralVariant::FloatLiteral((-2.0f64).to_bits())),
        ]))
    );
}
