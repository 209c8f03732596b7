use blockpipe::ast::{ASTNode, LiteralVariant};
use blockpipe::lex_and_parse;

#[test]
fn empty_block() {
    let expr = lex_and_parse("{ }").expect("Failed to parse: ");
    assert_eq!(expr, ASTNode::Block(vec![]))
}

#[test]
fn nested_block() {
    let expr = lex_and_parse("{ {} }").expect("Failed to parse: ");
    assert_eq!(expr, ASTNode::Block(vec![ASTNode::Block(vec![])]))
}

#[test]
fn multiple_nested_block() {
    let expr = lex_and_parse("{ {} {{} { } } }").expect("Failed to parse: ");
    assert_eq!(
        expr,
        ASTNode::Block(vec![
            ASTNode::Block(vec![]),
            ASTNode::Block(vec![
                ASTNode::Block(vec![]),
                ASTNode::Block(vec![])
            ])
        ])
    )
}

#[test]
fn empty_tuple() {
    let expr = lex_and_parse("( )").expect("Failed to parse: ");
    assert_eq!(expr, ASTNode::Tuple(vec![]))
}

#[test]
fn nested_tuple() {
    let expr = lex_and_parse("(( ) )").expect("Failed to parse: ");
    assert_eq!(expr, ASTNode::Tuple(vec![ASTNode::Tuple(vec![])]))
}

#[test]
fn multiple_nested_tuple() {
    let expr = lex_and_parse("( () (() ( ) ) )").expect("Failed to parse: ");
    assert_eq!(
        expr,
        ASTNode::Tuple(vec![
            ASTNode::Tuple(vec![]),
            ASTNode::Tuple(vec![
                ASTNode::Tuple(vec![]),
                ASTNode::Tuple(vec![])
            ])
        ])
    )
}

#[test]
fn positive_integer() {
    let expr = lex_and_parse(" 10 ").expect("Failed to parse: ");
    assert_eq!(expr, ASTNode::Literal(LiteralVariant::IntegerLiteral(10)));
}

#[test]
fn negative_integer() {
    let expr = lex_and_parse(" -10 ").expect("Failed to parse: ");
    assert_eq!(expr, ASTNode::Literal(LiteralVariant::IntegerLiteral(-10)))
}

#[test]
fn positive_float() {
    let expr = lex_and_parse(" 1.0 ").expect("Failed to parse: ");
    assert_eq!(
        expr,
        ASTNode::Literal(LiteralVariant::FloatLiteral((1.0f64).to_bits()))
    )
}

#[test]
fn negative_float() {
    let expr = lex_and_parse(" -1.0 ").expect("Failed to parse: ");
    assert_eq!(
        expr,
        ASTNode::Literal(LiteralVariant::FloatLiteral((-1.0f64).to_bits()))
    )
}
