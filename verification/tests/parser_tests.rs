use blockpipe::ast::{ASTNode, LiteralVariant, PipeType};
use blockpipe::lex_and_parse;

#[test]
fn tests_test_empty_tuple() {
    let code = "()";
    assert_eq!(lex_and_parse(code), Ok(ASTNode::Tuple(vec![])));
}

#[test]
fn tests_test_literal_tuple() {
    let code = r#"
        (
            "hello"
            "world"
            2
            2.0
            -2
            -2.0
        )
    "#;
    assert_eq!(
        lex_and_parse(code),
        Ok(ASTNode::Tuple(vec![
            ASTNode::Literal(LiteralVariant::StringLiteral("hello".to_string())),
            ASTNode::Literal(LiteralVariant::StringLiteral("world".to_string())),
            ASTNode::Literal(LiteralVariant::IntegerLiteral(2)),
            ASTNode::Literal(LiteralVariant::FloatLiteral((2.0f64).to_bits())),
            ASTNode::Literal(LiteralVariant::IntegerLiteral(-2)),
            ASTNode::Literal(LiteralVariant::FloatLiteral((-2.0f64).to_bits())),
        ]))
    );
}

#[test]
fn tests_test_nested_tuple() {
    let code = r"(())";
    assert_eq!(
        lex_and_parse(code),
        Ok(ASTNode::Tuple(vec![ASTNode::Tuple(vec![])]))
    )
}

#[test]
fn tests_test_empty_block() {
    let code = "{}";
    assert_eq!(lex_and_parse(code), Ok(ASTNode::Block(vec![])));
}

#[test]
fn tests_test_literal_block() {
    let code = r#"
        {
            "hello"
            "world"
            2
            2.0
            -2
            -2.0
        }
    "#;
    assert_eq!(
        lex_and_parse(code),
        Ok(ASTNode::Block(vec![
            ASTNode::Literal(LiteralVariant::StringLiteral("hello".to_string())),
            ASTNode::Literal(LiteralVariant::StringLiteral("world".to_string())),
            ASTNode::Literal(LiteralVariant::IntegerLiteral(2)),
            ASTNode::Literal(LiteralVariant::FloatLiteral((2.0f64).to_bits())),
            ASTNode::Literal(LiteralVariant::IntegerLiteral(-2)),
            ASTNode::Literal(LiteralVariant::FloatLiteral((-2.0f64).to_bits())),
        ]))
    );
}

#[test]
fn tests_test_nested_block() {
    let code = r"{{} {}}";
    assert_eq!(
        lex_and_parse(code),
        Ok(ASTNode::Block(vec![
            ASTNode::Block(vec![]),
            ASTNode::Block(vec![])
        ]))
    )
}

#[test]
fn tests_test_binding_literal() {
    let code = r#"
        (a: "hello"
            b: 2)
    "#;
    assert_eq!(
        lex_and_parse(code),
        Ok(ASTNode::Tuple(vec![
            ASTNode::Binding(
                "a".to_string(),
                Box::new(ASTNode::Literal(LiteralVariant::StringLiteral(
                    "hello".to_string()
                )))
            ),
            ASTNode::Binding(
                "b".to_string(),
                Box::new(ASTNode::Literal(LiteralVariant::IntegerLiteral(2)))
            ),
        ]))
    );
}

#[test]
fn tests_test_bind_identifier() {
    let code = r#"
        (
            a: bruh
            b: string
        )
    "#;
    assert_eq!(
        lex_and_parse(code),
        Ok(ASTNode::Tuple(vec![
            ASTNode::Binding(
                "a".to_string(),
                Box::new(ASTNode::Identifier("bruh".to_string()))
            ),
            ASTNode::Binding(
                "b".to_string(),
                Box::new(ASTNode::Identifier("string".to_string()))
            ),
        ]))
    )
}

#[test]
fn tests_test_type() {
    let code = r#"
        type (a: string
                b: integer)
    "#;
    assert_eq!(
        lex_and_parse(code),
        Ok(ASTNode::Type(Box::new(ASTNode::Tuple(vec![
            ASTNode::Binding(
                "a".to_string(),
                Box::new(ASTNode::Identifier("string".to_string()))
            ),
            ASTNode::Binding(
                "b".to_string(),
                Box::new(ASTNode::Identifier("integer".to_string()))
            ),
        ]))))
    );
}

#[test]
fn tests_test_basic_pipe() {
    let code = r#"
        a | b
    "#;
    let expected_ast = ASTNode::Pipe(
        vec![
            ASTNode::Identifier("a".to_string()),
            ASTNode::Identifier("b".to_string()),
        ],
        vec![PipeType::Standard],
    );
    assert_eq!(lex_and_parse(code), Ok(expected_ast));
}

#[test]
fn tests_test_basic_pipe_chain() {
    let code = r#"
        a | b | c
    "#;
    let expected_ast = ASTNode::Pipe(
        vec![
            ASTNode::Identifier("a".to_string()),
            ASTNode::Identifier("b".to_string()),
            ASTNode::Identifier("c".to_string()),
        ],
        vec![PipeType::Standard, PipeType::Standard],
    );
    assert_eq!(lex_and_parse(code), Ok(expected_ast));
}

#[test]
fn tests_test_mixed_pipe_chain() {
    let code = r#"
        a |* b | c |* d
    "#;
    let expected_ast = ASTNode::Pipe(
        vec![
            ASTNode::Identifier("a".to_string()),
            ASTNode::Identifier("b".to_string()),
            ASTNode::Identifier("c".to_string()),
            ASTNode::Identifier("d".to_string()),
        ],
        vec![
            PipeType::Destructure,
            PipeType::Standard,
            PipeType::Destructure,
        ],
    );
    assert_eq!(lex_and_parse(code), Ok(expected_ast));
}

#[test]
fn tests_parse_complete_blockpipe() {
    let code = r#"
        main: {
            paste (
                "declarations.blkp"
            )

            add: {
                in: type (arg1: integer
                            arg2: integer)
                out: type (out1: integer)

                (in "add") |* plz
            }

            (a b) |* add
        }"#;

    let expected_ast = ASTNode::Binding(
        "main".to_string(),
        Box::new(ASTNode::Block(vec![
            ASTNode::Paste(Box::new(ASTNode::Tuple(vec![
                ASTNode::Literal(LiteralVariant::StringLiteral(
                    "declarations.blkp".to_string(),
                )),
            ]))),
            ASTNode::Binding(
                "add".to_string(),
                Box::new(ASTNode::Block(vec![
                    ASTNode::Binding(
                        "in".to_string(),
                        Box::new(ASTNode::Type(Box::new(ASTNode::Tuple(
                            vec![
                                ASTNode::Binding(
                                    "arg1".to_string(),
                                    Box::new(ASTNode::Identifier(
                                        "integer".to_string(),
                                    )),
                                ),
                                ASTNode::Binding(
                                    "arg2".to_string(),
                                    Box::new(ASTNode::Identifier(
                                        "integer".to_string(),
                                    )),
                                ),
                            ],
                        )))),
                    ),
                    ASTNode::Binding(
                        "out".to_string(),
                        Box::new(ASTNode::Type(Box::new(ASTNode::Tuple(
                            vec![ASTNode::Binding(
                                "out1".to_string(),
                                Box::new(ASTNode::Identifier(
                                    "integer".to_string(),
                                )),
                            )],
                        )))),
                    ),
                    ASTNode::Pipe(
                        vec![
                            ASTNode::Tuple(vec![
                                ASTNode::Identifier("in".to_string()),
                                ASTNode::Literal(
                                    LiteralVariant::StringLiteral(
                                        "add".to_string(),
                                    ),
                                ),
                            ]),
                            ASTNode::Identifier("plz".to_string()),
                        ],
                        vec![PipeType::Destructure],
                    ),
                ])),
            ),
            ASTNode::Pipe(
                vec![
                    ASTNode::Tuple(vec![
                        ASTNode::Identifier("a".to_string()),
                        ASTNode::Identifier("b".to_string()),
                    ]),
                    ASTNode::Identifier("add".to_string()),
                ],
                vec![PipeType::Destructure],
            ),
        ])),
    );

    assert_eq!(lex_and_parse(code), Ok(expected_ast));
}
