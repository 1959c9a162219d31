use sexpr_compiler::code_generator::{code_generator, EmitError};
use sexpr_compiler::parser::{parser, Node, ParseError};
use sexpr_compiler::tokenizer::{tokenizer, LexError, Token};
use sexpr_compiler::transformer::{transformer, TransformError};

fn fun(name: &str, args: Vec<Node>) -> Node {
    Node::Fun(name.to_string(), args)
}

fn wrapped(name: &str, args: Vec<Node>) -> Node {
    fun(
        name,
        vec![
            fun("Identifier", vec![Node::String(name.to_string())]),
            fun("Arguments", args),
        ],
    )
}

fn number_literal(v: i32) -> Node {
    fun("NumberLiteral", vec![Node::Number(v)])
}

#[test]
fn test_tokenizer() {
    let input = "(add 2 (subtract 4 2))";
    let tokens = vec![
        Token::OpenParen,
        Token::Identifier("add".to_string()),
        Token::Number(2),
        Token::OpenParen,
        Token::Identifier("subtract".to_string()),
        Token::Number(4),
        Token::Number(2),
        Token::CloseParen,
        Token::CloseParen,
    ];
    println!("{:?}", tokenizer(&input));
    assert!(tokenizer(&input) == Ok(tokens));
}

#[test]
fn test_parser() {
    let tokens = vec![
        Token::OpenParen,
        Token::Identifier("add".to_string()),
        Token::Number(2),
        Token::OpenParen,
        Token::Identifier("subtract".to_string()),
        Token::Number(4),
        Token::Number(2),
        Token::CloseParen,
        Token::CloseParen,
    ];
    let ast = Node::ExpressionStatement(vec![Node::Fun(
        "add".to_string(),
        vec![
            Node::Number(2),
            Node::Fun(
                "subtract".to_string(),
                vec![Node::Number(4), Node::Number(2)],
            ),
        ],
    )]);

    println!("{:?}", parser(tokens.clone()).unwrap());
    assert!(parser(tokens) == Ok(ast));
}

#[test]
fn test_transformer() {
    let ast = Node::ExpressionStatement(vec![Node::Fun(
        "add".to_string(),
        vec![
            Node::Number(2),
            Node::Fun(
                "subtract".to_string(),
                vec![Node::Number(4), Node::Number(2)],
            ),
        ],
    )]);

    let expected_ast = Node::ExpressionStatement(vec![Node::Fun(
        "add".to_string(),
        vec![
            Node::Fun(
                "Identifier".to_string(),
                vec![Node::String("add".to_string())],
            ),
            Node::Fun(
                "Arguments".to_string(),
                vec![
                    Node::Fun("NumberLiteral".to_string(), vec![Node::Number(2)]),
                    Node::Fun(
                        "subtract".to_string(),
                        vec![
                            Node::Fun(
                                "Identifier".to_string(),
                                vec![Node::String("subtract".to_string())],
                            ),
                            Node::Fun(
                                "Arguments".to_string(),
                                vec![
                                    Node::Fun("NumberLiteral".to_string(), vec![Node::Number(4)]),
                                    Node::Fun("NumberLiteral".to_string(), vec![Node::Number(2)]),
                                ],
                            ),
                        ],
                    ),
                ],
            ),
        ],
    )]);

    assert_eq!(transformer(ast), Ok(expected_ast));
}

#[test]
fn test_code_generator() {
    let transformed_ast = Node::ExpressionStatement(vec![Node::Fun(
        "add".to_string(),
        vec![
            Node::Fun(
                "Identifier".to_string(),
                vec![Node::String("add".to_string())],
            ),
            Node::Fun(
                "Arguments".to_string(),
                vec![
                    Node::Fun("NumberLiteral".to_string(), vec![Node::Number(2)]),
                    Node::Fun(
                        "subtract".to_string(),
                        vec![
                            Node::Fun(
                                "Identifier".to_string(),
                                vec![Node::String("subtract".to_string())],
                            ),
                            Node::Fun(
                                "Arguments".to_string(),
                                vec![
                                    Node::Fun("NumberLiteral".to_string(), vec![Node::Number(4)]),
                                    Node::Fun("NumberLiteral".to_string(), vec![Node::Number(2)]),
                                ],
                            ),
                        ],
                    ),
                ],
            ),
        ],
    )]);

    let expected = "add(2, subtract(4, 2))";

    assert_eq!(code_generator(&transformed_ast).unwrap(), expected);
}

#[test]
fn tokenizer_reads_strings_and_identifiers_with_underscores() {
    let tokens = tokenizer("(say_hi \"a b\" 007)").unwrap();
    assert_eq!(
        tokens,
        vec![
            Token::OpenParen,
            Token::Identifier("say_hi".to_string()),
            Token::String("a b".to_string()),
            Token::Number(7),
            Token::CloseParen,
        ]
    );
}

#[test]
fn tokenizer_rejects_unexpected_character() {
    assert_eq!(tokenizer("(add 2 @)"), Err(LexError::UnexpectedChar('@')));
    assert_eq!(tokenizer("\t"), Err(LexError::UnexpectedChar('\t')));
    assert_eq!(tokenizer("_x"), Err(LexError::UnexpectedChar('_')));
}

#[test]
fn tokenizer_rejects_unterminated_string() {
    assert_eq!(tokenizer("(log \"open)"), Err(LexError::UnterminatedString));
}

#[test]
fn tokenizer_number_limits() {
    assert_eq!(tokenizer("2147483647"), Ok(vec![Token::Number(2147483647)]));
    assert_eq!(tokenizer("2147483648"), Err(LexError::NumberTooLarge));
    assert_eq!(tokenizer("99999999999999999999"), Err(LexError::NumberTooLarge));
}

#[test]
fn tokenizer_stops_at_first_error() {
    assert_eq!(tokenizer("@ \"x"), Err(LexError::UnexpectedChar('@')));
    assert_eq!(tokenizer("\"x @"), Err(LexError::UnterminatedString));
}

#[test]
fn parser_rejects_unterminated_form() {
    let tokens = tokenizer("(add 2 3").unwrap();
    assert_eq!(parser(tokens), Err(ParseError::UnterminatedForm));
}

#[test]
fn parser_rejects_unexpected_tokens() {
    let stray_close = vec![Token::CloseParen];
    assert_eq!(
        parser(stray_close),
        Err(ParseError::UnexpectedToken(Token::CloseParen))
    );
    let bare_name = tokenizer("(add x)").unwrap();
    assert_eq!(
        parser(bare_name),
        Err(ParseError::UnexpectedToken(Token::Identifier("x".to_string())))
    );
}

#[test]
fn parser_reports_errors_after_good_forms() {
    let tokens = tokenizer("(add 1 2) )").unwrap();
    assert_eq!(
        parser(tokens),
        Err(ParseError::UnexpectedToken(Token::CloseParen))
    );
}

#[test]
fn parser_gives_empty_name_without_identifier() {
    let tokens = tokenizer("(1 2) ()").unwrap();
    assert_eq!(
        parser(tokens),
        Ok(Node::ExpressionStatement(vec![
            fun("", vec![Node::Number(1), Node::Number(2)]),
            fun("", vec![]),
        ]))
    );
}

#[test]
fn parser_accepts_top_level_literals() {
    let tokens = tokenizer("42 \"hi\" (f)").unwrap();
    assert_eq!(
        parser(tokens),
        Ok(Node::ExpressionStatement(vec![
            Node::Number(42),
            Node::String("hi".to_string()),
            fun("f", vec![]),
        ]))
    );
}

#[test]
fn transformer_wraps_literals() {
    let ast = Node::ExpressionStatement(vec![Node::Number(5), Node::String("s".to_string())]);
    assert_eq!(
        transformer(ast),
        Ok(Node::ExpressionStatement(vec![
            number_literal(5),
            fun("StringLiteral", vec![Node::String("s".to_string())]),
        ]))
    );
}

#[test]
fn transformer_rejects_non_program_root() {
    assert_eq!(transformer(Node::Number(1)), Err(TransformError::NotAProgram));
    assert_eq!(transformer(fun("f", vec![])), Err(TransformError::NotAProgram));
}

#[test]
fn transformer_rejects_nested_program() {
    let ast = Node::ExpressionStatement(vec![fun(
        "f",
        vec![Node::ExpressionStatement(vec![])],
    )]);
    assert_eq!(transformer(ast), Err(TransformError::NestedProgram));
}

#[test]
fn transformer_is_deterministic() {
    let make = || {
        Node::ExpressionStatement(vec![fun(
            "add",
            vec![Node::Number(1), fun("neg", vec![Node::String("x".to_string())])],
        )])
    };
    let first = transformer(make()).unwrap();
    let second = transformer(make()).unwrap();
    assert_eq!(first, second);
    assert_eq!(
        first,
        Node::ExpressionStatement(vec![wrapped(
            "add",
            vec![
                number_literal(1),
                wrapped(
                    "neg",
                    vec![fun("StringLiteral", vec![Node::String("x".to_string())])]
                ),
            ],
        )])
    );
}

#[test]
fn code_generator_prints_raw_trees() {
    let ast = Node::ExpressionStatement(vec![
        fun("add", vec![Node::Number(-12), Node::String("q".to_string())]),
        Node::Number(0),
    ]);
    assert_eq!(code_generator(&ast).unwrap(), "add(-12, \"q\")\n0");
}

#[test]
fn code_generator_prints_extreme_numbers() {
    assert_eq!(code_generator(&Node::Number(i32::MIN)).unwrap(), "-2147483648");
    assert_eq!(code_generator(&number_literal(i32::MAX)).unwrap(), "2147483647");
    assert_eq!(code_generator(&number_literal(10)).unwrap(), "10");
}

#[test]
fn code_generator_rejects_malformed_identifier() {
    let ast = fun(
        "f",
        vec![fun("Identifier", vec![Node::Number(1)]), fun("Arguments", vec![])],
    );
    assert_eq!(code_generator(&ast), Err(EmitError::MalformedIdentifier));
    let nested = Node::ExpressionStatement(vec![fun("g", vec![ast])]);
    assert_eq!(code_generator(&nested), Err(EmitError::MalformedIdentifier));
}

#[test]
fn code_generator_uses_wrapped_name() {
    let ast = fun(
        "ignored",
        vec![
            fun("Identifier", vec![Node::String("real".to_string())]),
            fun("Arguments", vec![Node::Number(3)]),
        ],
    );
    assert_eq!(code_generator(&ast).unwrap(), "real(3)");
}
