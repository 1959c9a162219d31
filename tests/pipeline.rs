use sexpr_compiler::code_generator::code_generator;
use sexpr_compiler::parser::{parser, Node, ParseError};
use sexpr_compiler::tokenizer::{tokenizer, LexError};
use sexpr_compiler::transformer::transformer;

fn compile(input: &str) -> String {
    let tokens = tokenizer(input).expect("Tokenization failed");
    let ast = parser(tokens).expect("Parsing failed");
    let transformed_ast = transformer(ast).expect("Transformation failed");
    code_generator(&transformed_ast).expect("Code generation failed")
}

#[test]
fn test_compiler_pipeline() {
    let test_cases = vec![
        ("(add 2 3)", "add(2, 3)"),
        ("(subtract 5 2)", "subtract(5, 2)"),
        ("(multiply 3 4)", "multiply(3, 4)"),
        ("(divide 10 2)", "divide(10, 2)"),
        ("(add 1 (subtract 3 2))", "add(1, subtract(3, 2))"),
        ("(add (multiply 2 3) (divide 8 4))", "add(multiply(2, 3), divide(8, 4))"),
        ("(log \"hello world\")", "log(\"hello world\")"),
        (
            "(if (greater 3 2) (log \"yes\") (log \"no\"))",
            "if(greater(3, 2), log(\"yes\"), log(\"no\"))",
        ),
    ];

    for (i, (input, expected_output)) in test_cases.iter().enumerate() {
        println!("Test case #{}: \"{}\"", i + 1, input);

        let tokens = tokenizer(input).expect("Tokenization failed");
        println!("  Tokens: {:?}", tokens);

        let ast = parser(tokens).expect("Parsing failed");
        println!("  AST: {:?}", ast);

        let transformed_ast = transformer(ast).expect("Transformation failed");
        println!("  Transformed AST: {:?}", transformed_ast);

        let output = code_generator(&transformed_ast).expect("Code generation failed");
        println!("  Output: {}", output);

        assert_eq!(&output, expected_output);
        println!("  \u{2713} Test passed\n");
    }
}

#[test]
fn test_error_handling() {
    let invalid_input = "(add 2 3";
    let tokens_result = tokenizer(invalid_input);
    assert!(tokens_result.is_ok(), "Tokenizer should handle unclosed parentheses");

    let invalid_token_input = "(add 2 @)";
    let tokens_result = tokenizer(invalid_token_input);
    assert!(tokens_result.is_err(), "Tokenizer should reject invalid tokens");

    let empty_input = "";
    let tokens_result = tokenizer(empty_input);
    assert!(tokens_result.is_ok(), "Tokenizer should handle empty input");
    let tokens = tokens_result.unwrap();
    assert!(tokens.is_empty(), "Empty input should produce empty tokens");
}

#[test]
fn test_complex_expressions() {
    let complex_input = "(add (multiply (subtract 10 5) 2) (divide 100 (add 5 5)))";
    let expected_output = "add(multiply(subtract(10, 5), 2), divide(100, add(5, 5)))";

    let tokens = tokenizer(complex_input).expect("Tokenization failed");
    let ast = parser(tokens).expect("Parsing failed");
    let transformed_ast = transformer(ast).expect("Transformation failed");
    let output = code_generator(&transformed_ast).expect("Code generation failed");

    assert_eq!(output, expected_output);
}

#[test]
fn test_string_handling() {
    let input = "(concat \"hello\" \" \" \"world\")";
    let expected_output = "concat(\"hello\", \" \", \"world\")";

    let tokens = tokenizer(input).expect("Tokenization failed");
    let ast = parser(tokens).expect("Parsing failed");
    let transformed_ast = transformer(ast).expect("Transformation failed");
    let output = code_generator(&transformed_ast).expect("Code generation failed");

    assert_eq!(output, expected_output);
}

#[test]
fn scenario_add() {
    assert_eq!(compile("(add 2 3)"), "add(2, 3)");
}

#[test]
fn scenario_nested_call() {
    assert_eq!(compile("(add 1 (subtract 3 2))"), "add(1, subtract(3, 2))");
}

#[test]
fn scenario_string_argument() {
    assert_eq!(compile("(log \"hello world\")"), "log(\"hello world\")");
}

#[test]
fn scenario_conditional() {
    assert_eq!(
        compile("(if (greater 3 2) (log \"yes\") (log \"no\"))"),
        "if(greater(3, 2), log(\"yes\"), log(\"no\"))"
    );
}

#[test]
fn scenario_unexpected_character() {
    assert_eq!(tokenizer("(add 2 @)"), Err(LexError::UnexpectedChar('@')));
}

#[test]
fn scenario_unterminated_form() {
    let tokens = tokenizer("(add 2 3").unwrap();
    assert_eq!(parser(tokens), Err(ParseError::UnterminatedForm));
}

#[test]
fn literal_only_inputs() {
    assert_eq!(compile("42"), "42");
    assert_eq!(compile("\"hi\""), "\"hi\"");
}

#[test]
fn empty_input_through_every_stage() {
    let tokens = tokenizer("").unwrap();
    assert!(tokens.is_empty());
    let ast = parser(tokens).unwrap();
    assert_eq!(ast, Node::ExpressionStatement(vec![]));
    let transformed_ast = transformer(ast).unwrap();
    assert_eq!(transformed_ast, Node::ExpressionStatement(vec![]));
    assert_eq!(code_generator(&transformed_ast).unwrap(), "");
}

#[test]
fn several_top_level_forms_one_per_line() {
    assert_eq!(compile("(f 1) 2 (g)"), "f(1)\n2\ng()");
}

#[test]
fn names_and_literals_survive_in_order() {
    assert_eq!(
        compile("(NumberLiteral 5) (Identifier \"x\") (Arguments)"),
        "NumberLiteral(5)\nIdentifier(\"x\")\nArguments()"
    );
    assert_eq!(compile("(f  007   \"\")"), "f(7, \"\")");
}

#[test]
fn deep_nesting() {
    let depth = 300;
    let mut input = String::new();
    let mut expected = String::new();
    for _ in 0..depth {
        input.push_str("(f ");
        expected.push_str("f(");
    }
    input.push_str("1");
    expected.push_str("1");
    for _ in 0..depth {
        input.push(')');
        expected.push(')');
    }
    assert_eq!(compile(&input), expected);
}
