use if_lang::lexer::Lexer;
use if_lang::parser::parse_program;
use if_lang::validate::validate_program;

#[test]
fn validates_param_order_violation() {
    let source = r#"
            fn f(a, b) = b + a;
            f(1, 2)
        "#;
    let tokens = Lexer::new(source).lex_all();
    let program = parse_program(&tokens).expect("parse");
    let err = validate_program(&program).expect_err("should fail");
    assert!(err.message.contains("uses parameter"));
}

#[test]
fn validates_match_wildcard_last() {
    let source = r#"
            fn f(x) = match x { _ => 1; 2 => 3; };
            f(0)
        "#;
    let tokens = Lexer::new(source).lex_all();
    let program = parse_program(&tokens).expect("parse");
    let err = validate_program(&program).expect_err("should fail");
    assert!(err.message.contains("wildcard"));
}
