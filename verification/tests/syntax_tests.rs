use if_lang::ast::surface::Program;
use if_lang::eval::eval_program;
use if_lang::lexer::Lexer;
use if_lang::lower::lower_program;
use if_lang::parser::parse_program;
use if_lang::validate::validate_program;
use if_lang::value::Value;

fn parses(source: &str) -> bool {
    let tokens = Lexer::new(source).lex_all();
    parse_program(&tokens).is_ok()
}

fn parse(source: &str) -> Program {
    let tokens = Lexer::new(source).lex_all();
    parse_program(&tokens).expect("parse")
}

fn value_of(source: &str) -> Value {
    let program = parse(source);
    validate_program(&program).expect("validate");
    eval_program(&lower_program(program)).expect("eval").expect("value")
}

#[test]
fn trailing_commas_are_allowed_where_documented() {
    assert!(parses("[1, 2, ]"));
    assert!(parses("#{ 1: 2, }"));
    assert!(parses("data T = Node { value, }; Node { value: 1, }"));
    assert!(parses("fn f(t) = match t { Node { value, } => value; _ => 0, };"));
}

#[test]
fn trailing_commas_are_refused_in_params_and_arguments() {
    assert!(!parses("fn f(a, ) = a;"));
    assert!(!parses("fn f(a) = a; f(1, )"));
}

#[test]
fn match_arms_may_be_separated_by_commas() {
    assert_eq!(value_of("match 2 { 1 => 10, 2 => 20, _ => 30 }"), Value::Int(20));
}

#[test]
fn a_final_expression_with_semicolon_is_discarded() {
    let program = parse("let x = 1; x + 1;");
    assert!(program.expr.is_none());
}

#[test]
fn pipe_without_arguments_calls_with_the_input_alone() {
    assert_eq!(value_of("fn inc(x) = x + 1; 1 |> inc |> inc"), Value::Int(3));
}

#[test]
fn zero_field_variant_is_referenced_by_name() {
    assert_eq!(
        value_of("data T = Empty | Node { v }; Empty"),
        Value::Variant { name: "Empty".to_string(), fields: vec![] }
    );
}

#[test]
fn variant_patterns_match_a_subset_of_fields() {
    assert_eq!(
        value_of(
            "data T = Node { a, b }; let t = Node { a: 1, b: 2 }; match t { Node { b } => b; _ => 0 }"
        ),
        Value::Int(2)
    );
    assert_eq!(
        value_of(
            "data T = Node { a, b }; let t = Node { a: 1, b: 2 }; match t { Node { a: x, b: _ } => x; _ => 0 }"
        ),
        Value::Int(1)
    );
}

#[test]
fn operator_precedence_follows_the_table() {
    assert_eq!(value_of("1 + 2 * 3"), Value::Int(7));
    assert_eq!(value_of("1 < 2 == 2 < 3"), Value::Bool(true));
    assert_eq!(value_of("false || true && false"), Value::Bool(false));
    assert_eq!(value_of("0 - 2 * 3"), Value::Int(-6));
}

#[test]
fn lowercase_names_do_not_start_constructors() {
    let tokens = Lexer::new("let x = t { a: 1 };").lex_all();
    let err = parse_program(&tokens).expect_err("should fail");
    assert_eq!(err.message, "expected Semicolon, found LBrace");
    assert!(parses("data T = T { a }; let x = T { a: 1 };"));
}
