use if_lang::ast::surface::{Expr, Program};
use if_lang::eval::{eval_program, eval_program_with_builtins, eval_program_with_host, Builtins};
use if_lang::format::{format_program, format_source};
use if_lang::lexer::{Lexer, Token, TokenKind};
use if_lang::lower::lower_program;
use if_lang::parser::parse_program;
use if_lang::show::show_value;
use if_lang::validate::validate_program;
use if_lang::value::{EvalError, Value, ValueKey};

fn parse(source: &str) -> Program {
    let tokens = Lexer::new(source).lex_all();
    parse_program(&tokens).expect("parse")
}

fn run(source: &str) -> Result<Option<Value>, EvalError> {
    let program = parse(source);
    validate_program(&program).expect("validate");
    eval_program(&lower_program(program))
}

fn value_of(source: &str) -> Value {
    run(source).expect("eval").expect("value")
}

fn error_of(source: &str) -> String {
    run(source).expect_err("should fail").message
}

/// A host with one function, `double`.
struct Doubler;

impl Builtins for Doubler {
    fn names(&self) -> Vec<String> {
        vec!["double".to_string()]
    }

    fn call(&self, name: &String, args: &Vec<Value>) -> Result<Value, EvalError> {
        match (name.as_str(), args.as_slice()) {
            ("double", [Value::Int(v)]) => Ok(Value::Int(v * 2)),
            _ => Err(EvalError::new("double expects one Int")),
        }
    }
}

#[test]
fn lexes_positions_of_tokens() {
    let tokens = Lexer::new("let x").lex_all();
    assert_eq!(
        tokens,
        vec![
            Token { kind: TokenKind::KwLet, position: 0 },
            Token { kind: TokenKind::Ident("x".to_string()), position: 4 },
            Token { kind: TokenKind::Eof, position: 5 },
        ]
    );
}

#[test]
fn parse_error_names_expected_and_found_tokens() {
    let tokens = Lexer::new("fn f(x = 1;").lex_all();
    let err = parse_program(&tokens).expect_err("should fail");
    assert_eq!(err.message, "expected RParen, found Eq");
    assert_eq!(err.position, 7);
}

#[test]
fn field_shorthand_is_the_same_as_naming_the_field() {
    let short = parse("data N = N { value }; let value = 1; N { value }");
    let long = parse("data N = N { value }; let value = 1; N { value: value }");
    assert_eq!(short, long);
}

#[test]
fn validation_accepts_parameters_used_in_order_with_repeats() {
    let program = parse("fn f(a, b) = a + b + a; fn g(a, b) = b; f(1, 2)");
    assert!(validate_program(&program).is_ok());
}

#[test]
fn validation_names_the_first_pair_out_of_order() {
    let program = parse("fn f(a, b, c) = a + c + b; f(1, 2, 3)");
    let err = validate_program(&program).expect_err("should fail");
    assert_eq!(err.message, "function 'f' uses parameter 'b' before earlier parameter 'c'");
    assert_eq!(err.position, 0);
}

#[test]
fn validation_rejects_a_second_wildcard() {
    let program = parse("fn f(x) = match x { _ => 1; _ => 2; }; f(0)");
    let err = validate_program(&program).expect_err("should fail");
    assert_eq!(err.message, "match may contain only one wildcard arm");
}

#[test]
fn validation_rejects_wildcard_before_other_arms() {
    let program = parse("fn f(x) = match x { _ => 1; 2 => 3; }; f(0)");
    let err = validate_program(&program).expect_err("should fail");
    assert_eq!(err.message, "match wildcard '_' arm must be last");
}

#[test]
fn eval_integer_division_truncates_toward_zero() {
    assert_eq!(value_of("7 / 2"), Value::Int(3));
    assert_eq!(value_of("0 - 7 / 2"), Value::Int(-3));
    assert_eq!(value_of("(0 - 7) % 2"), Value::Int(-1));
}

#[test]
fn eval_reports_division_and_mod_by_zero() {
    assert_eq!(error_of("1 / 0"), "division by zero");
    assert_eq!(error_of("1 % 0"), "mod by zero");
}

#[test]
fn eval_reports_integer_overflow() {
    assert_eq!(error_of("9223372036854775807 + 1"), "integer overflow");
}

#[test]
fn eval_reports_type_errors() {
    assert_eq!(error_of("1 + true"), "expected Int");
    assert_eq!(error_of("if 1 { 2 } else { 3 }"), "expected Bool");
    assert_eq!(error_of("for x in 3 { x }"), "for expects a List");
}

#[test]
fn eval_reports_unknown_names() {
    assert_eq!(error_of("y"), "unknown variable 'y'");
}

#[test]
fn eval_map_keeps_keys_in_order_and_the_last_value() {
    assert_eq!(
        value_of("#{ 2: 1, 1: 2, 2: 3 }"),
        Value::Dict(vec![(ValueKey::Int(1), Value::Int(2)), (ValueKey::Int(2), Value::Int(3))])
    );
}

#[test]
fn eval_variant_fields_are_kept_in_name_order() {
    assert_eq!(
        value_of("data P = P { b, a }; P { b: 1, a: 2 }"),
        Value::Variant {
            name: "P".to_string(),
            fields: vec![("a".to_string(), Value::Int(2)), ("b".to_string(), Value::Int(1))],
        }
    );
}

#[test]
fn eval_missing_fields_are_listed_quoted() {
    assert_eq!(
        error_of("data Tree = Empty | Node { value, left }; Node { value: 1 }"),
        "constructor 'Node' missing fields [\"left\"]"
    );
}

#[test]
fn eval_range_list_includes_both_ends() {
    assert_eq!(
        value_of("[1..3]"),
        Value::List(vec![Value::Int(1), Value::Int(2), Value::Int(3)])
    );
}

#[test]
fn eval_for_with_guard_skips_elements() {
    assert_eq!(
        value_of("for x in [1, 2, 3] if x > 1 { x * 10 }"),
        Value::List(vec![Value::Int(20), Value::Int(30)])
    );
}

#[test]
fn eval_pipe_passes_the_input_first() {
    assert_eq!(value_of("fn sub(a, b) = a - b; 10 |> sub(3)"), Value::Int(7));
}

#[test]
fn eval_calls_a_registered_host_function() {
    let program = parse("extern fn double(x); double(21)");
    validate_program(&program).expect("validate");
    let core = lower_program(program);
    let value = eval_program_with_builtins(&core, &Doubler).expect("eval").expect("value");
    assert_eq!(value, Value::Int(42));
}

#[test]
fn eval_without_host_reports_unregistered_extern() {
    assert_eq!(error_of("extern fn foo(x); foo(1)"), "extern function 'foo' not registered");
}

#[test]
fn eval_program_without_expression_has_no_value() {
    assert_eq!(run("let x = 1;").expect("eval"), None);
}

#[test]
fn formats_a_short_function_on_one_line() {
    assert_eq!(format_program(&parse("fn add(x,y)=x+y;")), "fn add(x, y) = x + y;\n");
}

#[test]
fn formats_an_empty_program_as_one_line_break() {
    assert_eq!(format_program(&parse("")), "\n");
}

#[test]
fn formats_a_long_list_over_several_lines() {
    assert_eq!(
        format_program(&parse("let xs = [1, 2, 3, 4, 5];")),
        "let xs =\n  [\n    1,\n    2,\n    3,\n    4,\n    5\n  ];\n"
    );
}

#[test]
fn formats_parentheses_only_where_needed() {
    assert_eq!(format_program(&parse("(1 + 2) * 3")), "(1 + 2) * 3\n");
    assert_eq!(format_program(&parse("1 - (2 - 3)")), "1 - (2 - 3)\n");
    assert_eq!(format_program(&parse("(1 - 2) - 3")), "1 - 2 - 3\n");
}

#[test]
fn formats_string_escapes() {
    assert_eq!(format_program(&parse("\"a\\nb\\x41\"")), "\"a\\nbA\"\n");
    let program = Program { items: vec![], expr: Some(Expr::Str("\u{e9}\u{20ac}".to_string())) };
    assert_eq!(format_program(&program), "\"\\xE9\\xE2\\x82\\xAC\"\n");
}

#[test]
fn formats_byte_escapes() {
    assert_eq!(format_program(&parse("b\"\\x00\\x7f a\"")), "b\"\\0\\x7F a\"\n");
}

#[test]
fn formats_a_blank_line_between_kinds_of_items() {
    assert_eq!(
        format_program(&parse("data A = A; let x = 1; let y = 2; x")),
        "data A = A;\n\nlet x = 1;\nlet y = 2;\n\nx\n"
    );
}

#[test]
fn formats_source_comments_before_items_and_at_the_end() {
    let source = "// head\nlet x = 1;\n  // inner\nx\n";
    assert_eq!(format_source(source, &parse(source)), "// head\nlet x = 1;\n\nx\n  // inner\n");
}

#[test]
fn formats_match_statement_arms() {
    assert_eq!(
        format_program(&parse("fn f(x) = match x { 1 => 2; _ => 3; };")),
        "fn f(x) =\n  match x {\n    1 => 2;\n    _ => 3;\n  };\n"
    );
}

#[test]
fn shows_values_as_the_command_line_prints_them() {
    assert_eq!(show_value(&Value::Int(-5)), "Int(-5)");
    assert_eq!(
        show_value(&Value::List(vec![Value::Int(1), Value::Bool(true)])),
        "List([Int(1), Bool(true)])"
    );
    assert_eq!(
        show_value(&value_of("#{ 1: 2, true: [] }")),
        "Map({Int(1): Int(2), Bool(true): List([])})"
    );
    assert_eq!(
        show_value(&value_of("data T = Node { value }; Node { value: 7 }")),
        "Variant { name: \"Node\", fields: {\"value\": Int(7)} }"
    );
    assert_eq!(show_value(&Value::Str("a\"b".to_string())), "Str(\"a\\\"b\")");
    assert_eq!(show_value(&Value::Bytes(vec![104, 105])), "Bytes([104, 105])");
}

#[test]
fn eval_host_names_decide_which_externs_are_registered() {
    let program = parse("extern fn double(x); double(4)");
    let core = lower_program(program);
    let value = eval_program_with_host(&core, &vec!["double".to_string()], &Doubler)
        .expect("eval")
        .expect("value");
    assert_eq!(value, Value::Int(8));
    let err = eval_program_with_host(&core, &Vec::new(), &Doubler).expect_err("should fail");
    assert_eq!(err.message, "extern function 'double' not registered");
}

#[test]
fn eval_host_function_must_be_declared_extern() {
    let core = lower_program(parse("double(4)"));
    let err = eval_program_with_host(&core, &vec!["double".to_string()], &Doubler).expect_err("should fail");
    assert_eq!(err.message, "builtin 'double' must be declared extern");
}

#[test]
fn pattern_field_shorthand_binds_the_field_name() {
    let short = parse("fn f(t) = match t { Node { value } => value; _ => 0; };");
    let long = parse("fn f(t) = match t { Node { value: value } => value; _ => 0; };");
    assert_eq!(short, long);
}

#[test]
fn formats_if_statement_branches_one_level_deeper() {
    assert_eq!(
        format_program(&parse("fn f(a) = if a { 1 } else { 2 };")),
        "fn f(a) =\n  if a {\n    1\n  } else {\n    2\n  };\n"
    );
}

#[test]
fn formats_pipe_statement_one_target_per_line() {
    assert_eq!(
        format_program(&parse("fn g(t, k) = t |> a |> b(k);")),
        "fn g(t, k) =\n  t\n    |> a\n    |> b(k);\n"
    );
}

#[test]
fn parse_errors_show_token_payloads() {
    let message = |source: &str| {
        let tokens = Lexer::new(source).lex_all();
        parse_program(&tokens).expect_err("should fail").message
    };
    assert_eq!(message("fn f(x 1) = x;"), "expected RParen, found Int(1)");
    assert_eq!(message("fn f(x y) = x;"), "expected RParen, found Ident(\"y\")");
    assert_eq!(message("fn f(x @) = x;"), "expected RParen, found Invalid('@')");
}

/// A host that answers every call with the same value.
struct Constant(i64);

impl Builtins for Constant {
    fn names(&self) -> Vec<String> {
        vec!["k".to_string()]
    }

    fn call(&self, _name: &String, _args: &Vec<Value>) -> Result<Value, EvalError> {
        Ok(Value::Int(self.0))
    }
}

#[test]
fn programs_without_externs_ignore_the_host() {
    let core = lower_program(parse("fn sq(x) = x * x; sq(7)"));
    let a = eval_program_with_builtins(&core, &Constant(1)).expect("eval");
    let b = eval_program_with_builtins(&core, &Constant(2)).expect("eval");
    assert_eq!(a, b);
    assert_eq!(a, Some(Value::Int(49)));
    let with_extern = lower_program(parse("extern fn k(); k()"));
    assert_eq!(
        eval_program_with_builtins(&with_extern, &Constant(3)).expect("eval"),
        Some(Value::Int(3))
    );
}
