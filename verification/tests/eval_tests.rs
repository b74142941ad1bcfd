use if_lang::eval::{eval_program, eval_program_with_builtins, Builtins};
use if_lang::lexer::Lexer;
use if_lang::lower::lower_program;
use if_lang::parser::parse_program;
use if_lang::validate::validate_program;
use if_lang::value::{EvalError, Value};

/// A host that provides no functions.
struct NoFunctions;

impl Builtins for NoFunctions {
    fn names(&self) -> Vec<String> {
        Vec::new()
    }

    fn call(&self, name: &String, _args: &Vec<Value>) -> Result<Value, EvalError> {
        Err(EvalError::new(&format!("unknown builtin {name}")))
    }
}

#[test]
fn evals_match_with_variant_and_fields() {
    let source = r#"
            data Tree = Empty | Node { value };
            fn value_of(t) =
              match t {
                Node { value } => value;
                _ => 0;
              };
            let t = Node { value: 7 };
            value_of(t)
        "#;
    let tokens = Lexer::new(source).lex_all();
    let program = parse_program(&tokens).expect("parse");
    validate_program(&program).expect("validate");
    let core = lower_program(program);
    let value = eval_program(&core).expect("eval").expect("value");
    assert_eq!(value, Value::Int(7));
}

#[test]
fn evals_match_with_compare_pattern() {
    let source = r#"
            fn grade(x) =
              match x {
                >= 3 => 1;
                _ => 0;
              };
            grade(5)
        "#;
    let tokens = Lexer::new(source).lex_all();
    let program = parse_program(&tokens).expect("parse");
    validate_program(&program).expect("validate");
    let core = lower_program(program);
    let value = eval_program(&core).expect("eval").expect("value");
    assert_eq!(value, Value::Int(1));
}

#[test]
fn eval_errors_on_missing_constructor_fields() {
    let source = r#"
            data Tree = Empty | Node { value, left };
            Node { value: 1 }
        "#;
    let tokens = Lexer::new(source).lex_all();
    let program = parse_program(&tokens).expect("parse");
    validate_program(&program).expect("validate");
    let core = lower_program(program);
    let err = eval_program(&core).expect_err("should fail");
    assert!(err.message.contains("missing fields"));
}

#[test]
fn eval_errors_on_unregistered_extern() {
    let source = r#"
            extern fn foo(x);
            foo(1)
        "#;
    let tokens = Lexer::new(source).lex_all();
    let program = parse_program(&tokens).expect("parse");
    validate_program(&program).expect("validate");
    let core = lower_program(program);
    let err = eval_program_with_builtins(&core, &NoFunctions).expect_err("should fail");
    assert!(err.message.contains("extern function"));
}
