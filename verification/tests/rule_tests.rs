use if_lang::ast::core_ast;
use if_lang::ast::surface;
use if_lang::ast::BinaryOp;
use if_lang::eval::{eval_program, eval_program_with_builtins, Builtins};
use if_lang::lexer::{Lexer, Token, TokenKind};
use if_lang::lower::{lower_expr, lower_program};
use if_lang::parser::parse_program;
use if_lang::validate::validate_program;
use if_lang::value::{EvalError, Value};

fn run(source: &str) -> Result<Option<Value>, EvalError> {
    let tokens = Lexer::new(source).lex_all();
    let program = parse_program(&tokens).expect("parse");
    validate_program(&program).expect("validate");
    eval_program(&lower_program(program))
}

fn validates(source: &str) -> bool {
    let tokens = Lexer::new(source).lex_all();
    let program = parse_program(&tokens).expect("parse");
    validate_program(&program).is_ok()
}

#[test]
fn token_list_ends_with_eof_and_positions_increase() {
    let sources = [
        "",
        "   ",
        "let x = 1; // note",
        "fn f(a, b) = a |> g(b);",
        "\"caf\u{e9}\" b\"\\x01\" explain { text }",
        "\u{e9}\u{e9} x",
    ];
    for s in sources {
        let tokens = Lexer::new(s).lex_all();
        assert!(!tokens.is_empty());
        assert!(tokens.len() <= s.len() + 1);
        let last = &tokens[tokens.len() - 1];
        assert_eq!(last.kind, TokenKind::Eof);
        assert_eq!(last.position, s.len());
        for i in 0..tokens.len() - 1 {
            assert_ne!(tokens[i].kind, TokenKind::Eof);
            assert!(tokens[i].position < tokens[i + 1].position);
        }
    }
}

#[test]
fn lex_all_continues_from_the_current_position() {
    let mut lexer = Lexer::new("let x");
    let first = lexer.next_token();
    assert_eq!(first, Token { kind: TokenKind::KwLet, position: 0 });
    let rest = lexer.lex_all();
    assert_eq!(
        rest,
        vec![
            Token { kind: TokenKind::Ident("x".to_string()), position: 4 },
            Token { kind: TokenKind::Eof, position: 5 },
        ]
    );
}

#[test]
fn a_word_lexes_to_one_identifier_or_keyword() {
    assert_eq!(
        Lexer::new("foo_1").lex_all(),
        vec![
            Token { kind: TokenKind::Ident("foo_1".to_string()), position: 0 },
            Token { kind: TokenKind::Eof, position: 5 },
        ]
    );
    assert_eq!(Lexer::new("_").lex_all()[0].kind, TokenKind::Ident("_".to_string()));
    let keywords = [
        ("data", TokenKind::KwData),
        ("extern", TokenKind::KwExtern),
        ("fn", TokenKind::KwFn),
        ("let", TokenKind::KwLet),
        ("match", TokenKind::KwMatch),
        ("if", TokenKind::KwIf),
        ("else", TokenKind::KwElse),
        ("true", TokenKind::KwTrue),
        ("false", TokenKind::KwFalse),
        ("for", TokenKind::KwFor),
        ("explain", TokenKind::KwExplain),
    ];
    for (w, k) in keywords {
        let tokens = Lexer::new(w).lex_all();
        assert_eq!(tokens.len(), 2);
        assert_eq!(tokens[0], Token { kind: k, position: 0 });
        assert_eq!(tokens[1], Token { kind: TokenKind::Eof, position: w.len() });
    }
}

#[test]
fn a_numeral_lexes_to_one_number() {
    assert_eq!(
        Lexer::new("12345").lex_all(),
        vec![
            Token { kind: TokenKind::Int(12345), position: 0 },
            Token { kind: TokenKind::Eof, position: 5 },
        ]
    );
    assert_eq!(
        Lexer::new("9223372036854775807").lex_all()[0].kind,
        TokenKind::Int(i64::MAX)
    );
    assert_eq!(Lexer::new("9223372036854775808").lex_all()[0].kind, TokenKind::Int(0));
}

#[test]
fn validation_passes_exactly_when_the_rules_hold() {
    assert!(validates("fn f(a, b) = a + b; let x = match 1 { 1 => 2; _ => 3; }; f(1, 2)"));
    assert!(validates("data T = A | B { x }; extern fn g(b, a); 1"));
    assert!(!validates("fn f(a, b) = b + a; 1"));
    assert!(!validates("let x = match 1 { _ => 2; 1 => 3; }; 1"));
    assert!(!validates("match 1 { 1 => match 2 { _ => 1; _ => 2; }; }"));
    assert!(!validates("fn h(x) = [match x { _ => 1; 2 => 3; }]; 1"));
}

#[test]
fn an_expression_without_pipes_lowers_node_for_node() {
    let tokens = Lexer::new("1 + f(2, [3])").lex_all();
    let program = parse_program(&tokens).expect("parse");
    let surface_expr: &surface::Expr = program.expr.as_ref().expect("expr");
    let lowered = lower_expr(surface_expr);
    assert_eq!(
        lowered,
        core_ast::Expr::Binary {
            op: BinaryOp::Add,
            left: Box::new(core_ast::Expr::Int(1)),
            right: Box::new(core_ast::Expr::Call {
                callee: "f".to_string(),
                args: vec![
                    core_ast::Expr::Int(2),
                    core_ast::Expr::List(vec![core_ast::Expr::Int(3)]),
                ],
            }),
        }
    );
}

#[test]
fn a_pipe_lowers_to_a_call_with_the_input_first() {
    let tokens = Lexer::new("1 |> g(2)").lex_all();
    let program = parse_program(&tokens).expect("parse");
    let lowered = lower_expr(program.expr.as_ref().expect("expr"));
    assert_eq!(
        lowered,
        core_ast::Expr::Call {
            callee: "g".to_string(),
            args: vec![core_ast::Expr::Int(1), core_ast::Expr::Int(2)],
        }
    );
}

#[test]
fn constructors_check_their_fields() {
    let decl = "data T = N { a, b } | E;";
    assert_eq!(
        run(&format!("{decl} N {{ b: 2, a: 1 }}")),
        Ok(Some(Value::Variant {
            name: "N".to_string(),
            fields: vec![("a".to_string(), Value::Int(1)), ("b".to_string(), Value::Int(2))],
        }))
    );
    assert_eq!(
        run(&format!("{decl} N {{ a: 1 }}")),
        Err(EvalError::new("constructor 'N' missing fields [\"b\"]"))
    );
    assert_eq!(
        run(&format!("{decl} N {{ a: 1, b: 2, c: 3 }}")),
        Err(EvalError::new("constructor 'N' has unknown fields [\"c\"]"))
    );
    assert_eq!(
        run(&format!("{decl} N {{ c: 3 }}")),
        Err(EvalError::new("constructor 'N' missing fields [\"a\", \"b\"]"))
    );
    assert_eq!(
        run(&format!("{decl} M {{ a: 1 }}")),
        Err(EvalError::new("unknown constructor 'M'"))
    );
}

#[test]
fn a_cloned_program_equals_the_original() {
    let source = "data T = A { x } | B; fn f(a) = a |> g(1); match f(2) { 1 => [1, 2]; A { x } => x; _ => -3; }";
    let tokens = Lexer::new(source).lex_all();
    let program = parse_program(&tokens).expect("parse");
    let copy = program.clone();
    assert_eq!(copy, program);
    let core = lower_program(program);
    assert_eq!(core.clone(), core);
}

#[test]
fn an_escaped_string_lexes_back_to_itself() {
    let source = "\"q\\\"b\\\\ \\n\\t\\r\\0 \\xe9\\x01~\"";
    let tokens = Lexer::new(source).lex_all();
    let original = tokens[0].kind.clone();
    assert!(matches!(original, TokenKind::Str(_)));
    let program = parse_program(&tokens).expect("parse");
    let text = if_lang::format::format_program(&program);
    assert!(text.is_ascii());
    let again = Lexer::new(&text).lex_all();
    assert_eq!(again[0].kind, original);
}

#[test]
fn a_source_without_comments_formats_as_its_program() {
    let source = "fn f(a, b) = a + b;\nlet x = [1, 2];\ndata T = A | B { y };\nx |> f(2)\n";
    let tokens = Lexer::new(source).lex_all();
    let program = parse_program(&tokens).expect("parse");
    assert_eq!(
        if_lang::format::format_source(source, &program),
        if_lang::format::format_program(&program)
    );
}

#[test]
fn equality_and_map_keys_refuse_other_values() {
    assert_eq!(
        run("[1] == [1]"),
        Err(EvalError::new("== only supports Int/Bool/Variant"))
    );
    assert!(run("1 == true").is_err());
    assert_eq!(
        run("data T = N { a } | E; N { a: 1 } == N { a: 1 }"),
        Ok(Some(Value::Bool(true)))
    );
    assert_eq!(run("data T = N { a } | E; N { a: 1 } != E"), Ok(Some(Value::Bool(true))));
    assert_eq!(
        run("#{ [1]: 2 }"),
        Err(EvalError::new("map keys must be Int or Bool"))
    );
}

/// A host with one function, `sub`, that subtracts its second argument from
/// its first.
struct Subtracter;

impl Builtins for Subtracter {
    fn names(&self) -> Vec<String> {
        vec!["sub".to_string()]
    }

    fn call(&self, name: &String, args: &Vec<Value>) -> Result<Value, EvalError> {
        match (name.as_str(), args.as_slice()) {
            ("sub", [Value::Int(a), Value::Int(b)]) => Ok(Value::Int(a - b)),
            _ => Err(EvalError::new("bad call")),
        }
    }
}

#[test]
fn host_functions_get_the_arguments_in_order() {
    let source = "extern fn sub(a, b); fn twice(x) = x * 2; sub(twice(5), 3)";
    let tokens = Lexer::new(source).lex_all();
    let program = parse_program(&tokens).expect("parse");
    validate_program(&program).expect("validate");
    let core = lower_program(program);
    assert_eq!(eval_program_with_builtins(&core, &Subtracter), Ok(Some(Value::Int(7))));
    let undeclared = parse_program(&Lexer::new("sub(1, 2)").lex_all()).expect("parse");
    assert_eq!(
        eval_program_with_builtins(&lower_program(undeclared), &Subtracter),
        Err(EvalError::new("builtin 'sub' must be declared extern"))
    );
}

#[test]
fn parse_errors_point_at_a_token() {
    let sources = [
        "let = 1;",
        "fn f(a = a;",
        "1 +",
        "match x { 1 2 }",
        "data T = ;",
        "(1, 2)",
        "f(1)(2)",
        "1 2",
        "@",
    ];
    for s in sources {
        let tokens = Lexer::new(s).lex_all();
        let err = parse_program(&tokens).expect_err("should not parse");
        assert!(tokens.iter().any(|t| t.position == err.position), "{s}: {err:?}");
    }
}

#[test]
fn calls_nest_deeper_than_a_thousand() {
    assert_eq!(
        run("fn down(n) = if n == 0 { 0 } else { down(n - 1) }; down(1100)"),
        Ok(Some(Value::Int(0)))
    );
}

#[test]
fn format_source_keeps_every_line_comment() {
    let source = "// head\nfn f(a) =\n  // inside\n  if a { 1 } else { 2 };\nlet x = 1; // trailing\n// before expr\nmatch x {\n  // arm note\n  1 => 2;\n  _ => 3;\n}\n// last\n";
    let tokens = Lexer::new(source).lex_all();
    let program = parse_program(&tokens).expect("parse");
    let text = if_lang::format::format_source(source, &program);
    for c in ["// head", "// inside", "// trailing", "// before expr", "// arm note", "// last"] {
        assert!(text.contains(c), "{c} missing from {text}");
    }
}

#[test]
fn a_level_zero_comment_after_the_last_item_is_left_out() {
    let source = "let x = 1;\n// end\n";
    let tokens = Lexer::new(source).lex_all();
    let program = parse_program(&tokens).expect("parse");
    let text = if_lang::format::format_source(source, &program);
    assert_eq!(text, "let x = 1;\n");
}
