use if_lang::format::{format_program, format_source};
use if_lang::lexer::Lexer;
use if_lang::parser::parse_program;
use if_lang::validate::validate_program;

#[test]
fn formats_pipe_and_match() {
    let source = r#"
            data Tree = Empty | Node { value, left, right };
            fn topk(t, k) = t |> to_desc_list |> take_k(k);
            let xs = match t { Empty => []; _ => [1, 2] };
            Empty |> insert(1) |> insert(2)
        "#;
    let tokens = Lexer::new(source).lex_all();
    let program = parse_program(&tokens).expect("parse");
    validate_program(&program).expect("validate");
    let formatted = format_program(&program);
    assert!(formatted.contains("fn topk(t, k) ="));
    assert!(formatted.contains("|> to_desc_list"));
    assert!(formatted.contains("match t {"));
}

#[test]
fn formats_explain_block() {
    let source = r#"
            extern fn add(x, y) explain {
              Adds.
              More.
            };
        "#;
    let tokens = Lexer::new(source).lex_all();
    let program = parse_program(&tokens).expect("parse");
    validate_program(&program).expect("validate");
    let formatted = format_program(&program);
    assert!(formatted.contains("extern fn add(x, y) explain {"));
    assert!(formatted.contains("Adds."));
}

#[test]
fn preserves_line_comments() {
    let source = r#"
            // top level
            let x = 1; // trailing
            fn f(a) = if a { 1 } else { 2 };
        "#;
    let tokens = Lexer::new(source).lex_all();
    let program = parse_program(&tokens).expect("parse");
    validate_program(&program).expect("validate");
    let formatted = format_source(source, &program);
    assert!(formatted.contains("// top level"));
    assert!(formatted.contains("// trailing"));
}

#[test]
fn formats_for_expr() {
    let source = r#"
            fn inc(x) = x + 1;
            for x in [1, 2] { inc(x) }
        "#;
    let tokens = Lexer::new(source).lex_all();
    let program = parse_program(&tokens).expect("parse");
    validate_program(&program).expect("validate");
    let formatted = format_program(&program);
    assert!(formatted.contains("for x in [1, 2] {"));
    assert!(formatted.contains("inc(x)"));
}

#[test]
fn formats_for_with_guard() {
    let source = r#"
            for x in [1, 2, 3] if x > 1 { x }
        "#;
    let tokens = Lexer::new(source).lex_all();
    let program = parse_program(&tokens).expect("parse");
    validate_program(&program).expect("validate");
    let formatted = format_program(&program);
    assert!(formatted.contains("for x in [1, 2, 3] if x > 1 {"));
}

#[test]
fn formats_range_list() {
    let source = r#"
            [1..10]
        "#;
    let tokens = Lexer::new(source).lex_all();
    let program = parse_program(&tokens).expect("parse");
    validate_program(&program).expect("validate");
    let formatted = format_program(&program);
    assert!(formatted.contains("[1..10]"));
}

#[test]
fn avoids_trailing_commas_in_multiline() {
    let source = r#"
            data Foo = Foo { a, b };
            extern fn build(a, b, c, d, e) explain { ok. };
            let xs = [1, 2, 3, 4, 5];
            let ys = build(1, 2, 3, 4, 5);
            let f = Foo { a: [1, 2, 3, 4, 5], b: build(1, 2, 3, 4, 5) };
        "#;
    let tokens = Lexer::new(source).lex_all();
    let program = parse_program(&tokens).expect("parse");
    validate_program(&program).expect("validate");
    let formatted = format_program(&program);
    assert!(!formatted.contains(",\n]"));
    assert!(!formatted.contains(",\n)"));
    assert!(!formatted.contains(",\n}"));
}
