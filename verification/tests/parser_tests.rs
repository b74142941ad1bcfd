use if_lang::ast::surface::Item;
use if_lang::lexer::Lexer;
use if_lang::parser::parse_program;
use if_lang::validate::validate_program;

#[test]
fn parses_pipe_style() {
    let source = r#"
            extern fn add1(x);
            fn abs(x) = if x < 0 { 0 - x } else { x };
            fn grade(x) = match x { _ => x };
            let x = 10;
            let xs = [1, 2, 3];
            let ys = #{ 1: 2, 3: 4 };
            x |> abs |> add1
        "#;
    let tokens = Lexer::new(source).lex_all();
    let program = parse_program(&tokens).expect("parse");
    validate_program(&program).expect("validate");
    assert!(program.expr.is_some());
    assert_eq!(program.items.len(), 6);
}

#[test]
fn parses_data_construct_and_match() {
    let source = r#"
            data Tree = Empty | Node { value, left, right };
            fn head(t) =
              match t {
                Node { value, left, right } => value;
                _ => 0;
              };
            let t = Node { value: 3, left: Empty, right: Empty };
            head(t)
        "#;
    let tokens = Lexer::new(source).lex_all();
    let program = parse_program(&tokens).expect("parse");
    validate_program(&program).expect("validate");
    assert!(program.items.iter().any(|item| matches!(item, Item::Data(_))));
    assert!(program.items.iter().any(|item| matches!(item, Item::Fn(_))));
}
