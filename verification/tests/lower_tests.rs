use if_lang::ast::core_ast::Expr;
use if_lang::lexer::Lexer;
use if_lang::lower::lower_program;
use if_lang::parser::parse_program;
use if_lang::validate::validate_program;

#[test]
fn lowers_pipe_with_call_target() {
    let source = r#"
            fn f(x, y) = x + y;
            let x = 3;
            x |> f(4)
        "#;
    let tokens = Lexer::new(source).lex_all();
    let program = parse_program(&tokens).expect("parse");
    validate_program(&program).expect("validate");
    let core = lower_program(program);
    let expr = core.expr.expect("expr");
    match expr {
        Expr::Call { callee, args } => {
            assert_eq!(callee, "f");
            assert_eq!(args.len(), 2);
        }
        _ => panic!("expected call"),
    }
}
