use if_lang::lexer::{Lexer, TokenKind};

#[test]
fn lexes_keywords_and_symbols() {
    let source = r#"
            data Tree = Empty | Node { value, left, right };
            match x { >= 1 => y; _ => z; }
            [1,2] #{ 1: 2 } |> f(a)
            "hi" b"hi"
        "#;
    let tokens = Lexer::new(source).lex_all();
    assert!(tokens.iter().any(|t| matches!(t.kind, TokenKind::KwData)));
    assert!(tokens.iter().any(|t| matches!(t.kind, TokenKind::KwMatch)));
    assert!(tokens.iter().any(|t| matches!(t.kind, TokenKind::FatArrow)));
    assert!(tokens.iter().any(|t| matches!(t.kind, TokenKind::Bar)));
    assert!(tokens.iter().any(|t| matches!(t.kind, TokenKind::LBracket)));
    assert!(tokens.iter().any(|t| matches!(t.kind, TokenKind::Hash)));
    assert!(tokens.iter().any(|t| matches!(t.kind, TokenKind::Pipe)));
    assert!(tokens.iter().any(|t| matches!(t.kind, TokenKind::Str(_))));
    assert!(tokens.iter().any(|t| matches!(t.kind, TokenKind::Bytes(_))));
}

#[test]
fn lexes_line_comments() {
    let source = r#"
            let x = 1; // comment
            let y = 2; // another comment
        "#;
    let tokens = Lexer::new(source).lex_all();
    let let_count = tokens
        .iter()
        .filter(|t| matches!(t.kind, TokenKind::KwLet))
        .count();
    assert_eq!(let_count, 2);
    assert!(!tokens
        .iter()
        .any(|t| matches!(t.kind, TokenKind::Invalid('/'))));
}
