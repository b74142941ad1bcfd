use if_lang::format::{
    byte_to_line, collect_comments, distribute_comments, line_starts, scan_top_level_item_lines,
};
use if_lang::lexer::Lexer;

#[test]
fn line_starts_follow_each_line_break() {
    assert_eq!(line_starts("a\nbc\n"), vec![0, 2, 5]);
    assert_eq!(line_starts(""), vec![0]);
}

#[test]
fn byte_offsets_map_to_their_line() {
    let starts = vec![0, 5, 9];
    assert_eq!(byte_to_line(0, &starts), 0);
    assert_eq!(byte_to_line(4, &starts), 0);
    assert_eq!(byte_to_line(5, &starts), 1);
    assert_eq!(byte_to_line(100, &starts), 2);
    assert_eq!(byte_to_line(3, &Vec::new()), 0);
}

#[test]
fn comments_are_found_outside_string_literals() {
    let comments = collect_comments("x // c\n  // d\nlet s = \"a//b\\\"//\"; //   real  \n\"open // no");
    let found: Vec<(usize, String, usize)> =
        comments.iter().map(|c| (c.indent, c.text.clone(), c.line)).collect();
    assert_eq!(
        found,
        vec![
            (0, "c".to_string(), 0),
            (1, "d".to_string(), 1),
            (0, "real".to_string(), 2),
        ]
    );
}

#[test]
fn tabs_count_two_columns_of_indentation() {
    let comments = collect_comments("\t\t// deep\n \t// one");
    let found: Vec<(usize, String)> = comments.iter().map(|c| (c.indent, c.text.clone())).collect();
    assert_eq!(found, vec![(2, "deep".to_string()), (1, "one".to_string())]);
}

#[test]
fn top_level_items_are_found_by_their_first_line() {
    let source = "let x = 1;\nfn f(a) =\n  (a);\ndata D = D { a };\n";
    let tokens = Lexer::new(source).lex_all();
    let lines = scan_top_level_item_lines(&tokens, &line_starts(source));
    assert_eq!(lines, vec![0, 1, 3]);
}

#[test]
fn level_zero_comments_go_before_the_next_item() {
    let source = "// a\nlet x = 1;\n// b\n  // inner\nlet y = 2;\n// tail\n";
    let comments = collect_comments(source);
    let (inline, buckets) = distribute_comments(comments, &vec![1, 4], 2);
    let texts = |cs: &Vec<if_lang::format::Comment>| cs.iter().map(|c| c.text.clone()).collect::<Vec<_>>();
    assert_eq!(texts(&inline), vec!["inner".to_string()]);
    assert_eq!(buckets.len(), 3);
    assert_eq!(texts(&buckets[0]), vec!["a".to_string()]);
    assert_eq!(texts(&buckets[1]), vec!["b".to_string()]);
    assert_eq!(texts(&buckets[2]), vec!["tail".to_string()]);
}

#[test]
fn comments_stay_inline_when_items_are_not_all_found() {
    let comments = collect_comments("// a\nlet x = 1;\n");
    let (inline, buckets) = distribute_comments(comments, &vec![], 1);
    assert_eq!(inline.len(), 1);
    assert_eq!(buckets.len(), 2);
    assert!(buckets.iter().all(|b| b.is_empty()));
}
