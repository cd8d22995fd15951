use setup_fs::{flatten, parse, parse_fs_tree, ParseError, PathEntry};
use std::path::PathBuf;

fn pairs(entries: &[PathEntry]) -> Vec<(String, String)> {
    entries
        .iter()
        .map(|e| (e.path_string(), e.content.clone()))
        .collect()
}

#[test]
fn test_parse_fs_tree() {
    // given
    let tree = r#"
        |_initial-content
        | |_jcr-root
        |   |_content
        |     |_test-file
        |       "initial-content"
        |
        |_server-zip
          |_jcr-root
            |_content
              |_test-file
                "zip-content"
    "#;

    // when
    let files = parse_fs_tree(tree).unwrap();
    let files: Vec<(PathBuf, String)> = files
        .iter()
        .map(|e| (PathBuf::from(e.path_string()), e.content.clone()))
        .collect();

    // then
    assert_eq!(files.len(), 2);
    assert_eq!(
        files[0],
        (
            PathBuf::from("initial-content/jcr-root/content/test-file"),
            "initial-content".into()
        )
    );

    assert_eq!(
        files[1],
        (
            PathBuf::from("server-zip/jcr-root/content/test-file"),
            "zip-content".into()
        )
    );
}

#[test]
fn nested_leaves_with_content_and_default() {
    let tree = "|_dir-a\n| |_dir-b\n|   |_file-one\n|     \"hello\"\n|_dir-c\n  |_file-two\n";
    let files = parse_fs_tree(tree).unwrap();
    assert_eq!(
        pairs(&files),
        vec![
            ("dir-a/dir-b/file-one".to_string(), "hello".to_string()),
            ("dir-c/file-two".to_string(), String::new()),
        ]
    );
    assert_eq!(files[0].path, vec!["dir-a", "dir-b", "file-one"]);
}

#[test]
fn content_at_top_level_is_orphan() {
    assert_eq!(
        parse("\"hello\"\n").err(),
        Some(ParseError::OrphanContent { line: 1 })
    );
    assert_eq!(
        parse("|_a\n\"hello\"\n").err(),
        Some(ParseError::OrphanContent { line: 2 })
    );
}

#[test]
fn depth_jump_is_rejected() {
    assert_eq!(
        parse("|_a\n    |_b\n").err(),
        Some(ParseError::InvalidDepthJump { line: 2 })
    );
    assert_eq!(
        parse("\n  |_a\n      |_b\n").err(),
        Some(ParseError::InvalidDepthJump { line: 3 })
    );
}

#[test]
fn blank_diagram_is_empty() {
    let forest = parse("\n   \n\t\n").unwrap();
    assert!(forest.is_empty());
    assert!(flatten(forest).is_empty());
    assert!(parse_fs_tree("").unwrap().is_empty());
}

#[test]
fn leaf_count_matches_entries() {
    let tree = "|_a\n| |_b\n| |_c\n|   |_d\n|_e\n";
    let forest = parse(tree).unwrap();
    assert_eq!(forest.len(), 2);
    assert_eq!(forest[0].children.len(), 2);
    assert_eq!(forest[0].children[1].children[0].name, "d");
    assert!(forest[1].children.is_empty());
    let files = flatten(forest);
    assert_eq!(files.len(), 3);
    assert_eq!(
        pairs(&files),
        vec![
            ("a/b".to_string(), String::new()),
            ("a/c/d".to_string(), String::new()),
            ("e".to_string(), String::new()),
        ]
    );
}

#[test]
fn content_goes_to_the_leaf_above_only() {
    let tree = "|_a\n  |_x\n    \"one\"\n  |_y\n|_b\n  \"two\"\n";
    let forest = parse(tree).unwrap();
    assert_eq!(forest[0].content, None);
    assert_eq!(forest[0].children[0].content, Some("one".to_string()));
    assert_eq!(forest[0].children[1].content, None);
    assert_eq!(forest[1].content, Some("two".to_string()));
    assert_eq!(
        pairs(&flatten(forest)),
        vec![
            ("a/x".to_string(), "one".to_string()),
            ("a/y".to_string(), String::new()),
            ("b".to_string(), "two".to_string()),
        ]
    );
}

#[test]
fn empty_quoted_text_is_empty_content() {
    let files = parse_fs_tree("|_f\n  \"\"\n").unwrap();
    assert_eq!(pairs(&files), vec![("f".to_string(), String::new())]);
}

#[test]
fn malformed_lines_are_rejected() {
    assert_eq!(
        parse("|_a\nfoo\n").err(),
        Some(ParseError::MalformedLine { line: 2 })
    );
    assert_eq!(
        parse("|_a\n  \"unclosed\n").err(),
        Some(ParseError::MalformedLine { line: 2 })
    );
    assert_eq!(
        parse("|_na\"me\n").err(),
        Some(ParseError::MalformedLine { line: 1 })
    );
    assert_eq!(parse("|_\n").err(), Some(ParseError::MalformedLine { line: 1 }));
    // a line left of the margin of the first entry
    assert_eq!(
        parse("    |_a\n  |_b\n").err(),
        Some(ParseError::MalformedLine { line: 2 })
    );
}

#[test]
fn content_on_a_node_with_children_is_orphan() {
    assert_eq!(
        parse("|_a\n  \"x\"\n  |_b\n").err(),
        Some(ParseError::OrphanContent { line: 2 })
    );
    assert_eq!(
        parse("|_a\n  |_b\n  \"x\"\n").err(),
        Some(ParseError::OrphanContent { line: 3 })
    );
}

#[test]
fn later_quoted_line_replaces_content() {
    let files = parse_fs_tree("|_a\n  \"x\"\n  \"y\"\n").unwrap();
    assert_eq!(pairs(&files), vec![("a".to_string(), "y".to_string())]);
    let files = parse_fs_tree("|_a\n|_b\n  \"x\"\n\n  \"y\"\n").unwrap();
    assert_eq!(
        pairs(&files),
        vec![
            ("a".to_string(), String::new()),
            ("b".to_string(), "y".to_string()),
        ]
    );
}

#[test]
fn names_take_bars_but_not_the_marker() {
    let files = parse_fs_tree("|_a|b\n  |_c|\n").unwrap();
    assert_eq!(pairs(&files), vec![("a|b/c|".to_string(), String::new())]);
    assert_eq!(
        parse("|_a|_b\n").err(),
        Some(ParseError::MalformedLine { line: 1 })
    );
}

#[test]
fn error_reports_its_line() {
    assert_eq!(ParseError::MalformedLine { line: 7 }.line(), 7);
    assert_eq!(ParseError::OrphanContent { line: 3 }.line(), 3);
    assert_eq!(ParseError::InvalidDepthJump { line: 9 }.line(), 9);
}

#[test]
fn trailing_whitespace_and_carriage_returns_are_ignored() {
    let files = parse_fs_tree("|_dir \r\n  |_file\t\r\n    \"text with spaces\"  \r\n").unwrap();
    assert_eq!(
        pairs(&files),
        vec![("dir/file".to_string(), "text with spaces".to_string())]
    );
}

#[test]
fn shallower_sibling_after_deep_leaf() {
    let files = parse_fs_tree("|_a\n  |_b\n    |_c\n|_d\n").unwrap();
    assert_eq!(
        pairs(&files),
        vec![
            ("a/b/c".to_string(), String::new()),
            ("d".to_string(), String::new()),
        ]
    );
}
