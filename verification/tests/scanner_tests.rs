use unsafe_parser::scanner::{classify_content, classify_flags, instrumented_lines, split_lines};
use unsafe_parser::ScanError;

fn sample_file() -> String {
    [
        "fn main() {",
        "    let mut x = 0;",
        "    unsafe {",
        "        x += 1;",
        "    }",
        "    x += 2;",
        "    let y = 3;",
        "",
        "    show(x);",
        "    helper(y);",
        "}",
        "",
        "// end",
        "fn helper(v: u64) {}",
    ]
    .join("\n")
}

#[test]
fn test_three_line_block_in_fourteen_lines() {
    let content = sample_file();
    assert_eq!(classify_content(&content, true), Ok((3, 14)));
    assert_eq!(classify_content(&content, false), Ok((3, 14)));
}

#[test]
fn test_no_pattern_marks_nothing() {
    let content = "fn main() {\n    let x = 1;\n}";
    assert_eq!(classify_content(content, true), Ok((0, 3)));
}

#[test]
fn test_pattern_needs_leading_whitespace() {
    // the block-open pattern asks for whitespace before the keyword
    let content = "unsafe { touch(); }";
    assert_eq!(classify_content(content, true), Ok((0, 1)));
}

#[test]
fn test_single_line_block() {
    let content = "fn f() {\n    unsafe { go(); }\n    after();\n}";
    assert_eq!(classify_content(content, true), Ok((1, 4)));
}

#[test]
fn test_blank_line_policy() {
    let content = "fn f() {\n    unsafe {\n\n        x;\n    }\n}";
    assert_eq!(classify_content(content, true), Ok((4, 6)));
    assert_eq!(classify_content(content, false), Ok((3, 6)));
}

#[test]
fn test_empty_text() {
    assert_eq!(classify_content("", true), Ok((0, 0)));
}

#[test]
fn test_unbalanced_block_runs_to_end() {
    // a block that never closes marks everything below it, without error
    let content = "fn f() {\n    unsafe {\n    a();\n    b();";
    assert_eq!(classify_content(content, true), Ok((3, 4)));
}

#[test]
fn test_flags_mark_the_block_lines() {
    let content = sample_file();
    let flags = classify_flags(&content, true).unwrap();
    let expected = vec![
        false, false, true, true, true, false, false, false, false, false, false, false, false,
        false,
    ];
    assert_eq!(flags, expected);
}

#[test]
fn test_split_lines_endings() {
    let lines = split_lines("a\nb\r\nc\r");
    assert_eq!(lines, vec!["a".to_string(), "b".to_string(), "c\r".to_string()]);
    assert_eq!(split_lines("a\n"), vec!["a".to_string()]);
    assert_eq!(split_lines(""), Vec::<String>::new());
}

#[test]
fn test_instrumented_lines_inserts_call() {
    let content = "fn f() {\n    unsafe {\n        x += 1;\n    }\n}";
    let lines = split_lines(content);
    let flags = classify_flags(content, true).unwrap();
    let helper = "fn touch() {}".to_string();
    let call = "touch();".to_string();
    let rewritten = instrumented_lines(&lines, &flags, &helper, &call).unwrap();
    let expected = vec![
        "fn touch() {}".to_string(),
        "fn f() {".to_string(),
        "    unsafe {".to_string(),
        "        x += 1;".to_string(),
        "touch();".to_string(),
        "    }".to_string(),
        "}".to_string(),
    ];
    assert_eq!(rewritten, expected);
}

#[test]
fn test_instrumented_lines_untouched_without_marks() {
    let content = "fn f() {\n    y();\n}";
    let lines = split_lines(content);
    let flags = classify_flags(content, true).unwrap();
    let helper = "fn touch() {}".to_string();
    let call = "touch();".to_string();
    assert!(instrumented_lines(&lines, &flags, &helper, &call).is_none());
}

#[test]
fn test_error_message_text() {
    assert_eq!(ScanError::InvalidInput.message(), "File must be a Rust file");
    assert_eq!(ScanError::NotFound.message(), "File does not exist");
    assert_eq!(ScanError::ReadError.message(), "Could not read file");
    assert_eq!(ScanError::WriteError.message(), "Could not write to file");
}
