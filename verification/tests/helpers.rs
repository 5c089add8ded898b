use pyscope::analyzer::helpers::{
    file_metrics, find_block_end, find_line, location, metric, module_name, offset_line, visibility,
};

#[test]
fn test_file_metrics_empty() {
    let m = file_metrics("");
    assert_eq!(metric(&m, "lines"), Some(0));
    assert_eq!(metric(&m, "non_empty"), Some(0));
    assert_eq!(metric(&m, "comments"), Some(0));
}

#[test]
fn test_file_metrics_basic() {
    let src = "x = 1\n# a comment\n\ny = 2\n";
    let m = file_metrics(src);
    assert_eq!(metric(&m, "lines"), Some(4));
    assert_eq!(metric(&m, "non_empty"), Some(3));
    assert_eq!(metric(&m, "comments"), Some(1));
}

#[test]
fn test_offset_line_first_line() {
    assert_eq!(offset_line("hello\nworld", 0), 1);
    assert_eq!(offset_line("hello\nworld", 4), 1);
}

#[test]
fn test_offset_line_second_line() {
    assert_eq!(offset_line("hello\nworld", 6), 2);
}

#[test]
fn test_find_line_found() {
    assert_eq!(find_line("foo\nbar\nbaz", "bar"), 2);
}

#[test]
fn test_find_line_not_found() {
    assert_eq!(find_line("foo\nbar", "qux"), 0);
}

#[test]
fn test_visibility_public() {
    assert_eq!(visibility("foo"), None);
}

#[test]
fn test_visibility_private() {
    assert_eq!(visibility("_foo"), Some("private".to_string()));
}

#[test]
fn test_visibility_mangled() {
    assert_eq!(visibility("__foo"), Some("mangled".to_string()));
}

#[test]
fn test_visibility_dunder() {
    assert_eq!(visibility("__init__"), None);
}

#[test]
fn test_module_name_regular() {
    let file = "/project/pkg/module.py";
    let root = "/project";
    assert_eq!(module_name(file, root), "pkg.module");
}

#[test]
fn test_module_name_init() {
    let file = "/project/pkg/__init__.py";
    let root = "/project";
    assert_eq!(module_name(file, root), "pkg");
}

#[test]
fn test_find_block_end() {
    let src = "def foo():\n    x = 1\n    y = 2\ndef bar():\n    pass\n";
    assert_eq!(find_block_end(src, 1), 3);
}

#[test]
fn test_find_block_end_no_body() {
    let src = "x = 1\ny = 2\n";
    assert_eq!(find_block_end(src, 1), 1);
}

#[test]
fn test_find_block_end_blank_lines() {
    let src = "def foo():\n    x = 1\n\n    y = 2\ndef bar():\n";
    assert_eq!(find_block_end(src, 1), 4);
}

#[test]
fn test_location_basic() {
    let src = "line1\nline2\nline3\n";
    let loc = location("test.py", src, 6);
    assert_eq!(loc.file, "test.py");
    assert_eq!(loc.line, 2);
}

#[test]
fn offset_past_end_counts_all_lines() {
    assert_eq!(offset_line("a\nb\nc", 100), 3);
}

#[test]
fn module_name_nested_package() {
    assert_eq!(module_name("/project/a/b/__init__.py", "/project"), "a.b");
}

#[test]
fn block_end_of_line_zero_is_line_count() {
    assert_eq!(find_block_end("a\nb\nc\n", 0), 3);
}
