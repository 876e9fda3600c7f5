use extension_count::present::{blue, bold, display_files, row_label, sort_rows, yellow, SortKey};
use extension_count::report::FileRow;

fn row(extension: &str, count: usize, files: &[&str]) -> FileRow {
    FileRow {
        extension: extension.to_string(),
        label: None,
        count,
        files: files.iter().map(|s| s.to_string()).collect(),
    }
}

fn order(rows: &[FileRow]) -> Vec<&str> {
    rows.iter().map(|row| row.extension.as_str()).collect()
}

#[test]
fn sort_rows_by_count_then_extension() {
    let mut rows = vec![
        row(".rs", 2, &["a", "b"]),
        row(".ts", 2, &["c", "d"]),
        row(".md", 3, &["e", "f", "g"]),
    ];
    sort_rows(&mut rows, SortKey::Count, false);
    assert_eq!(order(&rows), vec![".md", ".rs", ".ts"]);
}

#[test]
fn sort_rows_by_extension_with_reverse() {
    let mut rows = vec![row(".b", 1, &["b"]), row(".a", 5, &["a"])];
    sort_rows(&mut rows, SortKey::Ext, true);
    assert_eq!(order(&rows), vec![".b", ".a"]);
}

#[test]
fn sort_rows_by_files_len() {
    let mut rows = vec![row(".a", 1, &["a"]), row(".b", 5, &["b", "c"])];
    sort_rows(&mut rows, SortKey::Files, false);
    assert_eq!(rows[0].extension, ".b");
    assert_eq!(rows[1].extension, ".a");
}

#[test]
fn sort_rows_count_reversed_and_empty() {
    let mut rows = vec![row(".x", 1, &["1"]), row("", 4, &["2", "3", "4", "5"]), row(".c", 1, &["6"])];
    sort_rows(&mut rows, SortKey::Count, true);
    assert_eq!(order(&rows), vec![".x", ".c", ""]);
    let mut none: Vec<FileRow> = Vec::new();
    sort_rows(&mut none, SortKey::Ext, false);
    assert!(none.is_empty());
}

#[test]
fn display_files_respects_limit() {
    let r = row(".rs", 4, &["a.rs", "b.rs", "c.rs", "d.rs"]);
    let (width, lines) = display_files(&r, 2);
    assert_eq!(lines, vec!["a.rs", "b.rs", "2 more files"]);
    assert_eq!(width, "2 more files".len());
}

#[test]
fn display_files_unlimited_when_limit_zero() {
    let r = row(".rs", 2, &["a.rs", "b.rs"]);
    let (_, lines) = display_files(&r, 0);
    assert_eq!(lines, vec!["a.rs", "b.rs"]);
}

#[test]
fn display_files_counts_many_left_out() {
    let names: Vec<String> = (0..13).map(|i| format!("f{i}.txt")).collect();
    let refs: Vec<&str> = names.iter().map(|s| s.as_str()).collect();
    let r = row(".txt", 13, &refs);
    let (width, lines) = display_files(&r, 1);
    assert_eq!(lines, vec!["f0.txt", "12 more files"]);
    assert_eq!(width, 13);
    let (width, lines) = display_files(&r, 13);
    assert_eq!(lines.len(), 13);
    assert_eq!(width, 7);
    let (width, lines) = display_files(&row("", 0, &[]), 3);
    assert!(lines.is_empty());
    assert_eq!(width, 0);
}

#[test]
fn display_files_width_counts_bytes() {
    let r = row(".txt", 2, &["éé.txt", "abc.txt"]);
    let (width, _) = display_files(&r, 0);
    assert_eq!(width, 8);
}

#[test]
fn row_label_prefers_label() {
    let mut r = row(".rs", 1, &["main.rs"]);
    r.label = Some("Rust".to_string());
    assert_eq!(row_label(&r), "Rust");
    r.label = None;
    assert_eq!(row_label(&r), ".rs");
}

#[test]
fn color_helpers_add_escape_sequences() {
    assert_eq!(blue("text", false), "text");
    assert!(blue("text", true).contains("\x1b[34m"));
    assert_eq!(yellow("text", false), "text");
    assert!(yellow("text", true).contains("\x1b[33m"));
    assert_eq!(bold("text", false), "text");
    assert!(bold("text", true).contains("\x1b[1m"));
}

#[test]
fn color_helpers_wrap_exactly() {
    assert_eq!(blue("x", true), "\x1b[34mx\x1b[0m");
    assert_eq!(yellow("", true), "\x1b[33m\x1b[0m");
    assert_eq!(bold("7", true), "\x1b[1m7\x1b[0m");
}

#[test]
fn sort_rows_keeps_tied_rows_in_order() {
    let mut rows = vec![
        row(".b", 2, &["first"]),
        row(".a", 1, &["x"]),
        row(".b", 2, &["second"]),
        row(".b", 2, &["third"]),
    ];
    sort_rows(&mut rows, SortKey::Count, false);
    let firsts: Vec<&str> = rows.iter().map(|r| r.files[0].as_str()).collect();
    assert_eq!(firsts, vec!["first", "second", "third", "x"]);
    sort_rows(&mut rows, SortKey::Ext, true);
    let firsts: Vec<&str> = rows.iter().map(|r| r.files[0].as_str()).collect();
    assert_eq!(firsts, vec!["first", "second", "third", "x"]);
}

#[test]
fn sort_rows_twice_changes_nothing() {
    let mut rows = vec![row(".c", 1, &["1"]), row(".a", 3, &["2", "3", "4"]), row(".b", 3, &["5"])];
    sort_rows(&mut rows, SortKey::Files, false);
    let once: Vec<(String, Vec<String>)> = rows.iter().map(|r| (r.extension.clone(), r.files.clone())).collect();
    sort_rows(&mut rows, SortKey::Files, false);
    let twice: Vec<(String, Vec<String>)> = rows.iter().map(|r| (r.extension.clone(), r.files.clone())).collect();
    assert_eq!(once, twice);
    assert_eq!(once[0].0, ".a");
}
