use extension_count::labels::{label_for_extension, LabelMap};
use extension_count::report::{build_table, ExtensionReporter, OutputTable, RootScan};
use extension_count::text::{extension_string, text_less};
use extension_count::walk::{EntryKind, Walker};

fn strings(items: &[&str]) -> Vec<String> {
    items.iter().map(|s| s.to_string()).collect()
}

fn ts_labels() -> LabelMap {
    let mut labels = LabelMap::new();
    labels.insert("ts".to_string(), "TypeScript".to_string());
    labels
}

fn table_of(files: &[&str], labels: &LabelMap) -> OutputTable {
    build_table("root".to_string(), &strings(files), labels)
}

#[test]
fn groups_by_extension_and_counts() {
    let table = table_of(&["dir/a.ts", "dir/b.ts", "dir/c.rs"], &ts_labels());
    let mut ts = None;
    let mut rs = None;
    for row in &table.rows {
        if row.extension == ".ts" {
            ts = Some((row.count, row.label.clone()));
        }
        if row.extension == ".rs" {
            rs = Some((row.count, row.label.clone()));
        }
    }
    assert_eq!(ts, Some((2, Some("TypeScript".to_string()))));
    assert_eq!(rs, Some((1, None)));
    assert_eq!(table.total_files, 3);
}

#[test]
fn handles_single_file_input() {
    let mut walker = Walker::new("tmp/single.rs".to_string());
    let path = walker.next_path().unwrap();
    walker.record(path, EntryKind::File);
    assert!(walker.next_path().is_none());
    let files = walker.into_files();
    let reporter = ExtensionReporter::new(
        vec![RootScan { title: "tmp/single.rs".to_string(), files }],
        &LabelMap::new(),
    );
    assert_eq!(reporter.results.len(), 1);
    let table = &reporter.results[0];
    assert_eq!(table.total_files, 1);
    assert_eq!(table.rows.len(), 1);
    assert_eq!(table.rows[0].extension, ".rs");
    assert_eq!(table.rows[0].count, 1);
    assert_eq!(table.rows[0].files[0], "tmp/single.rs");
}

#[test]
fn handles_files_without_extension() {
    let table = table_of(&["dir/LICENSE", "dir/README"], &ts_labels());
    let mut no_ext_count = 0;
    for row in &table.rows {
        if row.extension.is_empty() {
            no_ext_count += row.count;
            assert_eq!(row.label, None);
        }
    }
    assert_eq!(no_ext_count, 2);
    assert_eq!(table.rows.len(), 1);
}

#[test]
fn recurses_nested_directories() {
    let mut walker = Walker::new("tmp".to_string());
    while let Some(path) = walker.next_path() {
        let kind = match path.as_str() {
            "tmp" => EntryKind::Dir(strings(&["tmp/nested"])),
            "tmp/nested" => EntryKind::Dir(strings(&["tmp/nested/inner"])),
            "tmp/nested/inner" => EntryKind::Dir(strings(&["tmp/nested/inner/deep.txt"])),
            _ => EntryKind::File,
        };
        walker.record(path, kind);
    }
    let files = walker.into_files();
    let table = build_table("tmp".to_string(), &files, &LabelMap::new());
    let mut found = false;
    for row in &table.rows {
        if row.files.iter().any(|file| file.contains("deep.txt")) {
            found = true;
        }
    }
    assert!(found);
}

#[test]
fn walker_keeps_listing_order_depth_first() {
    let mut walker = Walker::new("r".to_string());
    let mut seen = Vec::new();
    while let Some(path) = walker.next_path() {
        seen.push(path.clone());
        let kind = match path.as_str() {
            "r" => EntryKind::Dir(strings(&["r/a", "r/sub", "r/z.md", "r/link"])),
            "r/sub" => EntryKind::Dir(strings(&["r/sub/x.rs", "r/sub/y.rs"])),
            "r/link" => EntryKind::Other,
            _ => EntryKind::File,
        };
        walker.record(path, kind);
    }
    assert_eq!(seen, strings(&["r", "r/a", "r/sub", "r/sub/x.rs", "r/sub/y.rs", "r/z.md", "r/link"]));
    assert_eq!(walker.into_files(), strings(&["r/a", "r/sub/x.rs", "r/sub/y.rs", "r/z.md"]));
}

#[test]
fn label_for_extension_normalizes_dot_and_case() {
    let mut labels = LabelMap::new();
    labels.insert("rs".to_string(), "Rust".to_string());
    labels.insert("ts".to_string(), "TypeScript".to_string());

    assert_eq!(label_for_extension(&labels, ".RS").as_deref(), Some("Rust"));
    assert_eq!(label_for_extension(&labels, "tS").as_deref(), Some("TypeScript"));
    assert_eq!(label_for_extension(&labels, "").as_deref(), None);
}

#[test]
fn label_lookup_ignores_case_but_row_keeps_it() {
    let mut labels = LabelMap::new();
    labels.insert("rs".to_string(), "Rust".to_string());
    assert_eq!(label_for_extension(&labels, ".RS"), label_for_extension(&labels, "rs"));
    let table = table_of(&["A.RS", "b.rs"], &labels);
    assert_eq!(table.rows.len(), 2);
    assert_eq!(table.rows[0].extension, ".RS");
    assert_eq!(table.rows[0].label.as_deref(), Some("Rust"));
    assert_eq!(table.rows[1].extension, ".rs");
    assert_eq!(table.rows[1].label.as_deref(), Some("Rust"));
}

#[test]
fn later_label_replaces_earlier() {
    let mut labels = LabelMap::new();
    labels.insert("md".to_string(), "Markdown".to_string());
    labels.insert("md".to_string(), "Docs".to_string());
    assert_eq!(label_for_extension(&labels, ".md").as_deref(), Some("Docs"));
    assert_eq!(label_for_extension(&labels, ".txt"), None);
}

#[test]
fn extension_string_handles_no_extension() {
    assert_eq!(extension_string("README"), "");
    assert_eq!(extension_string("main.rs"), ".rs");
}

#[test]
fn extension_string_edge_cases() {
    assert_eq!(extension_string("dir/.bashrc"), "");
    assert_eq!(extension_string(".bashrc"), "");
    assert_eq!(extension_string("dir/file."), "");
    assert_eq!(extension_string("dir.d/Makefile"), "");
    assert_eq!(extension_string("a/b.tar.GZ"), ".GZ");
    assert_eq!(extension_string("dir/.x.y"), ".y");
}

#[test]
fn extension_string_uses_final_component() {
    assert_eq!(extension_string("x.rs/"), ".rs");
    assert_eq!(extension_string("x.rs//"), ".rs");
    assert_eq!(extension_string("a/b.c/."), ".c");
    assert_eq!(extension_string("a/b.c/./"), ".c");
    assert_eq!(extension_string("x/.."), "");
    assert_eq!(extension_string("/"), "");
    assert_eq!(extension_string("."), "");
    assert_eq!(extension_string("./"), "");
    assert_eq!(extension_string(""), "");
}

#[test]
fn rows_are_sorted_by_extension() {
    let table = table_of(&["d/b.zzz", "d/a.aaa"], &LabelMap::new());
    let extensions: Vec<&str> = table.rows.iter().map(|row| row.extension.as_str()).collect();
    assert_eq!(extensions, vec![".aaa", ".zzz"]);
}

#[test]
fn empty_extension_row_sorts_first_and_counts_sum() {
    let table = table_of(&["x.b", "README", "y.a", "z.b", "Makefile"], &LabelMap::new());
    let extensions: Vec<&str> = table.rows.iter().map(|row| row.extension.as_str()).collect();
    assert_eq!(extensions, vec!["", ".a", ".b"]);
    let sum: usize = table.rows.iter().map(|row| row.count).sum();
    assert_eq!(sum, table.total_files);
    assert_eq!(table.total_files, 5);
    assert_eq!(table.rows[0].files, strings(&["README", "Makefile"]));
    assert_eq!(table.rows[2].files, strings(&["x.b", "z.b"]));
}

#[test]
fn tables_follow_input_order() {
    let scans = vec![
        RootScan { title: "second".to_string(), files: strings(&["q.c"]) },
        RootScan { title: "first".to_string(), files: Vec::new() },
    ];
    let reporter = ExtensionReporter::new(scans, &LabelMap::new());
    assert_eq!(reporter.results.len(), 2);
    assert_eq!(reporter.results[0].title, "second");
    assert_eq!(reporter.results[0].total_files, 1);
    assert_eq!(reporter.results[1].title, "first");
    assert_eq!(reporter.results[1].total_files, 0);
    assert!(reporter.results[1].rows.is_empty());
    assert!(ExtensionReporter::new(Vec::new(), &LabelMap::new()).results.is_empty());
}

#[test]
fn text_order_is_by_code_point() {
    assert!(text_less("", ".a"));
    assert!(text_less(".B", ".a"));
    assert!(text_less(".a", ".ab"));
    assert!(!text_less(".ab", ".a"));
    assert!(!text_less(".a", ".a"));
}
