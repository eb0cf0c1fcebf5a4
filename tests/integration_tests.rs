use repodump::{
    assemble_output, generate_directory_tree, generate_file_contents, select_files,
    split_segments, with_metadata_excluded, FileFilter, PatternError,
};

fn strings(v: &[&str]) -> Vec<String> {
    v.iter().map(|s| s.to_string()).collect()
}

#[test]
fn test_file_filter_integration() -> Result<(), PatternError> {
    // Test the complete filtering workflow
    let filter = FileFilter::new(
        vec!["*.rs".to_string(), "*.toml".to_string()], // filter: only .rs and .toml files
        vec!["target/*".to_string()],                   // exclude: target directory
        vec!["target/important.rs".to_string()], // override the exclusion for this file
    )?;

    // Should pass filter
    assert!(filter.should_include("src/main.rs"));
    assert!(filter.should_include("Cargo.toml"));

    // Should fail filter step
    assert!(!filter.should_include("README.md"));

    // Should be excluded
    assert!(!filter.should_include("target/debug/app"));

    // Should be kept due to override
    assert!(filter.should_include("target/important.rs"));

    Ok(())
}

#[test]
fn test_directory_tree_structure() {
    let files = strings(&["README.md", "src/main.rs", "src/utils/helpers.rs", "docs/guide.md"]);

    let tree = generate_directory_tree(Some("test_repo".to_string()), &files);

    // Verify tree contains expected elements
    assert!(tree.contains("Directory Structure:"));
    assert!(tree.contains("test_repo/"));
    assert!(tree.contains("README.md"));
    assert!(tree.contains("src/"));
    assert!(tree.contains("main.rs"));
    assert!(tree.contains("utils/"));
    assert!(tree.contains("helpers.rs"));
    assert!(tree.contains("docs/"));
    assert!(tree.contains("guide.md"));
}

#[test]
fn tree_renders_exact_text() {
    let files = strings(&["README.md", "src/main.rs", "src/utils/helpers.rs", "docs/guide.md"]);
    let tree = generate_directory_tree(Some("test_repo".to_string()), &files);
    let expected = [
        "Directory Structure:",
        "test_repo/",
        "├── README.md",
        "├── docs/",
        "│   └── guide.md",
        "└── src/",
        "    ├── main.rs",
        "    └── utils/",
        "        └── helpers.rs",
        "",
    ]
    .join("\n");
    assert_eq!(tree, expected);
}

#[test]
fn tree_ignores_input_order_and_repeats() {
    let a = strings(&["src/main.rs", "docs/guide.md", "README.md", "src/utils/helpers.rs"]);
    let b = strings(&["src/utils/helpers.rs", "README.md", "docs/guide.md", "src/main.rs", "README.md"]);
    let ta = generate_directory_tree(Some("r".to_string()), &a);
    let tb = generate_directory_tree(Some("r".to_string()), &b);
    assert_eq!(ta, tb);
}

#[test]
fn shared_directory_appears_once() {
    let files = strings(&["a/x.rs", "a/y.rs", "a/b/z.rs"]);
    let tree = generate_directory_tree(Some("r".to_string()), &files);
    assert_eq!(tree.lines().filter(|l| l.ends_with(" a/")).count(), 1);
    assert_eq!(
        tree,
        "Directory Structure:\nr/\n└── a/\n    ├── b/\n    │   └── z.rs\n    ├── x.rs\n    └── y.rs\n"
    );
}

#[test]
fn empty_file_list_renders_header_and_root() {
    let tree = generate_directory_tree(Some("proj".to_string()), &vec![]);
    assert_eq!(tree, "Directory Structure:\nproj/\n");
    let unnamed = generate_directory_tree(None, &vec![]);
    assert_eq!(unnamed, "Directory Structure:\nroot/\n");
}

#[test]
fn siblings_sort_by_name_not_by_full_path() {
    let files = strings(&["a-b/x", "a/y"]);
    let tree = generate_directory_tree(Some("r".to_string()), &files);
    assert_eq!(
        tree,
        "Directory Structure:\nr/\n├── a/\n│   └── y\n└── a-b/\n    └── x\n"
    );
}

#[test]
fn empty_segments_are_skipped() {
    let plain = generate_directory_tree(Some("r".to_string()), &strings(&["a/b"]));
    let doubled = generate_directory_tree(Some("r".to_string()), &strings(&["a//b", "/a/b/"]));
    assert_eq!(plain, doubled);
    assert_eq!(split_segments("/a//bc/"), strings(&["a", "bc"]));
    assert_eq!(split_segments(""), Vec::<String>::new());
}

#[test]
fn select_files_sorts_and_deduplicates() {
    let filter = FileFilter::new(vec![], vec![], vec![]).unwrap();
    let picked = select_files(strings(&["src.rs", ".gitignore", "b/a", "a.b", "src.rs"]), &filter);
    assert_eq!(picked, strings(&[".gitignore", "a.b", "b/a", "src.rs"]));
}

#[test]
fn metadata_directory_is_excluded() {
    let excludes = with_metadata_excluded(vec![]);
    assert_eq!(excludes, strings(&[".git", ".git/**"]));
    let filter = FileFilter::new(vec![], excludes, vec![]).unwrap();
    let picked = select_files(strings(&[".git/config", ".git/HEAD", ".gitignore", "src.rs"]), &filter);
    assert_eq!(picked, strings(&[".gitignore", "src.rs"]));
}

#[test]
fn metadata_exclusion_follows_user_excludes_and_yields_to_overrides() {
    let excludes = with_metadata_excluded(strings(&["*.log"]));
    assert_eq!(excludes, strings(&["*.log", ".git", ".git/**"]));
    let filter = FileFilter::new(vec![], excludes, strings(&[".git/HEAD"])).unwrap();
    let picked = select_files(strings(&[".git/config", ".git/HEAD", "out.log", "src.rs"]), &filter);
    assert_eq!(picked, strings(&[".git/HEAD", "src.rs"]));
}

#[test]
fn file_contents_blocks() {
    let files = vec![
        ("a.txt".to_string(), Some("one\n".to_string())),
        ("b.txt".to_string(), Some("two".to_string())),
        ("c.bin".to_string(), None),
        ("d.txt".to_string(), Some(String::new())),
    ];
    let bar = "================================================\n";
    let expected = format!(
        "{bar}FILE: a.txt\n{bar}one\n\n{bar}FILE: b.txt\n{bar}two\n\n{bar}FILE: c.bin\n{bar}[Binary file or read error]\n\n{bar}FILE: d.txt\n{bar}\n"
    );
    assert_eq!(generate_file_contents(&files), expected);
    assert_eq!(generate_file_contents(&vec![]), "");
}

#[test]
fn output_joins_sections() {
    let all = assemble_output(
        Some("T".to_string()),
        Some("C".to_string()),
        Some("go".to_string()),
    );
    assert_eq!(all, "T\nC\nPrompt: go\n");
    assert_eq!(assemble_output(None, Some("C".to_string()), None), "C");
    assert_eq!(assemble_output(Some("T".to_string()), None, None), "T\n");
    assert_eq!(assemble_output(None, None, None), "");
}
