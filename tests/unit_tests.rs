use repodump::{estimate_tokens, resolve_target_directory, FileFilter, PatternError, PatternSet};
use std::path::Path;

fn strings(v: &[&str]) -> Vec<String> {
    v.iter().map(|s| s.to_string()).collect()
}

#[test]
fn test_file_filter_new() {
    let filter = FileFilter::new(
        vec!["*.rs".to_string()],
        vec!["target/*".to_string()],
        vec!["src/main.rs".to_string()],
    )
    .unwrap();

    assert_eq!(filter.filter_globs.is_match("src/main.rs"), true);
    assert_eq!(filter.exclude_globs.is_match("target/debug/app"), true);
    assert_eq!(filter.include_globs.is_match("src/main.rs"), true);
}

#[test]
fn test_file_filter_should_include_order() -> Result<(), PatternError> {
    let filter = FileFilter::new(
        vec!["*.rs".to_string()],
        vec!["src/*".to_string()],
        vec!["src/main.rs".to_string()],
    )?;

    // Filter pattern is applied first
    assert_eq!(filter.should_include("src/lib.js"), false);

    // Override pattern wins over the exclude pattern
    assert_eq!(filter.should_include("src/main.rs"), true);

    Ok(())
}

#[test]
fn test_resolve_target_directory_explicit_repo() {
    let temp_dir = tempfile::tempdir().unwrap();
    let path = temp_dir.path().to_string_lossy().to_string();
    let exists = Path::new(&path).exists();
    let resolved_path = resolve_target_directory(Some(path.clone()), exists, None).unwrap();
    assert_eq!(resolved_path, path);
}

#[test]
fn test_resolve_target_directory_nonexistent_repo() {
    let nonexistent_path = "/this/path/does/not/exist".to_string();
    let exists = Path::new(&nonexistent_path).exists();
    let result = resolve_target_directory(Some(nonexistent_path), exists, None);
    assert!(result.is_err());
    assert!(result.unwrap_err().message().contains("Directory does not exist"));
}

#[test]
fn test_resolve_target_directory_no_repo_arg() {
    // The working directory lies in no repository: the caller found no root.
    let result = resolve_target_directory(None, false, None);
    match result {
        Ok(_) => {}
        Err(e) => {
            assert!(e.message().contains("The current directory is not a git repository"));
        }
    }
}

#[test]
fn test_estimate_tokens() {
    assert_eq!(estimate_tokens("This is a test!!"), 4); // 16 characters / 4 = 4
    assert_eq!(estimate_tokens("Hello, world!"), 3); // 13 characters / 4 = 3 (integer division)
    assert_eq!(estimate_tokens(""), 0);
}

#[test]
fn test_estimate_tokens_unicode() {
    assert_eq!(estimate_tokens("🦀🦀🦀🦀"), 1); // 4 unicode characters / 4 = 1
    assert_eq!(estimate_tokens("café"), 1); // 4 characters (including é) / 4 = 1
}

#[test]
fn estimate_tokens_counts_characters_not_bytes() {
    assert_eq!(estimate_tokens("ééééééé"), 1);
    assert_eq!(estimate_tokens("abcdefgh"), 2);
}

#[test]
fn invalid_pattern_is_reported_by_its_text() {
    let r = FileFilter::new(strings(&["*.rs"]), strings(&["ok/*", "[a", "[b"]), vec![]);
    match r {
        Err(e) => assert_eq!(e, PatternError::InvalidPattern("[a".to_string())),
        Ok(_) => panic!("an invalid pattern was accepted"),
    }
}

#[test]
fn invalid_filter_pattern_is_reported_first() {
    let r = FileFilter::new(strings(&["{a"]), strings(&["[a"]), vec![]);
    match r {
        Err(e) => assert_eq!(e, PatternError::InvalidPattern("{a".to_string())),
        Ok(_) => panic!("an invalid pattern was accepted"),
    }
}

#[test]
fn empty_pattern_sets_compile_and_match_nothing() {
    let filter = FileFilter::new(vec![], vec![], vec![]).unwrap();
    assert_eq!(filter.filter_globs.len(), 0);
    assert!(!filter.exclude_globs.is_match("anything"));
    assert!(filter.should_include("anything"));
}

#[test]
fn pattern_set_len_counts_patterns() {
    let filter = FileFilter::new(strings(&["*.rs", "*.toml"]), vec![], vec![]).unwrap();
    assert_eq!(filter.filter_globs.len(), 2);
    assert!(!filter.filter_globs.is_match("README.md"));
    assert!(filter.filter_globs.is_match("Cargo.toml"));
}

#[test]
fn empty_filter_falls_back_to_exclude_and_override() {
    let filter = FileFilter::new(vec![], strings(&["*.log"]), strings(&["keep.log"])).unwrap();
    assert!(filter.should_include("main.rs"));
    assert!(!filter.should_include("debug.log"));
    assert!(filter.should_include("keep.log"));
}

#[test]
fn filter_rejects_unmatched_paths_whatever_else() {
    let filter = FileFilter::new(strings(&["*.rs"]), vec![], strings(&["*.md"])).unwrap();
    assert!(!filter.should_include("README.md"));
    let filter = FileFilter::new(strings(&["*.rs"]), strings(&["*.md"]), strings(&["*.md"])).unwrap();
    assert!(!filter.should_include("README.md"));
}

#[test]
fn override_never_beats_filter() {
    let with_filter =
        FileFilter::new(strings(&["*.rs"]), strings(&["target/*"]), strings(&["target/important.md"]))
            .unwrap();
    assert!(!with_filter.should_include("target/important.md"));
    let no_filter =
        FileFilter::new(vec![], strings(&["target/*"]), strings(&["target/important.rs"])).unwrap();
    assert!(no_filter.should_include("target/important.rs"));
    let with_rs_filter =
        FileFilter::new(strings(&["*.rs"]), strings(&["target/*"]), strings(&["target/important.rs"]))
            .unwrap();
    assert!(with_rs_filter.should_include("target/important.rs"));
}

#[test]
fn target_error_messages() {
    let e = resolve_target_directory(Some("/nope".to_string()), false, None).unwrap_err();
    assert_eq!(e.message(), "Directory does not exist: /nope");
    let root = resolve_target_directory(None, false, Some("/repo".to_string())).unwrap();
    assert_eq!(root, "/repo");
    let explicit = resolve_target_directory(Some("/x".to_string()), true, Some("/repo".to_string()));
    assert_eq!(explicit, Ok("/x".to_string()));
}

#[test]
fn empty_pattern_list_always_compiles() {
    let set = PatternSet::new(vec![]).unwrap();
    assert_eq!(set.len(), 0);
    assert!(!set.is_match(""));
    assert!(!set.is_match("src/main.rs"));
}
