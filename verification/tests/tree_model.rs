use treebrief::tree::{Directory, FsDir};

fn sample_snapshot() -> FsDir {
    // deliberately unsorted entries, with a denylisted directory present
    FsDir {
        name: "Ghost".to_string(),
        dirs: vec![
            FsDir {
                name: "vendor".to_string(),
                dirs: vec![],
                files: vec!["c.js".to_string()],
            },
            FsDir {
                name: "src".to_string(),
                dirs: vec![],
                files: vec!["b.rs".to_string(), "a.py".to_string(), "notes.txt".to_string()],
            },
            FsDir {
                name: ".git".to_string(),
                dirs: vec![],
                files: vec!["HEAD".to_string()],
            },
        ],
        files: vec!["README.xyz".to_string()],
    }
}

#[test]
fn shallow_build_lists_only_visible_children_sorted() {
    let fs = sample_snapshot();
    let tree = Directory::from_snapshot(&fs, "/root/Ghost", false);
    assert_eq!(tree.name, "Ghost");
    assert_eq!(tree.path, "/root/Ghost");
    assert_eq!(tree.subdirs.len(), 2);
    assert_eq!(tree.subdirs[0].name, "src");
    assert_eq!(tree.subdirs[1].name, "vendor");
    assert_eq!(tree.subdirs[0].path, "/root/Ghost/src");
    assert_eq!(tree.subdirs[1].path, "/root/Ghost/vendor");
    // shallow: no files anywhere
    assert!(tree.files.is_empty());
    assert!(tree.subdirs[0].files.is_empty());
    assert!(tree.subdirs[1].files.is_empty());
}

#[test]
fn deep_build_attaches_sorted_eligible_files() {
    let fs = sample_snapshot();
    let tree = Directory::from_snapshot(&fs, "/root/Ghost", true);
    let src = &tree.subdirs[0];
    assert_eq!(src.name, "src");
    let names: Vec<&str> = src.files.iter().map(|f| f.name.as_str()).collect();
    // txt is not an allowed extension; the rest come sorted
    assert_eq!(names, vec!["a.py", "b.rs"]);
    assert!(src.files.iter().all(|f| f.summary.is_none()));
    let vendor = &tree.subdirs[1];
    assert_eq!(vendor.files.len(), 1);
    assert_eq!(vendor.files[0].name, "c.js");
    // root's own ineligible file is dropped
    assert!(tree.files.is_empty());
}

#[test]
fn code_file_extensions() {
    assert!(Directory::is_code_file("a.py"));
    assert!(Directory::is_code_file("x.rs"));
    assert!(Directory::is_code_file("m.md"));
    assert!(!Directory::is_code_file("a.xyz"));
    assert!(!Directory::is_code_file("noext"));
    assert!(!Directory::is_code_file(".gitignore"));
    assert!(!Directory::is_code_file("trailing."));
    assert!(Directory::is_code_file("x.tar.go"));
}

#[test]
fn denylist_names() {
    assert!(treebrief::tree::is_hidden_or_common_ignore(".git"));
    assert!(treebrief::tree::is_hidden_or_common_ignore(".github"));
    assert!(treebrief::tree::is_hidden_or_common_ignore(".pytest_cache"));
    assert!(treebrief::tree::is_hidden_or_common_ignore(".gitignore"));
    assert!(treebrief::tree::is_hidden_or_common_ignore("site-packages"));
    assert!(!treebrief::tree::is_hidden_or_common_ignore("src"));
    assert!(!treebrief::tree::is_hidden_or_common_ignore("git"));
}

#[test]
fn select_and_expand_returns_exactly_matched_subtree_files() {
    let fs = sample_snapshot();
    let mut tree = Directory::from_snapshot(&fs, "/root/Ghost", false);
    let targets = vec!["src".to_string()];
    let out = tree.collect_files_to_summarize(&targets, &fs);
    assert_eq!(
        out,
        vec![
            ("/root/Ghost/src/a.py".to_string(), "a.py".to_string()),
            ("/root/Ghost/src/b.rs".to_string(), "b.rs".to_string()),
        ]
    );
    // the matched subtree is now deep, the rest stays a skeleton
    assert_eq!(tree.subdirs[0].files.len(), 2);
    assert!(tree.subdirs[1].files.is_empty());
}

#[test]
fn selection_matches_case_insensitively() {
    let fs = sample_snapshot();
    let mut tree = Directory::from_snapshot(&fs, "/root/Ghost", false);
    let targets = vec!["SRC".to_string()];
    let out = tree.collect_files_to_summarize(&targets, &fs);
    assert_eq!(out.len(), 2);
}

#[test]
fn selection_without_match_returns_nothing() {
    let fs = sample_snapshot();
    let mut tree = Directory::from_snapshot(&fs, "/root/Ghost", false);
    let targets = vec!["lib".to_string()];
    let out = tree.collect_files_to_summarize(&targets, &fs);
    assert!(out.is_empty());
    assert!(tree.subdirs[0].files.is_empty());
}

#[test]
fn collect_all_files_prefixes_paths() {
    let fs = sample_snapshot();
    let tree = Directory::from_snapshot(&fs, "/root/Ghost", true);
    let mut out = Vec::new();
    tree.collect_all_files(&mut out);
    assert_eq!(out.len(), 3);
    assert!(out.iter().all(|(p, _)| p.starts_with("/root/Ghost/")));
}

#[test]
fn apply_summary_sets_matching_entry() {
    let fs = sample_snapshot();
    let mut tree = Directory::from_snapshot(&fs, "/root/Ghost", true);
    tree.update_file_summary("/root/Ghost/src/a.py", "does things".to_string());
    let src = &tree.subdirs[0];
    assert_eq!(src.files[0].summary.as_deref(), Some("does things"));
    assert_eq!(src.files[1].summary, None);
}

#[test]
fn apply_summary_unknown_path_is_a_no_op() {
    let fs = sample_snapshot();
    let mut tree = Directory::from_snapshot(&fs, "/root/Ghost", true);
    tree.update_file_summary("/root/Ghost/src/zz.py", "lost".to_string());
    tree.update_file_summary("/elsewhere/a.py", "lost".to_string());
    assert!(tree.subdirs.iter().all(|d| d.files.iter().all(|f| f.summary.is_none())));
    assert_eq!(tree.subdirs.len(), 2);
    assert_eq!(tree.subdirs[0].files.len(), 2);
}

#[test]
fn folder_listing_is_indented_preorder() {
    let fs = sample_snapshot();
    let tree = Directory::from_snapshot(&fs, "/root/Ghost", false);
    let listing = tree.collect_folders();
    assert_eq!(listing, "Ghost\n  src\n  vendor\n");
}

#[test]
fn empty_directory_builds_empty_node() {
    let fs = FsDir { name: "empty".to_string(), dirs: vec![], files: vec![] };
    let tree = Directory::from_snapshot(&fs, "/e/empty", true);
    assert!(tree.subdirs.is_empty());
    assert!(tree.files.is_empty());
    assert_eq!(tree.collect_folders(), "empty\n");
}

#[test]
fn listing_with_files_indents_them_one_deeper() {
    let fs = sample_snapshot();
    let tree = Directory::from_snapshot(&fs, "/root/Ghost", true);
    let mut listing = String::new();
    tree.collect_folders_recursively(0, &mut listing, true);
    assert_eq!(listing, "Ghost\n  src\n    a.py\n    b.rs\n  vendor\n    c.js\n");
}
