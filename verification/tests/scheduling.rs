use treebrief::store::StateStore;
use treebrief::summarize::{
    needs_summarization, resolve_chat_summary, resolve_summary, ChunkSession,
};
use treebrief::tree::{Directory, FsDir};

fn two_file_snapshot() -> FsDir {
    FsDir {
        name: "Ghost".to_string(),
        dirs: vec![FsDir {
            name: "src".to_string(),
            dirs: vec![],
            files: vec!["a.py".to_string(), "b.rs".to_string()],
        }],
        files: vec![],
    }
}

#[test]
fn empty_file_shortcut_never_needs_a_backend() {
    assert!(!needs_summarization(""));
    assert!(!needs_summarization("   \t\r\n"));
    assert!(needs_summarization("fn main() {}"));
    // whatever the backend would have said, blank content takes the sentinel
    assert_eq!(resolve_summary("  \n ", Some("ignored".to_string())), "empty file");
    assert_eq!(resolve_summary("", None), "empty file");
    assert_eq!(resolve_chat_summary(" \t", None), "empty file");
}

#[test]
fn backend_failure_becomes_sentinel() {
    assert_eq!(resolve_summary("code", None), "summary generation failed");
    assert_eq!(resolve_summary("code", Some("fine".to_string())), "fine");
    assert_eq!(resolve_chat_summary("code", None), "summary generation failed");
    assert_eq!(
        resolve_chat_summary("code", Some("not json".to_string())),
        "summary generation failed"
    );
    let reply = "{\"choices\":[{\"message\":{\"role\":\"assistant\",\"content\":\"ok!\"}}]}";
    assert_eq!(resolve_chat_summary("code", Some(reply.to_string())), "ok!");
    let empty_choices = "{\"choices\":[]}";
    assert_eq!(
        resolve_chat_summary("code", Some(empty_choices.to_string())),
        "summary generation failed"
    );
}

#[test]
fn progress_closure_after_full_run() {
    let fs = two_file_snapshot();
    let mut tree = Directory::from_snapshot(&fs, "/root/Ghost", false);
    let targets = vec!["src".to_string()];
    let files = tree.collect_files_to_summarize(&targets, &fs);
    let total = files.len();
    let mut store = StateStore::new_for_run(tree, total);
    for (path, _name) in files {
        assert!(store.read_progress_snapshot().completed_files < total);
        assert!(store.read_progress_snapshot().summaries.get(path.as_str()).is_none());
        store.record_completion(path, "s".to_string());
    }
    let p = store.read_progress_snapshot();
    assert_eq!(p.total_files, total);
    assert_eq!(p.completed_files, total);
    assert_eq!(p.summaries.len(), total);
}

#[test]
fn one_failure_leaves_other_files_untouched() {
    let fs = two_file_snapshot();
    let mut tree = Directory::from_snapshot(&fs, "/root/Ghost", false);
    let targets = vec!["src".to_string()];
    let files = tree.collect_files_to_summarize(&targets, &fs);
    assert_eq!(files.len(), 2);
    let mut store = StateStore::new_for_run(tree, 2);
    // a.py succeeds, b.rs's backend call fails
    let ok = resolve_summary("print(1)", Some("X".to_string()));
    let failed = resolve_summary("fn main() {}", None);
    store.record_completion(files[0].0.clone(), ok);
    store.record_completion(files[1].0.clone(), failed);
    let p = store.read_progress_snapshot();
    assert_eq!(p.completed_files, 2);
    assert_eq!(p.total_files, 2);
    assert_eq!(p.summaries.get("/root/Ghost/src/a.py").map(|s| s.as_str()), Some("X"));
    assert_eq!(
        p.summaries.get("/root/Ghost/src/b.rs").map(|s| s.as_str()),
        Some("summary generation failed")
    );
    let src = &store.read_tree_snapshot().subdirs[0];
    assert_eq!(src.files[0].summary.as_deref(), Some("X"));
    assert_eq!(src.files[1].summary.as_deref(), Some("summary generation failed"));
}

#[test]
fn concrete_two_file_scenario() {
    let fs = FsDir {
        name: "Ghost".to_string(),
        dirs: vec![
            FsDir {
                name: "src".to_string(),
                dirs: vec![],
                files: vec!["a.py".to_string(), "b.rs".to_string()],
            },
            FsDir {
                name: "vendor".to_string(),
                dirs: vec![],
                files: vec!["c.js".to_string()],
            },
            FsDir { name: ".git".to_string(), dirs: vec![], files: vec![] },
        ],
        files: vec![],
    };
    let mut tree = Directory::from_snapshot(&fs, "/root/Ghost", false);
    let child_names: Vec<&str> = tree.subdirs.iter().map(|d| d.name.as_str()).collect();
    assert_eq!(child_names, vec!["src", "vendor"]);
    let targets = vec!["src".to_string()];
    let files = tree.collect_files_to_summarize(&targets, &fs);
    assert_eq!(
        files,
        vec![
            ("/root/Ghost/src/a.py".to_string(), "a.py".to_string()),
            ("/root/Ghost/src/b.rs".to_string(), "b.rs".to_string()),
        ]
    );
    let mut store = StateStore::new_for_run(tree, files.len());
    store.record_completion(files[0].0.clone(), resolve_summary("x=1", Some("X".to_string())));
    store.record_completion(files[1].0.clone(), resolve_summary("fn f() {}", None));
    let p = store.read_progress_snapshot();
    assert_eq!(p.total_files, 2);
    assert_eq!(p.completed_files, 2);
    assert_eq!(p.summaries.len(), 2);
    assert_eq!(p.summaries.get("/root/Ghost/src/a.py").map(|s| s.as_str()), Some("X"));
    assert_eq!(
        p.summaries.get("/root/Ghost/src/b.rs").map(|s| s.as_str()),
        Some("summary generation failed")
    );
}

#[test]
fn chunk_session_splits_and_condenses() {
    let content = "l1\nl2\nl3\nl4\nl5";
    let mut session = ChunkSession::new(content, 2);
    let chunks: Vec<&str> = session.chunks.iter().map(|c| c.as_str()).collect();
    assert_eq!(chunks, vec!["l1\nl2", "l3\nl4", "l5"]);
    let p1 = session.next_prompt().unwrap();
    assert!(p1.contains("l1\nl2"));
    session.push_reply("{\"content\":\"s1\"}");
    session.push_reply("{\"content\":\"s2\"}");
    // a reply without content is skipped, not fatal
    session.push_reply("{\"other\":1}");
    assert!(session.next_prompt().is_none());
    let fp = session.final_prompt();
    assert!(fp.contains("s1 s2"));
    assert_eq!(
        session.finish(Some("{\"content\":\"condensed\"}".to_string())),
        Some("condensed".to_string())
    );
    assert_eq!(session.finish(None), None);
    assert_eq!(session.finish(Some("not json".to_string())), None);
}

#[test]
fn chunk_session_fails_on_unparsable_reply() {
    let mut session = ChunkSession::new("a\nb", 1);
    session.push_reply("{\"content\":\"s1\"}");
    session.push_reply("garbage");
    assert!(session.next_prompt().is_none());
    assert_eq!(session.finish(Some("{\"content\":\"c\"}".to_string())), None);
}

#[test]
fn chunking_handles_crlf_and_trailing_newline() {
    let session = ChunkSession::new("a\r\nb\n", 10);
    let chunks: Vec<&str> = session.chunks.iter().map(|c| c.as_str()).collect();
    assert_eq!(chunks, vec!["a\nb"]);
    let one = ChunkSession::new("only", 3);
    let one_chunks: Vec<&str> = one.chunks.iter().map(|c| c.as_str()).collect();
    assert_eq!(one_chunks, vec!["only"]);
    let blank = ChunkSession::new("", 3);
    assert!(blank.chunks.is_empty());
}

#[test]
fn completion_reply_content_extraction() {
    assert_eq!(treebrief::summarize::completion_reply_content("{\"content\":\"hi\"}"), Some("hi".to_string()));
    assert_eq!(treebrief::summarize::completion_reply_content("{\"x\":1}"), None);
    assert_eq!(treebrief::summarize::completion_reply_content("junk"), None);
}
