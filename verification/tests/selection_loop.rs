use treebrief::selector::{extract_analysis_block, folder_analysis_prompt, SelectorSession};
use treebrief::summarize::{chunk_prompt, summary_prompt};
use treebrief::text::{eq_ignore_case, str_le, str_starts_with, trim_str};

#[test]
fn name_ordering_is_lexicographic() {
    assert!(str_le("abc", "abd"));
    assert!(str_le("abc", "abc"));
    assert!(!str_le("abd", "abc"));
    assert!(str_le("ab", "abc"));
    assert!(!str_le("abc", "ab"));
    assert!(str_le("", "a"));
    assert!(str_le("A", "a"));
}

#[test]
fn case_insensitive_comparison() {
    assert!(eq_ignore_case("SRC", "src"));
    assert!(eq_ignore_case("Lib", "lIB"));
    assert!(!eq_ignore_case("src", "srcs"));
    assert!(!eq_ignore_case("src", "sro"));
}

#[test]
fn trimming_strips_whitespace() {
    assert_eq!(trim_str("  ok \n"), "ok");
    assert_eq!(trim_str("ok"), "ok");
    assert_eq!(trim_str("   \t "), "");
    assert_eq!(trim_str(" a b "), "a b");
}

#[test]
fn prefix_check() {
    assert!(str_starts_with("/root/src/a.py", "/root/src"));
    assert!(!str_starts_with("/root/src", "/root/src/a.py"));
    assert!(str_starts_with("abc", ""));
}

#[test]
fn classifier_reply_sets_targets() {
    let mut session = SelectorSession::new();
    let r = session.classified("{\"analysis_key\":[\"src\",\"lib\"]}");
    assert!(r.is_ok());
    let targets: Vec<&str> = session.targets.iter().map(|t| t.as_str()).collect();
    assert_eq!(targets, vec!["src", "lib"]);
}

#[test]
fn malformed_classifier_reply_is_an_error() {
    let mut session = SelectorSession::new();
    assert!(session.classified("{\"analysis_key\":[\"src\"]}").is_ok());
    assert!(session.classified("not json at all").is_err());
    assert!(session.classified("{\"other\":[]}").is_err());
    assert!(session.classified("{\"analysis_key\":\"notarray\"}").is_err());
    assert!(session.classified("{\"analysis_key\":[1,2]}").is_err());
    // the previous targets survive a malformed round
    let targets: Vec<&str> = session.targets.iter().map(|t| t.as_str()).collect();
    assert_eq!(targets, vec!["src"]);
}

#[test]
fn operator_confirms_or_adds_hints() {
    let mut session = SelectorSession::new();
    assert!(!session.operator_says(" tools, docs \n"));
    assert_eq!(session.hints, ", also consider tools, docs");
    assert!(!session.finalized);
    assert!(session.operator_says(" OK \n"));
    assert!(session.finalized);
    assert_eq!(session.hints, ", also consider tools, docs");
}

#[test]
fn prompts_embed_their_inputs() {
    let p = folder_analysis_prompt("a\n b\n", "extra");
    assert!(p.contains("analysis_key"));
    assert!(p.ends_with("a\n b\n\nextra"));
    let c = chunk_prompt("code body");
    assert!(c.contains("code body"));
    assert!(c.ends_with("ASSISTANT"));
    let s = summary_prompt("content");
    assert!(s.ends_with("content"));
}

#[test]
fn analysis_block_extraction_finds_leftmost_block() {
    let text = "noise {\"analysis_key\": [\"a\"]} trailing";
    assert_eq!(extract_analysis_block(text).as_deref(), Some("{\"analysis_key\": [\"a\"]}"));
    // an earlier block without the key is skipped
    let text2 = "{x} and then {\"analysis_key\":[]} end";
    assert_eq!(extract_analysis_block(text2).as_deref(), Some("{\"analysis_key\":[]}"));
    assert_eq!(extract_analysis_block("no object here"), None);
    assert_eq!(extract_analysis_block("{\"other\": 1}"), None);
    // a span broken by inner braces never qualifies as one block
    assert_eq!(extract_analysis_block("{ \"analysis_key\": {1} }"), None);
}

#[test]
fn extracted_block_parses_as_classifier_reply() {
    let reply = "Sure! Here you go: {\"analysis_key\":[\"src\"]} hope that helps";
    let block = extract_analysis_block(reply).unwrap();
    let mut session = SelectorSession::new();
    assert!(session.classified(block.as_str()).is_ok());
    let targets: Vec<&str> = session.targets.iter().map(|t| t.as_str()).collect();
    assert_eq!(targets, vec!["src"]);
}
