use mygit::refs::{
    also_log_head, current_branch, ref_paths, ref_storage, ref_target, reflog_line, resolve_ref,
    sort_names, RefTarget,
};

#[test]
fn ref_file_content_is_trimmed() {
    match ref_target("  ref: refs/heads/master \n") {
        RefTarget::Symbolic(n) => assert_eq!(n, "refs/heads/master"),
        _ => panic!("expected a symbolic ref"),
    }
    match ref_target("ce013625030ba8dba906f756967f9e9ca394464a\n") {
        RefTarget::Direct(s) => assert_eq!(s, "ce013625030ba8dba906f756967f9e9ca394464a"),
        _ => panic!("expected an id"),
    }
}

#[test]
fn resolve_step_follows_content() {
    assert!(resolve_ref(None).is_none());
    assert!(matches!(resolve_ref(Some("ref: HEAD2\n")), Some(RefTarget::Symbolic(n)) if n == "HEAD2"));
    assert!(matches!(resolve_ref(Some("abc\n")), Some(RefTarget::Direct(s)) if s == "abc"));
}

#[test]
fn resolve_tries_three_places() {
    let p = ref_paths("master");
    assert_eq!(p, vec![".git/master", ".git/refs/heads/master", ".git/refs/tags/master"]);
    let abs = ref_paths("/abs/ref");
    assert_eq!(abs[0], "/abs/ref");
}

#[test]
fn current_branch_from_head() {
    assert_eq!(current_branch("ref: refs/heads/master\n").unwrap(), "master");
    assert_eq!(current_branch("ref: refs/heads/feature/x  \n").unwrap(), "feature/x");
    assert!(current_branch("ce013625030ba8dba906f756967f9e9ca394464a\n").is_none());
}

#[test]
fn where_refs_are_stored() {
    assert_eq!(ref_storage("HEAD"), ".git/HEAD");
    assert_eq!(ref_storage("refs/tags/v1"), ".git/refs/tags/v1");
    assert_eq!(ref_storage("feature"), ".git/refs/heads/feature");
    assert_eq!(ref_storage("/abs/ref"), "/abs/ref");
}

#[test]
fn reflog_line_format() {
    let z = "0".repeat(40);
    assert_eq!(
        reflog_line(&z, "abc", 17, "update by mygit"),
        format!("{} abc Yasir <yasir@example.com> 17 +0000\tupdate by mygit\n", z)
    );
}

#[test]
fn head_log_follows_current_branch() {
    assert!(also_log_head("refs/heads/master", Some("master")));
    assert!(!also_log_head("refs/heads/other", Some("master")));
    assert!(!also_log_head("HEAD", Some("master")));
    assert!(!also_log_head("refs/heads/master", None));
}

#[test]
fn names_sort_in_byte_order() {
    let v = vec!["v2".to_string(), "feature".to_string(), "Master".to_string(), "master".to_string(), "v10".to_string()];
    assert_eq!(sort_names(v), vec!["Master", "feature", "master", "v10", "v2"]);
    assert!(sort_names(Vec::new()).is_empty());
}

#[test]
fn an_updated_branch_is_found_where_it_was_written() {
    let written = ref_storage("main");
    let paths = ref_paths("main");
    assert_eq!(paths[1], written);
    assert_ne!(paths[0], written);
    let tag = ref_storage("refs/tags/v1");
    assert_eq!(ref_paths("refs/tags/v1")[0], tag);
    match resolve_ref(Some("ce013625030ba8dba906f756967f9e9ca394464a\n")).unwrap() {
        RefTarget::Direct(s) => assert_eq!(s, "ce013625030ba8dba906f756967f9e9ca394464a"),
        RefTarget::Symbolic(_) => panic!("expected an id"),
    }
}

#[test]
fn an_absolute_ref_name_is_written_where_it_is_looked_up() {
    assert_eq!(ref_storage("/tmp/r"), ref_paths("/tmp/r")[0]);
}
