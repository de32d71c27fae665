use mygit::commands::{
    branch_list, branch_name, cat_file_output, checkout_head, checkout_removals, checkout_tree,
    clone_branch, clone_dest_dir, commit_summary, head_ref_name, is_full_hex_id, log_entry,
    ls_files_output, ls_tree_line, name_list, reflog_output, remote_name, reset_tree, show_output,
    tag_target, add_step, commit_plan, AddStep, CommitPlan, ResetTree,
};
use mygit::commit::Commit;
use mygit::index::{FileStat, Index};
use mygit::refs::{current_branch, reflog_line};
use mygit::tree::TreeEntry;

const HELLO: &str = "ce013625030ba8dba906f756967f9e9ca394464a";
const TREE: &str = "aaa96ced2d9a1c8e72c56b253a0e2fe78393feb7";

fn stat_c() -> FileStat {
    FileStat { ctime_s: 0, ctime_n: 0, mtime_s: 0, mtime_n: 0, dev: 0, ino: 0, mode: 0o100644, uid: 0, gid: 0, size: 0 }
}

fn hex_bytes_c(s: &str) -> Vec<u8> {
    (0..s.len() / 2).map(|i| u8::from_str_radix(&s[2 * i..2 * i + 2], 16).unwrap()).collect()
}

#[test]
fn cat_file_modes() {
    assert_eq!(cat_file_output("-p", "blob", b"hello\n").unwrap(), b"hello\n".to_vec());
    assert_eq!(cat_file_output("-t", "blob", b"hello\n").unwrap(), b"blob\n".to_vec());
    assert_eq!(cat_file_output("-s", "blob", b"hello\n").unwrap(), b"6\n".to_vec());
    assert_eq!(cat_file_output("blob", "blob", b"x").unwrap(), b"x".to_vec());
    assert!(cat_file_output("tree", "blob", b"x").is_none());
}

#[test]
fn ls_files_plain_and_staged() {
    let mut idx = Index::new();
    idx.add_entry("src/main.rs".to_string(), HELLO, &stat_c());
    idx.add_entry("hello.txt".to_string(), HELLO, &stat_c());
    assert_eq!(ls_files_output(&idx, false), b"hello.txt\nsrc/main.rs\n".to_vec());
    assert_eq!(
        String::from_utf8(ls_files_output(&idx, true)).unwrap(),
        format!("100644 {} 0\thello.txt\n100644 {} 0\tsrc/main.rs\n", HELLO, HELLO)
    );
}

#[test]
fn ls_tree_lines() {
    let f = TreeEntry { mode: "100644".to_string(), path: "hello.txt".to_string(), sha1: HELLO.to_string() };
    let d = TreeEntry { mode: "40000".to_string(), path: "src".to_string(), sha1: TREE.to_string() };
    assert_eq!(ls_tree_line(&f, "blob", false), format!("100644 blob {}\thello.txt\n", HELLO));
    assert_eq!(ls_tree_line(&d, "tree", false), format!("040000 tree {}\tsrc\n", TREE));
    assert_eq!(ls_tree_line(&d, "", true), "src\n");
}

#[test]
fn show_by_object_type() {
    assert_eq!(show_output(HELLO, "blob", b"hello").unwrap(), b"hello".to_vec());
    assert_eq!(show_output("c1", "commit", b"tree x\n").unwrap(), b"commit c1\ntree x\n\n".to_vec());
    let mut data = b"100644 hello.txt\0".to_vec();
    data.extend(hex_bytes_c(HELLO));
    assert_eq!(
        String::from_utf8(show_output(TREE, "tree", &data).unwrap()).unwrap(),
        format!("100644 {}\thello.txt\n", HELLO)
    );
    assert!(show_output(TREE, "tree", b"100644 x").is_none());
    assert_eq!(show_output("z", "other", b"raw").unwrap(), b"raw".to_vec());
}

#[test]
fn log_entry_text() {
    let c = Commit {
        sha: "abc".to_string(),
        parents: Vec::new(),
        author: "Yasir <yasir@example.com> 1 +0000".to_string(),
        message: "initial".to_string(),
        tree: TREE.to_string(),
    };
    assert_eq!(log_entry(&c), "commit abc\nAuthor: Yasir <yasir@example.com> 1 +0000\n\n    initial\n\n");
}

#[test]
fn branch_listing_marks_current() {
    let bs = vec!["feature".to_string(), "master".to_string()];
    assert_eq!(branch_list(&bs, Some("master")), "  feature\n* master\n");
    assert_eq!(branch_list(&bs, None), "  feature\n  master\n");
}

#[test]
fn tag_listing() {
    assert_eq!(name_list(&vec!["v1".to_string(), "v2".to_string()]), "v1\nv2\n");
    assert_eq!(name_list(&Vec::new()), "");
}

#[test]
fn full_hex_ids() {
    assert!(is_full_hex_id(HELLO));
    assert!(is_full_hex_id(&HELLO.to_uppercase()));
    assert!(!is_full_hex_id("HEAD"));
    assert!(!is_full_hex_id(&"g".repeat(40)));
    assert!(!is_full_hex_id(&"a".repeat(41)));
}

#[test]
fn reflog_newest_first() {
    let z = "0".repeat(40);
    let mut log = reflog_line(&z, HELLO, 1, "update by mygit");
    log.push_str(&reflog_line(HELLO, TREE, 2, "second"));
    let (out, ok) = reflog_output(&log);
    assert!(ok);
    assert_eq!(out, "aaa96ce HEAD@{0}: second\nce01362 HEAD@{1}: update by mygit\n");
    assert!(out.contains("HEAD@{0}: second"));
}

#[test]
fn reflog_stops_at_a_short_id() {
    let (out, ok) = reflog_output("a b c\tm\nonlyone\tx\n");
    assert!(!ok);
    assert_eq!(out, "");
    let (out2, ok2) = reflog_output("");
    assert!(ok2);
    assert_eq!(out2, "");
}

#[test]
fn clone_directory_names() {
    assert_eq!(clone_dest_dir("../repos/project.git", None), ".");
    assert_eq!(clone_dest_dir("/tmp/src", None), ".");
    assert_eq!(clone_dest_dir("anything", Some("dest")), "dest");
}

#[test]
fn clone_checks_out_the_source_branch() {
    assert_eq!(clone_branch("ref: refs/heads/main\n").unwrap(), "main");
    assert!(clone_branch(&format!("{}\n", HELLO)).is_none());
}

#[test]
fn commit_updates_branch_or_head() {
    assert_eq!(head_ref_name(Some("master")), "refs/heads/master");
    assert_eq!(head_ref_name(None), "HEAD");
    assert_eq!(commit_summary(Some("master"), HELLO, "msg").unwrap(), "[master ce01362] msg\n");
    assert_eq!(commit_summary(None, HELLO, "msg").unwrap(), "[detached HEAD ce01362] msg\n");
    assert!(commit_summary(None, "abc", "msg").is_none());
}

#[test]
fn checkout_targets() {
    let data = format!("tree {}\n\nm\n", TREE);
    assert_eq!(checkout_tree("c", "commit", data.as_bytes()).unwrap(), TREE);
    assert_eq!(checkout_tree("t", "tree", b"").unwrap(), "t");
    assert!(checkout_tree("b", "blob", b"").is_none());
}

#[test]
fn reset_needs_a_commit() {
    let data = format!("tree {}\n\nm\n", TREE);
    assert!(matches!(reset_tree("commit", data.as_bytes()), ResetTree::Tree(t) if t == TREE));
    assert!(matches!(reset_tree("tree", b""), ResetTree::NotCommit));
    assert!(matches!(reset_tree("commit", b""), ResetTree::Malformed));
}

#[test]
fn checkout_removes_paths_missing_from_target() {
    let mut idx = Index::new();
    idx.add_entry("feature.txt".to_string(), HELLO, &stat_c());
    idx.add_entry("master.txt".to_string(), HELLO, &stat_c());
    let targets = vec![TreeEntry { mode: "100644".to_string(), path: "master.txt".to_string(), sha1: HELLO.to_string() }];
    assert_eq!(checkout_removals(&idx, &targets), vec!["feature.txt".to_string()]);
}

#[test]
fn checkout_head_for_branch_or_commit() {
    let bs = vec!["master".to_string(), "feature".to_string()];
    let head = checkout_head("feature", &bs, HELLO);
    assert_eq!(head, "ref: refs/heads/feature\n");
    assert_eq!(current_branch(&head).unwrap(), "feature");
    assert_eq!(checkout_head(HELLO, &bs, HELLO), format!("{}\n", HELLO));
}

#[test]
fn remote_defaults() {
    assert_eq!(remote_name(None), "origin");
    assert_eq!(remote_name(Some("up")), "up");
    assert_eq!(branch_name(None, Some("dev")), "dev");
    assert_eq!(branch_name(None, None), "master");
    assert_eq!(branch_name(Some("x"), Some("dev")), "x");
}

#[test]
fn tag_target_order() {
    assert_eq!(tag_target(Some("v"), Some("id1"), Some("h")).unwrap(), "id1");
    assert_eq!(tag_target(Some("v"), None, Some("h")).unwrap(), "v");
    assert_eq!(tag_target(None, None, Some("h")).unwrap(), "h");
    assert!(tag_target(None, None, None).is_none());
}

#[test]
fn add_decides_per_path() {
    let mut idx = Index::new();
    idx.add_entry("gone.txt".to_string(), HELLO, &stat_c());
    assert!(matches!(add_step(&mut idx, "new.txt", true), AddStep::Stage));
    assert_eq!(idx.len(), 1);
    assert!(matches!(add_step(&mut idx, "gone.txt", false), AddStep::Removed));
    assert_eq!(idx.len(), 0);
    assert!(matches!(add_step(&mut idx, "never.txt", false), AddStep::NoMatch));
    assert_eq!(idx.len(), 0);
}

#[test]
fn commit_plan_records_or_does_nothing() {
    let tree = "4b825dc642cb6eb9a060e54bf8d69288fbee4904";
    assert!(matches!(commit_plan(tree, Some(HELLO), Some(tree), false, Some("main"), "m", 1), CommitPlan::Nothing));
    assert!(matches!(commit_plan(tree, None, None, true, Some("main"), "m", 1), CommitPlan::Nothing));
    match commit_plan(tree, None, None, false, Some("main"), "first", 1700000000) {
        CommitPlan::Record { object, ref_name, summary } => {
            assert_eq!(ref_name, "refs/heads/main");
            assert_eq!(summary.unwrap(), format!("[main {}] first\n", &object.sha[..7]));
            assert_eq!(object.sha.len(), 40);
        }
        CommitPlan::Nothing => panic!("expected a commit"),
    }
}
