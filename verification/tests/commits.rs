use mygit::commit::{
    commit_message_text, commit_object, commit_tree, commit_tree_sha, nothing_to_commit,
    parse_commit, RevWalker,
};
use mygit::object::parse_loose_object;

const TREE: &str = "aaa96ced2d9a1c8e72c56b253a0e2fe78393feb7";
const TS: u64 = 1700000000;

#[test]
fn commit_text_has_fixed_identity() {
    let t = commit_message_text(TREE, None, "initial", TS);
    assert_eq!(
        t,
        format!("tree {}\nauthor Yasir <yasir@example.com> 1700000000 +0000\ncommitter Yasir <yasir@example.com> 1700000000 +0000\n\ninitial\n", TREE)
    );
}

#[test]
fn commit_tree_id_matches_git_hash() {
    let o = commit_tree(TREE, None, "initial", TS);
    assert_eq!(o.sha, "da7775e78c9b308fcd395c0ce6cd49efcb080b4e");
    let p = "a".repeat(40);
    let o2 = commit_tree(TREE, Some(&p), "second", TS);
    assert_eq!(o2.sha, "c3290f6b4281f345a485d2015ea221a51b4befea");
}

#[test]
fn commit_tree_drops_a_short_parent() {
    let a = commit_tree(TREE, Some("abc"), "initial", TS);
    let b = commit_tree(TREE, None, "initial", TS);
    assert_eq!(a.sha, b.sha);
}

#[test]
fn commit_keeps_its_parent_as_given() {
    let o = commit_object(TREE, Some("abc"), "msg", 5);
    let (t, data) = parse_loose_object(&o.compressed).unwrap();
    assert_eq!(t, "commit");
    let c = parse_commit(o.sha.clone(), &data);
    assert_eq!(c.parents, vec!["abc".to_string()]);
}

#[test]
fn written_commit_reads_back() {
    let p = "b".repeat(40);
    let text = commit_message_text(TREE, Some(&p), "line one\nline two", TS);
    let c = parse_commit("x".to_string(), text.as_bytes());
    assert_eq!(c.sha, "x");
    assert_eq!(c.tree, TREE);
    assert_eq!(c.parents, vec![p]);
    assert_eq!(c.author, "Yasir <yasir@example.com> 1700000000 +0000");
    assert_eq!(c.message, "line one\nline two");
}

#[test]
fn tree_of_a_commit_object() {
    let text = commit_message_text(TREE, None, "m", TS);
    assert_eq!(commit_tree_sha("commit", text.as_bytes()).unwrap(), TREE);
    assert!(commit_tree_sha("blob", text.as_bytes()).is_none());
    assert!(commit_tree_sha("commit", b"no tree here\n").is_none());
}

#[test]
fn nothing_to_commit_rules() {
    assert!(nothing_to_commit(true, Some(TREE), TREE, false));
    assert!(!nothing_to_commit(true, Some(TREE), "other", true));
    assert!(!nothing_to_commit(true, None, TREE, true));
    assert!(nothing_to_commit(false, None, TREE, true));
    assert!(!nothing_to_commit(false, None, TREE, false));
}

#[test]
fn walker_queues_parents_breadth_first() {
    let mut w = RevWalker::new("c3".to_string());
    let first = w.next_pending().unwrap();
    assert_eq!(first, "c3");
    let text = format!("tree {}\nparent p1\nparent p2\nauthor A\n\nm\n", TREE);
    let c = w.visit(first, "commit", text.as_bytes()).unwrap();
    assert_eq!(c.parents, vec!["p1".to_string(), "p2".to_string()]);
    assert_eq!(c.author, "A");
    assert_eq!(c.message, "m");
    assert_eq!(w.next_pending().unwrap(), "p1");
    assert_eq!(w.next_pending().unwrap(), "p2");
    assert!(w.next_pending().is_none());
}

#[test]
fn walker_stops_at_a_non_commit() {
    let mut w = RevWalker::new("t".to_string());
    let s = w.next_pending().unwrap();
    assert!(w.visit(s, "tree", b"").is_none());
}

#[test]
fn walker_gives_a_shared_ancestor_once() {
    let mut w = RevWalker::new("m".to_string());
    let mut order = Vec::new();
    while let Some(sha) = w.next_pending() {
        let text = match sha.as_str() {
            "m" => format!("tree {}\nparent a\nparent b\nauthor A\n\nmerge\n", TREE),
            "a" | "b" => format!("tree {}\nparent r\nauthor A\n\nside\n", TREE),
            _ => format!("tree {}\nauthor A\n\nroot\n", TREE),
        };
        w.visit(sha.clone(), "commit", text.as_bytes()).unwrap();
        order.push(sha);
    }
    assert_eq!(order, vec!["m", "a", "b", "r"]);
}
