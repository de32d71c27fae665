use mygit::diff::{diff_index_to_worktree, diff_tree_to_index, DiffEntry};
use mygit::index::{FileStat, Index};
use mygit::status::{all_added, check_file, head_tree, is_modified, status_report, FileCheck};

const HELLO: &str = "ce013625030ba8dba906f756967f9e9ca394464a";
const OTHER: &str = "b6fc4c620b67d95f953a5c1c1230aaab5db5a1b0";

fn stat_s(mtime: u32) -> FileStat {
    FileStat { ctime_s: 0, ctime_n: 0, mtime_s: mtime, mtime_n: 0, dev: 1, ino: 2, mode: 0o100644, uid: 0, gid: 0, size: 6 }
}

fn index_of(paths: &[(&str, &str)]) -> Index {
    let mut idx = Index::new();
    for (p, s) in paths {
        idx.add_entry(p.to_string(), s, &stat_s(10));
    }
    idx
}

#[test]
fn clean_status_text() {
    let out = status_report(Some("master"), &Vec::new(), &Vec::new(), &Vec::new(), &Vec::new());
    assert_eq!(out, "On branch master\nnothing to commit, working tree clean\n");
}

#[test]
fn detached_head_status() {
    let out = status_report(None, &Vec::new(), &Vec::new(), &Vec::new(), &Vec::new());
    assert!(out.starts_with("On branch HEAD (detached)\n"));
}

#[test]
fn status_sections_in_order() {
    let staged = vec![
        DiffEntry { path: "a.txt".to_string(), status: 'A' },
        DiffEntry { path: "b.txt".to_string(), status: 'M' },
        DiffEntry { path: "c.txt".to_string(), status: 'D' },
        DiffEntry { path: "d.txt".to_string(), status: 'X' },
    ];
    let out = status_report(
        Some("master"),
        &staged,
        &vec!["modified.txt".to_string()],
        &vec!["deleted.txt".to_string()],
        &vec!["new.txt".to_string()],
    );
    let expected = "On branch master\n\
\nChanges to be committed:\n  (use \"git rm --cached <file>...\" to unstage)\n\
\t\x1b[32mnew file:  a.txt\x1b[0m\n\t\x1b[32mmodified:  b.txt\x1b[0m\n\t\x1b[32mdeleted:   c.txt\x1b[0m\n\t\x1b[32munknown:   d.txt\x1b[0m\n\
\nChanges not staged for commit:\n  (use \"git add <file>...\" to update what will be committed)\n\
\t\x1b[31mmodified:   modified.txt\x1b[0m\n\
\t\x1b[31mdeleted:    deleted.txt\x1b[0m\n\
\nUntracked files:\n  (use \"git add <file>...\" to include in what will be committed)\n\
\t\x1b[31mnew.txt\x1b[0m\n";
    assert_eq!(out, expected);
    assert!(out.contains("modified:   modified.txt"));
    assert!(out.contains("deleted:    deleted.txt"));
}

#[test]
fn deleted_files_get_their_own_heading() {
    let out = status_report(Some("m"), &Vec::new(), &Vec::new(), &vec!["gone".to_string()], &Vec::new());
    assert_eq!(
        out,
        "On branch m\n\nChanges not staged for commit:\n  (use \"git add/rm <file>...\" to update what will be committed)\n\t\x1b[31mdeleted:    gone\x1b[0m\n"
    );
}

#[test]
fn all_staged_paths_are_new_without_head() {
    let idx = index_of(&[("b", HELLO), ("a", OTHER)]);
    let d = all_added(&idx);
    assert_eq!(d.len(), 2);
    assert_eq!(d[0].path, "a");
    assert_eq!(d[0].status, 'A');
    assert_eq!(d[1].path, "b");
}

#[test]
fn head_tree_from_first_line() {
    let data = format!("tree {}\nauthor x\n\nm\n", HELLO);
    assert_eq!(head_tree("c0", "commit", data.as_bytes()).unwrap(), HELLO);
    assert_eq!(head_tree("t0", "tree", b"").unwrap(), "t0");
    assert!(head_tree("c0", "commit", b"").is_none());
    assert!(head_tree("c0", "commit", b"tre\n").is_none());
}

#[test]
fn work_tree_file_checks() {
    let idx = index_of(&[("a.txt", HELLO)]);
    assert!(matches!(check_file(&idx, "new.txt", &stat_s(10)), FileCheck::Untracked));
    assert!(matches!(check_file(&idx, "a.txt", &stat_s(10)), FileCheck::Unchanged));
    assert!(matches!(check_file(&idx, "a.txt", &stat_s(11)), FileCheck::Rehash));
    assert!(!is_modified(&idx, "a.txt", HELLO));
    assert!(is_modified(&idx, "a.txt", OTHER));
    assert!(!is_modified(&idx, "b.txt", OTHER));
}

#[test]
fn tree_to_index_differences() {
    let idx = index_of(&[("a", HELLO), ("b", HELLO), ("c", OTHER)]);
    let tree = vec![
        ("a".to_string(), HELLO.to_string()),
        ("b".to_string(), OTHER.to_string()),
        ("gone".to_string(), HELLO.to_string()),
    ];
    let d = diff_tree_to_index(&tree, &idx);
    let got: Vec<(String, char)> = d.iter().map(|e| (e.path.clone(), e.status)).collect();
    assert_eq!(
        got,
        vec![("b".to_string(), 'M'), ("c".to_string(), 'A'), ("gone".to_string(), 'D')]
    );
}

#[test]
fn matching_tree_shows_no_changes() {
    let idx = index_of(&[("a", HELLO), ("src/b", OTHER)]);
    let tree = vec![("src/b".to_string(), OTHER.to_string()), ("a".to_string(), HELLO.to_string())];
    assert!(diff_tree_to_index(&tree, &idx).is_empty());
}

#[test]
fn repeated_tree_path_is_deleted_once() {
    let idx = Index::new();
    let tree = vec![("x".to_string(), HELLO.to_string()), ("x".to_string(), OTHER.to_string())];
    let d = diff_tree_to_index(&tree, &idx);
    assert_eq!(d.len(), 1);
    assert_eq!(d[0].status, 'D');
}

#[test]
fn index_to_worktree_reports_nothing() {
    let idx = index_of(&[("a", HELLO)]);
    assert!(diff_index_to_worktree(&idx).is_empty());
}
