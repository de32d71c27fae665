use mygit::setup::{discovered_repo, git_dir_in, parent_dir, repo_from_env};

#[test]
fn environment_names_the_repository() {
    let r = repo_from_env(Some("/r/.git"), Some("/r")).unwrap();
    assert_eq!(r.git_dir, "/r/.git");
    assert_eq!(r.work_tree, "/r");
    assert_eq!(r.prefix, "");
    assert!(repo_from_env(Some("/r/.git"), None).is_none());
}

#[test]
fn walking_up_directories() {
    assert_eq!(parent_dir("/home/u/repo").unwrap(), "/home/u");
    assert_eq!(parent_dir("/home").unwrap(), "/");
    assert!(parent_dir("/").is_none());
    assert_eq!(parent_dir("rel").unwrap(), "");
    assert!(parent_dir("").is_none());
    assert_eq!(git_dir_in("/home/u"), "/home/u/.git");
    assert_eq!(git_dir_in("/"), "/.git");
}

#[test]
fn prefix_inside_the_work_tree() {
    let r = discovered_repo("/home/u/repo/src/x", "/home/u/repo", None, None);
    assert_eq!(r.git_dir, "/home/u/repo/.git");
    assert_eq!(r.work_tree, "/home/u/repo");
    assert_eq!(r.prefix, "src/x");
    let top = discovered_repo("/home/u/repo", "/home/u/repo", Some("/g"), Some("/w"));
    assert_eq!(top.prefix, "");
    assert_eq!(top.git_dir, "/g");
    assert_eq!(top.work_tree, "/w");
    assert_eq!(discovered_repo("/a/b", "/", None, None).prefix, "a/b");
}
