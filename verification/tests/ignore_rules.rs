use mygit::ignore::Ignore;

#[test]
fn patterns_skip_blanks_and_comments() {
    let p = Ignore::parse_content("# comment\n\n  *.log  \ntarget\n[\n");
    assert_eq!(p, vec!["*.log".to_string(), "target".to_string()]);
}

#[test]
fn exclude_then_gitignore() {
    let ig = Ignore::load_for_repo(Some("*.tmp\n"), Some("build/*\n"));
    assert!(ig.is_ignored("a.tmp"));
    assert!(ig.is_ignored("build/x.o"));
    assert!(!ig.is_ignored("src/main.rs"));
    let none = Ignore::load_for_repo(None, None);
    assert!(!none.is_ignored("anything"));
}
