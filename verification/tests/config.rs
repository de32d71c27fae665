use mygit::config::{origin_config_text, remote_url, set_config_text, GitConfig};

const INIT: &str = "[core]\n\trepositoryformatversion = 0\n\tfilemode = true\n\tbare = false\n\tlogallrefupdates = true\n";

#[test]
fn values_are_read_under_their_section() {
    let mut c = GitConfig::new();
    c.load_str(INIT);
    assert_eq!(c.get("core.bare").map(|s| s.as_str()), Some("false"));
    assert_eq!(c.get("CORE.Bare").map(|s| s.as_str()), Some("false"));
    assert!(c.get("core.missing").is_none());
}

#[test]
fn later_files_override_earlier_ones() {
    let mut c = GitConfig::new();
    c.load_str("[user]\n\tname = Global\n\temail = g@example.com\n");
    c.load_str("[user]\n# a comment\n; another\n\tname = Local\n");
    assert_eq!(c.get("user.name").unwrap(), "Local");
    assert_eq!(c.get("user.email").unwrap(), "g@example.com");
}

#[test]
fn keys_outside_sections_and_odd_lines() {
    let mut c = GitConfig::new();
    c.load_str("top = 1\nno equals sign\n[a]\n  k=  v w  \n");
    assert_eq!(c.get("top").unwrap(), "1");
    assert_eq!(c.get("a.k").unwrap(), "v w");
}

#[test]
fn set_then_get_in_a_fresh_config() {
    let text = set_config_text(INIT, "user.name", "Yasir");
    assert!(text.ends_with("\n[user]\n\tname = Yasir\n"));
    let mut c = GitConfig::new();
    c.load_str(&text);
    assert_eq!(c.get("user.name").unwrap(), "Yasir");
    assert_eq!(c.get("core.bare").unwrap(), "false");
}

#[test]
fn set_replaces_an_existing_value() {
    let text = set_config_text(INIT, "core.bare", "true");
    assert_eq!(
        text,
        "[core]\n\trepositoryformatversion = 0\n\tfilemode = true\n\tbare = true\n\tlogallrefupdates = true\n"
    );
    let mut c = GitConfig::new();
    c.load_str(&text);
    assert_eq!(c.get("core.bare").unwrap(), "true");
}

#[test]
fn set_adds_to_the_end_of_an_existing_section() {
    let text = set_config_text("[a]\n\tx = 1\n[b]\n\ty = 2\n", "a.z", "3");
    assert_eq!(text, "[a]\n\tx = 1\n\tz = 3\n[b]\n\ty = 2\n");
}

#[test]
fn set_in_an_empty_file() {
    assert_eq!(set_config_text("", "user.email", "y@example.com"), "[user]\n\temail = y@example.com\n");
}

#[test]
fn remote_url_reads_its_section() {
    let cfg = "[core]\n\tbare = false\n[remote \"origin\"]\n\turl = /tmp/src\n\tfetch = +refs/heads/*:refs/remotes/origin/*\n[remote \"up\"]\n\turl = ../up\n";
    assert_eq!(remote_url(cfg, "origin").unwrap(), "/tmp/src");
    assert_eq!(remote_url(cfg, "up").unwrap(), "../up");
    assert!(remote_url(cfg, "other").is_none());
}

#[test]
fn origin_is_added_once() {
    let added = origin_config_text(INIT, "/tmp/src").unwrap();
    assert_eq!(
        added,
        format!("{}[remote \"origin\"]\n\turl = /tmp/src\n\tfetch = +refs/heads/*:refs/remotes/origin/*\n", INIT)
    );
    assert!(origin_config_text(&added, "/elsewhere").is_none());
    assert_eq!(
        origin_config_text("[core]", "u").unwrap(),
        "[core]\n[remote \"origin\"]\n\turl = u\n\tfetch = +refs/heads/*:refs/remotes/origin/*\n"
    );
    assert_eq!(remote_url(&added, "origin").unwrap(), "/tmp/src");
}

#[test]
fn a_key_with_a_subsection_gets_a_quoted_section() {
    let text = set_config_text("[core]\n\tbare = false\n", "remote.origin.url", "/r");
    assert_eq!(text, "[core]\n\tbare = false\n\n[remote \"origin\"]\n\turl = /r\n");
    assert_eq!(remote_url(&text, "origin").unwrap(), "/r");
    let mut c = GitConfig::new();
    c.load_str(&text);
    assert_eq!(c.get("remote.origin.url").unwrap(), "/r");
    let again = set_config_text(&text, "remote.origin.url", "/s");
    assert_eq!(remote_url(&again, "origin").unwrap(), "/s");
    let deep = set_config_text("", "a.b.c.d", "1");
    assert_eq!(deep, "[a \"b.c\"]\n\td = 1\n");
}

#[test]
fn a_cloned_origin_reads_under_its_dotted_key() {
    let text = origin_config_text(INIT, "/src").unwrap();
    let mut c = GitConfig::new();
    c.load_str(&text);
    assert_eq!(c.get("remote.origin.url").unwrap(), "/src");
}
