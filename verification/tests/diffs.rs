use mygit::linediff::{diff_output, file_diff};

fn id() -> [u8; 20] {
    let mut a = [0u8; 20];
    a[0] = 0xce;
    a[1] = 0x01;
    a[2] = 0x36;
    a[3] = 0x25;
    a
}

#[test]
fn same_text_has_no_diff() {
    assert!(file_diff("a.txt", &id(), b"same\n", b"same\n").is_none());
}

#[test]
fn changed_line_shows_removed_and_added() {
    let d = file_diff("hello.txt", &id(), b"before\n", b"after\n").unwrap();
    assert!(d.starts_with("diff --git a/hello.txt b/hello.txt\nindex ce01362..0000000 100644\n--- a/hello.txt\n+++ b/hello.txt\n"));
    assert!(d.contains("-before"));
    assert!(d.contains("+after"));
    assert!(d.ends_with("\x1b[32m+after\n\x1b[0m"));
}

#[test]
fn diff_text_for_given_changes() {
    let changes = vec![(0u8, "keep\n".to_string()), (1u8, "old\n".to_string()), (2u8, "new\n".to_string())];
    assert_eq!(
        diff_output("f", &id(), &changes),
        "diff --git a/f b/f\nindex ce01362..0000000 100644\n--- a/f\n+++ b/f\n keep\n\x1b[0m\x1b[31m-old\n\x1b[0m\x1b[32m+new\n\x1b[0m"
    );
}

#[test]
fn line_without_newline_gets_one() {
    let d = file_diff("f", &id(), b"a", b"b").unwrap();
    assert!(d.ends_with("\x1b[31m-a\n\x1b[0m\x1b[32m+b\n\x1b[0m"));
}
