use mygit::index::{FileStat, Index};

fn stat_i(size: u32) -> FileStat {
    FileStat {
        ctime_s: 1,
        ctime_n: 2,
        mtime_s: 3,
        mtime_n: 4,
        dev: 5,
        ino: 6,
        mode: 0o100644,
        uid: 7,
        gid: 8,
        size,
    }
}

const HELLO: &str = "ce013625030ba8dba906f756967f9e9ca394464a";
const OTHER: &str = "b6fc4c620b67d95f953a5c1c1230aaab5db5a1b0";

#[test]
fn entries_stay_sorted_by_path() {
    let mut idx = Index::new();
    idx.add_entry("b.txt".to_string(), HELLO, &stat_i(6));
    idx.add_entry("a/z.txt".to_string(), HELLO, &stat_i(6));
    idx.add_entry("a.txt".to_string(), OTHER, &stat_i(5));
    let paths: Vec<&str> = idx.entries().iter().map(|e| e.path.as_str()).collect();
    assert_eq!(paths, vec!["a.txt", "a/z.txt", "b.txt"]);
    assert_eq!(idx.len(), 3);
    assert!(!idx.is_empty());
}

#[test]
fn adding_same_path_replaces_entry() {
    let mut idx = Index::new();
    idx.add_entry("hello.txt".to_string(), HELLO, &stat_i(6));
    idx.add_entry("hello.txt".to_string(), OTHER, &stat_i(5));
    assert_eq!(idx.len(), 1);
    let e = idx.get("hello.txt").unwrap();
    assert_eq!(e.size, 5);
    assert_eq!(e.flags, 9);
    assert_eq!(e.sha1[0], 0xb6);
}

#[test]
fn remove_gives_back_the_entry() {
    let mut idx = Index::new();
    idx.add_entry("hello.txt".to_string(), HELLO, &stat_i(6));
    assert!(idx.contains("hello.txt"));
    let e = idx.remove("hello.txt").unwrap();
    assert_eq!(e.path, "hello.txt");
    assert!(!idx.contains("hello.txt"));
    assert!(idx.remove("hello.txt").is_none());
    assert!(idx.is_empty());
}

#[test]
fn serialized_index_loads_back() {
    let mut idx = Index::new();
    idx.add_entry("hello.txt".to_string(), HELLO, &stat_i(6));
    idx.add_entry("src/main.rs".to_string(), OTHER, &stat_i(13));
    let bytes = idx.serialize();
    assert_eq!(&bytes[0..4], b"DIRC");
    assert_eq!(&bytes[4..8], &[0, 0, 0, 2]);
    assert_eq!(&bytes[8..12], &[0, 0, 0, 2]);
    // 62 fixed bytes + 9 name bytes, padded to 72; 62 + 11 padded to 80; 20-byte checksum.
    assert_eq!(bytes.len(), 12 + 72 + 80 + 20);
    let back = Index::parse(&bytes).unwrap();
    assert_eq!(back.len(), 2);
    let e = back.get("src/main.rs").unwrap();
    assert_eq!(e.size, 13);
    assert_eq!(e.mode, 0o100644);
    assert_eq!(e.mtime_s, 3);
    assert_eq!(back.entries()[0].path, "hello.txt");
}

#[test]
fn write_gives_the_serialized_bytes() {
    let mut idx = Index::new();
    idx.add_entry("hello.txt".to_string(), HELLO, &stat_i(6));
    assert_eq!(idx.write(), idx.serialize());
}

#[test]
fn load_without_a_file_is_empty() {
    assert!(Index::load(None).unwrap().is_empty());
    assert!(Index::load(Some(b"DIRC")).unwrap().is_empty());
}

#[test]
fn truncated_index_is_refused() {
    let mut idx = Index::new();
    idx.add_entry("hello.txt".to_string(), HELLO, &stat_i(6));
    let bytes = idx.serialize();
    assert!(Index::parse(&bytes[0..40]).is_none());
    assert!(Index::load(Some(&bytes[0..40])).is_none());
}

#[test]
fn clear_drops_everything() {
    let mut idx = Index::new();
    idx.add_entry("hello.txt".to_string(), HELLO, &stat_i(6));
    idx.clear();
    assert!(idx.is_empty());
    assert_eq!(idx.serialize().len(), 12 + 20);
}

#[test]
fn stat_match_checks_five_fields() {
    let mut idx = Index::new();
    idx.add_entry("hello.txt".to_string(), HELLO, &stat_i(6));
    let e = idx.get("hello.txt").unwrap();
    assert!(e.matches_stat(3, 4, 6, 6, 5));
    assert!(!e.matches_stat(3, 4, 7, 6, 5));
    assert!(!e.matches_stat(9, 4, 6, 6, 5));
}

#[test]
fn cloned_entry_is_equal_in_content() {
    let mut idx = Index::new();
    idx.add_entry("hello.txt".to_string(), HELLO, &stat_i(6));
    let e = idx.get("hello.txt").unwrap().clone();
    let mut other = Index::new();
    other.insert(e);
    assert_eq!(other.serialize(), idx.serialize());
}

#[test]
fn staged_modes_are_normalised() {
    let mut idx = Index::new();
    let mut st = stat_i(6);
    st.mode = 0o100664;
    idx.add_entry("plain.txt".to_string(), HELLO, &st);
    st.mode = 0o100775;
    idx.add_entry("run.sh".to_string(), OTHER, &st);
    assert_eq!(idx.get("plain.txt").unwrap().mode, 0o100644);
    assert_eq!(idx.get("run.sh").unwrap().mode, 0o100755);
}

#[test]
fn an_entry_on_an_eight_byte_boundary_still_ends_with_a_nul() {
    let mut idx = Index::new();
    idx.add_entry("ab".to_string(), HELLO, &stat_i(6));
    let bytes = idx.serialize();
    // 62 fixed bytes + 2 name bytes + 8 NULs; 12-byte header; 20-byte checksum.
    assert_eq!(bytes.len(), 12 + 72 + 20);
    assert_eq!(&bytes[12 + 64..12 + 72], &[0u8; 8]);
    let back = Index::parse(&bytes).unwrap();
    assert_eq!(back.entries()[0].path, "ab");
}

#[test]
fn a_staged_id_reads_as_hex() {
    let mut idx = Index::new();
    idx.add_entry("x".to_string(), HELLO, &stat_i(1));
    assert_eq!(idx.get("x").unwrap().sha_hex(), HELLO);
}
