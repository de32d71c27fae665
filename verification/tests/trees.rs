use mygit::index::{FileStat, Index};
use mygit::object::parse_loose_object;
use mygit::tree::{parse_tree, push_octal, tree_level, LevelItem, TreeEntry};
use mygit::write_tree::write_index_tree;

fn stat_t() -> FileStat {
    FileStat {
        ctime_s: 0,
        ctime_n: 0,
        mtime_s: 0,
        mtime_n: 0,
        dev: 0,
        ino: 0,
        mode: 0o100644,
        uid: 0,
        gid: 0,
        size: 0,
    }
}

fn hex_bytes_t(s: &str) -> Vec<u8> {
    (0..s.len() / 2).map(|i| u8::from_str_radix(&s[2 * i..2 * i + 2], 16).unwrap()).collect()
}

#[test]
fn tree_bytes_parse_into_entries() {
    let mut data = b"100644 hello.txt\0".to_vec();
    data.extend(hex_bytes_t("ce013625030ba8dba906f756967f9e9ca394464a"));
    data.extend_from_slice(b"40000 src\0");
    data.extend(hex_bytes_t("5d90422423db5ef6b431e8b9e60e0baf04b8742a"));
    let es = parse_tree(&data).unwrap();
    assert_eq!(es.len(), 2);
    assert_eq!(es[0].mode, "100644");
    assert_eq!(es[0].path, "hello.txt");
    assert_eq!(es[0].sha1, "ce013625030ba8dba906f756967f9e9ca394464a");
    assert_eq!(es[1].mode, "40000");
    assert_eq!(es[1].path, "src");
}

#[test]
fn cut_short_tree_is_refused() {
    let mut data = b"100644 hello.txt\0".to_vec();
    data.extend(vec![1u8; 10]);
    assert!(parse_tree(&data).is_none());
    assert!(parse_tree(b"100644").is_none());
    assert_eq!(parse_tree(b"").unwrap().len(), 0);
}

#[test]
fn octal_digits_without_leading_zero() {
    let mut out = Vec::new();
    push_octal(&mut out, 0o100644);
    assert_eq!(out, b"100644".to_vec());
    let mut z = Vec::new();
    push_octal(&mut z, 0);
    assert_eq!(z, b"0".to_vec());
}

#[test]
fn level_splits_files_and_directories() {
    let entries = vec![
        TreeEntry { mode: "100644".to_string(), path: "a.txt".to_string(), sha1: "11".to_string() },
        TreeEntry { mode: "40000".to_string(), path: "sub".to_string(), sha1: "22".to_string() },
    ];
    let items = tree_level("top", entries);
    match &items[0] {
        LevelItem::File(f) => assert_eq!(f.path, "top/a.txt"),
        _ => panic!("expected a file"),
    }
    match &items[1] {
        LevelItem::Dir { sha, path } => {
            assert_eq!(sha, "22");
            assert_eq!(path, "top/sub");
        }
        _ => panic!("expected a directory"),
    }
    let top = tree_level("", vec![TreeEntry { mode: "100755".to_string(), path: "x".to_string(), sha1: "3".to_string() }]);
    match &top[0] {
        LevelItem::File(f) => assert_eq!(f.path, "x"),
        _ => panic!("expected a file"),
    }
}

#[test]
fn single_file_tree_matches_git() {
    let mut idx = Index::new();
    idx.add_entry("hello.txt".to_string(), "ce013625030ba8dba906f756967f9e9ca394464a", &stat_t());
    let w = write_index_tree(&idx);
    assert_eq!(w.root, "aaa96ced2d9a1c8e72c56b253a0e2fe78393feb7");
    assert_eq!(w.objects.len(), 1);
    assert_eq!(w.objects[0].sha, w.root);
}

#[test]
fn nested_tree_matches_git() {
    let mut idx = Index::new();
    idx.add_entry("hello.txt".to_string(), "ce013625030ba8dba906f756967f9e9ca394464a", &stat_t());
    idx.add_entry("src/main.rs".to_string(), "f328e4d9d04c31d0d70d16d21a07d1613be9d577", &stat_t());
    let w = write_index_tree(&idx);
    assert_eq!(w.root, "aae2b3618f4a481bc1bde056dae4b7617edb7e83");
    assert_eq!(w.objects.len(), 2);
    assert_eq!(w.objects[0].sha, "5d90422423db5ef6b431e8b9e60e0baf04b8742a");
    assert_eq!(w.objects[1].sha, w.root);
}

#[test]
fn written_tree_reads_back() {
    let mut idx = Index::new();
    idx.add_entry("b.txt".to_string(), "ce013625030ba8dba906f756967f9e9ca394464a", &stat_t());
    idx.add_entry("a.txt".to_string(), "f328e4d9d04c31d0d70d16d21a07d1613be9d577", &stat_t());
    let w = write_index_tree(&idx);
    let (t, data) = parse_loose_object(&w.objects[0].compressed).unwrap();
    assert_eq!(t, "tree");
    let es = parse_tree(&data).unwrap();
    assert_eq!(es.len(), 2);
    assert_eq!(es[0].path, "a.txt");
    assert_eq!(es[0].sha1, "f328e4d9d04c31d0d70d16d21a07d1613be9d577");
    assert_eq!(es[1].path, "b.txt");
    assert_eq!(es[1].mode, "100644");
}

#[test]
fn empty_index_writes_empty_tree() {
    let idx = Index::new();
    let w = write_index_tree(&idx);
    assert_eq!(w.root, "4b825dc642cb6eb9a060e54bf8d69288fbee4904");
}

fn read_back_t(
    objects: &[mygit::object::LooseObject],
    sha: &str,
    prefix: &str,
    out: &mut Vec<(String, String)>,
) {
    let obj = objects.iter().find(|o| o.sha == sha).unwrap();
    let (t, data) = parse_loose_object(&obj.compressed).unwrap();
    assert_eq!(t, "tree");
    let es = parse_tree(&data).unwrap();
    for item in tree_level(prefix, es) {
        match item {
            LevelItem::File(f) => out.push((f.path, f.sha1)),
            LevelItem::Dir { sha, path } => read_back_t(objects, &sha, &path, out),
        }
    }
}

#[test]
fn nested_written_trees_read_back_as_staged_files() {
    let mut idx = Index::new();
    let staged = [
        ("a/b/c.txt", "ce013625030ba8dba906f756967f9e9ca394464a"),
        ("a/d.txt", "f328e4d9d04c31d0d70d16d21a07d1613be9d577"),
        ("a.txt", "5d90422423db5ef6b431e8b9e60e0baf04b8742a"),
        ("z/y/x/w.rs", "aae2b3618f4a481bc1bde056dae4b7617edb7e83"),
        ("top", "4b825dc642cb6eb9a060e54bf8d69288fbee4904"),
    ];
    for (p, id) in staged.iter() {
        idx.add_entry(p.to_string(), id, &stat_t());
    }
    let w = write_index_tree(&idx);
    let mut found: Vec<(String, String)> = Vec::new();
    read_back_t(&w.objects, &w.root, "", &mut found);
    let mut expected: Vec<(String, String)> =
        staged.iter().map(|(p, id)| (p.to_string(), id.to_string())).collect();
    found.sort();
    expected.sort();
    assert_eq!(found, expected);
}

#[test]
fn a_directory_sorts_as_if_its_name_ended_in_a_slash() {
    let mut idx = Index::new();
    idx.add_entry("a/b".to_string(), "ce013625030ba8dba906f756967f9e9ca394464a", &stat_t());
    idx.add_entry("a.txt".to_string(), "f328e4d9d04c31d0d70d16d21a07d1613be9d577", &stat_t());
    let w = write_index_tree(&idx);
    let root = w.objects.iter().find(|o| o.sha == w.root).unwrap();
    let (_, data) = parse_loose_object(&root.compressed).unwrap();
    let es = parse_tree(&data).unwrap();
    assert_eq!(es[0].path, "a.txt");
    assert_eq!(es[1].path, "a");
    assert_eq!(es[1].mode, "40000");
}

#[test]
fn paths_with_empty_components_read_back_as_written() {
    let mut idx = Index::new();
    let staged = [
        ("a//b", "ce013625030ba8dba906f756967f9e9ca394464a"),
        ("c/", "f328e4d9d04c31d0d70d16d21a07d1613be9d577"),
        ("d", "5d90422423db5ef6b431e8b9e60e0baf04b8742a"),
    ];
    for (p, id) in staged.iter() {
        idx.add_entry(p.to_string(), id, &stat_t());
    }
    let w = write_index_tree(&idx);
    let mut found: Vec<(String, String)> = Vec::new();
    read_back_t(&w.objects, &w.root, "", &mut found);
    let mut expected: Vec<(String, String)> =
        staged.iter().map(|(p, id)| (p.to_string(), id.to_string())).collect();
    found.sort();
    expected.sort();
    assert_eq!(found, expected);
}
