use mygit::hexenc::parse_object_id;
use mygit::object::{before_space, encode_object, frame_object, hash_object, parse_loose_object};
use mygit::store::{loose_object_path, read_object, ObjectLookup};

#[test]
fn blob_id_matches_git() {
    assert_eq!(
        hash_object("blob", b"hello\n"),
        "ce013625030ba8dba906f756967f9e9ca394464a"
    );
    assert_eq!(
        hash_object("blob", b"hello"),
        "b6fc4c620b67d95f953a5c1c1230aaab5db5a1b0"
    );
}

#[test]
fn frame_has_type_size_and_nul() {
    assert_eq!(frame_object("blob", b"abc"), b"blob 3\0abc".to_vec());
    assert_eq!(frame_object("tree", b""), b"tree 0\0".to_vec());
}

#[test]
fn encoded_object_reads_back() {
    let o = encode_object("blob", b"hello\n");
    assert_eq!(o.sha, "ce013625030ba8dba906f756967f9e9ca394464a");
    assert_eq!(
        o.id.to_vec(),
        parse_object_id("ce013625030ba8dba906f756967f9e9ca394464a").unwrap().to_vec()
    );
    let (t, d) = parse_loose_object(&o.compressed).unwrap();
    assert_eq!(t, "blob");
    assert_eq!(d, b"hello\n".to_vec());
}

#[test]
fn compressed_object_is_not_the_raw_frame() {
    let o = encode_object("blob", b"hello\n");
    assert_ne!(o.compressed, frame_object("blob", b"hello\n"));
}

#[test]
fn garbage_is_not_a_loose_object() {
    assert!(parse_loose_object(b"not zlib at all").is_none());
}

#[test]
fn type_is_text_before_first_space() {
    assert_eq!(before_space("commit 12"), "commit");
    assert_eq!(before_space("blob"), "blob");
    assert_eq!(before_space(" x"), "");
}

#[test]
fn object_ids_parse_from_hex() {
    let id = parse_object_id("00ff00ff00ff00ff00ff00ff00ff00ff00ff00ff").unwrap();
    assert_eq!(id[0], 0);
    assert_eq!(id[1], 255);
    assert!(parse_object_id("abc").is_none());
    assert!(parse_object_id("zz13625030ba8dba906f756967f9e9ca394464a").is_none());
    assert!(parse_object_id("CE013625030BA8DBA906F756967F9E9CA394464A").is_some());
}

#[test]
fn loose_path_splits_after_two_bytes() {
    assert_eq!(
        loose_object_path("ce013625030ba8dba906f756967f9e9ca394464a").unwrap(),
        ".git/objects/ce/013625030ba8dba906f756967f9e9ca394464a"
    );
    assert!(loose_object_path("c").is_none());
    assert!(loose_object_path("aé").is_none());
    assert_eq!(loose_object_path("é").unwrap(), ".git/objects/é/");
}

#[test]
fn loose_file_wins_over_packs() {
    let o = encode_object("blob", b"data");
    let packs: Vec<(Vec<u8>, Vec<u8>)> = Vec::new();
    match read_object(&o.sha, Some(&o.compressed), &packs) {
        ObjectLookup::Found { obj_type, data } => {
            assert_eq!(obj_type, "blob");
            assert_eq!(data, b"data".to_vec());
        }
        _ => panic!("expected the loose object"),
    }
}

#[test]
fn missing_object_without_packs() {
    let packs: Vec<(Vec<u8>, Vec<u8>)> = Vec::new();
    assert!(matches!(
        read_object("ce013625030ba8dba906f756967f9e9ca394464a", None, &packs),
        ObjectLookup::Missing
    ));
    assert!(matches!(
        read_object("ce013625030ba8dba906f756967f9e9ca394464a", Some(b"junk"), &packs),
        ObjectLookup::Missing
    ));
}
