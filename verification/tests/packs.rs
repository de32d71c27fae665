use flate2::write::ZlibEncoder;
use flate2::Compression;
use mygit::pack::{apply_delta, find_in_pack_index, unpack_object, IdxLookup, PackEntry};
use mygit::store::{apply_deltas, read_object, search_packfile, ObjectLookup};
use std::io::Write;

fn zlib(data: &[u8]) -> Vec<u8> {
    let mut e = ZlibEncoder::new(Vec::new(), Compression::default());
    e.write_all(data).unwrap();
    e.finish().unwrap()
}

fn hex_bytes_p(s: &str) -> Vec<u8> {
    (0..s.len() / 2).map(|i| u8::from_str_radix(&s[2 * i..2 * i + 2], 16).unwrap()).collect()
}

/// A version-2 index listing `ids` (sorted) at `offsets`.
fn pack_index(ids: &[&str], offsets: &[u32]) -> Vec<u8> {
    let mut out = vec![0xFF, b't', b'O', b'c', 0, 0, 0, 2];
    for b in 0..256usize {
        let n = ids.iter().filter(|id| (hex_bytes_p(id)[0] as usize) <= b).count() as u32;
        out.extend_from_slice(&n.to_be_bytes());
    }
    for id in ids {
        out.extend(hex_bytes_p(id));
    }
    for _ in ids {
        out.extend_from_slice(&[0, 0, 0, 0]);
    }
    for off in offsets {
        out.extend_from_slice(&off.to_be_bytes());
    }
    out
}

fn entry_header(kind: u8, size: usize) -> Vec<u8> {
    let mut out = Vec::new();
    let mut b = (kind << 4) | (size as u8 & 0x0F);
    let mut rest = size >> 4;
    while rest > 0 {
        out.push(b | 0x80);
        b = (rest & 0x7F) as u8;
        rest >>= 7;
    }
    out.push(b);
    out
}

const BLOB: &str = "ce013625030ba8dba906f756967f9e9ca394464a";
const OTHER: &str = "b6fc4c620b67d95f953a5c1c1230aaab5db5a1b0";

#[test]
fn delta_copies_and_inserts() {
    let base = b"hello world";
    // sizes 11 and 11; copy 6 bytes from 0; insert "there";
    let delta = vec![11, 11, 0x90, 6, 5, b't', b'h', b'e', b'r', b'e'];
    assert_eq!(apply_delta(base, &delta).unwrap(), b"hello there".to_vec());
    // copy with an offset byte and a size byte
    let delta2 = vec![11, 5, 0x91, 6, 5];
    assert_eq!(apply_delta(base, &delta2).unwrap(), b"world".to_vec());
}

#[test]
fn delta_copy_size_zero_means_64k() {
    let base = vec![7u8; 0x10000];
    let delta = vec![0x80, 0x80, 0x04, 0x80, 0x80, 0x04, 0x80];
    assert_eq!(apply_delta(&base, &delta).unwrap().len(), 0x10000);
}

#[test]
fn delta_past_its_data_is_refused() {
    let base = b"abc";
    assert!(apply_delta(base, &[3, 3, 0x90, 9]).is_none());
    assert!(apply_delta(base, &[3, 3, 4, b'x']).is_none());
    assert!(apply_delta(base, &[3]).is_none());
}

#[test]
fn pack_index_lookup_finds_offsets() {
    let idx = pack_index(&[OTHER, BLOB], &[12, 40]);
    assert!(matches!(find_in_pack_index(&idx, BLOB), IdxLookup::Found(40)));
    assert!(matches!(find_in_pack_index(&idx, OTHER), IdxLookup::Found(12)));
    assert!(matches!(
        find_in_pack_index(&idx, "0000000000000000000000000000000000000000"),
        IdxLookup::Absent
    ));
    assert!(matches!(find_in_pack_index(&idx, "not hex"), IdxLookup::Absent));
    assert!(matches!(find_in_pack_index(&idx[0..100], BLOB), IdxLookup::Corrupt));
    assert!(matches!(find_in_pack_index(b"PACK", BLOB), IdxLookup::Absent));
}

#[test]
fn whole_objects_unpack_from_a_pack() {
    let mut pack = b"PACK\0\0\0\x02\0\0\0\x01".to_vec();
    pack.extend(entry_header(3, 6));
    pack.extend(zlib(b"hello\n"));
    match unpack_object(&pack, 12).unwrap() {
        PackEntry::Object { obj_type, data } => {
            assert_eq!(obj_type, "blob");
            assert_eq!(data, b"hello\n".to_vec());
        }
        _ => panic!("expected a whole object"),
    }
    assert!(unpack_object(&pack, pack.len()).is_none());
}

#[test]
fn offset_delta_applies_to_its_base() {
    let mut pack = b"PACK\0\0\0\x02\0\0\0\x02".to_vec();
    pack.extend(entry_header(3, 11));
    pack.extend(zlib(b"hello world"));
    let second = pack.len();
    let delta = vec![11, 11, 0x90, 6, 5, b't', b'h', b'e', b'r', b'e'];
    pack.extend(entry_header(6, delta.len()));
    let dist = second - 12;
    assert!(dist < 128);
    pack.push(dist as u8);
    pack.extend(zlib(&delta));
    match unpack_object(&pack, second).unwrap() {
        PackEntry::Object { obj_type, data } => {
            assert_eq!(obj_type, "blob");
            assert_eq!(data, b"hello there".to_vec());
        }
        _ => panic!("expected a resolved object"),
    }
}

#[test]
fn ref_delta_needs_its_base() {
    let mut pack = b"PACK\0\0\0\x02\0\0\0\x01".to_vec();
    let delta = vec![6, 5, 0x90, 5];
    pack.extend(entry_header(7, delta.len()));
    pack.extend(hex_bytes_p(BLOB));
    pack.extend(zlib(&delta));
    let idx = pack_index(&[OTHER], &[12]);
    let packs = vec![(idx.clone(), pack.clone())];
    match read_object(OTHER, None, &packs) {
        ObjectLookup::NeedsBase { pack, base, deltas } => {
            assert_eq!(pack, 0);
            assert_eq!(base, BLOB);
            assert_eq!(apply_deltas(b"hello\n", &deltas).unwrap(), b"hello".to_vec());
        }
        _ => panic!("expected a delta on a base"),
    }
    assert!(matches!(search_packfile(&idx, &pack, OTHER), Some(PackEntry::RefDelta { .. })));
}

#[test]
fn packs_are_searched_in_order() {
    let mut pack = b"PACK\0\0\0\x02\0\0\0\x01".to_vec();
    pack.extend(entry_header(1, 4));
    pack.extend(zlib(b"tree"));
    let empty_idx = pack_index(&[], &[]);
    let idx = pack_index(&[BLOB], &[12]);
    let packs = vec![(empty_idx, Vec::new()), (idx, pack)];
    match read_object(BLOB, None, &packs) {
        ObjectLookup::Found { obj_type, data } => {
            assert_eq!(obj_type, "commit");
            assert_eq!(data, b"tree".to_vec());
        }
        _ => panic!("expected the packed object"),
    }
}

#[test]
fn corrupt_pack_stops_the_search() {
    let idx = pack_index(&[BLOB], &[500]);
    let packs = vec![(idx, b"PACK".to_vec())];
    assert!(matches!(read_object(BLOB, None, &packs), ObjectLookup::Corrupt));
}

#[test]
fn deltas_apply_in_order() {
    let d1 = vec![5, 3, 0x90, 3];
    let d2 = vec![3, 4, 0x90, 3, 1, b'!'];
    assert_eq!(apply_deltas(b"hello", &vec![d1, d2]).unwrap(), b"hel!".to_vec());
    assert_eq!(apply_deltas(b"abc", &Vec::new()).unwrap(), b"abc".to_vec());
    assert!(apply_deltas(b"abc", &vec![vec![3]]).is_none());
}

#[test]
fn pack_index_counts_ids_starting_with_ff() {
    let high = "ff00000000000000000000000000000000000001";
    let idx = pack_index(&[OTHER, high], &[12, 77]);
    assert!(matches!(find_in_pack_index(&idx, high), IdxLookup::Found(77)));
    assert!(matches!(find_in_pack_index(&idx, OTHER), IdxLookup::Found(12)));
}
