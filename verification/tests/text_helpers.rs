use mygit::bytes::{read_be16, read_be32};
use mygit::order::{compare_bytes, Order3};
use mygit::text::{chars_of, lines_of, prefix_to, string_of, suffix_from, trim_bounds};

#[test]
fn big_endian_reads() {
    assert_eq!(read_be32(&[0, 0, 1, 2, 9], 0), 258);
    assert_eq!(read_be16(&[1, 2], 0), 258);
}

#[test]
fn byte_order_comparison() {
    assert_eq!(compare_bytes(b"a", b"b"), Order3::Less);
    assert_eq!(compare_bytes(b"ab", b"a"), Order3::Greater);
    assert_eq!(compare_bytes(b"", b""), Order3::Equal);
}

#[test]
fn lines_like_str_lines() {
    let cs = chars_of("a\r\nb\n\nc");
    let ls: Vec<String> = lines_of(&cs).iter().map(|l| string_of(l)).collect();
    assert_eq!(ls, vec!["a", "b", "", "c"]);
    assert!(lines_of(&chars_of("")).is_empty());
}

#[test]
fn byte_slices_of_text() {
    assert_eq!(suffix_from("tree abc", 5).unwrap(), "abc");
    assert_eq!(prefix_to("abcdefghij", 7).unwrap(), "abcdefg");
    assert!(prefix_to("héllo", 2).is_none());
    assert!(suffix_from("abc", 4).is_none());
}

#[test]
fn trimmed_bounds() {
    let cs = chars_of("  hi there \t");
    let (a, b) = trim_bounds(&cs, 0, cs.len());
    assert_eq!(string_of(&cs[a..b]), "hi there");
}
