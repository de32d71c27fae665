//! Character-level helpers over `str` and `String`.

use vstd::prelude::*;
use vstd::std_specs::iter::IteratorSpec;
use vstd::utf8::*;

verus! {

broadcast use vstd::string::group_string_axioms;

/// The characters of `s`, in order.
pub fn chars_of(s: &str) -> (r: Vec<char>)
    ensures
        r@ == s@,
{
    let mut it = s.chars();
    let mut r: Vec<char> = Vec::new();
    loop
        invariant
            it.obeys_prophetic_iter_laws(),
            r@ + it.remaining() == s@,
            it.decrease() is Some,
        decreases it.decrease()->0,
    {
        match it.next() {
            Some(c) => {
                r.push(c);
                assert(r@ + it.remaining() =~= s@);
            },
            None => {
                assert(r@ =~= s@);
                return r;
            },
        }
    }
}

/// `String::push`: appends one character.
#[verifier::external_body]
pub(crate) fn push_char(s: &mut String, c: char)
    ensures
        final(s)@ == old(s)@.push(c),
{
    s.push(c)
}

/// The string made of `cs`.
pub fn string_of(cs: &[char]) -> (r: String)
    ensures
        r@ == cs@,
{
    let mut r = String::new();
    let mut i: usize = 0;
    while i < cs.len()
        invariant
            i <= cs@.len(),
            r@ == cs@.take(i as int),
        decreases cs@.len() - i,
    {
        push_char(&mut r, cs[i]);
        i = i + 1;
        assert(r@ =~= cs@.take(i as int));
    }
    assert(cs@.take(i as int) =~= cs@);
    r
}

/// What `String::from_utf8_lossy` makes of a byte string.
pub uninterp spec fn utf8_lossy_text(b: Seq<u8>) -> Seq<char>;

/// The text of a byte string: its UTF-8 decoding where it is valid UTF-8,
/// else what `String::from_utf8_lossy` makes of it.
pub open spec fn lossy_text(b: Seq<u8>) -> Seq<char> {
    if valid_utf8(b) {
        decode_utf8(b)
    } else {
        utf8_lossy_text(b)
    }
}

/// `String::from_utf8_lossy`, owned: the text of `b`, which is exactly its
/// UTF-8 decoding where `b` is valid UTF-8 (invalid sequences are replaced
/// with U+FFFD, which no clause states).
#[verifier::external_body]
pub(crate) fn from_utf8_lossy(b: &[u8]) -> (r: String)
    ensures
        r@ == utf8_lossy_text(b@),
        valid_utf8(b@) ==> r@ == decode_utf8(b@),
{
    String::from_utf8_lossy(b).to_string()
}


/// The characters that an ASCII-only byte string spells.
pub open spec fn ascii_chars(b: Seq<u8>) -> Seq<char> {
    b.map_values(|x: u8| x as char)
}

/// True when every byte is below 128.
pub open spec fn is_ascii_bytes(b: Seq<u8>) -> bool {
    forall|i: int| 0 <= i < b.len() ==> b[i] < 128
}

pub proof fn lemma_encode_concat(a: Seq<char>, b: Seq<char>)
    ensures
        encode_utf8(a + b) == encode_utf8(a) + encode_utf8(b),
    decreases a.len(),
{
    if a.len() == 0 {
        assert(a + b =~= b);
        assert(encode_utf8(a) + encode_utf8(b) =~= encode_utf8(b));
    } else {
        lemma_encode_concat(a.drop_first(), b);
        assert((a + b).drop_first() =~= a.drop_first() + b);
        assert((a + b)[0] == a[0]);
        assert(encode_scalar(a[0] as u32) + (encode_utf8(a.drop_first()) + encode_utf8(b))
            =~= (encode_scalar(a[0] as u32) + encode_utf8(a.drop_first())) + encode_utf8(b));
    }
}

pub proof fn lemma_encode_ascii(b: Seq<u8>)
    requires
        is_ascii_bytes(b),
    ensures
        encode_utf8(ascii_chars(b)) == b,
        decode_utf8(b) == ascii_chars(b),
        valid_utf8(b),
{
    let cs = ascii_chars(b);
    assert forall|i: int| 0 <= i < cs.len() implies '\0' <= #[trigger] cs[i] <= '\u{7f}' by {
        assert(b[i] < 128);
    }
    is_ascii_chars_encode_utf8(cs);
    assert forall|i: int| 0 <= i < b.len() implies encode_utf8(cs)[i] == b[i] by {
        let x = b[i];
        assert(cs[i] == x as char);
        assert(cs[i] as u8 == encode_utf8(cs)[i]);
    }
    assert(encode_utf8(cs) =~= b);
    encode_utf8_valid_utf8(cs);
    encode_utf8_decode_utf8(cs);
}

proof fn lemma_scalar_high_bytes(c: u32)
    requires
        is_scalar(c),
        c >= 0x80,
    ensures
        forall|j: int| 0 <= j < encode_scalar(c).len() ==> #[trigger] encode_scalar(c)[j] >= 0x80,
{
    let e = encode_scalar(c);
    assert(forall|y: u8| #![auto] (0xC0u8 | y) >= 0x80u8) by (bit_vector);
    assert(forall|y: u8| #![auto] (0xE0u8 | y) >= 0x80u8) by (bit_vector);
    assert(forall|y: u8| #![auto] (0xF0u8 | y) >= 0x80u8) by (bit_vector);
    assert(forall|y: u8| #![auto] (0x80u8 | y) >= 0x80u8) by (bit_vector);
}

/// An ASCII byte occurs in a UTF-8 encoding only where its character occurs.
pub proof fn lemma_encode_avoids(t: Seq<char>, b: u8)
    requires
        b < 128,
        forall|i: int| 0 <= i < t.len() ==> t[i] != b as char,
    ensures
        forall|j: int| 0 <= j < encode_utf8(t).len() ==> encode_utf8(t)[j] != b,
    decreases t.len(),
{
    if t.len() > 0 {
        let c = t[0];
        let rest = t.drop_first();
        lemma_encode_avoids(rest, b);
        char_is_scalar(c);
        let e = encode_scalar(c as u32);
        if (c as u32) < 0x80 {
            assert(e == seq![leading_byte_width_1(c as u32)]);
            let cu = c as u32;
            assert(cu < 0x80 ==> (cu & 0x7F) as u8 == cu as u8) by (bit_vector);
            assert(cu < 0x80 ==> (cu as u8) as u32 == cu) by (bit_vector);
            if (cu as u8) == b {
                char_u32_cast(c, cu);
                assert(cu == b as u32);
                assert(c == b as char);
            }
        } else {
            lemma_scalar_high_bytes(c as u32);
        }
        assert forall|j: int| 0 <= j < encode_utf8(t).len() implies encode_utf8(t)[j] != b by {
            if j < e.len() {
                assert(encode_utf8(t)[j] == e[j]);
            } else {
                assert(encode_utf8(t)[j] == encode_utf8(rest)[j - e.len()]);
            }
        }
    }
}


/// `char::is_whitespace`: the Unicode `White_Space` characters.
pub open spec fn is_ws(c: char) -> bool {
    ||| '\t' <= c <= '\r'
    ||| c == ' '
    ||| c == '\u{85}'
    ||| c == '\u{A0}'
    ||| c == '\u{1680}'
    ||| '\u{2000}' <= c <= '\u{200A}'
    ||| c == '\u{2028}'
    ||| c == '\u{2029}'
    ||| c == '\u{202F}'
    ||| c == '\u{205F}'
    ||| c == '\u{3000}'
}

/// True for a Unicode `White_Space` character.
pub fn is_whitespace(c: char) -> (r: bool)
    ensures
        r == is_ws(c),
{
    ('\t' <= c && c <= '\r') || c == ' ' || c == '\u{85}' || c == '\u{A0}' || c == '\u{1680}' || (
    '\u{2000}' <= c && c <= '\u{200A}') || c == '\u{2028}' || c == '\u{2029}' || c == '\u{202F}'
        || c == '\u{205F}' || c == '\u{3000}'
}

/// `cs` without its leading whitespace.
pub open spec fn trim_start(cs: Seq<char>) -> Seq<char>
    decreases cs.len(),
{
    if cs.len() > 0 && is_ws(cs[0]) {
        trim_start(cs.drop_first())
    } else {
        cs
    }
}

/// `cs` without its trailing whitespace.
pub open spec fn trim_end(cs: Seq<char>) -> Seq<char>
    decreases cs.len(),
{
    if cs.len() > 0 && is_ws(cs.last()) {
        trim_end(cs.drop_last())
    } else {
        cs
    }
}

/// `cs` without leading and trailing whitespace (`str::trim`).
pub open spec fn trim(cs: Seq<char>) -> Seq<char> {
    trim_end(trim_start(cs))
}

pub proof fn lemma_trim_start_at(cs: Seq<char>, a: int)
    requires
        0 <= a <= cs.len(),
        forall|j: int| 0 <= j < a ==> is_ws(#[trigger] cs[j]),
        a == cs.len() || !is_ws(cs[a]),
    ensures
        trim_start(cs) == cs.skip(a),
    decreases a,
{
    if a == 0 {
        assert(cs.skip(0) =~= cs);
    } else {
        let t = cs.drop_first();
        assert forall|j: int| 0 <= j < a - 1 implies is_ws(#[trigger] t[j]) by {
            assert(t[j] == cs[j + 1]);
        }
        lemma_trim_start_at(t, a - 1);
        assert(t.skip(a - 1) =~= cs.skip(a));
    }
}

pub proof fn lemma_trim_end_at(cs: Seq<char>, b: int)
    requires
        0 <= b <= cs.len(),
        forall|j: int| b <= j < cs.len() ==> is_ws(#[trigger] cs[j]),
        b == 0 || !is_ws(cs[b - 1]),
    ensures
        trim_end(cs) == cs.take(b),
    decreases cs.len() - b,
{
    if b == cs.len() {
        assert(cs.take(b) =~= cs);
    } else {
        let t = cs.drop_last();
        assert forall|j: int| b <= j < t.len() implies is_ws(#[trigger] t[j]) by {
            assert(t[j] == cs[j]);
        }
        if b > 0 {
            assert(t[b - 1] == cs[b - 1]);
        }
        lemma_trim_end_at(t, b);
        assert(t.take(b) =~= cs.take(b));
    }
}

/// The bounds `(a, b)` of `cs[from..to]` without leading and trailing whitespace.
pub fn trim_bounds(cs: &[char], from: usize, to: usize) -> (r: (usize, usize))
    requires
        from <= to <= cs@.len(),
    ensures
        from <= r.0 <= r.1 <= to,
        cs@.subrange(r.0 as int, r.1 as int) == trim(cs@.subrange(from as int, to as int)),
{
    let ghost sub = cs@.subrange(from as int, to as int);
    let mut a = from;
    while a < to && is_whitespace(cs[a])
        invariant
            from <= a <= to <= cs@.len(),
            forall|j: int| from <= j < a ==> is_ws(#[trigger] cs@[j]),
        decreases to - a,
    {
        a = a + 1;
    }
    proof {
        assert forall|j: int| 0 <= j < a - from implies is_ws(#[trigger] sub[j]) by {
            assert(sub[j] == cs@[from + j]);
        }
        lemma_trim_start_at(sub, a - from);
        assert(sub.skip(a - from) =~= cs@.subrange(a as int, to as int));
    }
    let mut b = to;
    while b > a && is_whitespace(cs[b - 1])
        invariant
            a <= b <= to <= cs@.len(),
            forall|j: int| b <= j < to ==> is_ws(#[trigger] cs@[j]),
        decreases b - a,
    {
        b = b - 1;
    }
    proof {
        let mid = cs@.subrange(a as int, to as int);
        assert forall|j: int| b - a <= j < mid.len() implies is_ws(#[trigger] mid[j]) by {
            assert(mid[j] == cs@[a + j]);
        }
        if b > a {
            assert(mid[b - a - 1] == cs@[b - 1]);
        }
        lemma_trim_end_at(mid, b - a);
        assert(mid.take(b - a) =~= cs@.subrange(a as int, b as int));
    }
    (a, b)
}

/// `l` without a final carriage return.
pub open spec fn strip_cr(l: Seq<char>) -> Seq<char> {
    if l.len() > 0 && l.last() == '\r' {
        l.drop_last()
    } else {
        l
    }
}

/// The first position at or after `from` that holds `c`.
#[verifier::opaque]
pub open spec fn find_char_from(cs: Seq<char>, from: int, c: char) -> Option<int> {
    if exists|k: int| from <= k < cs.len() && cs[k] == c {
        Some(choose|k: int| from <= k < cs.len() && cs[k] == c && forall|j: int| from <= j < k ==> cs[j] != c)
    } else {
        None
    }
}

pub proof fn lemma_find_char_is(cs: Seq<char>, from: int, c: char, k: int)
    requires
        from <= k < cs.len(),
        cs[k] == c,
        forall|j: int| from <= j < k ==> cs[j] != c,
    ensures
        find_char_from(cs, from, c) == Some(k),
{
    reveal(find_char_from);
    let w = choose|w: int| from <= w < cs.len() && cs[w] == c && forall|j: int| from <= j < w ==> cs[j] != c;
    if w < k {
    } else if w > k {
        assert(cs[k] != c);
    }
}

/// What `find_char_from` says of its result.
pub proof fn lemma_find_char_spec(cs: Seq<char>, from: int, c: char)
    ensures
        find_char_from(cs, from, c) matches Some(k) ==> from <= k < cs.len() && cs[k] == c
            && forall|j: int| from <= j < k ==> cs[j] != c,
        find_char_from(cs, from, c) is None ==> forall|j: int| from <= j < cs.len() ==> cs[j] != c,
{
    reveal(find_char_from);
    if exists|k: int| from <= k < cs.len() && cs[k] == c {
        let w = choose|k: int| from <= k < cs.len() && cs[k] == c;
        lemma_first_char(cs, from, c, w);
    }
}

proof fn lemma_first_char(cs: Seq<char>, from: int, c: char, w: int)
    requires
        from <= w < cs.len(),
        cs[w] == c,
    ensures
        exists|k: int| from <= k < cs.len() && cs[k] == c && forall|j: int| from <= j < k ==> cs[j] != c,
    decreases w - from,
{
    if exists|j: int| from <= j < w && cs[j] == c {
        let j = choose|j: int| from <= j < w && cs[j] == c;
        lemma_first_char(cs, from, c, j);
    } else {
        assert(from <= w < cs.len() && cs[w] == c && forall|j: int| from <= j < w ==> cs[j] != c);
    }
}

/// Finds the first `c` in `cs[from..to]`.
pub fn find_char(cs: &[char], from: usize, to: usize, c: char) -> (r: Option<usize>)
    requires
        from <= to <= cs@.len(),
    ensures
        match r {
            Some(k) => from <= k < to && cs@[k as int] == c && forall|j: int| from <= j < k ==> cs@[j] != c,
            None => forall|j: int| from <= j < to ==> cs@[j] != c,
        },
        r matches Some(k) ==> find_char_from(cs@.subrange(from as int, to as int), 0, c) == Some(k - from),
        r is None ==> find_char_from(cs@.subrange(from as int, to as int), 0, c) is None,
{
    let ghost sub = cs@.subrange(from as int, to as int);
    let mut i = from;
    while i < to
        invariant
            from <= i <= to <= cs@.len(),
            sub == cs@.subrange(from as int, to as int),
            forall|j: int| from <= j < i ==> cs@[j] != c,
        decreases to - i,
    {
        if cs[i] == c {
            proof {
                assert forall|j: int| 0 <= j < i - from implies sub[j] != c by {
                    assert(sub[j] == cs@[from + j]);
                }
                assert(sub[i - from] == cs@[i as int]);
                lemma_find_char_is(sub, 0, c, i - from);
            }
            return Some(i);
        }
        i = i + 1;
    }
    proof {
        assert forall|k: int| 0 <= k < sub.len() implies sub[k] != c by {
            assert(sub[k] == cs@[from + k]);
        }
        reveal(find_char_from);
    }
    None
}

/// The lines of a text (`str::lines`): split after each `\n`, which is
/// dropped together with a `\r` just before it; a final line ending does
/// not start another line.
pub open spec fn text_lines(cs: Seq<char>) -> Seq<Seq<char>>
    decreases cs.len(),
{
    if cs.len() == 0 {
        Seq::empty()
    } else {
        match find_char_from(cs, 0, '\n') {
            Some(k) => {
                proof {
                    lemma_find_char_spec(cs, 0, '\n');
                }
                seq![strip_cr(cs.take(k))] + text_lines(cs.skip(k + 1))
            },
            None => seq![cs],
        }
    }
}

proof fn lemma_text_lines_step(cs: Seq<char>, k: int)
    requires
        0 <= k < cs.len(),
        cs[k] == '\n',
        forall|j: int| 0 <= j < k ==> cs[j] != '\n',
    ensures
        text_lines(cs) == seq![strip_cr(cs.take(k))] + text_lines(cs.skip(k + 1)),
{
    lemma_find_char_is(cs, 0, '\n', k);
}

proof fn lemma_text_lines_last(cs: Seq<char>)
    requires
        cs.len() > 0,
        forall|j: int| 0 <= j < cs.len() ==> cs[j] != '\n',
    ensures
        text_lines(cs) == seq![cs],
{
    reveal(find_char_from);
}

/// The lines of `cs`, each as its bounds `(start, end)` in `cs`.
pub fn line_bounds(cs: &[char]) -> (r: Vec<(usize, usize)>)
    ensures
        r@.map_values(|b: (usize, usize)| cs@.subrange(b.0 as int, b.1 as int)) == text_lines(cs@),
        forall|i: int| 0 <= i < r@.len() ==> (#[trigger] r@[i]).0 <= r@[i].1 <= cs@.len(),
{
    let mut out: Vec<(usize, usize)> = Vec::new();
    let mut i: usize = 0;
    let ghost whole = cs@;
    assert(whole.skip(0) =~= whole);
    assert(out@.map_values(|b: (usize, usize)| cs@.subrange(b.0 as int, b.1 as int)) =~= Seq::<Seq<char>>::empty());
    while i < cs.len()
        invariant
            i <= cs@.len(),
            whole == cs@,
            text_lines(whole) == out@.map_values(|b: (usize, usize)| cs@.subrange(b.0 as int, b.1 as int))
                + text_lines(whole.skip(i as int)),
            forall|j: int| 0 <= j < out@.len() ==> (#[trigger] out@[j]).0 <= out@[j].1 <= cs@.len(),
        decreases cs@.len() - i,
    {
        let ghost rest = whole.skip(i as int);
        assert(cs@.subrange(i as int, cs@.len() as int) =~= rest);
        let ghost before = out@.map_values(|b: (usize, usize)| cs@.subrange(b.0 as int, b.1 as int));
        match find_char(cs, i, cs.len(), '\n') {
            Some(k) => {
                let mut end = k;
                if end > i && cs[end - 1] == '\r' {
                    end = end - 1;
                }
                proof {
                    assert forall|j: int| 0 <= j < k - i implies rest[j] != '\n' by {
                        assert(rest[j] == cs@[i + j]);
                    }
                    lemma_text_lines_step(rest, k - i);
                    assert(rest.take(k - i) =~= cs@.subrange(i as int, k as int));
                    assert(strip_cr(rest.take(k - i)) =~= cs@.subrange(i as int, end as int));
                    assert(rest.skip(k - i + 1) =~= whole.skip(k + 1));
                }
                out.push((i, end));
                assert(out@.map_values(|b: (usize, usize)| cs@.subrange(b.0 as int, b.1 as int)) =~= before.push(cs@.subrange(i as int, end as int)));
                assert(before + (seq![cs@.subrange(i as int, end as int)] + text_lines(whole.skip(k + 1))) =~= before.push(cs@.subrange(i as int, end as int)) + text_lines(whole.skip(k + 1)));
                i = k + 1;
            },
            None => {
                proof {
                    assert forall|j: int| 0 <= j < rest.len() implies rest[j] != '\n' by {
                        assert(rest[j] == cs@[i + j]);
                    }
                    lemma_text_lines_last(rest);
                }
                out.push((i, cs.len()));
                assert(out@.map_values(|b: (usize, usize)| cs@.subrange(b.0 as int, b.1 as int)) =~= before.push(rest));
                assert(whole.skip(cs@.len() as int) =~= Seq::<char>::empty());
                assert(text_lines(Seq::<char>::empty()) =~= Seq::<Seq<char>>::empty());
                assert(before + seq![rest] =~= before.push(rest) + Seq::<Seq<char>>::empty());
                i = cs.len();
            },
        }
    }
    assert(whole.skip(i as int) =~= Seq::<char>::empty());
    assert(text_lines(Seq::<char>::empty()) =~= Seq::<Seq<char>>::empty());
    assert(out@.map_values(|b: (usize, usize)| cs@.subrange(b.0 as int, b.1 as int)) + Seq::<Seq<char>>::empty() =~= out@.map_values(|b: (usize, usize)| cs@.subrange(b.0 as int, b.1 as int)));
    out
}

/// The ASCII lower-case form of a character.
pub open spec fn ascii_lower(c: char) -> char {
    if 'A' <= c <= 'Z' {
        ((c as u32) + 32) as char
    } else {
        c
    }
}

/// What `str::to_lowercase` makes of a text.
pub uninterp spec fn lowercase_text(s: Seq<char>) -> Seq<char>;

/// `str::to_lowercase`: the lower-case form of `s`, which for ASCII text
/// maps `A`..`Z` to `a`..`z` and keeps every other character (no clause
/// states the Unicode case mapping of other characters).
#[verifier::external_body]
pub(crate) fn to_lowercase(s: &str) -> (r: String)
    ensures
        r@ == lowercase_text(s@),
        is_ascii_chars(s@) ==> r@ == s@.map_values(|c: char| ascii_lower(c)),
{
    s.to_lowercase()
}


/// `cs` begins with `p`.
pub open spec fn starts_with(cs: Seq<char>, p: Seq<char>) -> bool {
    cs.len() >= p.len() && cs.take(p.len() as int) == p
}

/// True when `cs[from..to]` begins with `p`.
pub fn starts_with_at(cs: &[char], from: usize, to: usize, p: &[char]) -> (r: bool)
    requires
        from <= to <= cs@.len(),
    ensures
        r == starts_with(cs@.subrange(from as int, to as int), p@),
{
    let ghost sub = cs@.subrange(from as int, to as int);
    if to - from < p.len() {
        return false;
    }
    let mut i: usize = 0;
    while i < p.len()
        invariant
            i <= p@.len(),
            from + p@.len() <= to <= cs@.len(),
            sub == cs@.subrange(from as int, to as int),
            forall|j: int| 0 <= j < i ==> cs@[from + j] == p@[j],
        decreases p@.len() - i,
    {
        if cs[from + i] != p[i] {
            assert(sub.take(p@.len() as int)[i as int] != p@[i as int]);
            return false;
        }
        i = i + 1;
    }
    assert(sub.take(p@.len() as int) =~= p@);
    true
}

/// True when the two character sequences are equal.
pub fn chars_eq(a: &[char], b: &[char]) -> (r: bool)
    ensures
        r == (a@ == b@),
{
    if a.len() != b.len() {
        return false;
    }
    let mut i: usize = 0;
    while i < a.len()
        invariant
            i <= a@.len(),
            a@.len() == b@.len(),
            forall|j: int| 0 <= j < i ==> a@[j] == b@[j],
        decreases a@.len() - i,
    {
        if a[i] != b[i] {
            return false;
        }
        i = i + 1;
    }
    assert(a@ =~= b@);
    true
}

/// Appends characters.
pub fn push_chars(out: &mut Vec<char>, src: &[char])
    ensures
        final(out)@ == old(out)@ + src@,
{
    let ghost start = out@;
    let mut i: usize = 0;
    while i < src.len()
        invariant
            i <= src@.len(),
            out@ == start + src@.take(i as int),
        decreases src@.len() - i,
    {
        out.push(src[i]);
        i = i + 1;
        assert(out@ =~= start + src@.take(i as int));
    }
    assert(src@.take(i as int) =~= src@);
}

/// The lines of a text as character vectors.
pub fn lines_of(cs: &[char]) -> (r: Vec<Vec<char>>)
    ensures
        r@.map_values(|l: Vec<char>| l@) == text_lines(cs@),
{
    let bounds = line_bounds(cs);
    let mut out: Vec<Vec<char>> = Vec::new();
    let mut i: usize = 0;
    while i < bounds.len()
        invariant
            i <= bounds@.len(),
            forall|j: int| 0 <= j < bounds@.len() ==> (#[trigger] bounds@[j]).0 <= bounds@[j].1 <= cs@.len(),
            out@.map_values(|l: Vec<char>| l@) == bounds@.map_values(
                |b: (usize, usize)| cs@.subrange(b.0 as int, b.1 as int),
            ).take(i as int),
        decreases bounds@.len() - i,
    {
        let (a, b) = bounds[i];
        assert(bounds@[i as int] == (a, b));
        let mut l: Vec<char> = Vec::new();
        push_chars(&mut l, &cs[a..b]);
        let ghost before = out@;
        let ghost lv = l@;
        assert(lv == cs@.subrange(a as int, b as int));
        out.push(l);
        assert(out@.map_values(|l: Vec<char>| l@) =~= before.map_values(|l: Vec<char>| l@).push(lv));
        assert(bounds@.map_values(|b: (usize, usize)| cs@.subrange(b.0 as int, b.1 as int))[i as int] == lv);
        assert(out@.map_values(|l: Vec<char>| l@) =~= bounds@.map_values(
            |b: (usize, usize)| cs@.subrange(b.0 as int, b.1 as int),
        ).take(i + 1));
        i = i + 1;
    }
    assert(bounds@.map_values(|b: (usize, usize)| cs@.subrange(b.0 as int, b.1 as int)).take(i as int) =~= bounds@.map_values(|b: (usize, usize)| cs@.subrange(b.0 as int, b.1 as int)));
    out
}


/// Where `cs[from..to]` stops being whitespace.
pub fn trim_start_index(cs: &[char], from: usize, to: usize) -> (r: usize)
    requires
        from <= to <= cs@.len(),
    ensures
        from <= r <= to,
        cs@.subrange(r as int, to as int) == trim_start(cs@.subrange(from as int, to as int)),
{
    let ghost sub = cs@.subrange(from as int, to as int);
    let mut a = from;
    while a < to && is_whitespace(cs[a])
        invariant
            from <= a <= to <= cs@.len(),
            forall|j: int| from <= j < a ==> is_ws(#[trigger] cs@[j]),
        decreases to - a,
    {
        a = a + 1;
    }
    proof {
        assert forall|j: int| 0 <= j < a - from implies is_ws(#[trigger] sub[j]) by {
            assert(sub[j] == cs@[from + j]);
        }
        lemma_trim_start_at(sub, a - from);
        assert(sub.skip(a - from) =~= cs@.subrange(a as int, to as int));
    }
    a
}

/// `cs` holds `p` somewhere.
pub open spec fn contains_text(cs: Seq<char>, p: Seq<char>) -> bool {
    exists|i: int| 0 <= i <= cs.len() - p.len() && #[trigger] cs.subrange(i, i + p.len()) == p
}

/// True when `cs` holds `p` somewhere.
pub fn contains_chars(cs: &[char], p: &[char]) -> (r: bool)
    ensures
        r == contains_text(cs@, p@),
{
    if p.len() > cs.len() {
        return false;
    }
    if p.len() == 0 {
        assert(cs@.subrange(0, 0 + p@.len() as int) =~= p@);
        assert(0 <= 0 <= cs@.len() - p@.len());
        return true;
    }
    let mut i: usize = 0;
    while i <= cs.len() - p.len()
        invariant
            0 < p@.len() <= cs@.len(),
            i <= cs@.len() - p@.len() + 1,
            forall|j: int| 0 <= j < i ==> #[trigger] cs@.subrange(j, j + p@.len()) != p@,
        decreases cs@.len() - p@.len() + 1 - i,
    {
        if starts_with_at(cs, i, cs.len(), p) {
            assert(cs@.subrange(i as int, cs@.len() as int).take(p@.len() as int) =~= cs@.subrange(
                i as int,
                i + p@.len(),
            ));
            return true;
        }
        assert(cs@.subrange(i as int, cs@.len() as int).take(p@.len() as int) =~= cs@.subrange(
            i as int,
            i + p@.len(),
        ));
        i = i + 1;
    }
    false
}

/// The lines joined with `\n` between them.
pub open spec fn join_lines(ls: Seq<Seq<char>>) -> Seq<char>
    decreases ls.len(),
{
    if ls.len() == 0 {
        Seq::empty()
    } else if ls.len() == 1 {
        ls[0]
    } else {
        join_lines(ls.drop_last()) + seq!['\n'] + ls.last()
    }
}

/// Joins lines with `\n` between them.
pub fn join_line_vecs(ls: &Vec<Vec<char>>) -> (r: Vec<char>)
    ensures
        r@ == join_lines(ls@.map_values(|l: Vec<char>| l@)),
{
    let ghost lv = ls@.map_values(|l: Vec<char>| l@);
    let mut out: Vec<char> = Vec::new();
    let mut i: usize = 0;
    assert(lv.take(0) =~= Seq::<Seq<char>>::empty());
    while i < ls.len()
        invariant
            i <= ls@.len(),
            lv == ls@.map_values(|l: Vec<char>| l@),
            out@ == join_lines(lv.take(i as int)),
        decreases ls@.len() - i,
    {
        assert(lv[i as int] == ls@[i as int]@);
        assert(lv.take(i + 1).drop_last() =~= lv.take(i as int));
        assert(lv.take(i + 1).last() == lv[i as int]);
        if i > 0 {
            out.push('\n');
        }
        push_chars(&mut out, ls[i].as_slice());
        if i == 0 {
            assert(out@ =~= join_lines(lv.take(1)));
        }
        i = i + 1;
    }
    assert(lv.take(i as int) =~= lv);
    out
}

/// The text after the first `n` bytes of the UTF-8 form of `s`, when `n`
/// falls on a character boundary (where slicing `&s[n..]` succeeds).
pub open spec fn byte_suffix(s: Seq<char>, n: int) -> Option<Seq<char>> {
    let b = encode_utf8(s);
    if is_char_boundary(b, n) {
        Some(decode_utf8(b.subrange(n, b.len() as int)))
    } else {
        None
    }
}

/// The text of the first `n` bytes of the UTF-8 form of `s`, when `n` falls
/// on a character boundary (where slicing `&s[..n]` succeeds).
pub open spec fn byte_prefix(s: Seq<char>, n: int) -> Option<Seq<char>> {
    let b = encode_utf8(s);
    if is_char_boundary(b, n) {
        Some(decode_utf8(b.subrange(0, n)))
    } else {
        None
    }
}

/// `&s[n..]` as a string; `None` where that slice would panic.
pub fn suffix_from(s: &str, n: usize) -> (r: Option<String>)
    ensures
        r is Some <==> byte_suffix(s@, n as int) is Some,
        r matches Some(t) ==> byte_suffix(s@, n as int) == Some(t@),
{
    proof {
        encode_utf8_valid_utf8(s@);
    }
    if s.is_char_boundary(n) {
        let (_a, b) = s.split_at(n);
        proof {
            encode_utf8_decode_utf8(b@);
        }
        Some(b.to_owned())
    } else {
        None
    }
}

/// `&s[..n]` as a string; `None` where that slice would panic.
pub fn prefix_to(s: &str, n: usize) -> (r: Option<String>)
    ensures
        r is Some <==> byte_prefix(s@, n as int) is Some,
        r matches Some(t) ==> byte_prefix(s@, n as int) == Some(t@),
{
    proof {
        encode_utf8_valid_utf8(s@);
    }
    if s.is_char_boundary(n) {
        let (a, _b) = s.split_at(n);
        proof {
            encode_utf8_decode_utf8(a@);
        }
        Some(a.to_owned())
    } else {
        None
    }
}

/// Whitespace around a text without surrounding whitespace is what `trim`
/// takes away.
pub proof fn lemma_trim_padded(pre: Seq<char>, s: Seq<char>, post: Seq<char>)
    requires
        trim(s) == s,
        forall|i: int| 0 <= i < pre.len() ==> is_ws(#[trigger] pre[i]),
        forall|i: int| 0 <= i < post.len() ==> is_ws(#[trigger] post[i]),
    ensures
        trim(pre + s + post) == s,
{
    let all = pre + s + post;
    lemma_trim_shape(s);
    if s.len() == 0 {
        lemma_trim_start_at(all, all.len() as int);
        assert(all.skip(all.len() as int) =~= Seq::<char>::empty());
    } else {
        assert(all[pre.len() as int] == s[0]);
        lemma_trim_start_at(all, pre.len() as int);
        let rest = all.skip(pre.len() as int);
        assert(rest =~= s + post);
        assert(rest[s.len() - 1] == s.last());
        lemma_trim_end_at(rest, s.len() as int);
        assert(rest.take(s.len() as int) =~= s);
    }
}

/// A text that `trim` leaves alone starts and ends with a character that
/// is not whitespace.
pub proof fn lemma_trim_shape(s: Seq<char>)
    requires
        trim(s) == s,
    ensures
        s.len() > 0 ==> !is_ws(s[0]) && !is_ws(s.last()),
{
    if s.len() > 0 {
        lemma_trim_start_len(s);
        lemma_trim_end_len(trim_start(s));
        if is_ws(s[0]) {
            assert(trim_start(s) == trim_start(s.drop_first()));
            lemma_trim_start_len(s.drop_first());
            assert(false);
        }
        assert(trim_start(s) == s);
        if is_ws(s.last()) {
            assert(trim_end(s) == trim_end(s.drop_last()));
            lemma_trim_end_len(s.drop_last());
            assert(false);
        }
    }
}

proof fn lemma_trim_start_len(s: Seq<char>)
    ensures
        trim_start(s).len() <= s.len(),
    decreases s.len(),
{
    if s.len() > 0 && is_ws(s[0]) {
        lemma_trim_start_len(s.drop_first());
    }
}

proof fn lemma_trim_end_len(s: Seq<char>)
    ensures
        trim_end(s).len() <= s.len(),
    decreases s.len(),
{
    if s.len() > 0 && is_ws(s.last()) {
        lemma_trim_end_len(s.drop_last());
    }
}

/// A text with no `\n`.
pub open spec fn no_newline(l: Seq<char>) -> bool {
    forall|i: int| 0 <= i < l.len() ==> l[i] != '\n'
}

/// No line of a text holds a `\n`.
pub proof fn lemma_text_lines_no_newline(cs: Seq<char>)
    ensures
        forall|i: int| 0 <= i < text_lines(cs).len() ==> no_newline(#[trigger] text_lines(cs)[i]),
    decreases cs.len(),
{
    if cs.len() > 0 {
        lemma_find_char_spec(cs, 0, '\n');
        match find_char_from(cs, 0, '\n') {
            Some(k) => {
                let rest = cs.skip(k + 1);
                lemma_text_lines_no_newline(rest);
                let first = strip_cr(cs.take(k));
                assert(no_newline(first));
                let ls = text_lines(cs);
                assert(ls == seq![first] + text_lines(rest));
                assert forall|i: int| 0 <= i < ls.len() implies no_newline(#[trigger] ls[i]) by {
                    if i > 0 {
                        assert(ls[i] == text_lines(rest)[i - 1]);
                    }
                }
            },
            None => {},
        }
    }
}

/// A line without `\n`, a `\n` and more text: the line (without a final
/// `\r`) comes first among the lines.
pub proof fn lemma_lines_cons(x: Seq<char>, rest: Seq<char>)
    requires
        no_newline(x),
    ensures
        text_lines(x + seq!['\n'] + rest) == seq![strip_cr(x)] + text_lines(rest),
{
    let cs = x + seq!['\n'] + rest;
    assert(cs[x.len() as int] == '\n');
    assert forall|j: int| 0 <= j < x.len() implies cs[j] != '\n' by {
        assert(cs[j] == x[j]);
    }
    lemma_find_char_is(cs, 0, '\n', x.len() as int);
    assert(cs.take(x.len() as int) =~= x);
    assert(cs.skip(x.len() as int + 1) =~= rest);
}

/// Lines joined with `\n` start with the first line and a `\n`.
pub proof fn lemma_join_first(ls: Seq<Seq<char>>)
    requires
        ls.len() >= 2,
    ensures
        join_lines(ls) == ls[0] + seq!['\n'] + join_lines(ls.drop_first()),
    decreases ls.len(),
{
    if ls.len() == 2 {
        assert(ls.drop_last() =~= seq![ls[0]]);
        assert(ls.drop_first() =~= seq![ls[1]]);
        assert(join_lines(seq![ls[0]]) == ls[0]);
        assert(join_lines(seq![ls[1]]) == ls[1]);
        assert(join_lines(ls) == join_lines(ls.drop_last()) + seq!['\n'] + ls.last());
    } else {
        lemma_join_first(ls.drop_last());
        let d = ls.drop_first();
        assert(ls.drop_last().drop_first() =~= d.drop_last());
        assert(d.last() == ls.last());
        assert(ls.drop_last()[0] == ls[0]);
        assert(join_lines(d) == join_lines(d.drop_last()) + seq!['\n'] + d.last());
        assert(join_lines(ls) == join_lines(ls.drop_last()) + seq!['\n'] + ls.last());
        assert(join_lines(ls) =~= ls[0] + seq!['\n'] + join_lines(d));
    }
}

/// Lines without `\n`, joined and ended with a newline, read back as the
/// same lines, each without a final `\r`.
pub proof fn lemma_lines_of_joined(ls: Seq<Seq<char>>)
    requires
        ls.len() >= 1,
        forall|i: int| 0 <= i < ls.len() ==> no_newline(#[trigger] ls[i]),
    ensures
        text_lines(join_lines(ls) + seq!['\n']) == ls.map_values(|l: Seq<char>| strip_cr(l)),
    decreases ls.len(),
{
    if ls.len() == 1 {
        assert(no_newline(ls[0]));
        lemma_lines_cons(ls[0], Seq::empty());
        assert(ls[0] + seq!['\n'] + Seq::<char>::empty() =~= join_lines(ls) + seq!['\n']);
        assert(text_lines(Seq::<char>::empty()) =~= Seq::<Seq<char>>::empty());
        assert(seq![strip_cr(ls[0])] + Seq::<Seq<char>>::empty() =~= ls.map_values(|l: Seq<char>| strip_cr(l)));
    } else {
        let rest = ls.drop_first();
        assert forall|i: int| 0 <= i < rest.len() implies no_newline(#[trigger] rest[i]) by {
            assert(rest[i] == ls[i + 1]);
        }
        lemma_lines_of_joined(rest);
        lemma_join_first(ls);
        assert(no_newline(ls[0]));
        lemma_lines_cons(ls[0], join_lines(rest) + seq!['\n']);
        assert(ls[0] + seq!['\n'] + (join_lines(rest) + seq!['\n']) =~= join_lines(ls) + seq!['\n']);
        assert(seq![strip_cr(ls[0])] + rest.map_values(|l: Seq<char>| strip_cr(l)) =~= ls.map_values(
            |l: Seq<char>| strip_cr(l),
        ));
    }
}

/// Trimming ignores a whitespace character added at the end.
pub proof fn lemma_trim_push_ws(s: Seq<char>, w: char)
    requires
        is_ws(w),
    ensures
        trim(s.push(w)) == trim(s),
{
    lemma_trim_start_push(s, w);
    let t = trim_start(s);
    if t.len() > 0 {
        assert(t.push(w).drop_last() =~= t);
    }
}

proof fn lemma_trim_start_push(s: Seq<char>, w: char)
    requires
        is_ws(w),
    ensures
        trim_start(s.push(w)) == if trim_start(s).len() == 0 {
            Seq::<char>::empty()
        } else {
            trim_start(s).push(w)
        },
    decreases s.len(),
{
    let sp = s.push(w);
    assert(sp[0] == if s.len() == 0 { w } else { s[0] });
    if s.len() == 0 {
        assert(sp.drop_first() =~= Seq::<char>::empty());
        assert(trim_start(sp) == trim_start(sp.drop_first()));
        assert(trim_start(Seq::<char>::empty()) == Seq::<char>::empty());
    } else if is_ws(s[0]) {
        assert(sp.drop_first() =~= s.drop_first().push(w));
        lemma_trim_start_push(s.drop_first(), w);
        assert(trim_start(sp) == trim_start(sp.drop_first()));
        assert(trim_start(s) == trim_start(s.drop_first()));
    } else {
        assert(trim_start(sp) == sp);
        assert(trim_start(s) == s);
    }
}

/// Trimming ignores a final `\r`.
pub proof fn lemma_trim_strip_cr(l: Seq<char>)
    ensures
        trim(strip_cr(l)) == trim(l),
{
    if l.len() > 0 && l.last() == '\r' {
        assert(l.drop_last().push('\r') =~= l);
        lemma_trim_push_ws(l.drop_last(), '\r');
    }
}

/// Lines, each followed by `\n`.
pub open spec fn lines_text(ls: Seq<Seq<char>>) -> Seq<char>
    decreases ls.len(),
{
    if ls.len() == 0 {
        Seq::empty()
    } else {
        ls[0] + seq!['\n'] + lines_text(ls.drop_first())
    }
}

/// A line that `text_lines` gives back as it is: no `\n`, no final `\r`.
pub open spec fn plain_line(l: Seq<char>) -> bool {
    no_newline(l) && !(l.len() > 0 && l.last() == '\r')
}

/// Plain lines, each followed by `\n`, then more text: the lines come first.
pub proof fn lemma_lines_prefix(ls: Seq<Seq<char>>, rest: Seq<char>)
    requires
        forall|i: int| 0 <= i < ls.len() ==> plain_line(#[trigger] ls[i]),
    ensures
        text_lines(lines_text(ls) + rest) == ls + text_lines(rest),
    decreases ls.len(),
{
    if ls.len() == 0 {
        assert(lines_text(ls) + rest =~= rest);
        assert(ls + text_lines(rest) =~= text_lines(rest));
    } else {
        let t = ls.drop_first();
        assert forall|i: int| 0 <= i < t.len() implies plain_line(#[trigger] t[i]) by {
            assert(t[i] == ls[i + 1]);
        }
        lemma_lines_prefix(t, rest);
        assert(plain_line(ls[0]));
        assert(lines_text(ls) + rest =~= ls[0] + seq!['\n'] + (lines_text(t) + rest));
        lemma_lines_cons(ls[0], lines_text(t) + rest);
        assert(seq![ls[0]] + (t + text_lines(rest)) =~= ls + text_lines(rest));
    }
}

/// Every `\r` of `m` is followed by a character other than `\n`.
pub open spec fn no_cr_line_end(m: Seq<char>) -> bool {
    forall|i: int| 0 <= i < m.len() && #[trigger] m[i] == '\r' ==> i + 1 < m.len() && m[i + 1] != '\n'
}

/// A text ended with a newline reads back, joined again, as the text,
/// when no line of it ends with `\r`.
pub proof fn lemma_join_lines_of(m: Seq<char>)
    requires
        no_cr_line_end(m),
    ensures
        join_lines(text_lines(m + seq!['\n'])) == m,
    decreases m.len(),
{
    lemma_find_char_spec(m, 0, '\n');
    match find_char_from(m, 0, '\n') {
        None => {
            lemma_lines_cons(m, Seq::empty());
            assert(m + seq!['\n'] + Seq::<char>::empty() =~= m + seq!['\n']);
            assert(text_lines(Seq::<char>::empty()) =~= Seq::<Seq<char>>::empty());
            if m.len() > 0 && m.last() == '\r' {
                assert(m[m.len() - 1] == '\r');
            }
            assert(seq![strip_cr(m)] + Seq::<Seq<char>>::empty() =~= seq![m]);
        },
        Some(k) => {
            let a = m.take(k);
            let b = m.skip(k + 1);
            assert(m =~= a + seq!['\n'] + b);
            assert(no_newline(a));
            assert(no_cr_line_end(b)) by {
                assert forall|i: int| 0 <= i < b.len() && #[trigger] b[i] == '\r' implies i + 1 < b.len()
                    && b[i + 1] != '\n' by {
                    assert(b[i] == m[k + 1 + i]);
                    assert(m[k + 1 + i + 1] == b[i + 1]);
                }
            }
            lemma_join_lines_of(b);
            assert(m + seq!['\n'] =~= a + seq!['\n'] + (b + seq!['\n']));
            lemma_lines_cons(a, b + seq!['\n']);
            if a.len() > 0 && a.last() == '\r' {
                assert(m[k - 1] == '\r');
            }
            assert(strip_cr(a) == a);
            let rest = text_lines(b + seq!['\n']);
            lemma_lines_cons_nonempty(b);
            let all = seq![a] + rest;
            lemma_join_first(all);
            assert(all[0] == a);
            assert(all.drop_first() =~= rest);
        },
    }
}

proof fn lemma_lines_cons_nonempty(b: Seq<char>)
    ensures
        text_lines(b + seq!['\n']).len() >= 1,
{
    let cs = b + seq!['\n'];
    lemma_find_char_spec(cs, 0, '\n');
    assert(cs[b.len() as int] == '\n');
}

/// The lines of a text that is empty or ends with `\n`, followed by more
/// text: its lines, then those of the rest.
pub proof fn lemma_text_lines_concat(a: Seq<char>, b: Seq<char>)
    requires
        a.len() == 0 || a.last() == '\n',
    ensures
        text_lines(a + b) == text_lines(a) + text_lines(b),
    decreases a.len(),
{
    if a.len() == 0 {
        assert(a + b =~= b);
        assert(text_lines(a) =~= Seq::<Seq<char>>::empty());
        assert(Seq::<Seq<char>>::empty() + text_lines(b) =~= text_lines(b));
    } else {
        lemma_find_char_spec(a, 0, '\n');
        assert(a[a.len() - 1] == '\n');
        let k = find_char_from(a, 0, '\n').unwrap();
        let x = a.take(k);
        let r = a.skip(k + 1);
        assert(no_newline(x));
        assert(a =~= x + seq!['\n'] + r);
        assert(a + b =~= x + seq!['\n'] + (r + b));
        lemma_lines_cons(x, r);
        lemma_lines_cons(x, r + b);
        if r.len() > 0 {
            assert(r.last() == a.last());
        }
        lemma_text_lines_concat(r, b);
        assert(seq![strip_cr(x)] + (text_lines(r) + text_lines(b)) =~= (seq![strip_cr(x)] + text_lines(r))
            + text_lines(b));
    }
}

/// Each line of a text is a piece of it.
pub proof fn lemma_line_within(s: Seq<char>, i: int)
    requires
        0 <= i < text_lines(s).len(),
    ensures
        exists|o: int| 0 <= o && o + text_lines(s)[i].len() <= s.len() && #[trigger] s.subrange(
            o,
            o + text_lines(s)[i].len(),
        ) == text_lines(s)[i],
    decreases s.len(),
{
    lemma_find_char_spec(s, 0, '\n');
    match find_char_from(s, 0, '\n') {
        None => {
            assert(text_lines(s)[i] == s);
            assert(s.subrange(0, 0 + s.len() as int) =~= s);
        },
        Some(k) => {
            let x = s.take(k);
            let r = s.skip(k + 1);
            let l = text_lines(s)[i];
            if i == 0 {
                assert(l == strip_cr(x));
                assert(s.subrange(0, 0 + l.len() as int) =~= l);
            } else {
                assert(l == text_lines(r)[i - 1]);
                lemma_line_within(r, i - 1);
                let o = choose|o: int| 0 <= o && o + l.len() <= r.len() && #[trigger] r.subrange(o, o + l.len()) == l;
                assert(s.subrange(k + 1 + o, k + 1 + o + l.len()) =~= r.subrange(o, o + l.len()));
            }
        },
    }
}

/// `trim` gives a piece of its text.
pub proof fn lemma_trim_within(l: Seq<char>)
    ensures
        exists|a: int, b: int| 0 <= a <= b <= l.len() && trim(l) == #[trigger] l.subrange(a, b),
{
    let a = lemma_trim_start_offset(l);
    let t = trim_start(l);
    let b = lemma_trim_end_offset(t);
    assert(trim(l) =~= l.subrange(a, a + b));
}

proof fn lemma_trim_start_offset(l: Seq<char>) -> (a: int)
    ensures
        0 <= a <= l.len(),
        trim_start(l) == l.skip(a),
    decreases l.len(),
{
    if l.len() > 0 && is_ws(l[0]) {
        let a = lemma_trim_start_offset(l.drop_first());
        assert(l.drop_first().skip(a) =~= l.skip(a + 1));
        a + 1
    } else {
        assert(l.skip(0) =~= l);
        0
    }
}

proof fn lemma_trim_end_offset(l: Seq<char>) -> (b: int)
    ensures
        0 <= b <= l.len(),
        trim_end(l) == l.take(b),
    decreases l.len(),
{
    if l.len() > 0 && is_ws(l.last()) {
        let b = lemma_trim_end_offset(l.drop_last());
        assert(l.drop_last().take(b) =~= l.take(b));
        b
    } else {
        assert(l.take(l.len() as int) =~= l);
        l.len() as int
    }
}

} // verus!
