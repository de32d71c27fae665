//! Configuration text: reading `key = value` entries under `[section]`
//! headers, finding a remote's URL and editing a value in place.

use crate::text::{
    chars_eq, chars_of, contains_chars, contains_text, find_char, find_char_from, is_ws,
    join_line_vecs, join_lines, lines_of, lowercase_text, push_chars, starts_with, starts_with_at,
    string_of, text_lines, to_lowercase, trim, trim_bounds, trim_start, trim_start_index, no_newline,
    strip_cr, lemma_trim_strip_cr, lemma_text_lines_no_newline, lemma_lines_of_joined,
    lemma_trim_start_at, lemma_trim_end_at, lemma_trim_shape, lemma_trim_padded, lemma_find_char_spec,
    lemma_find_char_is, lines_text, plain_line, lemma_lines_prefix, lemma_text_lines_concat,
    lemma_line_within, lemma_trim_within,
};
use vstd::prelude::*;

verus! {

broadcast use vstd::string::group_string_axioms;

/// A trimmed line that is a section header: `[` ... `]`.
pub open spec fn is_header(t: Seq<char>) -> bool {
    t.len() > 0 && t[0] == '[' && t.last() == ']'
}

/// The key prefix of a section header's text: `section "sub"` gives
/// `section.sub`; any other text is its own prefix.
pub open spec fn section_key(h: Seq<char>) -> Seq<char> {
    match find_char_from(h, 0, ' ') {
        Some(p) => if h.len() >= p + 3 && h[p + 1] == '"' && h.last() == '"' {
            h.take(p) + seq!['.'] + h.subrange(p + 2, h.len() - 1)
        } else {
            h
        },
        None => h,
    }
}

/// The index of the last `c` in `cs`.
pub open spec fn last_char_at(cs: Seq<char>, c: char) -> Option<int>
    decreases cs.len(),
{
    if cs.len() == 0 {
        None
    } else if cs.last() == c {
        Some(cs.len() - 1)
    } else {
        last_char_at(cs.drop_last(), c)
    }
}

proof fn lemma_last_char_at(cs: Seq<char>, c: char)
    ensures
        last_char_at(cs, c) matches Some(l) ==> 0 <= l < cs.len() && cs[l] == c && forall|j: int|
            l < j < cs.len() ==> cs[j] != c,
        last_char_at(cs, c) is None ==> forall|j: int| 0 <= j < cs.len() ==> cs[j] != c,
    decreases cs.len(),
{
    if cs.len() > 0 && cs.last() != c {
        lemma_last_char_at(cs.drop_last(), c);
        assert forall|j: int| 0 <= j < cs.len() - 1 implies cs.drop_last()[j] == cs[j] by {}
    }
}

/// Finds the last `c` in `cs`.
fn find_last_char(cs: &[char], c: char) -> (r: Option<usize>)
    ensures
        r matches Some(l) ==> last_char_at(cs@, c) == Some(l as int),
        r is None ==> last_char_at(cs@, c) is None,
{
    let mut i = cs.len();
    assert(cs@.take(i as int) =~= cs@);
    while i > 0
        invariant
            i <= cs@.len(),
            last_char_at(cs@, c) == last_char_at(cs@.take(i as int), c),
        decreases i,
    {
        if cs[i - 1] == c {
            return Some(i - 1);
        }
        assert(cs@.take(i as int).drop_last() =~= cs@.take(i - 1));
        i = i - 1;
    }
    None
}

/// The key prefix of a section header's text (see `section_key`).
fn section_key_of(h: &[char]) -> (r: Vec<char>)
    ensures
        r@ == section_key(h@),
        r@.len() == 0 <==> h@.len() == 0,
{
    let mut r: Vec<char> = Vec::new();
    assert(h@.subrange(0, h@.len() as int) =~= h@);
    match find_char(h, 0, h.len(), ' ') {
        Some(p) => {
            if h.len() - p >= 3 && h[p + 1] == '"' && h[h.len() - 1] == '"' {
                push_chars(&mut r, &h[0..p]);
                r.push('.');
                push_chars(&mut r, &h[p + 2..h.len() - 1]);
                assert(r@ =~= h@.take(p as int) + seq!['.'] + h@.subrange(p + 2, h@.len() - 1));
            } else {
                push_chars(&mut r, h);
            }
        },
        None => {
            push_chars(&mut r, h);
        },
    }
    r
}

/// What one line does to the reading of a configuration: a header sets the
/// current section; a `key = value` line yields the pair, the key prefixed
/// with the section's key prefix and a dot and put in lower case; blank
/// lines, lines starting with `#` or `;`, and lines without `=` yield
/// nothing.
pub open spec fn config_line(section: Seq<char>, line: Seq<char>) -> (Seq<char>, Option<(Seq<char>, Seq<char>)>) {
    let t = trim(line);
    if t.len() == 0 || t[0] == '#' || t[0] == ';' {
        (section, None)
    } else if is_header(t) {
        (t.subrange(1, t.len() - 1), None)
    } else {
        match find_char_from(t, 0, '=') {
            None => (section, None),
            Some(p) => {
                let key = trim(t.take(p));
                let value = trim(t.skip(p + 1));
                let full = if section.len() == 0 {
                    key
                } else {
                    section_key(section) + seq!['.'] + key
                };
                (section, Some((lowercase_text(full), value)))
            },
        }
    }
}

/// The pairs that lines yield, read from the given section on.
pub open spec fn config_pairs_from(section: Seq<char>, lines: Seq<Seq<char>>) -> Seq<(Seq<char>, Seq<char>)>
    decreases lines.len(),
{
    if lines.len() == 0 {
        Seq::empty()
    } else {
        let (s2, p) = config_line(section, lines[0]);
        let here = match p {
            Some(x) => seq![x],
            None => Seq::empty(),
        };
        here + config_pairs_from(s2, lines.drop_first())
    }
}

/// The pairs that a configuration text yields, in order.
pub open spec fn config_pairs(content: Seq<char>) -> Seq<(Seq<char>, Seq<char>)> {
    config_pairs_from(Seq::empty(), text_lines(content))
}

/// The value of the last pair with key `key`.
pub open spec fn config_lookup(ps: Seq<(Seq<char>, Seq<char>)>, key: Seq<char>) -> Option<Seq<char>>
    decreases ps.len(),
{
    if ps.len() == 0 {
        None
    } else if ps.last().0 == key {
        Some(ps.last().1)
    } else {
        config_lookup(ps.drop_last(), key)
    }
}

/// Configuration values, as read from configuration texts in order (a
/// later value for a key overrides an earlier one).
pub struct GitConfig {
    entries: Vec<(String, String)>,
}

impl View for GitConfig {
    type V = Seq<(Seq<char>, Seq<char>)>;

    closed spec fn view(&self) -> Seq<(Seq<char>, Seq<char>)> {
        self.entries@.map_values(|e: (String, String)| (e.0@, e.1@))
    }
}

impl GitConfig {
    /// A configuration with no values.
    pub fn new() -> (r: GitConfig)
        ensures
            r@ == Seq::<(Seq<char>, Seq<char>)>::empty(),
    {
        let r = GitConfig { entries: Vec::new() };
        assert(r@ =~= Seq::<(Seq<char>, Seq<char>)>::empty());
        r
    }

    /// Adds the values of a configuration text, after those already read.
    pub fn load_str(&mut self, content: &str)
        ensures
            final(self)@ == old(self)@ + config_pairs(content@),
    {
        let cs = chars_of(content);
        let lines = lines_of(cs.as_slice());
        let ghost lv = lines@.map_values(|l: Vec<char>| l@);
        let ghost start = self@;
        let mut section: Vec<char> = Vec::new();
        let mut k: usize = 0;
        assert(lv.skip(0) =~= lv);
        assert(start + Seq::<(Seq<char>, Seq<char>)>::empty() =~= start);
        while k < lines.len()
            invariant
                k <= lines@.len(),
                lv == lines@.map_values(|l: Vec<char>| l@),
                lv == text_lines(content@),
                start + config_pairs_from(Seq::empty(), lv) == self@ + config_pairs_from(section@, lv.skip(k as int)),
            decreases lines@.len() - k,
        {
            let line = &lines[k];
            assert(lv[k as int] == line@);
            assert(lv.skip(k as int).drop_first() =~= lv.skip(k + 1));
            assert(lv.skip(k as int)[0] == line@);
            let ghost before = self@;
            let ghost old_section = section@;
            let (a, b) = trim_bounds(line.as_slice(), 0, line.len());
            assert(line@.subrange(0, line@.len() as int) =~= line@);
            let ghost t = line@.subrange(a as int, b as int);
            if a == b || line[a] == '#' || line[a] == ';' {
                assert(config_line(old_section, line@) == (old_section, None::<(Seq<char>, Seq<char>)>));
                assert(Seq::<(Seq<char>, Seq<char>)>::empty() + config_pairs_from(old_section, lv.skip(k + 1)) =~= config_pairs_from(old_section, lv.skip(k + 1)));
            } else if line[a] == '[' && line[b - 1] == ']' {
                let mut ns: Vec<char> = Vec::new();
                push_chars(&mut ns, &line.as_slice()[a + 1..b - 1]);
                assert(ns@ =~= t.subrange(1, t.len() - 1));
                section = ns;
                assert(Seq::<(Seq<char>, Seq<char>)>::empty() + config_pairs_from(section@, lv.skip(k + 1)) =~= config_pairs_from(section@, lv.skip(k + 1)));
            } else {
                match find_char(line.as_slice(), a, b, '=') {
                    None => {
                        assert(Seq::<(Seq<char>, Seq<char>)>::empty() + config_pairs_from(old_section, lv.skip(k + 1)) =~= config_pairs_from(old_section, lv.skip(k + 1)));
                    },
                    Some(p) => {
                        let (ka, kb) = trim_bounds(line.as_slice(), a, p);
                        let (va, vb) = trim_bounds(line.as_slice(), p + 1, b);
                        assert(t.take(p - a) =~= line@.subrange(a as int, p as int));
                        assert(t.skip(p - a + 1) =~= line@.subrange(p + 1, b as int));
                        let mut full: Vec<char> = Vec::new();
                        if section.len() > 0 {
                            let sk = section_key_of(section.as_slice());
                            push_chars(&mut full, sk.as_slice());
                            full.push('.');
                        }
                        push_chars(&mut full, &line.as_slice()[ka..kb]);
                        let full_key = string_of(full.as_slice());
                        let key = to_lowercase(full_key.as_str());
                        let value = string_of(&line.as_slice()[va..vb]);
                        let ghost pair = (key@, value@);
                        proof {
                            let tk = trim(t.take(p - a));
                            if section@.len() == 0 {
                                assert(full@ =~= tk);
                            } else {
                                assert(full@ =~= section_key(section@) + seq!['.'] + tk);
                            }
                            assert(config_line(old_section, line@) == (old_section, Some(pair)));
                        }
                        self.entries.push((key, value));
                        assert(self@ =~= before.push(pair));
                        assert(seq![pair] + config_pairs_from(old_section, lv.skip(k + 1)) =~= seq![pair] + config_pairs_from(section@, lv.skip(k + 1)));
                        assert(before + (seq![pair] + config_pairs_from(section@, lv.skip(k + 1))) =~= before.push(pair) + config_pairs_from(section@, lv.skip(k + 1)));
                    },
                }
            }
            k = k + 1;
        }
        assert(lv.skip(k as int) =~= Seq::<Seq<char>>::empty());
        assert(self@ + Seq::<(Seq<char>, Seq<char>)>::empty() =~= self@);
        assert(start + config_pairs_from(Seq::empty(), lv) == start + config_pairs(content@));
    }

    /// The value recorded last for `key`, compared in lower case.
    pub fn get(&self, key: &str) -> (r: Option<&String>)
        ensures
            r is Some <==> config_lookup(self@, lowercase_text(key@)) is Some,
            r matches Some(v) ==> config_lookup(self@, lowercase_text(key@)) == Some(v@),
    {
        let lk = to_lowercase(key);
        let mut i = self.entries.len();
        let ghost ps = self@;
        assert(ps.take(i as int) =~= ps);
        while i > 0
            invariant
                i <= self.entries@.len(),
                ps == self@,
                ps == self.entries@.map_values(|e: (String, String)| (e.0@, e.1@)),
                lk@ == lowercase_text(key@),
                config_lookup(ps, lk@) == config_lookup(ps.take(i as int), lk@),
            decreases i,
        {
            let e = &self.entries[i - 1];
            assert(ps[i - 1] == (e.0@, e.1@));
            assert(ps.take(i as int).last() == ps[i - 1]);
            assert(ps.take(i as int).drop_last() =~= ps.take(i - 1));
            if e.0 == lk {
                return Some(&e.1);
            }
            i = i - 1;
        }
        None
    }
}

/// The section name of a remote: `remote "<name>"`.
pub open spec fn remote_section(remote: Seq<char>) -> Seq<char> {
    seq!['r', 'e', 'm', 'o', 't', 'e', ' ', '"'] + remote + seq!['"']
}

/// The URL of the remote whose section is `wanted`, from the lines on,
/// `in_section` telling whether the lines before ended inside it: the value
/// of the first `url = ...` line inside that section.
pub open spec fn url_from(in_section: bool, wanted: Seq<char>, lines: Seq<Seq<char>>) -> Option<Seq<char>>
    decreases lines.len(),
{
    if lines.len() == 0 {
        None
    } else {
        let t = trim(lines[0]);
        if is_header(t) {
            url_from(t.subrange(1, t.len() - 1) == wanted, wanted, lines.drop_first())
        } else if in_section && (find_char_from(t, 0, '=') matches Some(p) && trim(t.take(p))
            == seq!['u', 'r', 'l']) {
            Some(trim(t.skip(find_char_from(t, 0, '=').unwrap() + 1)))
        } else {
            url_from(in_section, wanted, lines.drop_first())
        }
    }
}

/// The URL configured for `remote` in a configuration text: the first
/// `url` line of its `[remote "name"]` section.
pub fn remote_url(content: &str, remote: &str) -> (r: Option<String>)
    ensures
        r is Some <==> url_from(false, remote_section(remote@), text_lines(content@)) is Some,
        r matches Some(u) ==> url_from(false, remote_section(remote@), text_lines(content@)) == Some(u@),
{
    let cs = chars_of(content);
    let lines = lines_of(cs.as_slice());
    let ghost lv = lines@.map_values(|l: Vec<char>| l@);
    let mut wanted: Vec<char> = Vec::new();
    push_chars(&mut wanted, &['r', 'e', 'm', 'o', 't', 'e', ' ', '"']);
    push_chars(&mut wanted, chars_of(remote).as_slice());
    wanted.push('"');
    assert(wanted@ =~= remote_section(remote@));
    let mut in_section = false;
    let mut k: usize = 0;
    assert(lv.skip(0) =~= lv);
    while k < lines.len()
        invariant
            k <= lines@.len(),
            lv == lines@.map_values(|l: Vec<char>| l@),
            lv == text_lines(content@),
            wanted@ == remote_section(remote@),
            url_from(false, wanted@, lv) == url_from(in_section, wanted@, lv.skip(k as int)),
        decreases lines@.len() - k,
    {
        let line = &lines[k];
        assert(lv[k as int] == line@);
        assert(lv.skip(k as int).drop_first() =~= lv.skip(k + 1));
        assert(lv.skip(k as int)[0] == line@);
        let (a, b) = trim_bounds(line.as_slice(), 0, line.len());
        assert(line@.subrange(0, line@.len() as int) =~= line@);
        let ghost t = line@.subrange(a as int, b as int);
        if a < b && line[a] == '[' && line[b - 1] == ']' {
            let eq = chars_eq(&line.as_slice()[a + 1..b - 1], wanted.as_slice());
            assert(line@.subrange(a + 1, b - 1) =~= t.subrange(1, t.len() - 1));
            in_section = eq;
        } else if in_section {
            match find_char(line.as_slice(), a, b, '=') {
                Some(p) => {
                    let (ka, kb) = trim_bounds(line.as_slice(), a, p);
                    assert(t.take(p - a) =~= line@.subrange(a as int, p as int));
                    if chars_eq(&line.as_slice()[ka..kb], &['u', 'r', 'l']) {
                        let (va, vb) = trim_bounds(line.as_slice(), p + 1, b);
                        assert(t.skip(p - a + 1) =~= line@.subrange(p + 1, b as int));
                        return Some(string_of(&line.as_slice()[va..vb]));
                    }
                },
                None => {},
            }
        }
        k = k + 1;
    }
    None
}

/// The section header text and the name of a dotted key: for
/// `section.name` the text before the first dot and the rest; for
/// `section.sub.name` (a subsection between the first and the last dot)
/// `section "sub"` and the text after the last dot; for a key without a
/// dot the key and an empty name.
pub open spec fn split_key(key: Seq<char>) -> (Seq<char>, Seq<char>) {
    match find_char_from(key, 0, '.') {
        Some(p) => match last_char_at(key, '.') {
            Some(l) => if l > p {
                (key.take(p) + seq![' ', '"'] + key.subrange(p + 1, l) + seq!['"'], key.skip(l + 1))
            } else {
                (key.take(p), key.skip(p + 1))
            },
            None => (key.take(p), key.skip(p + 1)),
        },
        None => (key, Seq::empty()),
    }
}

/// The header line of a section.
pub open spec fn header_line(section: Seq<char>) -> Seq<char> {
    seq!['['] + section + seq![']']
}

/// The line that sets `name` to `value` inside a section.
pub open spec fn setting_line(name: Seq<char>, value: Seq<char>) -> Seq<char> {
    seq!['\t'] + name + seq![' ', '=', ' '] + value
}

/// The extent of the section with header `header`, scanning from line `i`
/// with the section's last header seen so far at `start`: the section runs
/// from its header to the next other header (or the end).
pub open spec fn section_span(lines: Seq<Seq<char>>, header: Seq<char>, i: int, start: Option<int>) -> (Option<int>, int)
    decreases lines.len() - i,
{
    if i < 0 || i >= lines.len() {
        (start, lines.len() as int)
    } else {
        let t = trim(lines[i]);
        if t == header {
            section_span(lines, header, i + 1, Some(i))
        } else if start is Some && is_header(t) {
            (start, i)
        } else {
            section_span(lines, header, i + 1, start)
        }
    }
}

/// A line that sets `name`: after its indentation it starts with the name
/// and a space or `=`.
pub open spec fn assigns(line: Seq<char>, name: Seq<char>) -> bool {
    starts_with(trim_start(line), name + seq![' ']) || starts_with(trim_start(line), name + seq!['='])
}

/// The first line in `j..to` that sets `name`.
pub open spec fn first_assign(lines: Seq<Seq<char>>, name: Seq<char>, j: int, to: int) -> Option<int>
    decreases to - j,
{
    if j >= to || j < 0 {
        None
    } else if assigns(lines[j], name) {
        Some(j)
    } else {
        first_assign(lines, name, j + 1, to)
    }
}

/// The lines after setting `key` to `value`: the first line of the
/// section that sets the name is replaced; else a setting line ends the
/// section; else (no such section) a blank line, the header and the
/// setting line are added at the end (the blank line only after other lines).
pub open spec fn set_lines(lines: Seq<Seq<char>>, key: Seq<char>, value: Seq<char>) -> Seq<Seq<char>> {
    let (section, name) = split_key(key);
    let h = header_line(section);
    let nl = setting_line(name, value);
    match section_span(lines, h, 0, None) {
        (Some(s), e) => match first_assign(lines, name, s + 1, e) {
            Some(j) => lines.update(j, nl),
            None => lines.insert(e, nl),
        },
        (None, _) => {
            let base = if lines.len() > 0 {
                lines.push(Seq::empty())
            } else {
                lines
            };
            base.push(h).push(nl)
        },
    }
}

/// The configuration text after setting `key` to `value`: the edited lines
/// joined with newlines, ending with one.
pub open spec fn config_with(content: Seq<char>, key: Seq<char>, value: Seq<char>) -> Seq<char> {
    join_lines(set_lines(text_lines(content), key, value)) + seq!['\n']
}

fn line_assigns(line: &Vec<char>, assign_sp: &Vec<char>, assign_eq: &Vec<char>) -> (r: bool)
    ensures
        r == (starts_with(trim_start(line@), assign_sp@) || starts_with(trim_start(line@), assign_eq@)),
{
    let a = trim_start_index(line.as_slice(), 0, line.len());
    assert(line@.subrange(0, line@.len() as int) =~= line@);
    starts_with_at(line.as_slice(), a, line.len(), assign_sp.as_slice()) || starts_with_at(
        line.as_slice(),
        a,
        line.len(),
        assign_eq.as_slice(),
    )
}

/// Sets `key` (`section.name` or `section.sub.name`) to `value` in a
/// configuration text.
pub fn set_config_text(content: &str, key: &str, value: &str) -> (r: String)
    ensures
        r@ == config_with(content@, key@, value@),
{
    let kc = chars_of(key);
    assert(kc@.subrange(0, kc@.len() as int) =~= kc@);
    let (section, name) = match find_char(kc.as_slice(), 0, kc.len(), '.') {
        Some(p) => {
            let last = find_last_char(kc.as_slice(), '.');
            proof {
                lemma_last_char_at(kc@, '.');
            }
            let l = match last {
                Some(l) => l,
                None => p,
            };
            let mut s1: Vec<char> = Vec::new();
            push_chars(&mut s1, &kc.as_slice()[0..p]);
            if l > p {
                s1.push(' ');
                s1.push('"');
                push_chars(&mut s1, &kc.as_slice()[p + 1..l]);
                s1.push('"');
                let mut s2: Vec<char> = Vec::new();
                push_chars(&mut s2, &kc.as_slice()[l + 1..kc.len()]);
                assert(s1@ =~= key@.take(p as int) + seq![' ', '"'] + key@.subrange(p + 1, l as int) + seq!['"']);
                assert(s2@ =~= key@.skip(l + 1));
                (s1, s2)
            } else {
                let mut s2: Vec<char> = Vec::new();
                push_chars(&mut s2, &kc.as_slice()[p + 1..kc.len()]);
                assert(s1@ =~= key@.take(p as int));
                assert(s2@ =~= key@.skip(p + 1));
                (s1, s2)
            }
        },
        None => {
            let mut s1: Vec<char> = Vec::new();
            push_chars(&mut s1, kc.as_slice());
            let s2: Vec<char> = Vec::new();
            assert(s2@ =~= Seq::<char>::empty());
            (s1, s2)
        },
    };
    assert((section@, name@) == split_key(key@));
    let cs = chars_of(content);
    let mut lines = lines_of(cs.as_slice());
    let ghost lv = lines@.map_values(|l: Vec<char>| l@);
    let mut header: Vec<char> = Vec::new();
    header.push('[');
    push_chars(&mut header, section.as_slice());
    header.push(']');
    assert(header@ =~= header_line(section@));
    let mut nl: Vec<char> = Vec::new();
    nl.push('\t');
    push_chars(&mut nl, name.as_slice());
    push_chars(&mut nl, &[' ', '=', ' ']);
    push_chars(&mut nl, chars_of(value).as_slice());
    assert(nl@ =~= setting_line(name@, value@));
    // Find the section.
    let mut start: Option<usize> = None;
    let mut end = lines.len();
    let mut i: usize = 0;
    while i < lines.len()
        invariant_except_break
            end == lines@.len(),
            section_span(lv, header@, 0, None) == section_span(lv, header@, i as int, match start {
                Some(s) => Some(s as int),
                None => None,
            }),
        invariant
            i <= lines@.len(),
            lv == lines@.map_values(|l: Vec<char>| l@),
            start matches Some(s) ==> s < i,
        ensures
            end <= lines@.len(),
            start matches Some(s) ==> s < end,
            section_span(lv, header@, 0, None) == (match start {
                Some(s) => Some(s as int),
                None => None,
            }, end as int),
        decreases lines@.len() - i,
    {
        let line = &lines[i];
        assert(lv[i as int] == line@);
        let (a, b) = trim_bounds(line.as_slice(), 0, line.len());
        assert(line@.subrange(0, line@.len() as int) =~= line@);
        if chars_eq(&line.as_slice()[a..b], header.as_slice()) {
            start = Some(i);
        } else if start.is_some() && a < b && line[a] == '[' && line[b - 1] == ']' {
            end = i;
            break;
        }
        i = i + 1;
    }
    let ghost span = section_span(lv, header@, 0, None);
    match start {
        Some(s) => {
            let mut sp: Vec<char> = Vec::new();
            push_chars(&mut sp, name.as_slice());
            sp.push(' ');
            let mut eqv: Vec<char> = Vec::new();
            push_chars(&mut eqv, name.as_slice());
            eqv.push('=');
            assert(sp@ =~= name@ + seq![' ']);
            assert(eqv@ =~= name@ + seq!['=']);
            let mut j = s + 1;
            let mut found: Option<usize> = None;
            while j < end
                invariant_except_break
                    found is None,
                    first_assign(lv, name@, s + 1, end as int) == first_assign(lv, name@, j as int, end as int),
                invariant
                    s + 1 <= j <= end <= lines@.len(),
                    lv == lines@.map_values(|l: Vec<char>| l@),
                    sp@ == name@ + seq![' '],
                    eqv@ == name@ + seq!['='],
                ensures
                    found matches Some(f) ==> first_assign(lv, name@, s + 1, end as int) == Some(f as int) && f < end,
                    found is None ==> first_assign(lv, name@, s + 1, end as int) is None,
                decreases end - j,
            {
                assert(lv[j as int] == lines@[j as int]@);
                if line_assigns(&lines[j], &sp, &eqv) {
                    found = Some(j);
                    break;
                }
                j = j + 1;
            }
            match found {
                Some(f) => {
                    lines.set(f, nl);
                    assert(lines@.map_values(|l: Vec<char>| l@) =~= lv.update(f as int, setting_line(name@, value@)));
                },
                None => {
                    lines.insert(end, nl);
                    assert(lines@.map_values(|l: Vec<char>| l@) =~= lv.insert(end as int, setting_line(name@, value@)));
                },
            }
        },
        None => {
            if lines.len() > 0 {
                lines.push(Vec::new());
            }
            lines.push(header);
            lines.push(nl);
            assert(lines@.map_values(|l: Vec<char>| l@) =~= set_lines(lv, key@, value@));
        },
    }
    let mut out = join_line_vecs(&lines);
    out.push('\n');
    string_of(out.as_slice())
}

/// A configuration text, ended with a newline if it is not, followed by an
/// `origin` remote section with its `url` and `fetch` lines.
pub open spec fn origin_added(config: Seq<char>, url: Seq<char>) -> Seq<char> {
    (if config.len() > 0 && config.last() == '\n' {
        config
    } else {
        config.push('\n')
    }) + "[remote \"origin\"]\n\turl = "@ + url + "\n\tfetch = +refs/heads/*:refs/remotes/origin/*\n"@
}

/// The configuration text with an `origin` remote added for `url`: `None`
/// when the text already has a `[remote "origin"]` section; else the text,
/// ended with a newline if it is not, followed by the section with its
/// `url` and `fetch` lines.
pub fn origin_config_text(config: &str, url: &str) -> (r: Option<String>)
    ensures
        r is None <==> contains_text(config@, "[remote \"origin\"]"@),
        r matches Some(t) ==> t@ == origin_added(config@, url@),
{
    let cs = chars_of(config);
    let header = chars_of("[remote \"origin\"]");
    if contains_chars(cs.as_slice(), header.as_slice()) {
        return None;
    }
    let mut out: Vec<char> = Vec::new();
    push_chars(&mut out, cs.as_slice());
    if !(cs.len() > 0 && cs[cs.len() - 1] == '\n') {
        out.push('\n');
    }
    push_chars(&mut out, chars_of("[remote \"origin\"]\n\turl = ").as_slice());
    push_chars(&mut out, chars_of(url).as_slice());
    push_chars(&mut out, chars_of("\n\tfetch = +refs/heads/*:refs/remotes/origin/*\n").as_slice());
    Some(string_of(out.as_slice()))
}

/// The section a reading of configuration lines is in after them,
/// starting in `section`.
pub open spec fn section_after(section: Seq<char>, lines: Seq<Seq<char>>) -> Seq<char>
    decreases lines.len(),
{
    if lines.len() == 0 {
        section
    } else {
        section_after(config_line(section, lines[0]).0, lines.drop_first())
    }
}

proof fn lemma_pairs_concat(section: Seq<char>, a: Seq<Seq<char>>, b: Seq<Seq<char>>)
    ensures
        config_pairs_from(section, a + b) == config_pairs_from(section, a) + config_pairs_from(
            section_after(section, a),
            b,
        ),
    decreases a.len(),
{
    if a.len() == 0 {
        assert(a + b =~= b);
        assert(Seq::<(Seq<char>, Seq<char>)>::empty() + config_pairs_from(section, b) =~= config_pairs_from(section, b));
    } else {
        let (s2, p) = config_line(section, a[0]);
        assert((a + b)[0] == a[0]);
        assert((a + b).drop_first() =~= a.drop_first() + b);
        lemma_pairs_concat(s2, a.drop_first(), b);
        let here = match p {
            Some(x) => seq![x],
            None => Seq::<(Seq<char>, Seq<char>)>::empty(),
        };
        assert(here + (config_pairs_from(s2, a.drop_first()) + config_pairs_from(
            section_after(s2, a.drop_first()),
            b,
        )) =~= (here + config_pairs_from(s2, a.drop_first())) + config_pairs_from(
            section_after(s2, a.drop_first()),
            b,
        ));
    }
}

proof fn lemma_pairs_strip_cr(section: Seq<char>, ls: Seq<Seq<char>>)
    ensures
        config_pairs_from(section, ls.map_values(|l: Seq<char>| strip_cr(l))) == config_pairs_from(section, ls),
    decreases ls.len(),
{
    if ls.len() > 0 {
        let m = ls.map_values(|l: Seq<char>| strip_cr(l));
        assert(m[0] == strip_cr(ls[0]));
        lemma_trim_strip_cr(ls[0]);
        assert(config_line(section, m[0]) == config_line(section, ls[0]));
        assert(m.drop_first() =~= ls.drop_first().map_values(|l: Seq<char>| strip_cr(l)));
        lemma_pairs_strip_cr(config_line(section, ls[0]).0, ls.drop_first());
    }
}

proof fn lemma_lookup_concat(p: Seq<(Seq<char>, Seq<char>)>, q: Seq<(Seq<char>, Seq<char>)>, k: Seq<char>)
    ensures
        config_lookup(p + q, k) == match config_lookup(q, k) {
            Some(x) => Some(x),
            None => config_lookup(p, k),
        },
    decreases q.len(),
{
    if q.len() == 0 {
        assert(p + q =~= p);
    } else {
        assert((p + q).last() == q.last());
        assert((p + q).drop_last() =~= p + q.drop_last());
        lemma_lookup_concat(p, q.drop_last(), k);
    }
}

proof fn lemma_span(lines: Seq<Seq<char>>, header: Seq<char>, i: int, start: Option<int>)
    requires
        0 <= i <= lines.len(),
        start matches Some(st) ==> 0 <= st < i && trim(lines[st]) == header && forall|m: int|
            st < m < i ==> !is_header(trim(#[trigger] lines[m])),
    ensures
        section_span(lines, header, i, start) matches (Some(st), e) ==> 0 <= st < e <= lines.len()
            && trim(lines[st]) == header && forall|m: int| st < m < e ==> !is_header(trim(#[trigger] lines[m])),
    decreases lines.len() - i,
{
    if i < lines.len() {
        let t = trim(lines[i]);
        if t == header {
            lemma_span(lines, header, i + 1, Some(i));
        } else if start is Some && is_header(t) {
        } else {
            lemma_span(lines, header, i + 1, start);
        }
    }
}

proof fn lemma_first_assign_range(lines: Seq<Seq<char>>, name: Seq<char>, j: int, to: int)
    ensures
        first_assign(lines, name, j, to) matches Some(k) ==> j <= k < to,
    decreases to - j,
{
    if j < to && j >= 0 && !assigns(lines[j], name) {
        lemma_first_assign_range(lines, name, j + 1, to);
    }
}

proof fn lemma_section_stays(section: Seq<char>, ls: Seq<Seq<char>>)
    requires
        forall|m: int| 0 <= m < ls.len() ==> !is_header(trim(#[trigger] ls[m])),
    ensures
        section_after(section, ls) == section,
    decreases ls.len(),
{
    if ls.len() > 0 {
        assert(!is_header(trim(ls[0])));
        assert(config_line(section, ls[0]).0 == section);
        assert forall|m: int| 0 <= m < ls.drop_first().len() implies !is_header(trim(#[trigger] ls.drop_first()[m])) by {
            assert(ls.drop_first()[m] == ls[m + 1]);
        }
        lemma_section_stays(section, ls.drop_first());
    }
}

proof fn lemma_section_after_concat(section: Seq<char>, a: Seq<Seq<char>>, b: Seq<Seq<char>>)
    ensures
        section_after(section, a + b) == section_after(section_after(section, a), b),
    decreases a.len(),
{
    if a.len() == 0 {
        assert(a + b =~= b);
    } else {
        assert((a + b)[0] == a[0]);
        assert((a + b).drop_first() =~= a.drop_first() + b);
        lemma_section_after_concat(config_line(section, a[0]).0, a.drop_first(), b);
    }
}

proof fn lemma_header_sets_section(section: Seq<char>, line: Seq<char>, s: Seq<char>)
    requires
        trim(line) == header_line(s),
    ensures
        config_line(section, line) == (s, None::<(Seq<char>, Seq<char>)>),
{
    let h = header_line(s);
    assert(h[0] == '[');
    assert(h.last() == ']');
    assert(h.subrange(1, h.len() - 1) =~= s);
}

/// Inside a section's span, after its header, the reading is in that
/// section.
proof fn lemma_section_in_span(lines: Seq<Seq<char>>, st: int, m: int, s: Seq<char>)
    requires
        0 <= st < m <= lines.len(),
        trim(lines[st]) == header_line(s),
        forall|x: int| st < x < m ==> !is_header(trim(#[trigger] lines[x])),
    ensures
        section_after(Seq::empty(), lines.take(m)) == s,
{
    let pre = lines.take(st);
    let mid = lines.subrange(st + 1, m);
    assert(lines.take(m) =~= pre + (seq![lines[st]] + mid));
    lemma_section_after_concat(Seq::empty(), pre, seq![lines[st]] + mid);
    let s0 = section_after(Seq::empty(), pre);
    lemma_header_sets_section(s0, lines[st], s);
    assert((seq![lines[st]] + mid)[0] == lines[st]);
    assert((seq![lines[st]] + mid).drop_first() =~= mid);
    assert forall|x: int| 0 <= x < mid.len() implies !is_header(trim(#[trigger] mid[x])) by {
        assert(mid[x] == lines[st + 1 + x]);
    }
    lemma_section_stays(s, mid);
}

/// The pairs read after the line that setting `key` writes: after the line
/// it replaces, or from the end of the section when it adds a line there;
/// none when it appends a new section.
pub open spec fn pairs_after_set(content: Seq<char>, key: Seq<char>) -> Seq<(Seq<char>, Seq<char>)> {
    let lines = text_lines(content);
    let (section, name) = split_key(key);
    match section_span(lines, header_line(section), 0, None) {
        (Some(s), e) => match first_assign(lines, name, s + 1, e) {
            Some(j) => config_pairs_from(section, lines.skip(j + 1)),
            None => config_pairs_from(section, lines.skip(e)),
        },
        (None, _) => Seq::empty(),
    }
}

/// The line written, followed by `rest`, read in section `s`: its pair,
/// then what `rest` gives.
proof fn lemma_written_line_first(s: Seq<char>, nl: Seq<char>, rest: Seq<Seq<char>>, pair: (Seq<char>, Seq<char>))
    requires
        config_line(s, nl).1 == Some(pair),
    ensures
        config_pairs_from(s, seq![nl] + rest) == seq![pair] + config_pairs_from(s, rest),
{
    let ls = seq![nl] + rest;
    assert(ls[0] == nl);
    assert(ls.drop_first() =~= rest);
    assert(config_line(s, nl).0 == s);
}

/// Reading the configuration after `set_config` sets `key` to `value`
/// gives `value` for `key` (compared in lower case), whatever pairs were
/// read before it (a global configuration): provided that the section,
/// name and value hold no newline, that the line written reads as that key
/// and value, and that no later line of the file sets the key to another
/// value.
pub proof fn lemma_get_after_set(
    earlier: Seq<(Seq<char>, Seq<char>)>,
    content: Seq<char>,
    key: Seq<char>,
    value: Seq<char>,
)
    requires
        no_newline(split_key(key).0),
        no_newline(split_key(key).1),
        no_newline(value),
        config_line(split_key(key).0, setting_line(split_key(key).1, value)).1 == Some(
            (lowercase_text(key), value),
        ),
        config_lookup(pairs_after_set(content, key), lowercase_text(key)) is None || config_lookup(
            pairs_after_set(content, key),
            lowercase_text(key),
        ) == Some(value),
    ensures
        config_lookup(earlier + config_pairs(config_with(content, key, value)), lowercase_text(key))
            == Some(value),
{
    let lines = text_lines(content);
    let (section, name) = split_key(key);
    let h = header_line(section);
    let nl = setting_line(name, value);
    let lk = lowercase_text(key);
    let pair = (lk, value);
    let new_lines = set_lines(lines, key, value);
    lemma_text_lines_no_newline(content);
    assert(no_newline(h)) by {
        assert forall|i: int| 0 <= i < h.len() implies h[i] != '\n' by {
            if 0 < i < h.len() - 1 {
                assert(h[i] == section[i - 1]);
            }
        }
    }
    assert(no_newline(nl)) by {
        assert forall|i: int| 0 <= i < nl.len() implies nl[i] != '\n' by {
            if 1 <= i < 1 + name.len() {
                assert(nl[i] == name[i - 1]);
            } else if i >= name.len() + 4 {
                assert(nl[i] == value[i - name.len() - 4]);
            }
        }
    }
    lemma_span(lines, h, 0, None);
    let tail: Seq<(Seq<char>, Seq<char>)>;
    let head: Seq<(Seq<char>, Seq<char>)>;
    match section_span(lines, h, 0, None) {
        (Some(st), e) => {
            lemma_first_assign_range(lines, name, st + 1, e);
            let at = match first_assign(lines, name, st + 1, e) {
                Some(j) => j,
                None => e,
            };
            let rest = match first_assign(lines, name, st + 1, e) {
                Some(j) => lines.skip(j + 1),
                None => lines.skip(e),
            };
            assert(new_lines =~= lines.take(at) + (seq![nl] + rest));
            assert forall|x: int| st < x < at implies !is_header(trim(#[trigger] lines[x])) by {}
            lemma_section_in_span(lines, st, at, section);
            lemma_pairs_concat(Seq::empty(), lines.take(at), seq![nl] + rest);
            lemma_written_line_first(section, nl, rest, pair);
            head = config_pairs_from(Seq::empty(), lines.take(at));
            tail = config_pairs_from(section, rest);
            assert(tail == pairs_after_set(content, key));
            assert forall|i: int| 0 <= i < new_lines.len() implies no_newline(#[trigger] new_lines[i]) by {
                if i < at {
                    assert(new_lines[i] == lines[i]);
                } else if i == at {
                    assert(new_lines[i] == nl);
                } else {
                    assert(new_lines[i] == rest[i - at - 1]);
                    match first_assign(lines, name, st + 1, e) {
                        Some(j) => {
                            assert(rest[i - at - 1] == lines[j + 1 + i - at - 1]);
                        },
                        None => {
                            assert(rest[i - at - 1] == lines[e + i - at - 1]);
                        },
                    }
                }
            }
            assert(config_pairs_from(Seq::empty(), new_lines) == head + (seq![pair] + tail));
        },
        (None, _) => {
            let base = if lines.len() > 0 {
                lines.push(Seq::empty())
            } else {
                lines
            };
            assert(new_lines =~= base + (seq![h] + seq![nl]));
            lemma_pairs_concat(Seq::empty(), base, seq![h] + seq![nl]);
            let sa = section_after(Seq::empty(), base);
            assert(trim(h) == h) by {
                assert(h[0] == '[');
                assert(h.last() == ']');
                lemma_trim_start_at(h, 0);
                assert(h.skip(0) =~= h);
                lemma_trim_end_at(h, h.len() as int);
                assert(h.take(h.len() as int) =~= h);
            }
            lemma_header_sets_section(sa, h, section);
            let two = seq![h] + seq![nl];
            assert(two[0] == h);
            assert(two.drop_first() =~= seq![nl] + Seq::<Seq<char>>::empty());
            lemma_written_line_first(section, nl, Seq::empty(), pair);
            assert(config_pairs_from(section, Seq::<Seq<char>>::empty()) =~= Seq::<(Seq<char>, Seq<char>)>::empty());
            head = config_pairs_from(Seq::empty(), base);
            tail = Seq::empty();
            assert forall|i: int| 0 <= i < new_lines.len() implies no_newline(#[trigger] new_lines[i]) by {
                if i < lines.len() {
                    assert(new_lines[i] == lines[i]);
                } else if i < base.len() {
                    assert(new_lines[i] == Seq::<char>::empty());
                } else if i == base.len() {
                    assert(new_lines[i] == h);
                } else {
                    assert(new_lines[i] == nl);
                }
            }
            assert(config_pairs_from(Seq::empty(), new_lines) == head + (seq![pair] + tail));
        },
    }
    lemma_lines_of_joined(new_lines);
    lemma_pairs_strip_cr(Seq::empty(), new_lines);
    assert(config_pairs(config_with(content, key, value)) == head + (seq![pair] + tail));
    lemma_lookup_concat(earlier + head, seq![pair] + tail, lk);
    lemma_lookup_concat(seq![pair], tail, lk);
    assert(config_lookup(seq![pair], lk) == Some(value)) by {
        assert(seq![pair].last() == pair);
    }
    assert(earlier + (head + (seq![pair] + tail)) =~= (earlier + head) + (seq![pair] + tail));
}

/// Setting a key in a configuration that has no section for it (such as
/// `user.name` in the configuration `init` writes) reads back: reading the
/// new text, after any pairs read before it, gives the value for the key.
/// This holds for a key and value without newlines, a section name that is
/// not empty and holds no space, and a name and value that read back as
/// written (see `lemma_setting_line_reads`).
pub proof fn lemma_get_after_set_new_section(
    earlier: Seq<(Seq<char>, Seq<char>)>,
    content: Seq<char>,
    key: Seq<char>,
    value: Seq<char>,
)
    requires
        no_newline(key),
        no_newline(value),
        find_char_from(key, 0, '.') is Some,
        key_section(key).len() > 0,
        find_char_from(key_section(key), 0, ' ') is None,
        split_key(key).1.len() > 0,
        trim(split_key(key).1) == split_key(key).1,
        find_char_from(split_key(key).1, 0, '=') is None,
        split_key(key).1[0] != '#',
        split_key(key).1[0] != ';',
        !(split_key(key).1[0] == '[' && value.len() > 0 && value.last() == ']'),
        trim(value) == value,
        forall|i: int|
            0 <= i < text_lines(content).len() ==> trim(#[trigger] text_lines(content)[i]) != header_line(
                split_key(key).0,
            ),
    ensures
        config_lookup(earlier + config_pairs(config_with(content, key, value)), lowercase_text(key))
            == Some(value),
{
    let lines = text_lines(content);
    let (sec, n) = split_key(key);
    lemma_span(lines, header_line(sec), 0, None);
    assert(section_span(lines, header_line(sec), 0, None).0 is None);
    assert(pairs_after_set(content, key) == Seq::<(Seq<char>, Seq<char>)>::empty());
    lemma_setting_line_reads(key, value);
    let p = find_char_from(key, 0, '.').unwrap();
    lemma_find_char_spec(key, 0, '.');
    lemma_last_char_at(key, '.');
    assert(no_newline(sec)) by {
        assert forall|i: int| 0 <= i < sec.len() implies sec[i] != '\n' by {
            match last_char_at(key, '.') {
                Some(l) => {
                    if l > p {
                        let sub = key.subrange(p + 1, l);
                        assert(sec == key.take(p) + seq![' ', '"'] + sub + seq!['"']);
                        if i < p {
                            assert(sec[i] == key[i]);
                        } else if p + 2 <= i < p + 2 + sub.len() {
                            assert(sec[i] == key[i - 1]);
                        }
                    } else {
                        assert(sec[i] == key[i]);
                    }
                },
                None => {
                    assert(sec[i] == key[i]);
                },
            }
        }
    }
    assert(no_newline(n)) by {
        assert forall|i: int| 0 <= i < n.len() implies n[i] != '\n' by {
            match last_char_at(key, '.') {
                Some(l) => {
                    if l > p {
                        assert(n[i] == key[l + 1 + i]);
                    } else {
                        assert(n[i] == key[p + 1 + i]);
                    }
                },
                None => {
                    assert(n[i] == key[p + 1 + i]);
                },
            }
        }
    }
    lemma_get_after_set(earlier, content, key, value);
}

/// A text without `p` has no line that trims to `p`.
proof fn lemma_no_line_is(content: Seq<char>, p: Seq<char>)
    requires
        !contains_text(content, p),
    ensures
        forall|i: int| 0 <= i < text_lines(content).len() ==> trim(#[trigger] text_lines(content)[i]) != p,
{
    let cl = text_lines(content);
    assert forall|i: int| 0 <= i < cl.len() implies trim(#[trigger] cl[i]) != p by {
        if trim(cl[i]) == p {
            lemma_line_within(content, i);
            let o = choose|o: int| 0 <= o && o + cl[i].len() <= content.len() && #[trigger] content.subrange(
                o,
                o + cl[i].len(),
            ) == cl[i];
            lemma_trim_within(cl[i]);
            let (a, b) = choose|a: int, b: int| 0 <= a <= b <= cl[i].len() && trim(cl[i]) == #[trigger] cl[i].subrange(a, b);
            assert(content.subrange(o + a, o + a + p.len()) =~= p);
            assert(contains_text(content, p));
        }
    }
}

/// `config user.name Yasir`, in a configuration without a `[user]` section
/// (such as the one `init` writes), reads back: reading the new text after
/// any pairs read before it gives `Yasir` for `user.name`.
pub proof fn lemma_user_name_reads_back(earlier: Seq<(Seq<char>, Seq<char>)>, content: Seq<char>)
    requires
        !contains_text(content, "[user]"@),
    ensures
        config_lookup(earlier + config_pairs(config_with(content, "user.name"@, "Yasir"@)), lowercase_text("user.name"@))
            == Some("Yasir"@),
{
    reveal_strlit("user.name");
    reveal_strlit("Yasir");
    reveal_strlit("[user]");
    let key = "user.name"@;
    let v = "Yasir"@;
    let sec = seq!['u', 's', 'e', 'r'];
    let n = seq!['n', 'a', 'm', 'e'];
    assert(key =~= sec + seq!['.'] + n);
    assert forall|j: int| 0 <= j < 4 implies key[j] != '.' by {}
    lemma_find_char_is(key, 0, '.', 4);
    lemma_last_char_at(key, '.');
    assert(key[4] == '.');
    assert(key[5] == 'n' && key[6] == 'a' && key[7] == 'm' && key[8] == 'e');
    assert(last_char_at(key, '.') == Some(4int)) by {
        match last_char_at(key, '.') {
            Some(l) => {
                assert(key[l] == '.');
                assert(l == 4);
            },
            None => {
                assert(key[4] != '.');
            },
        }
    }
    assert(key.take(4) =~= sec);
    assert(key.skip(5) =~= n);
    assert(split_key(key) == (sec, n));
    assert(key_section(key) == sec);
    assert forall|j: int| 0 <= j < sec.len() implies sec[j] != ' ' by {}
    lemma_find_char_spec(sec, 0, ' ');
    assert(find_char_from(sec, 0, ' ') is None) by {
        if let Some(k) = find_char_from(sec, 0, ' ') {
            assert(sec[k] == ' ');
        }
    }
    assert forall|j: int| 0 <= j < n.len() implies n[j] != '=' by {}
    lemma_find_char_spec(n, 0, '=');
    assert(find_char_from(n, 0, '=') is None) by {
        if let Some(k) = find_char_from(n, 0, '=') {
            assert(n[k] == '=');
        }
    }
    assert(trim(n) == n) by {
        lemma_trim_start_at(n, 0);
        assert(n.skip(0) =~= n);
        lemma_trim_end_at(n, 4);
        assert(n.take(4) =~= n);
    }
    assert(trim(v) == v) by {
        lemma_trim_start_at(v, 0);
        assert(v.skip(0) =~= v);
        lemma_trim_end_at(v, 5);
        assert(v.take(5) =~= v);
    }
    assert(no_newline(key));
    assert(no_newline(v));
    assert(header_line(sec) =~= "[user]"@);
    lemma_no_line_is(content, "[user]"@);
    lemma_get_after_set_new_section(earlier, content, key, v);
}

/// The line that `set_config` writes reads back as the key (in lower case)
/// and the value, under the header it writes, for a dotted key whose
/// section is not empty and holds no space and whose name is not empty,
/// has no surrounding whitespace and no `=`, and does not start like a
/// comment; for a value without surrounding whitespace; and unless the
/// name starts with `[` and the value ends with `]` (the line would then
/// read as a header).
pub proof fn lemma_setting_line_reads(key: Seq<char>, value: Seq<char>)
    requires
        find_char_from(key, 0, '.') is Some,
        key_section(key).len() > 0,
        find_char_from(key_section(key), 0, ' ') is None,
        split_key(key).1.len() > 0,
        trim(split_key(key).1) == split_key(key).1,
        find_char_from(split_key(key).1, 0, '=') is None,
        split_key(key).1[0] != '#',
        split_key(key).1[0] != ';',
        !(split_key(key).1[0] == '[' && value.len() > 0 && value.last() == ']'),
        trim(value) == value,
    ensures
        config_line(split_key(key).0, setting_line(split_key(key).1, value)).1 == Some(
            (lowercase_text(key), value),
        ),
{
    let (sec, n) = split_key(key);
    let nl = setting_line(n, value);
    lemma_trim_shape(n);
    lemma_trim_shape(value);
    lemma_find_char_spec(n, 0, '=');
    let body = n + seq![' ', '='];
    let t = if value.len() == 0 {
        body
    } else {
        body + seq![' '] + value
    };
    // The line without its indentation and its trailing spaces.
    assert(trim(nl) == t) by {
        assert(nl[0] == '\t');
        assert(nl[1] == n[0]);
        lemma_trim_start_at(nl, 1);
        let r = nl.skip(1);
        if value.len() == 0 {
            assert(r =~= body + seq![' ']);
            assert(r[body.len() - 1] == '=');
            lemma_trim_end_at(r, body.len() as int);
            assert(r.take(body.len() as int) =~= t);
        } else {
            assert(r =~= t);
            assert(r.last() == value.last());
            lemma_trim_end_at(r, r.len() as int);
            assert(r.take(r.len() as int) =~= t);
        }
    }
    assert(t[0] == n[0]);
    assert(!is_header(t)) by {
        if value.len() == 0 {
            assert(t.last() == '=');
        } else {
            assert(t.last() == value.last());
        }
    }
    let p = n.len() as int + 1;
    assert(t[p] == '=');
    assert forall|j: int| 0 <= j < p implies t[j] != '=' by {
        if j < n.len() {
            assert(t[j] == n[j]);
        } else {
            assert(t[j] == ' ');
        }
    }
    lemma_find_char_is(t, 0, '=', p);
    assert(t.take(p) =~= Seq::<char>::empty() + n + seq![' ']);
    lemma_trim_padded(Seq::empty(), n, seq![' ']);
    if value.len() == 0 {
        assert(t.skip(p + 1) =~= Seq::<char>::empty());
        assert(trim(Seq::<char>::empty()) =~= Seq::<char>::empty());
    } else {
        assert(t.skip(p + 1) =~= seq![' '] + value + Seq::<char>::empty());
        lemma_trim_padded(seq![' '], value, Seq::empty());
    }
    lemma_section_key_of_split(key);
}

/// The header text that setting a key writes gives back the key's text
/// before its name, for a section without a space.
proof fn lemma_section_key_of_split(key: Seq<char>)
    requires
        find_char_from(key, 0, '.') is Some,
        find_char_from(key_section(key), 0, ' ') is None,
    ensures
        split_key(key).0.len() > 0 ==> section_key(split_key(key).0) + seq!['.'] + split_key(key).1 == key,
{
    let p = find_char_from(key, 0, '.').unwrap();
    lemma_find_char_spec(key, 0, '.');
    lemma_last_char_at(key, '.');
    let s0 = key.take(p);
    lemma_find_char_spec(s0, 0, ' ');
    let (sec, n) = split_key(key);
    match last_char_at(key, '.') {
        Some(l) => {
            if l > p {
                let sub = key.subrange(p + 1, l);
                assert(sec == s0 + seq![' ', '"'] + sub + seq!['"']);
                assert forall|j: int| 0 <= j < s0.len() implies sec[j] != ' ' by {
                    assert(sec[j] == s0[j]);
                }
                lemma_find_char_is(sec, 0, ' ', s0.len() as int);
                assert(sec.take(s0.len() as int) =~= s0);
                assert(sec.subrange(s0.len() as int + 2, sec.len() as int - 1) =~= sub);
                assert(section_key(sec) == s0 + seq!['.'] + sub);
                assert(s0 + seq!['.'] + sub + seq!['.'] + n =~= key);
            } else {
                assert(sec == s0);
                assert(section_key(sec) == s0);
                assert(s0 + seq!['.'] + n =~= key);
            }
        },
        None => {},
    }
}

proof fn lemma_url_skip(wanted: Seq<char>, l1: Seq<Seq<char>>, l2: Seq<Seq<char>>)
    requires
        forall|i: int| 0 <= i < l1.len() ==> !(is_header(trim(#[trigger] l1[i])) && trim(l1[i]).subrange(
            1,
            trim(l1[i]).len() - 1,
        ) == wanted),
    ensures
        url_from(false, wanted, l1 + l2) == url_from(false, wanted, l2),
    decreases l1.len(),
{
    if l1.len() == 0 {
        assert(l1 + l2 =~= l2);
    } else {
        assert((l1 + l2)[0] == l1[0]);
        assert((l1 + l2).drop_first() =~= l1.drop_first() + l2);
        let t = l1.drop_first();
        assert forall|i: int| 0 <= i < t.len() implies !(is_header(trim(#[trigger] t[i])) && trim(t[i]).subrange(
            1,
            trim(t[i]).len() - 1,
        ) == wanted) by {
            assert(t[i] == l1[i + 1]);
        }
        assert(!(is_header(trim(l1[0])) && trim(l1[0]).subrange(1, trim(l1[0]).len() - 1) == wanted));
        lemma_url_skip(wanted, t, l2);
    }
}

/// A text that lacks `p` (with no newline, ending other than with one)
/// still lacks it once a newline is added.
proof fn lemma_absent_with_newline(c: Seq<char>, p: Seq<char>)
    requires
        !contains_text(c, p),
        p.len() > 0,
        p.last() != '\n',
    ensures
        !contains_text(c.push('\n'), p),
{
    let d = c.push('\n');
    if contains_text(d, p) {
        let i = choose|i: int| 0 <= i <= d.len() - p.len() && #[trigger] d.subrange(i, i + p.len()) == p;
        if i + p.len() == d.len() {
            assert(d.subrange(i, i + p.len())[p.len() - 1] == d[d.len() - 1]);
            assert(false);
        }
        assert(c.subrange(i, i + p.len()) =~= d.subrange(i, i + p.len()));
        assert(false);
    }
}

/// The section name of a dotted key: the text before its first dot.
pub open spec fn key_section(key: Seq<char>) -> Seq<char> {
    match find_char_from(key, 0, '.') {
        Some(p) => key.take(p),
        None => key,
    }
}

/// After `clone` records its source as the `origin` remote, the remote's
/// URL reads back as that source: for a URL without newline and without
/// surrounding whitespace, in a configuration that had no `origin` section.
#[verifier::spinoff_prover]
#[verifier::rlimit(80)]
pub proof fn lemma_origin_url_reads_back(config: Seq<char>, url: Seq<char>)
    requires
        !contains_text(config, "[remote \"origin\"]"@),
        trim(url) == url,
        no_newline(url),
    ensures
        url_from(false, remote_section("origin"@), text_lines(origin_added(config, url))) == Some(url),
{
    reveal_strlit("[remote \"origin\"]\n\turl = ");
    reveal_strlit("\n\tfetch = +refs/heads/*:refs/remotes/origin/*\n");
    reveal_strlit("[remote \"origin\"]");
    reveal_strlit("origin");
    reveal_strlit("\tfetch = +refs/heads/*:refs/remotes/origin/*");
    let h = "[remote \"origin\"]"@;
    let w = remote_section("origin"@);
    assert(h =~= seq!['['] + w + seq![']']);
    let c0 = if config.len() > 0 && config.last() == '\n' {
        config
    } else {
        config.push('\n')
    };
    let pre = seq!['\t', 'u', 'r', 'l', ' ', '=', ' '];
    let ul = pre + url;
    let fl = "\tfetch = +refs/heads/*:refs/remotes/origin/*"@;
    let rest = "[remote \"origin\"]\n\turl = "@ + url + "\n\tfetch = +refs/heads/*:refs/remotes/origin/*\n"@;
    assert(origin_added(config, url) == c0 + rest);
    // The added text is three plain lines.
    reveal_with_fuel(lines_text, 4);
    assert(rest =~= lines_text(seq![h, ul, fl]));
    lemma_trim_shape(url);
    let hs = seq![h, ul, fl];
    assert forall|i: int| 0 <= i < hs.len() implies plain_line(#[trigger] hs[i]) by {
        if i == 1 {
            assert forall|j: int| 0 <= j < ul.len() implies ul[j] != '\n' by {
                if j >= 7 {
                    assert(ul[j] == url[j - 7]);
                }
            }
            if url.len() > 0 {
                assert(ul.last() == url.last());
            }
        }
    }
    lemma_lines_prefix(hs, Seq::empty());
    assert(lines_text(hs) + Seq::<char>::empty() =~= rest);
    assert(text_lines(Seq::<char>::empty()) =~= Seq::<Seq<char>>::empty());
    assert(text_lines(rest) =~= hs);
    // The configuration's own lines name no `origin` section.
    lemma_text_lines_concat(c0, rest);
    if c0 != config {
        lemma_absent_with_newline(config, h);
    }
    assert(!contains_text(c0, h));
    let cl = text_lines(c0);
    assert forall|i: int| 0 <= i < cl.len() implies !(is_header(trim(#[trigger] cl[i])) && trim(
        cl[i],
    ).subrange(1, trim(cl[i]).len() - 1) == w) by {
        let t = trim(cl[i]);
        if is_header(t) && t.subrange(1, t.len() - 1) == w {
            assert(t =~= h);
            lemma_line_within(c0, i);
            let o = choose|o: int| 0 <= o && o + cl[i].len() <= c0.len() && #[trigger] c0.subrange(o, o + cl[i].len()) == cl[i];
            lemma_trim_within(cl[i]);
            let (a, b) = choose|a: int, b: int| 0 <= a <= b <= cl[i].len() && t == #[trigger] cl[i].subrange(a, b);
            assert(c0.subrange(o + a, o + a + h.len()) =~= h);
            assert(contains_text(c0, h));
        }
    }
    lemma_url_skip(w, cl, hs);
    // The section header, then its `url` line.
    assert(trim(h) == h) by {
        lemma_trim_start_at(h, 0);
        assert(h.skip(0) =~= h);
        lemma_trim_end_at(h, h.len() as int);
        assert(h.take(h.len() as int) =~= h);
    }
    assert(h.subrange(1, h.len() - 1) =~= w);
    let body = seq!['u', 'r', 'l', ' ', '='];
    let t = if url.len() == 0 {
        body
    } else {
        body + seq![' '] + url
    };
    assert(trim(ul) == t) by {
        lemma_trim_start_at(ul, 1);
        let r = ul.skip(1);
        if url.len() == 0 {
            assert(r =~= body + seq![' ']);
            lemma_trim_end_at(r, 5);
            assert(r.take(5) =~= t);
        } else {
            assert(r =~= t);
            assert(r.last() == url.last());
            lemma_trim_end_at(r, r.len() as int);
            assert(r.take(r.len() as int) =~= t);
        }
    }
    assert(!is_header(t));
    lemma_find_char_is(t, 0, '=', 4);
    assert(t.take(4) =~= Seq::<char>::empty() + seq!['u', 'r', 'l'] + seq![' ']);
    lemma_trim_padded(Seq::empty(), seq!['u', 'r', 'l'], seq![' ']);
    assert(trim(seq!['u', 'r', 'l']) == seq!['u', 'r', 'l']) by {
        lemma_trim_start_at(seq!['u', 'r', 'l'], 0);
        assert(seq!['u', 'r', 'l'].skip(0) =~= seq!['u', 'r', 'l']);
        lemma_trim_end_at(seq!['u', 'r', 'l'], 3);
        assert(seq!['u', 'r', 'l'].take(3) =~= seq!['u', 'r', 'l']);
    }
    if url.len() == 0 {
        assert(t.skip(5) =~= Seq::<char>::empty());
        assert(trim(Seq::<char>::empty()) =~= Seq::<char>::empty());
    } else {
        assert(t.skip(5) =~= seq![' '] + url + Seq::<char>::empty());
        lemma_trim_padded(seq![' '], url, Seq::empty());
    }
    assert(hs[0] == h);
    assert(hs.drop_first() =~= seq![ul, fl]);
    assert(seq![ul, fl][0] == ul);
    assert(is_header(h));
    assert(url_from(true, w, seq![ul, fl]) == Some(url));
    assert(url_from(false, w, hs) == url_from(true, w, seq![ul, fl]));
    assert(text_lines(origin_added(config, url)) == cl + hs);
}

/// A header for section `w` followed by a `url` line gives that URL.
proof fn lemma_header_then_url(w: Seq<char>, url: Seq<char>, rest: Seq<Seq<char>>)
    requires
        trim(url) == url,
    ensures
        url_from(false, w, seq![seq!['['] + w + seq![']'], seq!['\t', 'u', 'r', 'l', ' ', '=', ' '] + url] + rest)
            == Some(url),
{
    let h = seq!['['] + w + seq![']'];
    let ul = seq!['\t', 'u', 'r', 'l', ' ', '=', ' '] + url;
    let hs = seq![h, ul] + rest;
    lemma_trim_shape(url);
    assert(trim(h) == h) by {
        lemma_trim_start_at(h, 0);
        assert(h.skip(0) =~= h);
        lemma_trim_end_at(h, h.len() as int);
        assert(h.take(h.len() as int) =~= h);
    }
    assert(h.subrange(1, h.len() - 1) =~= w);
    let body = seq!['u', 'r', 'l', ' ', '='];
    let t = if url.len() == 0 {
        body
    } else {
        body + seq![' '] + url
    };
    assert(trim(ul) == t) by {
        lemma_trim_start_at(ul, 1);
        let r = ul.skip(1);
        if url.len() == 0 {
            assert(r =~= body + seq![' ']);
            lemma_trim_end_at(r, 5);
            assert(r.take(5) =~= t);
        } else {
            assert(r =~= t);
            assert(r.last() == url.last());
            lemma_trim_end_at(r, r.len() as int);
            assert(r.take(r.len() as int) =~= t);
        }
    }
    assert(!is_header(t));
    lemma_find_char_is(t, 0, '=', 4);
    assert(t.take(4) =~= Seq::<char>::empty() + seq!['u', 'r', 'l'] + seq![' ']);
    lemma_trim_padded(Seq::empty(), seq!['u', 'r', 'l'], seq![' ']);
    assert(trim(seq!['u', 'r', 'l']) == seq!['u', 'r', 'l']) by {
        lemma_trim_start_at(seq!['u', 'r', 'l'], 0);
        assert(seq!['u', 'r', 'l'].skip(0) =~= seq!['u', 'r', 'l']);
        lemma_trim_end_at(seq!['u', 'r', 'l'], 3);
        assert(seq!['u', 'r', 'l'].take(3) =~= seq!['u', 'r', 'l']);
    }
    if url.len() == 0 {
        assert(t.skip(5) =~= Seq::<char>::empty());
        assert(trim(Seq::<char>::empty()) =~= Seq::<char>::empty());
    } else {
        assert(t.skip(5) =~= seq![' '] + url + Seq::<char>::empty());
        lemma_trim_padded(seq![' '], url, Seq::empty());
    }
    assert(hs[0] == h);
    assert(hs.drop_first() =~= seq![ul] + rest);
    assert((seq![ul] + rest)[0] == ul);
    assert(is_header(h));
    assert(url_from(true, w, seq![ul] + rest) == Some(url));
}

/// Setting `remote.<name>.url` in a configuration without a section for
/// that remote writes a `[remote "<name>"]` section that `remote_url`
/// reads the URL from (so `push` and `fetch` find the remote): for a name
/// and URL without newlines and a URL without surrounding whitespace.
#[verifier::rlimit(40)]
pub proof fn lemma_remote_url_after_set(content: Seq<char>, name: Seq<char>, url: Seq<char>)
    requires
        no_newline(name),
        no_newline(url),
        trim(url) == url,
        forall|i: int|
            0 <= i < text_lines(content).len() ==> !(is_header(trim(#[trigger] text_lines(content)[i])) && trim(
                text_lines(content)[i],
            ).subrange(1, trim(text_lines(content)[i]).len() - 1) == remote_section(name)),
    ensures
        url_from(
            false,
            remote_section(name),
            text_lines(config_with(content, "remote."@ + name + ".url"@, url)),
        ) == Some(url),
{
    reveal_strlit("remote.");
    reveal_strlit(".url");
    let key = "remote."@ + name + ".url"@;
    let w = remote_section(name);
    let n = name.len() as int;
    // The key splits into the quoted section and the name `url`.
    assert(key[6] == '.');
    assert forall|j: int| 0 <= j < 6 implies key[j] != '.' by {}
    lemma_find_char_is(key, 0, '.', 6);
    lemma_last_char_at(key, '.');
    assert(key[7 + n] == '.');
    let l = last_char_at(key, '.').unwrap();
    assert(l == 7 + n) by {
        if l < 7 + n {
            assert(key[7 + n] != '.');
        }
        if l > 7 + n {
            assert(key[l] == '.');
        }
    }
    assert(key.take(6) + seq![' ', '"'] + key.subrange(7, 7 + n) + seq!['"'] =~= w);
    assert(key.skip(8 + n) =~= seq!['u', 'r', 'l']);
    assert(split_key(key) == (w, seq!['u', 'r', 'l']));
    let lines = text_lines(content);
    let h = header_line(w);
    let nl = setting_line(seq!['u', 'r', 'l'], url);
    assert(nl =~= seq!['\t', 'u', 'r', 'l', ' ', '=', ' '] + url);
    assert(h =~= seq!['['] + w + seq![']']);
    // The configuration has no such section, so the section is appended.
    lemma_span(lines, h, 0, None);
    assert(section_span(lines, h, 0, None).0 is None) by {
        if let (Some(st), _) = section_span(lines, h, 0, None) {
            assert(trim(lines[st]) == h);
            assert(h.subrange(1, h.len() - 1) =~= w);
        }
    }
    let base = if lines.len() > 0 {
        lines.push(Seq::empty())
    } else {
        lines
    };
    let new_lines = set_lines(lines, key, url);
    assert(new_lines =~= base + seq![h, nl]);
    lemma_text_lines_no_newline(content);
    assert forall|i: int| 0 <= i < new_lines.len() implies no_newline(#[trigger] new_lines[i]) by {
        if i < lines.len() {
            assert(new_lines[i] == lines[i]);
        } else if i < base.len() {
            assert(new_lines[i] == Seq::<char>::empty());
        } else if i == base.len() {
            assert(new_lines[i] == h);
            assert forall|j: int| 0 <= j < h.len() implies h[j] != '\n' by {
                if 9 <= j < 9 + n {
                    assert(h[j] == name[j - 9]);
                }
            }
        } else {
            assert(new_lines[i] == nl);
            assert forall|j: int| 0 <= j < nl.len() implies nl[j] != '\n' by {
                if j >= 7 {
                    assert(nl[j] == url[j - 7]);
                }
            }
        }
    }
    lemma_lines_of_joined(new_lines);
    let m = new_lines.map_values(|x: Seq<char>| strip_cr(x));
    let mb = base.map_values(|x: Seq<char>| strip_cr(x));
    assert(strip_cr(h) == h);
    lemma_trim_shape(url);
    assert(strip_cr(nl) == nl) by {
        if url.len() > 0 {
            assert(nl.last() == url.last());
        }
    }
    assert(m =~= mb + seq![h, nl]);
    assert forall|i: int| 0 <= i < mb.len() implies !(is_header(trim(#[trigger] mb[i])) && trim(mb[i]).subrange(
        1,
        trim(mb[i]).len() - 1,
    ) == w) by {
        lemma_trim_strip_cr(base[i]);
        if i < lines.len() {
            assert(base[i] == lines[i]);
        } else {
            assert(base[i] == Seq::<char>::empty());
            assert(trim(Seq::<char>::empty()) =~= Seq::<char>::empty());
        }
    }
    lemma_url_skip(w, mb, seq![h, nl]);
    lemma_header_then_url(w, url, Seq::empty());
    assert(seq![h, nl] + Seq::<Seq<char>>::empty() =~= seq![h, nl]);
}

} // verus!
