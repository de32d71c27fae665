//! Ignore rules: glob patterns read from `.git/info/exclude` and
//! `.gitignore`, matched through the `glob` crate.

use crate::commit::strings_view;
use crate::text::{chars_of, lines_of, string_of, text_lines, trim, trim_bounds};
use vstd::prelude::*;

verus! {

broadcast use vstd::string::group_string_axioms;

/// Whether `glob::Pattern::new` accepts a pattern.
pub uninterp spec fn glob_compiles(pattern: Seq<char>) -> bool;

/// Whether the pattern, compiled by `glob::Pattern::new`, matches a path
/// (`Pattern::matches` with the default options).
pub uninterp spec fn glob_matches(pattern: Seq<char>, path: Seq<char>) -> bool;

/// `glob::Pattern::new(pattern).is_ok()`.
#[verifier::external_body]
fn compiles(pattern: &str) -> (r: bool)
    ensures
        r == glob_compiles(pattern@),
{
    ::glob::Pattern::new(pattern).is_ok()
}

/// `glob::Pattern::new(pattern)` then `matches(path)`, for a pattern that
/// compiles.
#[verifier::external_body]
fn pattern_matches(pattern: &str, path: &str) -> (r: bool)
    requires
        glob_compiles(pattern@),
    ensures
        r == glob_matches(pattern@, path@),
{
    match ::glob::Pattern::new(pattern) {
        Ok(p) => p.matches(path),
        Err(_) => false,
    }
}

/// The patterns that lines give: each line trimmed, blank lines and lines
/// starting with `#` dropped, and only patterns that compile kept.
pub open spec fn patterns_of(lines: Seq<Seq<char>>) -> Seq<Seq<char>>
    decreases lines.len(),
{
    if lines.len() == 0 {
        Seq::empty()
    } else {
        let t = trim(lines.last());
        patterns_of(lines.drop_last()) + (if t.len() > 0 && t[0] != '#' && glob_compiles(t) {
            seq![t]
        } else {
            Seq::empty()
        })
    }
}

/// The patterns of the text of an ignore file.
pub open spec fn ignore_patterns(content: Seq<char>) -> Seq<Seq<char>> {
    patterns_of(text_lines(content))
}

/// Paths to leave out of the work tree's listing.
pub struct Ignore {
    patterns: Vec<String>,
}

impl View for Ignore {
    type V = Seq<Seq<char>>;

    closed spec fn view(&self) -> Seq<Seq<char>> {
        strings_view(self.patterns@)
    }
}

impl Ignore {
    #[verifier::type_invariant]
    spec fn compiled(self) -> bool {
        forall|i: int| 0 <= i < self.patterns@.len() ==> glob_compiles(#[trigger] self.patterns@[i]@)
    }

    /// The patterns of an ignore file's text.
    pub fn parse_content(content: &str) -> (r: Vec<String>)
        ensures
            strings_view(r@) == ignore_patterns(content@),
            forall|i: int| 0 <= i < r@.len() ==> glob_compiles(#[trigger] r@[i]@),
    {
        let cs = chars_of(content);
        let lines = lines_of(cs.as_slice());
        let ghost lv = lines@.map_values(|l: Vec<char>| l@);
        let mut out: Vec<String> = Vec::new();
        let mut i: usize = 0;
        assert(lv.take(0) =~= Seq::<Seq<char>>::empty());
        while i < lines.len()
            invariant
                i <= lines@.len(),
                lv == lines@.map_values(|l: Vec<char>| l@),
                lv == text_lines(content@),
                strings_view(out@) == patterns_of(lv.take(i as int)),
                forall|k: int| 0 <= k < out@.len() ==> glob_compiles(#[trigger] out@[k]@),
            decreases lines@.len() - i,
        {
            let l = &lines[i];
            let (a, b) = trim_bounds(l.as_slice(), 0, l.len());
            assert(l@.subrange(0, l@.len() as int) =~= l@);
            let ghost before = out@;
            if a < b && l[a] != '#' {
                let t = string_of(&l.as_slice()[a..b]);
                if compiles(t.as_str()) {
                    out.push(t);
                }
            }
            proof {
                assert(lv[i as int] == l@);
                assert(lv.take(i + 1).drop_last() =~= lv.take(i as int));
                assert(lv.take(i + 1).last() == l@);
                assert(strings_view(out@) =~= patterns_of(lv.take(i + 1)));
            }
            i = i + 1;
        }
        assert(lv.take(i as int) =~= lv);
        out
    }

    /// The rules of a repository: the patterns of `.git/info/exclude`, then
    /// those of `.gitignore` (each `None` when the file cannot be read).
    pub fn load_for_repo(exclude: Option<&str>, gitignore: Option<&str>) -> (r: Ignore)
        ensures
            r@ == (match exclude {
                Some(c) => ignore_patterns(c@),
                None => Seq::empty(),
            }) + (match gitignore {
                Some(c) => ignore_patterns(c@),
                None => Seq::empty(),
            }),
    {
        let mut patterns: Vec<String> = Vec::new();
        match exclude {
            Some(c) => {
                let mut p = Ignore::parse_content(c);
                patterns.append(&mut p);
            },
            None => {},
        }
        let ghost mid = patterns@;
        match gitignore {
            Some(c) => {
                let mut p = Ignore::parse_content(c);
                patterns.append(&mut p);
            },
            None => {},
        }
        let r = Ignore { patterns };
        proof {
            let e = match exclude {
                Some(c) => ignore_patterns(c@),
                None => Seq::<Seq<char>>::empty(),
            };
            let g = match gitignore {
                Some(c) => ignore_patterns(c@),
                None => Seq::<Seq<char>>::empty(),
            };
            assert(r@ =~= e + g);
        }
        r
    }

    /// Some pattern matches `path`.
    pub fn is_ignored(&self, path: &str) -> (r: bool)
        ensures
            r == exists|i: int| 0 <= i < self@.len() && glob_matches(#[trigger] self@[i], path@),
    {
        proof {
            use_type_invariant(self);
        }
        let mut i: usize = 0;
        while i < self.patterns.len()
            invariant
                i <= self.patterns@.len(),
                forall|k: int| 0 <= k < self.patterns@.len() ==> glob_compiles(#[trigger] self.patterns@[k]@),
                forall|k: int| 0 <= k < i ==> !glob_matches(#[trigger] self@[k], path@),
            decreases self.patterns@.len() - i,
        {
            assert(self@[i as int] == self.patterns@[i as int]@);
            if pattern_matches(self.patterns[i].as_str(), path) {
                return true;
            }
            i = i + 1;
        }
        false
    }
}

} // verus!
