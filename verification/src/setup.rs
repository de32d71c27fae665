//! Finding the repository: from `GIT_DIR` and `GIT_WORK_TREE`, or the
//! nearest directory, from the current one up, that holds `.git`.

use crate::text::{chars_eq, chars_of, push_chars, starts_with, starts_with_at, string_of};
use vstd::prelude::*;

verus! {

broadcast use vstd::string::group_string_axioms;

/// Where the repository is: its git directory, its work tree, and the
/// current directory's path inside the work tree.
pub struct RepoInfo {
    pub git_dir: String,
    pub work_tree: String,
    pub prefix: String,
}

/// The repository that `GIT_DIR` and `GIT_WORK_TREE` name when both are
/// set (with an empty prefix); `None` otherwise, and the search begins.
pub fn repo_from_env(git_dir: Option<&str>, work_tree: Option<&str>) -> (r: Option<RepoInfo>)
    ensures
        r is Some <==> (git_dir is Some && work_tree is Some),
        r matches Some(info) ==> info.git_dir@ == git_dir.unwrap()@ && info.work_tree@
            == work_tree.unwrap()@ && info.prefix@ == Seq::<char>::empty(),
{
    match (git_dir, work_tree) {
        (Some(g), Some(w)) => Some(
            RepoInfo {
                git_dir: string_of(chars_of(g).as_slice()),
                work_tree: string_of(chars_of(w).as_slice()),
                prefix: string_of(&[]),
            },
        ),
        _ => None,
    }
}

/// The index of the last `/` of `p` before position `end`.
pub open spec fn last_slash(p: Seq<char>, end: int) -> Option<int>
    decreases end,
{
    if end <= 0 || end > p.len() {
        None
    } else if p[end - 1] == '/' {
        Some(end - 1)
    } else {
        last_slash(p, end - 1)
    }
}

/// The parent of a directory path written without `.`, `..`, doubled or
/// trailing slashes (as the current directory is): the text before its
/// last slash, `/` for a directory just below the root, empty for a single
/// relative name; `None` for the root and the empty path.
pub open spec fn parent_of(p: Seq<char>) -> Option<Seq<char>> {
    if p.len() == 0 || p == "/"@ {
        None
    } else {
        match last_slash(p, p.len() as int) {
            None => Some(Seq::empty()),
            Some(k) => if k == 0 {
                Some("/"@)
            } else {
                Some(p.take(k))
            },
        }
    }
}

/// The next directory up in the search for `.git`.
pub fn parent_dir(p: &str) -> (r: Option<String>)
    ensures
        r is Some <==> parent_of(p@) is Some,
        r matches Some(q) ==> parent_of(p@) == Some(q@),
{
    proof {
        reveal_strlit("/");
    }
    let cs = chars_of(p);
    if cs.len() == 0 || (cs.len() == 1 && cs[0] == '/') {
        proof {
            if cs.len() == 1 {
                assert(cs@ =~= "/"@);
            }
        }
        return None;
    }
    assert(p@ != "/"@) by {
        if p@ == "/"@ {
            assert(cs@.len() == 1 && cs@[0] == '/');
        }
    }
    let mut k = cs.len();
    while k > 0 && cs[k - 1] != '/'
        invariant
            k <= cs@.len(),
            cs@ == p@,
            last_slash(cs@, cs@.len() as int) == last_slash(cs@, k as int),
        decreases k,
    {
        k = k - 1;
    }
    if k == 0 {
        Some(string_of(&[]))
    } else if k == 1 {
        Some(string_of(chars_of("/").as_slice()))
    } else {
        Some(string_of(&cs.as_slice()[0..k - 1]))
    }
}

/// A path under `dir` as `Path::join` forms it for a relative name: a
/// slash between them unless `dir` already ends with one.
pub open spec fn join_dir(dir: Seq<char>, name: Seq<char>) -> Seq<char> {
    if dir.len() > 0 && dir.last() == '/' {
        dir + name
    } else {
        dir + "/"@ + name
    }
}

/// The `.git` directory to look for in `dir`.
pub fn git_dir_in(dir: &str) -> (r: String)
    ensures
        r@ == join_dir(dir@, ".git"@),
{
    let mut out = chars_of(dir);
    if !(out.len() > 0 && out[out.len() - 1] == '/') {
        push_chars(&mut out, chars_of("/").as_slice());
    }
    push_chars(&mut out, chars_of(".git").as_slice());
    string_of(out.as_slice())
}

/// The path of `cwd` inside `top` (`Path::strip_prefix` for paths written
/// as `parent_of` expects): empty when they are equal or `top` is not an
/// ancestor.
pub open spec fn path_inside(cwd: Seq<char>, top: Seq<char>) -> Seq<char> {
    if cwd == top {
        Seq::empty()
    } else if top.len() > 0 && top.last() == '/' && starts_with(cwd, top) {
        cwd.skip(top.len() as int)
    } else if starts_with(cwd, top + "/"@) {
        cwd.skip(top.len() as int + 1)
    } else {
        Seq::empty()
    }
}

/// The repository found at `top`, the nearest directory up from `cwd` that
/// holds `.git`: `GIT_DIR` or `top/.git`, `GIT_WORK_TREE` or `top`, and
/// the path of `cwd` inside `top`.
pub fn discovered_repo(cwd: &str, top: &str, env_git_dir: Option<&str>, env_work_tree: Option<&str>) -> (r: RepoInfo)
    ensures
        r.git_dir@ == match env_git_dir {
            Some(g) => g@,
            None => join_dir(top@, ".git"@),
        },
        r.work_tree@ == match env_work_tree {
            Some(w) => w@,
            None => top@,
        },
        r.prefix@ == path_inside(cwd@, top@),
{
    let git_dir = match env_git_dir {
        Some(g) => string_of(chars_of(g).as_slice()),
        None => git_dir_in(top),
    };
    let work_tree = match env_work_tree {
        Some(w) => string_of(chars_of(w).as_slice()),
        None => string_of(chars_of(top).as_slice()),
    };
    proof {
        reveal_strlit("/");
    }
    let c = chars_of(cwd);
    let t = chars_of(top);
    let mut ts = chars_of(top);
    ts.push('/');
    assert(ts@ =~= top@ + "/"@);
    assert(c@.subrange(0, c@.len() as int) =~= c@);
    let prefix = if chars_eq(c.as_slice(), t.as_slice()) {
        string_of(&[])
    } else if t.len() > 0 && t[t.len() - 1] == '/' && starts_with_at(c.as_slice(), 0, c.len(), t.as_slice()) {
        string_of(&c.as_slice()[t.len()..c.len()])
    } else if starts_with_at(c.as_slice(), 0, c.len(), ts.as_slice()) {
        string_of(&c.as_slice()[t.len() + 1..c.len()])
    } else {
        string_of(&[])
    };
    RepoInfo { git_dir, work_tree, prefix }
}

} // verus!
