//! Differences between a tree, the index and the work tree.

use crate::hexenc::{encode_hex, hex_text};
use crate::index::{lookup, EntryView, Index, IndexEntry};
use vstd::prelude::*;

verus! {

/// A changed path and how: `'M'` modified, `'A'` added, `'D'` deleted.
pub struct DiffEntry {
    pub path: String,
    pub status: char,
}

/// The mathematical value of a difference.
pub struct DiffView {
    pub path: Seq<char>,
    pub status: char,
}

impl View for DiffEntry {
    type V = DiffView;

    open spec fn view(&self) -> DiffView {
        DiffView { path: self.path@, status: self.status }
    }
}

/// The differences between the index and the work tree that this function
/// reports: none (the status command compares them itself).
pub fn diff_index_to_worktree(_index: &Index) -> (r: Vec<DiffEntry>)
    ensures
        r@.len() == 0,
{
    Vec::new()
}

/// The id recorded last for `path` among `(path, id)` pairs.
pub open spec fn map_lookup(m: Seq<(Seq<char>, Seq<char>)>, path: Seq<char>) -> Option<Seq<char>>
    decreases m.len(),
{
    if m.len() == 0 {
        None
    } else if m.last().0 == path {
        Some(m.last().1)
    } else {
        map_lookup(m.drop_last(), path)
    }
}

/// The differences that index entries give against the tree: modified
/// where the ids differ, added where the tree lacks the path.
pub open spec fn staged_changes(tree: Seq<(Seq<char>, Seq<char>)>, es: Seq<EntryView>) -> Seq<DiffView>
    decreases es.len(),
{
    if es.len() == 0 {
        Seq::empty()
    } else {
        let e = es.last();
        let rest = staged_changes(tree, es.drop_last());
        match map_lookup(tree, e.path) {
            Some(t) => if hex_text(e.sha1) != t {
                rest.push(DiffView { path: e.path, status: 'M' })
            } else {
                rest
            },
            None => rest.push(DiffView { path: e.path, status: 'A' }),
        }
    }
}

/// The deletions: tree paths (each once, where it occurs last) that the
/// index lacks.
pub open spec fn deleted_paths(tree: Seq<(Seq<char>, Seq<char>)>, all: Seq<(Seq<char>, Seq<char>)>, es: Seq<EntryView>, from: int) -> Seq<DiffView>
    decreases tree.len(),
{
    if tree.len() == 0 {
        Seq::empty()
    } else {
        let i = tree.len() - 1;
        let p = tree.last().0;
        let rest = deleted_paths(tree.drop_last(), all, es, from);
        if lookup(es, p) is None && forall|j: int| from + i < j < all.len() ==> all[j].0 != p {
            rest.push(DiffView { path: p, status: 'D' })
        } else {
            rest
        }
    }
}

/// The values of `(path, id)` pairs.
pub open spec fn pairs_view(v: Seq<(String, String)>) -> Seq<(Seq<char>, Seq<char>)> {
    v.map_values(|p: (String, String)| (p.0@, p.1@))
}

fn find_last(tree: &Vec<(String, String)>, path: &String) -> (r: Option<usize>)
    ensures
        match r {
            Some(i) => i < tree@.len() && tree@[i as int].0@ == path@ && forall|j: int| i < j < tree@.len() ==> tree@[j].0@ != path@,
            None => forall|j: int| 0 <= j < tree@.len() ==> tree@[j].0@ != path@,
        },
        map_lookup(pairs_view(tree@), path@) == match r {
            Some(i) => Some(tree@[i as int].1@),
            None => None::<Seq<char>>,
        },
{
    let ghost m = pairs_view(tree@);
    let mut i = tree.len();
    assert(m.take(i as int) =~= m);
    while i > 0
        invariant
            i <= tree@.len(),
            m == pairs_view(tree@),
            forall|j: int| i <= j < tree@.len() ==> tree@[j].0@ != path@,
            map_lookup(m, path@) == map_lookup(m.take(i as int), path@),
        decreases i,
    {
        assert(m.take(i as int).last() == m[i - 1]);
        assert(m.take(i as int).drop_last() =~= m.take(i - 1));
        if tree[i - 1].0 == *path {
            return Some(i - 1);
        }
        i = i - 1;
    }
    None
}

/// Entry `i` of `all` is the last with its path.
pub open spec fn last_with_path(all: Seq<(Seq<char>, Seq<char>)>, i: int) -> bool {
    forall|j: int| i < j < all.len() ==> all[j].0 != all[i].0
}

proof fn lemma_last_occurrence(all: Seq<(Seq<char>, Seq<char>)>, j: int) -> (i: int)
    requires
        0 <= j < all.len(),
    ensures
        j <= i < all.len(),
        all[i].0 == all[j].0,
        last_with_path(all, i),
    decreases all.len() - j,
{
    if last_with_path(all, j) {
        j
    } else {
        let j2 = choose|j2: int| j < j2 < all.len() && all[j2].0 == all[j].0;
        lemma_last_occurrence(all, j2)
    }
}

/// Each deletion is a path of the first `n` tree entries, at its last
/// occurrence, that the index lacks.
pub open spec fn deletions_sound(all: Seq<(Seq<char>, Seq<char>)>, es: Seq<EntryView>, d: Seq<DiffView>, n: int) -> bool {
    forall|k: int|
        0 <= k < d.len() ==> (#[trigger] d[k]).status == 'D' && lookup(es, d[k].path) is None && exists|i: int|
            0 <= i < n && all[i].0 == d[k].path && last_with_path(all, i)
}

/// Each path of the first `n` tree entries that the index lacks is among
/// the deletions, at its last occurrence.
pub open spec fn deletions_complete(all: Seq<(Seq<char>, Seq<char>)>, es: Seq<EntryView>, d: Seq<DiffView>, n: int) -> bool {
    forall|i: int|
        0 <= i < n && lookup(es, (#[trigger] all[i]).0) is None && last_with_path(all, i) ==> exists|k: int|
            0 <= k < d.len() && d[k] == DiffView { path: all[i].0, status: 'D' }
}

/// No path is deleted twice.
pub open spec fn deletions_distinct(d: Seq<DiffView>) -> bool {
    forall|k1: int, k2: int| 0 <= k1 < k2 < d.len() ==> (#[trigger] d[k1]).path != (#[trigger] d[k2]).path
}

proof fn lemma_deleted_step(all: Seq<(Seq<char>, Seq<char>)>, es: Seq<EntryView>, n: int)
    requires
        1 <= n <= all.len(),
    ensures
        deleted_paths(all.take(n), all, es, 0) == if lookup(es, all[n - 1].0) is None && last_with_path(all, n - 1) {
            deleted_paths(all.take(n - 1), all, es, 0).push(DiffView { path: all[n - 1].0, status: 'D' })
        } else {
            deleted_paths(all.take(n - 1), all, es, 0)
        },
{
    let t = all.take(n);
    assert(t.drop_last() =~= all.take(n - 1));
    assert(t.last() == all[n - 1]);
}

proof fn lemma_deleted_prefix(all: Seq<(Seq<char>, Seq<char>)>, es: Seq<EntryView>, n: int)
    requires
        0 <= n <= all.len(),
    ensures
        deletions_sound(all, es, deleted_paths(all.take(n), all, es, 0), n),
        deletions_complete(all, es, deleted_paths(all.take(n), all, es, 0), n),
        deletions_distinct(deleted_paths(all.take(n), all, es, 0)),
    decreases n,
{
    let d = deleted_paths(all.take(n), all, es, 0);
    if n == 0 {
        assert(d == Seq::<DiffView>::empty());
    } else {
        lemma_deleted_prefix(all, es, n - 1);
        lemma_deleted_step(all, es, n);
        let rest = deleted_paths(all.take(n - 1), all, es, 0);
        let p = all[n - 1].0;
        if lookup(es, p) is None && last_with_path(all, n - 1) {
            lemma_deleted_push(all, es, rest, n);
        } else {
            assert(d == rest);
            assert forall|k: int| 0 <= k < d.len() implies (#[trigger] d[k]).status == 'D' && lookup(es, d[k].path) is None
                && exists|i: int| 0 <= i < n && all[i].0 == d[k].path && last_with_path(all, i) by {
                assert(d[k] == rest[k]);
            }
            assert forall|i: int| 0 <= i < n && lookup(es, (#[trigger] all[i]).0) is None && last_with_path(all, i) implies exists|k: int|
                0 <= k < d.len() && d[k] == DiffView { path: all[i].0, status: 'D' } by {
                if i == n - 1 {
                    assert(false);
                }
            }
        }
    }
}

proof fn lemma_deleted_push(all: Seq<(Seq<char>, Seq<char>)>, es: Seq<EntryView>, rest: Seq<DiffView>, n: int)
    requires
        1 <= n <= all.len(),
        lookup(es, all[n - 1].0) is None,
        last_with_path(all, n - 1),
        deletions_sound(all, es, rest, n - 1),
        deletions_complete(all, es, rest, n - 1),
        deletions_distinct(rest),
    ensures
        deletions_sound(all, es, rest.push(DiffView { path: all[n - 1].0, status: 'D' }), n),
        deletions_complete(all, es, rest.push(DiffView { path: all[n - 1].0, status: 'D' }), n),
        deletions_distinct(rest.push(DiffView { path: all[n - 1].0, status: 'D' })),
{
    lemma_deleted_push_sound(all, es, rest, n);
    lemma_deleted_push_complete(all, es, rest, n);
    lemma_deleted_push_distinct(all, es, rest, n);
}

proof fn lemma_deleted_push_sound(all: Seq<(Seq<char>, Seq<char>)>, es: Seq<EntryView>, rest: Seq<DiffView>, n: int)
    requires
        1 <= n <= all.len(),
        lookup(es, all[n - 1].0) is None,
        last_with_path(all, n - 1),
        deletions_sound(all, es, rest, n - 1),
    ensures
        deletions_sound(all, es, rest.push(DiffView { path: all[n - 1].0, status: 'D' }), n),
{
    let d = rest.push(DiffView { path: all[n - 1].0, status: 'D' });
    assert forall|k: int| 0 <= k < d.len() implies (#[trigger] d[k]).status == 'D' && lookup(es, d[k].path) is None
        && exists|i: int| 0 <= i < n && all[i].0 == d[k].path && last_with_path(all, i) by {
        if k < rest.len() {
            assert(d[k] == rest[k]);
            let i = choose|i: int| 0 <= i < n - 1 && all[i].0 == rest[k].path && last_with_path(all, i);
            assert(0 <= i < n && all[i].0 == d[k].path && last_with_path(all, i));
        } else {
            assert(0 <= n - 1 < n && all[n - 1].0 == d[k].path && last_with_path(all, n - 1));
        }
    }
}

proof fn lemma_deleted_push_complete(all: Seq<(Seq<char>, Seq<char>)>, es: Seq<EntryView>, rest: Seq<DiffView>, n: int)
    requires
        1 <= n <= all.len(),
        deletions_complete(all, es, rest, n - 1),
    ensures
        deletions_complete(all, es, rest.push(DiffView { path: all[n - 1].0, status: 'D' }), n),
{
    let x = DiffView { path: all[n - 1].0, status: 'D' };
    let d = rest.push(x);
    assert forall|i: int| 0 <= i < n && lookup(es, (#[trigger] all[i]).0) is None && last_with_path(all, i) implies exists|k: int|
        0 <= k < d.len() && d[k] == DiffView { path: all[i].0, status: 'D' } by {
        if i < n - 1 {
            let k = choose|k: int| 0 <= k < rest.len() && rest[k] == DiffView { path: all[i].0, status: 'D' };
            assert(d[k] == rest[k]);
        } else {
            assert(d[rest.len() as int] == x);
        }
    }
}

proof fn lemma_deleted_push_distinct(all: Seq<(Seq<char>, Seq<char>)>, es: Seq<EntryView>, rest: Seq<DiffView>, n: int)
    requires
        1 <= n <= all.len(),
        last_with_path(all, n - 1),
        deletions_sound(all, es, rest, n - 1),
        deletions_distinct(rest),
    ensures
        deletions_distinct(rest.push(DiffView { path: all[n - 1].0, status: 'D' })),
{
    let p = all[n - 1].0;
    let d = rest.push(DiffView { path: p, status: 'D' });
    assert forall|k1: int, k2: int| 0 <= k1 < k2 < d.len() implies (#[trigger] d[k1]).path != (#[trigger] d[k2]).path by {
        if k2 < rest.len() {
            assert(d[k1] == rest[k1] && d[k2] == rest[k2]);
        } else {
            assert(d[k1] == rest[k1]);
            let i = choose|i: int| 0 <= i < n - 1 && all[i].0 == rest[k1].path && last_with_path(all, i);
            if rest[k1].path == p {
                assert(all[n - 1].0 == all[i].0);
                assert(i < n - 1 < all.len());
            }
        }
    }
}

/// The deletions that `diff_tree_to_index` reports: every path of the tree
/// that the index lacks, with status `'D'`, exactly once, and nothing else.
pub proof fn lemma_deleted_paths_exact(tree: Seq<(Seq<char>, Seq<char>)>, es: Seq<EntryView>)
    ensures
        ({
            let d = deleted_paths(tree, tree, es, 0);
            &&& forall|k: int|
                0 <= k < d.len() ==> (#[trigger] d[k]).status == 'D' && lookup(es, d[k].path) is None
                    && exists|j: int| 0 <= j < tree.len() && tree[j].0 == d[k].path
            &&& forall|j: int|
                0 <= j < tree.len() && lookup(es, (#[trigger] tree[j]).0) is None ==> exists|k: int|
                    0 <= k < d.len() && d[k] == DiffView { path: tree[j].0, status: 'D' }
            &&& forall|k1: int, k2: int| 0 <= k1 < k2 < d.len() ==> (#[trigger] d[k1]).path != (#[trigger] d[k2]).path
        }),
{
    lemma_deleted_prefix(tree, es, tree.len() as int);
    assert(tree.take(tree.len() as int) =~= tree);
    let d = deleted_paths(tree, tree, es, 0);
    assert forall|k: int| 0 <= k < d.len() implies (#[trigger] d[k]).status == 'D' && lookup(es, d[k].path) is None
        && exists|j: int| 0 <= j < tree.len() && tree[j].0 == d[k].path by {
        assert(d[k] == d[k]);
    }
    assert forall|j: int| 0 <= j < tree.len() && lookup(es, (#[trigger] tree[j]).0) is None implies exists|k: int|
        0 <= k < d.len() && d[k] == DiffView { path: tree[j].0, status: 'D' } by {
        let i = lemma_last_occurrence(tree, j);
        assert(tree[i] == tree[i]);
    }
}

/// The differences between a tree's files (as `(path, hex id)` pairs) and
/// the index: for each index entry in order, `'M'` when the tree records
/// another id for its path, `'A'` when it records none; then `'D'` for each
/// path of the tree that the index lacks. The tree is given as its
/// `(path, hex id)` pairs.
pub fn diff_tree_to_index(tree: &Vec<(String, String)>, index: &Index) -> (r: Vec<DiffEntry>)
    ensures
        r@.map_values(|d: DiffEntry| d@) == staged_changes(pairs_view(tree@), index@) + deleted_paths(
            pairs_view(tree@),
            pairs_view(tree@),
            index@,
            0,
        ),
{
    let ghost m = pairs_view(tree@);
    let entries = index.entries();
    let ghost es = index@;
    let mut out: Vec<DiffEntry> = Vec::new();
    let mut i: usize = 0;
    assert(out@.map_values(|d: DiffEntry| d@) =~= staged_changes(m, es.take(0)));
    while i < entries.len()
        invariant
            i <= entries@.len(),
            entries@.map_values(|e: IndexEntry| e@) == es,
            m == pairs_view(tree@),
            out@.map_values(|d: DiffEntry| d@) == staged_changes(m, es.take(i as int)),
        decreases entries@.len() - i,
    {
        let e = &entries[i];
        assert(es[i as int] == e@);
        assert(es.take(i + 1).drop_last() =~= es.take(i as int));
        assert(es.take(i + 1).last() == e@);
        let h = encode_hex(&e.sha1);
        let ghost before = out@;
        match find_last(tree, &e.path) {
            Some(k) => {
                if !(h == tree[k].1) {
                    out.push(DiffEntry { path: e.path.clone(), status: 'M' });
                    assert(out@.map_values(|d: DiffEntry| d@) =~= before.map_values(|d: DiffEntry| d@).push(DiffView { path: e.path@, status: 'M' }));
                }
            },
            None => {
                out.push(DiffEntry { path: e.path.clone(), status: 'A' });
                assert(out@.map_values(|d: DiffEntry| d@) =~= before.map_values(|d: DiffEntry| d@).push(DiffView { path: e.path@, status: 'A' }));
            },
        }
        i = i + 1;
    }
    assert(es.take(i as int) =~= es);
    let ghost staged = out@.map_values(|d: DiffEntry| d@);
    let mut k: usize = 0;
    assert(m.take(0) =~= Seq::<(Seq<char>, Seq<char>)>::empty());
    assert(staged + deleted_paths(m.take(0), m, es, 0) =~= staged);
    while k < tree.len()
        invariant
            k <= tree@.len(),
            m == pairs_view(tree@),
            es == index@,
            out@.map_values(|d: DiffEntry| d@) == staged + deleted_paths(m.take(k as int), m, es, 0),
        decreases tree@.len() - k,
    {
        let p = &tree[k].0;
        assert(m.take(k + 1).drop_last() =~= m.take(k as int));
        assert(m.take(k + 1).last() == m[k as int]);
        assert(m[k as int].0 == p@);
        let present = index.contains(p.as_str());
        let mut later = false;
        let mut j = k + 1;
        while j < tree.len()
            invariant
                k < j <= tree@.len(),
                m == pairs_view(tree@),
                later == exists|x: int| k < x < j && m[x].0 == p@,
            decreases tree@.len() - j,
        {
            assert(m[j as int].0 == tree@[j as int].0@);
            if tree[j].0 == *p {
                later = true;
                assert(k < j < j + 1 && m[j as int].0 == p@);
            } else {
                assert forall|x: int| k < x < j + 1 && m[x].0 == p@ implies k < x < j by {}
            }
            j = j + 1;
        }
        let ghost before = out@;
        if !present && !later {
            out.push(DiffEntry { path: p.clone(), status: 'D' });
            assert(out@.map_values(|d: DiffEntry| d@) =~= before.map_values(|d: DiffEntry| d@).push(DiffView { path: p@, status: 'D' }));
        }
        k = k + 1;
    }
    assert(m.take(k as int) =~= m);
    out
}

/// A tree that records each staged file with its staged id, and no file
/// that is not staged, shows no staged change (as `status` finds right
/// after a commit of the index).
pub proof fn lemma_matching_tree_no_changes(tree: Seq<(Seq<char>, Seq<char>)>, es: Seq<EntryView>)
    requires
        forall|i: int| 0 <= i < es.len() ==> map_lookup(tree, (#[trigger] es[i]).path) == Some(
            hex_text(es[i].sha1),
        ),
        forall|j: int| 0 <= j < tree.len() ==> lookup(es, (#[trigger] tree[j]).0) is Some,
    ensures
        staged_changes(tree, es) + deleted_paths(tree, tree, es, 0) == Seq::<DiffView>::empty(),
{
    lemma_no_staged_changes(tree, es);
    lemma_no_deletions(tree, tree, es);
    assert(Seq::<DiffView>::empty() + Seq::<DiffView>::empty() =~= Seq::<DiffView>::empty());
}

proof fn lemma_no_staged_changes(tree: Seq<(Seq<char>, Seq<char>)>, es: Seq<EntryView>)
    requires
        forall|i: int| 0 <= i < es.len() ==> map_lookup(tree, (#[trigger] es[i]).path) == Some(
            hex_text(es[i].sha1),
        ),
    ensures
        staged_changes(tree, es) == Seq::<DiffView>::empty(),
    decreases es.len(),
{
    if es.len() > 0 {
        let rest = es.drop_last();
        assert forall|i: int| 0 <= i < rest.len() implies map_lookup(tree, (#[trigger] rest[i]).path)
            == Some(hex_text(rest[i].sha1)) by {
            assert(rest[i] == es[i]);
        }
        lemma_no_staged_changes(tree, rest);
        assert(map_lookup(tree, es[es.len() - 1].path) == Some(hex_text(es[es.len() - 1].sha1)));
    }
}

proof fn lemma_no_deletions(tree: Seq<(Seq<char>, Seq<char>)>, all: Seq<(Seq<char>, Seq<char>)>, es: Seq<EntryView>)
    requires
        forall|j: int| 0 <= j < tree.len() ==> lookup(es, (#[trigger] tree[j]).0) is Some,
    ensures
        deleted_paths(tree, all, es, 0) == Seq::<DiffView>::empty(),
    decreases tree.len(),
{
    if tree.len() > 0 {
        let rest = tree.drop_last();
        assert forall|j: int| 0 <= j < rest.len() implies lookup(es, (#[trigger] rest[j]).0) is Some by {
            assert(rest[j] == tree[j]);
        }
        lemma_no_deletions(rest, all, es);
        assert(lookup(es, tree[tree.len() - 1].0) is Some);
    }
}

} // verus!
