use vstd::prelude::*;

use crate::status::chars_of;
use crate::status::starts_with_chars;

verus! {

/// What a directory entry is, read without following symbolic links.
#[derive(Clone, Copy, Debug, PartialEq, Eq, Structural)]
pub enum EntryKind {
    Dir,
    File,
    Symlink,
    Other,
}

/// Name of the entry that marks a repository's working-tree root.
pub open spec fn marker_name() -> Seq<char> {
    ".git"@
}

/// A marker: an entry of that name that is a directory, or a regular file
/// that points to the metadata elsewhere.
pub open spec fn is_marker_spec(name: Seq<char>, kind: EntryKind) -> bool {
    name == marker_name() && (kind == EntryKind::Dir || kind == EntryKind::File)
}

/// An entry whose contents the walk never visits: a marker directory.
pub open spec fn is_pruned_spec(name: Seq<char>, kind: EntryKind) -> bool {
    name == marker_name() && kind == EntryKind::Dir
}

/// Whether `name` is the marker's name.
pub fn is_marker_name(name: &str) -> (r: bool)
    ensures
        r == (name@ == marker_name()),
{
    let n = chars_of(name);
    let m = chars_of(".git");
    if n.len() != m.len() {
        return false;
    }
    let r = starts_with_chars(&n, &m);
    assert(n@.subrange(0, m@.len() as int) =~= n@);
    r
}

/// Whether the entry `name` of kind `kind` marks its parent directory as a
/// repository's working-tree root.
pub fn is_git_marker(name: &str, kind: EntryKind) -> (r: bool)
    ensures
        r == is_marker_spec(name@, kind),
{
    is_marker_name(name) && (kind == EntryKind::Dir || kind == EntryKind::File)
}

/// Whether the walk must not descend into the entry `name` of kind `kind`.
pub fn skips_contents(name: &str, kind: EntryKind) -> (r: bool)
    ensures
        r == is_pruned_spec(name@, kind),
{
    is_marker_name(name) && kind == EntryKind::Dir
}


broadcast use vstd::seq::axiom_seq_index_decreases, vstd::seq::axiom_seq_subrange_decreases;

/// A directory tree as the walk meets it. A symbolic link keeps what it
/// points to in `target`, which the walk never enters.
pub enum Tree {
    Dir { name: Seq<char>, children: Seq<Tree> },
    File { name: Seq<char> },
    Link { name: Seq<char>, target: Seq<Tree> },
    Other { name: Seq<char> },
}

impl Tree {
    pub open spec fn name(self) -> Seq<char> {
        match self {
            Tree::Dir { name, .. } => name,
            Tree::File { name } => name,
            Tree::Link { name, .. } => name,
            Tree::Other { name } => name,
        }
    }

    pub open spec fn kind(self) -> EntryKind {
        match self {
            Tree::Dir { .. } => EntryKind::Dir,
            Tree::File { .. } => EntryKind::File,
            Tree::Link { .. } => EntryKind::Symlink,
            Tree::Other { .. } => EntryKind::Other,
        }
    }
}

/// A path: the names from the walk's root down to an entry.
pub type FsPath = Seq<Seq<char>>;

/// The entries that a depth-first walk visits, with their kinds, in order:
/// `t` first, `t` lying in the directory at `dir`. Links are not followed and
/// a marker directory's contents are skipped.
pub open spec fn visited(t: Tree, dir: FsPath) -> Seq<(FsPath, EntryKind)>
    decreases t,
{
    let p = dir.push(t.name());
    seq![(p, t.kind())] + match t {
        Tree::Dir { name, children } => if is_pruned_spec(name, EntryKind::Dir) {
            Seq::empty()
        } else {
            visited_all(children, p)
        },
        _ => Seq::empty(),
    }
}

/// The entries visited under each of `cs` in turn, all in the directory at `dir`.
pub open spec fn visited_all(cs: Seq<Tree>, dir: FsPath) -> Seq<(FsPath, EntryKind)>
    decreases cs,
{
    if cs.len() == 0 {
        Seq::empty()
    } else {
        visited(cs[0], dir) + visited_all(cs.subrange(1, cs.len() as int), dir)
    }
}

/// The repository roots that the walk reports, in order: the directory that
/// holds each marker it visits.
pub open spec fn found(t: Tree, dir: FsPath) -> Seq<FsPath>
    decreases t,
{
    (if is_marker_spec(t.name(), t.kind()) {
        seq![dir]
    } else {
        Seq::empty()
    }) + match t {
        Tree::Dir { name, children } => if is_pruned_spec(name, EntryKind::Dir) {
            Seq::empty()
        } else {
            found_all(children, dir.push(name))
        },
        _ => Seq::empty(),
    }
}

/// The roots reported under each of `cs` in turn, all in the directory at `dir`.
pub open spec fn found_all(cs: Seq<Tree>, dir: FsPath) -> Seq<FsPath>
    decreases cs,
{
    if cs.len() == 0 {
        Seq::empty()
    } else {
        found(cs[0], dir) + found_all(cs.subrange(1, cs.len() as int), dir)
    }
}


/// Every path of `v` lies strictly below `dir`, and below `dir` none of its
/// names but its last is the marker's: it is not inside a marker directory.
pub open spec fn outside_markers(v: Seq<(FsPath, EntryKind)>, dir: FsPath) -> bool {
    forall|i: int|
        0 <= i < v.len() ==> {
            let p = (#[trigger] v[i]).0;
            &&& p.len() > dir.len()
            &&& p.subrange(0, dir.len() as int) == dir
            &&& forall|m: int| dir.len() <= m < p.len() - 1 ==> #[trigger] p[m] != marker_name()
        }
}

proof fn lemma_outside_concat(a: Seq<(FsPath, EntryKind)>, b: Seq<(FsPath, EntryKind)>, dir: FsPath)
    requires
        outside_markers(a, dir),
        outside_markers(b, dir),
    ensures
        outside_markers(a + b, dir),
{
    assert forall|i: int| 0 <= i < (a + b).len() implies (#[trigger] (a + b)[i]) == if i < a.len() {
        a[i]
    } else {
        b[i - a.len()]
    } by {}
}

proof fn lemma_outside_lift(v: Seq<(FsPath, EntryKind)>, dir: FsPath, name: Seq<char>)
    requires
        outside_markers(v, dir.push(name)),
        name != marker_name(),
    ensures
        outside_markers(v, dir),
{
    let d = dir.push(name);
    assert forall|i: int| 0 <= i < v.len() implies {
        let p = (#[trigger] v[i]).0;
        &&& p.len() > dir.len()
        &&& p.subrange(0, dir.len() as int) == dir
        &&& forall|m: int| dir.len() <= m < p.len() - 1 ==> #[trigger] p[m] != marker_name()
    } by {
        let p = v[i].0;
        assert(p.subrange(0, d.len() as int) == d);
        assert(p.subrange(0, dir.len() as int) =~= d.subrange(0, dir.len() as int));
        assert(d.subrange(0, dir.len() as int) =~= dir);
        assert(p[dir.len() as int] == p.subrange(0, d.len() as int)[dir.len() as int]);
        assert forall|m: int| dir.len() <= m < p.len() - 1 implies #[trigger] p[m]
            != marker_name() by {
            if m == dir.len() {
                assert(p[m] == name);
            }
        }
    }
}

proof fn lemma_single_outside(p: FsPath, k: EntryKind, dir: FsPath, name: Seq<char>)
    requires
        p == dir.push(name),
    ensures
        outside_markers(seq![(p, k)], dir),
{
    assert(p.subrange(0, dir.len() as int) =~= dir);
}

/// No entry that the walk visits lies inside a marker directory.
pub proof fn lemma_walk_skips_marker_contents(t: Tree, dir: FsPath)
    ensures
        outside_markers(visited(t, dir), dir),
    decreases t,
{
    let p = dir.push(t.name());
    lemma_single_outside(p, t.kind(), dir, t.name());
    match t {
        Tree::Dir { name, children } => {
            if !is_pruned_spec(name, EntryKind::Dir) {
                lemma_walk_all_skips_marker_contents(children, p);
                lemma_outside_lift(visited_all(children, p), dir, name);
                lemma_outside_concat(seq![(p, t.kind())], visited_all(children, p), dir);
            } else {
                assert(visited(t, dir) =~= seq![(p, t.kind())]);
            }
        },
        _ => {
            assert(visited(t, dir) =~= seq![(p, t.kind())]);
        },
    }
}

/// No entry visited under any of `cs` lies inside a marker directory.
pub proof fn lemma_walk_all_skips_marker_contents(cs: Seq<Tree>, dir: FsPath)
    ensures
        outside_markers(visited_all(cs, dir), dir),
    decreases cs,
{
    if cs.len() > 0 {
        lemma_walk_skips_marker_contents(cs[0], dir);
        lemma_walk_all_skips_marker_contents(cs.subrange(1, cs.len() as int), dir);
        lemma_outside_concat(
            visited(cs[0], dir),
            visited_all(cs.subrange(1, cs.len() as int), dir),
            dir,
        );
    }
}


/// The directories that hold the markers among the entries `v`, in order,
/// one for each marker.
pub open spec fn marker_parents(v: Seq<(FsPath, EntryKind)>) -> Seq<FsPath>
    decreases v.len(),
{
    if v.len() == 0 {
        Seq::empty()
    } else {
        (if is_marker_spec(v[0].0.last(), v[0].1) {
            seq![v[0].0.drop_last()]
        } else {
            Seq::empty()
        }) + marker_parents(v.drop_first())
    }
}

proof fn lemma_marker_parents_concat(a: Seq<(FsPath, EntryKind)>, b: Seq<(FsPath, EntryKind)>)
    ensures
        marker_parents(a + b) == marker_parents(a) + marker_parents(b),
    decreases a.len(),
{
    if a.len() == 0 {
        assert(a + b =~= b);
        assert(marker_parents(a) + marker_parents(b) =~= marker_parents(b));
    } else {
        assert((a + b).drop_first() =~= a.drop_first() + b);
        assert((a + b)[0] == a[0]);
        lemma_marker_parents_concat(a.drop_first(), b);
        let h = if is_marker_spec(a[0].0.last(), a[0].1) {
            seq![a[0].0.drop_last()]
        } else {
            Seq::<FsPath>::empty()
        };
        assert(h + (marker_parents(a.drop_first()) + marker_parents(b)) =~= (h
            + marker_parents(a.drop_first())) + marker_parents(b));
    }
}

/// The walk reports, in order, the directory holding each marker it visits,
/// once per marker, and nothing else.
pub proof fn lemma_roots_are_marker_parents(t: Tree, dir: FsPath)
    ensures
        found(t, dir) == marker_parents(visited(t, dir)),
    decreases t,
{
    let p = dir.push(t.name());
    let head = seq![(p, t.kind())];
    let rest = match t {
        Tree::Dir { name, children } => if is_pruned_spec(name, EntryKind::Dir) {
            Seq::empty()
        } else {
            visited_all(children, p)
        },
        _ => Seq::empty(),
    };
    lemma_marker_parents_concat(head, rest);
    assert(head.drop_first() =~= Seq::<(FsPath, EntryKind)>::empty());
    assert(p.last() == t.name());
    assert(p.drop_last() =~= dir);
    let top = if is_marker_spec(t.name(), t.kind()) {
        seq![dir]
    } else {
        Seq::<FsPath>::empty()
    };
    assert(head[0] == (p, t.kind()));
    assert(marker_parents(head.drop_first()) =~= Seq::<FsPath>::empty());
    assert(marker_parents(head) =~= top);
    match t {
        Tree::Dir { name, children } => {
            if !is_pruned_spec(name, EntryKind::Dir) {
                lemma_all_roots_are_marker_parents(children, p);
            } else {
                assert(marker_parents(rest) =~= Seq::<FsPath>::empty());
                assert(found(t, dir) =~= top);
            }
        },
        _ => {
            assert(marker_parents(rest) =~= Seq::<FsPath>::empty());
            assert(found(t, dir) =~= top);
        },
    }
}

/// The same, for the entries under each of `cs` in turn.
pub proof fn lemma_all_roots_are_marker_parents(cs: Seq<Tree>, dir: FsPath)
    ensures
        found_all(cs, dir) == marker_parents(visited_all(cs, dir)),
    decreases cs,
{
    if cs.len() > 0 {
        let tail = cs.subrange(1, cs.len() as int);
        lemma_roots_are_marker_parents(cs[0], dir);
        lemma_all_roots_are_marker_parents(tail, dir);
        lemma_marker_parents_concat(visited(cs[0], dir), visited_all(tail, dir));
    }
}

proof fn lemma_contains_concat<A>(a: Seq<A>, b: Seq<A>, x: A)
    ensures
        a.contains(x) ==> (a + b).contains(x),
        b.contains(x) ==> (a + b).contains(x),
{
    if a.contains(x) {
        let i = choose|i: int| 0 <= i < a.len() && a[i] == x;
        assert((a + b)[i] == x);
    }
    if b.contains(x) {
        let i = choose|i: int| 0 <= i < b.len() && b[i] == x;
        assert((a + b)[a.len() + i] == x);
    }
}

/// Each of `f` is `dir` or a directory among the entries `v`.
pub open spec fn dirs_among(f: Seq<FsPath>, v: Seq<(FsPath, EntryKind)>, dir: FsPath) -> bool {
    forall|i: int| 0 <= i < f.len() ==> #[trigger] f[i] == dir || v.contains((f[i], EntryKind::Dir))
}

/// Links are not followed: a link is visited as one entry and yields no root,
/// whatever it points to, and every root the walk reports is `dir` or a
/// directory it visited, never a place reached through a link.
pub proof fn lemma_links_not_followed(t: Tree, dir: FsPath)
    ensures
        dirs_among(found(t, dir), visited(t, dir), dir),
        forall|name: Seq<char>, target: Seq<Tree>|
            #![trigger visited(Tree::Link { name, target }, dir)]
            #![trigger found(Tree::Link { name, target }, dir)]
            visited(Tree::Link { name, target }, dir) == seq![
                (dir.push(name), EntryKind::Symlink),
            ] && found(Tree::Link { name, target }, dir) == Seq::<FsPath>::empty(),
    decreases t,
{
    assert forall|name: Seq<char>, target: Seq<Tree>|
        visited(Tree::Link { name, target }, dir) == seq![(dir.push(name), EntryKind::Symlink)]
            && found(Tree::Link { name, target }, dir) == Seq::<FsPath>::empty() by {
        assert(visited(Tree::Link { name, target }, dir) =~= seq![
            (dir.push(name), EntryKind::Symlink),
        ]);
        assert(found(Tree::Link { name, target }, dir) =~= Seq::<FsPath>::empty());
    }
    let p = dir.push(t.name());
    let top = if is_marker_spec(t.name(), t.kind()) {
        seq![dir]
    } else {
        Seq::<FsPath>::empty()
    };
    match t {
        Tree::Dir { name, children } => {
            if !is_pruned_spec(name, EntryKind::Dir) {
                let f = found_all(children, p);
                let v = visited_all(children, p);
                lemma_all_roots_are_dirs(children, p);
                assert(visited(t, dir) == seq![(p, EntryKind::Dir)] + v);
                assert(visited(t, dir)[0] == (p, EntryKind::Dir));
                assert forall|i: int| 0 <= i < found(t, dir).len() implies #[trigger] found(
                    t,
                    dir,
                )[i] == dir || visited(t, dir).contains((found(t, dir)[i], EntryKind::Dir)) by {
                    if i >= top.len() {
                        let e = f[i - top.len()];
                        assert(found(t, dir)[i] == e);
                        lemma_contains_concat(seq![(p, EntryKind::Dir)], v, (e, EntryKind::Dir));
                    }
                }
            } else {
                assert(found(t, dir) =~= top);
            }
        },
        _ => {
            assert(found(t, dir) =~= top);
        },
    }
}

proof fn lemma_all_roots_are_dirs(cs: Seq<Tree>, dir: FsPath)
    ensures
        dirs_among(found_all(cs, dir), visited_all(cs, dir), dir),
    decreases cs,
{
    if cs.len() > 0 {
        let tail = cs.subrange(1, cs.len() as int);
        lemma_links_not_followed(cs[0], dir);
        lemma_all_roots_are_dirs(tail, dir);
        let f0 = found(cs[0], dir);
        let f1 = found_all(tail, dir);
        let v0 = visited(cs[0], dir);
        let v1 = visited_all(tail, dir);
        assert forall|i: int| 0 <= i < (f0 + f1).len() implies #[trigger] (f0 + f1)[i] == dir || (
        v0 + v1).contains(((f0 + f1)[i], EntryKind::Dir)) by {
            if i < f0.len() {
                assert((f0 + f1)[i] == f0[i]);
                lemma_contains_concat(v0, v1, (f0[i], EntryKind::Dir));
            } else {
                assert((f0 + f1)[i] == f1[i - f0.len()]);
                lemma_contains_concat(v0, v1, (f1[i - f0.len()], EntryKind::Dir));
            }
        }
    }
}


/// The names of `cs`, in order.
pub open spec fn child_names(cs: Seq<Tree>) -> Seq<Seq<char>> {
    cs.map_values(|c: Tree| c.name())
}

/// As in a real file system, the entries of each directory have distinct names.
pub open spec fn names_unique(t: Tree) -> bool
    decreases t,
{
    match t {
        Tree::Dir { children, .. } => child_names(children).no_duplicates() && forall|i: int|
            0 <= i < children.len() ==> names_unique(#[trigger] children[i]),
        _ => true,
    }
}

/// The paths of the entries `v`, in order.
pub open spec fn paths_of(v: Seq<(FsPath, EntryKind)>) -> Seq<FsPath> {
    v.map_values(|e: (FsPath, EntryKind)| e.0)
}

proof fn lemma_no_dup_concat<A>(a: Seq<A>, b: Seq<A>)
    requires
        a.no_duplicates(),
        b.no_duplicates(),
        forall|i: int, j: int| 0 <= i < a.len() && 0 <= j < b.len() ==> a[i] != b[j],
    ensures
        (a + b).no_duplicates(),
{
    assert forall|i: int, j: int| 0 <= i < (a + b).len() && 0 <= j < (a + b).len() && i != j
        implies (a + b)[i] != (a + b)[j] by {
        if i < a.len() && j >= a.len() {
            assert(b[j - a.len()] == (a + b)[j]);
        } else if j < a.len() && i >= a.len() {
            assert(b[i - a.len()] == (a + b)[i]);
        }
    }
}

/// Each path in `v` starts with `dir` and goes on with a name among `names`.
pub open spec fn shaped(v: Seq<(FsPath, EntryKind)>, dir: FsPath, names: Seq<Seq<char>>) -> bool {
    forall|i: int|
        0 <= i < v.len() ==> {
            let p = (#[trigger] v[i]).0;
            &&& p.len() > dir.len()
            &&& p.subrange(0, dir.len() as int) == dir
            &&& names.contains(p[dir.len() as int])
        }
}

proof fn lemma_visited_shape(t: Tree, dir: FsPath)
    ensures
        shaped(visited(t, dir), dir, seq![t.name()]),
{
    lemma_walk_skips_marker_contents(t, dir);
    let v = visited(t, dir);
    let p = dir.push(t.name());
    match t {
        Tree::Dir { name, children } => {
            if !is_pruned_spec(name, EntryKind::Dir) {
                lemma_walk_all_skips_marker_contents(children, p);
                assert forall|i: int| 0 <= i < v.len() implies seq![t.name()].contains(
                    (#[trigger] v[i]).0[dir.len() as int],
                ) by {
                    assert(seq![t.name()][0] == t.name());
                    if i > 0 {
                        let e = visited_all(children, p)[i - 1].0;
                        assert(v[i] == visited_all(children, p)[i - 1]);
                        assert(e.subrange(0, p.len() as int) == p);
                        assert(e[dir.len() as int] == e.subrange(0, p.len() as int)[dir.len() as int]);
                    }
                }
            } else {
                assert(seq![t.name()][0] == t.name());
            }
        },
        _ => {
            assert(seq![t.name()][0] == t.name());
        },
    }
}


proof fn lemma_visited_all_shape(cs: Seq<Tree>, dir: FsPath)
    ensures
        shaped(visited_all(cs, dir), dir, child_names(cs)),
    decreases cs.len(),
{
    if cs.len() > 0 {
        let tail = cs.subrange(1, cs.len() as int);
        let a = visited(cs[0], dir);
        let b = visited_all(tail, dir);
        lemma_visited_shape(cs[0], dir);
        lemma_visited_all_shape(tail, dir);
        let names = child_names(cs);
        assert(names[0] == cs[0].name());
        assert forall|k: int| 0 <= k < child_names(tail).len() implies child_names(tail)[k]
            == names[k + 1] by {}
        assert forall|i: int| 0 <= i < (a + b).len() implies names.contains(
            (#[trigger] (a + b)[i]).0[dir.len() as int],
        ) by {
            if i < a.len() {
                assert((a + b)[i] == a[i]);
                assert(seq![cs[0].name()].contains(a[i].0[dir.len() as int]));
                assert(seq![cs[0].name()][0] == cs[0].name());
            } else {
                assert((a + b)[i] == b[i - a.len()]);
                let x = b[i - a.len()].0[dir.len() as int];
                assert(child_names(tail).contains(x));
                let k = choose|k: int| 0 <= k < child_names(tail).len() && child_names(tail)[k] == x;
                assert(names[k + 1] == x);
            }
        }
        assert forall|i: int| 0 <= i < (a + b).len() implies {
            let p = (#[trigger] (a + b)[i]).0;
            &&& p.len() > dir.len()
            &&& p.subrange(0, dir.len() as int) == dir
        } by {
            if i < a.len() {
                assert((a + b)[i] == a[i]);
            } else {
                assert((a + b)[i] == b[i - a.len()]);
            }
        }
    }
}

proof fn lemma_visited_no_dup(t: Tree, dir: FsPath)
    requires
        names_unique(t),
    ensures
        paths_of(visited(t, dir)).no_duplicates(),
    decreases t,
{
    let p = dir.push(t.name());
    let head = seq![(p, t.kind())];
    match t {
        Tree::Dir { name, children } => {
            if !is_pruned_spec(name, EntryKind::Dir) {
                let rest = visited_all(children, p);
                lemma_visited_all_no_dup(children, p);
                lemma_visited_all_shape(children, p);
                assert(paths_of(head + rest) =~= paths_of(head) + paths_of(rest));
                assert forall|i: int, j: int|
                    0 <= i < paths_of(head).len() && 0 <= j < paths_of(rest).len() implies paths_of(
                    head,
                )[i] != paths_of(rest)[j] by {
                    assert(paths_of(rest)[j] == rest[j].0);
                    assert(rest[j].0.len() > p.len());
                }
                lemma_no_dup_concat(paths_of(head), paths_of(rest));
            } else {
                assert(visited(t, dir) =~= head);
                assert(paths_of(head) =~= seq![p]);
            }
        },
        _ => {
            assert(visited(t, dir) =~= head);
            assert(paths_of(head) =~= seq![p]);
        },
    }
}

proof fn lemma_visited_all_no_dup(cs: Seq<Tree>, dir: FsPath)
    requires
        child_names(cs).no_duplicates(),
        forall|i: int| 0 <= i < cs.len() ==> names_unique(#[trigger] cs[i]),
    ensures
        paths_of(visited_all(cs, dir)).no_duplicates(),
    decreases cs,
{
    if cs.len() > 0 {
        let tail = cs.subrange(1, cs.len() as int);
        let a = visited(cs[0], dir);
        let b = visited_all(tail, dir);
        let names = child_names(cs);
        assert forall|k: int| 0 <= k < child_names(tail).len() implies child_names(tail)[k]
            == names[k + 1] by {}
        assert forall|i: int, j: int|
            0 <= i < child_names(tail).len() && 0 <= j < child_names(tail).len() && i != j implies child_names(
            tail,
        )[i] != child_names(tail)[j] by {
            assert(names[i + 1] != names[j + 1]);
        }
        assert forall|i: int| 0 <= i < tail.len() implies names_unique(#[trigger] tail[i]) by {
            assert(tail[i] == cs[i + 1]);
        }
        assert(names_unique(cs[0]));
        lemma_visited_no_dup(cs[0], dir);
        lemma_visited_all_no_dup(tail, dir);
        lemma_visited_shape(cs[0], dir);
        lemma_visited_all_shape(tail, dir);
        assert(paths_of(a + b) =~= paths_of(a) + paths_of(b));
        assert forall|i: int, j: int|
            0 <= i < paths_of(a).len() && 0 <= j < paths_of(b).len() implies paths_of(a)[i]
            != paths_of(b)[j] by {
            let x = a[i].0;
            let y = b[j].0;
            assert(paths_of(a)[i] == x);
            assert(paths_of(b)[j] == y);
            assert(seq![cs[0].name()].contains(x[dir.len() as int]));
            assert(seq![cs[0].name()][0] == cs[0].name());
            assert(child_names(tail).contains(y[dir.len() as int]));
            if x == y {
                let k = choose|k: int|
                    0 <= k < child_names(tail).len() && child_names(tail)[k] == y[dir.len() as int];
                assert(names[0] == names[k + 1]);
            }
        }
        lemma_no_dup_concat(paths_of(a), paths_of(b));
    }
}


proof fn lemma_marker_parents_from(v: Seq<(FsPath, EntryKind)>)
    requires
        forall|i: int| 0 <= i < v.len() ==> (#[trigger] v[i]).0.len() > 0,
    ensures
        forall|k: int|
            0 <= k < marker_parents(v).len() ==> paths_of(v).contains(
                (#[trigger] marker_parents(v)[k]).push(marker_name()),
            ),
    decreases v.len(),
{
    if v.len() > 0 {
        let rest = v.drop_first();
        assert forall|i: int| 0 <= i < rest.len() implies (#[trigger] rest[i]).0.len() > 0 by {
            assert(rest[i] == v[i + 1]);
        }
        lemma_marker_parents_from(rest);
        let h = if is_marker_spec(v[0].0.last(), v[0].1) {
            seq![v[0].0.drop_last()]
        } else {
            Seq::<FsPath>::empty()
        };
        assert forall|k: int| 0 <= k < marker_parents(v).len() implies paths_of(v).contains(
            (#[trigger] marker_parents(v)[k]).push(marker_name()),
        ) by {
            if k < h.len() {
                assert(marker_parents(v)[k] == v[0].0.drop_last());
                assert(v[0].0.drop_last().push(marker_name()) =~= v[0].0);
                assert(paths_of(v)[0] == v[0].0);
            } else {
                let x = marker_parents(rest)[k - h.len()];
                assert(marker_parents(v)[k] == x);
                let j = choose|j: int|
                    0 <= j < paths_of(rest).len() && paths_of(rest)[j] == x.push(marker_name());
                assert(paths_of(v)[j + 1] == paths_of(rest)[j]);
            }
        }
    }
}

proof fn lemma_marker_parents_no_dup(v: Seq<(FsPath, EntryKind)>)
    requires
        forall|i: int| 0 <= i < v.len() ==> (#[trigger] v[i]).0.len() > 0,
        paths_of(v).no_duplicates(),
    ensures
        marker_parents(v).no_duplicates(),
    decreases v.len(),
{
    if v.len() > 0 {
        let rest = v.drop_first();
        assert forall|i: int| 0 <= i < rest.len() implies (#[trigger] rest[i]).0.len() > 0 by {
            assert(rest[i] == v[i + 1]);
        }
        assert forall|i: int, j: int|
            0 <= i < paths_of(rest).len() && 0 <= j < paths_of(rest).len() && i != j implies paths_of(
            rest,
        )[i] != paths_of(rest)[j] by {
            assert(paths_of(rest)[i] == paths_of(v)[i + 1]);
            assert(paths_of(rest)[j] == paths_of(v)[j + 1]);
        }
        lemma_marker_parents_no_dup(rest);
        lemma_marker_parents_from(rest);
        let h = if is_marker_spec(v[0].0.last(), v[0].1) {
            seq![v[0].0.drop_last()]
        } else {
            Seq::<FsPath>::empty()
        };
        assert forall|i: int, j: int|
            0 <= i < h.len() && 0 <= j < marker_parents(rest).len() implies h[i]
            != marker_parents(rest)[j] by {
            if h[i] == marker_parents(rest)[j] {
                assert(v[0].0.drop_last().push(marker_name()) =~= v[0].0);
                let k = choose|k: int|
                    0 <= k < paths_of(rest).len() && paths_of(rest)[k] == h[i].push(
                        marker_name(),
                    );
                assert(paths_of(v)[k + 1] == paths_of(v)[0]);
            }
        }
        lemma_no_dup_concat(h, marker_parents(rest));
    }
}

/// In a tree whose directories hold entries of distinct names, the walk
/// reports no repository root twice.
pub proof fn lemma_roots_distinct(t: Tree, dir: FsPath)
    requires
        names_unique(t),
    ensures
        found(t, dir).no_duplicates(),
{
    lemma_roots_are_marker_parents(t, dir);
    lemma_visited_no_dup(t, dir);
    lemma_walk_skips_marker_contents(t, dir);
    let v = visited(t, dir);
    assert forall|i: int| 0 <= i < v.len() implies (#[trigger] v[i]).0.len() > 0 by {}
    lemma_marker_parents_no_dup(v);
}

} // verus!
