//! Collection of every directory below a directory, from a snapshot of what
//! reading that directory tree gave back.

use vstd::prelude::*;
use vstd::seq_lib::lemma_no_dup_in_concat;

use crate::config::slash;

verus! {

/// What reading one directory gave back.
pub enum DirListing {
    /// The directory could not be opened for reading.
    Unreadable,
    /// The entries of the directory, in the order the system listed them.
    Entries(Vec<DirChild>),
}

/// One entry yielded while reading a directory.
pub enum DirChild {
    /// Reading the entry itself failed.
    Unreadable,
    /// The entry was read but its file type could not be determined.
    UnknownType(Vec<u8>),
    /// An entry that is not a directory (symbolic links are never followed).
    NotDir(Vec<u8>),
    /// A subdirectory: its path and what reading it gave back.
    Dir(Vec<u8>, DirListing),
}

/// The directories found below a directory, deepest first: each
/// subdirectory is preceded by everything found below it.
/// `None` when the directory itself could not be read.
pub open spec fn walk_spec(listing: DirListing) -> Option<Seq<Seq<u8>>>
    decreases listing, 1nat,
{
    match listing {
        DirListing::Unreadable => None,
        DirListing::Entries(children) => Some(children_walk(children@)),
    }
}

/// The directories found below the given entries of one directory.
pub open spec fn children_walk(children: Seq<DirChild>) -> Seq<Seq<u8>>
    decreases children, 0nat,
{
    if children.len() == 0 {
        Seq::empty()
    } else {
        children_walk(children.drop_last()) + child_walk(children.last())
    }
}

/// The directories contributed by one entry: for a subdirectory, whatever is
/// found below it (nothing when it cannot be read), then the subdirectory.
pub open spec fn child_walk(child: DirChild) -> Seq<Seq<u8>>
    decreases child, 0nat,
{
    match child {
        DirChild::Dir(path, sub) => match walk_spec(sub) {
            Some(found) => found.push(path@),
            None => seq![path@],
        },
        _ => Seq::empty(),
    }
}

/// Appends the directories found below `listing` to `out`.
fn collect_below(listing: &DirListing, out: &mut Vec<Vec<u8>>)
    requires
        listing is Entries,
    ensures
        final(out).deep_view() == old(out).deep_view() + walk_spec(*listing).unwrap(),
    decreases listing, 1nat,
{
    match listing {
        DirListing::Unreadable => {},
        DirListing::Entries(children) => {
            let n = children.len();
            let mut i: usize = 0;
            while i < n
                invariant
                    n == children@.len(),
                    i <= n,
                    *listing == DirListing::Entries(*children),
                    out.deep_view() == old(out).deep_view() + children_walk(children@.take(i as int)),
                decreases n - i,
            {
                let child = &children[i];
                assert(children@.take(i + 1).drop_last() == children@.take(i as int));
                let ghost before = out.deep_view();
                match child {
                    DirChild::Dir(path, sub) => {
                        proof {
                            assert(decreases_to!(*listing => listing->0));
                            assert(decreases_to!(*children => children@));
                            assert(decreases_to!(children@ => children@[i as int]));
                            assert(decreases_to!(children@[i as int] => *sub));
                        }
                        match sub {
                            DirListing::Unreadable => {},
                            DirListing::Entries(_) => {
                                collect_below(sub, out);
                            },
                        }
                        let ghost mid = out.deep_view();
                        let copy = path.clone();
                        assert(copy@ =~= path@);
                        assert(copy.deep_view() =~= path@);
                        let ghost pushed = out@.push(copy);
                        out.push(copy);
                        assert(out@ == pushed);
                        assert(out.deep_view()[mid.len() as int] == path@);
                        assert(out.deep_view() =~= mid.push(path@));
                        assert(out.deep_view() == before + child_walk(*child));
                    },
                    _ => {
                        assert(out.deep_view() =~= before + child_walk(*child));
                    },
                }
                assert(children@.take(i + 1).last() == children@[i as int]);
                assert(children_walk(children@.take(i + 1)) == children_walk(children@.take(i as int))
                    + child_walk(children@[i as int]));
                assert(out.deep_view() =~= old(out).deep_view() + children_walk(children@.take(i + 1)));
                i = i + 1;
            }
            assert(children@.take(n as int) == children@);
        },
    }
}

/// Lists every directory below the directory `path`, from `listing`, what
/// reading `path` and the directories below it gave; `path` itself is not
/// listed. A subdirectory comes after everything found below it; a
/// subdirectory that cannot be read is listed with nothing below it;
/// entries that cannot be read, or whose type cannot be determined, are
/// skipped; entries that are not directories, symbolic links among them,
/// are neither listed nor entered. Returns `None` when `path` itself could
/// not be read.
///
/// The list holds exactly the directories of the snapshot, and when the
/// snapshot has the shape that reading a directory tree gives, it lists
/// none twice, each lies strictly below `path`, and the parent of each is
/// `path` or is listed too.
pub fn recursive_dir_walk(path: &Vec<u8>, listing: &DirListing) -> (found: Option<Vec<Vec<u8>>>)
    ensures
        found is None <==> listing is Unreadable,
        match found {
            Some(dirs) => walk_spec(*listing) == Some(dirs.deep_view()),
            None => walk_spec(*listing) is None,
        },
        found matches Some(dirs) ==> forall|q: Seq<u8>|
            #[trigger] dirs.deep_view().contains(q) <==> tree_holds(*listing, q),
        found matches Some(dirs) ==> (tree_shaped(*listing, path@) ==> {
            let v = dirs.deep_view();
            &&& v.no_duplicates()
            &&& !v.contains(path@)
            &&& forall|k: int| 0 <= k < v.len() ==> lies_below(path@, #[trigger] v[k])
            &&& forall|k: int| 0 <= k < v.len() ==> entry_of(path@, #[trigger] v[k]) || parent_listed(v, v[k])
        }),
{
    match listing {
        DirListing::Unreadable => None,
        DirListing::Entries(_) => {
            let mut out: Vec<Vec<u8>> = Vec::new();
            collect_below(listing, &mut out);
            assert(out.deep_view() == walk_spec(*listing).unwrap());
            proof {
                law_walk_lists_exactly_the_directories_of_the_snapshot(*listing);
                if tree_shaped(*listing, path@) {
                    law_walk_lists_each_directory_once_below_root(*listing, path@);
                }
            }
            Some(out)
        },
    }
}

/// `path` is the path of a directory of the snapshot, at any depth: of a
/// subdirectory listed by a directory that could be read.
pub open spec fn tree_holds(listing: DirListing, path: Seq<u8>) -> bool
    decreases listing, 1nat,
{
    match listing {
        DirListing::Unreadable => false,
        DirListing::Entries(children) => children_hold(children@, path),
    }
}

/// `path` is the path of a directory among `children` or below them.
pub open spec fn children_hold(children: Seq<DirChild>, path: Seq<u8>) -> bool
    decreases children, 0nat,
{
    children.len() > 0 && (children_hold(children.drop_last(), path) || child_holds(children.last(), path))
}

/// `path` is the path of `child`, a subdirectory, or of a directory below it.
pub open spec fn child_holds(child: DirChild, path: Seq<u8>) -> bool
    decreases child, 0nat,
{
    match child {
        DirChild::Dir(p, sub) => p@ == path || tree_holds(sub, path),
        _ => false,
    }
}

proof fn lemma_walk_holds(listing: DirListing, q: Seq<u8>)
    ensures
        walk_spec(listing) matches Some(found) ==> (found.contains(q) <==> tree_holds(listing, q)),
    decreases listing, 1nat,
{
    match listing {
        DirListing::Unreadable => {},
        DirListing::Entries(children) => {
            assert(decreases_to!(listing => listing->0));
            lemma_children_hold(children@, q);
        },
    }
}

proof fn lemma_children_hold(children: Seq<DirChild>, q: Seq<u8>)
    ensures
        children_walk(children).contains(q) <==> children_hold(children, q),
    decreases children, 0nat,
{
    if children.len() > 0 {
        let a = children_walk(children.drop_last());
        let b = child_walk(children.last());
        lemma_children_hold(children.drop_last(), q);
        lemma_child_holds(children.last(), q);
        assert(children_walk(children) == a + b);
        if (a + b).contains(q) {
            let k = choose|k: int| 0 <= k < (a + b).len() && (a + b)[k] == q;
            if k < a.len() {
                assert(a[k] == q);
            } else {
                assert(b[k - a.len()] == q);
            }
        }
        if a.contains(q) {
            let k = choose|k: int| 0 <= k < a.len() && a[k] == q;
            assert((a + b)[k] == q);
        }
        if b.contains(q) {
            let k = choose|k: int| 0 <= k < b.len() && b[k] == q;
            assert((a + b)[a.len() + k] == q);
        }
    } else {
        assert(children_walk(children) =~= Seq::<Seq<u8>>::empty());
    }
}

proof fn lemma_child_holds(child: DirChild, q: Seq<u8>)
    ensures
        child_walk(child).contains(q) <==> child_holds(child, q),
    decreases child, 0nat,
{
    match child {
        DirChild::Dir(path, sub) => {
            lemma_walk_holds(sub, q);
            let found = match walk_spec(sub) {
                Some(f) => f,
                None => Seq::empty(),
            };
            let cw = child_walk(child);
            assert(cw =~= found.push(path@));
            if cw.contains(q) {
                let k = choose|k: int| 0 <= k < cw.len() && cw[k] == q;
                if k < found.len() {
                    assert(found[k] == q);
                }
            }
            if found.contains(q) {
                let k = choose|k: int| 0 <= k < found.len() && found[k] == q;
                assert(cw[k] == q);
            }
            assert(cw[found.len() as int] == path@);
            if sub is Unreadable {
                assert(!tree_holds(sub, q));
            }
        },
        _ => {
            assert(child_walk(child) =~= Seq::<Seq<u8>>::empty());
        },
    }
}

/// Law: the walk lists exactly the directories of the snapshot: a path is
/// listed when, and only when, it is the path of a subdirectory at any
/// depth, reached through directories that could all be read.
pub proof fn law_walk_lists_exactly_the_directories_of_the_snapshot(listing: DirListing)
    ensures
        walk_spec(listing) matches Some(found) ==> forall|q: Seq<u8>|
            #[trigger] found.contains(q) <==> tree_holds(listing, q),
{
    if let Some(found) = walk_spec(listing) {
        assert forall|q: Seq<u8>| #[trigger] found.contains(q) <==> tree_holds(listing, q) by {
            lemma_walk_holds(listing, q);
        }
    }
}

/// `prefix` is a prefix of `path`.
pub open spec fn is_prefix(prefix: Seq<u8>, path: Seq<u8>) -> bool {
    prefix.len() <= path.len() && path.subrange(0, prefix.len() as int) == prefix
}

/// The prefix that every entry of the directory `dir` starts with: `dir`
/// itself when it is empty or already ends with `/`, otherwise `dir`
/// followed by `/`; `dir.join(name)` is this prefix followed by `name`.
pub open spec fn entry_prefix(dir: Seq<u8>) -> Seq<u8> {
    if dir.len() == 0 || dir.last() == slash() {
        dir
    } else {
        dir.push(slash())
    }
}

/// `path` names an entry of the directory `dir`: it is `dir` joined with a
/// non-empty name that holds no `/`, as reading `dir` gives its entries.
pub open spec fn entry_of(dir: Seq<u8>, path: Seq<u8>) -> bool {
    let base = entry_prefix(dir);
    &&& base.len() < path.len()
    &&& is_prefix(base, path)
    &&& forall|i: int| base.len() <= i < path.len() ==> path[i] != slash()
}

/// `path` lies strictly below the directory `dir`, component by component
/// (as `Path::starts_with` decides it, for a path that is not `dir`).
pub open spec fn lies_below(dir: Seq<u8>, path: Seq<u8>) -> bool {
    entry_prefix(dir).len() < path.len() && is_prefix(entry_prefix(dir), path)
}

/// `path` is `dir` or lies below it, where `dir` names an entry.
pub open spec fn at_or_below(dir: Seq<u8>, path: Seq<u8>) -> bool {
    path == dir || is_prefix(dir.push(slash()), path)
}

/// Two entries of one directory are not the same subdirectory.
pub open spec fn distinct_dirs(a: DirChild, b: DirChild) -> bool {
    match (a, b) {
        (DirChild::Dir(p, _), DirChild::Dir(q, _)) => p@ != q@,
        _ => true,
    }
}

/// The snapshot read from the directory at `root` has the shape that
/// reading a directory tree gives: every subdirectory is an entry of the
/// directory that lists it (that directory's path joined with a name of
/// its own, non-empty and without `/`), no subdirectory is listed twice by
/// one directory, and the same holds inside every subdirectory. Reading a
/// tree that does not change while it is read gives this shape.
pub open spec fn tree_shaped(listing: DirListing, root: Seq<u8>) -> bool
    decreases listing, 1nat,
{
    match listing {
        DirListing::Unreadable => true,
        DirListing::Entries(children) => children_shaped(children@, root),
    }
}

/// The entries of the directory at `root` have the shape of a directory
/// tree, see [`tree_shaped`].
pub open spec fn children_shaped(children: Seq<DirChild>, root: Seq<u8>) -> bool
    decreases children, 0nat,
{
    if children.len() == 0 {
        true
    } else {
        &&& children_shaped(children.drop_last(), root)
        &&& child_shaped(children.last(), root)
        &&& forall|i: int| 0 <= i < children.len() - 1 ==> distinct_dirs(#[trigger] children[i], children.last())
    }
}

/// One entry of the directory at `root` has the shape of a directory tree,
/// see [`tree_shaped`].
pub open spec fn child_shaped(child: DirChild, root: Seq<u8>) -> bool
    decreases child, 0nat,
{
    match child {
        DirChild::Dir(path, sub) => entry_of(root, path@) && tree_shaped(sub, path@),
        _ => true,
    }
}

/// Some path of `list` is the directory that has `path` as an entry.
pub open spec fn parent_listed(list: Seq<Seq<u8>>, path: Seq<u8>) -> bool {
    exists|j: int| 0 <= j < list.len() && entry_of(#[trigger] list[j], path)
}

/// `path` is at or below one of the subdirectories among `children`.
pub open spec fn below_some_dir(children: Seq<DirChild>, path: Seq<u8>) -> bool {
    exists|i: int| 0 <= i < children.len() && (#[trigger] children[i]) is Dir
        && at_or_below(children[i]->Dir_0@, path)
}

proof fn lemma_prefix_trans(a: Seq<u8>, b: Seq<u8>, c: Seq<u8>)
    requires
        is_prefix(a, b),
        is_prefix(b, c),
    ensures
        is_prefix(a, c),
{
    assert forall|i: int| 0 <= i < a.len() implies c[i] == a[i] by {
        assert(c.subrange(0, b.len() as int)[i] == b[i]);
        assert(b.subrange(0, a.len() as int)[i] == a[i]);
    }
    assert(c.subrange(0, a.len() as int) =~= a);
}

/// An entry ends in a name without `/`, so its entry prefix is the entry
/// followed by `/`.
proof fn lemma_entry_prefix_of_entry(dir: Seq<u8>, path: Seq<u8>)
    requires
        entry_of(dir, path),
    ensures
        path.len() > 0,
        path.last() != slash(),
        entry_prefix(path) == path.push(slash()),
        lies_below(dir, path),
{
}

/// Two entries of one directory that a path is at or below are the same.
proof fn lemma_one_entry_above(dir: Seq<u8>, p: Seq<u8>, q: Seq<u8>, x: Seq<u8>)
    requires
        entry_of(dir, p),
        entry_of(dir, q),
        at_or_below(p, x),
        at_or_below(q, x),
    ensures
        p == q,
{
    assert(is_prefix(p, x)) by {
        if x != p {
            assert(x.subrange(0, p.len() as int) =~= p.push(slash()).subrange(0, p.len() as int));
            assert(p.push(slash()).subrange(0, p.len() as int) =~= p);
        } else {
            assert(x.subrange(0, p.len() as int) =~= x);
        }
    }
    assert(is_prefix(q, x)) by {
        if x != q {
            assert(x.subrange(0, q.len() as int) =~= q.push(slash()).subrange(0, q.len() as int));
            assert(q.push(slash()).subrange(0, q.len() as int) =~= q);
        } else {
            assert(x.subrange(0, q.len() as int) =~= x);
        }
    }
    let base = entry_prefix(dir);
    if p.len() < q.len() {
        let n = p.len() as int;
        assert(x[n] == q[n]) by {
            assert(x.subrange(0, q.len() as int)[n] == q[n]);
        }
        assert(q[n] != slash());
        if x == p {
            assert(false);
        } else {
            assert(x[n] == p.push(slash())[n]) by {
                assert(x.subrange(0, (p.len() + 1) as int)[n] == p.push(slash())[n]);
            }
            assert(false);
        }
    } else if q.len() < p.len() {
        let n = q.len() as int;
        assert(x[n] == p[n]) by {
            assert(x.subrange(0, p.len() as int)[n] == p[n]);
        }
        assert(p[n] != slash());
        if x == q {
            assert(false);
        } else {
            assert(x[n] == q.push(slash())[n]) by {
                assert(x.subrange(0, (q.len() + 1) as int)[n] == q.push(slash())[n]);
            }
            assert(false);
        }
    } else {
        assert(p =~= q) by {
            assert forall|i: int| 0 <= i < p.len() implies p[i] == q[i] by {
                assert(x.subrange(0, p.len() as int)[i] == p[i]);
                assert(x.subrange(0, q.len() as int)[i] == q[i]);
            }
        }
    }
}

/// What the walk of a tree-shaped snapshot read from `root` lists.
pub open spec fn walk_shape(found: Seq<Seq<u8>>, root: Seq<u8>) -> bool {
    &&& found.no_duplicates()
    &&& forall|k: int| 0 <= k < found.len() ==> lies_below(root, #[trigger] found[k])
    &&& forall|k: int| 0 <= k < found.len()
        ==> entry_of(root, #[trigger] found[k]) || parent_listed(found, found[k])
}

proof fn lemma_walk_shaped(listing: DirListing, root: Seq<u8>)
    requires
        tree_shaped(listing, root),
    ensures
        walk_spec(listing) matches Some(found) ==> walk_shape(found, root),
    decreases listing, 1nat,
{
    match listing {
        DirListing::Unreadable => {},
        DirListing::Entries(children) => {
            assert(decreases_to!(listing => listing->0));
            lemma_children_shaped(children@, root);
        },
    }
}

proof fn lemma_children_shaped(children: Seq<DirChild>, root: Seq<u8>)
    requires
        children_shaped(children, root),
    ensures
        walk_shape(children_walk(children), root),
        forall|k: int| 0 <= k < children_walk(children).len()
            ==> below_some_dir(children, #[trigger] children_walk(children)[k]),
    decreases children, 0nat,
{
    if children.len() > 0 {
        let init = children.drop_last();
        let last = children.last();
        let li = children.len() - 1;
        lemma_children_shaped(init, root);
        lemma_child_shaped(last, root);
        let a = children_walk(init);
        let b = child_walk(last);
        let all = children_walk(children);
        assert(all == a + b);
        assert(children[li] == last);
        assert forall|i: int, j: int| 0 <= i < a.len() && 0 <= j < b.len() implies a[i] != b[j] by {
            if a[i] == b[j] {
                assert(below_some_dir(init, a[i]));
                let m = choose|m: int| 0 <= m < init.len() && (#[trigger] init[m]) is Dir
                    && at_or_below(init[m]->Dir_0@, a[i]);
                assert(children[m] == init[m]);
                assert(child_shaped(init[m], root)) by {
                    lemma_child_in_shaped(init, root, m);
                }
                assert(last is Dir) by {
                    if !(last is Dir) {
                        assert(b =~= Seq::<Seq<u8>>::empty());
                    }
                }
                assert(at_or_below(last->Dir_0@, b[j]));
                assert(child_shaped(last, root));
                assert(entry_of(root, last->Dir_0@));
                lemma_one_entry_above(root, init[m]->Dir_0@, last->Dir_0@, a[i]);
                assert(distinct_dirs(children[m], last));
            }
        }
        lemma_no_dup_in_concat(a, b);
        assert forall|k: int| 0 <= k < all.len() implies lies_below(root, #[trigger] all[k]) by {
            if k < a.len() {
                assert(all[k] == a[k]);
            } else {
                assert(all[k] == b[k - a.len()]);
            }
        }
        assert forall|k: int| 0 <= k < all.len()
            implies entry_of(root, #[trigger] all[k]) || parent_listed(all, all[k]) by {
            if k < a.len() {
                assert(all[k] == a[k]);
                if !entry_of(root, a[k]) {
                    assert(parent_listed(a, a[k]));
                    let j = choose|j: int| 0 <= j < a.len() && entry_of(#[trigger] a[j], a[k]);
                    assert(all[j] == a[j]);
                }
            } else {
                let kb = k - a.len();
                assert(all[k] == b[kb]);
                if !entry_of(root, b[kb]) {
                    assert(parent_listed(b, b[kb]));
                    let j = choose|j: int| 0 <= j < b.len() && entry_of(#[trigger] b[j], b[kb]);
                    assert(all[a.len() + j] == b[j]);
                }
            }
        }
        assert forall|k: int| 0 <= k < all.len() implies below_some_dir(children, #[trigger] all[k]) by {
            if k < a.len() {
                assert(all[k] == a[k]);
                assert(below_some_dir(init, a[k]));
                let m = choose|m: int| 0 <= m < init.len() && (#[trigger] init[m]) is Dir
                    && at_or_below(init[m]->Dir_0@, a[k]);
                assert(children[m] == init[m]);
            } else {
                assert(all[k] == b[k - a.len()]);
                assert(last is Dir) by {
                    if !(last is Dir) {
                        assert(b =~= Seq::<Seq<u8>>::empty());
                    }
                }
                assert(at_or_below(children[li]->Dir_0@, all[k]));
            }
        }
    } else {
        assert(children_walk(children) =~= Seq::<Seq<u8>>::empty());
    }
}

proof fn lemma_child_in_shaped(children: Seq<DirChild>, root: Seq<u8>, m: int)
    requires
        children_shaped(children, root),
        0 <= m < children.len(),
    ensures
        child_shaped(children[m], root),
    decreases children.len(),
{
    if m < children.len() - 1 {
        assert(children.drop_last()[m] == children[m]);
        lemma_child_in_shaped(children.drop_last(), root, m);
    }
}

proof fn lemma_child_shaped(child: DirChild, root: Seq<u8>)
    requires
        child_shaped(child, root),
    ensures
        walk_shape(child_walk(child), root),
        child is Dir ==> forall|k: int| 0 <= k < child_walk(child).len()
            ==> at_or_below(child->Dir_0@, #[trigger] child_walk(child)[k]),
    decreases child, 0nat,
{
    match child {
        DirChild::Dir(path, sub) => {
            let p = path@;
            lemma_walk_shaped(sub, p);
            lemma_entry_prefix_of_entry(root, p);
            let found = match walk_spec(sub) {
                Some(f) => f,
                None => Seq::empty(),
            };
            let cw = child_walk(child);
            assert(cw =~= found.push(p));
            assert forall|k: int| 0 <= k < found.len() implies found[k] != p by {
                assert(lies_below(p, found[k]));
            }
            assert(cw.no_duplicates());
            assert forall|k: int| 0 <= k < cw.len() implies at_or_below(p, #[trigger] cw[k]) by {
                if k < found.len() {
                    assert(cw[k] == found[k]);
                    assert(lies_below(p, found[k]));
                }
            }
            assert forall|k: int| 0 <= k < cw.len() implies lies_below(root, #[trigger] cw[k]) by {
                if k < found.len() {
                    assert(cw[k] == found[k]);
                    assert(lies_below(p, found[k]));
                    assert(is_prefix(p, p.push(slash()))) by {
                        assert(p.push(slash()).subrange(0, p.len() as int) =~= p);
                    }
                    lemma_prefix_trans(p, p.push(slash()), found[k]);
                    lemma_prefix_trans(entry_prefix(root), p, found[k]);
                }
            }
            assert forall|k: int| 0 <= k < cw.len()
                implies entry_of(root, #[trigger] cw[k]) || parent_listed(cw, cw[k]) by {
                if k < found.len() {
                    assert(cw[k] == found[k]);
                    if entry_of(p, found[k]) {
                        assert(entry_of(cw[found.len() as int], cw[k]));
                    } else {
                        assert(parent_listed(found, found[k]));
                        let j = choose|j: int| 0 <= j < found.len() && entry_of(#[trigger] found[j], found[k]);
                        assert(cw[j] == found[j]);
                    }
                }
            }
        },
        _ => {
            assert(child_walk(child) =~= Seq::<Seq<u8>>::empty());
        },
    }
}

/// Law: on a snapshot with the shape that reading a directory tree at
/// `root` gives, the walk lists no directory twice; every directory it
/// lists lies strictly below `root`, so `root` itself is never listed; and
/// the parent of every listed directory is `root` or is listed as well.
pub proof fn law_walk_lists_each_directory_once_below_root(listing: DirListing, root: Seq<u8>)
    requires
        tree_shaped(listing, root),
        listing is Entries,
    ensures
        walk_spec(listing) matches Some(found) && found.no_duplicates()
            && (forall|k: int| 0 <= k < found.len() ==> lies_below(root, #[trigger] found[k]))
            && !found.contains(root)
            && (forall|k: int| 0 <= k < found.len()
                ==> entry_of(root, #[trigger] found[k]) || parent_listed(found, found[k])),
{
    lemma_walk_shaped(listing, root);
    let found = walk_spec(listing).unwrap();
    if found.contains(root) {
        let k = choose|k: int| 0 <= k < found.len() && found[k] == root;
        assert(lies_below(root, found[k]));
    }
}

proof fn lemma_children_walk_holds_each_child(children: Seq<DirChild>, i: int, x: Seq<u8>)
    requires
        0 <= i < children.len(),
        child_walk(children[i]).contains(x),
    ensures
        children_walk(children).contains(x),
    decreases children.len(),
{
    let init = children.drop_last();
    let a = children_walk(init);
    let b = child_walk(children.last());
    assert(children_walk(children) == a + b);
    if i == children.len() - 1 {
        let j = choose|j: int| 0 <= j < b.len() && b[j] == x;
        assert((a + b)[a.len() + j] == x);
    } else {
        assert(init[i] == children[i]);
        lemma_children_walk_holds_each_child(init, i, x);
        let j = choose|j: int| 0 <= j < a.len() && a[j] == x;
        assert((a + b)[j] == x);
    }
}

/// Law: the walk lists every subdirectory of the directory it starts from,
/// and, when that subdirectory could be read, everything the walk finds
/// below it; so every directory of the tree, at any depth, is listed.
pub proof fn law_walk_lists_every_subdirectory(children: Seq<DirChild>, i: int)
    requires
        0 <= i < children.len(),
        children[i] is Dir,
    ensures
        children_walk(children).contains(children[i]->Dir_0@),
        walk_spec(children[i]->Dir_1) matches Some(below)
            ==> forall|k: int| 0 <= k < below.len() ==> children_walk(children).contains(#[trigger] below[k]),
{
    let c = children[i];
    let cw = child_walk(c);
    assert(cw.contains(c->Dir_0@)) by {
        assert(cw[cw.len() - 1] == c->Dir_0@);
    }
    lemma_children_walk_holds_each_child(children, i, c->Dir_0@);
    if let Some(below) = walk_spec(c->Dir_1) {
        assert forall|k: int| 0 <= k < below.len() implies children_walk(children).contains(#[trigger] below[k]) by {
            assert(cw[k] == below[k]);
            lemma_children_walk_holds_each_child(children, i, below[k]);
        }
    }
}

} // verus!
