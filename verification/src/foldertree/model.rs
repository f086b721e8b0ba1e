//! The tree as a mathematical map, the invariant that makes a map a tree,
//! and what each operation does to the map.

use crate::foldertree::error::FolderTreeErrorView;
use vstd::prelude::*;

verus! {

/// What a tree holds: for each path that exists, the payload and the names
/// of the children.
pub type Folders<T> = Map<Seq<Seq<char>>, (T, Set<Seq<char>>)>;

/// The invariant of a tree: the root exists, the parent of every folder
/// exists, and the names that a folder lists are exactly the last segments
/// of the paths one level below it.
pub open spec fn well_formed<T>(m: Folders<T>) -> bool {
    &&& m.dom().contains(Seq::<Seq<char>>::empty())
    &&& forall|p: Seq<Seq<char>>, s: Seq<char>| #[trigger]
        m.dom().contains(p.push(s)) ==> m.dom().contains(p) && m[p].1.contains(s)
    &&& forall|p: Seq<Seq<char>>, s: Seq<char>|
        m.dom().contains(p) && #[trigger] m[p].1.contains(s) ==> m.dom().contains(p.push(s))
}

/// The tree that holds the root alone, with `data` as its payload.
pub open spec fn root_only<T>(data: T) -> Folders<T> {
    Map::empty().insert(Seq::empty(), (data, Set::empty()))
}

/// Whether the folder at `path` has no children.
pub open spec fn is_leaf<T>(m: Folders<T>, path: Seq<Seq<char>>) -> bool {
    forall|s: Seq<char>| !m[path].1.contains(s)
}

/// The map with one more folder, `name` below `parent`, without children.
pub open spec fn with_folder<T>(
    m: Folders<T>,
    parent: Seq<Seq<char>>,
    name: Seq<char>,
    data: T,
) -> Folders<T> {
    m.insert(parent, (m[parent].0, m[parent].1.insert(name))).insert(
        parent.push(name),
        (data, Set::empty()),
    )
}

/// The map without the folder at `path`, which is not the root.
pub open spec fn without_folder<T>(m: Folders<T>, path: Seq<Seq<char>>) -> Folders<T> {
    let parent = path.drop_last();
    m.remove(path).insert(parent, (m[parent].0, m[parent].1.remove(path.last())))
}

/// Where the path `q` stands once `from` has become `to`.
pub open spec fn rebased(
    q: Seq<Seq<char>>,
    from: Seq<Seq<char>>,
    to: Seq<Seq<char>>,
) -> Seq<Seq<char>> {
    if from.is_prefix_of(q) {
        to + q.skip(from.len() as int)
    } else {
        q
    }
}

/// The names of a folder at `q` once the folder at `from` has become the
/// folder at `to`: the parent of `from` loses a name, the parent of `to` gains
/// one.
pub open spec fn rehomed(
    names: Set<Seq<char>>,
    q: Seq<Seq<char>>,
    from: Seq<Seq<char>>,
    to: Seq<Seq<char>>,
) -> Set<Seq<char>> {
    let left = if q == from.drop_last() {
        names.remove(from.last())
    } else {
        names
    };
    if q == to.drop_last() {
        left.insert(to.last())
    } else {
        left
    }
}

/// The map in which the folder at `from`, with everything below it, stands at
/// `to` instead: a path below `to` holds what stood at the same place below
/// `from`, and every other path outside `from` stays.
pub open spec fn relocated<T>(
    m: Folders<T>,
    from: Seq<Seq<char>>,
    to: Seq<Seq<char>>,
) -> Folders<T> {
    Map::new(
        |q: Seq<Seq<char>>|
            if to.is_prefix_of(q) {
                m.dom().contains(from + q.skip(to.len() as int))
            } else {
                m.dom().contains(q) && !from.is_prefix_of(q)
            },
        |q: Seq<Seq<char>>|
            if to.is_prefix_of(q) {
                m[from + q.skip(to.len() as int)]
            } else {
                (m[q].0, rehomed(m[q].1, q, from, to))
            },
    )
}

/// When the folder at `from` can become the folder at `to`: neither is the
/// root, `from` exists, the place `to` is free, its parent exists and does not
/// lie inside `from`.
pub open spec fn can_relocate<T>(
    m: Folders<T>,
    from: Seq<Seq<char>>,
    to: Seq<Seq<char>>,
) -> bool {
    &&& from.len() > 0
    &&& to.len() > 0
    &&& m.dom().contains(from)
    &&& m.dom().contains(to.drop_last())
    &&& !m.dom().contains(to)
    &&& !from.is_prefix_of(to.drop_last())
}

/// Two paths that are equal after one more segment each were equal before,
/// and so were the segments.
pub proof fn lemma_push_injective(
    p: Seq<Seq<char>>,
    s: Seq<char>,
    q: Seq<Seq<char>>,
    t: Seq<char>,
)
    requires
        p.push(s) == q.push(t),
    ensures
        p == q,
        s == t,
{
    assert(p =~= p.push(s).drop_last());
    assert(q =~= q.push(t).drop_last());
    assert(s == p.push(s).last());
    assert(t == q.push(t).last());
}

/// In a tree the parent of a folder exists and lists it.
pub proof fn lemma_parent_exists<T>(m: Folders<T>, q: Seq<Seq<char>>)
    requires
        well_formed(m),
        m.dom().contains(q),
        q.len() > 0,
    ensures
        m.dom().contains(q.drop_last()),
        m[q.drop_last()].1.contains(q.last()),
{
    assert(q =~= q.drop_last().push(q.last()));
}

/// In a tree every prefix of a path that exists exists too.
pub proof fn lemma_prefix_exists<T>(m: Folders<T>, q: Seq<Seq<char>>, a: Seq<Seq<char>>)
    requires
        well_formed(m),
        m.dom().contains(q),
        a.is_prefix_of(q),
    ensures
        m.dom().contains(a),
    decreases q.len(),
{
    if a.len() == q.len() {
        assert(a =~= q);
    } else {
        lemma_parent_exists(m, q);
        assert(a =~= q.drop_last().subrange(0, a.len() as int));
        lemma_prefix_exists(m, q.drop_last(), a);
    }
}

/// A prefix of a path with one more segment is a prefix of the shorter path,
/// or the whole.
pub proof fn lemma_prefix_of_push(a: Seq<Seq<char>>, p: Seq<Seq<char>>, s: Seq<char>)
    ensures
        a.is_prefix_of(p.push(s)) <==> a.is_prefix_of(p) || a == p.push(s),
{
    if a.is_prefix_of(p.push(s)) {
        if a.len() <= p.len() {
            assert(a =~= p.subrange(0, a.len() as int));
        } else {
            assert(a =~= p.push(s));
        }
    }
    if a.is_prefix_of(p) {
        assert(a =~= p.push(s).subrange(0, a.len() as int));
    }
    if a == p.push(s) {
        assert(a =~= p.push(s).subrange(0, a.len() as int));
    }
}

/// Whether a map is a tree depends on its paths and the names that its
/// folders list, not on the payloads.
pub proof fn lemma_same_shape<T>(a: Folders<T>, b: Folders<T>)
    requires
        well_formed(a),
        forall|p: Seq<Seq<char>>| a.dom().contains(p) <==> b.dom().contains(p),
        forall|p: Seq<Seq<char>>|
            #![trigger a[p]]
            #![trigger b[p]]
            a.dom().contains(p) ==> a[p].1 == b[p].1,
    ensures
        well_formed(b),
{
    assert forall|p: Seq<Seq<char>>, s: Seq<char>| #[trigger]
        b.dom().contains(p.push(s)) implies b.dom().contains(p) && b[p].1.contains(s) by {
        assert(a.dom().contains(p.push(s)));
        assert(a[p].1.contains(s));
    }
    assert forall|p: Seq<Seq<char>>, s: Seq<char>|
        b.dom().contains(p) && #[trigger] b[p].1.contains(s) implies b.dom().contains(
        p.push(s),
    ) by {
        assert(a[p].1.contains(s));
    }
}

/// Two trees with the same paths and the same payloads are the same: the
/// names that a folder lists follow from the paths.
pub proof fn lemma_same_tree<T>(a: Folders<T>, b: Folders<T>)
    requires
        well_formed(a),
        well_formed(b),
        forall|p: Seq<Seq<char>>| a.dom().contains(p) <==> b.dom().contains(p),
        forall|p: Seq<Seq<char>>| a.dom().contains(p) ==> a[p].0 == b[p].0,
    ensures
        a == b,
{
    assert forall|p: Seq<Seq<char>>| a.dom().contains(p) implies a[p] == b[p] by {
        assert forall|s: Seq<char>| a[p].1.contains(s) <==> b[p].1.contains(s) by {
            if a[p].1.contains(s) {
                assert(a.dom().contains(p.push(s)));
                assert(b.dom().contains(p.push(s)));
            }
            if b[p].1.contains(s) {
                assert(b.dom().contains(p.push(s)));
                assert(a.dom().contains(p.push(s)));
            }
        }
        assert(a[p].1 =~= b[p].1);
    }
    assert(a =~= b);
}

pub proof fn lemma_set_data_well_formed<T>(m: Folders<T>, path: Seq<Seq<char>>, data: T)
    requires
        well_formed(m),
        m.dom().contains(path),
    ensures
        well_formed(m.insert(path, (data, m[path].1))),
{
    let n = m.insert(path, (data, m[path].1));
    assert forall|p: Seq<Seq<char>>, s: Seq<char>| #[trigger]
        n.dom().contains(p.push(s)) implies n.dom().contains(p) && n[p].1.contains(s) by {
        assert(m.dom().contains(p.push(s)));
    }
    assert forall|p: Seq<Seq<char>>, s: Seq<char>|
        n.dom().contains(p) && #[trigger] n[p].1.contains(s) implies n.dom().contains(
        p.push(s),
    ) by {
        assert(m[p].1.contains(s));
    }
}

pub proof fn lemma_with_folder_well_formed<T>(
    m: Folders<T>,
    parent: Seq<Seq<char>>,
    name: Seq<char>,
    data: T,
)
    requires
        well_formed(m),
        m.dom().contains(parent),
        !m[parent].1.contains(name),
    ensures
        well_formed(with_folder(m, parent, name, data)),
        !m.dom().contains(parent.push(name)),
{
    let n = with_folder(m, parent, name, data);
    let fresh = parent.push(name);
    assert(!m.dom().contains(fresh));
    assert(fresh.len() != parent.len());
    assert forall|p: Seq<Seq<char>>, s: Seq<char>| #[trigger]
        n.dom().contains(p.push(s)) implies n.dom().contains(p) && n[p].1.contains(s) by {
        if p.push(s) == fresh {
            lemma_push_injective(p, s, parent, name);
        } else {
            assert(m.dom().contains(p.push(s)));
        }
    }
    assert forall|p: Seq<Seq<char>>, s: Seq<char>|
        n.dom().contains(p) && #[trigger] n[p].1.contains(s) implies n.dom().contains(
        p.push(s),
    ) by {
        if p == fresh {
        } else if p == parent {
            if s != name {
                assert(m[p].1.contains(s));
            }
        } else {
            assert(m[p].1.contains(s));
        }
    }
}

pub proof fn lemma_without_folder_well_formed<T>(m: Folders<T>, path: Seq<Seq<char>>)
    requires
        well_formed(m),
        m.dom().contains(path),
        path.len() > 0,
        is_leaf(m, path),
    ensures
        well_formed(without_folder(m, path)),
{
    let n = without_folder(m, path);
    let parent = path.drop_last();
    lemma_parent_exists(m, path);
    assert(path =~= parent.push(path.last()));
    assert forall|p: Seq<Seq<char>>, s: Seq<char>| #[trigger]
        n.dom().contains(p.push(s)) implies n.dom().contains(p) && n[p].1.contains(s) by {
        assert(m.dom().contains(p.push(s)));
        assert(m[p].1.contains(s));
        if p == parent && s == path.last() {
            assert(p.push(s) == path);
        }
    }
    assert forall|p: Seq<Seq<char>>, s: Seq<char>|
        n.dom().contains(p) && #[trigger] n[p].1.contains(s) implies n.dom().contains(
        p.push(s),
    ) by {
        assert(m[p].1.contains(s));
        if p.push(s) == path {
            lemma_push_injective(p, s, parent, path.last());
        }
    }
}

/// The place below `to` of a path with one more segment.
pub proof fn lemma_rebase_push(
    from: Seq<Seq<char>>,
    to: Seq<Seq<char>>,
    p: Seq<Seq<char>>,
    s: Seq<char>,
)
    requires
        to.is_prefix_of(p),
    ensures
        to.is_prefix_of(p.push(s)),
        from + p.push(s).skip(to.len() as int) == (from + p.skip(to.len() as int)).push(s),
{
    lemma_prefix_of_push(to, p, s);
    assert(from + p.push(s).skip(to.len() as int) =~= (from + p.skip(to.len() as int)).push(s));
}

pub proof fn lemma_relocated_well_formed<T>(
    m: Folders<T>,
    from: Seq<Seq<char>>,
    to: Seq<Seq<char>>,
)
    requires
        well_formed(m),
        can_relocate(m, from, to),
    ensures
        well_formed(relocated(m, from, to)),
{
    let n = relocated(m, from, to);
    let root = Seq::<Seq<char>>::empty();
    assert(!to.is_prefix_of(root));
    assert(!from.is_prefix_of(root));
    assert(to =~= to.drop_last().push(to.last()));
    assert(from =~= from.drop_last().push(from.last()));
    assert(from + to.skip(to.len() as int) =~= from);
    assert(to.is_prefix_of(to));
    assert(from.is_prefix_of(from));
    assert forall|p: Seq<Seq<char>>, s: Seq<char>| #[trigger]
        n.dom().contains(p.push(s)) implies n.dom().contains(p) && n[p].1.contains(s) by {
        lemma_prefix_of_push(to, p, s);
        lemma_prefix_of_push(from, p, s);
        if to.is_prefix_of(p) {
            lemma_rebase_push(from, to, p, s);
            assert(m.dom().contains((from + p.skip(to.len() as int)).push(s)));
        } else if to == p.push(s) {
            lemma_push_injective(p, s, to.drop_last(), to.last());
        } else {
            assert(m.dom().contains(p.push(s)));
            if p == from.drop_last() && s == from.last() {
                assert(p.push(s) == from);
            }
        }
    }
    assert forall|p: Seq<Seq<char>>, s: Seq<char>|
        n.dom().contains(p) && #[trigger] n[p].1.contains(s) implies n.dom().contains(
        p.push(s),
    ) by {
        lemma_prefix_of_push(to, p, s);
        lemma_prefix_of_push(from, p, s);
        if to.is_prefix_of(p) {
            lemma_rebase_push(from, to, p, s);
            assert(m[from + p.skip(to.len() as int)].1.contains(s));
        } else if p == to.drop_last() && s == to.last() {
            assert(p.push(s) == to);
        } else {
            assert(m[p].1.contains(s));
            assert(m.dom().contains(p.push(s)));
            if to.is_prefix_of(p.push(s)) {
                lemma_prefix_exists(m, p.push(s), to);
            }
            if from == p.push(s) {
                lemma_push_injective(p, s, from.drop_last(), from.last());
            }
        }
    }
}

/// Why making the folder `name` below `parent` is refused, if it is. A
/// missing parent is reported before a name that is taken.
pub open spec fn make_refusal<T>(
    m: Folders<T>,
    parent: Seq<Seq<char>>,
    name: Seq<char>,
) -> Option<FolderTreeErrorView> {
    if !m.dom().contains(parent) {
        Some(FolderTreeErrorView::FolderNotFound(parent))
    } else if m[parent].1.contains(name) {
        Some(FolderTreeErrorView::FolderExists(parent.push(name)))
    } else {
        None
    }
}

/// Why removing the folder at `path` is refused, if it is. The root is
/// refused whatever it holds; then comes a folder that does not exist, then
/// one that has children.
pub open spec fn remove_refusal<T>(m: Folders<T>, path: Seq<Seq<char>>) -> Option<
    FolderTreeErrorView,
> {
    if path.len() == 0 {
        Some(FolderTreeErrorView::CannotRemoveRoot)
    } else if !m.dom().contains(path) {
        Some(FolderTreeErrorView::FolderNotFound(path))
    } else if !is_leaf(m, path) {
        Some(FolderTreeErrorView::FolderNotEmpty(path))
    } else {
        None
    }
}

/// Why a move of `path` below `new_parent` is refused, if it is. The
/// reasons are tried in this order: `path` is the root; `new_parent` is
/// `path` or lies below it; `new_parent` does not exist; `path` does not
/// exist; `new_parent` has a child of the same name already.
pub open spec fn move_refusal<T>(
    m: Folders<T>,
    path: Seq<Seq<char>>,
    new_parent: Seq<Seq<char>>,
) -> Option<FolderTreeErrorView> {
    if path.len() == 0 {
        Some(FolderTreeErrorView::CannotMoveRoot)
    } else if path.is_prefix_of(new_parent) {
        Some(FolderTreeErrorView::ImpossibleMove(path, new_parent))
    } else if !m.dom().contains(new_parent) {
        Some(FolderTreeErrorView::FolderNotFound(new_parent))
    } else if !m.dom().contains(path) {
        Some(FolderTreeErrorView::FolderNotFound(path))
    } else if m.dom().contains(new_parent.push(path.last())) {
        Some(FolderTreeErrorView::FolderExists(new_parent.push(path.last())))
    } else {
        None
    }
}

/// Why giving the folder at `path` the name `new_name` is refused, if it
/// is. The reasons are tried in this order: `path` is the root; the new name
/// is taken beside it; `path` does not exist.
pub open spec fn rename_refusal<T>(
    m: Folders<T>,
    path: Seq<Seq<char>>,
    new_name: Seq<char>,
) -> Option<FolderTreeErrorView> {
    if path.len() == 0 {
        Some(FolderTreeErrorView::CannotRenameRoot)
    } else if m.dom().contains(path.drop_last().push(new_name)) {
        Some(FolderTreeErrorView::FolderExists(path.drop_last().push(new_name)))
    } else if !m.dom().contains(path) {
        Some(FolderTreeErrorView::FolderNotFound(path))
    } else {
        None
    }
}

/// A move that is not refused can be carried out.
pub proof fn lemma_move_can_relocate<T>(
    m: Folders<T>,
    path: Seq<Seq<char>>,
    new_parent: Seq<Seq<char>>,
)
    requires
        well_formed(m),
        move_refusal(m, path, new_parent) is None,
    ensures
        can_relocate(m, path, new_parent.push(path.last())),
{
    assert(new_parent.push(path.last()).drop_last() =~= new_parent);
}

/// A renaming that is not refused can be carried out.
pub proof fn lemma_rename_can_relocate<T>(
    m: Folders<T>,
    path: Seq<Seq<char>>,
    new_name: Seq<char>,
)
    requires
        well_formed(m),
        rename_refusal(m, path, new_name) is None,
    ensures
        can_relocate(m, path, path.drop_last().push(new_name)),
{
    lemma_parent_exists(m, path);
    assert(path.drop_last().push(new_name).drop_last() =~= path.drop_last());
}

} // verus!
