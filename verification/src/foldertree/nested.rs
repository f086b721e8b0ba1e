//! The nested form of a tree: a folder holds its payload and, by name, its
//! children, each again such a folder.

use crate::foldertree::model::{lemma_prefix_exists, lemma_same_tree, well_formed, Folders};
use crate::foldertree::path::{segments_view, FolderPath};
use crate::foldertree::tree::FolderTree;
use vstd::prelude::*;

verus! {

/// A folder with its payload and its children, each with its name.
#[derive(Debug)]
pub struct NestedFolder<T> {
    pub data: T,
    pub children: Vec<(String, NestedFolder<T>)>,
}

/// The names in a list of named folders, in the order of the list.
pub open spec fn names_of<T>(children: Seq<(String, NestedFolder<T>)>) -> Seq<Seq<char>> {
    Seq::new(children.len(), |i: int| children[i].0@)
}

/// The folder with the given name in a list of named folders.
pub open spec fn child_in<T>(
    children: Seq<(String, NestedFolder<T>)>,
    name: Seq<char>,
) -> Option<NestedFolder<T>> {
    if names_of(children).contains(name) {
        Some(children[names_of(children).index_of(name)].1)
    } else {
        None
    }
}

/// The folder that the names of `r` lead to, one after the other, starting
/// among `children`.
pub open spec fn lookup_in<T>(
    children: Seq<(String, NestedFolder<T>)>,
    r: Seq<Seq<char>>,
) -> Option<NestedFolder<T>>
    decreases r.len(), 0int,
{
    if r.len() == 0 {
        None
    } else {
        match child_in(children, r[0]) {
            Some(c) => c.lookup(r.skip(1)),
            None => None,
        }
    }
}

impl<T> NestedFolder<T> {
    /// The names of the children, in the order in which they are held.
    pub open spec fn names(&self) -> Seq<Seq<char>> {
        names_of(self.children@)
    }

    /// No folder has two children of one name.
    pub open spec fn wf(&self) -> bool
        decreases self,
    {
        &&& self.names().no_duplicates()
        &&& forall|i: int|
            0 <= i < self.children@.len() ==> (#[trigger] self.children@[i]).1.wf()
    }

    /// The folder at the relative path `p`, if there is one. The empty path
    /// leads to this folder itself.
    pub open spec fn lookup(&self, p: Seq<Seq<char>>) -> Option<NestedFolder<T>>
        decreases p.len(), 1int,
    {
        if p.len() == 0 {
            Some(*self)
        } else {
            lookup_in(self.children@, p)
        }
    }

    /// This folder at `base` and everything below it, each folder before
    /// its children, as pairs of path and payload.
    pub open spec fn entries(&self, base: Seq<Seq<char>>) -> Seq<(Seq<Seq<char>>, T)>
        decreases self,
    {
        seq![(base, self.data)] + entries_of(self.children@, base)
    }

    /// The tree that this folder stands for, with this folder as the root.
    pub open spec fn flat(&self) -> Folders<T> {
        Map::new(
            |p: Seq<Seq<char>>| self.lookup(p) is Some,
            |p: Seq<Seq<char>>| (self.lookup(p)->0.data, self.lookup(p)->0.names().to_set()),
        )
    }

    /// A folder without children.
    pub fn new(data: T) -> (r: Self)
        ensures
            r.wf(),
            r.data == data,
            r.children@.len() == 0,
    {
        NestedFolder { data, children: Vec::new() }
    }
}

/// The paths and payloads of a list of pairs.
pub open spec fn pairs_view<T>(pairs: Seq<(FolderPath, T)>) -> Seq<(Seq<Seq<char>>, T)> {
    Seq::new(pairs.len(), |i: int| (pairs[i].0@, pairs[i].1))
}

/// The folders of a list of named folders below `base`, each before
/// everything below it, as pairs of path and payload.
pub open spec fn entries_of<T>(
    children: Seq<(String, NestedFolder<T>)>,
    base: Seq<Seq<char>>,
) -> Seq<(Seq<Seq<char>>, T)>
    decreases children,
{
    if children.len() == 0 {
        Seq::empty()
    } else {
        entries_of(children.drop_last(), base) + children.last().1.entries(
            base.push(children.last().0@),
        )
    }
}

/// Whether the nested folder `n` holds what the map `m` holds at and below
/// `path`: the same folders, each with a reference to its payload and with
/// the names of its children.
pub open spec fn mirrors_below<T>(
    n: NestedFolder<&T>,
    m: Folders<T>,
    path: Seq<Seq<char>>,
) -> bool {
    forall|q: Seq<Seq<char>>|
        #![trigger n.lookup(q)]
        #![trigger m.dom().contains(path + q)]
        {
            &&& n.lookup(q) is Some <==> m.dom().contains(path + q)
            &&& n.lookup(q) is Some ==> *n.lookup(q)->0.data == m[path + q].0
                && n.lookup(q)->0.names().to_set() == m[path + q].1
        }
}

/// In a list without a name twice, the folder found under the name at `k` is
/// the one at `k`.
proof fn lemma_child_at<T>(children: Seq<(String, NestedFolder<T>)>, k: int)
    requires
        names_of(children).no_duplicates(),
        0 <= k < children.len(),
    ensures
        child_in(children, children[k].0@) == Some(children[k].1),
{
    let names = names_of(children);
    assert(names[k] == children[k].0@);
    assert(names.contains(names[k]));
    let j = names.index_of(names[k]);
    assert(names[j] == names[k]);
}

/// A folder mirrors the map below `path` if it holds the payload and the
/// child names of `path` and each child mirrors the map below its own path.
proof fn lemma_mirrors_below<T>(n: NestedFolder<&T>, m: Folders<T>, path: Seq<Seq<char>>)
    requires
        well_formed(m),
        m.dom().contains(path),
        *n.data == m[path].0,
        n.names().no_duplicates(),
        n.names().to_set() == m[path].1,
        forall|k: int|
            0 <= k < n.children@.len() ==> mirrors_below(
                (#[trigger] n.children@[k]).1,
                m,
                path.push(n.children@[k].0@),
            ),
    ensures
        mirrors_below(n, m, path),
{
    assert forall|q: Seq<Seq<char>>|
        #![trigger n.lookup(q)]
        #![trigger m.dom().contains(path + q)]
        {
            &&& n.lookup(q) is Some <==> m.dom().contains(path + q)
            &&& n.lookup(q) is Some ==> *n.lookup(q)->0.data == m[path + q].0
                && n.lookup(q)->0.names().to_set() == m[path + q].1
        } by {
        if q.len() == 0 {
            assert(path + q =~= path);
        } else {
            let first = path.push(q[0]);
            assert(first + q.skip(1) =~= path + q);
            if n.names().contains(q[0]) {
                let k = n.names().index_of(q[0]);
                assert(n.names()[k] == q[0]);
                lemma_child_at(n.children@, k);
                assert(mirrors_below(n.children@[k].1, m, first));
                assert(n.lookup(q) == n.children@[k].1.lookup(q.skip(1)));
            } else {
                if m.dom().contains(path + q) {
                    assert(first =~= (path + q).subrange(0, first.len() as int));
                    lemma_prefix_exists(m, path + q, first);
                    assert(m[path].1.contains(q[0]));
                }
            }
        }
    }
}

/// Every path in the list of `children` below `base` lies below `base` and
/// starts, after `base`, with the name of one of the children.
spec fn heads_named<T>(
    e: Seq<(Seq<Seq<char>>, T)>,
    children: Seq<(String, NestedFolder<T>)>,
    base: Seq<Seq<char>>,
) -> bool {
    forall|i: int|
        0 <= i < e.len() ==> (#[trigger] e[i]).0.len() > base.len() && base.is_prefix_of(e[i].0)
            && names_of(children).contains(e[i].0[base.len() as int])
}

/// Every path in the list of a folder at `base` lies at or below `base`, and
/// only the first is `base` itself.
spec fn all_below<T>(e: Seq<(Seq<Seq<char>>, T)>, base: Seq<Seq<char>>) -> bool {
    &&& e.len() >= 1
    &&& e[0].0 == base
    &&& forall|i: int| 0 <= i < e.len() ==> base.is_prefix_of((#[trigger] e[i]).0)
    &&& forall|i: int| 1 <= i < e.len() ==> (#[trigger] e[i]).0.len() > base.len()
}

proof fn lemma_heads_named<T>(children: Seq<(String, NestedFolder<T>)>, base: Seq<Seq<char>>)
    ensures
        heads_named(entries_of(children, base), children, base),
    decreases children,
{
    let e = entries_of(children, base);
    let bl = base.len() as int;
    if children.len() > 0 {
        let init = children.drop_last();
        let last = children.last();
        let below = base.push(last.0@);
        let a = entries_of(init, base);
        let b = last.1.entries(below);
        let names = names_of(children);
        lemma_heads_named(init, base);
        lemma_all_below(last.1, below);
        assert(names[children.len() - 1] == last.0@);
        assert forall|i: int| 0 <= i < e.len() implies (#[trigger] e[i]).0.len() > base.len()
            && base.is_prefix_of(e[i].0) && names_of(children).contains(
            e[i].0[base.len() as int],
        ) by {
            if i < a.len() {
                assert(e[i] == a[i]);
                let j = names_of(init).index_of(a[i].0[bl]);
                assert(names_of(init)[j] == a[i].0[bl]);
                assert(names[j] == a[i].0[bl]);
            } else {
                let l = i - a.len();
                assert(e[i] == b[l]);
                assert(below.is_prefix_of(b[l].0));
                assert(b[l].0.subrange(0, bl + 1)[bl] == below[bl]);
                assert(base =~= b[l].0.subrange(0, bl));
            }
        }
    }
}

proof fn lemma_all_below<T>(n: NestedFolder<T>, base: Seq<Seq<char>>)
    ensures
        all_below(n.entries(base), base),
    decreases n,
{
    let e = n.entries(base);
    let c = entries_of(n.children@, base);
    lemma_heads_named(n.children@, base);
    assert(base.subrange(0, base.len() as int) =~= base);
    assert forall|i: int| 1 <= i < e.len() implies base.is_prefix_of((#[trigger] e[i]).0)
        && e[i].0.len() > base.len() by {
        assert(e[i] == c[i - 1]);
    }
}

/// In the list, the parent of every path stands before it, unless the parent
/// is `base`.
spec fn parents_first<T>(e: Seq<(Seq<Seq<char>>, T)>, base: Seq<Seq<char>>) -> bool {
    forall|i: int|
        0 <= i < e.len() ==> (#[trigger] e[i]).0.drop_last() == base || exists|j: int|
            0 <= j < i && (#[trigger] e[j]).0 == e[i].0.drop_last()
}

proof fn lemma_parents_first_of<T>(
    children: Seq<(String, NestedFolder<T>)>,
    base: Seq<Seq<char>>,
)
    ensures
        parents_first(entries_of(children, base), base),
    decreases children,
{
    let e = entries_of(children, base);
    if children.len() > 0 {
        let init = children.drop_last();
        let last = children.last();
        let below = base.push(last.0@);
        let a = entries_of(init, base);
        let b = last.1.entries(below);
        lemma_parents_first_of(init, base);
        lemma_parents_first(last.1, below);
        assert(b[0].0 == below);
        assert forall|i: int| 0 <= i < e.len() implies (#[trigger] e[i]).0.drop_last() == base
            || exists|j: int| 0 <= j < i && (#[trigger] e[j]).0 == e[i].0.drop_last() by {
            if i < a.len() {
                assert(e[i] == a[i]);
                if a[i].0.drop_last() != base {
                    let j = choose|j: int| 0 <= j < i && (#[trigger] a[j]).0 == a[i].0.drop_last();
                    assert(e[j] == a[j]);
                }
            } else {
                let l = i - a.len();
                assert(e[i] == b[l]);
                if l == 0 {
                    assert(below.drop_last() =~= base);
                } else {
                    let j = choose|j: int| 0 <= j < l && (#[trigger] b[j]).0 == b[l].0.drop_last();
                    assert(e[a.len() + j] == b[j]);
                }
            }
        }
    }
}

/// In the list of a folder the parent of every path but the first stands
/// before it.
spec fn grows_downward<T>(e: Seq<(Seq<Seq<char>>, T)>) -> bool {
    forall|i: int|
        #![trigger e[i]]
        1 <= i < e.len() ==> e[i].0.len() > 0 && exists|j: int|
            0 <= j < i && (#[trigger] e[j]).0 == e[i].0.drop_last()
}

proof fn lemma_parents_first<T>(n: NestedFolder<T>, base: Seq<Seq<char>>)
    ensures
        grows_downward(n.entries(base)),
    decreases n,
{
    let e = n.entries(base);
    let c = entries_of(n.children@, base);
    lemma_parents_first_of(n.children@, base);
    lemma_heads_named(n.children@, base);
    assert forall|i: int| #![trigger e[i]] 1 <= i < e.len() implies e[i].0.len() > 0
        && exists|j: int| 0 <= j < i && (#[trigger] e[j]).0 == e[i].0.drop_last() by {
        assert(e[i] == c[i - 1]);
        if c[i - 1].0.drop_last() == base {
            assert(e[0].0 == base);
        } else {
            let j = choose|j: int| 0 <= j < i - 1 && (#[trigger] c[j]).0 == c[i - 1].0.drop_last();
            assert(e[j + 1] == c[j]);
        }
    }
}

/// No path stands twice in the list.
spec fn paths_distinct<T>(e: Seq<(Seq<Seq<char>>, T)>) -> bool {
    forall|i: int, j: int| 0 <= i < j < e.len() ==> (#[trigger] e[i]).0 != (#[trigger] e[j]).0
}

proof fn lemma_paths_distinct_of<T>(
    children: Seq<(String, NestedFolder<T>)>,
    base: Seq<Seq<char>>,
)
    requires
        names_of(children).no_duplicates(),
        forall|k: int| 0 <= k < children.len() ==> (#[trigger] children[k]).1.wf(),
    ensures
        paths_distinct(entries_of(children, base)),
    decreases children,
{
    let e = entries_of(children, base);
    let bl = base.len() as int;
    if children.len() > 0 {
        let init = children.drop_last();
        let last = children.last();
        let below = base.push(last.0@);
        let a = entries_of(init, base);
        let b = last.1.entries(below);
        let names = names_of(children);
        assert(names_of(init) =~= names.drop_last());
        assert forall|k: int| 0 <= k < init.len() implies (#[trigger] init[k]).1.wf() by {
            assert(children[k].1.wf());
        }
        assert(last.1.wf());
        lemma_paths_distinct_of(init, base);
        lemma_paths_distinct(last.1, below);
        lemma_heads_named(init, base);
        lemma_all_below(last.1, below);
        assert forall|i: int, j: int| 0 <= i < j < e.len() implies (#[trigger] e[i]).0 != (
        #[trigger] e[j]).0 by {
            if j < a.len() {
                assert(e[i] == a[i] && e[j] == a[j]);
            } else if i >= a.len() {
                assert(e[i] == b[i - a.len()] && e[j] == b[j - a.len()]);
            } else {
                let l = j - a.len();
                assert(e[i] == a[i] && e[j] == b[l]);
                let k = names_of(init).index_of(a[i].0[bl]);
                assert(names[k] == a[i].0[bl]);
                assert(names[children.len() - 1] == last.0@);
                assert(below.is_prefix_of(b[l].0));
                assert(b[l].0.subrange(0, bl + 1)[bl] == below[bl]);
            }
        }
    }
}

proof fn lemma_paths_distinct<T>(n: NestedFolder<T>, base: Seq<Seq<char>>)
    requires
        n.wf(),
    ensures
        paths_distinct(n.entries(base)),
    decreases n,
{
    let e = n.entries(base);
    let c = entries_of(n.children@, base);
    lemma_paths_distinct_of(n.children@, base);
    lemma_heads_named(n.children@, base);
    assert forall|i: int, j: int| 0 <= i < j < e.len() implies (#[trigger] e[i]).0 != (
    #[trigger] e[j]).0 by {
        assert(e[j] == c[j - 1]);
        if i > 0 {
            assert(e[i] == c[i - 1]);
        }
    }
}

/// A lookup among named folders goes into the last of them if it starts
/// with its name, and else looks among the others.
proof fn lemma_lookup_in_last<T>(children: Seq<(String, NestedFolder<T>)>, r: Seq<Seq<char>>)
    requires
        names_of(children).no_duplicates(),
        children.len() > 0,
        r.len() > 0,
    ensures
        r[0] == children.last().0@ ==> lookup_in(children, r) == children.last().1.lookup(
            r.skip(1),
        ),
        r[0] != children.last().0@ ==> lookup_in(children, r) == lookup_in(
            children.drop_last(),
            r,
        ),
{
    let init = children.drop_last();
    let names = names_of(children);
    let last = children.len() - 1;
    assert(names[last] == children.last().0@);
    if r[0] == children.last().0@ {
        lemma_child_at(children, last);
    } else {
        if names.contains(r[0]) {
            let j = names.index_of(r[0]);
            assert(names[j] == r[0]);
            assert(names_of(init)[j] == r[0]);
            let k = names_of(init).index_of(r[0]);
            assert(names_of(init)[k] == r[0]);
            assert(names[k] == r[0]);
            assert(init[k] == children[k]);
        } else {
            if names_of(init).contains(r[0]) {
                let k = names_of(init).index_of(r[0]);
                assert(names_of(init)[k] == r[0]);
                assert(names[k] == r[0]);
            }
        }
    }
}

/// Every pair in the list of `children` holds the payload of the folder
/// that its path leads to.
spec fn payloads_of<T>(
    e: Seq<(Seq<Seq<char>>, T)>,
    children: Seq<(String, NestedFolder<T>)>,
    base: Seq<Seq<char>>,
) -> bool {
    forall|i: int|
        #![trigger e[i]]
        0 <= i < e.len() ==> lookup_in(children, e[i].0.skip(base.len() as int)) is Some
            && lookup_in(children, e[i].0.skip(base.len() as int))->0.data == e[i].1
}

/// Every pair in the list of the folder `n` holds the payload of the folder
/// that its path leads to.
spec fn payloads<T>(
    e: Seq<(Seq<Seq<char>>, T)>,
    n: NestedFolder<T>,
    base: Seq<Seq<char>>,
) -> bool {
    forall|i: int|
        #![trigger e[i]]
        0 <= i < e.len() ==> n.lookup(e[i].0.skip(base.len() as int)) is Some && n.lookup(
            e[i].0.skip(base.len() as int),
        )->0.data == e[i].1
}

proof fn lemma_payloads_of<T>(children: Seq<(String, NestedFolder<T>)>, base: Seq<Seq<char>>)
    requires
        names_of(children).no_duplicates(),
        forall|k: int| 0 <= k < children.len() ==> (#[trigger] children[k]).1.wf(),
    ensures
        payloads_of(entries_of(children, base), children, base),
    decreases children,
{
    let e = entries_of(children, base);
    let bl = base.len() as int;
    if children.len() > 0 {
        let init = children.drop_last();
        let last = children.last();
        let below = base.push(last.0@);
        let a = entries_of(init, base);
        let b = last.1.entries(below);
        let names = names_of(children);
        assert(names_of(init) =~= names.drop_last());
        assert forall|k: int| 0 <= k < init.len() implies (#[trigger] init[k]).1.wf() by {
            assert(children[k].1.wf());
        }
        assert(last.1.wf());
        lemma_payloads_of(init, base);
        lemma_payloads(last.1, below);
        lemma_heads_named(init, base);
        lemma_all_below(last.1, below);
        assert forall|i: int| #![trigger e[i]] 0 <= i < e.len() implies lookup_in(
            children,
            e[i].0.skip(bl),
        ) is Some && lookup_in(children, e[i].0.skip(bl))->0.data == e[i].1 by {
            if i < a.len() {
                assert(e[i] == a[i]);
                let r = a[i].0.skip(bl);
                assert(r[0] == a[i].0[bl]);
                let k = names_of(init).index_of(r[0]);
                assert(names[k] == r[0]);
                assert(names[children.len() - 1] == last.0@);
                lemma_lookup_in_last(children, r);
            } else {
                let l = i - a.len();
                assert(e[i] == b[l]);
                let r = b[l].0.skip(bl);
                assert(below.is_prefix_of(b[l].0));
                assert(b[l].0.subrange(0, bl + 1)[bl] == below[bl]);
                assert(r[0] == last.0@);
                assert(r.skip(1) =~= b[l].0.skip(bl + 1));
                lemma_lookup_in_last(children, r);
            }
        }
    }
}

proof fn lemma_payloads<T>(n: NestedFolder<T>, base: Seq<Seq<char>>)
    requires
        n.wf(),
    ensures
        payloads(n.entries(base), n, base),
    decreases n,
{
    let e = n.entries(base);
    let c = entries_of(n.children@, base);
    let bl = base.len() as int;
    lemma_payloads_of(n.children@, base);
    lemma_heads_named(n.children@, base);
    assert(base.skip(bl) =~= Seq::<Seq<char>>::empty());
    assert forall|i: int| #![trigger e[i]] 0 <= i < e.len() implies n.lookup(e[i].0.skip(bl))
        is Some && n.lookup(e[i].0.skip(bl))->0.data == e[i].1 by {
        if i > 0 {
            assert(e[i] == c[i - 1]);
            assert(c[i - 1].0.skip(bl).len() > 0);
        }
    }
}

/// Every folder that a lookup among `children` finds has its path in the
/// list.
spec fn complete_of<T>(
    e: Seq<(Seq<Seq<char>>, T)>,
    children: Seq<(String, NestedFolder<T>)>,
    base: Seq<Seq<char>>,
) -> bool {
    forall|r: Seq<Seq<char>>| #[trigger]
        lookup_in(children, r) is Some ==> exists|i: int|
            0 <= i < e.len() && (#[trigger] e[i]).0 == base + r
}

/// Every folder that a lookup in `n` finds has its path in the list.
spec fn complete<T>(
    e: Seq<(Seq<Seq<char>>, T)>,
    n: NestedFolder<T>,
    base: Seq<Seq<char>>,
) -> bool {
    forall|q: Seq<Seq<char>>| #[trigger]
        n.lookup(q) is Some ==> exists|i: int| 0 <= i < e.len() && (#[trigger] e[i]).0 == base + q
}

proof fn lemma_complete_of<T>(children: Seq<(String, NestedFolder<T>)>, base: Seq<Seq<char>>)
    requires
        names_of(children).no_duplicates(),
        forall|k: int| 0 <= k < children.len() ==> (#[trigger] children[k]).1.wf(),
    ensures
        complete_of(entries_of(children, base), children, base),
    decreases children,
{
    let e = entries_of(children, base);
    if children.len() == 0 {
        assert forall|r: Seq<Seq<char>>| #[trigger]
            lookup_in(children, r) is Some implies false by {
            if r.len() > 0 {
                let names = names_of(children);
                if names.contains(r[0]) {
                    let j = names.index_of(r[0]);
                    assert(names[j] == r[0]);
                }
            }
        }
    } else {
        let init = children.drop_last();
        let last = children.last();
        let below = base.push(last.0@);
        let a = entries_of(init, base);
        let b = last.1.entries(below);
        let names = names_of(children);
        assert(names_of(init) =~= names.drop_last());
        assert forall|k: int| 0 <= k < init.len() implies (#[trigger] init[k]).1.wf() by {
            assert(children[k].1.wf());
        }
        assert(last.1.wf());
        lemma_complete_of(init, base);
        lemma_complete(last.1, below);
        assert forall|r: Seq<Seq<char>>| #[trigger]
            lookup_in(children, r) is Some implies exists|i: int|
            0 <= i < e.len() && (#[trigger] e[i]).0 == base + r by {
            lemma_lookup_in_last(children, r);
            if r[0] == last.0@ {
                assert(last.1.lookup(r.skip(1)) is Some);
                let l = choose|l: int| 0 <= l < b.len() && (#[trigger] b[l]).0 == below + r.skip(1);
                assert(below + r.skip(1) =~= base + r);
                assert(e[a.len() + l] == b[l]);
            } else {
                assert(lookup_in(init, r) is Some);
                let i = choose|i: int| 0 <= i < a.len() && (#[trigger] a[i]).0 == base + r;
                assert(e[i] == a[i]);
            }
        }
    }
}

proof fn lemma_complete<T>(n: NestedFolder<T>, base: Seq<Seq<char>>)
    requires
        n.wf(),
    ensures
        complete(n.entries(base), n, base),
    decreases n,
{
    let e = n.entries(base);
    let c = entries_of(n.children@, base);
    lemma_complete_of(n.children@, base);
    assert forall|q: Seq<Seq<char>>| #[trigger] n.lookup(q) is Some implies exists|i: int|
        0 <= i < e.len() && (#[trigger] e[i]).0 == base + q by {
        if q.len() == 0 {
            assert(base + q =~= base);
            assert(e[0].0 == base + q);
        } else {
            assert(lookup_in(n.children@, q) is Some);
            let i = choose|i: int| 0 <= i < c.len() && (#[trigger] c[i]).0 == base + q;
            assert(e[i + 1] == c[i]);
        }
    }
}

/// A lookup with one more name at the end looks up the shorter path and
/// then, among the children found there, the name.
proof fn lemma_lookup_push<T>(n: NestedFolder<T>, p: Seq<Seq<char>>, s: Seq<char>)
    ensures
        n.lookup(p.push(s)) == (match n.lookup(p) {
            Some(x) => child_in(x.children@, s),
            None => None,
        }),
    decreases p.len(),
{
    let long = p.push(s);
    assert(n.lookup(long) == lookup_in(n.children@, long));
    if p.len() == 0 {
        assert(long.skip(1) =~= Seq::<Seq<char>>::empty());
        assert(long[0] == s);
        assert(n.lookup(p) == Some(n));
        match child_in(n.children@, s) {
            Some(c) => {
                assert(c.lookup(long.skip(1)) == Some(c));
            },
            None => {},
        }
    } else {
        assert(long.skip(1) =~= p.skip(1).push(s));
        assert(long[0] == p[0]);
        assert(n.lookup(p) == lookup_in(n.children@, p));
        match child_in(n.children@, p[0]) {
            Some(c) => {
                lemma_lookup_push(c, p.skip(1), s);
                assert(lookup_in(n.children@, long) == c.lookup(long.skip(1)));
                assert(lookup_in(n.children@, p) == c.lookup(p.skip(1)));
            },
            None => {},
        }
    }
}

/// What a nested folder stands for is a tree.
pub proof fn lemma_flat_well_formed<T>(n: NestedFolder<T>)
    ensures
        well_formed(n.flat()),
{
    let m = n.flat();
    assert forall|p: Seq<Seq<char>>, s: Seq<char>| #[trigger]
        m.dom().contains(p.push(s)) implies m.dom().contains(p) && m[p].1.contains(s) by {
        lemma_lookup_push(n, p, s);
    }
    assert forall|p: Seq<Seq<char>>, s: Seq<char>|
        m.dom().contains(p) && #[trigger] m[p].1.contains(s) implies m.dom().contains(
        p.push(s),
    ) by {
        lemma_lookup_push(n, p, s);
    }
}

impl<T> NestedFolder<T> {
    /// Appends this folder at `path` and everything below it to `paths`,
    /// each folder before its children.
    pub fn serialize_tree(self, path: FolderPath, paths: &mut Vec<(FolderPath, T)>)
        ensures
            pairs_view(final(paths)@) == pairs_view(old(paths)@) + self.entries(path@),
        decreases self,
    {
        let ghost before = pairs_view(paths@);
        let ghost kids = self.children@;
        let NestedFolder { data, children } = self;
        paths.push((path.clone(), data));
        proof {
            assert(pairs_view(paths@) =~= before + seq![(path@, data)]);
            assert(kids.take(0) =~= Seq::empty());
        }
        for pair in it: children
            invariant
                it.seq() == kids,
                kids == self.children@,
                pairs_view(paths@) == before + seq![(path@, self.data)] + entries_of(
                    kids.take(it.index() as int),
                    path@,
                ),
        {
            let ghost i = it.index() as int;
            let (name, child) = pair;
            proof {
                assert(kids.take(i + 1).drop_last() =~= kids.take(i));
                assert(kids.take(i + 1).last() == kids[i]);
            }
            child.serialize_tree(path.child(name), paths);
        }
        proof {
            assert(kids.take(kids.len() as int) =~= kids);
        }
    }

    /// The tree that this folder stands for: its folders are listed, the
    /// root first and each folder before its children, and then made one
    /// after the other.
    pub fn into_folder_tree(self) -> (tree: FolderTree<T>)
        requires
            self.wf(),
        ensures
            tree.wf(),
            tree@ == self.flat(),
    {
        let ghost root = Seq::<Seq<char>>::empty();
        let ghost e = self.entries(root);
        let mut paths: Vec<(FolderPath, T)> = Vec::new();
        let start = FolderPath::from_vec(Vec::new());
        proof {
            assert(start@ =~= root);
            lemma_parents_first(self, root);
            lemma_paths_distinct(self, root);
        }
        self.serialize_tree(start, &mut paths);
        assert(pairs_view(paths@) =~= e);
        let first = paths.remove(0);
        let ghost rest = paths@;
        let mut tree = FolderTree::new(first.1);
        proof {
            assert(pairs_view(rest) =~= e.skip(1));
            assert(e[0] == (first.0@, first.1));
        }
        for pair in it: paths
            invariant
                it.seq() == rest,
                pairs_view(rest) == e.skip(1),
                e.len() == rest.len() + 1,
                grows_downward(e),
                paths_distinct(e),
                tree.wf(),
                forall|p: Seq<Seq<char>>|
                    tree@.dom().contains(p) <==> exists|j: int|
                        0 <= j < it.index() + 1 && (#[trigger] e[j]).0 == p,
                forall|j: int|
                    0 <= j < it.index() + 1 ==> tree@[(#[trigger] e[j]).0].0 == e[j].1,
        {
            let ghost i = it.index() + 1;
            let ghost had = tree@;
            let (path, node) = pair;
            proof {
                assert(0 <= i - 1 < rest.len());
                assert(pair == rest[i - 1]);
                assert(pairs_view(rest)[i - 1] == e.skip(1)[i - 1]);
                assert(e[i] == (path@, node));
                let j = choose|j: int| 0 <= j < i && (#[trigger] e[j]).0 == e[i].0.drop_last();
                assert(had.dom().contains(path@.drop_last()));
                assert(path@ =~= path@.drop_last().push(path@.last()));
                if had.dom().contains(path@) {
                    let k = choose|k: int| 0 <= k < i && (#[trigger] e[k]).0 == path@;
                    assert(e[k].0 != e[i].0);
                }
            }
            let (parent, child_name) = match path.up() {
                Some(pair) => pair,
                None => unreached(),
            };
            match tree.make_folder(&parent, child_name, node) {
                Ok(_) => {},
                Err(_) => unreached(),
            }
            proof {
                assert forall|p: Seq<Seq<char>>|
                    tree@.dom().contains(p) <==> exists|j: int|
                        0 <= j < i + 1 && (#[trigger] e[j]).0 == p by {
                    if had.dom().contains(p) {
                        let j = choose|j: int| 0 <= j < i && (#[trigger] e[j]).0 == p;
                        assert(0 <= j < i + 1 && e[j].0 == p);
                    }
                    if p == path@ {
                        assert(e[i].0 == p);
                    }
                    if exists|j: int| 0 <= j < i + 1 && (#[trigger] e[j]).0 == p {
                        let j = choose|j: int| 0 <= j < i + 1 && (#[trigger] e[j]).0 == p;
                        if j < i {
                            assert(had.dom().contains(p));
                        }
                    }
                }
                assert forall|j: int| 0 <= j < i + 1 implies tree@[(#[trigger] e[j]).0].0
                    == e[j].1 by {
                    if j < i {
                        assert(had.dom().contains(e[j].0));
                        assert(had[e[j].0].0 == e[j].1);
                    }
                }
            }
        }
        proof {
            let m = self.flat();
            lemma_flat_well_formed(self);
            lemma_payloads(self, root);
            lemma_complete(self, root);
            assert forall|p: Seq<Seq<char>>| tree@.dom().contains(p) <==> m.dom().contains(p) by {
                if tree@.dom().contains(p) {
                    let j = choose|j: int| 0 <= j < e.len() && (#[trigger] e[j]).0 == p;
                    assert(e[j].0.skip(0) =~= p);
                }
                if m.dom().contains(p) {
                    assert(self.lookup(p) is Some);
                    let j = choose|j: int| 0 <= j < e.len() && (#[trigger] e[j]).0 == root + p;
                    assert(root + p =~= p);
                }
            }
            assert forall|p: Seq<Seq<char>>| tree@.dom().contains(p) implies tree@[p].0
                == m[p].0 by {
                let j = choose|j: int| 0 <= j < e.len() && (#[trigger] e[j]).0 == p;
                assert(e[j].0.skip(0) =~= p);
            }
            lemma_same_tree(tree@, m);
        }
        tree
    }
}

impl<T> FolderTree<T> {
    /// The nested form of the folder at `path` with everything below it.
    fn nested_at(&self, path: &FolderPath) -> (r: NestedFolder<&T>)
        requires
            self.wf(),
            self@.dom().contains(path@),
        ensures
            r.wf(),
            mirrors_below(r, self@, path@),
        decreases self.size() - path@.len(),
    {
        let data = match self.get(path) {
            Ok(data) => data,
            Err(_) => unreached(),
        };
        let names = match self.get_children(path) {
            Ok(names) => names,
            Err(_) => unreached(),
        };
        let mut children: Vec<(String, NestedFolder<&T>)> = Vec::new();
        let n = names.len();
        let mut k: usize = 0;
        while k < n
            invariant
                self.wf(),
                self@.dom().contains(path@),
                n == names@.len(),
                k <= n,
                segments_view(names@).to_set() == self@[path@].1,
                children@.len() == k,
                forall|a: int|
                    0 <= a < k ==> {
                        &&& (#[trigger] children@[a]).0@ == names@[a]@
                        &&& children@[a].1.wf()
                        &&& mirrors_below(children@[a].1, self@, path@.push(names@[a]@))
                    },
            decreases n - k,
        {
            let full_path = path.child(names[k].clone());
            proof {
                let listed = segments_view(names@);
                assert(listed[k as int] == names@[k as int]@);
                assert(listed.to_set().contains(listed[k as int]));
                self.lemma_depth_below_size(path@);
                self.lemma_depth_below_size(full_path@);
            }
            let child = self.nested_at(&full_path);
            children.push((names[k].clone(), child));
            k += 1;
        }
        let r = NestedFolder { data, children };
        proof {
            assert(r.names() =~= segments_view(names@));
            lemma_mirrors_below(r, self@, path@);
        }
        r
    }

    /// The nested form of the tree, the root outermost.
    pub fn to_nested(&self) -> (r: NestedFolder<&T>)
        requires
            self.wf(),
        ensures
            r.wf(),
            mirrors_below(r, self@, Seq::empty()),
    {
        let root = FolderPath::from_vec(Vec::new());
        assert(root@ =~= Seq::empty());
        self.nested_at(&root)
    }
}

} // verus!
