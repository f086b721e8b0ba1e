//! The tree itself: a table with one row for each folder, and the
//! operations that keep it a tree.

use crate::foldertree::error::{FolderTreeError, FolderTreeErrorView};
use crate::foldertree::model::{
    can_relocate, lemma_move_can_relocate, lemma_parent_exists, lemma_prefix_exists,
    lemma_relocated_well_formed, lemma_rename_can_relocate, lemma_same_shape,
    lemma_set_data_well_formed, lemma_with_folder_well_formed, lemma_without_folder_well_formed,
    make_refusal, move_refusal, rebased, rehomed, relocated, remove_refusal, rename_refusal,
    root_only, well_formed, with_folder, without_folder, Folders,
};
use crate::foldertree::path::{segments_view, FolderPath};
use vstd::prelude::*;

verus! {

/// One row of the table: a folder's path, its payload and the names of its
/// children.
#[derive(Debug)]
struct Folder<T> {
    path: FolderPath,
    data: T,
    children: Vec<String>,
}

/// A tree of folders, kept as a flat table with one row for each folder.
#[derive(Debug)]
pub struct FolderTree<T> {
    nodes: Vec<Folder<T>>,
}

/// The paths that a list of borrowed paths stands for.
pub open spec fn path_views(v: Seq<&FolderPath>) -> Seq<Seq<Seq<char>>> {
    Seq::new(v.len(), |k: int| v[k]@)
}

/// The paths of the rows, in the order of the rows.
spec fn paths<T>(nodes: Seq<Folder<T>>) -> Seq<Seq<Seq<char>>> {
    Seq::new(nodes.len(), |i: int| nodes[i].path@)
}

/// What one row says of its folder.
spec fn entry<T>(f: Folder<T>) -> (T, Set<Seq<char>>) {
    (f.data, segments_view(f.children@).to_set())
}

/// The map that the rows stand for.
spec fn table<T>(nodes: Seq<Folder<T>>) -> Folders<T> {
    Map::new(
        |p: Seq<Seq<char>>| paths(nodes).contains(p),
        |p: Seq<Seq<char>>| entry(nodes[paths(nodes).index_of(p)]),
    )
}

/// No path has two rows, and no row lists a name twice.
spec fn rows_sound<T>(nodes: Seq<Folder<T>>) -> bool {
    &&& paths(nodes).no_duplicates()
    &&& forall|i: int|
        #![trigger nodes[i]]
        0 <= i < nodes.len() ==> segments_view(nodes[i].children@).no_duplicates()
}

proof fn lemma_row<T>(nodes: Seq<Folder<T>>, i: int)
    requires
        paths(nodes).no_duplicates(),
        0 <= i < nodes.len(),
    ensures
        table(nodes).dom().contains(nodes[i].path@),
        table(nodes)[nodes[i].path@] == entry(nodes[i]),
{
    let ps = paths(nodes);
    assert(ps[i] == nodes[i].path@);
    assert(ps.contains(ps[i]));
    let j = ps.index_of(ps[i]);
    assert(ps[j] == ps[i]);
}

proof fn lemma_rows_stand_for<T>(nodes: Seq<Folder<T>>, m: Folders<T>)
    requires
        paths(nodes).no_duplicates(),
        forall|i: int|
            #![trigger nodes[i]]
            0 <= i < nodes.len() ==> m.dom().contains(nodes[i].path@) && m[nodes[i].path@]
                == entry(nodes[i]),
        forall|p: Seq<Seq<char>>| m.dom().contains(p) ==> paths(nodes).contains(p),
    ensures
        table(nodes) == m,
{
    let t = table(nodes);
    assert forall|p: Seq<Seq<char>>| t.dom().contains(p) implies m.dom().contains(p) && t[p]
        == m[p] by {
        let j = paths(nodes).index_of(p);
        assert(paths(nodes)[j] == p);
        assert(nodes[j].path@ == p);
    }
    assert(t =~= m);
}

/// A new payload in one row changes the payload of that folder and nothing
/// else.
proof fn lemma_set_data<T>(nodes: Seq<Folder<T>>, i: int, data: T)
    requires
        rows_sound(nodes),
        0 <= i < nodes.len(),
    ensures
        ({
            let f = Folder { path: nodes[i].path, data, children: nodes[i].children };
            &&& rows_sound(nodes.update(i, f))
            &&& table(nodes.update(i, f)) == table(nodes).insert(
                nodes[i].path@,
                (data, table(nodes)[nodes[i].path@].1),
            )
        }),
{
    let f = Folder { path: nodes[i].path, data, children: nodes[i].children };
    let after = nodes.update(i, f);
    let m = table(nodes).insert(nodes[i].path@, (data, table(nodes)[nodes[i].path@].1));
    assert(paths(after) =~= paths(nodes));
    lemma_row(nodes, i);
    assert forall|k: int| #![trigger after[k]] 0 <= k < after.len() implies m.dom().contains(
        after[k].path@,
    ) && m[after[k].path@] == entry(after[k]) by {
        lemma_row(nodes, k);
        if k != i {
            assert(paths(nodes)[k] != paths(nodes)[i]);
        }
    }
    lemma_rows_stand_for(after, m);
}

/// One more name in row `i` and one more row for that name add one folder.
proof fn lemma_add_row<T>(
    rows: Seq<Folder<T>>,
    after: Seq<Folder<T>>,
    i: int,
    name: Seq<char>,
    data: T,
)
    requires
        rows_sound(rows),
        well_formed(table(rows)),
        0 <= i < rows.len(),
        !segments_view(rows[i].children@).contains(name),
        after.len() == rows.len() + 1,
        forall|k: int| 0 <= k < rows.len() && k != i ==> after[k] == rows[k],
        after[i].path@ == rows[i].path@,
        after[i].data == rows[i].data,
        segments_view(after[i].children@) == segments_view(rows[i].children@).push(name),
        after[rows.len() as int].path@ == rows[i].path@.push(name),
        after[rows.len() as int].data == data,
        after[rows.len() as int].children@.len() == 0,
    ensures
        rows_sound(after),
        table(after) == with_folder(table(rows), rows[i].path@, name, data),
{
    let parent = rows[i].path@;
    let fresh = parent.push(name);
    let m = with_folder(table(rows), parent, name, data);
    let last = rows.len() as int;
    lemma_row(rows, i);
    lemma_with_folder_well_formed(table(rows), parent, name, data);
    assert forall|a: int, b: int|
        0 <= a < after.len() && 0 <= b < after.len() && a != b implies paths(after)[a] != paths(
        after,
    )[b] by {
        if a < last {
            lemma_row(rows, a);
            assert(paths(rows)[a] == paths(after)[a]);
        }
        if b < last {
            lemma_row(rows, b);
            assert(paths(rows)[b] == paths(after)[b]);
        }
    }
    assert forall|k: int| #![trigger after[k]] 0 <= k < after.len() implies segments_view(
        after[k].children@,
    ).no_duplicates() by {
        if k == i {
            let old_names = segments_view(rows[i].children@);
            assert(old_names.no_duplicates());
            assert forall|a: int, b: int|
                0 <= a < old_names.len() + 1 && 0 <= b < old_names.len() + 1 && a
                    != b implies old_names.push(name)[a] != old_names.push(name)[b] by {
                if a < old_names.len() {
                    assert(old_names.contains(old_names[a]));
                }
                if b < old_names.len() {
                    assert(old_names.contains(old_names[b]));
                }
            }
        } else if k < last {
            assert(after[k] == rows[k]);
            assert(segments_view(rows[k].children@).no_duplicates());
        }
    }
    assert forall|k: int| #![trigger after[k]] 0 <= k < after.len() implies m.dom().contains(
        after[k].path@,
    ) && m[after[k].path@] == entry(after[k]) by {
        if k == last {
            assert(segments_view(after[k].children@).to_set() =~= Set::empty());
        } else if k == i {
            segments_view(rows[i].children@).lemma_push_to_set_commute(name);
        } else {
            lemma_row(rows, k);
            assert(paths(rows)[k] != paths(rows)[i]);
        }
    }
    assert forall|p: Seq<Seq<char>>| m.dom().contains(p) implies paths(after).contains(p) by {
        if p == fresh {
            assert(paths(after)[last] == p);
        } else {
            let j = paths(rows).index_of(p);
            assert(paths(rows)[j] == p);
            assert(paths(after)[j] == p);
        }
    }
    lemma_rows_stand_for(after, m);
}

/// A list of names without one of them lists the other names, each once.
proof fn lemma_without_name(names: Seq<String>, j: int)
    requires
        segments_view(names).no_duplicates(),
        0 <= j < names.len(),
    ensures
        segments_view(names.remove(j)).no_duplicates(),
        segments_view(names.remove(j)).to_set() == segments_view(names).to_set().remove(
            names[j]@,
        ),
{
    let v = segments_view(names);
    let w = segments_view(names.remove(j));
    names.remove_ensures(j);
    assert forall|a: int| 0 <= a < w.len() implies w[a] == (if a < j {
        v[a]
    } else {
        v[a + 1]
    }) by {}
    assert forall|s: Seq<char>| w.to_set().contains(s) <==> v.to_set().remove(v[j]).contains(
        s,
    ) by {
        if w.to_set().contains(s) {
            let a = w.index_of(s);
            assert(w[a] == s);
            if a < j {
                assert(v[a] == s);
            } else {
                assert(v[a + 1] == s);
            }
        }
        if v.to_set().remove(v[j]).contains(s) {
            let b = v.index_of(s);
            assert(v[b] == s);
            if b < j {
                assert(w[b] == s);
            } else {
                assert(w[b - 1] == s);
            }
        }
    }
    assert(w.to_set() =~= v.to_set().remove(v[j]));
}

/// Without row `i`, and without its name in the row of its parent, the
/// folder of row `i` is gone.
proof fn lemma_remove_row<T>(
    rows: Seq<Folder<T>>,
    mid: Seq<Folder<T>>,
    i: int,
    ip: int,
    j: int,
)
    requires
        rows_sound(rows),
        well_formed(table(rows)),
        0 <= i < rows.len(),
        0 <= ip < rows.len(),
        rows[i].path@.len() > 0,
        rows[ip].path@ == rows[i].path@.drop_last(),
        rows[i].children@.len() == 0,
        0 <= j < rows[ip].children@.len(),
        rows[ip].children@[j]@ == rows[i].path@.last(),
        mid.len() == rows.len(),
        forall|k: int| 0 <= k < rows.len() && k != ip ==> mid[k] == rows[k],
        mid[ip].path@ == rows[ip].path@,
        mid[ip].data == rows[ip].data,
        mid[ip].children@ == rows[ip].children@.remove(j),
    ensures
        rows_sound(mid.remove(i)),
        table(mid.remove(i)) == without_folder(table(rows), rows[i].path@),
{
    let after = mid.remove(i);
    let path = rows[i].path@;
    let m = without_folder(table(rows), path);
    mid.remove_ensures(i);
    lemma_row(rows, i);
    lemma_row(rows, ip);
    lemma_without_name(rows[ip].children@, j);
    assert(paths(rows)[i] == path);
    assert(ip != i);
    assert forall|k: int| 0 <= k < after.len() implies paths(after)[k] == (if k < i {
        paths(rows)[k]
    } else {
        paths(rows)[k + 1]
    }) by {}
    assert forall|k: int| #![trigger after[k]] 0 <= k < after.len() implies segments_view(
        after[k].children@,
    ).no_duplicates() by {
        let o = if k < i {
            k
        } else {
            k + 1
        };
        assert(after[k] == mid[o]);
        if o != ip {
            assert(mid[o] == rows[o]);
            assert(segments_view(rows[o].children@).no_duplicates());
        }
    }
    assert forall|k: int| #![trigger after[k]] 0 <= k < after.len() implies m.dom().contains(
        after[k].path@,
    ) && m[after[k].path@] == entry(after[k]) by {
        let o = if k < i {
            k
        } else {
            k + 1
        };
        assert(after[k] == mid[o]);
        lemma_row(rows, o);
        assert(paths(rows)[o] != paths(rows)[i]);
        if o != ip {
            assert(paths(rows)[o] != paths(rows)[ip]);
        }
    }
    assert forall|p: Seq<Seq<char>>| m.dom().contains(p) implies paths(after).contains(p) by {
        let o = paths(rows).index_of(p);
        assert(paths(rows)[o] == p);
        if o < i {
            assert(paths(after)[o] == p);
        } else {
            assert(paths(after)[o - 1] == p);
        }
    }
    lemma_rows_stand_for(after, m);
}

/// Rows whose paths below `from` stand below `to` instead, and whose names
/// follow, stand for the relocated map.
proof fn lemma_relocate_rows<T>(
    rows: Seq<Folder<T>>,
    after: Seq<Folder<T>>,
    from: Seq<Seq<char>>,
    to: Seq<Seq<char>>,
)
    requires
        rows_sound(rows),
        well_formed(table(rows)),
        can_relocate(table(rows), from, to),
        after.len() == rows.len(),
        forall|k: int|
            #![trigger after[k]]
            0 <= k < rows.len() ==> {
                &&& after[k].data == rows[k].data
                &&& after[k].path@ == rebased(rows[k].path@, from, to)
                &&& segments_view(after[k].children@).no_duplicates()
                &&& segments_view(after[k].children@).to_set() == rehomed(
                    segments_view(rows[k].children@).to_set(),
                    rows[k].path@,
                    from,
                    to,
                )
            },
    ensures
        rows_sound(after),
        table(after) == relocated(table(rows), from, to),
{
    let m = table(rows);
    let n = relocated(m, from, to);
    let fl = from.len() as int;
    let tl = to.len() as int;
    assert forall|k: int| 0 <= k < rows.len() implies m.dom().contains(#[trigger] rows[k].path@)
        && m[rows[k].path@] == entry(rows[k]) && !to.is_prefix_of(rows[k].path@) by {
        lemma_row(rows, k);
        if to.is_prefix_of(rows[k].path@) {
            lemma_prefix_exists(m, rows[k].path@, to);
        }
    }
    assert forall|k: int| 0 <= k < rows.len() && from.is_prefix_of(
        #[trigger] rows[k].path@,
    ) implies to.is_prefix_of(after[k].path@) && from + after[k].path@.skip(tl)
        == rows[k].path@ && rows[k].path@ != from.drop_last() && rows[k].path@
        != to.drop_last() by {
        let q = rows[k].path@;
        let r = after[k].path@;
        assert(r == to + q.skip(fl));
        assert(to =~= r.subrange(0, tl));
        assert(r.skip(tl) =~= q.skip(fl));
        assert(from + q.skip(fl) =~= q);
    }
    assert forall|a: int, b: int|
        0 <= a < after.len() && 0 <= b < after.len() && a != b implies paths(after)[a] != paths(
        after,
    )[b] by {
        assert(paths(rows)[a] != paths(rows)[b]);
        assert(after[a].path@ == rebased(rows[a].path@, from, to));
        assert(after[b].path@ == rebased(rows[b].path@, from, to));
    }
    assert forall|k: int| #![trigger after[k]] 0 <= k < after.len() implies n.dom().contains(
        after[k].path@,
    ) && n[after[k].path@] == entry(after[k]) by {
        assert(m[rows[k].path@] == entry(rows[k]));
    }
    assert forall|p: Seq<Seq<char>>| n.dom().contains(p) implies paths(after).contains(p) by {
        if to.is_prefix_of(p) {
            let pre = from + p.skip(tl);
            let k = paths(rows).index_of(pre);
            assert(paths(rows)[k] == pre);
            assert(from =~= pre.subrange(0, fl));
            assert(rows[k].path@ == pre);
            assert(pre.skip(fl) =~= p.skip(tl));
            assert(to + p.skip(tl) =~= p);
            assert(paths(after)[k] == p);
        } else {
            let k = paths(rows).index_of(p);
            assert(paths(rows)[k] == p);
            assert(rows[k].path@ == p);
            assert(paths(after)[k] == p);
        }
    }
    lemma_rows_stand_for(after, n);
}

/// As many distinct numbers below `n` as `m` takes `m <= n`.
proof fn lemma_pigeonhole(f: spec_fn(int) -> int, m: int, n: int)
    requires
        0 <= m,
        0 <= n,
        forall|k: int| 0 <= k < m ==> 0 <= #[trigger] f(k) < n,
        forall|a: int, b: int| #![trigger f(a), f(b)] 0 <= a < b < m ==> f(a) != f(b),
    ensures
        m <= n,
    decreases n,
{
    if m > 0 {
        if n == 0 {
            assert(0 <= f(0) < n);
        } else if exists|k: int| 0 <= k < m && #[trigger] f(k) == n - 1 {
            let k0 = choose|k: int| 0 <= k < m && #[trigger] f(k) == n - 1;
            let g = |k: int|
                if k < k0 {
                    f(k)
                } else {
                    f(k + 1)
                };
            assert forall|k: int| 0 <= k < m - 1 implies 0 <= #[trigger] g(k) < n - 1 by {
                if k < k0 {
                    assert(f(k) != f(k0));
                } else {
                    assert(f(k0) != f(k + 1));
                }
            }
            assert forall|a: int, b: int| #![trigger g(a), g(b)] 0 <= a < b < m - 1 implies g(a)
                != g(b) by {
                let a2 = if a < k0 {
                    a
                } else {
                    a + 1
                };
                let b2 = if b < k0 {
                    b
                } else {
                    b + 1
                };
                assert(f(a2) != f(b2));
            }
            lemma_pigeonhole(g, m - 1, n - 1);
        } else {
            assert forall|k: int| 0 <= k < m implies 0 <= #[trigger] f(k) < n - 1 by {
                assert(0 <= f(k) < n);
            }
            lemma_pigeonhole(f, m, n - 1);
        }
    }
}

impl<T> View for FolderTree<T> {
    type V = Folders<T>;

    closed spec fn view(&self) -> Folders<T> {
        table(self.nodes@)
    }
}

impl<T: Clone> Clone for FolderTree<T> {
    /// A tree with the same folders, each with a clone of its payload.
    fn clone(&self) -> (r: Self)
        ensures
            self.wf() ==> r.wf(),
            self.wf() ==> forall|p: Seq<Seq<char>>|
                r@.dom().contains(p) <==> self@.dom().contains(p),
            self.wf() ==> forall|p: Seq<Seq<char>>|
                #![trigger r@[p]]
                #![trigger self@[p]]
                self@.dom().contains(p) ==> cloned(self@[p].0, r@[p].0) && r@[p].1 == self@[p].1,
    {
        let mut nodes: Vec<Folder<T>> = Vec::new();
        let n = self.nodes.len();
        let mut i: usize = 0;
        while i < n
            invariant
                n == self.nodes@.len(),
                i <= n,
                nodes@.len() == i,
                forall|k: int|
                    #![trigger nodes@[k]]
                    0 <= k < i ==> nodes@[k].path@ == self.nodes@[k].path@ && cloned(
                        self.nodes@[k].data,
                        nodes@[k].data,
                    ) && segments_view(nodes@[k].children@) == segments_view(
                        self.nodes@[k].children@,
                    ),
            decreases n - i,
        {
            let row = &self.nodes[i];
            let children = row.children.clone();
            assert(segments_view(children@) =~= segments_view(row.children@));
            nodes.push(Folder { path: row.path.clone(), data: row.data.clone(), children });
            i += 1;
        }
        let r = FolderTree { nodes };
        proof {
            if self.wf() {
                assert(paths(r.nodes@) =~= paths(self.nodes@));
                assert forall|k: int|
                    #![trigger r.nodes@[k]]
                    0 <= k < r.nodes@.len() implies segments_view(
                    r.nodes@[k].children@,
                ).no_duplicates() by {
                    assert(segments_view(self.nodes@[k].children@).no_duplicates());
                }
                assert forall|p: Seq<Seq<char>>|
                    #![trigger r@[p]]
                    #![trigger self@[p]]
                    self@.dom().contains(p) implies cloned(self@[p].0, r@[p].0) && r@[p].1
                    == self@[p].1 by {
                    let k = paths(self.nodes@).index_of(p);
                    assert(paths(self.nodes@)[k] == p);
                    lemma_row(self.nodes@, k);
                    lemma_row(r.nodes@, k);
                }
                lemma_same_shape(self@, r@);
            }
        }
        r
    }
}

/// The index of a name in a list of names, if it is there.
fn find_name(names: &Vec<String>, name: &String) -> (r: Option<usize>)
    ensures
        match r {
            Some(j) => j < names@.len() && names@[j as int]@ == name@,
            None => !segments_view(names@).contains(name@),
        },
{
    let n = names.len();
    let mut j: usize = 0;
    while j < n
        invariant
            n == names@.len(),
            j <= n,
            forall|k: int| 0 <= k < j ==> names@[k]@ != name@,
        decreases n - j,
    {
        if names[j] == *name {
            return Some(j);
        }
        j += 1;
    }
    None
}

impl<T> FolderTree<T> {
    /// The table holds each folder once.
    pub closed spec fn sound(&self) -> bool {
        rows_sound(self.nodes@)
    }

    /// The number of folders.
    pub closed spec fn size(&self) -> nat {
        self.nodes@.len()
    }

    /// A tree has more folders than any of its paths has segments.
    pub proof fn lemma_depth_below_size(&self, p: Seq<Seq<char>>)
        requires
            self.wf(),
            self@.dom().contains(p),
        ensures
            p.len() < self.size(),
    {
        let rows = self.nodes@;
        let f = |k: int| paths(rows).index_of(p.take(k));
        assert forall|k: int| 0 <= k < p.len() + 1 implies 0 <= #[trigger] f(k) < rows.len()
            && paths(rows)[f(k)] == p.take(k) by {
            lemma_prefix_exists(self@, p, p.take(k));
        }
        assert forall|a: int, b: int| #![trigger f(a), f(b)] 0 <= a < b < p.len() + 1 implies f(a)
            != f(b) by {
            assert(paths(rows)[f(a)] == p.take(a));
            assert(paths(rows)[f(b)] == p.take(b));
            assert(p.take(a).len() != p.take(b).len());
        }
        lemma_pigeonhole(f, p.len() as int + 1, rows.len() as int);
    }

    /// The table is in order, and what it holds is a tree.
    pub open spec fn wf(&self) -> bool {
        self.sound() && well_formed(self@)
    }

    /// The row of a path, if the path exists.
    fn find(&self, path: &FolderPath) -> (r: Option<usize>)
        ensures
            r is Some <==> self@.dom().contains(path@),
            match r {
                Some(i) => i < self.nodes@.len() && self.nodes@[i as int].path@ == path@,
                None => !paths(self.nodes@).contains(path@),
            },
    {
        let n = self.nodes.len();
        let mut i: usize = 0;
        while i < n
            invariant
                n == self.nodes@.len(),
                i <= n,
                forall|k: int| 0 <= k < i ==> self.nodes@[k].path@ != path@,
            decreases n - i,
        {
            if self.nodes[i].path == *path {
                assert(paths(self.nodes@)[i as int] == path@);
                return Some(i);
            }
            i += 1;
        }
        None
    }

    /// A tree with the root alone.
    pub fn new(root: T) -> (tree: FolderTree<T>)
        ensures
            tree.wf(),
            tree@ == root_only(root),
    {
        let path = FolderPath::from_vec(Vec::new());
        let mut nodes: Vec<Folder<T>> = Vec::new();
        nodes.push(Folder { path, data: root, children: Vec::new() });
        let tree = FolderTree { nodes };
        proof {
            let m = root_only(root);
            assert(tree.nodes@[0].path@ =~= Seq::empty());
            assert(segments_view(tree.nodes@[0].children@).to_set() =~= Set::empty());
            assert(paths(tree.nodes@).contains(paths(tree.nodes@)[0]));
            lemma_rows_stand_for(tree.nodes@, m);
            assert forall|p: Seq<Seq<char>>, s: Seq<char>| #[trigger]
                m.dom().contains(p.push(s)) implies false by {
                assert(p.push(s).len() > 0);
            }
        }
        tree
    }

    /// The payload of the folder at `path`.
    pub fn get(&self, path: &FolderPath) -> (r: Result<&T, FolderTreeError>)
        requires
            self.wf(),
        ensures
            self@.dom().contains(path@) ==> r is Ok && *r->Ok_0 == self@[path@].0,
            !self@.dom().contains(path@) ==> r is Err && r->Err_0@
                == FolderTreeErrorView::FolderNotFound(path@),
    {
        match self.find(path) {
            Some(i) => {
                proof {
                    lemma_row(self.nodes@, i as int);
                }
                Ok(&self.nodes[i].data)
            },
            None => Err(FolderTreeError::FolderNotFound(path.clone())),
        }
    }

    /// The payload of the folder at `path`, to be changed in place.
    pub fn get_mut(&mut self, path: &FolderPath) -> (r: Result<&mut T, FolderTreeError>)
        requires
            old(self).wf(),
        ensures
            final(self).wf(),
            old(self)@.dom().contains(path@) ==> r is Ok && *r->Ok_0 == old(self)@[path@].0
                && final(self)@ == old(self)@.insert(
                path@,
                (*final(r->Ok_0), old(self)@[path@].1),
            ),
            !old(self)@.dom().contains(path@) ==> r is Err && r->Err_0@
                == FolderTreeErrorView::FolderNotFound(path@) && final(self)@ == old(self)@,
    {
        match self.find(path) {
            Some(i) => {
                let ghost rows = self.nodes@;
                let data = &mut self.nodes[i].data;
                proof {
                    lemma_row(rows, i as int);
                    lemma_set_data(rows, i as int, *final(data));
                    lemma_set_data_well_formed(table(rows), path@, *final(data));
                }
                Ok(data)
            },
            None => Err(FolderTreeError::FolderNotFound(path.clone())),
        }
    }

    /// The names of the children of the folder at `path`, each once, in no
    /// particular order.
    pub fn get_children(&self, path: &FolderPath) -> (r: Result<&Vec<String>, FolderTreeError>)
        requires
            self.wf(),
        ensures
            self@.dom().contains(path@) ==> r is Ok && segments_view(r->Ok_0@).to_set()
                == self@[path@].1 && segments_view(r->Ok_0@).no_duplicates(),
            !self@.dom().contains(path@) ==> r is Err && r->Err_0@
                == FolderTreeErrorView::FolderNotFound(path@),
    {
        match self.find(path) {
            Some(i) => {
                proof {
                    lemma_row(self.nodes@, i as int);
                }
                Ok(&self.nodes[i].children)
            },
            None => Err(FolderTreeError::FolderNotFound(path.clone())),
        }
    }

    /// Makes the folder `new_child` below `parent`, with `node` as its payload
    /// and no children, and returns its path.
    pub fn make_folder(&mut self, parent: &FolderPath, new_child: String, node: T) -> (r: Result<
        FolderPath,
        FolderTreeError,
    >)
        requires
            old(self).wf(),
        ensures
            final(self).wf(),
            match make_refusal(old(self)@, parent@, new_child@) {
                Some(e) => r is Err && r->Err_0@ == e && final(self)@ == old(self)@,
                None => r is Ok && r->Ok_0@ == parent@.push(new_child@) && final(self)@
                    == with_folder(old(self)@, parent@, new_child@, node),
            },
    {
        let new_full_path = parent.child(new_child.clone());
        match self.find(parent) {
            None => Err(FolderTreeError::FolderNotFound(parent.clone())),
            Some(i) => {
                proof {
                    lemma_row(self.nodes@, i as int);
                }
                if let Some(j) = find_name(&self.nodes[i].children, &new_child) {
                    assert(segments_view(self.nodes@[i as int].children@)[j as int]
                        == new_child@);
                    return Err(FolderTreeError::FolderExists(new_full_path));
                }
                let ghost rows = self.nodes@;
                let ghost name = new_child@;
                self.nodes[i].children.push(new_child);
                self.nodes.push(
                    Folder { path: new_full_path.clone(), data: node, children: Vec::new() },
                );
                proof {
                    assert(segments_view(self.nodes@[i as int].children@) =~= segments_view(
                        rows[i as int].children@,
                    ).push(name));
                    lemma_add_row(rows, self.nodes@, i as int, name, node);
                    lemma_with_folder_well_formed(table(rows), parent@, name, node);
                }
                Ok(new_full_path)
            },
        }
    }

    /// Removes the folder at `path`, which must have no children, and returns
    /// its payload.
    pub fn remove(&mut self, path: &FolderPath) -> (r: Result<T, FolderTreeError>)
        requires
            old(self).wf(),
        ensures
            final(self).wf(),
            match remove_refusal(old(self)@, path@) {
                Some(e) => r is Err && r->Err_0@ == e && final(self)@ == old(self)@,
                None => r is Ok && r->Ok_0 == old(self)@[path@].0 && final(self)@
                    == without_folder(old(self)@, path@),
            },
    {
        let (parent, child) = match path.up() {
            None => {
                return Err(FolderTreeError::CannotRemoveRoot);
            },
            Some(pair) => pair,
        };
        let i = match self.find(path) {
            None => {
                return Err(FolderTreeError::FolderNotFound(path.clone()));
            },
            Some(i) => i,
        };
        proof {
            lemma_row(self.nodes@, i as int);
            lemma_parent_exists(self@, path@);
        }
        if self.nodes[i].children.len() > 0 {
            proof {
                let names = segments_view(self.nodes@[i as int].children@);
                assert(names.contains(names[0]));
                assert(self@[path@].1.contains(names[0]));
            }
            return Err(FolderTreeError::FolderNotEmpty(path.clone()));
        }
        let ip = match self.find(&parent) {
            None => unreached(),
            Some(ip) => ip,
        };
        proof {
            lemma_row(self.nodes@, ip as int);
        }
        let j = match find_name(&self.nodes[ip].children, &child) {
            None => unreached(),
            Some(j) => j,
        };
        let ghost rows = self.nodes@;
        self.nodes[ip].children.remove(j);
        let ghost mid = self.nodes@;
        let folder = self.nodes.remove(i);
        proof {
            lemma_remove_row(rows, mid, i as int, ip as int, j as int);
            lemma_without_folder_well_formed(table(rows), path@);
        }
        Ok(folder.data)
    }

    /// Puts the folder at `from`, with everything below it, at `to`.
    fn relocate(&mut self, from: &FolderPath, to: &FolderPath)
        requires
            old(self).wf(),
            can_relocate(old(self)@, from@, to@),
        ensures
            final(self).wf(),
            final(self)@ == relocated(old(self)@, from@, to@),
    {
        let ghost rows = self.nodes@;
        let (from_parent, from_name) = match from.up() {
            None => unreached(),
            Some(pair) => pair,
        };
        let (to_parent, to_name) = match to.up() {
            None => unreached(),
            Some(pair) => pair,
        };
        proof {
            lemma_parent_exists(self@, from@);
            lemma_relocated_well_formed(self@, from@, to@);
            assert(to@ =~= to@.drop_last().push(to@.last()));
        }
        let ip = match self.find(&from_parent) {
            None => unreached(),
            Some(ip) => ip,
        };
        proof {
            lemma_row(rows, ip as int);
        }
        let j = match find_name(&self.nodes[ip].children, &from_name) {
            None => unreached(),
            Some(j) => j,
        };
        self.nodes[ip].children.remove(j);
        let ghost less = self.nodes@;
        let it = match self.find(&to_parent) {
            None => {
                proof {
                    let k = paths(rows).index_of(to@.drop_last());
                    assert(paths(rows)[k] == to@.drop_last());
                    assert(paths(less)[k] == to@.drop_last());
                }
                unreached()
            },
            Some(it) => it,
        };
        self.nodes[it].children.push(to_name);
        let ghost mid = self.nodes@;
        proof {
            lemma_without_name(rows[ip as int].children@, j as int);
            assert(paths(less) =~= paths(rows));
            lemma_row(rows, it as int);
            let had = segments_view(less[it as int].children@);
            assert(segments_view(mid[it as int].children@) =~= had.push(to@.last()));
            had.lemma_push_to_set_commute(to@.last());
            assert(paths(less)[it as int] == paths(rows)[it as int]);
            assert(!table(rows)[to@.drop_last()].1.contains(to@.last()));
            if it != ip {
                assert(less[it as int] == rows[it as int]);
            }
            assert(!had.to_set().contains(to@.last()));
            assert forall|a: int, b: int|
                0 <= a < had.len() + 1 && 0 <= b < had.len() + 1 && a != b implies had.push(
                to@.last(),
            )[a] != had.push(to@.last())[b] by {
                if a < had.len() {
                    assert(had.contains(had[a]));
                }
                if b < had.len() {
                    assert(had.contains(had[b]));
                }
            }
            assert forall|k: int| #![trigger mid[k]] 0 <= k < rows.len() implies {
                &&& mid[k].data == rows[k].data
                &&& mid[k].path@ == rows[k].path@
                &&& segments_view(mid[k].children@).no_duplicates()
                &&& segments_view(mid[k].children@).to_set() == rehomed(
                    segments_view(rows[k].children@).to_set(),
                    rows[k].path@,
                    from@,
                    to@,
                )
            } by {
                assert(segments_view(rows[k].children@).no_duplicates());
                if k != ip {
                    assert(paths(rows)[k] != paths(rows)[ip as int]);
                }
                if k != it {
                    assert(paths(rows)[k] != paths(rows)[it as int]);
                }
            }
        }
        let n = self.nodes.len();
        let mut k: usize = 0;
        while k < n
            invariant
                n == mid.len(),
                self.nodes@.len() == n,
                k <= n,
                forall|a: int|
                    #![trigger self.nodes@[a]]
                    0 <= a < n ==> self.nodes@[a].data == mid[a].data && self.nodes@[a].children
                        == mid[a].children,
                forall|a: int|
                    #![trigger self.nodes@[a]]
                    0 <= a < k ==> self.nodes@[a].path@ == rebased(mid[a].path@, from@, to@),
                forall|a: int|
                    #![trigger self.nodes@[a]]
                    k <= a < n ==> self.nodes@[a].path == mid[a].path,
            decreases n - k,
        {
            if self.nodes[k].path.is_child_of(from) {
                let relative = match self.nodes[k].path.relative_to(from) {
                    Err(_) => unreached(),
                    Ok(relative) => relative,
                };
                self.nodes[k].path = to.descendant(relative.into_segments());
            }
            k += 1;
        }
        proof {
            lemma_relocate_rows(rows, self.nodes@, from@, to@);
        }
    }

    /// Gives the folder at `path` the name `new_name`. Everything below it
    /// follows.
    pub fn rename_folder(&mut self, path: &FolderPath, new_name: String) -> (r: Result<
        (),
        FolderTreeError,
    >)
        requires
            old(self).wf(),
        ensures
            final(self).wf(),
            match rename_refusal(old(self)@, path@, new_name@) {
                Some(e) => r is Err && r->Err_0@ == e && final(self)@ == old(self)@,
                None => r is Ok && final(self)@ == relocated(
                    old(self)@,
                    path@,
                    path@.drop_last().push(new_name@),
                ),
            },
    {
        match path.up() {
            Some((parent, _basename)) => {
                let new_path = parent.child(new_name);
                if self.find(&new_path).is_some() {
                    return Err(FolderTreeError::FolderExists(new_path));
                }
                if self.find(path).is_none() {
                    return Err(FolderTreeError::FolderNotFound(path.clone()));
                }
                proof {
                    lemma_rename_can_relocate(self@, path@, new_name@);
                }
                self.relocate(path, &new_path);
                Ok(())
            },
            None => Err(FolderTreeError::CannotRenameRoot),
        }
    }

    /// Moves the folder at `path`, with everything below it, to stand below
    /// `new_parent` under its own name.
    pub fn move_folder(&mut self, path: &FolderPath, new_parent: &FolderPath) -> (r: Result<
        (),
        FolderTreeError,
    >)
        requires
            old(self).wf(),
        ensures
            final(self).wf(),
            match move_refusal(old(self)@, path@, new_parent@) {
                Some(e) => r is Err && r->Err_0@ == e && final(self)@ == old(self)@,
                None => r is Ok && final(self)@ == relocated(
                    old(self)@,
                    path@,
                    new_parent@.push(path@.last()),
                ),
            },
    {
        match path.up() {
            Some((_old_parent, basename)) => {
                if new_parent.is_child_of(path) {
                    return Err(FolderTreeError::ImpossibleMove(path.clone(), new_parent.clone()));
                }
                if self.find(new_parent).is_none() {
                    return Err(FolderTreeError::FolderNotFound(new_parent.clone()));
                }
                if self.find(path).is_none() {
                    return Err(FolderTreeError::FolderNotFound(path.clone()));
                }
                let target = new_parent.child(basename);
                if self.find(&target).is_some() {
                    return Err(FolderTreeError::FolderExists(target));
                }
                proof {
                    lemma_move_can_relocate(self@, path@, new_parent@);
                }
                self.relocate(path, &target);
                Ok(())
            },
            None => Err(FolderTreeError::CannotMoveRoot),
        }
    }

    /// Makes every folder along `path` that does not exist yet, each with a
    /// clone of `node` as its payload. Folders that exist stay as they are.
    pub fn make_folders(&mut self, path: &FolderPath, node: T) where T: Clone
        requires
            old(self).wf(),
        ensures
            final(self).wf(),
            forall|p: Seq<Seq<char>>|
                #![trigger final(self)@.dom().contains(p)]
                #![trigger old(self)@.dom().contains(p)]
                #![trigger p.is_prefix_of(path@)]
                final(self)@.dom().contains(p) <==> old(self)@.dom().contains(p) || p.is_prefix_of(
                    path@,
                ),
            forall|p: Seq<Seq<char>>|
                #![trigger final(self)@[p]]
                #![trigger old(self)@[p]]
                old(self)@.dom().contains(p) ==> final(self)@[p].0 == old(self)@[p].0,
            forall|p: Seq<Seq<char>>|
                #![trigger final(self)@[p]]
                final(self)@.dom().contains(p) && !old(self)@.dom().contains(p) ==> cloned(
                    node,
                    final(self)@[p].0,
                ),
    {
        let ghost before = self@;
        let segs = path.segments();
        let n = segs.len();
        let mut cur_path = FolderPath::from_vec(Vec::new());
        let mut i: usize = 0;
        proof {
            assert(cur_path@ =~= Seq::<Seq<char>>::empty());
            assert(cur_path@ =~= path@.take(0));
            assert forall|p: Seq<Seq<char>>|
                #![trigger self@.dom().contains(p)]
                #![trigger before.dom().contains(p)]
                #![trigger p.is_prefix_of(path@)]
                self@.dom().contains(p) <==> before.dom().contains(p) || (p.is_prefix_of(path@)
                    && p.len() <= 0) by {
                if p.len() <= 0 {
                    assert(p =~= cur_path@);
                }
            }
        }
        while i < n
            invariant
                self.wf(),
                segments_view(segs@) == path@,
                n == segs@.len(),
                i <= n,
                cur_path@ == path@.take(i as int),
                self@.dom().contains(cur_path@),
                forall|p: Seq<Seq<char>>|
                    #![trigger self@.dom().contains(p)]
                    #![trigger before.dom().contains(p)]
                    #![trigger p.is_prefix_of(path@)]
                    self@.dom().contains(p) <==> before.dom().contains(p) || (p.is_prefix_of(
                        path@,
                    ) && p.len() <= i),
                forall|p: Seq<Seq<char>>|
                    #![trigger self@[p]]
                    #![trigger before[p]]
                    before.dom().contains(p) ==> self@[p].0 == before[p].0,
                forall|p: Seq<Seq<char>>|
                    #![trigger self@[p]]
                    self@.dom().contains(p) && !before.dom().contains(p) ==> cloned(
                        node,
                        self@[p].0,
                    ),
            decreases n - i,
        {
            let ghost prev = self@;
            let child_path = cur_path.child(segs[i].clone());
            proof {
                assert(child_path@ =~= path@.take(i + 1));
                assert(child_path@.is_prefix_of(path@));
            }
            if self.find(&child_path).is_none() {
                match self.make_folder(&cur_path, segs[i].clone(), node.clone()) {
                    Ok(_) => {},
                    Err(_) => unreached(),
                }
            }
            proof {
                assert forall|p: Seq<Seq<char>>|
                    #![trigger self@.dom().contains(p)]
                    #![trigger before.dom().contains(p)]
                    #![trigger p.is_prefix_of(path@)]
                    self@.dom().contains(p) <==> before.dom().contains(p) || (p.is_prefix_of(
                        path@,
                    ) && p.len() <= i + 1) by {
                    assert(self@.dom().contains(p) <==> prev.dom().contains(p) || p
                        == child_path@);
                    if p.is_prefix_of(path@) && p.len() == i + 1 {
                        assert(p =~= child_path@);
                    }
                }
                assert forall|p: Seq<Seq<char>>|
                    #![trigger self@[p]]
                    #![trigger before[p]]
                    before.dom().contains(p) implies self@[p].0 == before[p].0 by {
                    assert(prev.dom().contains(p));
                    assert(self@[p].0 == prev[p].0);
                }
            }
            cur_path = child_path;
            i += 1;
        }
        proof {
            assert(path@.take(n as int) =~= path@);
        }
    }

    /// The paths of the folders at or below `parent`, each once, in no
    /// particular order.
    pub fn walk_paths(&self, parent: &FolderPath) -> (r: Vec<&FolderPath>)
        requires
            self.wf(),
        ensures
            path_views(r@).no_duplicates(),
            forall|p: Seq<Seq<char>>|
                path_views(r@).contains(p) <==> self@.dom().contains(p) && parent@.is_prefix_of(p),
    {
        let mut found: Vec<&FolderPath> = Vec::new();
        let ghost mut from: Seq<int> = Seq::empty();
        let n = self.nodes.len();
        let mut i: usize = 0;
        while i < n
            invariant
                n == self.nodes@.len(),
                i <= n,
                paths(self.nodes@).no_duplicates(),
                from.len() == found@.len(),
                forall|k: int|
                    0 <= k < found@.len() ==> 0 <= #[trigger] from[k] < i && found@[k]@
                        == self.nodes@[from[k]].path@,
                forall|a: int, b: int| 0 <= a < b < from.len() ==> from[a] < from[b],
                forall|j: int|
                    0 <= j < i && parent@.is_prefix_of(#[trigger] self.nodes@[j].path@)
                        ==> path_views(found@).contains(self.nodes@[j].path@),
                forall|k: int|
                    0 <= k < found@.len() ==> parent@.is_prefix_of(#[trigger] found@[k]@),
            decreases n - i,
        {
            if self.nodes[i].path.is_child_of(parent) {
                let ghost had = found@;
                found.push(&self.nodes[i].path);
                proof {
                    from = from.push(i as int);
                    assert(path_views(found@)[had.len() as int] == self.nodes@[i as int].path@);
                    assert forall|j: int|
                        0 <= j < i && parent@.is_prefix_of(
                            #[trigger] self.nodes@[j].path@,
                        ) implies path_views(found@).contains(self.nodes@[j].path@) by {
                        let k = path_views(had).index_of(self.nodes@[j].path@);
                        assert(path_views(had)[k] == self.nodes@[j].path@);
                        assert(path_views(found@)[k] == self.nodes@[j].path@);
                    }
                }
            }
            i += 1;
        }
        proof {
            assert forall|a: int, b: int|
                0 <= a < path_views(found@).len() && 0 <= b < path_views(found@).len() && a
                    != b implies path_views(found@)[a] != path_views(found@)[b] by {
                assert(from[a] != from[b]);
                assert(paths(self.nodes@)[from[a]] != paths(self.nodes@)[from[b]]);
            }
            assert forall|p: Seq<Seq<char>>|
                path_views(found@).contains(p) <==> self@.dom().contains(p) && parent@.is_prefix_of(
                    p,
                ) by {
                if path_views(found@).contains(p) {
                    let k = path_views(found@).index_of(p);
                    assert(path_views(found@)[k] == p);
                    assert(paths(self.nodes@)[from[k]] == p);
                }
                if self@.dom().contains(p) && parent@.is_prefix_of(p) {
                    let j = paths(self.nodes@).index_of(p);
                    assert(paths(self.nodes@)[j] == p);
                    assert(self.nodes@[j].path@ == p);
                }
            }
        }
        found
    }

    /// A new tree whose root holds a clone of the payload at `path`. What
    /// stands below `path` is not taken along.
    pub fn subtree(&self, path: &FolderPath) -> (r: Result<FolderTree<T>, FolderTreeError>) where
        T: Clone,

        requires
            self.wf(),
        ensures
            self@.dom().contains(path@) ==> r is Ok && r->Ok_0.wf() && r->Ok_0@ == root_only(
                r->Ok_0@[Seq::empty()].0,
            ) && cloned(self@[path@].0, r->Ok_0@[Seq::empty()].0),
            !self@.dom().contains(path@) ==> r is Err && r->Err_0@
                == FolderTreeErrorView::FolderNotFound(path@),
    {
        match self.get(path) {
            Ok(folder) => Ok(FolderTree::new(folder.clone())),
            Err(e) => Err(e),
        }
    }
}

} // verus!
