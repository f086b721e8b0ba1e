//! What holds of every tree, stated over the maps that the operations of
//! `FolderTree` are specified with.

use crate::foldertree::error::FolderTreeErrorView;
use crate::foldertree::model::{
    is_leaf, lemma_move_can_relocate, lemma_parent_exists, lemma_prefix_exists, make_refusal,
    move_refusal, rebased, relocated, remove_refusal, rename_refusal, with_folder,
    without_folder,
};
use crate::foldertree::nested::{mirrors_below, NestedFolder};
use crate::foldertree::path::{parse, render, split};
use crate::foldertree::tree::FolderTree;
use vstd::prelude::*;

verus! {

/// The pieces of a string, rendered, are the string with a `/` before it.
proof fn lemma_render_split(t: Seq<char>)
    ensures
        split(t).len() >= 1,
        render(split(t)) == seq!['/'] + t,
    decreases t.len(),
{
    let slash = seq!['/'];
    if t.len() == 0 {
        let only = seq![Seq::<char>::empty()];
        assert(only.drop_last() =~= Seq::<Seq<char>>::empty());
        assert(render(only.drop_last()) =~= Seq::<char>::empty());
        assert(render(only) =~= slash + t);
    } else {
        let before = split(t.drop_last());
        lemma_render_split(t.drop_last());
        assert(t =~= t.drop_last().push(t.last()));
        if t.last() == '/' {
            let all = before.push(Seq::empty());
            assert(all.drop_last() =~= before);
            assert(render(all) =~= slash + t);
        } else {
            let all = before.drop_last().push(before.last().push(t.last()));
            assert(all.drop_last() =~= before.drop_last());
            assert(render(all) =~= render(before).push(t.last()));
            assert(render(all) =~= slash + t);
        }
    }
}

/// A string without `/` is one piece.
proof fn lemma_split_one(x: Seq<char>)
    requires
        !x.contains('/'),
    ensures
        split(x) == seq![x],
    decreases x.len(),
{
    if x.len() == 0 {
        assert(x =~= Seq::<char>::empty());
    } else {
        assert(x.contains(x.last()));
        lemma_front_has_no_slash(x);
        lemma_split_one(x.drop_last());
        let before = seq![x.drop_last()];
        assert(before.drop_last() =~= Seq::<Seq<char>>::empty());
        assert(before.last().push(x.last()) =~= x);
        assert(before.drop_last().push(x) =~= seq![x]);
    }
}

/// A string without `/` has none before its last character either.
proof fn lemma_front_has_no_slash(x: Seq<char>)
    requires
        x.len() > 0,
        !x.contains('/'),
    ensures
        !x.drop_last().contains('/'),
{
    if x.drop_last().contains('/') {
        let i = x.drop_last().index_of('/');
        assert(x.drop_last()[i] == '/');
        assert(x[i] == '/');
    }
}

/// A `/` and a string without `/` at the end of a string add one piece.
proof fn lemma_split_append(t: Seq<char>, x: Seq<char>)
    requires
        !x.contains('/'),
    ensures
        split(t + seq!['/'] + x) == split(t).push(x),
    decreases x.len(),
{
    let whole = t + seq!['/'] + x;
    if x.len() == 0 {
        assert(whole.drop_last() =~= t);
        assert(whole.last() == '/');
        assert(x =~= Seq::<char>::empty());
    } else {
        assert(x.contains(x.last()));
        lemma_front_has_no_slash(x);
        lemma_split_append(t, x.drop_last());
        assert(whole.drop_last() =~= t + seq!['/'] + x.drop_last());
        assert(whole.last() == x.last());
        let before = split(t).push(x.drop_last());
        assert(before.drop_last() =~= split(t));
        assert(before.last().push(x.last()) =~= x);
    }
}

/// No piece of a string holds a `/`.
proof fn lemma_split_has_no_slash(t: Seq<char>)
    ensures
        split(t).len() >= 1,
        forall|i: int| 0 <= i < split(t).len() ==> !(#[trigger] split(t)[i]).contains('/'),
    decreases t.len(),
{
    if t.len() == 0 {
        assert(!Seq::<char>::empty().contains('/'));
    } else {
        let before = split(t.drop_last());
        lemma_split_has_no_slash(t.drop_last());
        if t.last() == '/' {
            assert(!Seq::<char>::empty().contains('/'));
        } else {
            let grown = before.last().push(t.last());
            assert(!grown.contains('/')) by {
                if grown.contains('/') {
                    let k = grown.index_of('/');
                    assert(grown[k] == '/');
                    assert(before.last()[k] == '/');
                    assert(before.last().contains('/'));
                }
            }
            assert forall|i: int| 0 <= i < split(t).len() implies !(#[trigger] split(
                t,
            )[i]).contains('/') by {
                if i < before.len() - 1 {
                    assert(split(t)[i] == before[i]);
                }
            }
        }
    }
}

/// No segment of a path that was read from a string holds a `/`.
pub proof fn law_parsed_segments_have_no_slash(s: Seq<char>)
    requires
        parse(s) is Some,
    ensures
        forall|i: int| 0 <= i < parse(s)->0.len() ==> !(#[trigger] parse(s)->0[i]).contains('/'),
{
    if s.len() > 0 {
        lemma_split_has_no_slash(s.skip(1));
    }
}

/// The textual form of a path that was read from a string is that string.
pub proof fn law_render_undoes_parse(s: Seq<char>)
    requires
        parse(s) is Some,
    ensures
        render(parse(s)->0) == s,
{
    if s.len() > 0 {
        lemma_render_split(s.skip(1));
        assert(seq!['/'] + s.skip(1) =~= s);
    }
}

/// A path whose segments hold no `/` is read back from its textual form.
pub proof fn law_parse_undoes_render(p: Seq<Seq<char>>)
    requires
        forall|i: int| 0 <= i < p.len() ==> !(#[trigger] p[i]).contains('/'),
    ensures
        parse(render(p)) == Some(p),
        p.len() > 0 ==> render(p).len() > 0 && render(p)[0] == '/',
    decreases p.len(),
{
    if p.len() == 0 {
    } else if p.len() == 1 {
        assert(p.drop_last() =~= Seq::<Seq<char>>::empty());
        assert(render(p.drop_last()) =~= Seq::<char>::empty());
        assert(render(p).skip(1) =~= p.last());
        lemma_split_one(p.last());
        assert(seq![p.last()] =~= p);
    } else {
        let front = p.drop_last();
        assert forall|i: int| 0 <= i < front.len() implies !(#[trigger] front[i]).contains('/') by {
            assert(front[i] == p[i]);
        }
        law_parse_undoes_render(front);
        assert(render(p).skip(1) =~= render(front).skip(1) + seq!['/'] + p.last());
        lemma_split_append(render(front).skip(1), p.last());
        assert(front.push(p.last()) =~= p);
    }
}

/// The root of a tree exists, so that `get` finds it, and it can neither be
/// removed nor renamed nor moved: each of the three is refused with the
/// error of its own, whatever the new name or the new parent.
pub proof fn law_root_is_protected<T>(
    tree: FolderTree<T>,
    new_name: Seq<char>,
    new_parent: Seq<Seq<char>>,
)
    requires
        tree.wf(),
    ensures
        tree@.dom().contains(Seq::<Seq<char>>::empty()),
        remove_refusal(tree@, Seq::empty()) == Some(FolderTreeErrorView::CannotRemoveRoot),
        rename_refusal(tree@, Seq::empty(), new_name) == Some(
            FolderTreeErrorView::CannotRenameRoot,
        ),
        move_refusal(tree@, Seq::empty(), new_parent) == Some(FolderTreeErrorView::CannotMoveRoot),
{
}

/// Once `make_folder` has made the folder `name` below `parent` with the
/// payload `data`, the new path exists and holds `data`, and `parent` lists
/// `name` among its children.
pub proof fn law_make_then_get<T>(
    tree: FolderTree<T>,
    parent: Seq<Seq<char>>,
    name: Seq<char>,
    data: T,
)
    requires
        tree.wf(),
        make_refusal(tree@, parent, name) is None,
    ensures
        with_folder(tree@, parent, name, data).dom().contains(parent.push(name)),
        with_folder(tree@, parent, name, data)[parent.push(name)].0 == data,
        with_folder(tree@, parent, name, data)[parent].1.contains(name),
{
    assert(parent.push(name).len() != parent.len());
}

/// Removing a folder other than the root is refused with `FolderNotEmpty`
/// exactly when the folder has children. When it has none it is removed:
/// its path is gone, and its parent lists its name no longer.
pub proof fn law_remove_needs_leaf<T>(tree: FolderTree<T>, path: Seq<Seq<char>>)
    requires
        tree.wf(),
        tree@.dom().contains(path),
        path.len() > 0,
    ensures
        !is_leaf(tree@, path) ==> remove_refusal(tree@, path) == Some(
            FolderTreeErrorView::FolderNotEmpty(path),
        ),
        is_leaf(tree@, path) ==> {
            &&& remove_refusal(tree@, path) is None
            &&& !without_folder(tree@, path).dom().contains(path)
            &&& without_folder(tree@, path).dom().contains(path.drop_last())
            &&& !without_folder(tree@, path)[path.drop_last()].1.contains(path.last())
        },
{
    lemma_parent_exists(tree@, path);
}

/// A move that is carried out takes the folder and everything below it
/// along: what stood at a path below `path` stands, with the same payload
/// and the same children, at the same place below the new path, and no
/// longer at the old one. The new parent lists the name of the folder, the
/// old parent lists it no longer.
pub proof fn law_move_keeps_subtree<T>(
    tree: FolderTree<T>,
    path: Seq<Seq<char>>,
    new_parent: Seq<Seq<char>>,
    q: Seq<Seq<char>>,
)
    requires
        tree.wf(),
        move_refusal(tree@, path, new_parent) is None,
        tree@.dom().contains(q),
        path.is_prefix_of(q),
    ensures
        ({
            let target = new_parent.push(path.last());
            let moved = relocated(tree@, path, target);
            &&& moved.dom().contains(rebased(q, path, target))
            &&& moved[rebased(q, path, target)] == tree@[q]
            &&& !moved.dom().contains(q)
            &&& moved[new_parent].1.contains(path.last())
            &&& !moved[path.drop_last()].1.contains(path.last())
        }),
{
    let target = new_parent.push(path.last());
    let there = rebased(q, path, target);
    lemma_move_can_relocate(tree@, path, new_parent);
    assert(target =~= there.subrange(0, target.len() as int));
    assert(there.skip(target.len() as int) =~= q.skip(path.len() as int));
    assert(path + q.skip(path.len() as int) =~= q);
    if target.is_prefix_of(q) {
        lemma_prefix_exists(tree@, q, target);
    }
    assert(target.drop_last() =~= new_parent);
    assert(target.last() == path.last());
    if target.is_prefix_of(new_parent) {
        lemma_prefix_exists(tree@, new_parent, target);
    }
    lemma_parent_exists(tree@, path);
    if target.is_prefix_of(path.drop_last()) {
        lemma_prefix_exists(tree@, path.drop_last(), target);
    }
    assert(path.drop_last() != new_parent) by {
        if path.drop_last() == new_parent {
            assert(path =~= target);
        }
    }
}

/// A tree written to its nested form and read back is the same tree: the
/// same paths, at each path the same payload, and the same names of
/// children. Here `nested` is what `to_nested` gives for `tree`, and `back`
/// is what `into_folder_tree` gives for `nested`.
pub proof fn law_round_trip<T>(tree: FolderTree<T>, nested: NestedFolder<&T>, back: FolderTree<&T>)
    requires
        tree.wf(),
        mirrors_below(nested, tree@, Seq::empty()),
        back@ == nested.flat(),
    ensures
        forall|p: Seq<Seq<char>>| back@.dom().contains(p) <==> tree@.dom().contains(p),
        forall|p: Seq<Seq<char>>|
            tree@.dom().contains(p) ==> *back@[p].0 == tree@[p].0 && back@[p].1 == tree@[p].1,
{
    let root = Seq::<Seq<char>>::empty();
    assert forall|p: Seq<Seq<char>>| back@.dom().contains(p) <==> tree@.dom().contains(p) by {
        assert(root + p =~= p);
    }
    assert forall|p: Seq<Seq<char>>| tree@.dom().contains(p) implies *back@[p].0 == tree@[p].0
        && back@[p].1 == tree@[p].1 by {
        assert(root + p =~= p);
    }
}

} // verus!
