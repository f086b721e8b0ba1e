//! Paths: the names from the root down to a folder, their textual form with
//! a `/` before each name, and the relations between paths.

use crate::foldertree::error::{FolderTreeError, FolderTreeErrorView};
use vstd::prelude::*;
use vstd::std_specs::cmp::PartialEqSpecImpl;
use vstd::string::*;

verus! {

/// The segments that a vector of names stands for.
pub open spec fn segments_view(v: Seq<String>) -> Seq<Seq<char>> {
    Seq::new(v.len(), |i: int| v[i]@)
}

/// The textual form of a path: each segment with a `/` before it.
pub open spec fn render(p: Seq<Seq<char>>) -> Seq<char>
    decreases p.len(),
{
    if p.len() == 0 {
        Seq::empty()
    } else {
        render(p.drop_last()) + seq!['/'] + p.last()
    }
}

/// The pieces of `s` between its `/` characters. There is always one piece
/// more than there are `/` in `s`.
pub open spec fn split(s: Seq<char>) -> Seq<Seq<char>>
    decreases s.len(),
{
    if s.len() == 0 {
        seq![Seq::<char>::empty()]
    } else {
        let before = split(s.drop_last());
        if s.last() == '/' {
            before.push(Seq::empty())
        } else {
            before.drop_last().push(before.last().push(s.last()))
        }
    }
}

/// The path that a string denotes: the empty string is the root, a string
/// that starts with `/` has the pieces after that `/` as segments, and any
/// other string denotes no path.
pub open spec fn parse(s: Seq<char>) -> Option<Seq<Seq<char>>> {
    if s.len() == 0 {
        Some(Seq::empty())
    } else if s[0] == '/' {
        Some(split(s.skip(1)))
    } else {
        None
    }
}

/// An absolute path: the names of the folders from the root down. The empty
/// path is the root.
#[derive(Debug, Eq, PartialOrd, Ord, Hash)]
pub struct FolderPath(Vec<String>);

impl View for FolderPath {
    type V = Seq<Seq<char>>;

    closed spec fn view(&self) -> Seq<Seq<char>> {
        segments_view(self.0@)
    }
}

impl Clone for FolderPath {
    /// A path with the same segments.
    fn clone(&self) -> (r: Self)
        ensures
            r@ == self@,
    {
        let r = FolderPath(self.0.clone());
        assert(r@ =~= self@);
        r
    }
}

impl PartialEq for FolderPath {
    /// Whether the two paths have the same segments in the same order.
    fn eq(&self, other: &Self) -> (r: bool) {
        if self.0.len() != other.0.len() {
            assert(self@.len() != other@.len());
            return false;
        }
        let n = self.0.len();
        let mut i: usize = 0;
        while i < n
            invariant
                n == self.0@.len(),
                n == other.0@.len(),
                i <= n,
                forall|j: int| 0 <= j < i ==> self.0@[j]@ == other.0@[j]@,
            decreases n - i,
        {
            if self.0[i] != other.0[i] {
                assert(self@[i as int] != other@[i as int]);
                return false;
            }
            i += 1;
        }
        assert(self@ =~= other@);
        true
    }
}

impl PartialEqSpecImpl for FolderPath {
    open spec fn obeys_eq_spec() -> bool {
        true
    }

    open spec fn eq_spec(&self, other: &Self) -> bool {
        self@ == other@
    }
}

impl FolderPath {
    /// The path's own names, first to last.
    pub(crate) fn segments(&self) -> (v: &Vec<String>)
        ensures
            segments_view(v@) == self@,
    {
        &self.0
    }

    /// The path's own names, first to last, given away.
    pub(crate) fn into_segments(self) -> (v: Vec<String>)
        ensures
            segments_view(v@) == self@,
    {
        self.0
    }

    /// The textual form: each segment with a `/` before it, the root as the
    /// empty string.
    pub fn to_string(&self) -> (s: String)
        ensures
            s@ == render(self@),
    {
        let mut s = String::new();
        let n = self.0.len();
        let mut i: usize = 0;
        while i < n
            invariant
                n == self.0@.len(),
                i <= n,
                s@ == render(self@.take(i as int)),
            decreases n - i,
        {
            s.append("/");
            s.append(self.0[i].as_str());
            proof {
                reveal_strlit("/");
                assert("/"@ =~= seq!['/']);
                assert(self@.take(i + 1).drop_last() =~= self@.take(i as int));
                assert(self@.take(i + 1).last() == self.0@[i as int]@);
            }
            i += 1;
        }
        assert(self@.take(n as int) =~= self@);
        s
    }

    /// The parent and the last segment, or `None` for the root.
    pub fn up(&self) -> (r: Option<(FolderPath, String)>)
        ensures
            self@.len() == 0 ==> r is None,
            self@.len() > 0 ==> r is Some && r.unwrap().0@ == self@.drop_last() && r.unwrap().1@
                == self@.last(),
    {
        let n = self.0.len();
        if n == 0 {
            return None;
        }
        let mut trunk: Vec<String> = Vec::new();
        let mut i: usize = 0;
        while i < n - 1
            invariant
                n == self.0@.len(),
                n >= 1,
                i <= n - 1,
                trunk@.len() == i,
                forall|j: int| 0 <= j < i ==> trunk@[j]@ == self.0@[j]@,
            decreases n - i,
        {
            trunk.push(self.0[i].clone());
            i += 1;
        }
        let parent = FolderPath(trunk);
        assert(parent@ =~= self@.drop_last());
        Some((parent, self.0[n - 1].clone()))
    }

    /// The path with the given segments.
    pub fn from_vec(segs: Vec<String>) -> (r: FolderPath)
        ensures
            r@ == segments_view(segs@),
    {
        FolderPath(segs)
    }

    /// Whether this is the root, the path without segments.
    pub fn is_root(&self) -> (r: bool)
        ensures
            r == (self@.len() == 0),
    {
        self.0.len() == 0
    }

    /// The path one segment further down.
    pub fn child(&self, seg: String) -> (r: FolderPath)
        ensures
            r@ == self@.push(seg@),
    {
        let mut new = self.clone();
        new.0.push(seg);
        assert(new@ =~= self@.push(seg@));
        new
    }

    /// The path further down by the given segments.
    pub fn descendant(&self, subpath: Vec<String>) -> (r: FolderPath)
        ensures
            r@ == self@ + segments_view(subpath@),
    {
        let mut new = self.clone();
        let mut subpath = subpath;
        let ghost sub = subpath@;
        new.0.append(&mut subpath);
        assert(new@ =~= self@ + segments_view(sub));
        new
    }

    /// Whether `other` is a prefix of this path. Every path is a child of
    /// itself in this sense.
    pub fn is_child_of(&self, other: &FolderPath) -> (r: bool)
        ensures
            r == other@.is_prefix_of(self@),
    {
        let n = other.0.len();
        if self.0.len() < n {
            return false;
        }
        let mut i: usize = 0;
        while i < n
            invariant
                n == other.0@.len(),
                n <= self.0@.len(),
                i <= n,
                forall|j: int| 0 <= j < i ==> self.0@[j]@ == other.0@[j]@,
            decreases n - i,
        {
            if self.0[i] != other.0[i] {
                assert(self@.subrange(0, n as int)[i as int] != other@[i as int]);
                return false;
            }
            i += 1;
        }
        assert(other@ =~= self@.subrange(0, n as int));
        true
    }

    /// What is left of this path below `ancestor`, if it lies below it.
    pub fn relative_to(&self, ancestor: &FolderPath) -> (r: Result<FolderPath, FolderTreeError>)
        ensures
            ancestor@.is_prefix_of(self@) ==> r is Ok && r.unwrap()@ == self@.skip(
                ancestor@.len() as int,
            ),
            !ancestor@.is_prefix_of(self@) ==> r is Err && r.unwrap_err()@
                == FolderTreeErrorView::NotRelative(self@, ancestor@),
    {
        if self.is_child_of(ancestor) {
            let n = self.0.len();
            let k = ancestor.0.len();
            let mut rest: Vec<String> = Vec::new();
            let mut i: usize = k;
            while i < n
                invariant
                    n == self.0@.len(),
                    k <= i <= n,
                    rest@.len() == i - k,
                    forall|j: int| 0 <= j < i - k ==> rest@[j]@ == self.0@[k + j]@,
                decreases n - i,
            {
                rest.push(self.0[i].clone());
                i += 1;
            }
            let r = FolderPath(rest);
            assert(r@ =~= self@.skip(k as int));
            Ok(r)
        } else {
            Err(FolderTreeError::NotRelative(self.clone(), ancestor.clone()))
        }
    }

    /// Reads a path from its textual form.
    pub fn from_string(path: &str) -> (r: Result<FolderPath, FolderTreeError>)
        ensures
            parse(path@) is Some ==> r is Ok && r.unwrap()@ == parse(path@).unwrap(),
            parse(path@) is None ==> r is Err && r.unwrap_err()@
                == FolderTreeErrorView::InvalidFolderPath(path@),
    {
        let n = path.unicode_len();
        if n == 0 {
            let root = FolderPath(Vec::new());
            assert(root@ =~= Seq::empty());
            return Ok(root);
        }
        if path.get_char(0) != '/' {
            return Err(FolderTreeError::InvalidFolderPath(String::from_str(path)));
        }
        let mut segs: Vec<String> = Vec::new();
        let mut start: usize = 1;
        let mut i: usize = 0;
        for c in it: path.chars()
            invariant
                n == path@.len(),
                i == it.index(),
                it.seq() == path@,
                i == 0 ==> start == 1 && segs@.len() == 0,
                i > 0 ==> 1 <= start <= i && split(path@.subrange(1, i as int)) == segments_view(
                    segs@,
                ).push(path@.subrange(start as int, i as int)),
        {
            if i > 0 {
                proof {
                    assert(path@.subrange(1, i + 1).drop_last() =~= path@.subrange(1, i as int));
                    assert(path@.subrange(1, i + 1).last() == c);
                }
                if c == '/' {
                    let piece = String::from_str(path.substring_char(start, i));
                    proof {
                        assert(segments_view(segs@.push(piece)) =~= segments_view(segs@).push(
                            piece@,
                        ));
                        assert(path@.subrange(i + 1, i + 1) =~= Seq::<char>::empty());
                    }
                    segs.push(piece);
                    start = i + 1;
                } else {
                    proof {
                        let before = segments_view(segs@).push(
                            path@.subrange(start as int, i as int),
                        );
                        assert(before.drop_last() =~= segments_view(segs@));
                        assert(before.last().push(c) =~= path@.subrange(start as int, i + 1));
                    }
                }
            } else {
                proof {
                    assert(path@.subrange(1, 1) =~= Seq::<char>::empty());
                    assert(segments_view(segs@).push(path@.subrange(1, 1)) =~= seq![
                        Seq::<char>::empty(),
                    ]);
                }
            }
            i += 1;
        }
        let piece = String::from_str(path.substring_char(start, n));
        proof {
            assert(path@.subrange(1, n as int) =~= path@.skip(1));
            assert(segments_view(segs@.push(piece)) =~= segments_view(segs@).push(
                path@.subrange(start as int, n as int),
            ));
        }
        segs.push(piece);
        Ok(FolderPath(segs))
    }
}

impl std::str::FromStr for FolderPath {
    type Err = FolderTreeError;

    /// Reads a path from its textual form, as `from_string` does.
    fn from_str(path: &str) -> (r: Result<FolderPath, FolderTreeError>)
        ensures
            parse(path@) is Some ==> r is Ok && r.unwrap()@ == parse(path@).unwrap(),
            parse(path@) is None ==> r is Err && r.unwrap_err()@
                == FolderTreeErrorView::InvalidFolderPath(path@),
    {
        FolderPath::from_string(path)
    }
}

} // verus!
