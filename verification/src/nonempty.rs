//! A vector that is never empty, and one with a cursor that always points at
//! one of its elements.

use vstd::prelude::*;
use vstd::std_specs::iter::IteratorSpec;

verus! {

/// `std::slice::IterMut`, the iterator that `iter_mut` of a slice returns.
/// Nothing is known of a value of it.
#[verifier::external_type_specification]
#[verifier::external_body]
#[verifier::reject_recursive_types(T)]
pub struct ExIterMut<'a, T: 'a>(std::slice::IterMut<'a, T>);

/// Calls `iter_mut` of the vector's slice. The iterator hands out the
/// elements in place, so that the caller may change each of them; it can
/// neither add nor remove one, which is all that is claimed here.
#[verifier::external_body]
fn vec_iter_mut<T>(v: &mut Vec<T>) -> (r: std::slice::IterMut<'_, T>)
    ensures
        final(v)@.len() == old(v)@.len(),
{
    v.iter_mut()
}

/// A vector with at least one element.
#[derive(Clone, Eq, PartialEq, Debug)]
pub struct NonEmpty<T>(Vec<T>);

impl<T> View for NonEmpty<T> {
    type V = Seq<T>;

    closed spec fn view(&self) -> Seq<T> {
        self.0@
    }
}

impl<T> NonEmpty<T> {
    /// There is at least one element.
    pub open spec fn wf(&self) -> bool {
        self@.len() >= 1
    }

    /// The vector with `head` alone.
    pub fn new(head: T) -> (r: Self)
        ensures
            r.wf(),
            r@ == seq![head],
    {
        let mut v: Vec<T> = Vec::new();
        v.push(head);
        assert(v@ =~= seq![head]);
        NonEmpty(v)
    }

    /// The vector with `head` first and the elements of `rest` after it.
    pub fn new_with_rest(head: T, rest: Vec<T>) -> (r: Self)
        ensures
            r.wf(),
            r@ == seq![head] + rest@,
    {
        let mut v: Vec<T> = Vec::new();
        v.push(head);
        let mut rest = rest;
        v.append(&mut rest);
        NonEmpty(v)
    }

    /// The vector with the elements of `vec`, unless there is none.
    pub fn from_vec(vec: Vec<T>) -> (r: Option<Self>)
        ensures
            vec@.len() >= 1 ==> r is Some && r->0.wf() && r->0@ == vec@,
            vec@.len() == 0 ==> r is None,
    {
        if vec.len() >= 1 {
            Some(NonEmpty(vec))
        } else {
            None
        }
    }

    /// An iterator over the elements, first to last.
    pub fn iter(&self) -> (r: std::slice::Iter<'_, T>)
        ensures
            r.remaining().unref() == self@,
    {
        let r = self.0.iter();
        r
    }

    /// An iterator over the elements, first to last, that lets each be
    /// changed in place.
    pub fn iter_mut(&mut self) -> (r: std::slice::IterMut<'_, T>)
        requires
            old(self).wf(),
        ensures
            final(self).wf(),
            final(self)@.len() == old(self)@.len(),
    {
        vec_iter_mut(&mut self.0)
    }

    /// The element at `idx`, if there is one.
    pub fn get(&self, idx: usize) -> (r: Option<&T>)
        ensures
            idx < self@.len() ==> r is Some && *r->0 == self@[idx as int],
            idx >= self@.len() ==> r is None,
    {
        if idx < self.0.len() {
            Some(&self.0[idx])
        } else {
            None
        }
    }

    /// The element at `idx`, if there is one, to be changed in place.
    pub fn get_mut(&mut self, idx: usize) -> (r: Option<&mut T>)
        ensures
            idx < old(self)@.len() ==> r is Some && *r->0 == old(self)@[idx as int]
                && final(self)@ == old(self)@.update(idx as int, *final(r->0)),
            idx >= old(self)@.len() ==> r is None && final(self)@ == old(self)@,
    {
        if idx < self.0.len() {
            Some(&mut self.0[idx])
        } else {
            None
        }
    }

    /// Appends an element.
    pub fn push(&mut self, t: T)
        ensures
            final(self)@ == old(self)@.push(t),
    {
        self.0.push(t)
    }

    /// The number of elements.
    pub fn len(&self) -> (r: usize)
        ensures
            r == self@.len(),
    {
        self.0.len()
    }
}

/// Why a cursor and a vector do not make a `NonEmptyWithCursor`.
#[derive(Clone, Copy, Eq, PartialEq, Debug)]
pub enum InvalidParts {
    /// The vector has no element.
    Empty,
    /// The cursor does not point into the vector, which has `len` elements.
    CursorOutOfBounds { cursor: usize, len: usize },
}

/// A vector with at least one element and a cursor that points at one of
/// its elements.
#[derive(Clone, Eq, PartialEq, Debug)]
pub struct NonEmptyWithCursor<T> {
    cursor: usize,
    data: NonEmpty<T>,
}

impl<T> View for NonEmptyWithCursor<T> {
    type V = Seq<T>;

    closed spec fn view(&self) -> Seq<T> {
        self.data@
    }
}

impl<T> NonEmptyWithCursor<T> {
    /// The index that the cursor points at.
    pub closed spec fn cursor_index(&self) -> usize {
        self.cursor
    }

    /// There is at least one element, and the cursor points at an element.
    pub open spec fn wf(&self) -> bool {
        self@.len() >= 1 && self.cursor_index() < self@.len()
    }

    /// The vector with `head` alone, the cursor at it.
    pub fn new(head: T) -> (r: Self)
        ensures
            r.wf(),
            r@ == seq![head],
            r.cursor_index() == 0,
    {
        NonEmptyWithCursor { cursor: 0, data: NonEmpty::new(head) }
    }

    /// The vector with `head` first and the elements of `rest` after it, the
    /// cursor at `head`.
    pub fn new_with_rest(head: T, rest: Vec<T>) -> (r: Self)
        ensures
            r.wf(),
            r@ == seq![head] + rest@,
            r.cursor_index() == 0,
    {
        NonEmptyWithCursor { cursor: 0, data: NonEmpty::new_with_rest(head, rest) }
    }

    /// The vector with the elements of `data` and the cursor at `cursor`, if
    /// there is an element and the cursor points at one.
    pub fn from_parts(cursor: usize, data: Vec<T>) -> (r: Result<Self, InvalidParts>)
        ensures
            data@.len() == 0 ==> r == Err::<Self, InvalidParts>(InvalidParts::Empty),
            data@.len() > 0 && cursor >= data@.len() ==> r == Err::<Self, InvalidParts>(
                InvalidParts::CursorOutOfBounds { cursor, len: data@.len() as usize },
            ),
            cursor < data@.len() ==> r is Ok && r->Ok_0.wf() && r->Ok_0@ == data@
                && r->Ok_0.cursor_index() == cursor,
    {
        let len = data.len();
        if len == 0 {
            Err(InvalidParts::Empty)
        } else if cursor >= len {
            Err(InvalidParts::CursorOutOfBounds { cursor, len })
        } else {
            match NonEmpty::from_vec(data) {
                Some(data) => Ok(NonEmptyWithCursor { cursor, data }),
                None => unreached(),
            }
        }
    }

    /// The element that the cursor points at.
    pub fn get_current(&self) -> (r: &T)
        requires
            self.wf(),
        ensures
            *r == self@[self.cursor_index() as int],
    {
        match self.data.get(self.cursor) {
            Some(t) => t,
            None => unreached(),
        }
    }

    /// The element that the cursor points at, to be changed in place.
    pub fn get_current_mut(&mut self) -> (r: &mut T)
        requires
            old(self).wf(),
        ensures
            final(self).wf(),
            *r == old(self)@[old(self).cursor_index() as int],
            final(self)@ == old(self)@.update(old(self).cursor_index() as int, *final(r)),
            final(self).cursor_index() == old(self).cursor_index(),
    {
        let i = self.cursor;
        match self.data.get_mut(i) {
            Some(t) => t,
            None => unreached(),
        }
    }

    /// Puts the cursor at `cursor`, if there is an element there.
    pub fn set_cursor(&mut self, cursor: usize) -> (r: Option<()>)
        requires
            old(self).wf(),
        ensures
            final(self).wf(),
            final(self)@ == old(self)@,
            cursor < old(self)@.len() ==> r is Some && final(self).cursor_index() == cursor,
            cursor >= old(self)@.len() ==> r is None && final(self).cursor_index()
                == old(self).cursor_index(),
    {
        if self.data.len() > cursor {
            self.cursor = cursor;
            Some(())
        } else {
            None
        }
    }

    /// Moves the cursor to the next element, and from the last element to
    /// the first.
    pub fn next_circular(&mut self)
        requires
            old(self).wf(),
        ensures
            final(self).wf(),
            final(self)@ == old(self)@,
            final(self).cursor_index() == (if old(self).cursor_index() + 1 >= old(self)@.len() {
                0int
            } else {
                old(self).cursor_index() + 1
            }),
    {
        let len = self.data.len();
        let newcursor = self.cursor + 1;
        self.cursor = if newcursor >= len {
            0
        } else {
            newcursor
        }
    }

    /// Moves the cursor to the next element, and from the last element to
    /// the first: `next_circular` under a second name.
    pub fn next_circle(&mut self)
        requires
            old(self).wf(),
        ensures
            final(self).wf(),
            final(self)@ == old(self)@,
            final(self).cursor_index() == (if old(self).cursor_index() + 1 >= old(self)@.len() {
                0int
            } else {
                old(self).cursor_index() + 1
            }),
    {
        self.next_circular()
    }

    /// The index that the cursor points at.
    pub fn get_cursor(&self) -> (r: usize)
        ensures
            r == self.cursor_index(),
    {
        self.cursor
    }

    /// The number of elements.
    pub fn len(&self) -> (r: usize)
        ensures
            r == self@.len(),
    {
        self.data.len()
    }

    /// An iterator over the elements, first to last.
    pub fn iter(&self) -> (r: std::slice::Iter<'_, T>)
        ensures
            r.remaining().unref() == self@,
    {
        self.data.iter()
    }

    /// An iterator over the elements, first to last, that lets each be
    /// changed in place.
    pub fn iter_mut(&mut self) -> (r: std::slice::IterMut<'_, T>)
        requires
            old(self).wf(),
        ensures
            final(self).wf(),
            final(self)@.len() == old(self)@.len(),
            final(self).cursor_index() == old(self).cursor_index(),
    {
        self.data.iter_mut()
    }

    /// The element at `idx`, if there is one.
    pub fn get(&self, idx: usize) -> (r: Option<&T>)
        ensures
            idx < self@.len() ==> r is Some && *r->0 == self@[idx as int],
            idx >= self@.len() ==> r is None,
    {
        self.data.get(idx)
    }

    /// The element at `idx`, if there is one, to be changed in place.
    pub fn get_mut(&mut self, idx: usize) -> (r: Option<&mut T>)
        ensures
            idx < old(self)@.len() ==> r is Some && *r->0 == old(self)@[idx as int]
                && final(self)@ == old(self)@.update(idx as int, *final(r->0)),
            idx >= old(self)@.len() ==> r is None && final(self)@ == old(self)@,
            final(self).cursor_index() == old(self).cursor_index(),
    {
        self.data.get_mut(idx)
    }

    /// Appends an element. The cursor stays where it is.
    pub fn push(&mut self, t: T)
        ensures
            final(self)@ == old(self)@.push(t),
            final(self).cursor_index() == old(self).cursor_index(),
    {
        self.data.push(t)
    }
}

} // verus!
