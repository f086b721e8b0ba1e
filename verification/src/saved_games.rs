//! The names under which saved games are kept as files in one directory.
//!
//! A name chosen elsewhere must not lead out of that directory. Whether it
//! could is decided here; the files themselves are not touched.

use vstd::prelude::*;
use vstd::string::*;

verus! {

/// Whether a character parts the pieces of a path on some system: `/`, `\`
/// or `:`.
pub open spec fn is_separator(c: char) -> bool {
    c == '/' || c == ':' || c == '\\'
}

/// Whether some character of `name` parts the pieces of a path, so that the
/// name is no plain file name.
pub fn has_separator(name: &str) -> (r: bool)
    ensures
        r == exists|i: int| 0 <= i < name@.len() && is_separator(#[trigger] name@[i]),
{
    for c in it: name.chars()
        invariant
            it.seq() == name@,
            forall|j: int| 0 <= j < it.index() ==> !is_separator(#[trigger] name@[j]),
    {
        if c == '/' || c == ':' || c == '\\' {
            assert(is_separator(name@[it.index() as int]));
            return true;
        }
    }
    false
}

/// Whether a piece of a path is `.` or `..`, which name a directory itself
/// and the one above it.
pub fn is_dots(piece: &str) -> (r: bool)
    ensures
        r == (piece@ == seq!['.'] || piece@ == seq!['.', '.']),
{
    let n = piece.unicode_len();
    if n == 1 {
        let r = piece.get_char(0) == '.';
        assert(r ==> piece@ =~= seq!['.']);
        r
    } else if n == 2 {
        let r = piece.get_char(0) == '.' && piece.get_char(1) == '.';
        assert(r ==> piece@ =~= seq!['.', '.']);
        r
    } else {
        false
    }
}

} // verus!
