//! The errors of paths and trees.

use crate::foldertree::path::FolderPath;
use vstd::prelude::*;

verus! {

/// Why an operation on a path or a tree was refused.
#[derive(Debug)]
pub enum FolderTreeError {
    /// The string is not the textual form of a path.
    InvalidFolderPath(String),
    /// No folder stands at the path.
    FolderNotFound(FolderPath),
    /// A folder already stands at the path.
    FolderExists(FolderPath),
    /// The folder at the path still has children.
    FolderNotEmpty(FolderPath),
    /// The root cannot be renamed.
    CannotRenameRoot,
    /// The root cannot be removed.
    CannotRemoveRoot,
    /// The root cannot be moved.
    CannotMoveRoot,
    /// The first path cannot be moved below the second, which lies inside it.
    ImpossibleMove(FolderPath, FolderPath),
    /// The first path does not lie below the second.
    NotRelative(FolderPath, FolderPath),
}

/// A `FolderTreeError` with each path and string taken by its view.
pub enum FolderTreeErrorView {
    InvalidFolderPath(Seq<char>),
    FolderNotFound(Seq<Seq<char>>),
    FolderExists(Seq<Seq<char>>),
    FolderNotEmpty(Seq<Seq<char>>),
    CannotRenameRoot,
    CannotRemoveRoot,
    CannotMoveRoot,
    ImpossibleMove(Seq<Seq<char>>, Seq<Seq<char>>),
    NotRelative(Seq<Seq<char>>, Seq<Seq<char>>),
}

impl View for FolderTreeError {
    type V = FolderTreeErrorView;

    open spec fn view(&self) -> FolderTreeErrorView {
        match self {
            FolderTreeError::InvalidFolderPath(s) => FolderTreeErrorView::InvalidFolderPath(s@),
            FolderTreeError::FolderNotFound(p) => FolderTreeErrorView::FolderNotFound(p@),
            FolderTreeError::FolderExists(p) => FolderTreeErrorView::FolderExists(p@),
            FolderTreeError::FolderNotEmpty(p) => FolderTreeErrorView::FolderNotEmpty(p@),
            FolderTreeError::CannotRenameRoot => FolderTreeErrorView::CannotRenameRoot,
            FolderTreeError::CannotRemoveRoot => FolderTreeErrorView::CannotRemoveRoot,
            FolderTreeError::CannotMoveRoot => FolderTreeErrorView::CannotMoveRoot,
            FolderTreeError::ImpossibleMove(from, to) => FolderTreeErrorView::ImpossibleMove(
                from@,
                to@,
            ),
            FolderTreeError::NotRelative(p, a) => FolderTreeErrorView::NotRelative(p@, a@),
        }
    }
}

} // verus!
