//! An in-memory index of a directory tree of snippet files.
//!
//! A snippet is a small line-oriented text file: the first line is a title,
//! the second line holds semicolon-separated tags, and the remaining lines
//! are the body. A [`Snippet`] holds one parsed file; a [`SnippetFolder`]
//! mirrors a directory, owning its snippets and one child folder per
//! subdirectory.
//!
//! The library itself performs no I/O: callers list directories into
//! [`FsEntry`] values and read files into [`FileLines`] values, then hand
//! the plain values in. Discovery, extension filtering, ordering and
//! parsing all happen here, with contracts.

pub mod folder;
pub mod order;
pub mod parse;
pub mod snippet;

pub use folder::FileLines;
pub use folder::FsEntry;
pub use folder::SnippetFolder;
pub use snippet::Snippet;
pub use snippet::SnippetError;
