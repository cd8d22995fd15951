//! Errors of the diagram parser and of materialising its entries.
use vstd::prelude::*;
use std::path::PathBuf;

verus! {

/// Why a diagram was rejected. `line` is the 1-based number of the offending
/// line in the input text, blank lines included.
#[derive(Debug, Clone, Copy, PartialEq, Eq, Structural)]
pub enum ParseError {
    /// A branch line is nested more than one level below the entry before it.
    InvalidDepthJump { line: usize },
    /// A quoted line is not exactly one level below the latest entry (or
    /// there is none), or the entry it was given to later received children.
    OrphanContent { line: usize },
    /// A non-blank line is neither a branch line nor a quoted line.
    MalformedLine { line: usize },
}

/// Declares std's `PathBuf`, which the error variants carry as an opaque
/// value; nothing in the library looks inside it.
#[verifier::external_type_specification]
#[verifier::external_body]
pub struct ExPathBuf(PathBuf);

/// Error which can be returned while setting up a directory tree.
#[derive(Debug)]
pub enum SetupFsError {
    /// The diagram could not be parsed.
    Parse(ParseError),
    /// Error was returned while creating a directory.
    DirCreation(PathBuf, String),
    /// Error was returned while creating a file.
    FileCreation(PathBuf, String),
    /// Error was returned while writing to a file.
    WritingFile(PathBuf, String),
    /// The full path of an entry has no parent directory: the root directory
    /// was the root of the filesystem and the path in the tree was empty.
    EmptyPath(PathBuf),
}

impl ParseError {
    /// The 1-based number of the offending line.
    pub fn line(&self) -> (r: usize)
        ensures
            r == match *self {
                ParseError::InvalidDepthJump { line } => line,
                ParseError::OrphanContent { line } => line,
                ParseError::MalformedLine { line } => line,
            },
    {
        match *self {
            ParseError::InvalidDepthJump { line } => line,
            ParseError::OrphanContent { line } => line,
            ParseError::MalformedLine { line } => line,
        }
    }
}

} // verus!
