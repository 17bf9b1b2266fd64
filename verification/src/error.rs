//! Why a reduction can fail.
use vstd::prelude::*;

verus! {

/// An error of the operating system, as the check reports it.
#[verifier::external_type_specification]
#[verifier::external_body]
pub struct ExIoError(std::io::Error);

/// Why a pass stopped short.
#[derive(Debug)]
pub enum ReductionError {
    /// A worker panicked while it held a lock.
    Poisoned,
    /// The check could not be run.
    Io(std::io::Error),
    /// The syntax tree is not that of the text: a node to be edited lies outside of
    /// the text, or a node ends before it starts.
    TreeMismatch,
}

/// Why a reduction in several passes stopped short.
#[derive(Debug)]
pub enum MultiPassReductionError {
    /// A pass failed.
    Reduction(ReductionError),
    /// The reduced program is not UTF-8.
    Utf8(std::str::Utf8Error),
    /// The reduced program is too long to be parsed.
    TooLong,
    /// The grammar was made for another version of tree-sitter.
    Language,
}

} // verus!
