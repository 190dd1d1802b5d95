//! Sorting loose files into the subdirectories of a target directory.
//!
//! The subdirectory names of the target give aliases, a file's normalized
//! name is tested against every alias as a whole word, and a file that
//! matches exactly one alias is moved into that alias's directory under a
//! name that does not collide with what is already there.
//!
//! This crate holds the decisions only; reading directories and moving
//! files is left to the caller.
use vstd::prelude::*;

pub mod aliases;
pub mod bindings;
pub mod matcher;
pub mod naming;
pub mod text;

verus! {

/// The ways a run can be refused.
#[derive(Clone, Copy, PartialEq, Eq, Structural, Debug)]
pub enum SortError {
    /// Two subdirectories of the target claim the same alias.
    DuplicateAlias,
    /// No source directory was given.
    NoSources,
    /// An alias could not be compiled into a pattern.
    InvalidPattern,
}

} // verus!
