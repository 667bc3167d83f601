//! The plain value types the pipeline is built from.
use vstd::prelude::*;

verus! {

/// A change-detection signature for a source file: its size in bytes and its
/// modification time in whole seconds, as the surrounding process reports
/// them. Two observations with equal signatures are treated as the same
/// content; a size+mtime scheme can miss a same-size, same-timestamp change,
/// which the next differing observation repairs.
#[derive(Clone, Copy, PartialEq, Eq, Structural, Debug)]
pub struct Signature {
    pub size: u64,
    pub mtime: u64,
}

/// The kind a raw filesystem notification reports for a path.
#[derive(Clone, Copy, PartialEq, Eq, Structural, Debug)]
pub enum ChangeKind {
    Create,
    Modify,
    Remove,
    Rename,
}

/// What the filesystem holds at a path at observation time, as the
/// surrounding process saw it when it looked the path up.
#[derive(Clone, Copy, PartialEq, Eq, Structural, Debug)]
pub enum FsState {
    /// A regular file with this signature.
    File(Signature),
    /// A directory.
    Dir,
    /// Nothing: the path does not exist.
    Missing,
}

} // verus!
