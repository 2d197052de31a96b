//! The ways in which reading or restoring objects can fail.

use vstd::prelude::*;

verus! {

#[derive(Debug, Clone, Copy, PartialEq, Eq, Structural)]
pub enum StoreError {
    /// An object's bytes do not follow its encoding: an unexpected tag, a
    /// missing separator, a field of the wrong shape.
    Format,
    /// No object is stored under the digest, or no file exists at the path.
    NotFound,
    /// The digest recomputed over a loaded object is not the one it was
    /// asked for by.
    Integrity,
    /// The destination of a restore is already there.
    AlreadyExists,
    /// Objects refer to one another more levels deep than the caller allows.
    TooDeep,
}

} // verus!
