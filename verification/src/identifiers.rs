//! The type tags that open every encoded object and every tree entry.

use vstd::prelude::*;

verus! {

/// `"blob"`
pub const BLOB: [u8; 4] = [0x62, 0x6c, 0x6f, 0x62];

/// `"tree"`
pub const TREE: [u8; 4] = [0x74, 0x72, 0x65, 0x65];

/// `"commit"`
pub const COMMIT: [u8; 6] = [0x63, 0x6f, 0x6d, 0x6d, 0x69, 0x74];

/// `"parent"`
pub const PARENT: [u8; 6] = [0x70, 0x61, 0x72, 0x65, 0x6e, 0x74];

/// `"ROOT"`, the name of the tree at the top of a snapshot.
pub const ROOT: [u8; 4] = [0x52, 0x4f, 0x4f, 0x54];

/// The space between the fields of a header or an entry.
pub const SPACE: u8 = 0x20;

/// The NUL byte that closes a header and separates entries.
pub const NUL: u8 = 0x00;

/// The `/` between the segments of a path.
pub const SLASH: u8 = 0x2f;

} // verus!
