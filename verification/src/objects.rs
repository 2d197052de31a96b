//! The stored object kinds, the staging index and the branch head.

pub mod batch;
pub mod blob;
pub mod commit;
pub mod fidelity;
pub mod head;
pub mod index;
pub mod listing;
pub mod order;
pub mod round_trip;
pub mod tree;

pub use blob::Blob;
pub use commit::Commit;
pub use head::Head;
pub use index::Index;
pub use tree::Tree;
