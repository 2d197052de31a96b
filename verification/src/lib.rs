//! A small content-addressed version-control store: blobs, trees and commits
//! with a byte-exact encoding, a staging index, and the rules that turn a
//! staged list of paths into a tree and a tree back into files.
//!
//! All text (paths, names, messages, digests) is held as byte strings: the
//! object encoding is defined on bytes, and so are the contracts.

pub mod commands;
pub mod digest;
pub mod dir_builder;
pub mod error;
pub mod identifiers;
pub mod ignore;
pub mod objects;
pub mod paths;
pub mod restore;
pub mod store;
pub mod storing;
pub mod text;

pub use digest::digest;
pub use dir_builder::DirBuilder;
pub use ignore::IgnoreFilter;
pub use paths::Paths;
