//! What the stored object kinds have in common.

use crate::objects::blob::{blob_digest, blob_encoding, Blob};
use crate::objects::commit::{commit_digest, commit_encoding, Commit};
use crate::objects::tree::{tree_encoding, tree_storing, Tree};
use crate::store::ObjectStore;
use vstd::prelude::*;

verus! {

/// What can be filed in the object store.
pub trait Storable {
    /// The store after this value has been filed in it.
    spec fn stored(&self, objects: Map<Seq<u8>, Seq<u8>>) -> Map<Seq<u8>, Seq<u8>>;

    fn store(&self, store: &mut ObjectStore)
        ensures
            final(store)@ == self.stored(old(store)@),
    ;
}

/// What has an encoding as an object of the store.
pub trait Object {
    /// The bytes that the object is stored as.
    spec fn encoding(&self) -> Seq<u8>;

    /// Serializes the object to the bytes that it is stored as.
    fn serialize(&self) -> (out: Vec<u8>)
        ensures
            out@ == self.encoding(),
    ;
}

impl Storable for Blob {
    open spec fn stored(&self, objects: Map<Seq<u8>, Seq<u8>>) -> Map<Seq<u8>, Seq<u8>> {
        objects.insert(blob_digest(self@), blob_encoding(self@))
    }

    fn store(&self, store: &mut ObjectStore) {
        Blob::store(self, store);
    }
}

impl Object for Blob {
    open spec fn encoding(&self) -> Seq<u8> {
        blob_encoding(self@)
    }

    fn serialize(&self) -> (out: Vec<u8>) {
        Blob::serialize(self)
    }
}

impl Storable for Tree {
    open spec fn stored(&self, objects: Map<Seq<u8>, Seq<u8>>) -> Map<Seq<u8>, Seq<u8>> {
        tree_storing(objects, self@)
    }

    fn store(&self, store: &mut ObjectStore) {
        Tree::store(self, store);
    }
}

impl Object for Tree {
    open spec fn encoding(&self) -> Seq<u8> {
        tree_encoding(self@)
    }

    fn serialize(&self) -> (out: Vec<u8>) {
        Tree::serialize(self)
    }
}

impl Storable for Commit {
    open spec fn stored(&self, objects: Map<Seq<u8>, Seq<u8>>) -> Map<Seq<u8>, Seq<u8>> {
        tree_storing(objects, self@.tree).insert(commit_digest(self@), commit_encoding(self@))
    }

    fn store(&self, store: &mut ObjectStore) {
        Commit::store(self, store);
    }
}

impl Object for Commit {
    open spec fn encoding(&self) -> Seq<u8> {
        commit_encoding(self@)
    }

    fn serialize(&self) -> (out: Vec<u8>) {
        Commit::serialize(self)
    }
}

} // verus!
