//! The head of a branch: the branch's name and the commit at its tip.

use crate::error::StoreError;
use crate::objects::commit::{commit_digest, commit_loading, Commit, CommitView};
use crate::paths::{Paths, HEADS, REFS, ROOT};
use crate::restore::FileWrite;
use crate::store::ObjectStore;
use vstd::prelude::*;

verus! {

/// What a head says, as plain values.
pub struct HeadView {
    pub name: Seq<u8>,
    pub commit: Option<CommitView>,
}

/// What reading a branch gives. An empty ref file means that nothing was
/// committed yet; otherwise its content is the digest of the commit at the
/// tip, which is loaded with all the commits before it.
pub open spec fn head_reading(
    objects: Map<Seq<u8>, Seq<u8>>,
    name: Seq<u8>,
    content: Seq<u8>,
    depth: nat,
    reach: nat,
) -> Result<HeadView, StoreError> {
    if content.len() == 0 {
        Ok(HeadView { name, commit: None })
    } else {
        match commit_loading(objects, content, depth, reach) {
            Ok(commit) => Ok(HeadView { name, commit: Some(commit) }),
            Err(e) => Err(e),
        }
    }
}

/// A head ref of the repository.
#[derive(Debug)]
pub struct Head {
    name: Vec<u8>,
    commit: Option<Commit>,
}

impl View for Head {
    type V = HeadView;

    closed spec fn view(&self) -> HeadView {
        HeadView {
            name: self.name@,
            commit: match self.commit {
                Some(c) => Some(c@),
                None => None,
            },
        }
    }
}

impl Head {
    /// The head of the branch `name`, given the content of its ref file.
    pub fn read(store: &ObjectStore, name: Vec<u8>, content: &[u8], depth: usize, reach: usize) -> (out:
        Result<Head, StoreError>)
        ensures
            match out {
                Ok(head) => head_reading(store@, name@, content@, depth as nat, reach as nat)
                    == Ok::<HeadView, StoreError>(head@),
                Err(e) => head_reading(store@, name@, content@, depth as nat, reach as nat)
                    == Err::<HeadView, StoreError>(e),
            },
    {
        if content.len() == 0 {
            Ok(Head { name, commit: None })
        } else {
            match Commit::new_from_object_file(store, content, depth, reach) {
                Ok(commit) => Ok(Head { name, commit: Some(commit) }),
                Err(e) => Err(e),
            }
        }
    }

    /// The head of the current branch: `current` is what the `HEAD` file
    /// holds, the branch's name, and `content` what the ref file of that
    /// branch holds.
    #[allow(non_snake_case)]
    pub fn read_HEAD(
        store: &ObjectStore,
        current: Vec<u8>,
        content: &[u8],
        depth: usize,
        reach: usize,
    ) -> (out: Result<Head, StoreError>)
        ensures
            match out {
                Ok(head) => head_reading(store@, current@, content@, depth as nat, reach as nat)
                    == Ok::<HeadView, StoreError>(head@),
                Err(e) => head_reading(store@, current@, content@, depth as nat, reach as nat)
                    == Err::<HeadView, StoreError>(e),
            },
    {
        Head::read(store, current, content, depth, reach)
    }

    /// The branch's name.
    pub fn name(&self) -> (out: &[u8])
        ensures
            out@ == self@.name,
    {
        self.name.as_slice()
    }

    /// What to write so that the branch points at `commit`: the branch's
    /// ref file, with the commit's digest as its whole content.
    pub fn update(&self, commit: &Commit) -> (out: FileWrite)
        ensures
            out.path@ == ROOT@ + REFS@ + HEADS@ + seq![0x2fu8] + self@.name,
            out.content@ == commit_digest(commit@),
    {
        FileWrite { path: Paths::head(self.name.as_slice()), content: commit.sha() }
    }

    /// The commit at the tip, or `None` before the first commit.
    pub fn commit(&self) -> (out: &Option<Commit>)
        ensures
            match *out {
                Some(c) => self@.commit == Some(c@),
                None => self@.commit.is_none(),
            },
    {
        &self.commit
    }

    /// The commit at the tip, taken out of the head.
    pub fn into_commit(self) -> (out: Option<Commit>)
        ensures
            match out {
                Some(c) => self@.commit == Some(c@),
                None => self@.commit.is_none(),
            },
    {
        self.commit
    }
}

} // verus!
