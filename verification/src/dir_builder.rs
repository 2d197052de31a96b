//! The skeleton of a new repository.

use crate::error::StoreError;
use crate::paths::{Paths, HEAD, HEADS, INDEX, OBJECTS, REFS, ROOT};
use crate::restore::FileWrite;
use vstd::prelude::*;

verus! {

/// `"main"`, the branch that a new repository starts on.
pub const MAIN: [u8; 4] = [0x6d, 0x61, 0x69, 0x6e];

/// What makes a new repository: directories to create, then files to
/// write.
#[derive(Debug)]
pub struct InitPlan {
    pub dirs: Vec<Vec<u8>>,
    pub files: Vec<FileWrite>,
}

/// The plan is the skeleton of an empty repository. The directories are
/// those of the objects, the refs and the heads. The files are `HEAD`,
/// which names the branch `main`; the ref file of `main`, empty, since
/// nothing is committed yet; and the index, empty.
pub open spec fn is_skeleton(plan: InitPlan) -> bool {
    &&& plan.dirs@.len() == 3
    &&& plan.dirs@[0]@ == ROOT@ + OBJECTS@
    &&& plan.dirs@[1]@ == ROOT@ + REFS@
    &&& plan.dirs@[2]@ == ROOT@ + REFS@ + HEADS@
    &&& plan.files@.len() == 3
    &&& plan.files@[0].path@ == ROOT@ + HEAD@
    &&& plan.files@[0].content@ == MAIN@
    &&& plan.files@[1].path@ == ROOT@ + REFS@ + HEADS@ + seq![0x2fu8] + MAIN@
    &&& plan.files@[1].content@ == Seq::<u8>::empty()
    &&& plan.files@[2].path@ == ROOT@ + INDEX@
    &&& plan.files@[2].content@ == Seq::<u8>::empty()
}

pub struct DirBuilder;

impl DirBuilder {
    /// The directory to remove, with all in it, to be rid of the
    /// repository: its root.
    pub fn clean() -> (out: Vec<u8>)
        ensures
            out@ == ROOT@,
    {
        Paths::root()
    }

    /// What to create for a new repository: its skeleton, unless a
    /// repository is there already.
    pub fn store(root_exists: bool) -> (out: Result<InitPlan, StoreError>)
        ensures
            match out {
                Ok(plan) => !root_exists && is_skeleton(plan),
                Err(e) => root_exists && e == StoreError::AlreadyExists,
            },
    {
        if root_exists {
            return Err(StoreError::AlreadyExists);
        }
        let mut name: Vec<u8> = Vec::new();
        name.extend_from_slice(&MAIN);
        let mut files: Vec<FileWrite> = Vec::new();
        files.push(FileWrite { path: Paths::HEAD(), content: name });
        files.push(FileWrite { path: Paths::head(&MAIN), content: Vec::new() });
        files.push(FileWrite { path: Paths::index(), content: Vec::new() });
        let plan = InitPlan { dirs: Paths::dirs(), files };
        proof {
            assert(plan.files@[0].content@ =~= MAIN@);
            assert(plan.files@[1].content@ =~= Seq::<u8>::empty());
            assert(plan.files@[2].content@ =~= Seq::<u8>::empty());
            assert(is_skeleton(plan));
        }
        Ok(plan)
    }
}

} // verus!
