//! The commands of the tool, each as a function from what was read to what
//! is to be written.

use crate::dir_builder::{is_skeleton, DirBuilder, InitPlan};
use crate::error::StoreError;
use crate::identifiers::ROOT;
use crate::ignore::IgnoreFilter;
use crate::objects::commit::{
    commit_digest, commit_loading, history, log_views, Commit, CommitView, LogLine,
    LogLineView,
};
use crate::objects::head::Head;
use crate::objects::index::{
    after_candidates, candidate_views, delta, entry_views, outcome_of, Candidate, Entry, Index,
    Staged,
};
use crate::objects::tree::{tree_loading, tree_of, tree_restoring, Tree, TreeView};
use crate::paths;
use crate::restore::{step_views, FileWrite, RestoreStep, StepView};
use crate::store::ObjectStore;
use vstd::prelude::*;

verus! {

/// What a checkout does: the commit must load, and its tree must restore.
pub open spec fn checking_out(
    objects: Map<Seq<u8>, Seq<u8>>,
    sha: Seq<u8>,
    path: Seq<u8>,
    path_exists: bool,
    depth: nat,
    reach: nat,
) -> Result<Seq<StepView>, StoreError> {
    match commit_loading(objects, sha, depth, reach) {
        Ok(commit) => tree_restoring(objects, commit.tree, path, path_exists),
        Err(e) => Err(e),
    }
}

/// Collection of the commands of the tool.
pub struct Commands;

impl Commands {
    /// What to create for a new repository.
    pub fn init(root_exists: bool) -> (out: Result<InitPlan, StoreError>)
        ensures
            match out {
                Ok(plan) => !root_exists && is_skeleton(plan),
                Err(e) => root_exists && e == StoreError::AlreadyExists,
            },
    {
        DirBuilder::store(root_exists)
    }

    /// Stages the candidates that a path stands for.
    pub fn add(index: &mut Index, candidates: &Vec<Candidate>, filter: &IgnoreFilter) -> (out: Vec<
        Staged,
    >)
        ensures
            final(index)@ == after_candidates(old(index)@, filter@, candidate_views(candidates@)),
            out@.len() == candidates@.len(),
            forall|i: int|
                0 <= i < candidates@.len() ==> #[trigger] out@[i] == outcome_of(
                    after_candidates(old(index)@, filter@, candidate_views(candidates@).take(i)),
                    filter@,
                    candidates@[i]@,
                ),
            old(index).wf() ==> final(index).wf(),
    {
        index.add(candidates, filter)
    }

    /// The working entries that differ from what is staged.
    pub fn status(index: &Index, working: &Vec<Entry>) -> (out: Vec<Entry>)
        ensures
            entry_views(out@) == delta(entry_views(working@), index@),
    {
        index.status(working)
    }

    /// The commit of what is staged, on top of the commit at the head, and
    /// the ref file to write so that the branch points at it.
    pub fn commit(index: &Index, head: Head, message: Vec<u8>) -> (out: (Commit, FileWrite))
        ensures
            out.0@ == (CommitView {
                tree: tree_of(ROOT@, index@),
                parent: match head@.commit {
                    Some(c) => Some(Box::new(c)),
                    None => None,
                },
                message: message@,
            }),
            out.1.path@ == paths::ROOT@ + paths::REFS@ + paths::HEADS@ + seq![0x2fu8] + head@.name,
            out.1.content@ == commit_digest(out.0@),
    {
        let tree = Tree::from_index(index);
        let path = paths::Paths::head(head.name());
        let parent = head.into_commit();
        let commit = Commit::new(tree, parent, message);
        let content = commit.sha();
        (commit, FileWrite { path, content })
    }

    /// The steps that restore the commit filed under `sha` at `path`.
    pub fn checkout(
        store: &ObjectStore,
        sha: &[u8],
        path: &[u8],
        path_exists: bool,
        depth: usize,
        reach: usize,
    ) -> (out: Result<Vec<RestoreStep>, StoreError>)
        ensures
            match out {
                Ok(steps) => checking_out(
                    store@,
                    sha@,
                    path@,
                    path_exists,
                    depth as nat,
                    reach as nat,
                ) == Ok::<Seq<StepView>, StoreError>(step_views(steps@)),
                Err(e) => checking_out(store@, sha@, path@, path_exists, depth as nat, reach as nat)
                    == Err::<Seq<StepView>, StoreError>(e),
            },
    {
        match Commit::new_from_object_file(store, sha, depth, reach) {
            Err(e) => Err(e),
            Ok(commit) => commit.restore(store, path, path_exists),
        }
    }

    /// The history of the current branch, newest first: empty before the
    /// first commit.
    pub fn log(head: &Head) -> (out: Vec<LogLine>)
        ensures
            log_views(out@) == match head@.commit {
                Some(c) => history(c),
                None => Seq::empty(),
            },
    {
        match head.commit() {
            Some(commit) => commit.log(),
            None => {
                let out: Vec<LogLine> = Vec::new();
                proof {
                    assert(log_views(out@) =~= Seq::<LogLineView>::empty());
                }
                out
            },
        }
    }
}

/// Commands for looking into a repository.
pub struct DevCommands;

impl DevCommands {
    /// The directory to remove to be rid of the repository.
    pub fn clean() -> (out: Vec<u8>)
        ensures
            out@ == paths::ROOT@,
    {
        DirBuilder::clean()
    }

    /// The root tree of what is staged.
    pub fn build_tree(index: &Index) -> (out: Tree)
        ensures
            out@ == tree_of(ROOT@, index@),
    {
        Tree::from_index(index)
    }

    /// The tree filed under `sha`, loaded as a root.
    pub fn dbg_tree(store: &ObjectStore, sha: &[u8], depth: usize) -> (out: Result<Tree, StoreError>)
        ensures
            match out {
                Ok(tree) => tree_loading(store@, sha@, ROOT@, depth as nat) == Ok::<
                    TreeView,
                    StoreError,
                >(tree@),
                Err(e) => tree_loading(store@, sha@, ROOT@, depth as nat) == Err::<
                    TreeView,
                    StoreError,
                >(e),
            },
    {
        Tree::new_from_object_file(store, sha, &ROOT, depth)
    }

    /// The commit filed under `sha`.
    pub fn dbg_commit(store: &ObjectStore, sha: &[u8], depth: usize, reach: usize) -> (out: Result<
        Commit,
        StoreError,
    >)
        ensures
            match out {
                Ok(commit) => commit_loading(store@, sha@, depth as nat, reach as nat) == Ok::<
                    CommitView,
                    StoreError,
                >(commit@),
                Err(e) => commit_loading(store@, sha@, depth as nat, reach as nat) == Err::<
                    CommitView,
                    StoreError,
                >(e),
            },
    {
        Commit::new_from_object_file(store, sha, depth, reach)
    }
}

} // verus!
