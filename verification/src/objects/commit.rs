//! Commits: a snapshot of a tree, the commit before it, and a message.

use crate::digest::{digest, is_digest, is_hex_digit, sha1_hex};
use crate::error::StoreError;
use crate::identifiers::{COMMIT, NUL, PARENT, ROOT, SPACE, TREE};
use crate::objects::tree::{
    tree_digest, tree_loading, tree_order, tree_restoring, tree_storing, Tree, TreeView,
};
use crate::restore::{step_views, RestoreStep, StepView};
use crate::store::{filed_order, ObjectStore};
use crate::text::{copy_bytes, copy_range, find, find_byte, lemma_find_byte_is, same_bytes};
use vstd::prelude::*;

verus! {

/// What a commit says, as plain values.
pub struct CommitView {
    pub tree: TreeView,
    pub parent: Option<Box<CommitView>>,
    pub message: Seq<u8>,
}

/// The fields of an encoded commit.
pub struct CommitFieldsView {
    pub tree: Seq<u8>,
    pub parent: Option<Seq<u8>>,
    pub message: Seq<u8>,
}

/// The fields of an encoded commit: the digest of its tree, the digest of
/// its parent if it has one, and its message.
#[derive(Debug)]
pub struct CommitFields {
    pub tree: Vec<u8>,
    pub parent: Option<Vec<u8>>,
    pub message: Vec<u8>,
}

impl View for CommitFields {
    type V = CommitFieldsView;

    open spec fn view(&self) -> CommitFieldsView {
        CommitFieldsView {
            tree: self.tree@,
            parent: match self.parent {
                Some(p) => Some(p@),
                None => None,
            },
            message: self.message@,
        }
    }
}

/// One line of a history: a commit's digest and its message.
#[derive(Debug)]
pub struct LogLine {
    pub sha: Vec<u8>,
    pub message: Vec<u8>,
}

/// What a line of a history says, as plain values.
pub struct LogLineView {
    pub sha: Seq<u8>,
    pub message: Seq<u8>,
}

impl View for LogLine {
    type V = LogLineView;

    open spec fn view(&self) -> LogLineView {
        LogLineView { sha: self.sha@, message: self.message@ }
    }
}

/// The views of a list of history lines.
pub open spec fn log_views(lines: Seq<LogLine>) -> Seq<LogLineView> {
    lines.map_values(|l: LogLine| l@)
}

/// The first part of every encoded commit: the tag and a space.
pub open spec fn commit_header() -> Seq<u8> {
    COMMIT@ + seq![SPACE]
}

/// The part that names the tree: the tree tag, a space, the digest.
pub open spec fn tree_field(sha: Seq<u8>) -> Seq<u8> {
    TREE@ + seq![SPACE] + sha
}

/// The part that names the parent: empty without one, else the parent tag,
/// a space, the digest.
pub open spec fn parent_field(sha: Option<Seq<u8>>) -> Seq<u8> {
    match sha {
        Some(sha) => PARENT@ + seq![SPACE] + sha,
        None => Seq::empty(),
    }
}

/// The encoding of a commit with these fields: header, tree part, parent
/// part and message, with a NUL after each of the first three.
pub open spec fn commit_text(fields: CommitFieldsView) -> Seq<u8> {
    commit_header() + seq![NUL] + tree_field(fields.tree) + seq![NUL] + parent_field(fields.parent)
        + seq![NUL] + fields.message
}

/// The fields that a commit is encoded with.
pub open spec fn fields_of(c: CommitView) -> CommitFieldsView
    decreases c, 0nat,
{
    CommitFieldsView {
        tree: tree_digest(c.tree),
        parent: match c.parent {
            Some(p) => Some(commit_digest(*p)),
            None => None,
        },
        message: c.message,
    }
}

/// The encoding of a commit.
pub open spec fn commit_encoding(c: CommitView) -> Seq<u8>
    decreases c, 1nat,
{
    commit_text(fields_of(c))
}

/// The digest that a commit is filed under.
pub open spec fn commit_digest(c: CommitView) -> Seq<u8>
    decreases c, 2nat,
{
    sha1_hex(commit_encoding(c))
}

/// The history of a commit: its own digest and message, then those of its
/// parent, and so on to the first commit.
pub open spec fn history(c: CommitView) -> Seq<LogLineView>
    decreases c,
{
    seq![LogLineView { sha: commit_digest(c), message: c.message }] + match c.parent {
        Some(p) => history(*p),
        None => Seq::empty(),
    }
}

/// The fields of an encoded commit. The buffer has three NULs or more. Up
/// to the first stands the header. Up to the second stands the tree part,
/// with a digest of 40 bytes. Up to the third stands the parent part: either
/// nothing, or the parent tag with a digest of 40 bytes. All that follows
/// the third is the message.
pub open spec fn commit_decoding(buf: Seq<u8>) -> Result<CommitFieldsView, StoreError> {
    let a = find_byte(buf, NUL);
    let after_header = buf.skip(a + 1);
    let b = find_byte(after_header, NUL);
    let after_tree = after_header.skip(b + 1);
    let c = find_byte(after_tree, NUL);
    if !(0 <= a < buf.len() && 0 <= b < after_header.len() && 0 <= c < after_tree.len()) {
        Err(StoreError::Format)
    } else {
        let tree = after_header.take(b);
        let parent = after_tree.take(c);
        if buf.take(a) != commit_header() {
            Err(StoreError::Format)
        } else if !(tree.len() == 45 && tree.take(5) == TREE@ + seq![SPACE]) {
            Err(StoreError::Format)
        } else if parent.len() == 0 {
            Ok(
                CommitFieldsView {
                    tree: tree.skip(5),
                    parent: None,
                    message: after_tree.skip(c + 1),
                },
            )
        } else if parent.len() == 47 && parent.take(7) == PARENT@ + seq![SPACE] {
            Ok(
                CommitFieldsView {
                    tree: tree.skip(5),
                    parent: Some(parent.skip(7)),
                    message: after_tree.skip(c + 1),
                },
            )
        } else {
            Err(StoreError::Format)
        }
    }
}

/// The commit filed under `sha`, with its tree, loaded down to `depth`
/// levels, and with the commits before it, at most `reach` of them.
pub open spec fn commit_loading(
    objects: Map<Seq<u8>, Seq<u8>>,
    sha: Seq<u8>,
    depth: nat,
    reach: nat,
) -> Result<CommitView, StoreError>
    decreases reach,
{
    if !objects.contains_key(sha) {
        Err(StoreError::NotFound)
    } else {
        match commit_decoding(objects[sha]) {
            Err(e) => Err(e),
            Ok(fields) => match tree_loading(objects, fields.tree, ROOT@, depth) {
                Err(e) => Err(e),
                Ok(tree) => match fields.parent {
                    None => Ok(CommitView { tree, parent: None, message: fields.message }),
                    Some(p) => if reach == 0 {
                        Err(StoreError::TooDeep)
                    } else {
                        match commit_loading(objects, p, depth, (reach - 1) as nat) {
                            Err(e) => Err(e),
                            Ok(parent) => Ok(
                                CommitView {
                                    tree,
                                    parent: Some(Box::new(parent)),
                                    message: fields.message,
                                },
                            ),
                        }
                    },
                },
            },
        }
    }
}

/// No byte of a digest is a NUL.
proof fn lemma_digest_has_no_nul(sha: Seq<u8>)
    requires
        is_digest(sha),
    ensures
        forall|j: int| 0 <= j < sha.len() ==> #[trigger] sha[j] != NUL,
{
    assert forall|j: int| 0 <= j < sha.len() implies #[trigger] sha[j] != NUL by {
        assert(is_hex_digit(sha[j]));
    }
}

/// Decoding an encoded commit gives its fields back: the two digests and
/// the message, whatever bytes the message holds.
pub proof fn lemma_commit_round_trip(fields: CommitFieldsView)
    requires
        is_digest(fields.tree),
        fields.parent.is_some() ==> is_digest(fields.parent.unwrap()),
    ensures
        commit_decoding(commit_text(fields)) == Ok::<CommitFieldsView, StoreError>(fields),
{
    let buf = commit_text(fields);
    let header = commit_header();
    let tree = tree_field(fields.tree);
    let parent = parent_field(fields.parent);
    lemma_digest_has_no_nul(fields.tree);
    assert(buf[7] == NUL);
    assert forall|j: int| 0 <= j < 7 implies #[trigger] buf[j] != NUL by {
        assert(buf[j] == header[j]);
    }
    lemma_find_byte_is(buf, NUL, 7);
    let after_header = buf.skip(8);
    assert(after_header =~= tree + seq![NUL] + parent + seq![NUL] + fields.message);
    assert(after_header[45] == NUL);
    assert forall|j: int| 0 <= j < 45 implies #[trigger] after_header[j] != NUL by {
        assert(after_header[j] == tree[j]);
        if j >= 5 {
            assert(tree[j] == fields.tree[j - 5]);
        }
    }
    lemma_find_byte_is(after_header, NUL, 45);
    let after_tree = after_header.skip(46);
    assert(after_tree =~= parent + seq![NUL] + fields.message);
    let c = parent.len() as int;
    assert(after_tree[c] == NUL);
    assert forall|j: int| 0 <= j < c implies #[trigger] after_tree[j] != NUL by {
        assert(after_tree[j] == parent[j]);
        if j >= 7 {
            lemma_digest_has_no_nul(fields.parent.unwrap());
            assert(parent[j] == fields.parent.unwrap()[j - 7]);
        }
    }
    lemma_find_byte_is(after_tree, NUL, c);
    assert(buf.take(7) =~= header);
    assert(after_header.take(45) =~= tree);
    assert(tree.take(5) =~= TREE@ + seq![SPACE]);
    assert(tree.skip(5) =~= fields.tree);
    assert(after_tree.take(c) =~= parent);
    assert(after_tree.skip(c + 1) =~= fields.message);
    if fields.parent.is_some() {
        assert(parent.take(7) =~= PARENT@ + seq![SPACE]);
        assert(parent.skip(7) =~= fields.parent.unwrap());
    }
}

/// A commit without a parent is encoded with an empty parent part: two
/// NULs in a row stand between the tree's digest and the message.
pub proof fn lemma_first_commit_has_no_parent_part(c: CommitView)
    requires
        c.parent.is_none(),
    ensures
        commit_encoding(c) == commit_header() + seq![NUL] + tree_field(tree_digest(c.tree))
            + seq![NUL, NUL] + c.message,
{
    assert(commit_encoding(c) =~= commit_header() + seq![NUL] + tree_field(tree_digest(c.tree))
        + seq![NUL, NUL] + c.message);
}

/// A snapshot: the tree at the top of it, the commit that it follows, and
/// a message.
#[derive(Debug)]
pub struct Commit {
    tree: Tree,
    parent: Option<Box<Commit>>,
    message: Vec<u8>,
}

impl View for Commit {
    type V = CommitView;

    closed spec fn view(&self) -> CommitView
        decreases self,
    {
        CommitView {
            tree: self.tree@,
            parent: match self.parent {
                Some(p) => Some(Box::new((*p).view())),
                None => None,
            },
            message: self.message@,
        }
    }
}

impl Commit {
    pub fn new(tree: Tree, parent: Option<Commit>, message: Vec<u8>) -> (out: Commit)
        ensures
            out@ == (CommitView {
                tree: tree@,
                parent: match parent {
                    Some(p) => Some(Box::new(p@)),
                    None => None,
                },
                message: message@,
            }),
    {
        let parent = if let Some(commit) = parent {
            Some(Box::new(commit))
        } else {
            None
        };
        Commit { tree, parent, message }
    }

    /// The tree at the top of the snapshot.
    pub fn tree(&self) -> (out: &Tree)
        ensures
            out@ == self@.tree,
    {
        &self.tree
    }

    /// The commit that this one follows.
    pub fn parent(&self) -> (out: Option<&Commit>)
        ensures
            match out {
                Some(p) => self@.parent == Some(Box::new(p@)),
                None => self@.parent.is_none(),
            },
    {
        match &self.parent {
            Some(p) => Some(&**p),
            None => None,
        }
    }

    pub fn message(&self) -> (out: &[u8])
        ensures
            out@ == self@.message,
    {
        self.message.as_slice()
    }

    /// The encoded object.
    pub fn serialize(&self) -> (out: Vec<u8>)
        ensures
            out@ == commit_encoding(self@),
        decreases self, 0nat,
    {
        let mut buf: Vec<u8> = Vec::new();
        buf.extend_from_slice(&COMMIT);
        buf.push(SPACE);
        buf.push(NUL);
        buf.extend_from_slice(&TREE);
        buf.push(SPACE);
        let tree_sha = self.tree.sha();
        buf.extend_from_slice(tree_sha.as_slice());
        buf.push(NUL);
        if let Some(parent) = &self.parent {
            buf.extend_from_slice(&PARENT);
            buf.push(SPACE);
            let parent_sha = parent.sha();
            buf.extend_from_slice(parent_sha.as_slice());
        }
        buf.push(NUL);
        buf.extend_from_slice(self.message.as_slice());
        proof {
            assert(buf@ =~= commit_encoding(self@));
        }
        buf
    }

    /// The digest of the encoded object, computed anew at each call.
    pub fn sha(&self) -> (out: Vec<u8>)
        ensures
            out@ == commit_digest(self@),
            is_digest(out@),
        decreases self, 1nat,
    {
        let buf = self.serialize();
        digest(buf.as_slice())
    }

    /// The steps that restore the commit's tree at `path`.
    pub fn restore(&self, store: &ObjectStore, path: &[u8], path_exists: bool) -> (out: Result<
        Vec<RestoreStep>,
        StoreError,
    >)
        ensures
            match out {
                Ok(steps) => tree_restoring(store@, self@.tree, path@, path_exists) == Ok::<
                    Seq<StepView>,
                    StoreError,
                >(step_views(steps@)),
                Err(e) => tree_restoring(store@, self@.tree, path@, path_exists) == Err::<
                    Seq<StepView>,
                    StoreError,
                >(e),
            },
    {
        self.tree.restore(store, path, path_exists)
    }

    /// The history from this commit back to the first one.
    pub fn log(&self) -> (out: Vec<LogLine>)
        ensures
            log_views(out@) == history(self@),
        decreases self,
    {
        let mut out: Vec<LogLine> = Vec::new();
        out.push(LogLine { sha: self.sha(), message: copy_bytes(self.message.as_slice()) });
        if let Some(parent) = &self.parent {
            let mut before = parent.log();
            let ghost earlier = log_views(before@);
            out.append(&mut before);
            proof {
                assert(log_views(out@) =~= history(self@));
            }
        } else {
            proof {
                assert(log_views(out@) =~= history(self@));
            }
        }
        out
    }

    /// Files the commit's tree, sub-trees first, and then the commit. The
    /// parent is not filed again: it was filed when it was committed.
    pub fn store(&self, store: &mut ObjectStore) -> (sha: Vec<u8>)
        ensures
            sha@ == commit_digest(self@),
            final(store)@ == tree_storing(old(store)@, self@.tree).insert(
                commit_digest(self@),
                commit_encoding(self@),
            ),
            final(store).order() == filed_order(
                tree_order(old(store).order(), self@.tree),
                commit_digest(self@),
            ),
    {
        self.tree.store(store);
        let buf = self.serialize();
        store.put(buf.as_slice())
    }

    /// Decodes an encoded commit into its fields.
    pub fn deserialize(buf: &[u8]) -> (out: Result<CommitFields, StoreError>)
        ensures
            match out {
                Ok(fields) => commit_decoding(buf@) == Ok::<CommitFieldsView, StoreError>(fields@),
                Err(e) => commit_decoding(buf@) == Err::<CommitFieldsView, StoreError>(e),
            },
    {
        let a: usize = find(buf, NUL);
        if a >= buf.len() {
            return Err(StoreError::Format);
        }
        let after_header = copy_range(buf, a + 1, buf.len());
        let b: usize = find(after_header.as_slice(), NUL);
        if b >= after_header.len() {
            return Err(StoreError::Format);
        }
        let after_tree = copy_range(after_header.as_slice(), b + 1, after_header.len());
        let c: usize = find(after_tree.as_slice(), NUL);
        if c >= after_tree.len() {
            return Err(StoreError::Format);
        }
        let header = copy_range(buf, 0, a);
        let tree = copy_range(after_header.as_slice(), 0, b);
        let parent = copy_range(after_tree.as_slice(), 0, c);
        let message = copy_range(after_tree.as_slice(), c + 1, after_tree.len());
        let mut commit_tag: Vec<u8> = Vec::new();
        commit_tag.extend_from_slice(&COMMIT);
        commit_tag.push(SPACE);
        let mut tree_tag: Vec<u8> = Vec::new();
        tree_tag.extend_from_slice(&TREE);
        tree_tag.push(SPACE);
        let mut parent_tag: Vec<u8> = Vec::new();
        parent_tag.extend_from_slice(&PARENT);
        parent_tag.push(SPACE);
        proof {
            assert(commit_tag@ =~= commit_header());
            assert(tree_tag@ =~= TREE@ + seq![SPACE]);
            assert(parent_tag@ =~= PARENT@ + seq![SPACE]);
            assert(after_header@ =~= buf@.skip(a + 1));
            assert(after_tree@ =~= after_header@.skip(b + 1));
            assert(header@ =~= buf@.take(a as int));
            assert(tree@ =~= after_header@.take(b as int));
            assert(parent@ =~= after_tree@.take(c as int));
            assert(message@ =~= after_tree@.skip(c + 1));
        }
        if !same_bytes(header.as_slice(), commit_tag.as_slice()) {
            return Err(StoreError::Format);
        }
        if tree.len() != 45 {
            return Err(StoreError::Format);
        }
        let tree_start = copy_range(tree.as_slice(), 0, 5);
        proof {
            assert(tree_start@ =~= tree@.take(5));
        }
        if !same_bytes(tree_start.as_slice(), tree_tag.as_slice()) {
            return Err(StoreError::Format);
        }
        let tree_sha = copy_range(tree.as_slice(), 5, 45);
        proof {
            assert(tree_sha@ =~= tree@.skip(5));
        }
        if parent.len() == 0 {
            return Ok(CommitFields { tree: tree_sha, parent: None, message });
        }
        if parent.len() != 47 {
            return Err(StoreError::Format);
        }
        let parent_start = copy_range(parent.as_slice(), 0, 7);
        proof {
            assert(parent_start@ =~= parent@.take(7));
        }
        if !same_bytes(parent_start.as_slice(), parent_tag.as_slice()) {
            return Err(StoreError::Format);
        }
        let parent_sha = copy_range(parent.as_slice(), 7, 47);
        proof {
            assert(parent_sha@ =~= parent@.skip(7));
        }
        Ok(CommitFields { tree: tree_sha, parent: Some(parent_sha), message })
    }

    /// Loads the commit filed under `sha`: its tree, with sub-trees down to
    /// `depth` levels, and the commits before it, at most `reach` of them.
    pub fn new_from_object_file(store: &ObjectStore, sha: &[u8], depth: usize, reach: usize) -> (out:
        Result<Commit, StoreError>)
        ensures
            match out {
                Ok(commit) => commit_loading(store@, sha@, depth as nat, reach as nat) == Ok::<
                    CommitView,
                    StoreError,
                >(commit@),
                Err(e) => commit_loading(store@, sha@, depth as nat, reach as nat) == Err::<
                    CommitView,
                    StoreError,
                >(e),
            },
        decreases reach,
    {
        let buf = match store.get(sha) {
            None => {
                return Err(StoreError::NotFound);
            },
            Some(buf) => buf,
        };
        let fields = match Commit::deserialize(buf.as_slice()) {
            Err(e) => {
                return Err(e);
            },
            Ok(fields) => fields,
        };
        let tree = match Tree::new_from_object_file(store, fields.tree.as_slice(), &ROOT, depth) {
            Err(e) => {
                return Err(e);
            },
            Ok(tree) => tree,
        };
        let parent = match &fields.parent {
            None => None,
            Some(p) => {
                if reach == 0 {
                    return Err(StoreError::TooDeep);
                }
                match Commit::new_from_object_file(store, p.as_slice(), depth, reach - 1) {
                    Err(e) => {
                        return Err(e);
                    },
                    Ok(parent) => Some(parent),
                }
            },
        };
        Ok(Commit::new(tree, parent, fields.message))
    }
}

} // verus!
