//! Trees: directory listings that name their children by digest, built from
//! the flat paths of the index.

use crate::digest::{digest, is_digest, sha1_hex};
use crate::error::StoreError;
use crate::identifiers::{BLOB, NUL, ROOT, SLASH, SPACE, TREE};
use crate::objects::blob::{blob_loading, Blob};
use crate::restore::{step_views, RestoreStep, StepView};
use crate::store::{filed_order, ObjectStore};
use crate::objects::listing::{
    in_order, insert_in_order, join_texts, lemma_in_order_is, line_order, line_views, texts, Line,
    LineView,
};
use crate::objects::index;
use crate::objects::index::{entry_views, EntryView, Index};
use crate::text::{
    copy_bytes, copy_range, decimal, find, find_byte, free_of, has_prefix, join, lemma_find_byte,
    parse_decimal, parse_u32, push_decimal, same_bytes, split, split_on, starts_with, views,
};
use vstd::relations::sorted_by;
use vstd::prelude::*;

verus! {

/// What a file entry of a tree says, as plain values.
pub struct LeafView {
    pub mode: u32,
    pub name: Seq<u8>,
    pub sha: Seq<u8>,
}

/// A child of a tree: a sub-tree or a file entry.
pub enum NodeView {
    Tree(TreeView),
    Leaf(LeafView),
}

/// What a tree says, as plain values: its name and its children in the
/// order in which it holds them.
pub struct TreeView {
    pub name: Seq<u8>,
    pub children: Seq<NodeView>,
}

/// A file directly under a tree: its mode, its name within the tree, and the
/// digest of the blob that holds its content.
#[derive(Debug)]
pub struct Entry {
    mode: u32,
    file_name: Vec<u8>,
    sha: Vec<u8>,
}

/// A child of a tree.
#[derive(Debug)]
pub enum EntryType {
    Tree(Tree),
    Blob(Entry),
}

/// A directory: a name and the children under it.
#[derive(Debug)]
pub struct Tree {
    entries: Vec<EntryType>,
    name: Vec<u8>,
}

impl View for Entry {
    type V = LeafView;

    closed spec fn view(&self) -> LeafView {
        LeafView { mode: self.mode, name: self.file_name@, sha: self.sha@ }
    }
}

impl View for EntryType {
    type V = NodeView;

    closed spec fn view(&self) -> NodeView
        decreases self,
    {
        match self {
            EntryType::Tree(t) => NodeView::Tree(t.view()),
            EntryType::Blob(e) => NodeView::Leaf(e@),
        }
    }
}

impl View for Tree {
    type V = TreeView;

    closed spec fn view(&self) -> TreeView
        decreases self,
    {
        TreeView {
            name: self.name@,
            children: Seq::new(
                self.entries@.len(),
                |i: int|
                    if 0 <= i < self.entries@.len() {
                        self.entries@[i].view()
                    } else {
                        arbitrary()
                    },
            ),
        }
    }
}

/// The views of a list of children.
pub open spec fn node_views(entries: Seq<EntryType>) -> Seq<NodeView> {
    entries.map_values(|e: EntryType| e@)
}

// ---------------------------------------------------------------------------
// From flat paths to a tree
// ---------------------------------------------------------------------------

/// The path names a file directly under the current tree.
pub open spec fn is_top_level(path: Seq<u8>) -> bool {
    free_of(path, SLASH)
}

/// The part of a path before its first `/`.
pub open spec fn first_segment(path: Seq<u8>) -> Seq<u8> {
    path.take(find_byte(path, SLASH))
}

/// The part of a path after its first `/`: the path as seen from the
/// directory that its first segment names.
pub open spec fn below_first_segment(path: Seq<u8>) -> Seq<u8> {
    if 0 <= find_byte(path, SLASH) < path.len() {
        path.skip(find_byte(path, SLASH) + 1)
    } else {
        Seq::empty()
    }
}

/// The entry lies under the directory `dir` of the current tree.
pub open spec fn lies_under(e: EntryView, dir: Seq<u8>) -> bool {
    !is_top_level(e.path) && first_segment(e.path) == dir
}

/// The entry with its path rewritten relative to its first segment.
pub open spec fn moved_down(e: EntryView) -> EntryView {
    EntryView { path: below_first_segment(e.path), ..e }
}

/// The file entry that a top-level index entry becomes.
pub open spec fn leaf_of(e: EntryView) -> LeafView {
    LeafView { mode: e.mode, name: e.path, sha: e.sha }
}

/// The file entries of a tree: the top-level index entries, in order.
pub open spec fn leaves(entries: Seq<EntryView>) -> Seq<NodeView>
    decreases entries.len(),
{
    if entries.len() == 0 {
        Seq::empty()
    } else if is_top_level(entries[0].path) {
        seq![NodeView::Leaf(leaf_of(entries[0]))] + leaves(entries.drop_first())
    } else {
        leaves(entries.drop_first())
    }
}

/// The entries that lie under `dir`, in order, each seen from `dir`.
pub open spec fn under(entries: Seq<EntryView>, dir: Seq<u8>) -> Seq<EntryView>
    decreases entries.len(),
{
    if entries.len() == 0 {
        Seq::empty()
    } else if lies_under(entries[0], dir) {
        seq![moved_down(entries[0])] + under(entries.drop_first(), dir)
    } else {
        under(entries.drop_first(), dir)
    }
}

/// The entries that do not lie under `dir`, in order.
pub open spec fn outside(entries: Seq<EntryView>, dir: Seq<u8>) -> Seq<EntryView>
    decreases entries.len(),
{
    if entries.len() == 0 {
        Seq::empty()
    } else if lies_under(entries[0], dir) {
        outside(entries.drop_first(), dir)
    } else {
        seq![entries[0]] + outside(entries.drop_first(), dir)
    }
}

/// The size of a list of entries: the bytes of their paths, and one for
/// each entry. Every step of the construction works on a smaller list.
pub open spec fn weight(entries: Seq<EntryView>) -> nat
    decreases entries.len(),
{
    if entries.len() == 0 {
        0
    } else {
        entries[0].path.len() + 1 + weight(entries.drop_first())
    }
}

/// Taking the entries under one directory apart from the others loses at
/// least one byte for each entry taken: the `/` after the directory's name.
pub proof fn lemma_weight_split(entries: Seq<EntryView>, dir: Seq<u8>)
    ensures
        weight(under(entries, dir)) + under(entries, dir).len() + weight(outside(entries, dir))
            <= weight(entries),
        entries.len() > 0 && lies_under(entries[0], dir) ==> under(entries, dir).len() >= 1,
    decreases entries.len(),
{
    if entries.len() > 0 {
        let rest = entries.drop_first();
        lemma_weight_split(rest, dir);
        let e = entries[0];
        if lies_under(e, dir) {
            lemma_find_byte(e.path, SLASH);
            let m = moved_down(e);
            let u = under(entries, dir);
            assert(u.drop_first() =~= under(rest, dir));
            assert(u[0] == m);
            assert(m.path.len() + 1 <= e.path.len());
        } else {
            let o = outside(entries, dir);
            assert(o.drop_first() =~= outside(rest, dir));
            assert(o[0] == e);
        }
    }
}

/// The sub-trees of a tree: one for each directory that an entry lies
/// under, in the order in which the directories first occur, each built
/// from all the entries under that directory.
pub open spec fn subtrees(entries: Seq<EntryView>) -> Seq<NodeView>
    decreases weight(entries), 0nat,
{
    if entries.len() == 0 {
        Seq::empty()
    } else if is_top_level(entries[0].path) {
        subtrees(entries.drop_first())
    } else {
        let dir = first_segment(entries[0].path);
        proof {
            lemma_weight_split(entries, dir);
        }
        seq![NodeView::Tree(tree_of(dir, under(entries, dir)))] + subtrees(outside(entries, dir))
    }
}

/// The tree named `name` that a flat list of entries folds into: the
/// top-level entries as files, then one sub-tree for each directory.
pub open spec fn tree_of(name: Seq<u8>, entries: Seq<EntryView>) -> TreeView
    decreases weight(entries), 1nat,
{
    TreeView { name, children: leaves(entries) + subtrees(entries) }
}

impl Entry {
    /// The file entry that a top-level index entry becomes. Only an entry
    /// whose path is a bare file name has one.
    pub fn from_index_entry(entry: &index::Entry) -> (out: Entry)
        requires
            is_top_level(entry@.path),
        ensures
            out@ == leaf_of(entry@),
    {
        Entry {
            mode: entry.mode(),
            file_name: copy_bytes(entry.path()),
            sha: copy_bytes(entry.sha()),
        }
    }

    pub fn mode(&self) -> (out: u32)
        ensures
            out == self@.mode,
    {
        self.mode
    }

    pub fn file_name(&self) -> (out: &[u8])
        ensures
            out@ == self@.name,
    {
        self.file_name.as_slice()
    }

    pub fn sha(&self) -> (out: &[u8])
        ensures
            out@ == self@.sha,
    {
        self.sha.as_slice()
    }
}

/// Whether `entry` lies under the directory `dir`.
fn entry_lies_under(entry: &index::Entry, dir: &[u8]) -> (out: bool)
    ensures
        out == lies_under(entry@, dir@),
{
    let path = entry.path();
    let k: usize = find(path, SLASH);
    proof {
        lemma_find_byte(path@, SLASH);
    }
    if k >= path.len() {
        return false;
    }
    let segment = copy_range(path, 0, k);
    same_bytes(segment.as_slice(), dir)
}

/// The entry with its path rewritten relative to its first segment.
fn entry_moved_down(entry: &index::Entry) -> (out: index::Entry)
    ensures
        out@ == moved_down(entry@),
{
    let path = entry.path();
    let k: usize = find(path, SLASH);
    let below = if k < path.len() {
        copy_range(path, k + 1, path.len())
    } else {
        Vec::new()
    };
    index::Entry::new(entry.mode(), below, copy_bytes(entry.sha()))
}

impl Tree {
    /// The root tree of the snapshot that the index stages.
    pub fn from_index(index: &Index) -> (out: Tree)
        ensures
            out@ == tree_of(ROOT@, index@),
    {
        let staged = index.entries();
        let mut entries: Vec<index::Entry> = Vec::new();
        let mut i: usize = 0;
        while i < staged.len()
            invariant
                0 <= i <= staged.len(),
                entry_views(entries@) == entry_views(staged@).take(i as int),
            decreases staged.len() - i,
        {
            let ghost before = entry_views(entries@);
            entries.push(staged[i].duplicate());
            proof {
                assert(entry_views(entries@) =~= before.push(staged@[i as int]@));
                assert(entry_views(entries@) =~= entry_views(staged@).take(i + 1));
            }
            i += 1;
        }
        proof {
            assert(entry_views(staged@).take(i as int) =~= entry_views(staged@));
        }
        Tree::new(&ROOT, entries)
    }

    /// The tree named `name` that the entries fold into.
    pub fn new(name: &[u8], entries: Vec<index::Entry>) -> (out: Tree)
        ensures
            out@ == tree_of(name@, entry_views(entries@)),
        decreases weight(entry_views(entries@)), 1nat,
    {
        let mut tree = Tree { entries: Vec::new(), name: copy_bytes(name) };
        tree.add_index_entries(entries);
        proof {
            assert(tree@.children =~= leaves(entry_views(entries@)) + subtrees(
                entry_views(entries@),
            ));
        }
        tree
    }

    /// The tree's name. The root of a snapshot is named `ROOT`.
    pub fn name(&self) -> (out: &[u8])
        ensures
            out@ == self@.name,
    {
        self.name.as_slice()
    }

    /// The children, in the order in which the tree holds them.
    pub fn entries(&self) -> (out: &[EntryType])
        ensures
            node_views(out@) == self@.children,
    {
        proof {
            assert(node_views(self.entries@) =~= self@.children);
        }
        self.entries.as_slice()
    }

    /// Folds a flat list of index entries into the tree. The top-level
    /// entries become files of this tree. The others are taken directory by
    /// directory, in the order in which the directories first occur: all the
    /// entries under one directory, seen from that directory, make one
    /// sub-tree.
    pub fn add_index_entries(&mut self, entries: Vec<index::Entry>)
        ensures
            final(self)@ == (TreeView {
                name: old(self)@.name,
                children: old(self)@.children + leaves(entry_views(entries@)) + subtrees(
                    entry_views(entries@),
                ),
            }),
        decreases weight(entry_views(entries@)), 0nat,
    {
        let ghost all = entry_views(entries@);
        let ghost start = self@.children;
        let mut i: usize = 0;
        proof {
            assert(all.skip(0) =~= all);
        }
        while i < entries.len()
            invariant
                0 <= i <= entries.len(),
                all == entry_views(entries@),
                self@.name == old(self)@.name,
                self@.children + leaves(all.skip(i as int)) == start + leaves(all),
            decreases entries.len() - i,
        {
            let ghost before = self@.children;
            proof {
                assert(all.skip(i as int).drop_first() =~= all.skip(i + 1));
                assert(all.skip(i as int)[0] == entries@[i as int]@);
            }
            if entries[i].is_top_level() {
                let leaf = Entry::from_index_entry(&entries[i]);
                self.entries.push(EntryType::Blob(leaf));
                proof {
                    assert(self@.children =~= before.push(NodeView::Leaf(leaf@)));
                    assert(self@.children + leaves(all.skip(i + 1)) =~= before + leaves(
                        all.skip(i as int),
                    ));
                }
            }
            i += 1;
        }
        let mut rest = entries;
        proof {
            assert(leaves(all.skip(i as int)) =~= Seq::<NodeView>::empty());
            assert(self@.children =~= start + leaves(all));
            assert(self@.children + subtrees(all) =~= start + leaves(all) + subtrees(all));
        }
        while rest.len() > 0
            invariant
                self@.name == old(self)@.name,
                self@.children + subtrees(entry_views(rest@)) == start + leaves(all) + subtrees(all),
                weight(entry_views(rest@)) <= weight(all),
                all == entry_views(entries@),
            decreases rest.len(),
        {
            let ghost remaining = entry_views(rest@);
            let ghost before = self@.children;
            proof {
                assert(remaining[0] == rest@[0]@);
            }
            if rest[0].is_top_level() {
                rest.remove(0);
                proof {
                    assert(entry_views(rest@) =~= remaining.drop_first());
                }
            } else {
                let k: usize = find(rest[0].path(), SLASH);
                proof {
                    lemma_find_byte(rest@[0]@.path, SLASH);
                }
                let dir = copy_range(rest[0].path(), 0, k);
                let mut inside: Vec<index::Entry> = Vec::new();
                let mut others: Vec<index::Entry> = Vec::new();
                let mut j: usize = 0;
                proof {
                    assert(remaining.skip(0) =~= remaining);
                    assert(entry_views(inside@) =~= Seq::<EntryView>::empty());
                    assert(entry_views(others@) =~= Seq::<EntryView>::empty());
                }
                while j < rest.len()
                    invariant
                        0 <= j <= rest.len(),
                        remaining == entry_views(rest@),
                        under(remaining, dir@) == entry_views(inside@) + under(
                            remaining.skip(j as int),
                            dir@,
                        ),
                        outside(remaining, dir@) == entry_views(others@) + outside(
                            remaining.skip(j as int),
                            dir@,
                        ),
                        inside@.len() + others@.len() == j,
                    decreases rest.len() - j,
                {
                    let entry = &rest[j];
                    let ghost inside_before = entry_views(inside@);
                    let ghost others_before = entry_views(others@);
                    proof {
                        assert(remaining.skip(j as int).drop_first() =~= remaining.skip(j + 1));
                        assert(remaining.skip(j as int)[0] == entry@);
                    }
                    if entry_lies_under(entry, dir.as_slice()) {
                        let moved = entry_moved_down(entry);
                        inside.push(moved);
                        proof {
                            assert(entry_views(inside@) =~= inside_before.push(moved@));
                            assert(entry_views(inside@) + under(remaining.skip(j + 1), dir@)
                                =~= inside_before + under(remaining.skip(j as int), dir@));
                        }
                    } else {
                        let kept = entry.duplicate();
                        others.push(kept);
                        proof {
                            assert(entry_views(others@) =~= others_before.push(kept@));
                            assert(entry_views(others@) + outside(remaining.skip(j + 1), dir@)
                                =~= others_before + outside(remaining.skip(j as int), dir@));
                        }
                    }
                    j += 1;
                }
                proof {
                    assert(under(remaining.skip(j as int), dir@) =~= Seq::<EntryView>::empty());
                    assert(outside(remaining.skip(j as int), dir@) =~= Seq::<EntryView>::empty());
                    assert(entry_views(inside@) =~= under(remaining, dir@));
                    assert(entry_views(others@) =~= outside(remaining, dir@));
                    lemma_weight_split(remaining, dir@);
                    assert(dir@ =~= first_segment(remaining[0].path));
                    assert(lies_under(remaining[0], dir@));
                }
                let sub = Tree::new(dir.as_slice(), inside);
                self.entries.push(EntryType::Tree(sub));
                rest = others;
                proof {
                    assert(self@.children =~= before.push(NodeView::Tree(sub@)));
                    assert(self@.children + subtrees(entry_views(rest@)) =~= before + subtrees(
                        remaining,
                    ));
                }
            }
        }
        proof {
            assert(subtrees(entry_views(rest@)) =~= Seq::<NodeView>::empty());
            assert(self@.children =~= start + leaves(all) + subtrees(all));
        }
    }
}

// ---------------------------------------------------------------------------
// Encoding
// ---------------------------------------------------------------------------

/// The mode that every sub-tree is listed with.
pub const TREE_MODE: u32 = 0o755;

/// An encoded entry: the tag of the child's kind, its mode in decimal, its
/// name and its digest, with one space between them.
pub open spec fn entry_text(tag: Seq<u8>, mode: u32, name: Seq<u8>, sha: Seq<u8>) -> Seq<u8> {
    tag + seq![SPACE] + decimal(mode as nat) + seq![SPACE] + name + seq![SPACE] + sha
}

/// The line that a child is listed with. A sub-tree is listed under its
/// name with the digest of its own encoding.
pub open spec fn line_of(node: NodeView) -> LineView
    decreases node, 0nat,
{
    match node {
        NodeView::Leaf(l) => LineView {
            leaf: true,
            name: l.name,
            text: entry_text(BLOB@, l.mode, l.name, l.sha),
        },
        NodeView::Tree(t) => LineView {
            leaf: false,
            name: t.name,
            text: entry_text(TREE@, TREE_MODE, t.name, tree_digest(t)),
        },
    }
}

/// The lines of a list of children, in the order of the children.
pub open spec fn lines_of(children: Seq<NodeView>) -> Seq<LineView>
    decreases children, 1nat,
{
    Seq::new(
        children.len(),
        |i: int|
            if 0 <= i < children.len() {
                line_of(children[i])
            } else {
                arbitrary()
            },
    )
}

/// The body of an encoded tree: the lines of its children in canonical
/// order, with a NUL between neighbours.
pub open spec fn tree_body(t: TreeView) -> Seq<u8>
    decreases t, 1nat,
{
    join(texts(in_order(lines_of(t.children).to_multiset())), NUL)
}

/// The encoding of a tree: the tag, a space, the decimal length of the
/// body, a NUL, and the body. The tree's own name is no part of it.
pub open spec fn tree_encoding(t: TreeView) -> Seq<u8>
    decreases t, 2nat,
{
    TREE@ + seq![SPACE] + decimal(tree_body(t).len()) + seq![NUL] + tree_body(t)
}

/// The digest that a tree is filed under.
pub open spec fn tree_digest(t: TreeView) -> Seq<u8>
    decreases t, 3nat,
{
    sha1_hex(tree_encoding(t))
}

/// Encodes one entry of a listing.
fn entry_line(tag: &[u8], mode: u32, name: &[u8], sha: &[u8]) -> (out: Vec<u8>)
    ensures
        out@ == entry_text(tag@, mode, name@, sha@),
{
    let mut out: Vec<u8> = Vec::new();
    out.extend_from_slice(tag);
    out.push(SPACE);
    push_decimal(&mut out, mode as u64);
    out.push(SPACE);
    out.extend_from_slice(name);
    out.push(SPACE);
    out.extend_from_slice(sha);
    proof {
        assert(out@ =~= entry_text(tag@, mode, name@, sha@));
    }
    out
}

impl Tree {
    /// The encoded object. The children are listed in canonical order,
    /// whatever the order in which the tree holds them.
    pub fn serialize(&self) -> (out: Vec<u8>)
        ensures
            out@ == tree_encoding(self@),
        decreases self, 0nat,
    {
        let ghost lines = lines_of(self@.children);
        let mut sorted: Vec<Line> = Vec::new();
        let mut i: usize = 0;
        proof {
            assert(lines.take(0) =~= Seq::<LineView>::empty());
            assert(line_views(sorted@) =~= Seq::<LineView>::empty());
            assert(line_views(sorted@).to_multiset() =~= lines.take(0).to_multiset());
        }
        while i < self.entries.len()
            invariant
                0 <= i <= self.entries.len(),
                lines == lines_of(self@.children),
                lines.len() == self.entries@.len(),
                sorted_by(line_views(sorted@), line_order()),
                line_views(sorted@).to_multiset() == lines.take(i as int).to_multiset(),
            decreases self.entries.len() - i,
        {
            broadcast use vstd::seq_lib::to_multiset_build;

            let line = match &self.entries[i] {
                EntryType::Tree(t) => {
                    let sha = t.sha();
                    Line {
                        leaf: false,
                        name: copy_bytes(t.name.as_slice()),
                        text: entry_line(&TREE, TREE_MODE, t.name.as_slice(), sha.as_slice()),
                    }
                },
                EntryType::Blob(e) => Line {
                    leaf: true,
                    name: copy_bytes(e.file_name.as_slice()),
                    text: entry_line(&BLOB, e.mode, e.file_name.as_slice(), e.sha.as_slice()),
                },
            };
            proof {
                assert(self@.children[i as int] == self.entries@[i as int]@);
                assert(line@ == lines[i as int]);
                assert(lines.take(i + 1) =~= lines.take(i as int).push(line@));
            }
            insert_in_order(&mut sorted, line);
            i += 1;
        }
        proof {
            assert(lines.take(i as int) =~= lines);
            lemma_in_order_is(line_views(sorted@));
        }
        let body = join_texts(&sorted);
        let mut out: Vec<u8> = Vec::new();
        out.extend_from_slice(&TREE);
        out.push(SPACE);
        push_decimal(&mut out, body.len() as u64);
        out.push(NUL);
        out.extend_from_slice(body.as_slice());
        proof {
            assert(body@ == tree_body(self@));
            assert(out@ =~= tree_encoding(self@));
        }
        out
    }

    /// The digest of the encoded object.
    pub fn sha(&self) -> (out: Vec<u8>)
        ensures
            out@ == tree_digest(self@),
            is_digest(out@),
        decreases self, 1nat,
    {
        let buf = self.serialize();
        digest(buf.as_slice())
    }
}

// ---------------------------------------------------------------------------
// Loading
// ---------------------------------------------------------------------------

/// The header that opens every encoded tree: the tag and a space.
pub open spec fn tree_header() -> Seq<u8> {
    TREE@ + seq![SPACE]
}

/// A result with `done` put before what it holds.
pub open spec fn after<T>(done: Seq<T>, rest: Result<Seq<T>, StoreError>) -> Result<
    Seq<T>,
    StoreError,
> {
    match rest {
        Ok(more) => Ok(done + more),
        Err(e) => Err(e),
    }
}

/// The child that one entry of a listing stands for. An entry has four
/// fields. A file entry gives the child as it is; a sub-tree entry names
/// the tree to load, one level further down.
pub open spec fn node_loading(objects: Map<Seq<u8>, Seq<u8>>, chunk: Seq<u8>, depth: nat) -> Result<
    NodeView,
    StoreError,
>
    decreases depth, 0nat, 0nat,
{
    let parts = split(chunk, SPACE);
    if parts.len() != 4 {
        Err(StoreError::Format)
    } else if parts[0] == TREE@ {
        if depth == 0 {
            Err(StoreError::TooDeep)
        } else {
            match tree_loading(objects, parts[3], parts[2], (depth - 1) as nat) {
                Ok(t) => Ok(NodeView::Tree(t)),
                Err(e) => Err(e),
            }
        }
    } else if parts[0] == BLOB@ {
        match parse_u32(parts[1]) {
            Some(mode) => Ok(NodeView::Leaf(LeafView { mode, name: parts[2], sha: parts[3] })),
            None => Err(StoreError::Format),
        }
    } else {
        Err(StoreError::Format)
    }
}

/// The children that the entries of a listing stand for, in order. Empty
/// entries are passed over. The first entry that fails decides the error.
pub open spec fn nodes_loading(
    objects: Map<Seq<u8>, Seq<u8>>,
    chunks: Seq<Seq<u8>>,
    depth: nat,
) -> Result<Seq<NodeView>, StoreError>
    decreases depth, 1nat, chunks.len(),
{
    if chunks.len() == 0 {
        Ok(Seq::empty())
    } else if chunks[0].len() == 0 {
        nodes_loading(objects, chunks.drop_first(), depth)
    } else {
        match node_loading(objects, chunks[0], depth) {
            Ok(node) => after(seq![node], nodes_loading(objects, chunks.drop_first(), depth)),
            Err(e) => Err(e),
        }
    }
}

/// The tree filed under `sha`, given the name `name`, with sub-trees at
/// most `depth` levels below it. The object must be there, open with the
/// tree header and hold a NUL; what follows the first NUL is the listing.
pub open spec fn tree_loading(
    objects: Map<Seq<u8>, Seq<u8>>,
    sha: Seq<u8>,
    name: Seq<u8>,
    depth: nat,
) -> Result<TreeView, StoreError>
    decreases depth, 2nat, 0nat,
{
    if !objects.contains_key(sha) {
        Err(StoreError::NotFound)
    } else {
        let buf = objects[sha];
        let i = find_byte(buf, NUL);
        if has_prefix(buf, tree_header()) && 0 <= i < buf.len() {
            match nodes_loading(objects, split(buf.skip(i + 1), NUL), depth) {
                Ok(children) => Ok(TreeView { name, children }),
                Err(e) => Err(e),
            }
        } else {
            Err(StoreError::Format)
        }
    }
}

/// Loads the child that one entry of a listing stands for.
fn load_node(store: &ObjectStore, chunk: &[u8], depth: usize) -> (out: Result<
    EntryType,
    StoreError,
>)
    ensures
        match out {
            Ok(node) => node_loading(store@, chunk@, depth as nat) == Ok::<NodeView, StoreError>(
                node@,
            ),
            Err(e) => node_loading(store@, chunk@, depth as nat) == Err::<NodeView, StoreError>(e),
        },
    decreases depth, 0nat,
{
    let parts = split_on(chunk, SPACE);
    proof {
        assert(views(parts@).len() == parts@.len());
        assert(forall|k: int| 0 <= k < parts@.len() ==> views(parts@)[k] == (#[trigger] parts@[k])@);
    }
    if parts.len() != 4 {
        return Err(StoreError::Format);
    }
    if same_bytes(parts[0].as_slice(), &TREE) {
        if depth == 0 {
            return Err(StoreError::TooDeep);
        }
        match Tree::new_from_object_file(
            store,
            parts[3].as_slice(),
            parts[2].as_slice(),
            depth - 1,
        ) {
            Ok(tree) => Ok(EntryType::Tree(tree)),
            Err(e) => Err(e),
        }
    } else if same_bytes(parts[0].as_slice(), &BLOB) {
        match parse_decimal(parts[1].as_slice()) {
            Some(mode) => Ok(
                EntryType::Blob(
                    Entry {
                        mode,
                        file_name: copy_bytes(parts[2].as_slice()),
                        sha: copy_bytes(parts[3].as_slice()),
                    },
                ),
            ),
            None => Err(StoreError::Format),
        }
    } else {
        Err(StoreError::Format)
    }
}

impl Tree {
    /// Loads the tree filed under `sha` and gives it the name `name`. Its
    /// sub-trees are loaded with it, each by the digest that its entry
    /// names, down to `depth` levels below this tree.
    pub fn new_from_object_file(store: &ObjectStore, sha: &[u8], name: &[u8], depth: usize) -> (out:
        Result<Tree, StoreError>)
        ensures
            match out {
                Ok(tree) => tree_loading(store@, sha@, name@, depth as nat) == Ok::<
                    TreeView,
                    StoreError,
                >(tree@),
                Err(e) => tree_loading(store@, sha@, name@, depth as nat) == Err::<
                    TreeView,
                    StoreError,
                >(e),
            },
        decreases depth, 1nat,
    {
        let buf = match store.get(sha) {
            None => {
                return Err(StoreError::NotFound);
            },
            Some(buf) => buf,
        };
        let mut header: Vec<u8> = Vec::new();
        header.extend_from_slice(&TREE);
        header.push(SPACE);
        proof {
            assert(header@ =~= tree_header());
        }
        let i: usize = find(buf.as_slice(), NUL);
        if !starts_with(buf.as_slice(), header.as_slice()) || i >= buf.len() {
            return Err(StoreError::Format);
        }
        let body = copy_range(buf.as_slice(), i + 1, buf.len());
        let chunks = split_on(body.as_slice(), NUL);
        let ghost all = views(chunks@);
        let mut entries: Vec<EntryType> = Vec::new();
        let mut k: usize = 0;
        proof {
            assert(all.skip(0) =~= all);
            assert(node_views(entries@) =~= Seq::<NodeView>::empty());
            assert(after(node_views(entries@), nodes_loading(store@, all, depth as nat))
                == nodes_loading(store@, all, depth as nat)) by {
                match nodes_loading(store@, all, depth as nat) {
                    Ok(more) => {
                        assert(node_views(entries@) + more =~= more);
                    },
                    Err(_) => {},
                }
            }
        }
        while k < chunks.len()
            invariant
                0 <= k <= chunks.len(),
                all == views(chunks@),
                store@.contains_key(sha@),
                has_prefix(store@[sha@], tree_header()),
                i == find_byte(store@[sha@], NUL),
                i < store@[sha@].len(),
                all == split(store@[sha@].skip(i + 1), NUL),
                nodes_loading(store@, all, depth as nat) == after(
                    node_views(entries@),
                    nodes_loading(store@, all.skip(k as int), depth as nat),
                ),
            decreases chunks.len() - k,
        {
            let chunk = &chunks[k];
            let ghost done = node_views(entries@);
            proof {
                assert(all.skip(k as int).drop_first() =~= all.skip(k + 1));
                assert(all.skip(k as int)[0] == chunk@);
            }
            if chunk.len() > 0 {
                match load_node(store, chunk.as_slice(), depth) {
                    Err(e) => {
                        return Err(e);
                    },
                    Ok(node) => {
                        entries.push(node);
                        proof {
                            assert(node_views(entries@) =~= done.push(node@));
                            match nodes_loading(store@, all.skip(k + 1), depth as nat) {
                                Ok(more) => {
                                    assert(done + (seq![node@] + more) =~= node_views(entries@)
                                        + more);
                                },
                                Err(_) => {},
                            }
                        }
                    },
                }
            }
            k += 1;
        }
        let tree = Tree { entries, name: copy_bytes(name) };
        proof {
            assert(all.skip(k as int) =~= Seq::<Seq<u8>>::empty());
            assert(node_views(tree.entries@) + Seq::<NodeView>::empty() =~= tree@.children);
        }
        Ok(tree)
    }
}

// ---------------------------------------------------------------------------
// Storing
// ---------------------------------------------------------------------------

/// The store after the first `n` children have been stored: each sub-tree
/// in turn, with all that is below it. Files are not stored with a tree:
/// their blobs are filed when they are staged.
pub open spec fn nodes_storing(
    objects: Map<Seq<u8>, Seq<u8>>,
    children: Seq<NodeView>,
    n: nat,
) -> Map<Seq<u8>, Seq<u8>>
    decreases children, n,
{
    if n == 0 || n > children.len() {
        objects
    } else {
        let before = nodes_storing(objects, children, (n - 1) as nat);
        match children[n - 1] {
            NodeView::Tree(t) => tree_storing(before, t),
            NodeView::Leaf(_) => before,
        }
    }
}

/// The store after a tree has been stored: first all its sub-trees, then
/// the tree itself, filed under its digest.
pub open spec fn tree_storing(objects: Map<Seq<u8>, Seq<u8>>, t: TreeView) -> Map<
    Seq<u8>,
    Seq<u8>,
>
    decreases t, 0nat,
{
    nodes_storing(objects, t.children, t.children.len()).insert(tree_digest(t), tree_encoding(t))
}

/// The order of filing after the first `n` children have been stored.
pub open spec fn nodes_order(keys: Seq<Seq<u8>>, children: Seq<NodeView>, n: nat) -> Seq<Seq<u8>>
    decreases children, n,
{
    if n == 0 || n > children.len() {
        keys
    } else {
        let before = nodes_order(keys, children, (n - 1) as nat);
        match children[n - 1] {
            NodeView::Tree(t) => tree_order(before, t),
            NodeView::Leaf(_) => before,
        }
    }
}

/// The order of filing after a tree has been stored: its sub-trees are
/// filed first, each with all below it, and the tree itself after them.
pub open spec fn tree_order(keys: Seq<Seq<u8>>, t: TreeView) -> Seq<Seq<u8>>
    decreases t, 0nat,
{
    filed_order(nodes_order(keys, t.children, t.children.len()), tree_digest(t))
}

/// Storing only adds to the order of filing: what was filed keeps its
/// place.
pub proof fn lemma_order_grows(keys: Seq<Seq<u8>>, t: TreeView)
    ensures
        keys.len() <= tree_order(keys, t).len(),
        tree_order(keys, t).take(keys.len() as int) == keys,
    decreases t, 1nat, 0nat,
{
    let below = nodes_order(keys, t.children, t.children.len());
    lemma_nodes_order_grows(keys, t, t.children.len());
    assert(tree_order(keys, t).take(keys.len() as int) =~= below.take(keys.len() as int));
}

proof fn lemma_nodes_order_grows(keys: Seq<Seq<u8>>, t: TreeView, n: nat)
    requires
        n <= t.children.len(),
    ensures
        keys.len() <= nodes_order(keys, t.children, n).len(),
        nodes_order(keys, t.children, n).take(keys.len() as int) == keys,
    decreases t, 0nat, n,
{
    if n == 0 {
        assert(keys.take(keys.len() as int) =~= keys);
    } else {
        lemma_nodes_order_grows(keys, t, (n - 1) as nat);
        let before = nodes_order(keys, t.children, (n - 1) as nat);
        match t.children[n - 1] {
            NodeView::Tree(c) => {
                lemma_order_grows(before, c);
                assert(tree_order(before, c).take(keys.len() as int) =~= tree_order(
                    before,
                    c,
                ).take(before.len() as int).take(keys.len() as int));
            },
            NodeView::Leaf(_) => {},
        }
    }
}

proof fn lemma_nodes_order_holds(keys: Seq<Seq<u8>>, t: TreeView, n: nat, i: int)
    requires
        0 <= i < n <= t.children.len(),
        t.children[i] is Tree,
    ensures
        nodes_order(keys, t.children, n).contains(tree_digest(t.children[i]->Tree_0)),
    decreases n,
{
    let before = nodes_order(keys, t.children, (n - 1) as nat);
    let after = nodes_order(keys, t.children, n);
    let wanted = tree_digest(t.children[i]->Tree_0);
    if i == n - 1 {
        let c = t.children[i]->Tree_0;
        let below = nodes_order(before, c.children, c.children.len());
        assert(t.children[n - 1] == NodeView::Tree(c));
        assert(after == filed_order(below, wanted));
        if !below.contains(wanted) {
            assert(below.push(wanted)[below.len() as int] == wanted);
        }
    } else {
        lemma_nodes_order_holds(keys, t, (n - 1) as nat, i);
        assert(before.contains(wanted));
        let at = choose|at: int| 0 <= at < before.len() && before[at] == wanted;
        match t.children[n - 1] {
            NodeView::Tree(c) => {
                lemma_order_grows(before, c);
                assert(after == tree_order(before, c));
                assert(after.take(before.len() as int)[at] == after[at]);
                assert(after[at] == wanted);
            },
            NodeView::Leaf(_) => {
                assert(after == before);
            },
        }
    }
}

/// When a tree is filed, every sub-tree directly under it has been filed:
/// the digest of each stands in the order of filing before the tree's own
/// digest is put there.
pub proof fn lemma_subtrees_filed_first(keys: Seq<Seq<u8>>, t: TreeView, i: int)
    requires
        0 <= i < t.children.len(),
        t.children[i] is Tree,
    ensures
        nodes_order(keys, t.children, t.children.len()).contains(
            tree_digest(t.children[i]->Tree_0),
        ),
        tree_order(keys, t) == filed_order(
            nodes_order(keys, t.children, t.children.len()),
            tree_digest(t),
        ),
{
    lemma_nodes_order_holds(keys, t, t.children.len(), i);
}

// ---------------------------------------------------------------------------
// Restoring
// ---------------------------------------------------------------------------

/// The directory that a tree is restored into: the destination itself for
/// the root, else the directory of the tree's name under the destination.
pub open spec fn directory_of(t: TreeView, dest: Seq<u8>) -> Seq<u8> {
    if t.name == ROOT@ {
        dest
    } else {
        dest + seq![SLASH] + t.name
    }
}

/// The steps that restore one child into the directory `dir`: a sub-tree
/// is restored under it; a file is written with the content of its blob,
/// which must load.
pub open spec fn node_restoring(objects: Map<Seq<u8>, Seq<u8>>, node: NodeView, dir: Seq<u8>)
    -> Result<Seq<StepView>, StoreError>
    decreases node, 0nat,
{
    match node {
        NodeView::Tree(t) => tree_restoring(objects, t, dir, true),
        NodeView::Leaf(l) => match blob_loading(objects, l.sha) {
            Ok(bytes) => Ok(
                seq![StepView::WriteFile { path: dir + seq![SLASH] + l.name, mode: l.mode, bytes }],
            ),
            Err(e) => Err(e),
        },
    }
}

/// The steps that restore the children from the `from`-th on, in order.
pub open spec fn nodes_restoring(
    objects: Map<Seq<u8>, Seq<u8>>,
    children: Seq<NodeView>,
    from: nat,
    dir: Seq<u8>,
) -> Result<Seq<StepView>, StoreError>
    decreases children, children.len() - from,
{
    if from >= children.len() {
        Ok(Seq::empty())
    } else {
        match node_restoring(objects, children[from as int], dir) {
            Ok(steps) => after(steps, nodes_restoring(objects, children, from + 1, dir)),
            Err(e) => Err(e),
        }
    }
}

/// The steps that restore a tree at `dest`. A tree named `ROOT` takes the
/// destination as its own directory, which must not be there yet. The
/// directory is created first, then the children are restored into it.
pub open spec fn tree_restoring(
    objects: Map<Seq<u8>, Seq<u8>>,
    t: TreeView,
    dest: Seq<u8>,
    dest_exists: bool,
) -> Result<Seq<StepView>, StoreError>
    decreases t, 0nat,
{
    if t.name == ROOT@ && dest_exists {
        Err(StoreError::AlreadyExists)
    } else {
        after(
            seq![StepView::CreateDir { path: directory_of(t, dest) }],
            nodes_restoring(objects, t.children, 0, directory_of(t, dest)),
        )
    }
}

/// Putting steps before a result twice is putting them all before it once.
proof fn lemma_after_after(
    a: Seq<StepView>,
    b: Seq<StepView>,
    rest: Result<Seq<StepView>, StoreError>,
)
    ensures
        after(a, after(b, rest)) == after(a + b, rest),
{
    match rest {
        Ok(more) => {
            assert(a + (b + more) =~= (a + b) + more);
        },
        Err(_) => {},
    }
}

impl Entry {
    /// The step that writes this file into the directory `dir`, with the
    /// content of its blob.
    pub fn restore(&self, store: &ObjectStore, dir: &[u8]) -> (out: Result<RestoreStep, StoreError>)
        ensures
            match out {
                Ok(step) => node_restoring(store@, NodeView::Leaf(self@), dir@) == Ok::<
                    Seq<StepView>,
                    StoreError,
                >(seq![step@]),
                Err(e) => node_restoring(store@, NodeView::Leaf(self@), dir@) == Err::<
                    Seq<StepView>,
                    StoreError,
                >(e),
            },
    {
        match Blob::new_from_object_file(store, self.sha.as_slice()) {
            Err(e) => Err(e),
            Ok(blob) => {
                let mut path = copy_bytes(dir);
                path.push(SLASH);
                path.extend_from_slice(self.file_name.as_slice());
                let step = RestoreStep::WriteFile {
                    path,
                    mode: self.mode,
                    bytes: copy_bytes(blob.bytes()),
                };
                proof {
                    assert(path@ =~= dir@ + seq![SLASH] + self@.name);
                }
                Ok(step)
            },
        }
    }
}

impl Tree {
    /// Files the tree and every sub-tree below it, the sub-trees first, so
    /// that no stored tree names a sub-tree that is not stored yet.
    pub fn store(&self, store: &mut ObjectStore) -> (sha: Vec<u8>)
        ensures
            sha@ == tree_digest(self@),
            final(store)@ == tree_storing(old(store)@, self@),
            final(store).order() == tree_order(old(store).order(), self@),
        decreases self,
    {
        let ghost start = store@;
        let ghost keys = store.order();
        let mut i: usize = 0;
        while i < self.entries.len()
            invariant
                0 <= i <= self.entries.len(),
                self@.children.len() == self.entries@.len(),
                store@ == nodes_storing(start, self@.children, i as nat),
                store.order() == nodes_order(keys, self@.children, i as nat),
            decreases self.entries.len() - i,
        {
            proof {
                assert(self@.children[i as int] == self.entries@[i as int]@);
            }
            match &self.entries[i] {
                EntryType::Tree(t) => {
                    t.store(store);
                },
                EntryType::Blob(_) => {},
            }
            i += 1;
        }
        let buf = self.serialize();
        store.put(buf.as_slice())
    }

    /// The steps that restore the tree at `path`, or the reason why it
    /// cannot be restored. `path_exists` says whether something is at
    /// `path` already.
    pub fn restore(&self, store: &ObjectStore, path: &[u8], path_exists: bool) -> (out: Result<
        Vec<RestoreStep>,
        StoreError,
    >)
        ensures
            match out {
                Ok(steps) => tree_restoring(store@, self@, path@, path_exists) == Ok::<
                    Seq<StepView>,
                    StoreError,
                >(step_views(steps@)),
                Err(e) => tree_restoring(store@, self@, path@, path_exists) == Err::<
                    Seq<StepView>,
                    StoreError,
                >(e),
            },
        decreases self,
    {
        let is_root = same_bytes(self.name.as_slice(), &ROOT);
        if path_exists && is_root {
            return Err(StoreError::AlreadyExists);
        }
        let mut dir = copy_bytes(path);
        if !is_root {
            dir.push(SLASH);
            dir.extend_from_slice(self.name.as_slice());
        }
        proof {
            assert(dir@ =~= directory_of(self@, path@));
        }
        let mut plan: Vec<RestoreStep> = Vec::new();
        plan.push(RestoreStep::CreateDir { path: copy_bytes(dir.as_slice()) });
        proof {
            assert(step_views(plan@) =~= seq![StepView::CreateDir { path: dir@ }]);
        }
        let mut i: usize = 0;
        while i < self.entries.len()
            invariant
                0 <= i <= self.entries.len(),
                self@.children.len() == self.entries@.len(),
                dir@ == directory_of(self@, path@),
                !(self@.name == ROOT@ && path_exists),
                tree_restoring(store@, self@, path@, path_exists) == after(
                    step_views(plan@),
                    nodes_restoring(store@, self@.children, i as nat, dir@),
                ),
            decreases self.entries.len() - i,
        {
            let ghost done = step_views(plan@);
            let ghost rest = nodes_restoring(store@, self@.children, (i + 1) as nat, dir@);
            proof {
                assert(self@.children[i as int] == self.entries@[i as int]@);
            }
            match &self.entries[i] {
                EntryType::Tree(t) => {
                    proof {
                        assert(self@.children[i as int] == NodeView::Tree(t@));
                        assert(node_restoring(store@, NodeView::Tree(t@), dir@) == tree_restoring(
                            store@,
                            t@,
                            dir@,
                            true,
                        ));
                    }
                    match t.restore(store, dir.as_slice(), true) {
                        Err(e) => {
                            return Err(e);
                        },
                        Ok(steps) => {
                            let mut steps = steps;
                            let ghost added = step_views(steps@);
                            plan.append(&mut steps);
                            proof {
                                assert(step_views(plan@) =~= done + added);
                                lemma_after_after(done, added, rest);
                            }
                        },
                    }
                },
                EntryType::Blob(e) => {
                    proof {
                        assert(self@.children[i as int] == NodeView::Leaf(e@));
                    }
                    match e.restore(store, dir.as_slice()) {
                        Err(e) => {
                            return Err(e);
                        },
                        Ok(step) => {
                            plan.push(step);
                            proof {
                                assert(step_views(plan@) =~= done + seq![step@]);
                                lemma_after_after(done, seq![step@], rest);
                            }
                        },
                    }
                },
            }
            i += 1;
        }
        proof {
            assert(step_views(plan@) + Seq::<StepView>::empty() =~= step_views(plan@));
        }
        Ok(plan)
    }
}

// ---------------------------------------------------------------------------
// Listing names and digests
// ---------------------------------------------------------------------------

/// A name with the digest that it stands for.
#[derive(Debug)]
pub struct NamedSha {
    pub name: Vec<u8>,
    pub sha: Vec<u8>,
}

/// What a named digest says, as plain values.
pub struct NamedShaView {
    pub name: Seq<u8>,
    pub sha: Seq<u8>,
}

impl View for NamedSha {
    type V = NamedShaView;

    open spec fn view(&self) -> NamedShaView {
        NamedShaView { name: self.name@, sha: self.sha@ }
    }
}

/// The views of a list of named digests.
pub open spec fn named_views(lines: Seq<NamedSha>) -> Seq<NamedShaView> {
    lines.map_values(|l: NamedSha| l@)
}

/// The names and digests of the children from the `from`-th on, each
/// sub-tree followed by all that is below it.
pub open spec fn shas_from(children: Seq<NodeView>, from: nat) -> Seq<NamedShaView>
    decreases children, children.len() - from,
{
    if from >= children.len() {
        Seq::empty()
    } else {
        (match children[from as int] {
            NodeView::Tree(t) => shas_of(t),
            NodeView::Leaf(l) => seq![NamedShaView { name: l.name, sha: l.sha }],
        }) + shas_from(children, from + 1)
    }
}

/// The name and digest of a tree, followed by those of all that is below
/// it, depth first.
pub open spec fn shas_of(t: TreeView) -> Seq<NamedShaView>
    decreases t, 0nat,
{
    seq![NamedShaView { name: t.name, sha: tree_digest(t) }] + shas_from(t.children, 0)
}

impl Tree {
    /// The lines that show the tree: its name and digest, then those of
    /// all that is below it, depth first.
    pub fn print_shas(&self) -> (out: Vec<NamedSha>)
        ensures
            named_views(out@) == shas_of(self@),
        decreases self,
    {
        let mut out: Vec<NamedSha> = Vec::new();
        out.push(NamedSha { name: copy_bytes(self.name.as_slice()), sha: self.sha() });
        let ghost first = named_views(out@);
        proof {
            assert(first =~= seq![NamedShaView { name: self@.name, sha: tree_digest(self@) }]);
            assert(shas_from(self@.children, self@.children.len()) =~= Seq::<
                NamedShaView,
            >::empty());
        }
        let mut i: usize = self.entries.len();
        let mut below: Vec<NamedSha> = Vec::new();
        proof {
            assert(named_views(below@) =~= Seq::<NamedShaView>::empty());
        }
        while i > 0
            invariant
                0 <= i <= self.entries.len(),
                self@.children.len() == self.entries@.len(),
                named_views(below@) == shas_from(self@.children, i as nat),
            decreases i,
        {
            i -= 1;
            proof {
                assert(self@.children[i as int] == self.entries@[i as int]@);
            }
            let ghost rest = named_views(below@);
            let mut here: Vec<NamedSha> = match &self.entries[i] {
                EntryType::Tree(t) => {
                    proof {
                        assert(self@.children[i as int] == NodeView::Tree(t@));
                    }
                    t.print_shas()
                },
                EntryType::Blob(e) => {
                    proof {
                        assert(self@.children[i as int] == NodeView::Leaf(e@));
                    }
                    let mut one: Vec<NamedSha> = Vec::new();
                    one.push(
                        NamedSha {
                            name: copy_bytes(e.file_name.as_slice()),
                            sha: copy_bytes(e.sha.as_slice()),
                        },
                    );
                    proof {
                        assert(named_views(one@) =~= seq![
                            NamedShaView { name: e@.name, sha: e@.sha },
                        ]);
                    }
                    one
                },
            };
            let ghost head = named_views(here@);
            here.append(&mut below);
            below = here;
            proof {
                assert(named_views(below@) =~= head + rest);
            }
        }
        let ghost rest = named_views(below@);
        out.append(&mut below);
        proof {
            assert(named_views(out@) =~= first + rest);
        }
        out
    }
}

} // verus!
