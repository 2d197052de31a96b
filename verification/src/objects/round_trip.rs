//! Why a tree that is in the store loads back as the same tree.

use crate::digest::{is_digest, is_hex_digit};
use crate::error::StoreError;
use crate::identifiers::{BLOB, NUL, ROOT, SPACE, TREE};
use crate::objects::commit::{
    commit_decoding, commit_digest, commit_encoding, commit_loading, fields_of, history,
    lemma_commit_round_trip, CommitFieldsView, CommitView,
};
use crate::objects::listing::{
    in_order, lemma_in_order_is, lemma_line_order_total, line_order, texts, LineView,
};
use crate::objects::order::lemma_lines_of_concat;
use crate::objects::tree::{
    entry_text, line_of, lines_of, node_loading, nodes_loading, nodes_storing, tree_body,
    tree_digest, tree_encoding, tree_header, tree_loading, tree_storing, LeafView, NodeView,
    TreeView, TREE_MODE,
};
use crate::text::{
    all_free_of, decimal, find_byte, free_of, is_digit, join, lemma_decimal_is_decimal,
    lemma_decimal_value, lemma_find_byte_is, lemma_split_join, parse_u32, split,
};
use vstd::prelude::*;
use vstd::relations::sorted_by;
use vstd::seq_lib::to_multiset_contains;

verus! {

/// The bytes hold neither of the two separators of a listing.
pub open spec fn plain(s: Seq<u8>) -> bool {
    free_of(s, SPACE) && free_of(s, NUL)
}

/// The child can be listed and found again: its name holds no separator;
/// a file's digest holds none either; a sub-tree is in the store, one level
/// further down.
pub open spec fn node_loadable(objects: Map<Seq<u8>, Seq<u8>>, node: NodeView, depth: nat) -> bool
    decreases node, 0nat,
{
    match node {
        NodeView::Leaf(l) => plain(l.name) && plain(l.sha),
        NodeView::Tree(c) => depth > 0 && plain(c.name) && tree_loadable(
            objects,
            c,
            (depth - 1) as nat,
        ),
    }
}

/// The store holds the tree: its encoding is filed under its digest, which
/// has the shape of a digest, and the same holds of every sub-tree below
/// it, down to at most `depth` levels.
pub open spec fn tree_loadable(objects: Map<Seq<u8>, Seq<u8>>, t: TreeView, depth: nat) -> bool
    decreases t, 1nat,
{
    &&& objects.contains_key(tree_digest(t))
    &&& objects[tree_digest(t)] == tree_encoding(t)
    &&& is_digest(tree_digest(t))
    &&& forall|i: int|
        0 <= i < t.children.len() ==> node_loadable(objects, #[trigger] t.children[i], depth)
}

proof fn lemma_digest_is_plain(sha: Seq<u8>)
    requires
        is_digest(sha),
    ensures
        plain(sha),
{
    assert forall|j: int| 0 <= j < sha.len() implies #[trigger] sha[j] != SPACE && sha[j]
        != NUL by {
        assert(is_hex_digit(sha[j]));
    }
}

proof fn lemma_decimal_is_plain(n: nat)
    ensures
        plain(decimal(n)),
        decimal(n).len() > 0,
{
    lemma_decimal_is_decimal(n);
    let d = decimal(n);
    assert forall|j: int| 0 <= j < d.len() implies #[trigger] d[j] != SPACE && d[j] != NUL by {
        assert(is_digit(d[j]));
    }
}

/// An encoded entry splits into its four fields again, provided that no
/// field holds a space.
pub proof fn lemma_entry_fields(tag: Seq<u8>, mode: u32, name: Seq<u8>, sha: Seq<u8>)
    requires
        plain(tag),
        plain(name),
        plain(sha),
    ensures
        split(entry_text(tag, mode, name, sha), SPACE) == seq![
            tag,
            decimal(mode as nat),
            name,
            sha,
        ],
        free_of(entry_text(tag, mode, name, sha), NUL),
{
    let digits = decimal(mode as nat);
    lemma_decimal_is_plain(mode as nat);
    let parts = seq![tag, digits, name, sha];
    let text = entry_text(tag, mode, name, sha);
    assert(all_free_of(parts, SPACE));
    lemma_split_join(parts, SPACE);
    let tail_a = parts.drop_first();
    let tail_b = tail_a.drop_first();
    let tail_c = tail_b.drop_first();
    assert(tail_a =~= seq![digits, name, sha]);
    assert(tail_b =~= seq![name, sha]);
    assert(tail_c =~= seq![sha]);
    assert(join(tail_c, SPACE) == sha);
    assert(join(tail_b, SPACE) == name + seq![SPACE] + sha);
    assert(join(tail_a, SPACE) == digits + seq![SPACE] + join(tail_b, SPACE));
    assert(join(parts, SPACE) =~= text);
    assert forall|j: int| 0 <= j < text.len() implies #[trigger] text[j] != NUL by {
        let a = tag.len() as int;
        let b = a + 1 + digits.len();
        let c = b + 1 + name.len();
        if j < a {
            assert(text[j] == tag[j]);
        } else if j == a {
        } else if j < b {
            assert(text[j] == digits[j - a - 1]);
        } else if j == b {
        } else if j < c {
            assert(text[j] == name[j - b - 1]);
        } else if j == c {
        } else {
            assert(text[j] == sha[j - c - 1]);
        }
    }
}

proof fn lemma_tags_are_plain()
    ensures
        plain(BLOB@),
        plain(TREE@),
        BLOB@ != TREE@,
{
    assert(BLOB@[0] != TREE@[0]);
}

/// The line of a child that can be listed holds no NUL and is not empty.
proof fn lemma_line_text(objects: Map<Seq<u8>, Seq<u8>>, node: NodeView, depth: nat)
    requires
        node_loadable(objects, node, depth),
    ensures
        free_of(line_of(node).text, NUL),
        line_of(node).text.len() > 0,
{
    lemma_tags_are_plain();
    match node {
        NodeView::Leaf(l) => {
            lemma_entry_fields(BLOB@, l.mode, l.name, l.sha);
        },
        NodeView::Tree(c) => {
            lemma_digest_is_plain(tree_digest(c));
            lemma_entry_fields(TREE@, TREE_MODE, c.name, tree_digest(c));
        },
    }
}

/// In an encoded tree the first NUL ends the header, and the listing
/// follows it.
proof fn lemma_tree_header(t: TreeView)
    ensures
        0 <= find_byte(tree_encoding(t), NUL) < tree_encoding(t).len(),
        tree_encoding(t).skip(find_byte(tree_encoding(t), NUL) + 1) == tree_body(t),
        tree_encoding(t).take(5) == tree_header(),
{
    let body = tree_body(t);
    let digits = decimal(body.len());
    let buf = tree_encoding(t);
    let i = 5 + digits.len() as int;
    lemma_decimal_is_plain(body.len());
    assert forall|j: int| 0 <= j < i implies #[trigger] buf[j] != NUL by {
        if j >= 5 {
            assert(buf[j] == digits[j - 5]);
        }
    }
    assert(buf[i] == NUL);
    lemma_find_byte_is(buf, NUL, i);
    assert(buf.take(5) =~= tree_header());
    assert(buf.skip(i + 1) =~= body);
}

/// The line of a file entry loads back as that file entry.
proof fn lemma_leaf_round_trip(objects: Map<Seq<u8>, Seq<u8>>, l: LeafView, depth: nat)
    requires
        plain(l.name),
        plain(l.sha),
    ensures
        node_loading(objects, entry_text(BLOB@, l.mode, l.name, l.sha), depth) == Ok::<
            NodeView,
            StoreError,
        >(NodeView::Leaf(l)),
{
    let text = entry_text(BLOB@, l.mode, l.name, l.sha);
    let parts = split(text, SPACE);
    assert(parts == seq![BLOB@, decimal(l.mode as nat), l.name, l.sha]) by {
        lemma_tags_are_plain();
        lemma_entry_fields(BLOB@, l.mode, l.name, l.sha);
    }
    assert(parts[0] != TREE@) by {
        lemma_tags_are_plain();
    }
    assert(parse_u32(parts[1]) == Some(l.mode)) by {
        lemma_decimal_is_decimal(l.mode as nat);
        lemma_decimal_value(l.mode as nat);
    }
    assert(parts.len() == 4 && parts[0] == BLOB@ && parts[2] == l.name && parts[3] == l.sha);
}

/// The line of a sub-tree asks for the tree filed under the sub-tree's
/// digest, one level further down, under the sub-tree's name.
proof fn lemma_subtree_line_asks(
    objects: Map<Seq<u8>, Seq<u8>>,
    name: Seq<u8>,
    sha: Seq<u8>,
    depth: nat,
)
    requires
        plain(name),
        is_digest(sha),
        depth > 0,
    ensures
        node_loading(objects, entry_text(TREE@, TREE_MODE, name, sha), depth) == match tree_loading(
            objects,
            sha,
            name,
            (depth - 1) as nat,
        ) {
            Ok(t) => Ok::<NodeView, StoreError>(NodeView::Tree(t)),
            Err(e) => Err::<NodeView, StoreError>(e),
        },
{
    let text = entry_text(TREE@, TREE_MODE, name, sha);
    let parts = split(text, SPACE);
    assert(parts == seq![TREE@, decimal(TREE_MODE as nat), name, sha]) by {
        lemma_tags_are_plain();
        lemma_digest_is_plain(sha);
        lemma_entry_fields(TREE@, TREE_MODE, name, sha);
    }
    assert(parts.len() == 4 && parts[0] == TREE@ && parts[2] == name && parts[3] == sha);
}

/// The line of a child loads back as a child with the same line.
proof fn lemma_node_round_trip(objects: Map<Seq<u8>, Seq<u8>>, node: NodeView, depth: nat)
    requires
        node_loadable(objects, node, depth),
    ensures
        node_loading(objects, line_of(node).text, depth).is_ok(),
        line_of(node_loading(objects, line_of(node).text, depth)->Ok_0) == line_of(node),
    decreases node, 0nat, 0nat,
{
    match node {
        NodeView::Leaf(l) => {
            lemma_leaf_round_trip(objects, l, depth);
        },
        NodeView::Tree(c) => {
            lemma_subtree_line_asks(objects, c.name, tree_digest(c), depth);
            lemma_tree_round_trip(objects, c, (depth - 1) as nat);
        },
    }
}

/// The entries of a listing load back as children with the same lines,
/// provided that each line is the line of a child of a tree that the
/// store holds.
proof fn lemma_nodes_round_trip(
    objects: Map<Seq<u8>, Seq<u8>>,
    t: TreeView,
    lines: Seq<LineView>,
    depth: nat,
)
    requires
        tree_loadable(objects, t, depth),
        forall|k: int| 0 <= k < lines.len() ==> lines_of(t.children).contains(#[trigger] lines[k]),
    ensures
        nodes_loading(objects, texts(lines), depth).is_ok(),
        lines_of(nodes_loading(objects, texts(lines), depth)->Ok_0) == lines,
    decreases t, 0nat, lines.len(),
{
    let chunks = texts(lines);
    if lines.len() == 0 {
        assert(lines_of(Seq::<NodeView>::empty()) =~= lines);
    } else {
        let first = lines[0];
        assert(lines_of(t.children).contains(first));
        let j = choose|j: int|
            0 <= j < lines_of(t.children).len() && lines_of(t.children)[j] == first;
        let node = t.children[j];
        assert(node_loadable(objects, node, depth));
        assert(line_of(node) == first);
        lemma_line_text(objects, node, depth);
        lemma_node_round_trip(objects, node, depth);
        assert(chunks[0] == first.text);
        let loaded = node_loading(objects, chunks[0], depth)->Ok_0;
        let rest = lines.drop_first();
        assert(chunks.drop_first() =~= texts(rest));
        assert forall|k: int| 0 <= k < rest.len() implies lines_of(t.children).contains(
            #[trigger] rest[k],
        ) by {
            assert(rest[k] == lines[k + 1]);
        }
        lemma_nodes_round_trip(objects, t, rest, depth);
        let more = nodes_loading(objects, texts(rest), depth)->Ok_0;
        assert(nodes_loading(objects, chunks, depth) == Ok::<Seq<NodeView>, StoreError>(
            seq![loaded] + more,
        ));
        lemma_lines_of_concat(seq![loaded], more);
        assert(lines_of(seq![loaded]) =~= seq![first]);
        assert(seq![first] + rest =~= lines);
    }
}

/// A tree that the store holds loads back observably equal: under the
/// name that was asked for, with the same encoding and so the same
/// digest, its children listed with the same lines, in canonical order.
pub proof fn lemma_tree_round_trip(objects: Map<Seq<u8>, Seq<u8>>, t: TreeView, depth: nat)
    requires
        tree_loadable(objects, t, depth),
    ensures
        tree_loading(objects, tree_digest(t), t.name, depth).is_ok(),
        (tree_loading(objects, tree_digest(t), t.name, depth)->Ok_0).name == t.name,
        lines_of((tree_loading(objects, tree_digest(t), t.name, depth)->Ok_0).children)
            == in_order(lines_of(t.children).to_multiset()),
        tree_encoding(tree_loading(objects, tree_digest(t), t.name, depth)->Ok_0) == tree_encoding(
            t,
        ),
        tree_digest(tree_loading(objects, tree_digest(t), t.name, depth)->Ok_0) == tree_digest(t),
    decreases t, 1nat, 0nat,
{
    let listed = lines_of(t.children);
    let sorted = in_order(listed.to_multiset());
    lemma_line_order_total();
    listed.lemma_sort_by_ensures(line_order());
    assert(sorted_by(sorted, line_order()) && sorted.to_multiset() == listed.to_multiset());
    assert forall|k: int| 0 <= k < sorted.len() implies listed.contains(#[trigger] sorted[k]) by {
        assert(sorted.contains(sorted[k]));
        to_multiset_contains(sorted, sorted[k]);
        to_multiset_contains(listed, sorted[k]);
    }
    lemma_tree_header(t);
    lemma_nodes_round_trip(objects, t, sorted, depth);
    let chunks = texts(sorted);
    let body = tree_body(t);
    if sorted.len() == 0 {
        assert(chunks =~= Seq::<Seq<u8>>::empty());
        assert(body =~= Seq::<u8>::empty());
        assert(split(body, NUL) =~= seq![Seq::<u8>::empty()]);
        assert(split(body, NUL).drop_first() =~= Seq::<Seq<u8>>::empty());
        assert(nodes_loading(objects, split(body, NUL), depth) == Ok::<
            Seq<NodeView>,
            StoreError,
        >(Seq::empty()));
    } else {
        assert forall|k: int| 0 <= k < chunks.len() implies free_of(#[trigger] chunks[k], NUL) by {
            assert(listed.contains(sorted[k]));
            let j = choose|j: int| 0 <= j < listed.len() && listed[j] == sorted[k];
            assert(node_loadable(objects, t.children[j], depth));
            lemma_line_text(objects, t.children[j], depth);
        }
        lemma_split_join(chunks, NUL);
    }
    let loaded = tree_loading(objects, tree_digest(t), t.name, depth)->Ok_0;
    assert(lines_of(loaded.children) == sorted);
    lemma_in_order_is(sorted);
}

/// The store holds the commit: its encoding is filed under its digest, its
/// tree is in the store, and so is every commit before it, each under a
/// digest of the right shape, at most `reach` of them.
pub open spec fn commit_loadable(
    objects: Map<Seq<u8>, Seq<u8>>,
    c: CommitView,
    depth: nat,
    reach: nat,
) -> bool
    decreases c,
{
    &&& objects.contains_key(commit_digest(c))
    &&& objects[commit_digest(c)] == commit_encoding(c)
    &&& tree_loadable(objects, c.tree, depth)
    &&& match c.parent {
        None => true,
        Some(p) => reach > 0 && is_digest(commit_digest(*p)) && commit_loadable(
            objects,
            *p,
            depth,
            (reach - 1) as nat,
        ),
    }
}

/// The name that a tree is loaded under is the name it gets, and changes
/// nothing else.
proof fn lemma_loaded_name(
    objects: Map<Seq<u8>, Seq<u8>>,
    sha: Seq<u8>,
    a: Seq<u8>,
    b: Seq<u8>,
    depth: nat,
)
    ensures
        match tree_loading(objects, sha, a, depth) {
            Ok(t) => tree_loading(objects, sha, b, depth) == Ok::<TreeView, StoreError>(
                TreeView { name: b, children: t.children },
            ),
            Err(e) => tree_loading(objects, sha, b, depth) == Err::<TreeView, StoreError>(e),
        },
{
}

/// A commit that the store holds loads back observably equal: with the
/// same message, the same encoding and so the same digest, and the same
/// history.
pub proof fn lemma_commit_loads_back(
    objects: Map<Seq<u8>, Seq<u8>>,
    c: CommitView,
    depth: nat,
    reach: nat,
)
    requires
        commit_loadable(objects, c, depth, reach),
    ensures
        commit_loading(objects, commit_digest(c), depth, reach).is_ok(),
        (commit_loading(objects, commit_digest(c), depth, reach)->Ok_0).message == c.message,
        commit_encoding(commit_loading(objects, commit_digest(c), depth, reach)->Ok_0)
            == commit_encoding(c),
        commit_digest(commit_loading(objects, commit_digest(c), depth, reach)->Ok_0)
            == commit_digest(c),
        history(commit_loading(objects, commit_digest(c), depth, reach)->Ok_0) == history(c),
    decreases c,
{
    let sha = commit_digest(c);
    let fields = fields_of(c);
    assert(commit_decoding(objects[sha]) == Ok::<CommitFieldsView, StoreError>(fields)) by {
        lemma_commit_round_trip(fields);
    }
    let tree = tree_loading(objects, fields.tree, ROOT@, depth);
    assert(tree.is_ok() && tree_digest(tree->Ok_0) == tree_digest(c.tree)) by {
        lemma_tree_round_trip(objects, c.tree, depth);
        lemma_loaded_name(objects, tree_digest(c.tree), c.tree.name, ROOT@, depth);
        let named = tree_loading(objects, tree_digest(c.tree), c.tree.name, depth)->Ok_0;
        assert((tree->Ok_0).children == named.children);
        assert(tree_body(tree->Ok_0) == tree_body(named));
    }
    match c.parent {
        None => {
            let loaded = CommitView { tree: tree->Ok_0, parent: None, message: c.message };
            assert(commit_loading(objects, sha, depth, reach) == Ok::<CommitView, StoreError>(
                loaded,
            ));
            assert(fields_of(loaded) == fields);
        },
        Some(p) => {
            lemma_commit_loads_back(objects, *p, depth, (reach - 1) as nat);
            let before = commit_loading(objects, commit_digest(*p), depth, (reach - 1) as nat);
            let loaded = CommitView {
                tree: tree->Ok_0,
                parent: Some(Box::new(before->Ok_0)),
                message: c.message,
            };
            assert(commit_loading(objects, sha, depth, reach) == Ok::<CommitView, StoreError>(
                loaded,
            ));
            assert(fields_of(loaded) == fields);
        },
    }
}

// ---------------------------------------------------------------------------
// From storing to loading
// ---------------------------------------------------------------------------

/// The encoding of the tree is filed under its digest.
pub open spec fn holds(objects: Map<Seq<u8>, Seq<u8>>, x: TreeView) -> bool {
    objects.contains_key(tree_digest(x)) && objects[tree_digest(x)] == tree_encoding(x)
}

/// The store holds the tree and every sub-tree below it.
pub open spec fn holds_all(objects: Map<Seq<u8>, Seq<u8>>, t: TreeView) -> bool
    decreases t,
{
    &&& holds(objects, t)
    &&& forall|i: int|
        0 <= i < t.children.len() ==> match #[trigger] t.children[i] {
            NodeView::Tree(c) => holds_all(objects, c),
            NodeView::Leaf(_) => true,
        }
}

/// What a tree must be like to be listed and found again, whatever the
/// store: names and file digests hold no separator, the digests of the
/// tree and of the sub-trees below it have the shape of a digest, and the
/// sub-trees go at most `depth` levels down.
pub open spec fn well_shaped(t: TreeView, depth: nat) -> bool
    decreases t,
{
    &&& is_digest(tree_digest(t))
    &&& forall|i: int|
        0 <= i < t.children.len() ==> match #[trigger] t.children[i] {
            NodeView::Tree(c) => depth > 0 && plain(c.name) && well_shaped(c, (depth - 1) as nat),
            NodeView::Leaf(l) => plain(l.name) && plain(l.sha),
        }
}

/// `x` does not collide with `u` or any sub-tree below `u`: where the
/// digests are equal, so are the encodings.
pub open spec fn agrees_with(x: TreeView, u: TreeView) -> bool
    decreases u,
{
    &&& tree_digest(x) == tree_digest(u) ==> tree_encoding(x) == tree_encoding(u)
    &&& forall|i: int|
        0 <= i < u.children.len() ==> match #[trigger] u.children[i] {
            NodeView::Tree(c) => agrees_with(x, c),
            NodeView::Leaf(_) => true,
        }
}

/// Neither `t` nor any sub-tree below it collides with `u` or any sub-tree
/// below `u`.
pub open spec fn all_agree_with(t: TreeView, u: TreeView) -> bool
    decreases t,
{
    &&& agrees_with(t, u)
    &&& forall|i: int|
        0 <= i < t.children.len() ==> match #[trigger] t.children[i] {
            NodeView::Tree(c) => all_agree_with(c, u),
            NodeView::Leaf(_) => true,
        }
}

/// No two of the trees that make up `t` collide.
pub open spec fn collision_free(t: TreeView) -> bool {
    all_agree_with(t, t)
}

proof fn lemma_agrees_below(t: TreeView, u: TreeView, k: int)
    requires
        all_agree_with(t, u),
        0 <= k < u.children.len(),
        u.children[k] is Tree,
    ensures
        all_agree_with(t, u.children[k]->Tree_0),
    decreases t,
{
    let below = u.children[k]->Tree_0;
    assert(agrees_with(t, below));
    assert forall|i: int| 0 <= i < t.children.len() implies match #[trigger] t.children[i] {
        NodeView::Tree(c) => all_agree_with(c, below),
        NodeView::Leaf(_) => true,
    } by {
        match t.children[i] {
            NodeView::Tree(c) => {
                lemma_agrees_below(c, u, k);
            },
            NodeView::Leaf(_) => {},
        }
    }
}

proof fn lemma_storing_keeps_one(objects: Map<Seq<u8>, Seq<u8>>, x: TreeView, u: TreeView)
    requires
        holds(objects, x),
        agrees_with(x, u),
    ensures
        holds(tree_storing(objects, u), x),
    decreases u, 1nat,
{
    lemma_storing_nodes_keeps_one(objects, x, u, u.children.len());
}

proof fn lemma_storing_nodes_keeps_one(
    objects: Map<Seq<u8>, Seq<u8>>,
    x: TreeView,
    u: TreeView,
    n: nat,
)
    requires
        holds(objects, x),
        agrees_with(x, u),
        n <= u.children.len(),
    ensures
        holds(nodes_storing(objects, u.children, n), x),
    decreases u, 0nat, n,
{
    if n > 0 {
        lemma_storing_nodes_keeps_one(objects, x, u, (n - 1) as nat);
        match u.children[n - 1] {
            NodeView::Tree(c) => {
                lemma_storing_keeps_one(
                    nodes_storing(objects, u.children, (n - 1) as nat),
                    x,
                    c,
                );
            },
            NodeView::Leaf(_) => {},
        }
    }
}

proof fn lemma_storing_keeps_all(objects: Map<Seq<u8>, Seq<u8>>, t: TreeView, u: TreeView)
    requires
        holds_all(objects, t),
        all_agree_with(t, u),
    ensures
        holds_all(tree_storing(objects, u), t),
    decreases t,
{
    lemma_storing_keeps_one(objects, t, u);
    let after = tree_storing(objects, u);
    assert forall|i: int| 0 <= i < t.children.len() implies match #[trigger] t.children[i] {
        NodeView::Tree(c) => holds_all(after, c),
        NodeView::Leaf(_) => true,
    } by {
        match t.children[i] {
            NodeView::Tree(c) => {
                lemma_storing_keeps_all(objects, c, u);
            },
            NodeView::Leaf(_) => {},
        }
    }
}

/// Filing `u` itself keeps what the store holds of `t`.
proof fn lemma_filing_keeps_all(objects: Map<Seq<u8>, Seq<u8>>, t: TreeView, u: TreeView)
    requires
        holds_all(objects, t),
        all_agree_with(t, u),
    ensures
        holds_all(objects.insert(tree_digest(u), tree_encoding(u)), t),
    decreases t,
{
    let after = objects.insert(tree_digest(u), tree_encoding(u));
    assert forall|i: int| 0 <= i < t.children.len() implies match #[trigger] t.children[i] {
        NodeView::Tree(c) => holds_all(after, c),
        NodeView::Leaf(_) => true,
    } by {
        match t.children[i] {
            NodeView::Tree(c) => {
                lemma_filing_keeps_all(objects, c, u);
            },
            NodeView::Leaf(_) => {},
        }
    }
}

/// After the first `n` children of a tree are stored, the store holds
/// each sub-tree among them, provided that no two trees collide.
proof fn lemma_stored_children(objects: Map<Seq<u8>, Seq<u8>>, t: TreeView, n: nat)
    requires
        collision_free(t),
        n <= t.children.len(),
    ensures
        forall|i: int|
            0 <= i < n ==> match #[trigger] t.children[i] {
                NodeView::Tree(c) => holds_all(nodes_storing(objects, t.children, n), c),
                NodeView::Leaf(_) => true,
            },
    decreases t, 0nat, n,
{
    if n > 0 {
        lemma_stored_children(objects, t, (n - 1) as nat);
        let before = nodes_storing(objects, t.children, (n - 1) as nat);
        let after = nodes_storing(objects, t.children, n);
        match t.children[n - 1] {
            NodeView::Tree(last) => {
                assert(all_agree_with(last, t));
                lemma_agrees_below(last, t, n - 1);
                lemma_stored_tree(before, last);
                assert forall|i: int| 0 <= i < n implies match #[trigger] t.children[i] {
                    NodeView::Tree(c) => holds_all(after, c),
                    NodeView::Leaf(_) => true,
                } by {
                    match t.children[i] {
                        NodeView::Tree(c) => {
                            if i < n - 1 {
                                assert(all_agree_with(c, t));
                                lemma_agrees_below(c, t, n - 1);
                                lemma_storing_keeps_all(before, c, last);
                            }
                        },
                        NodeView::Leaf(_) => {},
                    }
                }
            },
            NodeView::Leaf(_) => {},
        }
    }
}

/// After a tree is stored, the store holds it and every sub-tree below
/// it, provided that no two of them collide.
pub proof fn lemma_stored_tree(objects: Map<Seq<u8>, Seq<u8>>, t: TreeView)
    requires
        collision_free(t),
    ensures
        holds_all(tree_storing(objects, t), t),
    decreases t, 1nat, 0nat,
{
    let before = nodes_storing(objects, t.children, t.children.len());
    let after = tree_storing(objects, t);
    lemma_stored_children(objects, t, t.children.len());
    assert forall|i: int| 0 <= i < t.children.len() implies match #[trigger] t.children[i] {
        NodeView::Tree(c) => holds_all(after, c),
        NodeView::Leaf(_) => true,
    } by {
        match t.children[i] {
            NodeView::Tree(c) => {
                assert(all_agree_with(c, t));
                lemma_filing_keeps_all(before, c, t);
            },
            NodeView::Leaf(_) => {},
        }
    }
}

/// A well-shaped tree that the store holds with all below it can be
/// loaded.
pub proof fn lemma_held_is_loadable(objects: Map<Seq<u8>, Seq<u8>>, t: TreeView, depth: nat)
    requires
        holds_all(objects, t),
        well_shaped(t, depth),
    ensures
        tree_loadable(objects, t, depth),
    decreases t,
{
    assert forall|i: int| 0 <= i < t.children.len() implies node_loadable(
        objects,
        #[trigger] t.children[i],
        depth,
    ) by {
        match t.children[i] {
            NodeView::Tree(c) => {
                lemma_held_is_loadable(objects, c, (depth - 1) as nat);
            },
            NodeView::Leaf(_) => {},
        }
    }
}

/// Storing a tree and loading it by its digest gives a tree that is
/// observably equal: the same name, the same encoding and digest, the
/// same lines in canonical order. This holds of every well-shaped tree in
/// which no two trees collide.
pub proof fn lemma_store_then_load(objects: Map<Seq<u8>, Seq<u8>>, t: TreeView, depth: nat)
    requires
        well_shaped(t, depth),
        collision_free(t),
    ensures
        tree_loading(tree_storing(objects, t), tree_digest(t), t.name, depth).is_ok(),
        (tree_loading(tree_storing(objects, t), tree_digest(t), t.name, depth)->Ok_0).name
            == t.name,
        tree_encoding(tree_loading(tree_storing(objects, t), tree_digest(t), t.name, depth)->Ok_0)
            == tree_encoding(t),
        lines_of(
            (tree_loading(tree_storing(objects, t), tree_digest(t), t.name, depth)->Ok_0).children,
        ) == in_order(lines_of(t.children).to_multiset()),
{
    lemma_stored_tree(objects, t);
    lemma_held_is_loadable(tree_storing(objects, t), t, depth);
    lemma_tree_round_trip(tree_storing(objects, t), t, depth);
}

} // verus!
