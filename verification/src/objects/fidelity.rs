//! Why restoring a tree and staging the restored files again gives a tree
//! with the same digest.

use crate::identifiers::{ROOT, SLASH};
use crate::objects::blob::{blob_digest, blob_loading};
use crate::objects::index::EntryView;
use crate::objects::listing::LineView;
use crate::objects::order::{
    gather, leaf_line_of, lemma_leaf_lines, lemma_lines_of_concat, lemma_one_line,
    lemma_subtree_lines, lemma_tree_digest_ignores_order, lemma_under_gathers, moved_under,
    subtree_line,
};
use crate::objects::tree::{
    below_first_segment, directory_of, first_segment, is_top_level, leaf_of, leaves, line_of,
    lines_of, moved_down, node_restoring, nodes_restoring, subtrees, tree_digest, tree_encoding,
    tree_of, tree_restoring, under, NodeView, TreeView,
};
use crate::restore::StepView;
use crate::text::{free_of, lemma_find_byte_is};
use vstd::multiset::Multiset;
use vstd::prelude::*;
use vstd::seq_lib::{lemma_multiset_commutative, to_multiset_build, to_multiset_len};

verus! {

/// The index entries that staging the restored files gives: one for each
/// file written, in order, with the file's path as seen from the
/// destination, its mode, and the digest of the blob of what was written.
pub open spec fn staged_again(steps: Seq<StepView>, dest: Seq<u8>) -> Seq<EntryView>
    decreases steps.len(),
{
    if steps.len() == 0 {
        Seq::empty()
    } else {
        match steps[0] {
            StepView::CreateDir { .. } => staged_again(steps.drop_first(), dest),
            StepView::WriteFile { path, mode, bytes } => seq![
                EntryView { mode, path: path.skip((dest.len() + 1) as int), sha: blob_digest(bytes) },
            ] + staged_again(steps.drop_first(), dest),
        }
    }
}

/// The files of one child, as index entries with `prefix` before each path.
pub open spec fn node_files(node: NodeView, prefix: Seq<u8>) -> Seq<EntryView>
    decreases node, 0nat,
{
    match node {
        NodeView::Leaf(l) => seq![EntryView { mode: l.mode, path: prefix + l.name, sha: l.sha }],
        NodeView::Tree(c) => files_from(c.children, 0, prefix + c.name + seq![SLASH]),
    }
}

/// The files of the children from the `from`-th on, in order.
pub open spec fn files_from(children: Seq<NodeView>, from: nat, prefix: Seq<u8>) -> Seq<EntryView>
    decreases children, children.len() - from,
{
    if from >= children.len() {
        Seq::empty()
    } else {
        node_files(children[from as int], prefix) + files_from(children, from + 1, prefix)
    }
}

/// The files of a tree, as index entries with paths as seen from the tree.
pub open spec fn files_of(t: TreeView) -> Seq<EntryView> {
    files_from(t.children, 0, Seq::empty())
}

proof fn lemma_staged_again_concat(a: Seq<StepView>, b: Seq<StepView>, dest: Seq<u8>)
    ensures
        staged_again(a + b, dest) == staged_again(a, dest) + staged_again(b, dest),
    decreases a.len(),
{
    if a.len() == 0 {
        assert(a + b =~= b);
        assert(staged_again(a, dest) + staged_again(b, dest) =~= staged_again(b, dest));
    } else {
        lemma_staged_again_concat(a.drop_first(), b, dest);
        assert((a + b).drop_first() =~= a.drop_first() + b);
        assert((a + b)[0] == a[0]);
        assert(staged_again(a + b, dest) =~= staged_again(a, dest) + staged_again(b, dest));
    }
}

proof fn lemma_staged_again_one(step: StepView, dest: Seq<u8>)
    ensures
        staged_again(seq![step], dest) == match step {
            StepView::CreateDir { .. } => Seq::<EntryView>::empty(),
            StepView::WriteFile { path, mode, bytes } => seq![
                EntryView {
                    mode,
                    path: path.skip((dest.len() + 1) as int),
                    sha: blob_digest(bytes),
                },
            ],
        },
{
    let one = seq![step];
    assert(one.drop_first() =~= Seq::<StepView>::empty());
    assert(staged_again(one.drop_first(), dest) =~= Seq::<EntryView>::empty());
    match step {
        StepView::CreateDir { .. } => {},
        StepView::WriteFile { path, mode, bytes } => {
            let e = EntryView {
                mode,
                path: path.skip((dest.len() + 1) as int),
                sha: blob_digest(bytes),
            };
            assert(seq![e] + Seq::<EntryView>::empty() =~= seq![e]);
        },
    }
}

/// The path prefix, as seen from the destination, of what lies in the
/// directory that `below` leads to from the destination.
pub open spec fn prefix_of(below: Seq<u8>) -> Seq<u8> {
    (below + seq![SLASH]).skip(1)
}

proof fn lemma_node_restored(
    objects: Map<Seq<u8>, Seq<u8>>,
    node: NodeView,
    dest: Seq<u8>,
    below: Seq<u8>,
)
    requires
        node_restoring(objects, node, dest + below).is_ok(),
    ensures
        staged_again(node_restoring(objects, node, dest + below)->Ok_0, dest) == node_files(
            node,
            prefix_of(below),
        ),
    decreases node, 0nat,
{
    let dir = dest + below;
    let steps = node_restoring(objects, node, dir)->Ok_0;
    match node {
        NodeView::Leaf(l) => {
            let bytes = blob_loading(objects, l.sha)->Ok_0;
            let path = dir + seq![SLASH] + l.name;
            assert(steps == seq![StepView::WriteFile { path, mode: l.mode, bytes }]);
            assert(blob_digest(bytes) == l.sha);
            assert(path.skip((dest.len() + 1) as int) =~= prefix_of(below) + l.name);
            lemma_staged_again_one(steps[0], dest);
            assert(steps =~= seq![steps[0]]);
            assert(staged_again(steps, dest) =~= node_files(node, prefix_of(below)));
        },
        NodeView::Tree(c) => {
            assert(c.name != ROOT@);
            let inner = below + seq![SLASH] + c.name;
            assert(directory_of(c, dir) =~= dest + inner);
            let first = seq![StepView::CreateDir { path: directory_of(c, dir) }];
            let rest = nodes_restoring(objects, c.children, 0, dest + inner);
            assert(rest.is_ok());
            lemma_nodes_restored(objects, c.children, 0, dest, inner);
            lemma_staged_again_concat(first, rest->Ok_0, dest);
            lemma_staged_again_one(first[0], dest);
            assert(first =~= seq![first[0]]);
            assert(staged_again(first, dest) =~= Seq::<EntryView>::empty());
            assert(prefix_of(inner) =~= prefix_of(below) + c.name + seq![SLASH]);
            assert(staged_again(steps, dest) =~= node_files(node, prefix_of(below)));
        },
    }
}

proof fn lemma_nodes_restored(
    objects: Map<Seq<u8>, Seq<u8>>,
    children: Seq<NodeView>,
    from: nat,
    dest: Seq<u8>,
    below: Seq<u8>,
)
    requires
        nodes_restoring(objects, children, from, dest + below).is_ok(),
    ensures
        staged_again(nodes_restoring(objects, children, from, dest + below)->Ok_0, dest)
            == files_from(children, from, prefix_of(below)),
    decreases children, children.len() - from,
{
    if from < children.len() {
        let dir = dest + below;
        let first = node_restoring(objects, children[from as int], dir);
        let rest = nodes_restoring(objects, children, from + 1, dir);
        assert(first.is_ok() && rest.is_ok());
        lemma_node_restored(objects, children[from as int], dest, below);
        lemma_nodes_restored(objects, children, from + 1, dest, below);
        lemma_staged_again_concat(first->Ok_0, rest->Ok_0, dest);
    }
}

/// Staging the files that a restore of a root tree writes gives the files
/// of the tree: the same paths, modes and digests.
pub proof fn lemma_restored_files(
    objects: Map<Seq<u8>, Seq<u8>>,
    t: TreeView,
    dest: Seq<u8>,
    dest_exists: bool,
)
    requires
        t.name == ROOT@,
        tree_restoring(objects, t, dest, dest_exists).is_ok(),
    ensures
        staged_again(tree_restoring(objects, t, dest, dest_exists)->Ok_0, dest) == files_of(t),
{
    let first = seq![StepView::CreateDir { path: dest }];
    let rest = nodes_restoring(objects, t.children, 0, dest);
    assert(dest + Seq::<u8>::empty() =~= dest);
    assert(prefix_of(Seq::<u8>::empty()) =~= Seq::<u8>::empty());
    lemma_nodes_restored(objects, t.children, 0, dest, Seq::empty());
    lemma_staged_again_concat(first, rest->Ok_0, dest);
    lemma_staged_again_one(first[0], dest);
    assert(first =~= seq![first[0]]);
    assert(staged_again(first, dest) =~= Seq::<EntryView>::empty());
    assert(staged_again(first, dest) + files_of(t) =~= files_of(t));
}

/// The entries with `p` put before each path.
pub open spec fn prefixed(entries: Seq<EntryView>, p: Seq<u8>) -> Seq<EntryView> {
    entries.map_values(|e: EntryView| EntryView { path: p + e.path, ..e })
}

proof fn lemma_node_files_prefixed(node: NodeView, p: Seq<u8>)
    ensures
        node_files(node, p) == prefixed(node_files(node, Seq::empty()), p),
    decreases node, 0nat,
{
    let none = Seq::<u8>::empty();
    match node {
        NodeView::Leaf(l) => {
            assert(p + (none + l.name) =~= p + l.name);
            assert(node_files(node, p) =~= prefixed(node_files(node, none), p));
        },
        NodeView::Tree(c) => {
            let long = p + c.name + seq![SLASH];
            let short = none + c.name + seq![SLASH];
            let inner = files_from(c.children, 0, none);
            lemma_files_prefixed(c.children, 0, long);
            lemma_files_prefixed(c.children, 0, short);
            assert forall|k: int| 0 <= k < inner.len() implies p + (short + inner[k].path) == long
                + inner[k].path by {
                assert(p + (short + inner[k].path) =~= long + inner[k].path);
            }
            assert(prefixed(prefixed(inner, short), p) =~= prefixed(inner, long));
        },
    }
}

proof fn lemma_files_prefixed(children: Seq<NodeView>, from: nat, p: Seq<u8>)
    ensures
        files_from(children, from, p) == prefixed(files_from(children, from, Seq::empty()), p),
    decreases children, children.len() - from,
{
    let none = Seq::<u8>::empty();
    if from < children.len() {
        lemma_node_files_prefixed(children[from as int], p);
        lemma_files_prefixed(children, from + 1, p);
        assert(prefixed(
            node_files(children[from as int], none) + files_from(children, from + 1, none),
            p,
        ) =~= prefixed(node_files(children[from as int], none), p) + prefixed(
            files_from(children, from + 1, none),
            p,
        ));
    } else {
        assert(files_from(children, from, p) =~= prefixed(files_from(children, from, none), p));
    }
}

proof fn lemma_one_entry(e: EntryView)
    ensures
        seq![e].to_multiset() == Multiset::singleton(e),
{
    broadcast use vstd::multiset::group_multiset_axioms;

    to_multiset_build(Seq::<EntryView>::empty(), e);
    assert(Seq::<EntryView>::empty().push(e) =~= seq![e]);
    to_multiset_len(Seq::<EntryView>::empty());
    assert(seq![e].to_multiset() =~= Multiset::singleton(e));
}

/// What is gathered from two lists put together is what is gathered from
/// each.
proof fn lemma_gather_concat<T>(
    a: Seq<EntryView>,
    b: Seq<EntryView>,
    g: spec_fn(EntryView) -> Multiset<T>,
)
    ensures
        gather(a + b, g) == gather(a, g).add(gather(b, g)),
    decreases a.len(),
{
    broadcast use vstd::multiset::group_multiset_axioms;

    if a.len() == 0 {
        assert(a + b =~= b);
        assert(gather(a + b, g) =~= gather(a, g).add(gather(b, g)));
    } else {
        lemma_gather_concat(a.drop_first(), b, g);
        assert((a + b).drop_first() =~= a.drop_first() + b);
        assert((a + b)[0] == a[0]);
        assert(gather(a + b, g) =~= gather(a, g).add(gather(b, g)));
    }
}

/// A path put under a directory whose name holds no `/` lies under that
/// directory, and seen from there it is the path again.
proof fn lemma_path_under(name: Seq<u8>, path: Seq<u8>)
    requires
        free_of(name, SLASH),
    ensures
        !is_top_level(name + seq![SLASH] + path),
        first_segment(name + seq![SLASH] + path) == name,
        below_first_segment(name + seq![SLASH] + path) == path,
{
    let full = name + seq![SLASH] + path;
    let k = name.len() as int;
    assert(full[k] == SLASH);
    assert forall|j: int| 0 <= j < k implies #[trigger] full[j] != SLASH by {
        assert(full[j] == name[j]);
    }
    lemma_find_byte_is(full, SLASH, k);
    assert(full.take(k) =~= name);
    assert(full.skip(k + 1) =~= path);
}

/// The entries of a directory, with the directory's name before each path,
/// add no file line to the tree above, and lie under that directory only.
proof fn lemma_gather_prefixed(inner: Seq<EntryView>, name: Seq<u8>, dir: Seq<u8>)
    requires
        free_of(name, SLASH),
    ensures
        gather(prefixed(inner, name + seq![SLASH]), |e: EntryView| leaf_line_of(e))
            == Multiset::<LineView>::empty(),
        gather(prefixed(inner, name + seq![SLASH]), |e: EntryView| moved_under(e, dir)) == if dir
            == name {
            inner.to_multiset()
        } else {
            Multiset::<EntryView>::empty()
        },
    decreases inner.len(),
{
    broadcast use vstd::multiset::group_multiset_axioms;

    let q = name + seq![SLASH];
    let all = prefixed(inner, q);
    let g = |e: EntryView| leaf_line_of(e);
    let h = |e: EntryView| moved_under(e, dir);
    if inner.len() == 0 {
        to_multiset_len(inner);
        assert(inner.to_multiset() =~= Multiset::<EntryView>::empty());
    } else {
        let rest = inner.drop_first();
        lemma_gather_prefixed(rest, name, dir);
        assert(all.drop_first() =~= prefixed(rest, q));
        lemma_path_under(name, inner[0].path);
        assert(all[0].path == q + inner[0].path);
        assert(moved_down(all[0]) == inner[0]);
        assert(g(all[0]) == Multiset::<LineView>::empty());
        assert(gather(all, g) =~= Multiset::<LineView>::empty());
        assert(inner =~= seq![inner[0]] + rest);
        lemma_multiset_commutative(seq![inner[0]], rest);
        lemma_one_entry(inner[0]);
        if dir == name {
            assert(h(all[0]) == Multiset::singleton(inner[0]));
            assert(gather(all, h) =~= inner.to_multiset());
        } else {
            assert(h(all[0]) == Multiset::<EntryView>::empty());
            assert(gather(all, h) =~= Multiset::<EntryView>::empty());
        }
    }
}

/// Two children are sub-trees of the same name.
pub open spec fn same_directory(a: NodeView, b: NodeView) -> bool {
    match (a, b) {
        (NodeView::Tree(x), NodeView::Tree(y)) => x.name == y.name,
        _ => false,
    }
}

/// The name that a child goes by in its tree.
pub open spec fn name_of(node: NodeView) -> Seq<u8> {
    match node {
        NodeView::Tree(c) => c.name,
        NodeView::Leaf(l) => l.name,
    }
}

/// The child is a sub-tree named `dir`.
pub open spec fn is_directory(node: NodeView, dir: Seq<u8>) -> bool {
    match node {
        NodeView::Tree(c) => c.name == dir,
        NodeView::Leaf(_) => false,
    }
}

/// The child can stand in a directory of files: its name holds no `/`, and
/// a sub-tree holds at least one file and is tidy itself.
pub open spec fn tidy_node(node: NodeView) -> bool
    decreases node, 0nat,
{
    match node {
        NodeView::Leaf(l) => free_of(l.name, SLASH),
        NodeView::Tree(c) => free_of(c.name, SLASH) && files_of(c).len() > 0 && tidy(c),
    }
}

/// The tree is what a directory of files can be: every child is tidy, and
/// no two children go by the same name.
pub open spec fn tidy(t: TreeView) -> bool
    decreases t, 1nat,
{
    &&& forall|i: int| 0 <= i < t.children.len() ==> tidy_node(#[trigger] t.children[i])
    &&& forall|i: int, j: int|
        0 <= i < j < t.children.len() ==> name_of(#[trigger] t.children[i]) != name_of(
            #[trigger] t.children[j],
        )
}

/// What each child from the `from`-th on contributes, all put together.
pub open spec fn sum_from<T>(
    children: Seq<NodeView>,
    from: nat,
    f: spec_fn(NodeView) -> Multiset<T>,
) -> Multiset<T>
    decreases children.len() - from,
{
    if from >= children.len() {
        Multiset::empty()
    } else {
        f(children[from as int]).add(sum_from(children, from + 1, f))
    }
}

/// The line of a file child.
pub open spec fn file_line(node: NodeView) -> Multiset<LineView> {
    match node {
        NodeView::Leaf(_) => Multiset::singleton(line_of(node)),
        NodeView::Tree(_) => Multiset::empty(),
    }
}

/// The line of a sub-tree child.
pub open spec fn directory_line(node: NodeView) -> Multiset<LineView> {
    match node {
        NodeView::Leaf(_) => Multiset::empty(),
        NodeView::Tree(_) => Multiset::singleton(line_of(node)),
    }
}

/// The files of a child that is the sub-tree named `dir`.
pub open spec fn directory_files(node: NodeView, dir: Seq<u8>) -> Multiset<EntryView> {
    match node {
        NodeView::Leaf(_) => Multiset::empty(),
        NodeView::Tree(c) => if c.name == dir {
            files_of(c).to_multiset()
        } else {
            Multiset::empty()
        },
    }
}

proof fn lemma_gather_one<T>(e: EntryView, g: spec_fn(EntryView) -> Multiset<T>)
    ensures
        gather(seq![e], g) == g(e),
{
    broadcast use vstd::multiset::group_multiset_axioms;

    assert(seq![e].drop_first() =~= Seq::<EntryView>::empty());
    assert(gather(seq![e].drop_first(), g) =~= Multiset::<T>::empty());
    assert(gather(seq![e], g) =~= g(e));
}

/// What the files of one tidy child add to the tree built from them: a
/// file adds its line; the files of a sub-tree lie under its name.
proof fn lemma_node_gathers(node: NodeView, dir: Seq<u8>)
    requires
        tidy_node(node),
    ensures
        gather(node_files(node, Seq::empty()), |e: EntryView| leaf_line_of(e)) == file_line(node),
        gather(node_files(node, Seq::empty()), |e: EntryView| moved_under(e, dir))
            == directory_files(node, dir),
{
    let none = Seq::<u8>::empty();
    match node {
        NodeView::Leaf(l) => {
            let e = EntryView { mode: l.mode, path: none + l.name, sha: l.sha };
            assert(e.path =~= l.name);
            assert(leaf_of(e) == l);
            lemma_gather_one(e, |e: EntryView| leaf_line_of(e));
            lemma_gather_one(e, |e: EntryView| moved_under(e, dir));
        },
        NodeView::Tree(c) => {
            lemma_files_prefixed(c.children, 0, none + c.name + seq![SLASH]);
            assert(none + c.name + seq![SLASH] =~= c.name + seq![SLASH]);
            lemma_gather_prefixed(files_of(c), c.name, dir);
        },
    }
}

proof fn lemma_files_gather(children: Seq<NodeView>, from: nat, dir: Seq<u8>)
    requires
        forall|i: int| 0 <= i < children.len() ==> tidy_node(#[trigger] children[i]),
    ensures
        gather(files_from(children, from, Seq::empty()), |e: EntryView| leaf_line_of(e))
            == sum_from(children, from, |n: NodeView| file_line(n)),
        gather(files_from(children, from, Seq::empty()), |e: EntryView| moved_under(e, dir))
            == sum_from(children, from, |n: NodeView| directory_files(n, dir)),
    decreases children.len() - from,
{
    let none = Seq::<u8>::empty();
    if from < children.len() {
        let node = children[from as int];
        lemma_node_gathers(node, dir);
        lemma_files_gather(children, from + 1, dir);
        lemma_gather_concat(
            node_files(node, none),
            files_from(children, from + 1, none),
            |e: EntryView| leaf_line_of(e),
        );
        lemma_gather_concat(
            node_files(node, none),
            files_from(children, from + 1, none),
            |e: EntryView| moved_under(e, dir),
        );
    }
}

/// The lines of the children are the lines of the files and the lines of
/// the sub-trees.
proof fn lemma_lines_sum(children: Seq<NodeView>, from: nat)
    requires
        from <= children.len(),
    ensures
        lines_of(children).skip(from as int).to_multiset() == sum_from(
            children,
            from,
            |n: NodeView| file_line(n),
        ).add(sum_from(children, from, |n: NodeView| directory_line(n))),
    decreases children.len() - from,
{
    broadcast use vstd::multiset::group_multiset_axioms;

    let all = lines_of(children);
    let here = all.skip(from as int);
    if from < children.len() {
        lemma_lines_sum(children, from + 1);
        let first = line_of(children[from as int]);
        assert(here =~= seq![first] + all.skip((from + 1) as int));
        lemma_multiset_commutative(seq![first], all.skip((from + 1) as int));
        lemma_one_line(first);
        assert(here.to_multiset() =~= sum_from(children, from, |n: NodeView| file_line(n)).add(
            sum_from(children, from, |n: NodeView| directory_line(n)),
        ));
    } else {
        to_multiset_len(here);
        assert(here.to_multiset() =~= Multiset::<LineView>::empty());
    }
}

/// Where one child is the sub-tree named `dir` and no other is, that child
/// alone accounts for the files under `dir` and for the lines of that name.
proof fn lemma_the_directory(
    children: Seq<NodeView>,
    from: nat,
    dir: Seq<u8>,
    at: int,
    v: LineView,
)
    requires
        0 <= at < children.len(),
        is_directory(children[at], dir),
        forall|i: int, j: int|
            0 <= i < j < children.len() ==> !same_directory(
                #[trigger] children[i],
                #[trigger] children[j],
            ),
        v.name == dir,
    ensures
        sum_from(children, from, |n: NodeView| directory_files(n, dir)) == if from <= at {
            directory_files(children[at], dir)
        } else {
            Multiset::<EntryView>::empty()
        },
        sum_from(children, from, |n: NodeView| directory_line(n)).count(v) == if from <= at
            && line_of(children[at]) == v {
            1nat
        } else {
            0nat
        },
    decreases children.len() - from,
{
    broadcast use vstd::multiset::group_multiset_axioms;

    if from < children.len() {
        lemma_the_directory(children, from + 1, dir, at, v);
        let node = children[from as int];
        if from != at {
            if from < at {
                assert(!same_directory(children[from as int], children[at]));
            } else {
                assert(!same_directory(children[at], children[from as int]));
            }
            assert(!is_directory(node, dir));
            assert(directory_files(node, dir) =~= Multiset::<EntryView>::empty());
            assert(directory_line(node).count(v) == 0);
        }
        assert(sum_from(children, from, |n: NodeView| directory_files(n, dir)) =~= if from <= at {
            directory_files(children[at], dir)
        } else {
            Multiset::<EntryView>::empty()
        });
    }
}

/// Where no child is a sub-tree named `dir`, no file lies under `dir` and
/// no sub-tree line has that name.
proof fn lemma_no_directory(children: Seq<NodeView>, from: nat, dir: Seq<u8>, v: LineView)
    requires
        forall|i: int| 0 <= i < children.len() ==> !is_directory(#[trigger] children[i], dir),
        v.name == dir,
    ensures
        sum_from(children, from, |n: NodeView| directory_files(n, dir)) == Multiset::<
            EntryView,
        >::empty(),
        sum_from(children, from, |n: NodeView| directory_line(n)).count(v) == 0,
    decreases children.len() - from,
{
    broadcast use vstd::multiset::group_multiset_axioms;

    if from < children.len() {
        lemma_no_directory(children, from + 1, dir, v);
        let node = children[from as int];
        assert(!is_directory(node, dir));
        assert(directory_files(node, dir) =~= Multiset::<EntryView>::empty());
        assert(directory_line(node).count(v) == 0);
        assert(sum_from(children, from, |n: NodeView| directory_files(n, dir)) =~= Multiset::<
            EntryView,
        >::empty());
    }
}

/// Folding the files of a tidy tree gives a tree with the same encoding,
/// and so the same digest, whatever name it is given.
pub proof fn lemma_fold_of_files(name: Seq<u8>, t: TreeView)
    requires
        tidy(t),
    ensures
        tree_encoding(tree_of(name, files_of(t))) == tree_encoding(t),
        tree_digest(tree_of(name, files_of(t))) == tree_digest(t),
    decreases t,
{
    broadcast use vstd::multiset::group_multiset_axioms;

    let files = files_of(t);
    let folded = tree_of(name, files);
    assert forall|i: int, j: int| 0 <= i < j < t.children.len() implies !same_directory(
        #[trigger] t.children[i],
        #[trigger] t.children[j],
    ) by {
        assert(name_of(t.children[i]) != name_of(t.children[j]));
    }
    let file_lines = lines_of(leaves(files)).to_multiset();
    let dir_lines = lines_of(subtrees(files)).to_multiset();
    let files_sum = sum_from(t.children, 0, |n: NodeView| file_line(n));
    let dirs_sum = sum_from(t.children, 0, |n: NodeView| directory_line(n));
    lemma_lines_of_concat(leaves(files), subtrees(files));
    lemma_leaf_lines(files);
    lemma_lines_sum(t.children, 0);
    assert(lines_of(t.children).skip(0) =~= lines_of(t.children));
    assert(file_lines == files_sum) by {
        lemma_files_gather(t.children, 0, Seq::empty());
    }
    assert forall|v: LineView| dir_lines.count(v) == dirs_sum.count(v) by {
        let dir = v.name;
        lemma_subtree_lines(files, v);
        lemma_under_gathers(files, dir);
        lemma_files_gather(t.children, 0, dir);
        to_multiset_len(under(files, dir));
        if exists|i: int| 0 <= i < t.children.len() && is_directory(#[trigger] t.children[i], dir) {
            let at = choose|i: int|
                0 <= i < t.children.len() && is_directory(#[trigger] t.children[i], dir);
            lemma_the_directory(t.children, 0, dir, at, v);
            match t.children[at] {
                NodeView::Tree(c) => {
                    assert(tidy_node(t.children[at]));
                    to_multiset_len(files_of(c));
                    lemma_tree_digest_ignores_order(dir, under(files, dir), files_of(c));
                    lemma_fold_of_files(dir, c);
                    assert(subtree_line(dir, files) == line_of(t.children[at]));
                },
                NodeView::Leaf(_) => {},
            }
        } else {
            lemma_no_directory(t.children, 0, dir, v);
        }
    }
    assert(dir_lines =~= dirs_sum);
    assert(lines_of(folded.children).to_multiset() =~= lines_of(t.children).to_multiset());
}

/// Restoring a tidy root tree, staging the restored files again and
/// folding them into a tree gives the digest of the tree that was
/// restored.
pub proof fn lemma_restore_fidelity(
    objects: Map<Seq<u8>, Seq<u8>>,
    t: TreeView,
    dest: Seq<u8>,
    dest_exists: bool,
)
    requires
        t.name == ROOT@,
        tidy(t),
        tree_restoring(objects, t, dest, dest_exists).is_ok(),
    ensures
        tree_digest(
            tree_of(ROOT@, staged_again(tree_restoring(objects, t, dest, dest_exists)->Ok_0, dest)),
        ) == tree_digest(t),
{
    lemma_restored_files(objects, t, dest, dest_exists);
    lemma_fold_of_files(ROOT@, t);
}

} // verus!
