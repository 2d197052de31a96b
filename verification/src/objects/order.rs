//! Why the digest of a tree built from the index does not depend on the
//! order of the index entries.

use crate::objects::index::EntryView;
use crate::objects::listing::LineView;
use crate::objects::tree::{
    first_segment, is_top_level, leaf_of, leaves, lemma_weight_split, lies_under, line_of,
    lines_of, moved_down, outside, subtrees, tree_digest, tree_encoding, tree_of, under, weight,
    NodeView,
};
use vstd::multiset::Multiset;
use vstd::prelude::*;
use vstd::seq_lib::{
    lemma_multiset_commutative, to_multiset_contains, to_multiset_len, to_multiset_remove,
};

verus! {

/// What every entry of a list contributes, all put together.
pub open spec fn gather<T>(s: Seq<EntryView>, g: spec_fn(EntryView) -> Multiset<T>) -> Multiset<T>
    decreases s.len(),
{
    if s.len() == 0 {
        Multiset::empty()
    } else {
        g(s[0]).add(gather(s.drop_first(), g))
    }
}

proof fn lemma_gather_remove<T>(s: Seq<EntryView>, g: spec_fn(EntryView) -> Multiset<T>, j: int)
    requires
        0 <= j < s.len(),
    ensures
        gather(s, g) == g(s[j]).add(gather(s.remove(j), g)),
    decreases s.len(),
{
    broadcast use vstd::multiset::group_multiset_axioms;

    if j == 0 {
        assert(s.remove(0) =~= s.drop_first());
    } else {
        lemma_gather_remove(s.drop_first(), g, j - 1);
        assert(s.remove(j).drop_first() =~= s.drop_first().remove(j - 1));
        assert(s.remove(j)[0] == s[0]);
        assert(gather(s, g) =~= g(s[j]).add(gather(s.remove(j), g)));
    }
}

/// What is gathered from a list does not depend on the order of the list.
pub proof fn lemma_gather_ignores_order<T>(
    a: Seq<EntryView>,
    b: Seq<EntryView>,
    g: spec_fn(EntryView) -> Multiset<T>,
)
    requires
        a.to_multiset() == b.to_multiset(),
    ensures
        gather(a, g) == gather(b, g),
    decreases a.len(),
{
    to_multiset_len(a);
    to_multiset_len(b);
    if a.len() > 0 {
        let x = a[0];
        assert(a.contains(x));
        to_multiset_contains(a, x);
        to_multiset_contains(b, x);
        let j = choose|j: int| 0 <= j < b.len() && b[j] == x;
        to_multiset_remove(a, 0);
        to_multiset_remove(b, j);
        assert(a.remove(0) =~= a.drop_first());
        lemma_gather_ignores_order(a.drop_first(), b.remove(j), g);
        lemma_gather_remove(b, g, j);
    }
}

/// What a top-level entry adds to the listing of its tree: its line.
pub open spec fn leaf_line_of(e: EntryView) -> Multiset<LineView> {
    if is_top_level(e.path) {
        Multiset::singleton(line_of(NodeView::Leaf(leaf_of(e))))
    } else {
        Multiset::empty()
    }
}

/// The lines of a list of children that is put together from two.
pub proof fn lemma_lines_of_concat(x: Seq<NodeView>, y: Seq<NodeView>)
    ensures
        lines_of(x + y) == lines_of(x) + lines_of(y),
        lines_of(x + y).to_multiset() == lines_of(x).to_multiset().add(lines_of(y).to_multiset()),
{
    assert(lines_of(x + y) =~= lines_of(x) + lines_of(y));
    lemma_multiset_commutative(lines_of(x), lines_of(y));
}

/// The file lines of a tree are what its top-level entries add.
pub proof fn lemma_leaf_lines(entries: Seq<EntryView>)
    ensures
        lines_of(leaves(entries)).to_multiset() == gather(
            entries,
            |e: EntryView| leaf_line_of(e),
        ),
    decreases entries.len(),
{
    broadcast use vstd::multiset::group_multiset_axioms;

    let g = |e: EntryView| leaf_line_of(e);
    if entries.len() == 0 {
        assert(lines_of(leaves(entries)) =~= Seq::<LineView>::empty());
        assert(lines_of(leaves(entries)).to_multiset() =~= Multiset::<LineView>::empty()) by {
            to_multiset_len(lines_of(leaves(entries)));
        }
    } else {
        let rest = entries.drop_first();
        lemma_leaf_lines(rest);
        if is_top_level(entries[0].path) {
            let first = seq![NodeView::Leaf(leaf_of(entries[0]))];
            lemma_lines_of_concat(first, leaves(rest));
            assert(lines_of(first) =~= seq![line_of(first[0])]);
            assert(lines_of(first).to_multiset() =~= Multiset::singleton(line_of(first[0]))) by {
                let one = lines_of(first);
                assert(one.drop_first() =~= Seq::<LineView>::empty());
                to_multiset_len(one.drop_first());
                assert(one.to_multiset() =~= Multiset::singleton(one[0]).add(
                    one.drop_first().to_multiset(),
                )) by {
                    vstd::seq_lib::to_multiset_build(Seq::<LineView>::empty(), one[0]);
                    assert(Seq::<LineView>::empty().push(one[0]) =~= one);
                    to_multiset_len(Seq::<LineView>::empty());
                }
            }
            assert(g(entries[0]) == Multiset::singleton(line_of(first[0])));
        } else {
            assert(g(entries[0]) == Multiset::<LineView>::empty());
            assert(gather(entries, g) =~= gather(rest, g));
        }
    }
}

/// What an entry adds to the entries under `dir`: itself, seen from `dir`,
/// if it lies there.
pub open spec fn moved_under(e: EntryView, dir: Seq<u8>) -> Multiset<EntryView> {
    if lies_under(e, dir) {
        Multiset::singleton(moved_down(e))
    } else {
        Multiset::empty()
    }
}

/// The entries under a directory are what the entries lying there add.
pub proof fn lemma_under_gathers(entries: Seq<EntryView>, dir: Seq<u8>)
    ensures
        under(entries, dir).to_multiset() == gather(
            entries,
            |e: EntryView| moved_under(e, dir),
        ),
    decreases entries.len(),
{
    broadcast use vstd::multiset::group_multiset_axioms;

    let g = |e: EntryView| moved_under(e, dir);
    if entries.len() == 0 {
        to_multiset_len(under(entries, dir));
        assert(under(entries, dir).to_multiset() =~= Multiset::<EntryView>::empty());
    } else {
        let rest = entries.drop_first();
        lemma_under_gathers(rest, dir);
        if lies_under(entries[0], dir) {
            let first = seq![moved_down(entries[0])];
            lemma_multiset_commutative(first, under(rest, dir));
            assert(first.to_multiset() =~= Multiset::singleton(first[0])) by {
                vstd::seq_lib::to_multiset_build(Seq::<EntryView>::empty(), first[0]);
                assert(Seq::<EntryView>::empty().push(first[0]) =~= first);
                to_multiset_len(Seq::<EntryView>::empty());
            }
            assert(g(entries[0]) == Multiset::singleton(first[0]));
        } else {
            assert(g(entries[0]) == Multiset::<EntryView>::empty());
            assert(gather(entries, g) =~= gather(rest, g));
        }
    }
}

/// The entries under a directory are the same, whatever the order of the
/// list they are taken from.
pub proof fn lemma_under_ignores_order(a: Seq<EntryView>, b: Seq<EntryView>, dir: Seq<u8>)
    requires
        a.to_multiset() == b.to_multiset(),
    ensures
        under(a, dir).to_multiset() == under(b, dir).to_multiset(),
{
    lemma_under_gathers(a, dir);
    lemma_under_gathers(b, dir);
    lemma_gather_ignores_order(a, b, |e: EntryView| moved_under(e, dir));
}

/// The file lines of a tree are the same, whatever the order of the
/// entries it is built from.
pub proof fn lemma_leaf_lines_ignore_order(a: Seq<EntryView>, b: Seq<EntryView>)
    requires
        a.to_multiset() == b.to_multiset(),
    ensures
        lines_of(leaves(a)).to_multiset() == lines_of(leaves(b)).to_multiset(),
{
    lemma_leaf_lines(a);
    lemma_leaf_lines(b);
    lemma_gather_ignores_order(a, b, |e: EntryView| leaf_line_of(e));
}

/// The line that the sub-tree for `dir` is listed with, in the tree built
/// from `entries`.
pub open spec fn subtree_line(dir: Seq<u8>, entries: Seq<EntryView>) -> LineView {
    line_of(NodeView::Tree(tree_of(dir, under(entries, dir))))
}

/// How often the listing of the sub-trees built from `entries` holds the
/// line `v`: once if an entry lies under the directory that `v` names and
/// `v` is the line of that directory's sub-tree, else never.
pub open spec fn times_listed(entries: Seq<EntryView>, v: LineView) -> nat {
    if under(entries, v.name).len() > 0 && subtree_line(v.name, entries) == v {
        1
    } else {
        0
    }
}

/// With the entries under one directory taken out, the entries under any
/// other directory are as before, and none is left under the first.
proof fn lemma_under_outside(entries: Seq<EntryView>, taken: Seq<u8>, dir: Seq<u8>)
    ensures
        under(outside(entries, taken), dir) == if dir == taken {
            Seq::<EntryView>::empty()
        } else {
            under(entries, dir)
        },
    decreases entries.len(),
{
    if entries.len() > 0 {
        let rest = entries.drop_first();
        lemma_under_outside(rest, taken, dir);
        if !lies_under(entries[0], taken) {
            let o = outside(entries, taken);
            assert(o.drop_first() =~= outside(rest, taken));
            assert(o[0] == entries[0]);
        }
    }
}

/// A listing of one line holds that line once.
pub proof fn lemma_one_line(v: LineView)
    ensures
        seq![v].to_multiset() == Multiset::singleton(v),
{
    broadcast use vstd::multiset::group_multiset_axioms;

    vstd::seq_lib::to_multiset_build(Seq::<LineView>::empty(), v);
    assert(Seq::<LineView>::empty().push(v) =~= seq![v]);
    to_multiset_len(Seq::<LineView>::empty());
    assert(seq![v].to_multiset() =~= Multiset::singleton(v));
}

/// The listing of the sub-trees holds one line for each directory that an
/// entry lies under, and no other line.
pub proof fn lemma_subtree_lines(entries: Seq<EntryView>, v: LineView)
    ensures
        lines_of(subtrees(entries)).to_multiset().count(v) == times_listed(entries, v),
    decreases weight(entries),
{
    broadcast use vstd::multiset::group_multiset_axioms;

    if entries.len() == 0 {
        assert(lines_of(subtrees(entries)) =~= Seq::<LineView>::empty());
        to_multiset_len(lines_of(subtrees(entries)));
        assert(lines_of(subtrees(entries)).to_multiset() =~= Multiset::<LineView>::empty());
    } else if is_top_level(entries[0].path) {
        lemma_subtree_lines(entries.drop_first(), v);
    } else {
        let taken = first_segment(entries[0].path);
        let rest = outside(entries, taken);
        let first = seq![NodeView::Tree(tree_of(taken, under(entries, taken)))];
        lemma_weight_split(entries, taken);
        lemma_subtree_lines(rest, v);
        lemma_under_outside(entries, taken, v.name);
        lemma_lines_of_concat(first, subtrees(rest));
        assert(lines_of(first) =~= seq![subtree_line(taken, entries)]);
        lemma_one_line(subtree_line(taken, entries));
        assert(subtree_line(taken, entries).name == taken);
    }
}

/// The digest of the tree that a list of index entries folds into depends
/// on which entries there are, not on their order.
pub proof fn lemma_tree_digest_ignores_order(
    name: Seq<u8>,
    a: Seq<EntryView>,
    b: Seq<EntryView>,
)
    requires
        a.to_multiset() == b.to_multiset(),
    ensures
        tree_encoding(tree_of(name, a)) == tree_encoding(tree_of(name, b)),
        tree_digest(tree_of(name, a)) == tree_digest(tree_of(name, b)),
    decreases weight(a), 1nat,
{
    lemma_leaf_lines_ignore_order(a, b);
    lemma_subtree_lines_ignore_order(a, b);
    lemma_lines_of_concat(leaves(a), subtrees(a));
    lemma_lines_of_concat(leaves(b), subtrees(b));
}

/// The listing of the sub-trees is the same, whatever the order of the
/// entries they are built from.
pub proof fn lemma_subtree_lines_ignore_order(a: Seq<EntryView>, b: Seq<EntryView>)
    requires
        a.to_multiset() == b.to_multiset(),
    ensures
        lines_of(subtrees(a)).to_multiset() == lines_of(subtrees(b)).to_multiset(),
    decreases weight(a), 0nat,
{
    let la = lines_of(subtrees(a)).to_multiset();
    let lb = lines_of(subtrees(b)).to_multiset();
    assert forall|v: LineView| la.count(v) == lb.count(v) by {
        lemma_subtree_lines(a, v);
        lemma_subtree_lines(b, v);
        lemma_under_ignores_order(a, b, v.name);
        to_multiset_len(under(a, v.name));
        to_multiset_len(under(b, v.name));
        if under(a, v.name).len() > 0 {
            lemma_weight_split(a, v.name);
            lemma_tree_digest_ignores_order(v.name, under(a, v.name), under(b, v.name));
        }
    }
    assert(la =~= lb);
}

} // verus!
