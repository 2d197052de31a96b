//! The canonical order of a tree's listing: sub-trees before files, then by
//! name, then by the whole entry, so that the same set of children always
//! comes out in the same order.

use crate::identifiers::NUL;
use crate::text::{
    join, lemma_join_push, lemma_lex_le_antisym, lemma_lex_le_refl, lemma_lex_le_total,
    lemma_lex_le_trans, lex_le, lex_le_bytes, same_bytes,
};
use vstd::multiset::Multiset;
use vstd::prelude::*;
use vstd::relations::{sorted_by, total_ordering};
use vstd::seq_lib::lemma_sorted_unique;

verus! {

/// What a line of a listing says, as plain values.
pub struct LineView {
    /// The child is a file, not a sub-tree.
    pub leaf: bool,
    /// The child's name.
    pub name: Seq<u8>,
    /// The encoded entry.
    pub text: Seq<u8>,
}

/// One line of a tree's listing: an encoded entry, with what it is
/// ordered by.
pub struct Line {
    pub leaf: bool,
    pub name: Vec<u8>,
    pub text: Vec<u8>,
}

impl View for Line {
    type V = LineView;

    open spec fn view(&self) -> LineView {
        LineView { leaf: self.leaf, name: self.name@, text: self.text@ }
    }
}

/// The views of a list of lines.
pub open spec fn line_views(lines: Seq<Line>) -> Seq<LineView> {
    lines.map_values(|l: Line| l@)
}

/// `a` stands before `b` in a listing, or is the same line: sub-trees stand
/// before files; within a kind the names decide, byte by byte; between two
/// children of the same kind and name, the encoded entries decide.
pub open spec fn line_le(a: LineView, b: LineView) -> bool {
    if a.leaf != b.leaf {
        !a.leaf
    } else if a.name != b.name {
        lex_le(a.name, b.name)
    } else {
        lex_le(a.text, b.text)
    }
}

/// `line_le` as a relation.
pub open spec fn line_order() -> spec_fn(LineView, LineView) -> bool {
    |a: LineView, b: LineView| line_le(a, b)
}

/// The order of a listing is total: any two lines compare, and only equal
/// lines compare both ways.
pub proof fn lemma_line_order_total()
    ensures
        total_ordering(line_order()),
{
    let r = line_order();
    assert forall|x: LineView| #[trigger] r(x, x) by {
        lemma_lex_le_refl(x.text);
    }
    assert forall|x: LineView, y: LineView| #[trigger] r(x, y) && #[trigger] r(y, x) implies x
        == y by {
        if x.name != y.name {
            lemma_lex_le_antisym(x.name, y.name);
        } else {
            lemma_lex_le_antisym(x.text, y.text);
        }
    }
    assert forall|x: LineView, y: LineView, z: LineView| #[trigger]
        r(x, y) && #[trigger] r(y, z) implies r(x, z) by {
        if x.leaf == y.leaf && y.leaf == z.leaf {
            if x.name == y.name && y.name == z.name {
                lemma_lex_le_trans(x.text, y.text, z.text);
            } else if x.name == y.name || y.name == z.name {
            } else {
                lemma_lex_le_trans(x.name, y.name, z.name);
                if x.name == z.name {
                    lemma_lex_le_antisym(x.name, y.name);
                }
            }
        }
    }
    assert forall|x: LineView, y: LineView| #[trigger] r(x, y) || #[trigger] r(y, x) by {
        lemma_lex_le_total(x.name, y.name);
        lemma_lex_le_total(x.text, y.text);
    }
}

/// The lines of a listing in their canonical order. The order depends on
/// which lines there are and on nothing else.
pub open spec fn in_order(lines: Multiset<LineView>) -> Seq<LineView> {
    choose|s: Seq<LineView>| sorted_by(s, line_order()) && s.to_multiset() == lines
}

/// A sorted list is the canonical order of its own lines.
pub proof fn lemma_in_order_is(s: Seq<LineView>)
    requires
        sorted_by(s, line_order()),
    ensures
        in_order(s.to_multiset()) == s,
{
    let t = in_order(s.to_multiset());
    lemma_line_order_total();
    lemma_sorted_unique(s, t, line_order());
}

/// The encoded entries of a list of lines.
pub open spec fn texts(lines: Seq<LineView>) -> Seq<Seq<u8>> {
    lines.map_values(|l: LineView| l.text)
}

/// Whether `a` stands before `b` in a listing, or is the same line.
pub fn line_stands_before(a: &Line, b: &Line) -> (out: bool)
    ensures
        out == line_le(a@, b@),
{
    if a.leaf != b.leaf {
        !a.leaf
    } else if !same_bytes(a.name.as_slice(), b.name.as_slice()) {
        lex_le_bytes(a.name.as_slice(), b.name.as_slice())
    } else {
        lex_le_bytes(a.text.as_slice(), b.text.as_slice())
    }
}

/// Puts one more line into a sorted listing, at its place.
pub fn insert_in_order(sorted: &mut Vec<Line>, line: Line)
    requires
        sorted_by(line_views(old(sorted)@), line_order()),
    ensures
        sorted_by(line_views(final(sorted)@), line_order()),
        line_views(final(sorted)@).to_multiset() == line_views(old(sorted)@).to_multiset().insert(
            line@,
        ),
{
    broadcast use vstd::seq_lib::to_multiset_insert;

    let ghost before = line_views(sorted@);
    let ghost r = line_order();
    let mut at: usize = 0;
    while at < sorted.len() && line_stands_before(&sorted[at], &line)
        invariant
            0 <= at <= sorted.len(),
            sorted@ == old(sorted)@,
            before == line_views(sorted@),
            forall|j: int| 0 <= j < at ==> line_le(#[trigger] before[j], line@),
        decreases sorted.len() - at,
    {
        proof {
            assert(before[at as int] == sorted@[at as int]@);
        }
        at += 1;
    }
    proof {
        lemma_line_order_total();
        if at < sorted.len() {
            assert(before[at as int] == sorted@[at as int]@);
            assert(r(line@, before[at as int]) || r(before[at as int], line@));
            assert(line_le(line@, before[at as int]));
        }
    }
    sorted.insert(at, line);
    proof {
        let after = line_views(sorted@);
        assert(after =~= before.insert(at as int, line@));
        assert forall|i: int, j: int| 0 <= i < j < after.len() implies #[trigger] r(
            after[i],
            after[j],
        ) by {
            if j < at {
                assert(r(before[i], before[j]));
            } else if j == at {
                assert(line_le(before[i], line@));
            } else if i == at {
                if j - 1 > at {
                    assert(r(before[at as int], before[j - 1]));
                }
                assert(r(line@, before[at as int]) && r(before[at as int], before[j - 1]) ==> r(
                    line@,
                    before[j - 1],
                ));
            } else if i < at {
                assert(r(before[i], before[j - 1]));
            } else {
                assert(r(before[i - 1], before[j - 1]));
            }
        }
    }
}

/// The body of an encoded tree: the encoded entries with a NUL between
/// neighbours.
pub fn join_texts(lines: &Vec<Line>) -> (out: Vec<u8>)
    ensures
        out@ == join(texts(line_views(lines@)), NUL),
{
    let mut out: Vec<u8> = Vec::new();
    let ghost all = texts(line_views(lines@));
    let mut i: usize = 0;
    proof {
        assert(all.take(0) =~= Seq::<Seq<u8>>::empty());
    }
    while i < lines.len()
        invariant
            0 <= i <= lines.len(),
            all == texts(line_views(lines@)),
            out@ == join(all.take(i as int), NUL),
        decreases lines.len() - i,
    {
        proof {
            assert(all.take(i + 1) =~= all.take(i as int).push(lines@[i as int].text@));
            if i > 0 {
                lemma_join_push(all.take(i as int), lines@[i as int].text@, NUL);
            }
        }
        if i > 0 {
            out.push(NUL);
        }
        out.extend_from_slice(lines[i].text.as_slice());
        i += 1;
    }
    proof {
        assert(all.take(i as int) =~= all);
    }
    out
}

} // verus!
