//! Why staging the same batch of candidates twice, with no file changed in
//! between, leaves the index as it was after the first time.

use crate::ignore::allowed;
use crate::objects::index::{
    after_candidate, after_candidates, distinct_paths, entry_of, lemma_candidates_keep_paths_distinct,
    lemma_position_of, lemma_position_of_is, position_of, without_path, CandidateView, EntryView,
};
use vstd::prelude::*;

verus! {

/// A candidate of the batch that the filter lets through has this path.
pub open spec fn touched(candidates: Seq<CandidateView>, filter: Seq<Seq<u8>>, path: Seq<u8>) -> bool
    decreases candidates.len(),
{
    if candidates.len() == 0 {
        false
    } else {
        (allowed(filter, candidates.last().path) && candidates.last().path == path) || touched(
            candidates.drop_last(),
            filter,
            path,
        )
    }
}

/// The entries whose paths the batch does not touch, in order.
pub open spec fn untouched(
    entries: Seq<EntryView>,
    candidates: Seq<CandidateView>,
    filter: Seq<Seq<u8>>,
) -> Seq<EntryView>
    decreases entries.len(),
{
    if entries.len() == 0 {
        Seq::empty()
    } else if touched(candidates, filter, entries[0].path) {
        untouched(entries.drop_first(), candidates, filter)
    } else {
        seq![entries[0]] + untouched(entries.drop_first(), candidates, filter)
    }
}

/// No entry has this path.
pub open spec fn lacks(entries: Seq<EntryView>, path: Seq<u8>) -> bool {
    forall|i: int| 0 <= i < entries.len() ==> (#[trigger] entries[i]).path != path
}

/// What one candidate that the filter lets through does: the entry of its
/// path leaves, and the entry of its file, if it has one, comes last.
proof fn lemma_one_candidate(entries: Seq<EntryView>, filter: Seq<Seq<u8>>, c: CandidateView)
    requires
        allowed(filter, c.path),
    ensures
        after_candidate(entries, filter, c) == match c.file {
            Some(f) => without_path(entries, c.path).push(entry_of(c.path, f)),
            None => without_path(entries, c.path),
        },
{
    lemma_position_of(entries, c.path);
}

proof fn lemma_without_lacking(entries: Seq<EntryView>, path: Seq<u8>)
    requires
        lacks(entries, path),
    ensures
        without_path(entries, path) == entries,
{
    lemma_position_of_is(entries, path, entries.len() as int);
}

proof fn lemma_without_first(entries: Seq<EntryView>, path: Seq<u8>)
    requires
        entries.len() > 0,
    ensures
        without_path(entries, path) == if entries[0].path == path {
            entries.drop_first()
        } else {
            seq![entries[0]] + without_path(entries.drop_first(), path)
        },
{
    let rest = entries.drop_first();
    lemma_position_of(entries, path);
    lemma_position_of(rest, path);
    if entries[0].path == path {
        assert(entries.remove(0) =~= rest);
    } else {
        let i = position_of(rest, path);
        if i < rest.len() {
            assert(entries.remove(i + 1) =~= seq![entries[0]] + rest.remove(i));
        } else {
            assert(entries =~= seq![entries[0]] + rest);
        }
    }
}

/// Taking the entry of a path out of two lists put together is taking it
/// out of each, where no two entries share a path.
proof fn lemma_without_concat(a: Seq<EntryView>, b: Seq<EntryView>, path: Seq<u8>)
    requires
        distinct_paths(a + b),
    ensures
        without_path(a + b, path) == without_path(a, path) + without_path(b, path),
    decreases a.len(),
{
    if a.len() == 0 {
        assert(a + b =~= b);
        assert(without_path(a, path) =~= a);
        assert(without_path(a, path) + without_path(b, path) =~= without_path(b, path));
    } else {
        let all = a + b;
        lemma_without_first(all, path);
        lemma_without_first(a, path);
        assert(all.drop_first() =~= a.drop_first() + b);
        assert(all[0] == a[0]);
        if a[0].path == path {
            assert forall|i: int| 0 <= i < b.len() implies (#[trigger] b[i]).path != path by {
                assert(all[0].path != all[a.len() + i].path);
            }
            lemma_without_lacking(b, path);
        } else {
            assert forall|i: int, j: int| 0 <= i < j < all.drop_first().len() implies (
            #[trigger] all.drop_first()[i]).path != (#[trigger] all.drop_first()[j]).path by {
                assert(all.drop_first()[i] == all[i + 1]);
                assert(all.drop_first()[j] == all[j + 1]);
            }
            lemma_without_concat(a.drop_first(), b, path);
            assert(seq![a[0]] + (without_path(a.drop_first(), path) + without_path(b, path))
                =~= (seq![a[0]] + without_path(a.drop_first(), path)) + without_path(b, path));
        }
    }
}

proof fn lemma_untouched_by_none(entries: Seq<EntryView>, filter: Seq<Seq<u8>>)
    ensures
        untouched(entries, Seq::empty(), filter) == entries,
    decreases entries.len(),
{
    if entries.len() > 0 {
        lemma_untouched_by_none(entries.drop_first(), filter);
        assert(seq![entries[0]] + entries.drop_first() =~= entries);
    }
}

proof fn lemma_untouched_keeps_lack(
    entries: Seq<EntryView>,
    candidates: Seq<CandidateView>,
    filter: Seq<Seq<u8>>,
    path: Seq<u8>,
)
    requires
        lacks(entries, path),
    ensures
        lacks(untouched(entries, candidates, filter), path),
    decreases entries.len(),
{
    if entries.len() > 0 {
        let rest = entries.drop_first();
        assert forall|i: int| 0 <= i < rest.len() implies (#[trigger] rest[i]).path != path by {
            assert(rest[i] == entries[i + 1]);
        }
        lemma_untouched_keeps_lack(rest, candidates, filter, path);
        let kept = untouched(rest, candidates, filter);
        let out = untouched(entries, candidates, filter);
        if !touched(candidates, filter, entries[0].path) {
            assert forall|i: int| 0 <= i < out.len() implies (#[trigger] out[i]).path != path by {
                if i > 0 {
                    assert(out[i] == kept[i - 1]);
                }
            }
        }
    }
}

/// One more candidate leaves untouched what was untouched before, but for
/// the entry of its own path.
proof fn lemma_untouched_by_one_more(
    entries: Seq<EntryView>,
    candidates: Seq<CandidateView>,
    filter: Seq<Seq<u8>>,
    c: CandidateView,
)
    requires
        distinct_paths(entries),
    ensures
        untouched(entries, candidates.push(c), filter) == if allowed(filter, c.path) {
            without_path(untouched(entries, candidates, filter), c.path)
        } else {
            untouched(entries, candidates, filter)
        },
    decreases entries.len(),
{
    let more = candidates.push(c);
    assert(more.drop_last() =~= candidates);
    assert(more.last() == c);
    if entries.len() == 0 {
        assert(without_path(Seq::<EntryView>::empty(), c.path) =~= Seq::<EntryView>::empty());
    } else {
        let rest = entries.drop_first();
        assert forall|i: int, j: int| 0 <= i < j < rest.len() implies (#[trigger] rest[i]).path
            != (#[trigger] rest[j]).path by {
            assert(rest[i] == entries[i + 1]);
            assert(rest[j] == entries[j + 1]);
        }
        lemma_untouched_by_one_more(rest, candidates, filter, c);
        let before = untouched(entries, candidates, filter);
        let kept = untouched(rest, candidates, filter);
        if allowed(filter, c.path) {
            if entries[0].path == c.path {
                assert forall|i: int| 0 <= i < rest.len() implies (#[trigger] rest[i]).path
                    != c.path by {
                    assert(rest[i] == entries[i + 1]);
                    assert(entries[0].path != entries[i + 1].path);
                }
                lemma_untouched_keeps_lack(rest, candidates, filter, c.path);
                lemma_without_lacking(kept, c.path);
                if !touched(candidates, filter, entries[0].path) {
                    lemma_without_first(before, c.path);
                    assert(before.drop_first() =~= kept);
                }
            } else {
                if !touched(candidates, filter, entries[0].path) {
                    lemma_without_first(before, c.path);
                    assert(before.drop_first() =~= kept);
                    assert(before[0] == entries[0]);
                }
            }
        }
    }
}

/// A batch leaves the untouched entries in front, in their order, and puts
/// behind them what it would make of an empty index.
proof fn lemma_batch_splits(
    entries: Seq<EntryView>,
    filter: Seq<Seq<u8>>,
    candidates: Seq<CandidateView>,
)
    requires
        distinct_paths(entries),
    ensures
        after_candidates(entries, filter, candidates) == untouched(entries, candidates, filter)
            + after_candidates(Seq::empty(), filter, candidates),
    decreases candidates.len(),
{
    let none = Seq::<EntryView>::empty();
    if candidates.len() == 0 {
        lemma_untouched_by_none(entries, filter);
        assert(entries + none =~= entries);
        assert(candidates =~= Seq::<CandidateView>::empty());
    } else {
        let earlier = candidates.drop_last();
        let c = candidates.last();
        assert(earlier.push(c) =~= candidates);
        lemma_batch_splits(entries, filter, earlier);
        lemma_untouched_by_one_more(entries, earlier, filter, c);
        let front = untouched(entries, earlier, filter);
        let back = after_candidates(none, filter, earlier);
        if allowed(filter, c.path) {
            lemma_candidates_keep_paths_distinct(entries, filter, earlier);
            lemma_one_candidate(front + back, filter, c);
            lemma_one_candidate(back, filter, c);
            lemma_without_concat(front, back, c.path);
            match c.file {
                Some(f) => {
                    let e = entry_of(c.path, f);
                    assert((without_path(front, c.path) + without_path(back, c.path)).push(e)
                        =~= without_path(front, c.path) + without_path(back, c.path).push(e));
                },
                None => {},
            }
        }
    }
}

/// Every entry has a path that the batch touches.
pub open spec fn all_touched(
    entries: Seq<EntryView>,
    candidates: Seq<CandidateView>,
    filter: Seq<Seq<u8>>,
) -> bool {
    forall|i: int| 0 <= i < entries.len() ==> touched(candidates, filter, (#[trigger] entries[i]).path)
}

proof fn lemma_without_is_part(entries: Seq<EntryView>, path: Seq<u8>, k: int)
    requires
        0 <= k < without_path(entries, path).len(),
    ensures
        exists|i: int| 0 <= i < entries.len() && entries[i] == without_path(entries, path)[k],
{
    lemma_position_of(entries, path);
    let at = position_of(entries, path);
    if at < entries.len() {
        if k < at {
            assert(entries[k] == without_path(entries, path)[k]);
        } else {
            assert(entries[k + 1] == without_path(entries, path)[k]);
        }
    } else {
        assert(entries[k] == without_path(entries, path)[k]);
    }
}

/// What a batch makes of an empty index holds touched paths only.
proof fn lemma_batch_from_nothing(filter: Seq<Seq<u8>>, candidates: Seq<CandidateView>)
    ensures
        all_touched(after_candidates(Seq::empty(), filter, candidates), candidates, filter),
    decreases candidates.len(),
{
    let none = Seq::<EntryView>::empty();
    if candidates.len() > 0 {
        let earlier = candidates.drop_last();
        let c = candidates.last();
        lemma_batch_from_nothing(filter, earlier);
        let back = after_candidates(none, filter, earlier);
        let out = after_candidates(none, filter, candidates);
        if allowed(filter, c.path) {
            lemma_one_candidate(back, filter, c);
            let kept = without_path(back, c.path);
            assert forall|i: int| 0 <= i < out.len() implies touched(
                candidates,
                filter,
                (#[trigger] out[i]).path,
            ) by {
                if i < kept.len() {
                    lemma_without_is_part(back, c.path, i);
                    let j = choose|j: int| 0 <= j < back.len() && back[j] == kept[i];
                    assert(touched(earlier, filter, back[j].path));
                    assert(out[i] == kept[i]);
                }
            }
        } else {
            assert forall|i: int| 0 <= i < out.len() implies touched(
                candidates,
                filter,
                (#[trigger] out[i]).path,
            ) by {
                assert(touched(earlier, filter, back[i].path));
            }
        }
    }
}

proof fn lemma_untouched_concat(
    a: Seq<EntryView>,
    b: Seq<EntryView>,
    candidates: Seq<CandidateView>,
    filter: Seq<Seq<u8>>,
)
    ensures
        untouched(a + b, candidates, filter) == untouched(a, candidates, filter) + untouched(
            b,
            candidates,
            filter,
        ),
    decreases a.len(),
{
    if a.len() == 0 {
        assert(a + b =~= b);
        assert(untouched(a, candidates, filter) + untouched(b, candidates, filter) =~= untouched(
            b,
            candidates,
            filter,
        ));
    } else {
        lemma_untouched_concat(a.drop_first(), b, candidates, filter);
        assert((a + b).drop_first() =~= a.drop_first() + b);
        assert((a + b)[0] == a[0]);
        assert(untouched(a + b, candidates, filter) =~= untouched(a, candidates, filter)
            + untouched(b, candidates, filter));
    }
}

proof fn lemma_untouched_twice(
    entries: Seq<EntryView>,
    candidates: Seq<CandidateView>,
    filter: Seq<Seq<u8>>,
)
    ensures
        untouched(untouched(entries, candidates, filter), candidates, filter) == untouched(
            entries,
            candidates,
            filter,
        ),
    decreases entries.len(),
{
    if entries.len() > 0 {
        let rest = entries.drop_first();
        lemma_untouched_twice(rest, candidates, filter);
        if !touched(candidates, filter, entries[0].path) {
            let once = untouched(entries, candidates, filter);
            assert(once.drop_first() =~= untouched(rest, candidates, filter));
            assert(once[0] == entries[0]);
        }
    }
}

proof fn lemma_untouched_of_touched(
    entries: Seq<EntryView>,
    candidates: Seq<CandidateView>,
    filter: Seq<Seq<u8>>,
)
    requires
        all_touched(entries, candidates, filter),
    ensures
        untouched(entries, candidates, filter) == Seq::<EntryView>::empty(),
    decreases entries.len(),
{
    if entries.len() > 0 {
        let rest = entries.drop_first();
        assert forall|i: int| 0 <= i < rest.len() implies touched(
            candidates,
            filter,
            (#[trigger] rest[i]).path,
        ) by {
            assert(rest[i] == entries[i + 1]);
        }
        lemma_untouched_of_touched(rest, candidates, filter);
        assert(touched(candidates, filter, entries[0].path));
    }
}

/// Staging a batch of candidates twice, with no file changed in between,
/// leaves the index as it was after the first time: the same entries in
/// the same order.
pub proof fn lemma_add_idempotent(
    entries: Seq<EntryView>,
    filter: Seq<Seq<u8>>,
    candidates: Seq<CandidateView>,
)
    requires
        distinct_paths(entries),
    ensures
        after_candidates(after_candidates(entries, filter, candidates), filter, candidates)
            == after_candidates(entries, filter, candidates),
{
    let once = after_candidates(entries, filter, candidates);
    let front = untouched(entries, candidates, filter);
    let back = after_candidates(Seq::empty(), filter, candidates);
    lemma_batch_splits(entries, filter, candidates);
    lemma_candidates_keep_paths_distinct(entries, filter, candidates);
    lemma_batch_splits(once, filter, candidates);
    lemma_untouched_concat(front, back, candidates, filter);
    lemma_untouched_twice(entries, candidates, filter);
    lemma_batch_from_nothing(filter, candidates);
    lemma_untouched_of_touched(back, candidates, filter);
    assert(front + Seq::<EntryView>::empty() =~= front);
}

} // verus!
