//! The staging index: at most one entry per path, each naming the mode and
//! the blob digest of what will be committed next.

use crate::error::StoreError;
use crate::identifiers::SLASH;
use crate::ignore::{allowed, IgnoreFilter};
use crate::objects::blob::{blob_digest, Blob};
use crate::text::{copy_bytes, find, free_of, lemma_find_byte, same_bytes};
use vstd::prelude::*;

verus! {

/// What an entry says, as plain values.
pub struct EntryView {
    pub mode: u32,
    pub path: Seq<u8>,
    pub sha: Seq<u8>,
}

/// A file as it is found in the working directory.
#[derive(Debug)]
pub struct WorkFile {
    pub mode: u32,
    pub bytes: Vec<u8>,
}

/// What a working file says, as plain values.
pub struct WorkFileView {
    pub mode: u32,
    pub bytes: Seq<u8>,
}

impl View for WorkFile {
    type V = WorkFileView;

    open spec fn view(&self) -> WorkFileView {
        WorkFileView { mode: self.mode, bytes: self.bytes@ }
    }
}

/// A path put forward for staging, with the file that is there now, if any.
#[derive(Debug)]
pub struct Candidate {
    pub path: Vec<u8>,
    pub file: Option<WorkFile>,
}

/// What a candidate says, as plain values.
pub struct CandidateView {
    pub path: Seq<u8>,
    pub file: Option<WorkFileView>,
}

impl View for Candidate {
    type V = CandidateView;

    open spec fn view(&self) -> CandidateView {
        CandidateView {
            path: self.path@,
            file: match self.file {
                Some(f) => Some(f@),
                None => None,
            },
        }
    }
}

/// What became of a candidate.
#[derive(Debug, Clone, Copy, PartialEq, Eq, Structural)]
pub enum Staged {
    /// The ignore filter excludes the path: nothing was done.
    Ignored,
    /// The file is there: its entry was put in, in place of an earlier one.
    Updated,
    /// The file is gone and had an entry: the entry was taken out.
    Removed,
    /// The file is gone and had no entry: nothing was done.
    NotFound,
}

/// Holds the mode, path and content digest of one staged file.
#[derive(Debug)]
pub struct Entry {
    mode: u32,
    path: Vec<u8>,
    sha: Vec<u8>,
}

impl View for Entry {
    type V = EntryView;

    closed spec fn view(&self) -> EntryView {
        EntryView { mode: self.mode, path: self.path@, sha: self.sha@ }
    }
}

/// The entry that stages `file` at `path`: its mode, and the digest of the
/// blob that holds its content.
pub open spec fn entry_of(path: Seq<u8>, file: WorkFileView) -> EntryView {
    EntryView { mode: file.mode, path, sha: blob_digest(file.bytes) }
}

/// The views of a list of entries.
pub open spec fn entry_views(entries: Seq<Entry>) -> Seq<EntryView> {
    entries.map_values(|e: Entry| e@)
}

/// The views of a list of candidates.
pub open spec fn candidate_views(candidates: Seq<Candidate>) -> Seq<CandidateView> {
    candidates.map_values(|c: Candidate| c@)
}

/// The position of the first entry for `path`, or the number of entries if
/// there is none.
pub open spec fn position_of(entries: Seq<EntryView>, path: Seq<u8>) -> int
    decreases entries.len(),
{
    if entries.len() == 0 {
        0
    } else if entries[0].path == path {
        0
    } else {
        1 + position_of(entries.drop_first(), path)
    }
}

/// No two entries have the same path.
pub open spec fn distinct_paths(entries: Seq<EntryView>) -> bool {
    forall|i: int, j: int|
        0 <= i < j < entries.len() ==> (#[trigger] entries[i]).path != (#[trigger] entries[j]).path
}

/// The entries without the first one for `path`.
pub open spec fn without_path(entries: Seq<EntryView>, path: Seq<u8>) -> Seq<EntryView> {
    let i = position_of(entries, path);
    if 0 <= i < entries.len() {
        entries.remove(i)
    } else {
        entries
    }
}

/// What staging one path does. A file that is there replaces the entry of
/// its path, or is added; a file that is gone has its entry taken out; a
/// file that is gone and was never staged is an error.
pub open spec fn staging(entries: Seq<EntryView>, path: Seq<u8>, file: Option<WorkFileView>)
    -> Result<Seq<EntryView>, StoreError> {
    match file {
        Some(f) => Ok(without_path(entries, path).push(entry_of(path, f))),
        None => if 0 <= position_of(entries, path) < entries.len() {
            Ok(without_path(entries, path))
        } else {
            Err(StoreError::NotFound)
        },
    }
}

/// The entries after staging one path: unchanged where staging fails.
pub open spec fn after_staging(
    entries: Seq<EntryView>,
    path: Seq<u8>,
    file: Option<WorkFileView>,
) -> Seq<EntryView> {
    match staging(entries, path, file) {
        Ok(next) => next,
        Err(_) => entries,
    }
}

/// What becomes of one candidate, given the entries and the filter.
pub open spec fn outcome_of(
    entries: Seq<EntryView>,
    filter: Seq<Seq<u8>>,
    candidate: CandidateView,
) -> Staged {
    if !allowed(filter, candidate.path) {
        Staged::Ignored
    } else if candidate.file.is_some() {
        Staged::Updated
    } else if 0 <= position_of(entries, candidate.path) < entries.len() {
        Staged::Removed
    } else {
        Staged::NotFound
    }
}

/// The entries after one candidate: an ignored path changes nothing, and
/// neither does one that fails.
pub open spec fn after_candidate(
    entries: Seq<EntryView>,
    filter: Seq<Seq<u8>>,
    candidate: CandidateView,
) -> Seq<EntryView> {
    if allowed(filter, candidate.path) {
        after_staging(entries, candidate.path, candidate.file)
    } else {
        entries
    }
}

/// The entries after a batch of candidates, taken in order.
pub open spec fn after_candidates(
    entries: Seq<EntryView>,
    filter: Seq<Seq<u8>>,
    candidates: Seq<CandidateView>,
) -> Seq<EntryView>
    decreases candidates.len(),
{
    if candidates.len() == 0 {
        entries
    } else {
        after_candidate(
            after_candidates(entries, filter, candidates.drop_last()),
            filter,
            candidates.last(),
        )
    }
}

/// `"**/*"`, which matches every path below a directory.
pub const EVERYTHING_BELOW: [u8; 4] = [0x2a, 0x2a, 0x2f, 0x2a];

/// The pattern that lists all that lies under the directory `dir`: the
/// directory, a `/` unless it ends in one, and `**/*`.
pub open spec fn pattern_below(dir: Seq<u8>) -> Seq<u8> {
    if dir.len() > 0 && dir.last() == SLASH {
        dir + EVERYTHING_BELOW@
    } else {
        dir + seq![SLASH] + EVERYTHING_BELOW@
    }
}

/// The working entries that the index does not hold as they are: an entry
/// counts as held only if mode, path and digest all agree.
pub open spec fn delta(working: Seq<EntryView>, staged: Seq<EntryView>) -> Seq<EntryView>
    decreases working.len(),
{
    if working.len() == 0 {
        Seq::empty()
    } else if staged.contains(working.last()) {
        delta(working.drop_last(), staged)
    } else {
        delta(working.drop_last(), staged).push(working.last())
    }
}

/// `position_of` is within bounds, passes over no entry for the path, and
/// stops on one.
pub proof fn lemma_position_of(entries: Seq<EntryView>, path: Seq<u8>)
    ensures
        0 <= position_of(entries, path) <= entries.len(),
        forall|j: int| 0 <= j < position_of(entries, path) ==> (#[trigger] entries[j]).path != path,
        position_of(entries, path) < entries.len() ==> entries[position_of(entries, path)].path
            == path,
    decreases entries.len(),
{
    if entries.len() > 0 && entries[0].path != path {
        let rest = entries.drop_first();
        lemma_position_of(rest, path);
        assert forall|j: int| 0 <= j < position_of(entries, path) implies (
        #[trigger] entries[j]).path != path by {
            if j > 0 {
                assert(entries[j] == rest[j - 1]);
            }
        }
    }
}

/// An index that passes over no entry for the path and stops on one, or on
/// the end, is the one that `position_of` gives.
pub proof fn lemma_position_of_is(entries: Seq<EntryView>, path: Seq<u8>, i: int)
    requires
        0 <= i <= entries.len(),
        forall|j: int| 0 <= j < i ==> (#[trigger] entries[j]).path != path,
        i < entries.len() ==> entries[i].path == path,
    ensures
        position_of(entries, path) == i,
{
    lemma_position_of(entries, path);
    let k = position_of(entries, path);
    if k < i {
        assert(entries[k].path != path);
    } else if i < k {
        assert(entries[i].path != path);
    }
}

/// Staging keeps the index a set keyed by path: where no two entries shared
/// a path before, none do after, and at most one entry has the staged path.
pub proof fn lemma_staging_keeps_paths_distinct(
    entries: Seq<EntryView>,
    path: Seq<u8>,
    file: Option<WorkFileView>,
)
    requires
        distinct_paths(entries),
    ensures
        distinct_paths(after_staging(entries, path, file)),
{
    lemma_position_of(entries, path);
    let i = position_of(entries, path);
    let rest = without_path(entries, path);
    assert forall|j: int| 0 <= j < rest.len() implies (#[trigger] rest[j]).path != path by {
        if i < entries.len() {
            if j < i {
                assert(rest[j] == entries[j]);
            } else {
                assert(rest[j] == entries[j + 1]);
            }
        } else {
            assert(rest[j] == entries[j]);
        }
    }
    assert forall|a: int, b: int| 0 <= a < b < rest.len() implies (#[trigger] rest[a]).path != (
    #[trigger] rest[b]).path by {
        if i < entries.len() {
            let a0 = if a < i { a } else { a + 1 };
            let b0 = if b < i { b } else { b + 1 };
            assert(rest[a] == entries[a0]);
            assert(rest[b] == entries[b0]);
        }
    }
}

/// A batch of candidates keeps the index a set keyed by path.
pub proof fn lemma_candidates_keep_paths_distinct(
    entries: Seq<EntryView>,
    filter: Seq<Seq<u8>>,
    candidates: Seq<CandidateView>,
)
    requires
        distinct_paths(entries),
    ensures
        distinct_paths(after_candidates(entries, filter, candidates)),
    decreases candidates.len(),
{
    if candidates.len() > 0 {
        lemma_candidates_keep_paths_distinct(entries, filter, candidates.drop_last());
        lemma_staging_keeps_paths_distinct(
            after_candidates(entries, filter, candidates.drop_last()),
            candidates.last().path,
            candidates.last().file,
        );
    }
}

/// Staging a path twice, with the file unchanged in between, leaves the
/// index as it was after the first time.
pub proof fn lemma_staging_idempotent(
    entries: Seq<EntryView>,
    path: Seq<u8>,
    file: Option<WorkFileView>,
)
    requires
        distinct_paths(entries),
    ensures
        after_staging(after_staging(entries, path, file), path, file) == after_staging(
            entries,
            path,
            file,
        ),
{
    lemma_position_of(entries, path);
    let i = position_of(entries, path);
    let rest = without_path(entries, path);
    assert forall|j: int| 0 <= j < rest.len() implies (#[trigger] rest[j]).path != path by {
        if i < entries.len() {
            if j < i {
                assert(rest[j] == entries[j]);
            } else {
                assert(rest[j] == entries[j + 1]);
            }
        } else {
            assert(rest[j] == entries[j]);
        }
    }
    match file {
        Some(f) => {
            let once = rest.push(entry_of(path, f));
            lemma_position_of_is(once, path, rest.len() as int);
            assert(once.remove(rest.len() as int) =~= rest);
        },
        None => {
            lemma_position_of_is(rest, path, rest.len() as int);
        },
    }
}

/// Two files with the same content are staged under the same blob digest,
/// whatever their paths and modes.
pub proof fn lemma_same_content_same_digest(
    path_a: Seq<u8>,
    file_a: WorkFileView,
    path_b: Seq<u8>,
    file_b: WorkFileView,
)
    requires
        file_a.bytes == file_b.bytes,
    ensures
        entry_of(path_a, file_a).sha == entry_of(path_b, file_b).sha,
{
}

impl Entry {
    /// An entry with these three values.
    pub fn new(mode: u32, path: Vec<u8>, sha: Vec<u8>) -> (out: Entry)
        ensures
            out@ == (EntryView { mode, path: path@, sha: sha@ }),
    {
        Entry { mode, path, sha }
    }

    /// The entry that stages the file found at `path`.
    pub fn new_from_path(path: Vec<u8>, file: &WorkFile) -> (out: Entry)
        ensures
            out@ == entry_of(path@, file@),
    {
        let sha = Blob::new_from_bytes(copy_bytes(&file.bytes)).sha();
        Entry { mode: file.mode, path, sha }
    }

    /// The entry that stages what is at `path`, or `None` if nothing is there.
    pub fn try_new(path: Vec<u8>, file: Option<&WorkFile>) -> (out: Option<Entry>)
        ensures
            match (out, file) {
                (Some(e), Some(f)) => e@ == entry_of(path@, f@),
                (None, None) => true,
                _ => false,
            },
    {
        match file {
            None => None,
            Some(f) => Some(Entry::new_from_path(path, f)),
        }
    }

    pub fn path(&self) -> (out: &[u8])
        ensures
            out@ == self@.path,
    {
        self.path.as_slice()
    }

    pub fn path_mut(&mut self) -> (out: &mut Vec<u8>)
        ensures
            out@ == old(self)@.path,
            final(self)@ == (EntryView { path: final(out)@, ..old(self)@ }),
    {
        &mut self.path
    }

    pub fn mode(&self) -> (out: u32)
        ensures
            out == self@.mode,
    {
        self.mode
    }

    pub fn sha(&self) -> (out: &[u8])
        ensures
            out@ == self@.sha,
    {
        self.sha.as_slice()
    }

    /// Whether others may execute the file.
    pub fn is_executable(&self) -> (out: bool)
        ensures
            out == (self@.mode & 0o001 != 0),
    {
        (self.mode & 0o001) != 0
    }

    /// Whether the path has a single segment.
    pub fn is_top_level(&self) -> (out: bool)
        ensures
            out == free_of(self@.path, SLASH),
    {
        let i: usize = find(self.path.as_slice(), SLASH);
        proof {
            lemma_find_byte(self.path@, SLASH);
        }
        i >= self.path.len()
    }

    /// A copy of the entry.
    pub fn duplicate(&self) -> (out: Entry)
        ensures
            out@ == self@,
    {
        Entry { mode: self.mode, path: copy_bytes(&self.path), sha: copy_bytes(&self.sha) }
    }

    /// Whether two entries agree in mode, path and digest.
    pub fn same_as(&self, other: &Entry) -> (out: bool)
        ensures
            out == (self@ == other@),
    {
        self.mode == other.mode && same_bytes(&self.path, &other.path) && same_bytes(
            &self.sha,
            &other.sha,
        )
    }
}

/// The staging area. Its view is the list of its entries, in the order in
/// which they were staged.
#[derive(Debug)]
pub struct Index {
    entries: Vec<Entry>,
}

impl View for Index {
    type V = Seq<EntryView>;

    closed spec fn view(&self) -> Seq<EntryView> {
        entry_views(self.entries@)
    }
}

impl Index {
    /// The index is a set keyed by path: no two entries share a path.
    pub open spec fn wf(&self) -> bool {
        distinct_paths(self@)
    }

    /// An index with nothing staged.
    pub fn new() -> (out: Index)
        ensures
            out@ == Seq::<EntryView>::empty(),
            out.wf(),
    {
        let out = Index { entries: Vec::new() };
        proof {
            assert(out@ =~= Seq::<EntryView>::empty());
        }
        out
    }

    /// The index that its file stands for: `stored` is what the file holds,
    /// or `None` if the file is empty. An empty file stands for an empty
    /// index, which is then to be written to the file first: the second
    /// result says so.
    pub fn new_from_index_file(stored: Option<Vec<Entry>>) -> (out: (Index, bool))
        ensures
            out.0@ == match stored {
                Some(entries) => entry_views(entries@),
                None => Seq::<EntryView>::empty(),
            },
            out.1 == stored.is_none(),
    {
        match stored {
            Some(entries) => (Index::from_entries(entries), false),
            None => (Index::new(), true),
        }
    }

    /// The index that holds these entries.
    pub fn from_entries(entries: Vec<Entry>) -> (out: Index)
        ensures
            out@ == entry_views(entries@),
    {
        Index { entries }
    }

    /// Whether no two entries share a path, as must hold of an index that
    /// is read back from its file.
    pub fn has_distinct_paths(&self) -> (out: bool)
        ensures
            out == self.wf(),
    {
        let mut j: usize = 0;
        while j < self.entries.len()
            invariant
                0 <= j <= self.entries.len(),
                self@.len() == self.entries@.len(),
                forall|a: int, b: int|
                    0 <= a < b < j ==> (#[trigger] self@[a]).path != (#[trigger] self@[b]).path,
            decreases self.entries.len() - j,
        {
            let mut i: usize = 0;
            while i < j
                invariant
                    0 <= i <= j < self.entries.len(),
                    self@.len() == self.entries@.len(),
                    forall|a: int| 0 <= a < i ==> (#[trigger] self@[a]).path != self@[j as int].path,
                decreases j - i,
            {
                proof {
                    assert(self@[i as int] == self.entries@[i as int]@);
                    assert(self@[j as int] == self.entries@[j as int]@);
                }
                if same_bytes(self.entries[i].path(), self.entries[j].path()) {
                    return false;
                }
                i += 1;
            }
            j += 1;
        }
        true
    }

    /// The entries, in the order in which they were staged.
    pub fn entries(&self) -> (out: &[Entry])
        ensures
            entry_views(out@) == self@,
    {
        self.entries.as_slice()
    }

    /// The position of the entry for `path`, if there is one.
    pub fn query_by_path(&self, path: &[u8]) -> (out: Option<usize>)
        ensures
            match out {
                Some(i) => i < self@.len() && i == position_of(self@, path@),
                None => position_of(self@, path@) == self@.len(),
            },
    {
        let mut i: usize = 0;
        while i < self.entries.len()
            invariant
                0 <= i <= self.entries.len(),
                self@.len() == self.entries@.len(),
                forall|j: int| 0 <= j < i ==> (#[trigger] self@[j]).path != path@,
            decreases self.entries.len() - i,
        {
            if same_bytes(self.entries[i].path(), path) {
                proof {
                    assert(self@[i as int] == self.entries@[i as int]@);
                    lemma_position_of_is(self@, path@, i as int);
                }
                return Some(i);
            }
            proof {
                assert(self@[i as int] == self.entries@[i as int]@);
            }
            i += 1;
        }
        proof {
            lemma_position_of_is(self@, path@, i as int);
        }
        None
    }

    /// Stages one path: puts in the entry of the file that is there, in place
    /// of an earlier entry for the path; takes the entry out if the file is
    /// gone; fails, and changes nothing, if the file is gone and was never
    /// staged.
    pub fn add_entry_from_path(&mut self, path: &[u8], file: Option<&WorkFile>) -> (out: Result<
        (),
        StoreError,
    >)
        ensures
            match out {
                Ok(()) => staging(
                    old(self)@,
                    path@,
                    match file {
                        Some(f) => Some(f@),
                        None => None,
                    },
                ) == Ok::<Seq<EntryView>, StoreError>(final(self)@),
                Err(e) => staging(
                    old(self)@,
                    path@,
                    match file {
                        Some(f) => Some(f@),
                        None => None,
                    },
                ) == Err::<Seq<EntryView>, StoreError>(e) && final(self)@ == old(self)@,
            },
            old(self).wf() ==> final(self).wf(),
    {
        proof {
            if old(self).wf() {
                lemma_staging_keeps_paths_distinct(
                    old(self)@,
                    path@,
                    match file {
                        Some(f) => Some(f@),
                        None => None,
                    },
                );
            }
        }
        let new_maybe_entry = Entry::try_new(copy_bytes(path), file);
        let existing_maybe_i = self.query_by_path(path);
        match new_maybe_entry {
            None => match existing_maybe_i {
                None => {
                    return Err(StoreError::NotFound);
                },
                Some(existing_i) => {
                    self.entries.remove(existing_i);
                    proof {
                        assert(final(self)@ =~= old(self)@.remove(existing_i as int));
                    }
                },
            },
            Some(new_entry) => {
                if let Some(existing_i) = existing_maybe_i {
                    self.entries.remove(existing_i);
                    proof {
                        assert(self@ =~= old(self)@.remove(existing_i as int));
                    }
                }
                let ghost before = self@;
                self.entries.push(new_entry);
                proof {
                    assert(final(self)@ =~= before.push(new_entry@));
                }
            },
        }
        Ok(())
    }

    /// The pattern by which the files under a directory are listed when the
    /// directory is put forward for staging.
    pub fn expansion_pattern(dir: &[u8]) -> (out: Vec<u8>)
        ensures
            out@ == pattern_below(dir@),
    {
        let mut out = copy_bytes(dir);
        if !(dir.len() > 0 && dir[dir.len() - 1] == SLASH) {
            out.push(SLASH);
        }
        out.extend_from_slice(&EVERYTHING_BELOW);
        out
    }

    /// Stages a batch of candidates in order. A candidate that the filter
    /// excludes is passed over, and so is one that fails: neither stops the
    /// rest. Says of each candidate what became of it.
    pub fn add(&mut self, candidates: &Vec<Candidate>, filter: &IgnoreFilter) -> (out: Vec<Staged>)
        ensures
            final(self)@ == after_candidates(old(self)@, filter@, candidate_views(candidates@)),
            out@.len() == candidates@.len(),
            forall|i: int|
                0 <= i < candidates@.len() ==> #[trigger] out@[i] == outcome_of(
                    after_candidates(old(self)@, filter@, candidate_views(candidates@).take(i)),
                    filter@,
                    candidates@[i]@,
                ),
            old(self).wf() ==> final(self).wf(),
    {
        proof {
            if old(self).wf() {
                lemma_candidates_keep_paths_distinct(
                    old(self)@,
                    filter@,
                    candidate_views(candidates@),
                );
            }
        }
        let mut out: Vec<Staged> = Vec::new();
        let mut i: usize = 0;
        let ghost all = candidate_views(candidates@);
        proof {
            assert(all.take(0) =~= Seq::<CandidateView>::empty());
        }
        while i < candidates.len()
            invariant
                0 <= i <= candidates.len(),
                all == candidate_views(candidates@),
                self@ == after_candidates(old(self)@, filter@, all.take(i as int)),
                out@.len() == i,
                forall|k: int|
                    0 <= k < i ==> #[trigger] out@[k] == outcome_of(
                        after_candidates(old(self)@, filter@, all.take(k)),
                        filter@,
                        candidates@[k]@,
                    ),
            decreases candidates.len() - i,
        {
            let candidate = &candidates[i];
            let ghost before = self@;
            proof {
                assert(all.take(i + 1).drop_last() =~= all.take(i as int));
                assert(all.take(i + 1).last() == candidate@);
            }
            let what = if !filter.is_valid(candidate.path.as_slice()) {
                Staged::Ignored
            } else {
                match self.add_entry_from_path(candidate.path.as_slice(), candidate.file.as_ref()) {
                    Err(_) => Staged::NotFound,
                    Ok(()) => if candidate.file.is_some() {
                        Staged::Updated
                    } else {
                        Staged::Removed
                    },
                }
            };
            out.push(what);
            i += 1;
        }
        proof {
            assert(all.take(i as int) =~= all);
        }
        out
    }

    /// The delta between the working directory and the index: the working
    /// entries that the index does not hold with the same mode, path and
    /// digest, in the order given.
    pub fn status(&self, working: &Vec<Entry>) -> (out: Vec<Entry>)
        ensures
            entry_views(out@) == delta(entry_views(working@), self@),
    {
        let mut out: Vec<Entry> = Vec::new();
        let mut i: usize = 0;
        let ghost all = entry_views(working@);
        proof {
            assert(all.take(0) =~= Seq::<EntryView>::empty());
            assert(entry_views(out@) =~= Seq::<EntryView>::empty());
        }
        while i < working.len()
            invariant
                0 <= i <= working.len(),
                all == entry_views(working@),
                entry_views(out@) == delta(all.take(i as int), self@),
            decreases working.len() - i,
        {
            let entry = &working[i];
            proof {
                assert(all.take(i + 1).drop_last() =~= all.take(i as int));
                assert(all.take(i + 1).last() == entry@);
            }
            if !self.holds(entry) {
                let ghost before = entry_views(out@);
                out.push(entry.duplicate());
                proof {
                    assert(entry_views(out@) =~= before.push(entry@));
                }
            }
            i += 1;
        }
        proof {
            assert(all.take(i as int) =~= all);
        }
        out
    }

    /// Whether the index holds an entry with this mode, path and digest.
    pub fn holds(&self, entry: &Entry) -> (out: bool)
        ensures
            out == self@.contains(entry@),
    {
        let mut i: usize = 0;
        while i < self.entries.len()
            invariant
                0 <= i <= self.entries.len(),
                self@.len() == self.entries@.len(),
                forall|j: int| 0 <= j < i ==> #[trigger] self@[j] != entry@,
            decreases self.entries.len() - i,
        {
            proof {
                assert(self@[i as int] == self.entries@[i as int]@);
            }
            if self.entries[i].same_as(entry) {
                return true;
            }
            i += 1;
        }
        false
    }
}

} // verus!
