use rgit::digest;
use rgit::error::StoreError;
use rgit::ignore::IgnoreFilter;
use rgit::objects::index::{Candidate, Entry, Staged, WorkFile};
use rgit::objects::Index;

fn work_file(mode: u32, bytes: &[u8]) -> WorkFile {
    WorkFile { mode, bytes: bytes.to_vec() }
}

fn triple(e: &Entry) -> (u32, Vec<u8>, Vec<u8>) {
    (e.mode(), e.path().to_vec(), e.sha().to_vec())
}

#[test]
fn adding_a_file_stages_the_digest_of_its_blob() {
    let mut index = Index::new();
    let hi = work_file(0o100644, b"hi");
    assert_eq!(index.add_entry_from_path(b"a.txt", Some(&hi)), Ok(()));
    assert_eq!(index.entries().len(), 1);
    let entry = &index.entries()[0];
    assert_eq!(entry.path(), b"a.txt");
    assert_eq!(entry.mode(), 0o100644);
    assert_eq!(entry.sha(), &digest(b"blob 2\0hi")[..]);
    assert_eq!(entry.sha(), b"32f95c0d1244a78b2be1bab8de17906fabb2c4a8");
}

#[test]
fn adding_a_deleted_file_removes_its_entry() {
    let mut index = Index::new();
    index.add_entry_from_path(b"a.txt", Some(&work_file(0o100644, b"hi"))).unwrap();
    index.add_entry_from_path(b"b.txt", Some(&work_file(0o100644, b"yo"))).unwrap();
    assert_eq!(index.add_entry_from_path(b"a.txt", None), Ok(()));
    assert_eq!(index.entries().len(), 1);
    assert_eq!(index.entries()[0].path(), b"b.txt");
}

#[test]
fn adding_a_path_that_is_nowhere_is_not_found() {
    let mut index = Index::new();
    index.add_entry_from_path(b"a.txt", Some(&work_file(0o100644, b"hi"))).unwrap();
    assert_eq!(index.add_entry_from_path(b"ghost.txt", None), Err(StoreError::NotFound));
    assert_eq!(index.entries().len(), 1);
    assert_eq!(index.entries()[0].path(), b"a.txt");
}

#[test]
fn adding_twice_leaves_the_index_as_after_the_first_time() {
    let mut index = Index::new();
    index.add_entry_from_path(b"x", Some(&work_file(0o100644, b"1"))).unwrap();
    index.add_entry_from_path(b"y", Some(&work_file(0o100755, b"2"))).unwrap();
    index.add_entry_from_path(b"x", Some(&work_file(0o100644, b"1"))).unwrap();
    let once: Vec<_> = index.entries().iter().map(triple).collect();
    index.add_entry_from_path(b"x", Some(&work_file(0o100644, b"1"))).unwrap();
    let twice: Vec<_> = index.entries().iter().map(triple).collect();
    assert_eq!(once, twice);
    assert_eq!(twice.len(), 2);
}

#[test]
fn adding_a_changed_file_replaces_its_entry() {
    let mut index = Index::new();
    index.add_entry_from_path(b"x", Some(&work_file(0o100644, b"old"))).unwrap();
    index.add_entry_from_path(b"y", Some(&work_file(0o100644, b"other"))).unwrap();
    index.add_entry_from_path(b"x", Some(&work_file(0o100755, b"new"))).unwrap();
    let all: Vec<_> = index.entries().iter().map(triple).collect();
    assert_eq!(
        all,
        vec![
            (0o100644, b"y".to_vec(), digest(b"blob 5\0other")),
            (0o100755, b"x".to_vec(), digest(b"blob 3\0new")),
        ]
    );
}

#[test]
fn files_with_the_same_content_share_a_digest() {
    let mut index = Index::new();
    index.add_entry_from_path(b"one.txt", Some(&work_file(0o100644, b"twin"))).unwrap();
    index.add_entry_from_path(b"dir/two.txt", Some(&work_file(0o100755, b"twin"))).unwrap();
    assert_eq!(index.entries().len(), 2);
    assert_eq!(index.entries()[0].sha(), index.entries()[1].sha());
    assert_ne!(index.entries()[0].path(), index.entries()[1].path());
}

#[test]
fn query_by_path_finds_the_position() {
    let mut index = Index::new();
    index.add_entry_from_path(b"a", Some(&work_file(1, b"a"))).unwrap();
    index.add_entry_from_path(b"b", Some(&work_file(1, b"b"))).unwrap();
    assert_eq!(index.query_by_path(b"a"), Some(0));
    assert_eq!(index.query_by_path(b"b"), Some(1));
    assert_eq!(index.query_by_path(b"c"), None);
}

#[test]
fn batch_add_goes_on_past_ignored_and_missing_paths() {
    let mut index = Index::new();
    index.add_entry_from_path(b"gone.txt", Some(&work_file(0o100644, b"x"))).unwrap();
    let filter = IgnoreFilter::new(b"target");
    let candidates = vec![
        Candidate { path: b"target/out".to_vec(), file: Some(work_file(0o100644, b"bin")) },
        Candidate { path: b"missing.txt".to_vec(), file: None },
        Candidate { path: b"gone.txt".to_vec(), file: None },
        Candidate { path: b"src/main.rs".to_vec(), file: Some(work_file(0o100644, b"fn main")) },
    ];
    let outcome = index.add(&candidates, &filter);
    assert_eq!(
        outcome,
        vec![Staged::Ignored, Staged::NotFound, Staged::Removed, Staged::Updated]
    );
    assert_eq!(index.entries().len(), 1);
    assert_eq!(index.entries()[0].path(), b"src/main.rs");
    assert_eq!(index.entries()[0].sha(), &digest(b"blob 7\0fn main")[..]);
}

#[test]
fn status_reports_what_the_index_does_not_hold_exactly() {
    let mut index = Index::new();
    index.add_entry_from_path(b"same", Some(&work_file(0o100644, b"s"))).unwrap();
    index.add_entry_from_path(b"edited", Some(&work_file(0o100644, b"before"))).unwrap();
    index.add_entry_from_path(b"chmod", Some(&work_file(0o100644, b"c"))).unwrap();
    let working = vec![
        Entry::new_from_path(b"same".to_vec(), &work_file(0o100644, b"s")),
        Entry::new_from_path(b"edited".to_vec(), &work_file(0o100644, b"after")),
        Entry::new_from_path(b"chmod".to_vec(), &work_file(0o100755, b"c")),
        Entry::new_from_path(b"new".to_vec(), &work_file(0o100644, b"n")),
    ];
    let delta = index.status(&working);
    let paths: Vec<_> = delta.iter().map(|e| e.path().to_vec()).collect();
    assert_eq!(paths, vec![b"edited".to_vec(), b"chmod".to_vec(), b"new".to_vec()]);
    assert!(index.holds(&working[0]));
    assert!(!index.holds(&working[1]));
}

#[test]
fn status_of_an_unchanged_tree_is_empty() {
    let mut index = Index::new();
    index.add_entry_from_path(b"a", Some(&work_file(0o100644, b"a"))).unwrap();
    let working = vec![Entry::new_from_path(b"a".to_vec(), &work_file(0o100644, b"a"))];
    assert!(index.status(&working).is_empty());
    assert!(Index::new().status(&Vec::new()).is_empty());
}

#[test]
fn entry_accessors() {
    let mut e = Entry::new(0o100755, b"dir/run.sh".to_vec(), b"abc".to_vec());
    assert_eq!(e.mode(), 0o100755);
    assert_eq!(e.path(), b"dir/run.sh");
    assert_eq!(e.sha(), b"abc");
    assert!(e.is_executable());
    assert!(!e.is_top_level());
    *e.path_mut() = b"run.sh".to_vec();
    assert_eq!(e.path(), b"run.sh");
    assert!(e.is_top_level());
    let plain = Entry::new(0o100644, b"x".to_vec(), b"abc".to_vec());
    assert!(!plain.is_executable());
    assert!(plain.same_as(&plain.duplicate()));
    assert!(!plain.same_as(&e));
}

#[test]
fn try_new_is_none_without_a_file() {
    assert!(Entry::try_new(b"a".to_vec(), None).is_none());
    let f = work_file(0o100644, b"hi");
    let e = Entry::try_new(b"a".to_vec(), Some(&f)).unwrap();
    assert_eq!(triple(&e), (0o100644, b"a".to_vec(), digest(b"blob 2\0hi")));
}

#[test]
fn index_from_entries_keeps_them_in_order() {
    let index = Index::from_entries(vec![
        Entry::new(1, b"b".to_vec(), b"s1".to_vec()),
        Entry::new(2, b"a".to_vec(), b"s2".to_vec()),
    ]);
    let all: Vec<_> = index.entries().iter().map(triple).collect();
    assert_eq!(
        all,
        vec![(1, b"b".to_vec(), b"s1".to_vec()), (2, b"a".to_vec(), b"s2".to_vec())]
    );
}

#[test]
fn an_index_read_back_can_be_checked_for_duplicate_paths() {
    let good = Index::from_entries(vec![
        Entry::new(1, b"a".to_vec(), b"s1".to_vec()),
        Entry::new(1, b"b".to_vec(), b"s1".to_vec()),
        Entry::new(1, b"c".to_vec(), b"s1".to_vec()),
    ]);
    assert!(good.has_distinct_paths());
    let bad = Index::from_entries(vec![
        Entry::new(1, b"a".to_vec(), b"s1".to_vec()),
        Entry::new(1, b"b".to_vec(), b"s2".to_vec()),
        Entry::new(2, b"a".to_vec(), b"s3".to_vec()),
    ]);
    assert!(!bad.has_distinct_paths());
    assert!(Index::new().has_distinct_paths());
}

#[test]
fn adding_a_batch_twice_leaves_the_index_as_after_the_first_time() {
    let mut index = Index::new();
    index.add_entry_from_path(b"keep", Some(&work_file(0o100644, b"k"))).unwrap();
    index.add_entry_from_path(b"gone", Some(&work_file(0o100644, b"g"))).unwrap();
    index.add_entry_from_path(b"b", Some(&work_file(0o100644, b"old"))).unwrap();
    let filter = IgnoreFilter::new(b"skip");
    let batch = vec![
        Candidate { path: b"a".to_vec(), file: Some(work_file(0o100644, b"1")) },
        Candidate { path: b"gone".to_vec(), file: None },
        Candidate { path: b"skip/x".to_vec(), file: Some(work_file(0o100644, b"2")) },
        Candidate { path: b"b".to_vec(), file: Some(work_file(0o100755, b"3")) },
        Candidate { path: b"a".to_vec(), file: Some(work_file(0o100644, b"4")) },
        Candidate { path: b"nowhere".to_vec(), file: None },
    ];
    index.add(&batch, &filter);
    let once: Vec<_> = index.entries().iter().map(triple).collect();
    let paths: Vec<Vec<u8>> = once.iter().map(|t| t.1.clone()).collect();
    assert_eq!(paths, vec![b"keep".to_vec(), b"b".to_vec(), b"a".to_vec()]);
    let outcome = index.add(&batch, &filter);
    let twice: Vec<_> = index.entries().iter().map(triple).collect();
    assert_eq!(once, twice);
    assert_eq!(
        outcome,
        vec![
            Staged::Updated,
            Staged::NotFound,
            Staged::Ignored,
            Staged::Updated,
            Staged::Updated,
            Staged::NotFound,
        ]
    );
    assert!(index.has_distinct_paths());
}

#[test]
fn an_empty_index_file_stands_for_an_empty_index_to_be_written() {
    let (index, is_new) = Index::new_from_index_file(None);
    assert!(is_new);
    assert!(index.entries().is_empty());
    let (index, is_new) =
        Index::new_from_index_file(Some(vec![Entry::new(7, b"a".to_vec(), b"s".to_vec())]));
    assert!(!is_new);
    assert_eq!(index.entries().len(), 1);
    assert_eq!(triple(&index.entries()[0]), (7, b"a".to_vec(), b"s".to_vec()));
    let (index, is_new) = Index::new_from_index_file(Some(Vec::new()));
    assert!(!is_new);
    assert!(index.entries().is_empty());
}
