use rgit::error::StoreError;
use rgit::objects::index::{Entry, WorkFile};
use rgit::objects::{Blob, Commit, Head, Tree};
use rgit::store::ObjectStore;

fn snapshot() -> Tree {
    let hi = WorkFile { mode: 33188, bytes: b"hi".to_vec() };
    let hello = WorkFile { mode: 33261, bytes: b"hello".to_vec() };
    Tree::new(
        b"ROOT",
        vec![
            Entry::new_from_path(b"dir/a.txt".to_vec(), &hi),
            Entry::new_from_path(b"top.txt".to_vec(), &hi),
            Entry::new_from_path(b"dir/b.txt".to_vec(), &hello),
        ],
    )
}

fn holds(haystack: &[u8], needle: &[u8]) -> bool {
    haystack.windows(needle.len()).any(|w| w == needle)
}

#[test]
fn first_commit_has_no_parent_segment() {
    let commit = Commit::new(snapshot(), None, b"first".to_vec());
    let text = commit.serialize();
    let mut expected = b"commit \0tree ecd5332fc5646edf65c931bb91d50b39a5631f2b".to_vec();
    expected.extend_from_slice(b"\0\0first");
    assert_eq!(text, expected);
    assert!(!holds(&text, b"parent "));
    assert_eq!(commit.sha(), b"78987834065ffb7573da82461849dc19f93facc6".to_vec());
}

#[test]
fn commit_digest_changes_with_the_message_and_the_tree_does_not() {
    let a = Commit::new(snapshot(), None, b"first".to_vec());
    let b = Commit::new(snapshot(), None, b"second".to_vec());
    assert_ne!(a.sha(), b.sha());
    assert_eq!(a.tree().sha(), b.tree().sha());
}

#[test]
fn commit_with_a_parent_names_it() {
    let first = Commit::new(snapshot(), None, b"first".to_vec());
    let second = Commit::new(snapshot(), Some(first), b"second".to_vec());
    let mut expected = b"commit \0tree ecd5332fc5646edf65c931bb91d50b39a5631f2b".to_vec();
    expected.extend_from_slice(b"\0parent 78987834065ffb7573da82461849dc19f93facc6\0second");
    assert_eq!(second.serialize(), expected);
    assert_eq!(second.sha(), b"99f7d0d60bfcddcdb2f6ca2b3937a57e27c8f81d".to_vec());
    assert_eq!(second.parent().unwrap().message(), b"first");
    assert_eq!(second.message(), b"second");
}

#[test]
fn commit_digest_is_recomputed_at_each_call() {
    let commit = Commit::new(snapshot(), None, b"m".to_vec());
    assert_eq!(commit.sha(), commit.sha());
}

#[test]
fn commit_fields_round_trip() {
    let first = Commit::new(snapshot(), None, b"first".to_vec());
    let fields = Commit::deserialize(&first.serialize()).unwrap();
    assert_eq!(fields.tree, b"ecd5332fc5646edf65c931bb91d50b39a5631f2b".to_vec());
    assert_eq!(fields.parent, None);
    assert_eq!(fields.message, b"first".to_vec());
    let second = Commit::new(snapshot(), Some(first), b"with\0NUL and more".to_vec());
    let fields = Commit::deserialize(&second.serialize()).unwrap();
    assert_eq!(fields.parent, Some(b"78987834065ffb7573da82461849dc19f93facc6".to_vec()));
    assert_eq!(fields.message, b"with\0NUL and more".to_vec());
}

#[test]
fn commit_decoding_rejects_malformed_objects() {
    let cases: Vec<&[u8]> = vec![
        b"",
        b"commit ",
        b"commit \0tree ecd5332fc5646edf65c931bb91d50b39a5631f2b\0",
        b"blob \0tree ecd5332fc5646edf65c931bb91d50b39a5631f2b\0\0m",
        b"commit \0tree short\0\0m",
        b"commit \0blob ecd5332fc5646edf65c931bb91d50b39a5631f2b\0\0m",
        b"commit \0tree ecd5332fc5646edf65c931bb91d50b39a5631f2b\0parent short\0m",
        b"commit \0tree ecd5332fc5646edf65c931bb91d50b39a5631f2b\0mother 78987834065ffb7573da82461849dc19f93facc6\0m",
    ];
    for case in cases {
        assert_eq!(Commit::deserialize(case).unwrap_err(), StoreError::Format);
    }
}

#[test]
fn commit_store_files_tree_and_commit_but_not_the_parent() {
    let mut store = ObjectStore::new();
    let first = Commit::new(snapshot(), None, b"first".to_vec());
    let first_sha = first.sha();
    let second = Commit::new(Tree::new(b"ROOT", Vec::new()), Some(first), b"second".to_vec());
    let sha = second.store(&mut store);
    assert_eq!(sha, second.sha());
    assert_eq!(store.get(&sha), Some(&second.serialize()));
    assert!(store.contains(b"4b825dc642cb6eb9a060e54bf8d69288fbee4904"));
    assert!(!store.contains(&first_sha));
    assert_eq!(store.objects().len(), 2);
}

#[test]
fn commit_round_trip_through_the_store() {
    let mut store = ObjectStore::new();
    let first = Commit::new(snapshot(), None, b"first".to_vec());
    let first_sha = first.store(&mut store);
    let second = Commit::new(snapshot(), Some(first), b"second".to_vec());
    let second_sha = second.store(&mut store);
    let back = Commit::new_from_object_file(&store, &second_sha, 8, 8).unwrap();
    assert_eq!(back.sha(), second_sha);
    assert_eq!(back.message(), b"second");
    assert_eq!(back.tree().sha(), b"ecd5332fc5646edf65c931bb91d50b39a5631f2b".to_vec());
    assert_eq!(back.tree().name(), b"ROOT");
    assert_eq!(back.parent().unwrap().sha(), first_sha);
    assert!(back.parent().unwrap().parent().is_none());
}

#[test]
fn commit_load_errors() {
    let mut store = ObjectStore::new();
    let first = Commit::new(snapshot(), None, b"first".to_vec());
    first.store(&mut store);
    let second = Commit::new(snapshot(), Some(first), b"second".to_vec());
    let sha = second.store(&mut store);
    assert_eq!(
        Commit::new_from_object_file(&store, b"nothing", 8, 8).unwrap_err(),
        StoreError::NotFound
    );
    assert_eq!(
        Commit::new_from_object_file(&store, &sha, 8, 0).unwrap_err(),
        StoreError::TooDeep
    );
    assert_eq!(
        Commit::new_from_object_file(&store, &sha, 0, 8).unwrap_err(),
        StoreError::TooDeep
    );
    assert!(Commit::new_from_object_file(&store, &sha, 1, 1).is_ok());
    let orphan = Commit::new(Tree::new(b"ROOT", Vec::new()), None, b"x".to_vec());
    let text = orphan.serialize();
    store.insert(b"orphan".to_vec(), text);
    assert_eq!(
        Commit::new_from_object_file(&store, b"orphan", 8, 8).unwrap_err(),
        StoreError::NotFound
    );
}

#[test]
fn log_walks_from_the_tip_to_the_first_commit() {
    let first = Commit::new(snapshot(), None, b"first".to_vec());
    let first_sha = first.sha();
    let second = Commit::new(snapshot(), Some(first), b"second".to_vec());
    let second_sha = second.sha();
    let third = Commit::new(snapshot(), Some(second), b"third".to_vec());
    let lines: Vec<(Vec<u8>, Vec<u8>)> =
        third.log().into_iter().map(|l| (l.sha, l.message)).collect();
    assert_eq!(
        lines,
        vec![
            (third.sha(), b"third".to_vec()),
            (second_sha, b"second".to_vec()),
            (first_sha, b"first".to_vec()),
        ]
    );
}

#[test]
fn commit_restore_is_the_restore_of_its_tree() {
    let mut store = ObjectStore::new();
    Blob::new_from_bytes(b"hi".to_vec()).store(&mut store);
    Blob::new_from_bytes(b"hello".to_vec()).store(&mut store);
    let commit = Commit::new(snapshot(), None, b"m".to_vec());
    let steps = commit.restore(&store, b"dest", false).unwrap();
    assert_eq!(steps.len(), 5);
    assert_eq!(commit.restore(&store, b"dest", true).unwrap_err(), StoreError::AlreadyExists);
}

#[test]
fn head_of_an_unborn_branch_has_no_commit() {
    let store = ObjectStore::new();
    let head = Head::read_HEAD(&store, b"main".to_vec(), b"", 8, 8).unwrap();
    assert_eq!(head.name(), b"main");
    assert!(head.commit().is_none());
}

#[test]
fn head_reads_the_tip_and_update_names_the_ref_file() {
    let mut store = ObjectStore::new();
    let first = Commit::new(snapshot(), None, b"first".to_vec());
    let sha = first.store(&mut store);
    let head = Head::read_HEAD(&store, b"main".to_vec(), &sha, 8, 8).unwrap();
    assert_eq!(head.commit().as_ref().unwrap().sha(), sha);
    let next = Commit::new(snapshot(), head.into_commit(), b"next".to_vec());
    let unborn = Head::read(&store, b"main".to_vec(), b"", 8, 8).unwrap();
    let update = unborn.update(&next);
    assert_eq!(update.path, b".rgit/refs/heads/main".to_vec());
    assert_eq!(update.content, next.sha());
    assert_eq!(
        Head::read(&store, b"main".to_vec(), b"dangling", 8, 8).unwrap_err(),
        StoreError::NotFound
    );
}
