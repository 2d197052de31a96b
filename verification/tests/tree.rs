use rgit::digest;
use rgit::error::StoreError;
use rgit::objects::index::{Entry, WorkFile};
use rgit::objects::tree::EntryType;
use rgit::objects::{Blob, Index, Tree};
use rgit::restore::RestoreStep;
use rgit::store::ObjectStore;

fn staged(path: &[u8], mode: u32, content: &[u8]) -> Entry {
    Entry::new_from_path(path.to_vec(), &WorkFile { mode, bytes: content.to_vec() })
}

fn sample() -> Vec<Entry> {
    vec![
        staged(b"dir/a.txt", 33188, b"hi"),
        staged(b"top.txt", 33188, b"hi"),
        staged(b"dir/b.txt", 33261, b"hello"),
    ]
}

fn names(tree: &Tree) -> Vec<(bool, Vec<u8>)> {
    tree.entries()
        .iter()
        .map(|e| match e {
            EntryType::Tree(t) => (false, t.name().to_vec()),
            EntryType::Blob(b) => (true, b.file_name().to_vec()),
        })
        .collect()
}

#[test]
fn two_files_in_one_directory_make_one_subtree() {
    let mut index = Index::new();
    index
        .add_entry_from_path(b"dir/a.txt", Some(&WorkFile { mode: 33188, bytes: b"hi".to_vec() }))
        .unwrap();
    index
        .add_entry_from_path(b"dir/b.txt", Some(&WorkFile { mode: 33188, bytes: b"yo".to_vec() }))
        .unwrap();
    let root = Tree::from_index(&index);
    assert_eq!(root.name(), b"ROOT");
    assert_eq!(root.entries().len(), 1);
    match &root.entries()[0] {
        EntryType::Tree(dir) => {
            assert_eq!(dir.name(), b"dir");
            assert_eq!(
                names(dir),
                vec![(true, b"a.txt".to_vec()), (true, b"b.txt".to_vec())]
            );
        },
        EntryType::Blob(_) => panic!("a file where the directory should be"),
    }
}

#[test]
fn files_come_first_then_directories_in_order_of_first_occurrence() {
    let tree = Tree::new(
        b"ROOT",
        vec![
            staged(b"z/1", 33188, b"1"),
            staged(b"top", 33188, b"t"),
            staged(b"a/2", 33188, b"2"),
            staged(b"z/3", 33188, b"3"),
            staged(b"last", 33188, b"l"),
        ],
    );
    assert_eq!(
        names(&tree),
        vec![
            (true, b"top".to_vec()),
            (true, b"last".to_vec()),
            (false, b"z".to_vec()),
            (false, b"a".to_vec()),
        ]
    );
    match &tree.entries()[2] {
        EntryType::Tree(z) => {
            assert_eq!(names(z), vec![(true, b"1".to_vec()), (true, b"3".to_vec())])
        },
        EntryType::Blob(_) => panic!("a file where the directory should be"),
    }
}

#[test]
fn a_directory_is_told_from_one_whose_name_it_begins() {
    let tree = Tree::new(
        b"ROOT",
        vec![staged(b"dir/x", 33188, b"x"), staged(b"dir2/y", 33188, b"y")],
    );
    assert_eq!(names(&tree), vec![(false, b"dir".to_vec()), (false, b"dir2".to_vec())]);
}

#[test]
fn nested_directories_nest() {
    let tree = Tree::new(b"ROOT", vec![staged(b"a/b/c.txt", 33188, b"deep")]);
    assert_eq!(names(&tree), vec![(false, b"a".to_vec())]);
    match &tree.entries()[0] {
        EntryType::Tree(a) => {
            assert_eq!(names(a), vec![(false, b"b".to_vec())]);
            match &a.entries()[0] {
                EntryType::Tree(b) => {
                    assert_eq!(names(b), vec![(true, b"c.txt".to_vec())]);
                    match &b.entries()[0] {
                        EntryType::Blob(leaf) => {
                            assert_eq!(leaf.mode(), 33188);
                            assert_eq!(leaf.sha(), &digest(b"blob 4\0deep")[..]);
                        },
                        EntryType::Tree(_) => panic!("a directory where the file should be"),
                    }
                },
                EntryType::Blob(_) => panic!("a file where the directory should be"),
            }
        },
        EntryType::Blob(_) => panic!("a file where the directory should be"),
    }
}

#[test]
fn add_index_entries_appends_to_what_is_there() {
    let mut tree = Tree::new(b"ROOT", vec![staged(b"one", 33188, b"1")]);
    tree.add_index_entries(vec![staged(b"d/two", 33188, b"2"), staged(b"three", 33188, b"3")]);
    assert_eq!(
        names(&tree),
        vec![(true, b"one".to_vec()), (true, b"three".to_vec()), (false, b"d".to_vec())]
    );
}

#[test]
fn tree_encoding_is_byte_exact() {
    let tree = Tree::new(b"ROOT", sample());
    let mut expected = b"tree 113\0tree 493 dir 0d841ef2f12961d28948eac65b6a97e87ae103c4".to_vec();
    expected.extend_from_slice(b"\0blob 33188 top.txt 32f95c0d1244a78b2be1bab8de17906fabb2c4a8");
    assert_eq!(tree.serialize(), expected);
    assert_eq!(tree.sha(), b"ecd5332fc5646edf65c931bb91d50b39a5631f2b".to_vec());
    match &tree.entries()[1] {
        EntryType::Tree(dir) => {
            let mut listing = b"tree 115\0".to_vec();
            listing
                .extend_from_slice(b"blob 33188 a.txt 32f95c0d1244a78b2be1bab8de17906fabb2c4a8\0");
            listing.extend_from_slice(b"blob 33261 b.txt b6fc4c620b67d95f953a5c1c1230aaab5db5a1b0");
            assert_eq!(dir.serialize(), listing);
        },
        EntryType::Blob(_) => panic!("a file where the directory should be"),
    }
}

#[test]
fn empty_tree_encoding() {
    let tree = Tree::new(b"ROOT", Vec::new());
    assert_eq!(tree.serialize(), b"tree 0\0".to_vec());
    assert_eq!(tree.sha(), b"4b825dc642cb6eb9a060e54bf8d69288fbee4904".to_vec());
}

#[test]
fn tree_digest_does_not_depend_on_the_order_of_the_entries() {
    let a = Tree::new(b"ROOT", sample());
    let mut reversed = sample();
    reversed.reverse();
    let b = Tree::new(b"ROOT", reversed);
    let mut rotated = sample();
    rotated.rotate_left(1);
    let c = Tree::new(b"ROOT", rotated);
    assert_eq!(a.sha(), b.sha());
    assert_eq!(a.sha(), c.sha());
    assert_eq!(a.serialize(), b.serialize());
}

#[test]
fn tree_digest_does_not_depend_on_the_tree_name() {
    let a = Tree::new(b"ROOT", sample());
    let b = Tree::new(b"elsewhere", sample());
    assert_eq!(a.sha(), b.sha());
}

#[test]
fn tree_listing_puts_subtrees_first_and_sorts_by_name() {
    let tree = Tree::new(
        b"ROOT",
        vec![
            staged(b"b", 33188, b""),
            staged(b"a", 33188, b""),
            staged(b"z/f", 33188, b""),
            staged(b"c/f", 33188, b""),
        ],
    );
    let text = tree.serialize();
    let body = &text[text.iter().position(|b| *b == 0).unwrap() + 1..];
    let lines: Vec<&[u8]> = body.split(|b| *b == 0).collect();
    assert_eq!(lines.len(), 4);
    assert!(lines[0].starts_with(b"tree 493 c "));
    assert!(lines[1].starts_with(b"tree 493 z "));
    assert!(lines[2].starts_with(b"blob 33188 a "));
    assert!(lines[3].starts_with(b"blob 33188 b "));
}

#[test]
fn tree_store_files_subtrees_and_the_tree() {
    let mut store = ObjectStore::new();
    let tree = Tree::new(b"ROOT", sample());
    let sha = tree.store(&mut store);
    assert_eq!(sha, tree.sha());
    assert_eq!(store.objects().len(), 2);
    assert_eq!(store.get(&sha), Some(&tree.serialize()));
    assert!(store.contains(b"0d841ef2f12961d28948eac65b6a97e87ae103c4"));
    assert_eq!(
        store.objects()[0].key,
        b"0d841ef2f12961d28948eac65b6a97e87ae103c4".to_vec()
    );
}

#[test]
fn tree_round_trip_through_the_store() {
    let mut store = ObjectStore::new();
    let tree = Tree::new(b"ROOT", sample());
    let sha = tree.store(&mut store);
    let back = Tree::new_from_object_file(&store, &sha, b"ROOT", 8).unwrap();
    assert_eq!(back.name(), b"ROOT");
    assert_eq!(back.sha(), sha);
    assert_eq!(names(&back), vec![(false, b"dir".to_vec()), (true, b"top.txt".to_vec())]);
    match &back.entries()[0] {
        EntryType::Tree(dir) => {
            assert_eq!(
                names(dir),
                vec![(true, b"a.txt".to_vec()), (true, b"b.txt".to_vec())]
            );
            match &dir.entries()[1] {
                EntryType::Blob(leaf) => {
                    assert_eq!(leaf.mode(), 33261);
                    assert_eq!(leaf.sha(), b"b6fc4c620b67d95f953a5c1c1230aaab5db5a1b0");
                },
                EntryType::Tree(_) => panic!("a directory where the file should be"),
            }
        },
        EntryType::Blob(_) => panic!("a file where the directory should be"),
    }
}

#[test]
fn tree_load_of_an_empty_tree() {
    let mut store = ObjectStore::new();
    let sha = Tree::new(b"ROOT", Vec::new()).store(&mut store);
    let back = Tree::new_from_object_file(&store, &sha, b"ROOT", 0).unwrap();
    assert!(back.entries().is_empty());
}

#[test]
fn tree_load_errors() {
    let mut store = ObjectStore::new();
    let tree = Tree::new(b"ROOT", sample());
    let sha = tree.store(&mut store);
    assert_eq!(
        Tree::new_from_object_file(&store, b"missing", b"ROOT", 8).unwrap_err(),
        StoreError::NotFound
    );
    assert_eq!(
        Tree::new_from_object_file(&store, &sha, b"ROOT", 0).unwrap_err(),
        StoreError::TooDeep
    );
    store.insert(b"k1".to_vec(), b"blob 2\0hi".to_vec());
    assert_eq!(
        Tree::new_from_object_file(&store, b"k1", b"ROOT", 8).unwrap_err(),
        StoreError::Format
    );
    store.insert(b"k2".to_vec(), b"tree 9 no nul".to_vec());
    assert_eq!(
        Tree::new_from_object_file(&store, b"k2", b"ROOT", 8).unwrap_err(),
        StoreError::Format
    );
    store.insert(b"k3".to_vec(), b"tree 9\0link 1 a b".to_vec());
    assert_eq!(
        Tree::new_from_object_file(&store, b"k3", b"ROOT", 8).unwrap_err(),
        StoreError::Format
    );
    store.insert(b"k4".to_vec(), b"tree 9\0blob x a b".to_vec());
    assert_eq!(
        Tree::new_from_object_file(&store, b"k4", b"ROOT", 8).unwrap_err(),
        StoreError::Format
    );
    store.insert(b"k5".to_vec(), b"tree 9\0blob 1 a".to_vec());
    assert_eq!(
        Tree::new_from_object_file(&store, b"k5", b"ROOT", 8).unwrap_err(),
        StoreError::Format
    );
    store.insert(b"k6".to_vec(), b"tree 9\0tree 493 sub gone".to_vec());
    assert_eq!(
        Tree::new_from_object_file(&store, b"k6", b"ROOT", 8).unwrap_err(),
        StoreError::NotFound
    );
}

#[test]
fn tree_load_passes_over_empty_entries() {
    let mut store = ObjectStore::new();
    store.insert(b"k".to_vec(), b"tree 0\0blob 7 a s1\0\0blob 8 b s2\0".to_vec());
    let tree = Tree::new_from_object_file(&store, b"k", b"n", 0).unwrap();
    assert_eq!(tree.name(), b"n");
    assert_eq!(names(&tree), vec![(true, b"a".to_vec()), (true, b"b".to_vec())]);
}

#[test]
fn restore_plans_directories_before_their_files() {
    let mut store = ObjectStore::new();
    Blob::new_from_bytes(b"hi".to_vec()).store(&mut store);
    Blob::new_from_bytes(b"hello".to_vec()).store(&mut store);
    let tree = Tree::new(b"ROOT", sample());
    let steps = tree.restore(&store, b"out", false).unwrap();
    let shown: Vec<String> = steps
        .iter()
        .map(|s| match s {
            RestoreStep::CreateDir { path } => {
                format!("mkdir {}", String::from_utf8_lossy(path))
            },
            RestoreStep::WriteFile { path, mode, bytes } => format!(
                "write {} {:o} {}",
                String::from_utf8_lossy(path),
                mode,
                String::from_utf8_lossy(bytes)
            ),
        })
        .collect();
    assert_eq!(
        shown,
        vec![
            "mkdir out".to_string(),
            "write out/top.txt 100644 hi".to_string(),
            "mkdir out/dir".to_string(),
            "write out/dir/a.txt 100644 hi".to_string(),
            "write out/dir/b.txt 100755 hello".to_string(),
        ]
    );
}

#[test]
fn restore_refuses_a_destination_that_exists() {
    let store = ObjectStore::new();
    let tree = Tree::new(b"ROOT", Vec::new());
    assert_eq!(tree.restore(&store, b"out", true).unwrap_err(), StoreError::AlreadyExists);
    assert_eq!(tree.restore(&store, b"out", false).unwrap().len(), 1);
    let named = Tree::new(b"sub", Vec::new());
    assert_eq!(named.restore(&store, b"out", true).unwrap().len(), 1);
}

#[test]
fn restore_fails_when_a_blob_is_missing_or_corrupt() {
    let mut store = ObjectStore::new();
    let tree = Tree::new(b"ROOT", vec![staged(b"a", 33188, b"hi")]);
    assert_eq!(tree.restore(&store, b"out", false).unwrap_err(), StoreError::NotFound);
    store.insert(digest(b"blob 2\0hi"), b"blob 2\0ho".to_vec());
    assert_eq!(tree.restore(&store, b"out", false).unwrap_err(), StoreError::Integrity);
}

#[test]
fn restoring_and_staging_again_gives_the_same_tree_digest() {
    let mut store = ObjectStore::new();
    Blob::new_from_bytes(b"hi".to_vec()).store(&mut store);
    Blob::new_from_bytes(b"hello".to_vec()).store(&mut store);
    let tree = Tree::new(b"ROOT", sample());
    let sha = tree.store(&mut store);
    let loaded = Tree::new_from_object_file(&store, &sha, b"ROOT", 8).unwrap();
    let steps = loaded.restore(&store, b"out", false).unwrap();
    let mut again = Index::new();
    for step in steps.iter() {
        if let RestoreStep::WriteFile { path, mode, bytes } = step {
            let relative = path[b"out/".len()..].to_vec();
            again
                .add_entry_from_path(
                    &relative,
                    Some(&WorkFile { mode: *mode, bytes: bytes.clone() }),
                )
                .unwrap();
        }
    }
    assert_eq!(again.entries().len(), 3);
    assert_eq!(Tree::from_index(&again).sha(), sha);
}

#[test]
fn deep_tree_digest_does_not_depend_on_the_order_of_the_entries() {
    let entries = || {
        vec![
            staged(b"a/b/c/1", 33188, b"1"),
            staged(b"a/b/2", 33261, b"2"),
            staged(b"a/3", 33188, b"3"),
            staged(b"4", 33188, b"4"),
            staged(b"a/b/c/5", 33188, b"5"),
            staged(b"z/6", 33188, b"1"),
            staged(b"a/z/7", 33188, b"7"),
        ]
    };
    let expected = Tree::new(b"ROOT", entries()).sha();
    for shift in 1..7 {
        let mut rotated = entries();
        rotated.rotate_left(shift);
        assert_eq!(Tree::new(b"ROOT", rotated).sha(), expected);
        let mut mixed = entries();
        mixed.swap(0, shift);
        mixed.reverse();
        assert_eq!(Tree::new(b"ROOT", mixed).sha(), expected);
    }
}

#[test]
fn deep_tree_survives_store_load_restore_and_staging_again() {
    let mut store = ObjectStore::new();
    let contents: Vec<(&[u8], u32, &[u8])> = vec![
        (b"a/b/c/1", 33188, b"one"),
        (b"a/b/2", 33261, b"two"),
        (b"a/3", 33188, b"three"),
        (b"4", 33188, b"four"),
        (b"z/6", 33188, b"one"),
    ];
    let mut entries = Vec::new();
    for (path, mode, bytes) in contents.iter() {
        Blob::new_from_bytes(bytes.to_vec()).store(&mut store);
        entries.push(staged(path, *mode, bytes));
    }
    let tree = Tree::new(b"ROOT", entries);
    let sha = tree.store(&mut store);
    let loaded = Tree::new_from_object_file(&store, &sha, b"ROOT", 3).unwrap();
    assert_eq!(loaded.sha(), sha);
    assert_eq!(
        Tree::new_from_object_file(&store, &sha, b"ROOT", 2).unwrap_err(),
        StoreError::TooDeep
    );
    let steps = loaded.restore(&store, b"/tmp/out", false).unwrap();
    let mut again = Index::new();
    let mut dirs = Vec::new();
    for step in steps.iter() {
        match step {
            RestoreStep::CreateDir { path } => dirs.push(path.clone()),
            RestoreStep::WriteFile { path, mode, bytes } => {
                let relative = path[b"/tmp/out/".len()..].to_vec();
                let file = WorkFile { mode: *mode, bytes: bytes.clone() };
                again.add_entry_from_path(&relative, Some(&file)).unwrap();
            },
        }
    }
    assert_eq!(
        dirs,
        vec![
            b"/tmp/out".to_vec(),
            b"/tmp/out/a".to_vec(),
            b"/tmp/out/a/b".to_vec(),
            b"/tmp/out/a/b/c".to_vec(),
            b"/tmp/out/z".to_vec(),
        ]
    );
    assert_eq!(again.entries().len(), 5);
    assert_eq!(Tree::from_index(&again).sha(), sha);
}

#[test]
fn a_subtree_named_root_cannot_be_restored() {
    let mut store = ObjectStore::new();
    Blob::new_from_bytes(b"x".to_vec()).store(&mut store);
    let tree = Tree::new(b"ROOT", vec![staged(b"ROOT/f", 33188, b"x")]);
    assert_eq!(tree.restore(&store, b"out", false).unwrap_err(), StoreError::AlreadyExists);
}

#[test]
fn print_shas_lists_names_and_digests_depth_first() {
    let tree = Tree::new(b"ROOT", sample());
    let lines: Vec<(Vec<u8>, Vec<u8>)> =
        tree.print_shas().into_iter().map(|l| (l.name, l.sha)).collect();
    assert_eq!(
        lines,
        vec![
            (b"ROOT".to_vec(), b"ecd5332fc5646edf65c931bb91d50b39a5631f2b".to_vec()),
            (b"top.txt".to_vec(), b"32f95c0d1244a78b2be1bab8de17906fabb2c4a8".to_vec()),
            (b"dir".to_vec(), b"0d841ef2f12961d28948eac65b6a97e87ae103c4".to_vec()),
            (b"a.txt".to_vec(), b"32f95c0d1244a78b2be1bab8de17906fabb2c4a8".to_vec()),
            (b"b.txt".to_vec(), b"b6fc4c620b67d95f953a5c1c1230aaab5db5a1b0".to_vec()),
        ]
    );
}
