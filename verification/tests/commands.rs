use rgit::commands::{Commands, DevCommands};
use rgit::dir_builder::DirBuilder;
use rgit::error::StoreError;
use rgit::ignore::IgnoreFilter;
use rgit::objects::index::{Candidate, Staged, WorkFile};
use rgit::objects::{Blob, Commit, Head, Index, Tree};
use rgit::restore::RestoreStep;
use rgit::store::ObjectStore;
use rgit::storing::{Object, Storable};

fn candidate(path: &[u8], content: &[u8]) -> Candidate {
    Candidate {
        path: path.to_vec(),
        file: Some(WorkFile { mode: 0o100644, bytes: content.to_vec() }),
    }
}

#[test]
fn init_plans_the_skeleton_of_a_repository() {
    let plan = Commands::init(false).unwrap();
    assert_eq!(
        plan.dirs,
        vec![b".rgit/objects".to_vec(), b".rgit/refs".to_vec(), b".rgit/refs/heads".to_vec()]
    );
    let files: Vec<(Vec<u8>, Vec<u8>)> =
        plan.files.into_iter().map(|f| (f.path, f.content)).collect();
    assert_eq!(
        files,
        vec![
            (b".rgit/HEAD".to_vec(), b"main".to_vec()),
            (b".rgit/refs/heads/main".to_vec(), Vec::new()),
            (b".rgit/index.json".to_vec(), Vec::new()),
        ]
    );
}

#[test]
fn clean_names_the_root_of_the_repository() {
    assert_eq!(DevCommands::clean(), b".rgit".to_vec());
    assert_eq!(DirBuilder::clean(), b".rgit".to_vec());
}

#[test]
fn init_refuses_an_existing_repository() {
    assert_eq!(Commands::init(true).unwrap_err(), StoreError::AlreadyExists);
    assert_eq!(DirBuilder::store(true).unwrap_err(), StoreError::AlreadyExists);
    assert!(DirBuilder::store(false).is_ok());
}

#[test]
fn expansion_pattern_lists_all_below_a_directory() {
    assert_eq!(Index::expansion_pattern(b"src"), b"src/**/*".to_vec());
    assert_eq!(Index::expansion_pattern(b"src/"), b"src/**/*".to_vec());
    assert_eq!(Index::expansion_pattern(b""), b"/**/*".to_vec());
}

#[test]
fn add_commit_log_and_checkout() {
    let mut store = ObjectStore::new();
    let mut index = Index::new();
    let filter = IgnoreFilter::new(b"");
    let first = vec![candidate(b"a.txt", b"hi"), candidate(b"dir/b.txt", b"hello")];
    assert_eq!(
        Commands::add(&mut index, &first, &filter),
        vec![Staged::Updated, Staged::Updated]
    );
    Blob::new_from_bytes(b"hi".to_vec()).store(&mut store);
    Blob::new_from_bytes(b"hello".to_vec()).store(&mut store);

    let unborn = Head::read_HEAD(&store, b"main".to_vec(), b"", 64, 64).unwrap();
    assert!(Commands::log(&unborn).is_empty());
    let (commit, update) = Commands::commit(&index, unborn, b"first".to_vec());
    assert_eq!(update.path, b".rgit/refs/heads/main".to_vec());
    assert_eq!(update.content, commit.sha());
    assert!(commit.parent().is_none());
    assert_eq!(commit.tree().sha(), DevCommands::build_tree(&index).sha());
    let first_sha = commit.store(&mut store);

    let second = vec![candidate(b"a.txt", b"changed")];
    Commands::add(&mut index, &second, &filter);
    Blob::new_from_bytes(b"changed".to_vec()).store(&mut store);
    let head = Head::read_HEAD(&store, b"main".to_vec(), &update.content, 64, 64).unwrap();
    let (commit, update) = Commands::commit(&index, head, b"second".to_vec());
    let second_sha = commit.store(&mut store);
    assert_eq!(commit.parent().unwrap().sha(), first_sha);

    let head = Head::read_HEAD(&store, b"main".to_vec(), &update.content, 64, 64).unwrap();
    let log: Vec<(Vec<u8>, Vec<u8>)> =
        Commands::log(&head).into_iter().map(|l| (l.sha, l.message)).collect();
    assert_eq!(
        log,
        vec![(second_sha.clone(), b"second".to_vec()), (first_sha.clone(), b"first".to_vec())]
    );

    let steps = Commands::checkout(&store, &first_sha, b"old", false, 64, 64).unwrap();
    let written: Vec<(Vec<u8>, Vec<u8>)> = steps
        .into_iter()
        .filter_map(|s| match s {
            RestoreStep::WriteFile { path, bytes, .. } => Some((path, bytes)),
            RestoreStep::CreateDir { .. } => None,
        })
        .collect();
    assert_eq!(
        written,
        vec![
            (b"old/dir/b.txt".to_vec(), b"hello".to_vec()),
            (b"old/a.txt".to_vec(), b"hi".to_vec()),
        ]
    );
    assert_eq!(
        Commands::checkout(&store, &second_sha, b"new", true, 64, 64).unwrap_err(),
        StoreError::AlreadyExists
    );
    assert_eq!(
        Commands::checkout(&store, b"unknown", b"new", false, 64, 64).unwrap_err(),
        StoreError::NotFound
    );
}

#[test]
fn status_command_is_the_delta() {
    let mut index = Index::new();
    let filter = IgnoreFilter::new(b"");
    Commands::add(&mut index, &vec![candidate(b"a", b"1")], &filter);
    let working = vec![
        rgit::objects::index::Entry::new_from_path(
            b"a".to_vec(),
            &WorkFile { mode: 0o100644, bytes: b"1".to_vec() },
        ),
        rgit::objects::index::Entry::new_from_path(
            b"b".to_vec(),
            &WorkFile { mode: 0o100644, bytes: b"2".to_vec() },
        ),
    ];
    let delta = Commands::status(&index, &working);
    assert_eq!(delta.len(), 1);
    assert_eq!(delta[0].path(), b"b");
}

#[test]
fn dev_commands_load_what_is_stored() {
    let mut store = ObjectStore::new();
    let mut index = Index::new();
    let filter = IgnoreFilter::new(b"");
    Commands::add(&mut index, &vec![candidate(b"d/f", b"x")], &filter);
    let tree = DevCommands::build_tree(&index);
    let tree_sha = tree.store(&mut store);
    let commit = Commit::new(tree, None, b"m".to_vec());
    let commit_sha = commit.store(&mut store);
    assert_eq!(DevCommands::dbg_tree(&store, &tree_sha, 4).unwrap().sha(), tree_sha);
    assert_eq!(DevCommands::dbg_commit(&store, &commit_sha, 4, 4).unwrap().sha(), commit_sha);
    assert_eq!(DevCommands::dbg_tree(&store, &tree_sha, 0).unwrap_err(), StoreError::TooDeep);
}

#[test]
fn every_object_kind_serializes_and_stores_through_the_traits() {
    let mut store = ObjectStore::new();
    let blob = Blob::new_from_bytes(b"hi".to_vec());
    assert_eq!(Object::serialize(&blob), b"blob 2\0hi".to_vec());
    Storable::store(&blob, &mut store);
    assert_eq!(store.get(&blob.sha()), Some(&b"blob 2\0hi".to_vec()));
    let tree = Tree::new(b"ROOT", Vec::new());
    assert_eq!(Object::serialize(&tree), b"tree 0\0".to_vec());
    Storable::store(&tree, &mut store);
    assert!(store.contains(&tree.sha()));
    let commit = Commit::new(Tree::new(b"ROOT", Vec::new()), None, b"m".to_vec());
    assert_eq!(Object::serialize(&commit), commit.serialize());
    Storable::store(&commit, &mut store);
    assert!(store.contains(&commit.sha()));
    assert_eq!(store.objects().len(), 3);
}
