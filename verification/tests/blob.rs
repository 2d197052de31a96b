use rgit::digest;
use rgit::error::StoreError;
use rgit::objects::Blob;
use rgit::store::ObjectStore;

#[test]
fn blob_encoding_is_tag_length_nul_content() {
    let blob = Blob::new_from_bytes(b"hi".to_vec());
    assert_eq!(blob.serialize(), b"blob 2\0hi".to_vec());
    let empty = Blob::new_from_bytes(Vec::new());
    assert_eq!(empty.serialize(), b"blob 0\0".to_vec());
    let longer = Blob::new_from_bytes(b"hello, world".to_vec());
    assert_eq!(longer.serialize(), b"blob 12\0hello, world".to_vec());
}

#[test]
fn blob_digest_covers_the_encoding() {
    let blob = Blob::new_from_bytes(b"hi".to_vec());
    assert_eq!(blob.sha(), b"32f95c0d1244a78b2be1bab8de17906fabb2c4a8".to_vec());
    assert_eq!(blob.sha(), digest(b"blob 2\0hi"));
    assert_ne!(blob.sha(), digest(b"hi"));
}

#[test]
fn blob_digest_is_stable() {
    let a = Blob::new_from_bytes(b"same content".to_vec());
    let b = Blob::new_from_bytes(b"same content".to_vec());
    assert_eq!(a.sha(), a.sha());
    assert_eq!(a.sha(), b.sha());
    let c = Blob::new_from_bytes(b"other content".to_vec());
    assert_ne!(a.sha(), c.sha());
}

#[test]
fn blob_round_trip() {
    let content = b"line one\0with a NUL\nand more".to_vec();
    let blob = Blob::new_from_bytes(content.clone());
    let back = Blob::deserialize(&blob.serialize()).unwrap();
    assert_eq!(back.bytes(), &content[..]);
    assert_eq!(back.sha(), blob.sha());
}

#[test]
fn blob_decoding_takes_all_after_the_first_nul() {
    let blob = Blob::deserialize(b"blob 3\0a\0b").unwrap();
    assert_eq!(blob.bytes(), b"a\0b");
}

#[test]
fn blob_decoding_rejects_other_tags_and_missing_nul() {
    assert_eq!(Blob::deserialize(b"tree 2\0hi").unwrap_err(), StoreError::Format);
    assert_eq!(Blob::deserialize(b"blob 2 hi").unwrap_err(), StoreError::Format);
    assert_eq!(Blob::deserialize(b"").unwrap_err(), StoreError::Format);
    assert_eq!(Blob::deserialize(b"blob").unwrap_err(), StoreError::Format);
}

#[test]
fn blob_store_then_load() {
    let mut store = ObjectStore::new();
    let blob = Blob::new_from_bytes(b"hello".to_vec());
    let sha = blob.store(&mut store);
    assert_eq!(sha, b"b6fc4c620b67d95f953a5c1c1230aaab5db5a1b0".to_vec());
    assert_eq!(store.get(&sha), Some(&b"blob 5\0hello".to_vec()));
    let back = Blob::new_from_object_file(&store, &sha).unwrap();
    assert_eq!(back.bytes(), b"hello");
}

#[test]
fn blob_load_of_a_missing_object_is_not_found() {
    let store = ObjectStore::new();
    let sha = b"b6fc4c620b67d95f953a5c1c1230aaab5db5a1b0".to_vec();
    assert_eq!(Blob::new_from_object_file(&store, &sha).unwrap_err(), StoreError::NotFound);
}

#[test]
fn blob_load_detects_content_under_the_wrong_name() {
    let mut store = ObjectStore::new();
    let wrong = b"0000000000000000000000000000000000000000".to_vec();
    store.insert(wrong.clone(), b"blob 5\0hello".to_vec());
    assert_eq!(Blob::new_from_object_file(&store, &wrong).unwrap_err(), StoreError::Integrity);
}

#[test]
fn blob_load_of_a_malformed_object_is_a_format_error() {
    let mut store = ObjectStore::new();
    let key = b"0000000000000000000000000000000000000000".to_vec();
    store.insert(key.clone(), b"not an object".to_vec());
    assert_eq!(Blob::new_from_object_file(&store, &key).unwrap_err(), StoreError::Format);
}

#[test]
fn storing_the_same_content_twice_keeps_one_object() {
    let mut store = ObjectStore::new();
    let a = Blob::new_from_bytes(b"twin".to_vec()).store(&mut store);
    let b = Blob::new_from_bytes(b"twin".to_vec()).store(&mut store);
    assert_eq!(a, b);
    assert_eq!(store.objects().len(), 1);
    assert_eq!(store.objects()[0].key, a);
    Blob::new_from_bytes(b"other".to_vec()).store(&mut store);
    assert_eq!(store.objects().len(), 2);
}

#[test]
fn store_insert_replaces_and_get_finds() {
    let mut store = ObjectStore::new();
    assert!(!store.contains(b"k"));
    assert_eq!(store.get(b"k"), None);
    store.insert(b"k".to_vec(), b"one".to_vec());
    store.insert(b"j".to_vec(), b"two".to_vec());
    store.insert(b"k".to_vec(), b"three".to_vec());
    assert!(store.contains(b"k"));
    assert_eq!(store.get(b"k"), Some(&b"three".to_vec()));
    assert_eq!(store.get(b"j"), Some(&b"two".to_vec()));
    assert_eq!(store.objects().len(), 2);
}

#[test]
fn store_put_files_under_the_digest() {
    let mut store = ObjectStore::new();
    let key = store.put(b"abc");
    assert_eq!(key, b"a9993e364706816aba3e25717850c26c9cd0d89d".to_vec());
    assert_eq!(store.get(&key), Some(&b"abc".to_vec()));
}
