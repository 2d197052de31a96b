//! Blobs: the stored form of one file's bytes.

use crate::digest::{digest, is_digest, sha1_hex};
use crate::error::StoreError;
use crate::identifiers::{BLOB, NUL, SPACE};
use crate::store::{filed_order, ObjectStore};
use crate::text::{
    copy_range, decimal, find, find_byte, has_prefix, is_digit, lemma_decimal_is_decimal,
    lemma_find_byte_is, push_decimal, same_bytes, starts_with,
};
use vstd::prelude::*;

verus! {

/// The header that opens every blob: the tag and a space.
pub open spec fn blob_header() -> Seq<u8> {
    BLOB@ + seq![SPACE]
}

/// The encoding of a blob: the tag, a space, the decimal length of the
/// content, a NUL, and the content as it is.
pub open spec fn blob_encoding(bytes: Seq<u8>) -> Seq<u8> {
    blob_header() + decimal(bytes.len()) + seq![NUL] + bytes
}

/// The content that an encoded blob holds: everything after the first NUL,
/// provided that the buffer opens with the blob header.
pub open spec fn blob_decoding(buf: Seq<u8>) -> Result<Seq<u8>, StoreError> {
    let i = find_byte(buf, NUL);
    if has_prefix(buf, blob_header()) && 0 <= i < buf.len() {
        Ok(buf.skip(i + 1))
    } else {
        Err(StoreError::Format)
    }
}

/// The digest that a blob with this content is filed under.
pub open spec fn blob_digest(bytes: Seq<u8>) -> Seq<u8> {
    sha1_hex(blob_encoding(bytes))
}

/// What loading a blob by digest gives: the object must be there, must
/// decode, and its content must hash back to the digest asked for.
pub open spec fn blob_loading(objects: Map<Seq<u8>, Seq<u8>>, sha: Seq<u8>) -> Result<
    Seq<u8>,
    StoreError,
> {
    if !objects.contains_key(sha) {
        Err(StoreError::NotFound)
    } else {
        match blob_decoding(objects[sha]) {
            Err(e) => Err(e),
            Ok(bytes) => if blob_digest(bytes) == sha {
                Ok(bytes)
            } else {
                Err(StoreError::Integrity)
            },
        }
    }
}

/// Decoding an encoded blob gives its content back.
pub proof fn lemma_blob_round_trip(bytes: Seq<u8>)
    ensures
        blob_decoding(blob_encoding(bytes)) == Ok::<Seq<u8>, StoreError>(bytes),
{
    let digits = decimal(bytes.len());
    let buf = blob_encoding(bytes);
    let i = 5 + digits.len() as int;
    lemma_decimal_is_decimal(bytes.len());
    assert forall|j: int| 0 <= j < i implies #[trigger] buf[j] != NUL by {
        if j >= 5 {
            assert(buf[j] == digits[j - 5]);
            assert(is_digit(digits[j - 5]));
        }
    }
    assert(buf[i] == NUL);
    lemma_find_byte_is(buf, NUL, i);
    assert(buf.take(5) =~= blob_header());
    assert(buf.skip(i + 1) =~= bytes);
}

/// Two blobs with the same content are filed under the same digest: the
/// digest depends on nothing but the bytes.
pub proof fn lemma_blob_digest_stable(a: Blob, b: Blob)
    requires
        a@ == b@,
    ensures
        blob_digest(a@) == blob_digest(b@),
{
}

/// Loading a blob from any store that holds its encoding under its digest
/// gives the blob back.
pub proof fn lemma_blob_load_stored(objects: Map<Seq<u8>, Seq<u8>>, bytes: Seq<u8>)
    requires
        objects.contains_key(blob_digest(bytes)),
        objects[blob_digest(bytes)] == blob_encoding(bytes),
    ensures
        blob_loading(objects, blob_digest(bytes)) == Ok::<Seq<u8>, StoreError>(bytes),
{
    lemma_blob_round_trip(bytes);
}

/// Storing a second blob with the same content leaves the store as it was
/// after the first: one object is filed under their common digest.
pub proof fn lemma_same_content_one_object(
    objects: Map<Seq<u8>, Seq<u8>>,
    a: Seq<u8>,
    b: Seq<u8>,
)
    requires
        a == b,
    ensures
        objects.insert(blob_digest(a), blob_encoding(a)).insert(blob_digest(b), blob_encoding(b))
            == objects.insert(blob_digest(a), blob_encoding(a)),
{
    assert(objects.insert(blob_digest(a), blob_encoding(a)).insert(
        blob_digest(b),
        blob_encoding(b),
    ) =~= objects.insert(blob_digest(a), blob_encoding(a)));
}

#[derive(Debug)]
pub struct Blob {
    bytes: Vec<u8>,
}

impl View for Blob {
    type V = Seq<u8>;

    closed spec fn view(&self) -> Seq<u8> {
        self.bytes@
    }
}

impl Blob {
    /// The blob of a file with this content.
    pub fn new_from_bytes(bytes: Vec<u8>) -> (out: Blob)
        ensures
            out@ == bytes@,
    {
        Blob { bytes }
    }

    /// The content.
    pub fn bytes(&self) -> (out: &[u8])
        ensures
            out@ == self@,
    {
        self.bytes.as_slice()
    }

    /// The encoded object.
    pub fn serialize(&self) -> (out: Vec<u8>)
        ensures
            out@ == blob_encoding(self@),
    {
        let mut buf: Vec<u8> = Vec::new();
        buf.extend_from_slice(&BLOB);
        buf.push(SPACE);
        push_decimal(&mut buf, self.bytes.len() as u64);
        buf.push(NUL);
        buf.extend_from_slice(&self.bytes);
        proof {
            assert(buf@ =~= blob_encoding(self@));
        }
        buf
    }

    /// The digest of the encoded object.
    pub fn sha(&self) -> (out: Vec<u8>)
        ensures
            out@ == blob_digest(self@),
            is_digest(out@),
    {
        let buf = self.serialize();
        digest(&buf)
    }

    /// Decodes an encoded blob.
    pub fn deserialize(buf: &[u8]) -> (out: Result<Blob, StoreError>)
        ensures
            match out {
                Ok(blob) => blob_decoding(buf@) == Ok::<Seq<u8>, StoreError>(blob@),
                Err(e) => blob_decoding(buf@) == Err::<Seq<u8>, StoreError>(e),
            },
    {
        let mut header: Vec<u8> = Vec::new();
        header.extend_from_slice(&BLOB);
        header.push(SPACE);
        proof {
            assert(header@ =~= blob_header());
        }
        if !starts_with(buf, &header) {
            return Err(StoreError::Format);
        }
        let i: usize = find(buf, NUL);
        if i >= buf.len() {
            return Err(StoreError::Format);
        }
        let bytes = copy_range(buf, i + 1, buf.len());
        Ok(Blob { bytes })
    }

    /// Loads the blob filed under `sha`, and checks that it is the blob that
    /// belongs there.
    pub fn new_from_object_file(store: &ObjectStore, sha: &[u8]) -> (out: Result<Blob, StoreError>)
        ensures
            match out {
                Ok(blob) => blob_loading(store@, sha@) == Ok::<Seq<u8>, StoreError>(blob@),
                Err(e) => blob_loading(store@, sha@) == Err::<Seq<u8>, StoreError>(e),
            },
    {
        match store.get(sha) {
            None => Err(StoreError::NotFound),
            Some(buf) => {
                match Blob::deserialize(buf.as_slice()) {
                    Err(e) => Err(e),
                    Ok(blob) => {
                        let actual = blob.sha();
                        if same_bytes(&actual, sha) {
                            Ok(blob)
                        } else {
                            Err(StoreError::Integrity)
                        }
                    },
                }
            },
        }
    }

    /// Files the encoded blob under its digest. Storing a blob that is
    /// already there changes nothing.
    pub fn store(&self, store: &mut ObjectStore) -> (sha: Vec<u8>)
        ensures
            sha@ == blob_digest(self@),
            final(store)@ == old(store)@.insert(blob_digest(self@), blob_encoding(self@)),
            final(store).order() == filed_order(old(store).order(), blob_digest(self@)),
    {
        let buf = self.serialize();
        store.put(&buf)
    }
}

} // verus!
