//! The object store: immutable objects, each filed under a digest.

use crate::digest::{digest, sha1_hex};
use crate::text::{copy_bytes, same_bytes};
use vstd::prelude::*;

verus! {

/// One object file: the name it is filed under and its content.
#[derive(Debug)]
pub struct StoredObject {
    pub key: Vec<u8>,
    pub bytes: Vec<u8>,
}

/// The objects of a repository, held in memory. Its view maps each key to
/// the bytes filed under it.
#[derive(Debug)]
pub struct ObjectStore {
    objects: Vec<StoredObject>,
}

/// The map that a list of object files stands for: a later file replaces an
/// earlier one of the same name.
pub open spec fn filed(objects: Seq<StoredObject>) -> Map<Seq<u8>, Seq<u8>>
    decreases objects.len(),
{
    if objects.len() == 0 {
        Map::empty()
    } else {
        filed(objects.drop_last()).insert(objects.last().key@, objects.last().bytes@)
    }
}

/// The names of a list of object files, in order.
pub open spec fn keys_of(objects: Seq<StoredObject>) -> Seq<Seq<u8>> {
    objects.map_values(|o: StoredObject| o.key@)
}

/// The order of filing after one more object is filed under `key`: a name
/// that is there keeps its place, a new name comes last.
pub open spec fn filed_order(keys: Seq<Seq<u8>>, key: Seq<u8>) -> Seq<Seq<u8>> {
    if keys.contains(key) {
        keys
    } else {
        keys.push(key)
    }
}

proof fn lemma_filed_keys(objects: Seq<StoredObject>, key: Seq<u8>)
    ensures
        filed(objects).contains_key(key) <==> keys_of(objects).contains(key),
    decreases objects.len(),
{
    let keys = keys_of(objects);
    if objects.len() > 0 {
        let earlier = objects.drop_last();
        lemma_filed_keys(earlier, key);
        assert(keys.drop_last() =~= keys_of(earlier));
        if keys_of(earlier).contains(key) {
            let i = choose|i: int| 0 <= i < keys_of(earlier).len() && keys_of(earlier)[i] == key;
            assert(keys[i] == key);
        }
        if objects.last().key@ == key {
            assert(keys[keys.len() - 1] == key);
        }
        if keys.contains(key) {
            let i = choose|i: int| 0 <= i < keys.len() && keys[i] == key;
            if i < keys.len() - 1 {
                assert(keys_of(earlier)[i] == key);
            }
        }
    }
}

proof fn lemma_filed_replace(objects: Seq<StoredObject>, i: int, o: StoredObject)
    requires
        0 <= i < objects.len(),
        objects[i].key@ == o.key@,
        forall|j: int| i < j < objects.len() ==> (#[trigger] objects[j]).key@ != o.key@,
    ensures
        filed(objects.update(i, o)) == filed(objects).insert(o.key@, o.bytes@),
    decreases objects.len(),
{
    let updated = objects.update(i, o);
    if i == objects.len() - 1 {
        assert(updated.drop_last() =~= objects.drop_last());
        assert(filed(updated) =~= filed(objects).insert(o.key@, o.bytes@));
    } else {
        let last = objects.last();
        assert(last.key@ != o.key@);
        lemma_filed_replace(objects.drop_last(), i, o);
        assert(updated.drop_last() =~= objects.drop_last().update(i, o));
        assert(updated.last() == last);
        assert(filed(updated) =~= filed(objects).insert(o.key@, o.bytes@));
    }
}

impl View for ObjectStore {
    type V = Map<Seq<u8>, Seq<u8>>;

    closed spec fn view(&self) -> Map<Seq<u8>, Seq<u8>> {
        filed(self.objects@)
    }
}

impl ObjectStore {
    /// The names of the objects, in the order in which they were first
    /// filed.
    pub closed spec fn order(&self) -> Seq<Seq<u8>> {
        keys_of(self.objects@)
    }

    /// The names in the order of filing are the names that the store holds.
    pub proof fn lemma_order_names_all(&self, key: Seq<u8>)
        ensures
            self@.contains_key(key) <==> self.order().contains(key),
    {
        lemma_filed_keys(self.objects@, key);
    }

    /// A store with no objects.
    pub fn new() -> (out: ObjectStore)
        ensures
            out@ == Map::<Seq<u8>, Seq<u8>>::empty(),
            out.order() == Seq::<Seq<u8>>::empty(),
    {
        let out = ObjectStore { objects: Vec::new() };
        proof {
            assert(out.order() =~= Seq::<Seq<u8>>::empty());
        }
        out
    }

    /// The position of the object filed under `key`, if there is one.
    fn position(&self, key: &[u8]) -> (out: Option<usize>)
        ensures
            match out {
                Some(i) => {
                    &&& i < self.objects@.len()
                    &&& self.objects@[i as int].key@ == key@
                    &&& forall|j: int|
                        i < j < self.objects@.len() ==> (#[trigger] self.objects@[j]).key@ != key@
                    &&& self@.contains_key(key@)
                    &&& self@[key@] == self.objects@[i as int].bytes@
                },
                None => !self@.contains_key(key@),
            },
    {
        let mut i: usize = self.objects.len();
        proof {
            assert(self.objects@.take(i as int) =~= self.objects@);
        }
        while i > 0
            invariant
                0 <= i <= self.objects@.len(),
                forall|j: int|
                    i <= j < self.objects@.len() ==> (#[trigger] self.objects@[j]).key@ != key@,
                self@.contains_key(key@) == filed(self.objects@.take(i as int)).contains_key(key@),
                self@.contains_key(key@) ==> self@[key@] == filed(self.objects@.take(i as int))[key@],
            decreases i,
        {
            i -= 1;
            proof {
                assert(self.objects@.take(i + 1).drop_last() =~= self.objects@.take(i as int));
            }
            if same_bytes(&self.objects[i].key, key) {
                return Some(i);
            }
        }
        None
    }

    /// The bytes filed under `key`.
    pub fn get(&self, key: &[u8]) -> (out: Option<&Vec<u8>>)
        ensures
            match out {
                Some(bytes) => self@.contains_key(key@) && self@[key@] == bytes@,
                None => !self@.contains_key(key@),
            },
    {
        match self.position(key) {
            Some(i) => Some(&self.objects[i].bytes),
            None => None,
        }
    }

    /// Whether an object is filed under `key`.
    pub fn contains(&self, key: &[u8]) -> (out: bool)
        ensures
            out == self@.contains_key(key@),
    {
        self.position(key).is_some()
    }

    /// Files `bytes` under `key`, in place of what was filed there.
    pub fn insert(&mut self, key: Vec<u8>, bytes: Vec<u8>)
        ensures
            final(self)@ == old(self)@.insert(key@, bytes@),
            final(self).order() == filed_order(old(self).order(), key@),
    {
        let found = self.position(&key);
        let object = StoredObject { key, bytes };
        proof {
            lemma_filed_keys(self.objects@, key@);
        }
        match found {
            Some(i) => {
                proof {
                    lemma_filed_replace(self.objects@, i as int, object);
                }
                self.objects[i] = object;
                proof {
                    assert(final(self).order() =~= old(self).order());
                }
            },
            None => {
                self.objects.push(object);
                proof {
                    assert(self.objects@.drop_last() =~= old(self).objects@);
                    assert(final(self).order() =~= old(self).order().push(key@));
                }
            },
        }
    }

    /// Files an encoded object under its own digest and returns the digest.
    /// Filing the same bytes again changes nothing.
    pub fn put(&mut self, bytes: &[u8]) -> (key: Vec<u8>)
        ensures
            key@ == sha1_hex(bytes@),
            final(self)@ == old(self)@.insert(sha1_hex(bytes@), bytes@),
            final(self).order() == filed_order(old(self).order(), sha1_hex(bytes@)),
    {
        let key = digest(bytes);
        self.insert(copy_bytes(&key), copy_bytes(bytes));
        key
    }

    /// The object files that make up the store, in the order in which
    /// they were first filed.
    pub fn objects(&self) -> (out: &Vec<StoredObject>)
        ensures
            filed(out@) == self@,
            keys_of(out@) == self.order(),
    {
        &self.objects
    }
}

} // verus!
