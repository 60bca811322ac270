//! Content-addressed blob storage keyed by hash.
//!
//! The store is pluggable: the engine itself works against the in-memory
//! back-end, whose behaviour is fully specified; an object-store back-end
//! shares the interface but is not implemented here.

use vstd::prelude::*;
use crate::error::{OxenError, OxenErrorKind};
use crate::hash::MerkleHash;

verus! {

/// The keyed blob store interface shared by every back-end.
pub trait VersionStore {
    /// Prepare the back-end; idempotent.
    fn init(&mut self) -> Result<(), OxenError>;

    /// Write a blob under its hash; overwriting an existing hash is a no-op.
    fn save_from_bytes(&mut self, hash: MerkleHash, data: Vec<u8>) -> Result<(), OxenError>;

    /// Read a blob's bytes back.
    fn get_to_bytes(&self, hash: MerkleHash) -> Result<Vec<u8>, OxenError>;

    /// Whether a blob is stored under this hash.
    fn contains(&self, hash: MerkleHash) -> Result<bool, OxenError>;

    /// Remove a blob; only safe when no reachable commit references it.
    fn delete(&mut self, hash: MerkleHash) -> Result<(), OxenError>;

    /// Every stored hash, for garbage collection.
    fn list(&self) -> Result<Vec<MerkleHash>, OxenError>;

    /// A short name of the back-end.
    fn storage_type(&self) -> &str;

    /// An opaque description of the back-end for diagnostics.
    fn storage_settings(&self) -> Vec<(String, String)>;
}

/// The blobs held by a list of keyed entries, later entries winning.
pub open spec fn blobs_of(entries: Seq<(u128, Vec<u8>)>) -> Map<u128, Seq<u8>>
    decreases entries.len(),
{
    if entries.len() == 0 {
        Map::empty()
    } else {
        blobs_of(entries.drop_last()).insert(entries.last().0, entries.last().1@)
    }
}

/// The in-memory back-end: the reference implementation the engine is
/// verified against, and the one tests run on.
pub struct InMemoryVersionStore {
    entries: Vec<(u128, Vec<u8>)>,
}

impl InMemoryVersionStore {
    /// The abstract contents: blob bytes by hash value.
    pub closed spec fn blobs(&self) -> Map<u128, Seq<u8>> {
        blobs_of(self.entries@)
    }

    /// Keys are stored at most once.
    pub closed spec fn wf(&self) -> bool {
        forall|i: int, j: int|
            0 <= i < j < self.entries@.len() ==> (#[trigger] self.entries@[i].0) != (
            #[trigger] self.entries@[j].0)
    }

    pub fn new() -> (s: InMemoryVersionStore)
        ensures
            s.blobs() == Map::<u128, Seq<u8>>::empty(),
            s.wf(),
            s.count() == 0,
    {
        InMemoryVersionStore { entries: Vec::new() }
    }

    /// How many distinct blobs are stored.
    pub closed spec fn count(&self) -> nat {
        self.entries@.len()
    }

    fn find(&self, h: u128) -> (r: Option<usize>)
        requires
            self.wf(),
        ensures
            match r {
                Some(i) => i < self.entries@.len() && self.entries@[i as int].0 == h,
                None => forall|i: int|
                    0 <= i < self.entries@.len() ==> (#[trigger] self.entries@[i].0) != h,
            },
    {
        let mut i: usize = 0;
        while i < self.entries.len()
            invariant
                i <= self.entries@.len(),
                forall|j: int| 0 <= j < i ==> (#[trigger] self.entries@[j].0) != h,
            decreases self.entries@.len() - i,
        {
            if self.entries[i].0 == h {
                return Some(i);
            }
            i = i + 1;
        }
        None
    }

    /// Store `data` under `hash`; a hash already present keeps its bytes
    /// (content-addressed: equal hashes mean equal bytes), so the second
    /// write of the same content is a no-op.
    pub fn save_from_bytes(&mut self, hash: MerkleHash, data: Vec<u8>) -> (r: Result<
        (),
        OxenError,
    >)
        requires
            old(self).wf(),
        ensures
            r is Ok,
            final(self).wf(),
            final(self).blobs() == if old(self).blobs().contains_key(hash.value) {
                old(self).blobs()
            } else {
                old(self).blobs().insert(hash.value, data@)
            },
            old(self).blobs().contains_key(hash.value) ==> *final(self) == *old(self),
            !old(self).blobs().contains_key(hash.value) ==> final(self).count() == old(
                self,
            ).count() + 1,
    {
        proof {
            lemma_blobs_keys(self.entries@);
        }
        match self.find(hash.value) {
            Some(i) => {
                proof {
                    lemma_blobs_entry(self.entries@, i as int);
                    assert(self.blobs().contains_key(hash.value));
                }
                Ok(())
            },
            None => {
                self.entries.push((hash.value, data));
                proof {
                    assert(self.entries@.drop_last() =~= old(self).entries@);
                }
                Ok(())
            },
        }
    }

    /// Read the bytes stored under `hash`; `NotFound` when absent.
    pub fn get_to_bytes(&self, hash: MerkleHash) -> (r: Result<Vec<u8>, OxenError>)
        requires
            self.wf(),
        ensures
            match r {
                Ok(d) => self.blobs().contains_key(hash.value) && d@ == self.blobs()[hash.value],
                Err(e) => !self.blobs().contains_key(hash.value) && e.spec_kind()
                    == OxenErrorKind::NotFound,
            },
    {
        proof {
            lemma_blobs_keys(self.entries@);
        }
        match self.find(hash.value) {
            Some(i) => {
                proof {
                    lemma_blobs_entry(self.entries@, i as int);
                }
                let mut out: Vec<u8> = Vec::new();
                let src = &self.entries[i].1;
                let mut j: usize = 0;
                while j < src.len()
                    invariant
                        j <= src@.len(),
                        out@ =~= src@.subrange(0, j as int),
                    decreases src@.len() - j,
                {
                    out.push(src[j]);
                    j = j + 1;
                }
                proof {
                    assert(src@.subrange(0, src@.len() as int) =~= src@);
                }
                Ok(out)
            },
            None => Err(OxenError::NotFound(String::new())),
        }
    }

    /// Whether a blob is stored under `hash`.
    pub fn contains(&self, hash: MerkleHash) -> (r: bool)
        requires
            self.wf(),
        ensures
            r == self.blobs().contains_key(hash.value),
    {
        proof {
            lemma_blobs_keys(self.entries@);
        }
        self.find(hash.value).is_some()
    }

    /// Remove the blob under `hash`, if any.
    pub fn delete(&mut self, hash: MerkleHash) -> (r: Result<(), OxenError>)
        requires
            old(self).wf(),
        ensures
            r is Ok,
            final(self).wf(),
            final(self).blobs() == old(self).blobs().remove(hash.value),
    {
        proof {
            lemma_blobs_keys(self.entries@);
        }
        match self.find(hash.value) {
            Some(i) => {
                self.entries.remove(i);
                proof {
                    lemma_blobs_remove(old(self).entries@, i as int);
                    assert(self.entries@ =~= old(self).entries@.remove(i as int));
                }
                Ok(())
            },
            None => {
                proof {
                    lemma_blobs_keys(self.entries@);
                    assert(self.blobs() =~= self.blobs().remove(hash.value));
                }
                Ok(())
            },
        }
    }

    /// Every stored hash, in storage order.
    pub fn list(&self) -> (r: Vec<MerkleHash>)
        requires
            self.wf(),
        ensures
            r@.len() == self.count(),
            forall|i: int|
                0 <= i < r@.len() ==> (#[trigger] r@[i]).value == self.entries_key(i)
                    && self.blobs().contains_key(r@[i].value),
    {
        proof {
            lemma_blobs_keys(self.entries@);
        }
        let mut r: Vec<MerkleHash> = Vec::new();
        let mut i: usize = 0;
        while i < self.entries.len()
            invariant
                i <= self.entries@.len(),
                r@.len() == i,
                forall|j: int|
                    0 <= j < i ==> (#[trigger] r@[j]).value == self.entries@[j].0,
            decreases self.entries@.len() - i,
        {
            r.push(MerkleHash { value: self.entries[i].0 });
            i = i + 1;
        }
        proof {
            assert forall|i2: int| 0 <= i2 < r@.len() implies self.blobs().contains_key(
                r@[i2].value,
            ) by {
                lemma_blobs_entry(self.entries@, i2);
            }
        }
        r
    }

    /// The key at a storage position.
    pub closed spec fn entries_key(&self, i: int) -> u128 {
        self.entries@[i].0
    }
}

/// Storing the same content twice writes its blob exactly once: the
/// digest is a function of the bytes alone, and the second store of an
/// already-present key leaves the blobs untouched.
pub proof fn lemma_save_idempotent(blobs: Map<u128, Seq<u8>>, content: Seq<u8>)
    ensures
        ({
            let h = crate::hash::fnv128_of(content);
            let once = if blobs.contains_key(h) {
                blobs
            } else {
                blobs.insert(h, content)
            };
            let twice = if once.contains_key(h) {
                once
            } else {
                once.insert(h, content)
            };
            once.contains_key(h) && twice == once
        }),
{
}

/// A key of some entry is a key of the blob map, and conversely.
proof fn lemma_blobs_keys(entries: Seq<(u128, Vec<u8>)>)
    ensures
        forall|h: u128|
            blobs_of(entries).contains_key(h) <==> exists|i: int|
                0 <= i < entries.len() && (#[trigger] entries[i]).0 == h,
    decreases entries.len(),
{
    if entries.len() > 0 {
        lemma_blobs_keys(entries.drop_last());
        assert forall|h: u128| blobs_of(entries).contains_key(h) implies exists|i: int|
            0 <= i < entries.len() && (#[trigger] entries[i]).0 == h by {
            if h == entries.last().0 {
                assert(entries[entries.len() - 1].0 == h);
            } else {
                assert(blobs_of(entries.drop_last()).contains_key(h));
                let i = choose|i: int|
                    0 <= i < entries.drop_last().len() && (#[trigger] entries.drop_last()[i]).0
                        == h;
                assert(entries.drop_last()[i] == entries[i]);
                assert(entries[i].0 == h);
            }
        }
        assert forall|h: u128|
            exists|i: int| 0 <= i < entries.len() && (#[trigger] entries[i]).0 == h implies
            blobs_of(entries).contains_key(h) by {
            let i = choose|i: int| 0 <= i < entries.len() && (#[trigger] entries[i]).0 == h;
            if i < entries.len() - 1 {
                assert(entries.drop_last()[i].0 == h);
                assert(blobs_of(entries.drop_last()).contains_key(h));
            } else {
                assert(h == entries.last().0);
            }
        }
    }
}

/// With unique keys, each entry's bytes are the blob map's value.
proof fn lemma_blobs_entry(entries: Seq<(u128, Vec<u8>)>, i: int)
    requires
        0 <= i < entries.len(),
        forall|a: int, b: int|
            0 <= a < b < entries.len() ==> (#[trigger] entries[a].0) != (#[trigger] entries[b].0),
    ensures
        blobs_of(entries).contains_key(entries[i].0),
        blobs_of(entries)[entries[i].0] == entries[i].1@,
    decreases entries.len(),
{
    if i == entries.len() - 1 {
    } else {
        lemma_blobs_entry(entries.drop_last(), i);
        assert(entries.drop_last()[i] == entries[i]);
        assert(entries[i].0 != entries.last().0);
    }
}

/// Removing the entry that holds a key removes exactly that key.
proof fn lemma_blobs_remove(entries: Seq<(u128, Vec<u8>)>, i: int)
    requires
        0 <= i < entries.len(),
        forall|a: int, b: int|
            0 <= a < b < entries.len() ==> (#[trigger] entries[a].0) != (#[trigger] entries[b].0),
    ensures
        blobs_of(entries.remove(i)) == blobs_of(entries).remove(entries[i].0),
    decreases entries.len(),
{
    lemma_blobs_keys(entries);
    lemma_blobs_keys(entries.remove(i));
    if i == entries.len() - 1 {
        assert(entries.remove(i) =~= entries.drop_last());
        assert forall|h: u128| #![auto] blobs_of(entries.drop_last()).contains_key(h) implies h
            != entries[i].0 by {
            lemma_blobs_keys(entries.drop_last());
            let j = choose|j: int|
                0 <= j < entries.drop_last().len() && (#[trigger] entries.drop_last()[j]).0 == h;
            assert(entries[j].0 == h);
        }
        assert(blobs_of(entries.drop_last()) =~= blobs_of(entries).remove(entries[i].0)) by {
            lemma_blobs_keys(entries.drop_last());
            assert forall|h: u128|
                blobs_of(entries.drop_last()).contains_key(h) implies blobs_of(
                entries.drop_last(),
            )[h] == blobs_of(entries).remove(entries[i].0)[h] by {
                let j = choose|j: int|
                    0 <= j < entries.drop_last().len() && (#[trigger] entries.drop_last()[j]).0
                        == h;
                lemma_blobs_entry(entries.drop_last(), j);
                lemma_blobs_entry(entries, j);
            }
        }
    } else {
        lemma_blobs_remove(entries.drop_last(), i);
        assert(entries.remove(i).drop_last() =~= entries.drop_last().remove(i));
        assert(entries.remove(i).last() == entries.last());
        assert(blobs_of(entries.remove(i)) == blobs_of(entries.drop_last().remove(i)).insert(
            entries.last().0,
            entries.last().1@,
        ));
        assert(entries[i].0 != entries.last().0);
        assert(blobs_of(entries).remove(entries[i].0) =~= blobs_of(entries.drop_last()).remove(
            entries[i].0,
        ).insert(entries.last().0, entries.last().1@));
    }
}

impl VersionStore for InMemoryVersionStore {
    fn init(&mut self) -> Result<(), OxenError> {
        Ok(())
    }

    fn save_from_bytes(&mut self, hash: MerkleHash, data: Vec<u8>) -> Result<(), OxenError> {
        if !self.wf_runtime() {
            return Err(OxenError::Corrupted(String::new()));
        }
        InMemoryVersionStore::save_from_bytes(self, hash, data)
    }

    fn get_to_bytes(&self, hash: MerkleHash) -> Result<Vec<u8>, OxenError> {
        if !self.wf_runtime() {
            return Err(OxenError::Corrupted(String::new()));
        }
        InMemoryVersionStore::get_to_bytes(self, hash)
    }

    fn contains(&self, hash: MerkleHash) -> Result<bool, OxenError> {
        if !self.wf_runtime() {
            return Err(OxenError::Corrupted(String::new()));
        }
        Ok(InMemoryVersionStore::contains(self, hash))
    }

    fn delete(&mut self, hash: MerkleHash) -> Result<(), OxenError> {
        if !self.wf_runtime() {
            return Err(OxenError::Corrupted(String::new()));
        }
        InMemoryVersionStore::delete(self, hash)
    }

    fn list(&self) -> Result<Vec<MerkleHash>, OxenError> {
        if !self.wf_runtime() {
            return Err(OxenError::Corrupted(String::new()));
        }
        Ok(InMemoryVersionStore::list(self))
    }

    fn storage_type(&self) -> &str {
        InMemoryVersionStore::storage_type(self)
    }

    fn storage_settings(&self) -> Vec<(String, String)> {
        InMemoryVersionStore::storage_settings(self)
    }
}

impl InMemoryVersionStore {
    /// The back-end's name.
    pub fn storage_type(&self) -> (r: &'static str)
        ensures
            r@ == "memory"@,
    {
        "memory"
    }

    /// The in-memory back-end has no settings to describe.
    pub fn storage_settings(&self) -> (r: Vec<(String, String)>)
        ensures
            r@.len() == 0,
    {
        Vec::new()
    }

    /// Check key uniqueness at run time, so the trait surface needs no
    /// precondition.
    fn wf_runtime(&self) -> (b: bool)
        ensures
            b == self.wf(),
    {
        let mut i: usize = 0;
        while i < self.entries.len()
            invariant
                i <= self.entries@.len(),
                forall|a: int, b2: int|
                    0 <= a < b2 < self.entries@.len() && a < i ==> (#[trigger] self.entries@[a].0)
                        != (#[trigger] self.entries@[b2].0),
            decreases self.entries@.len() - i,
        {
            let mut j: usize = i + 1;
            while j < self.entries.len()
                invariant
                    i < j,
                    j <= self.entries@.len(),
                    i < self.entries@.len(),
                    forall|a: int, b2: int|
                        0 <= a < b2 < self.entries@.len() && a < i ==> (
                        #[trigger] self.entries@[a].0) != (#[trigger] self.entries@[b2].0),
                    forall|b2: int|
                        i < b2 < j ==> (#[trigger] self.entries@[b2].0) != self.entries@[i as int].0,
                decreases self.entries@.len() - j,
            {
                if self.entries[j].0 == self.entries[i].0 {
                    return false;
                }
                j = j + 1;
            }
            i = i + 1;
        }
        true
    }
}

/// S3 implementation of version storage; the back-end itself is not wired
/// up, so every operation reports `UnsupportedOperation`.
#[derive(Debug)]
pub struct S3VersionStore {
    pub bucket: String,
    pub prefix: String,
}

impl S3VersionStore {
    pub fn new(bucket: String, prefix: String) -> (s: S3VersionStore)
        ensures
            s.bucket@ == bucket@,
            s.prefix@ == prefix@,
    {
        S3VersionStore { bucket, prefix }
    }

    /// The back-end's name.
    pub fn storage_type(&self) -> (r: &'static str)
        ensures
            r@ == "s3"@,
    {
        "s3"
    }

    /// The bucket and prefix this store was made with, for diagnostics.
    pub fn storage_settings(&self) -> (r: Vec<(String, String)>)
        ensures
            r@.len() == 2,
            r@[0].0@ == "bucket"@,
            r@[0].1@ == self.bucket@,
            r@[1].0@ == "prefix"@,
            r@[1].1@ == self.prefix@,
    {
        let mut r: Vec<(String, String)> = Vec::new();
        r.push(("bucket".to_owned(), self.bucket.clone()));
        r.push(("prefix".to_owned(), self.prefix.clone()));
        r
    }
}

impl VersionStore for S3VersionStore {
    fn init(&mut self) -> (r: Result<(), OxenError>) {
        Err(OxenError::UnsupportedOperation(String::new()))
    }

    fn save_from_bytes(&mut self, _hash: MerkleHash, _data: Vec<u8>) -> Result<(), OxenError> {
        Err(OxenError::UnsupportedOperation(String::new()))
    }

    fn get_to_bytes(&self, _hash: MerkleHash) -> Result<Vec<u8>, OxenError> {
        Err(OxenError::UnsupportedOperation(String::new()))
    }

    fn contains(&self, _hash: MerkleHash) -> Result<bool, OxenError> {
        Err(OxenError::UnsupportedOperation(String::new()))
    }

    fn delete(&mut self, _hash: MerkleHash) -> Result<(), OxenError> {
        Err(OxenError::UnsupportedOperation(String::new()))
    }

    fn list(&self) -> Result<Vec<MerkleHash>, OxenError> {
        Err(OxenError::UnsupportedOperation(String::new()))
    }

    fn storage_type(&self) -> &str {
        S3VersionStore::storage_type(self)
    }

    fn storage_settings(&self) -> Vec<(String, String)> {
        S3VersionStore::storage_settings(self)
    }
}

} // verus!
