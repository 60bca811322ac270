//! The repository: the owner of the version store, the per-node DBs, the
//! per-commit dir-hashes indexes, the branch refs and the node cache —
//! together with the well-formedness invariant that every operation of
//! the engine preserves.

use vstd::prelude::*;
use crate::cache::{CachedNodeView, NodeCache};
use crate::db::{DbView, KeyedVec, NodeDbs};
use crate::error::{OxenError, OxenErrorKind};
use crate::hash::MerkleHash;
use crate::node::HeaderView;
use crate::store::InMemoryVersionStore;

verus! {

/// The default branch name.
pub const DEFAULT_BRANCH_NAME: &'static str = "main";

/// The default bucket size of a directory's VNode sharding.
pub const DEFAULT_VNODE_SIZE: u64 = 10000;

/// The default bound of the per-repository node cache, in entries.
pub const NODE_CACHE_SIZE: usize = 20000000;

/// The map held by a list of string-keyed entries, later entries winning.
pub open spec fn smap_of<V>(entries: Seq<(String, V)>) -> Map<Seq<char>, V>
    decreases entries.len(),
{
    if entries.len() == 0 {
        Map::empty()
    } else {
        smap_of(entries.drop_last()).insert(entries.last().0@, entries.last().1)
    }
}

/// An association vector keyed by strings, holding copyable values; its
/// abstract value is a map from character sequences.
#[derive(Debug)]
pub struct StrMap<V> {
    entries: Vec<(String, V)>,
}

impl<V: Copy> StrMap<V> {
    /// The abstract contents.
    pub closed spec fn view_map(&self) -> Map<Seq<char>, V> {
        smap_of(self.entries@)
    }

    /// Keys are stored at most once.
    pub closed spec fn wf(&self) -> bool {
        forall|i: int, j: int|
            0 <= i < j < self.entries@.len() ==> (#[trigger] self.entries@[i].0@) != (
            #[trigger] self.entries@[j].0@)
    }

    /// How many entries are stored.
    pub closed spec fn spec_len(&self) -> nat {
        self.entries@.len()
    }

    /// The key stored at a position.
    pub closed spec fn key_at(&self, i: int) -> Seq<char> {
        self.entries@[i].0@
    }

    pub fn new() -> (s: StrMap<V>)
        ensures
            s.view_map() == Map::<Seq<char>, V>::empty(),
            s.wf(),
            s.spec_len() == 0,
    {
        StrMap { entries: Vec::new() }
    }

    /// How many entries are stored.
    pub fn len(&self) -> (n: usize)
        ensures
            n == self.spec_len(),
    {
        self.entries.len()
    }

    /// The position of the last entry under this key: the one the map
    /// holds, since later entries win.
    fn find(&self, key: &str) -> (r: Option<usize>)
        ensures
            match r {
                Some(i) => i < self.entries@.len() && self.entries@[i as int].0@ == key@
                    && forall|j: int|
                    i < j < self.entries@.len() ==> (#[trigger] self.entries@[j].0@) != key@,
                None => forall|i: int|
                    0 <= i < self.entries@.len() ==> (#[trigger] self.entries@[i].0@) != key@,
            },
    {
        let mut i: usize = self.entries.len();
        while i > 0
            invariant
                i <= self.entries@.len(),
                forall|j: int| i <= j < self.entries@.len() ==> (#[trigger] self.entries@[j].0@) != key@,
            decreases i,
    {
            i = i - 1;
            if crate::text::str_eq(self.entries[i].0.as_str(), key) {
                return Some(i);
            }
        }
        None
    }

    /// Whether a value is stored under this key.
    pub fn contains_key(&self, key: &str) -> (r: bool)
        ensures
            r == self.view_map().contains_key(key@),
    {
        proof {
            lemma_smap_keys(self.entries@);
        }
        self.find(key).is_some()
    }

    /// The stored value under this key, if any.
    pub fn get(&self, key: &str) -> (r: Option<V>)
        ensures
            match r {
                Some(v) => self.view_map().contains_key(key@) && v == self.view_map()[key@],
                None => !self.view_map().contains_key(key@),
            },
    {
        proof {
            lemma_smap_keys(self.entries@);
        }
        match self.find(key) {
            Some(i) => {
                proof {
                    lemma_smap_last_entry(self.entries@, i as int);
                }
                Some(self.entries[i].1)
            },
            None => None,
        }
    }

    /// Store a value under a key, replacing any previous value.
    pub fn put(&mut self, key: String, v: V)
        requires
            old(self).wf(),
        ensures
            final(self).wf(),
            final(self).view_map() == old(self).view_map().insert(key@, v),
    {
        proof {
            lemma_smap_keys(self.entries@);
        }
        match self.find(key.as_str()) {
            Some(i) => {
                let ghost pre = self.entries@;
                self.entries[i] = (key, v);
                proof {
                    lemma_smap_update(pre, i as int, (key, v));
                    assert(self.entries@ =~= pre.update(i as int, (key, v)));
                }
            },
            None => {
                self.entries.push((key, v));
                proof {
                    assert(self.entries@.drop_last() =~= old(self).entries@);
                }
            },
        }
    }

    /// Check key uniqueness at run time.
    pub fn check_unique(&self) -> (b: bool)
        ensures
            b == self.wf(),
    {
        let mut i: usize = 0;
        while i < self.entries.len()
            invariant
                i <= self.entries@.len(),
                forall|a: int, b2: int|
                    0 <= a < b2 < self.entries@.len() && a < i ==> (
                    #[trigger] self.entries@[a].0@) != (#[trigger] self.entries@[b2].0@),
            decreases self.entries@.len() - i,
        {
            let mut j: usize = i + 1;
            while j < self.entries.len()
                invariant
                    i < j,
                    j <= self.entries@.len(),
                    i < self.entries@.len(),
                    forall|a: int, b2: int|
                        0 <= a < b2 < self.entries@.len() && a < i ==> (
                        #[trigger] self.entries@[a].0@) != (#[trigger] self.entries@[b2].0@),
                    forall|b2: int|
                        i < b2 < j ==> (#[trigger] self.entries@[b2].0@) != self.entries@[
                            i as int].0@,
                decreases self.entries@.len() - j,
            {
                if crate::text::str_eq(self.entries[j].0.as_str(), self.entries[i].0.as_str()) {
                    return false;
                }
                j = j + 1;
            }
            i = i + 1;
        }
        true
    }

    /// An independent copy of the map.
    pub fn clone_map(&self) -> (r: StrMap<V>)
        ensures
            r.view_map() == self.view_map(),
            r.wf() == self.wf(),
            r.spec_len() == self.spec_len(),
            forall|i: int| 0 <= i < r.spec_len() ==> r.key_at(i) == self.key_at(i),
    {
        let mut entries: Vec<(String, V)> = Vec::new();
        let mut i: usize = 0;
        while i < self.entries.len()
            invariant
                i <= self.entries@.len(),
                entries@.len() == i,
                forall|j: int|
                    0 <= j < i ==> (#[trigger] entries@[j]).0@ == self.entries@[j].0@
                        && entries@[j].1 == self.entries@[j].1,
            decreases self.entries@.len() - i,
        {
            entries.push((self.entries[i].0.clone(), self.entries[i].1));
            i = i + 1;
        }
        let r = StrMap { entries };
        proof {
            lemma_smap_congruent(r.entries@, self.entries@);
            assert forall|i2: int, j2: int|
                0 <= i2 < j2 < r.entries@.len() implies ((r.entries@[i2].0@ != r.entries@[j2].0@)
                    == (self.entries@[i2].0@ != self.entries@[j2].0@)) by {
                assert(r.entries@[i2].0@ == self.entries@[i2].0@);
                assert(r.entries@[j2].0@ == self.entries@[j2].0@);
            }
            assert(r.wf() == self.wf());
        }
        r
    }

    /// Every stored key, in storage order.
    pub fn keys(&self) -> (r: Vec<String>)
        ensures
            r@.len() == self.spec_len(),
            forall|i: int|
                0 <= i < r@.len() ==> (#[trigger] r@[i]@) == self.key_at(i)
                    && self.view_map().contains_key(r@[i]@),
    {
        let mut r: Vec<String> = Vec::new();
        let mut i: usize = 0;
        while i < self.entries.len()
            invariant
                i <= self.entries@.len(),
                r@.len() == i,
                forall|j: int| 0 <= j < i ==> (#[trigger] r@[j]@) == self.entries@[j].0@,
            decreases self.entries@.len() - i,
        {
            r.push(self.entries[i].0.clone());
            i = i + 1;
        }
        proof {
            lemma_smap_keys(self.entries@);
            assert forall|i2: int| 0 <= i2 < r@.len() implies self.view_map().contains_key(
                r@[i2]@,
            ) by {
                assert(self.entries@[i2].0@ == r@[i2]@);
            }
        }
        r
    }
}

/// Entry lists equal key-by-key and value-by-value hold the same map.
proof fn lemma_smap_congruent<V>(a: Seq<(String, V)>, b: Seq<(String, V)>)
    requires
        a.len() == b.len(),
        forall|j: int| 0 <= j < a.len() ==> (#[trigger] a[j]).0@ == b[j].0@ && a[j].1 == b[j].1,
    ensures
        smap_of(a) == smap_of(b),
    decreases a.len(),
{
    if a.len() > 0 {
        assert forall|j: int| 0 <= j < a.drop_last().len() implies (#[trigger] a.drop_last()[j]).0@
            == b.drop_last()[j].0@ && a.drop_last()[j].1 == b.drop_last()[j].1 by {
            assert(a.drop_last()[j] == a[j]);
            assert(b.drop_last()[j] == b[j]);
        }
        lemma_smap_congruent(a.drop_last(), b.drop_last());
        assert(a.last().0@ == b.last().0@ && a.last().1 == b.last().1);
        assert(smap_of(a) =~= smap_of(b));
    } else {
        assert(smap_of(a) =~= smap_of(b));
    }
}

/// A key of some entry is a key of the map, and conversely.
pub proof fn lemma_smap_keys<V>(entries: Seq<(String, V)>)
    ensures
        forall|k: Seq<char>|
            smap_of(entries).contains_key(k) <==> exists|i: int|
                0 <= i < entries.len() && (#[trigger] entries[i]).0@ == k,
    decreases entries.len(),
{
    if entries.len() > 0 {
        lemma_smap_keys(entries.drop_last());
        assert forall|k: Seq<char>| smap_of(entries).contains_key(k) implies exists|i: int|
            0 <= i < entries.len() && (#[trigger] entries[i]).0@ == k by {
            if k == entries.last().0@ {
                assert(entries[entries.len() - 1].0@ == k);
            } else {
                assert(smap_of(entries.drop_last()).contains_key(k));
                let i = choose|i: int|
                    0 <= i < entries.drop_last().len() && (#[trigger] entries.drop_last()[i]).0@
                        == k;
                assert(entries.drop_last()[i] == entries[i]);
                assert(entries[i].0@ == k);
            }
        }
        assert forall|k: Seq<char>|
            exists|i: int| 0 <= i < entries.len() && (#[trigger] entries[i]).0@ == k implies
            smap_of(entries).contains_key(k) by {
            let i = choose|i: int| 0 <= i < entries.len() && (#[trigger] entries[i]).0@ == k;
            if i < entries.len() - 1 {
                assert(entries.drop_last()[i].0@ == k);
                assert(smap_of(entries.drop_last()).contains_key(k));
            } else {
                assert(k == entries.last().0@);
            }
        }
    }
}

/// The last entry under a key holds the map's value at that key.
proof fn lemma_smap_last_entry<V>(entries: Seq<(String, V)>, i: int)
    requires
        0 <= i < entries.len(),
        forall|j: int| i < j < entries.len() ==> (#[trigger] entries[j].0@) != entries[i].0@,
    ensures
        smap_of(entries).contains_key(entries[i].0@),
        smap_of(entries)[entries[i].0@] == entries[i].1,
    decreases entries.len(),
{
    if i == entries.len() - 1 {
    } else {
        assert forall|j: int| i < j < entries.drop_last().len() implies (
        #[trigger] entries.drop_last()[j].0@) != entries.drop_last()[i].0@ by {
            assert(entries.drop_last()[j] == entries[j]);
            assert(entries.drop_last()[i] == entries[i]);
        }
        lemma_smap_last_entry(entries.drop_last(), i);
        assert(entries.drop_last()[i] == entries[i]);
        assert(entries[i].0@ != entries.last().0@);
    }
}

/// With unique keys, each entry's value is the map's value at its key.
pub proof fn lemma_smap_entry<V>(entries: Seq<(String, V)>, i: int)
    requires
        0 <= i < entries.len(),
        forall|a: int, b: int|
            0 <= a < b < entries.len() ==> (#[trigger] entries[a].0@) != (#[trigger] entries[b].0@),
    ensures
        smap_of(entries).contains_key(entries[i].0@),
        smap_of(entries)[entries[i].0@] == entries[i].1,
    decreases entries.len(),
{
    if i == entries.len() - 1 {
    } else {
        lemma_smap_entry(entries.drop_last(), i);
        assert(entries.drop_last()[i] == entries[i]);
        assert(entries[i].0@ != entries.last().0@);
    }
}

/// Updating the entry that holds a key updates exactly that key.
proof fn lemma_smap_update<V>(entries: Seq<(String, V)>, i: int, kv: (String, V))
    requires
        0 <= i < entries.len(),
        entries[i].0@ == kv.0@,
        forall|a: int, b: int|
            0 <= a < b < entries.len() ==> (#[trigger] entries[a].0@) != (#[trigger] entries[b].0@),
    ensures
        smap_of(entries.update(i, kv)) == smap_of(entries).insert(kv.0@, kv.1),
    decreases entries.len(),
{
    let upd = entries.update(i, kv);
    if i == entries.len() - 1 {
        assert(upd.drop_last() =~= entries.drop_last());
        assert(upd.last() == kv);
        assert(smap_of(upd) == smap_of(entries.drop_last()).insert(kv.0@, kv.1));
        assert(smap_of(entries).insert(kv.0@, kv.1) =~= smap_of(entries.drop_last()).insert(
            kv.0@,
            kv.1,
        ));
    } else {
        lemma_smap_update(entries.drop_last(), i, kv);
        assert(upd.drop_last() =~= entries.drop_last().update(i, kv));
        assert(upd.last() == entries.last());
        assert(entries.last().0@ != kv.0@);
        assert(smap_of(upd) == smap_of(entries.drop_last()).insert(kv.0@, kv.1).insert(
            entries.last().0@,
            entries.last().1,
        ));
        assert(smap_of(upd) =~= smap_of(entries).insert(kv.0@, kv.1));
    }
}

/// Per-commit index from relative directory path to DirNode hash.
pub type DirHashes = StrMap<MerkleHash>;

/// A validity flag attached to a commit by the background integrity pass.
#[derive(Debug, Clone, Copy, PartialEq, Eq, Structural)]
pub struct ValidityFlag {
    pub valid: bool,
}

impl View for ValidityFlag {
    type V = bool;

    open spec fn view(&self) -> bool {
        self.valid
    }
}

/// Commit metadata as handed to callers.
#[derive(Debug)]
pub struct Commit {
    pub id: MerkleHash,
    pub message: String,
    pub author: String,
    pub timestamp_s: i64,
    pub timestamp_ns: u32,
    pub parent_ids: Vec<MerkleHash>,
}

/// Ghost mirror of [`Commit`].
#[verifier::ext_equal]
pub struct CommitView {
    pub id: MerkleHash,
    pub message: Seq<char>,
    pub author: Seq<char>,
    pub timestamp_s: i64,
    pub timestamp_ns: u32,
    pub parent_ids: Seq<MerkleHash>,
}

impl View for Commit {
    type V = CommitView;

    open spec fn view(&self) -> CommitView {
        CommitView {
            id: self.id,
            message: self.message@,
            author: self.author@,
            timestamp_s: self.timestamp_s,
            timestamp_ns: self.timestamp_ns,
            parent_ids: self.parent_ids@,
        }
    }
}

impl Clone for Commit {
    fn clone(&self) -> (res: Self)
        ensures
            res@ == self@,
    {
        let res = Commit {
            id: self.id,
            message: self.message.clone(),
            author: self.author.clone(),
            timestamp_s: self.timestamp_s,
            timestamp_ns: self.timestamp_ns,
            parent_ids: crate::node::copy_hashes(&self.parent_ids),
        };
        proof {
            assert(res@ =~= self@);
        }
        res
    }
}

/// One staged file of the working set: its path (joined and split), the
/// hash and size of its content, and its modification stamp.
#[derive(Debug)]
pub struct StagedFile {
    pub path: String,
    pub segments: Vec<String>,
    pub hash: MerkleHash,
    pub size: u64,
    pub last_modified_s: i64,
    pub last_modified_ns: u32,
}

/// Ghost mirror of [`StagedFile`].
#[verifier::ext_equal]
pub struct StagedFileView {
    pub path: Seq<char>,
    pub segments: Seq<Seq<char>>,
    pub hash: MerkleHash,
    pub size: u64,
    pub last_modified_s: i64,
    pub last_modified_ns: u32,
}

impl View for StagedFile {
    type V = StagedFileView;

    open spec fn view(&self) -> StagedFileView {
        StagedFileView {
            path: self.path@,
            segments: self.segments.deep_view(),
            hash: self.hash,
            size: self.size,
            last_modified_s: self.last_modified_s,
            last_modified_ns: self.last_modified_ns,
        }
    }
}

impl Clone for StagedFile {
    fn clone(&self) -> (res: Self)
        ensures
            res@ == self@,
    {
        let mut segments: Vec<String> = Vec::new();
        let mut i: usize = 0;
        while i < self.segments.len()
            invariant
                i <= self.segments@.len(),
                segments@.len() == i,
                forall|j: int| 0 <= j < i ==> (#[trigger] segments@[j])@ == self.segments@[j]@,
            decreases self.segments@.len() - i,
        {
            segments.push(self.segments[i].clone());
            i = i + 1;
        }
        let res = StagedFile {
            path: self.path.clone(),
            segments,
            hash: self.hash,
            size: self.size,
            last_modified_s: self.last_modified_s,
            last_modified_ns: self.last_modified_ns,
        };
        proof {
            assert(res.segments.deep_view() =~= self.segments.deep_view());
            assert(res@ =~= self@);
        }
        res
    }
}

/// The number of VNode buckets a directory with `n` entries is split
/// into: `ceil(n / vnode_size)`.
pub open spec fn spec_num_vnodes(n: nat, vnode_size: nat) -> nat
    recommends
        vnode_size > 0,
{
    n / vnode_size + (if n % vnode_size == 0 {
        0nat
    } else {
        1nat
    })
}

/// The sum of the `num_entries` fields of a directory's VNode children.
pub open spec fn sum_vnode_entries(children: Seq<HeaderView>) -> int
    decreases children.len(),
{
    if children.len() == 0 {
        0
    } else {
        sum_vnode_entries(children.drop_last()) + (match children.last() {
            HeaderView::VNode(v) => v.num_entries as int,
            _ => 0,
        })
    }
}

/// The shape every stored node DB keeps: a commit points at its one root
/// directory; a directory's children are its VNode buckets, whose entry
/// counts sum to the directory's `num_entries`; a VNode's children are
/// the files and directories of its bucket.
pub open spec fn db_shape_ok(db: DbView, vnode_size: u64) -> bool {
    match db.payload {
        HeaderView::Commit(c) => {
            &&& db.children.len() == 1
            &&& db.children[0] is Directory
            &&& db.children[0].id() == c.root_dir_hash.value
        },
        HeaderView::Directory(d) => {
            &&& forall|i: int| 0 <= i < db.children.len() ==> (#[trigger] db.children[i]) is VNode
            &&& d.num_entries == sum_vnode_entries(db.children)
            &&& db.children.len() == spec_num_vnodes(d.num_entries as nat, vnode_size as nat)
        },
        HeaderView::VNode(v) => {
            &&& v.num_entries == db.children.len()
            &&& forall|i: int|
                0 <= i < db.children.len() ==> ((#[trigger] db.children[i]) is File
                    || db.children[i] is Directory)
        },
        _ => false,
    }
}

/// What holds of one stored node DB against the rank witness: its own
/// payload carries its key and is no leaf; each non-leaf child entry
/// that has a DB of its own agrees with that DB's payload and ranks
/// strictly lower.
pub open spec fn db_ok(
    dbs: Map<u128, DbView>,
    rank: Map<u128, nat>,
    vnode_size: u64,
    h: u128,
) -> bool {
    &&& dbs[h].payload.id() == h
    &&& !dbs[h].payload.is_leaf()
    &&& rank.contains_key(h)
    &&& db_shape_ok(dbs[h], vnode_size)
    &&& forall|i: int|
        0 <= i < dbs[h].children.len() ==> {
            let c = #[trigger] dbs[h].children[i];
            &&& (!c.is_leaf() ==> dbs.contains_key(c.id()) && dbs[c.id()].payload == c
                && rank.contains_key(c.id()) && rank[c.id()] < rank[h])
        }
}

/// Every stored node DB is well formed.
pub open spec fn dbs_wf(
    dbs: Map<u128, DbView>,
    rank: Map<u128, nat>,
    vnode_size: u64,
) -> bool {
    forall|h: u128| #[trigger] dbs.contains_key(h) ==> db_ok(dbs, rank, vnode_size, h)
}

/// What holds of one cache entry: it records the node's true header, and
/// its children are exactly the node's stored children (or none, for a
/// leaf, which has no DB).
pub open spec fn cache_entry_wf(
    e: CachedNodeView,
    k: u128,
    dbs: Map<u128, DbView>,
) -> bool {
    &&& e.hash.value == k
    &&& e.node.id() == k
    &&& (dbs.contains_key(k) ==> e.node == dbs[k].payload && e.children == dbs[k].children
        && e.parent_id == dbs[k].parent)
    &&& (!dbs.contains_key(k) ==> e.children.len() == 0 && e.node.is_leaf() && e.is_recursive)
}

/// Every entry of one commit's dir-hashes index names a stored
/// directory node: the index never dangles.
pub open spec fn dhs_ok(dhm: Map<Seq<char>, MerkleHash>, dbs: Map<u128, DbView>) -> bool {
    forall|k: Seq<char>|
        #[trigger] dhm.contains_key(k) ==> dbs.contains_key(dhm[k].value)
            && dbs[dhm[k].value].payload is Directory
}

/// Every cache entry is well formed: whatever the cache serves agrees
/// with the node DBs on disk.
pub open spec fn cache_wf(
    cache: Map<u128, CachedNodeView>,
    dbs: Map<u128, DbView>,
) -> bool {
    &&& cache.dom().finite()
    &&& forall|k: u128| #[trigger] cache.contains_key(k) ==> cache_entry_wf(cache[k], k, dbs)
}

/// The staged working set is sorted by path with no duplicates, and
/// each entry's segments split its path.
pub open spec fn staged_wf(ts: Seq<StagedFileView>) -> bool {
    &&& forall|i: int, j: int|
        0 <= i < j < ts.len() ==> crate::paths::chars_le(#[trigger] ts[i].path, #[trigger] ts[j].path)
            && ts[i].path != ts[j].path
    &&& forall|i: int|
        0 <= i < ts.len() ==> crate::paths::is_path_form((#[trigger] ts[i]).segments, ts[i].path)
}

/// The views of a staged-file vector.
pub open spec fn staged_view(ts: Seq<StagedFile>) -> Seq<StagedFileView> {
    Seq::new(ts.len(), |i: int| ts[i]@)
}

/// A repository: its configuration, stores, indexes, refs, working set
/// and cache, plus the ghost header and rank maps its invariant is
/// stated over.
pub struct LocalRepository {
    /// Display path of the repository root.
    pub path: String,
    /// Soft cap of entries per VNode bucket.
    pub vnode_size: u64,
    /// Content-addressed blob store.
    pub store: InMemoryVersionStore,
    /// One KV database per non-leaf node, keyed by node hash.
    pub dbs: NodeDbs,
    /// Per-commit dir-hashes index, keyed by commit hash.
    pub dir_hashes_dbs: KeyedVec<DirHashesDb>,
    /// Branch refs: branch name to commit hash.
    pub branches: StrMap<u128>,
    /// The branch HEAD names, if any.
    pub head: Option<String>,
    /// The staged working set, sorted by path.
    pub staged: Vec<StagedFile>,
    /// Commit validity flags written by the integrity pass.
    pub validity: KeyedVec<ValidityFlag>,
    /// The per-repository node cache.
    pub cache: NodeCache,
    /// A rank witness: children of a stored node rank strictly lower.
    pub rank: Ghost<Map<u128, nat>>,
}

/// The dir-hashes index of one commit, as a keyed-vector value.
#[derive(Debug)]
pub struct DirHashesDb {
    pub inner: DirHashes,
}

impl View for DirHashesDb {
    type V = Map<Seq<char>, MerkleHash>;

    open spec fn view(&self) -> Map<Seq<char>, MerkleHash> {
        self.inner.view_map()
    }
}

impl LocalRepository {
    /// The abstract node DBs.
    pub open spec fn dbs_map(&self) -> Map<u128, DbView> {
        self.dbs.view_map()
    }

    /// The abstract cache contents.
    pub open spec fn cache_map(&self) -> Map<u128, CachedNodeView> {
        self.cache.contents()
    }

    /// The abstract blob store.
    pub open spec fn blobs(&self) -> Map<u128, Seq<u8>> {
        self.store.blobs()
    }

    /// The repository invariant.
    pub open spec fn wf(&self) -> bool {
        &&& self.vnode_size >= 1
        &&& self.store.wf()
        &&& self.dbs.wf()
        &&& self.dir_hashes_dbs.wf()
        &&& self.branches.wf()
        &&& self.validity.wf()
        &&& dbs_wf(self.dbs_map(), self.rank@, self.vnode_size)
        &&& cache_wf(self.cache_map(), self.dbs_map())
        &&& staged_wf(staged_view(self.staged@))
        &&& forall|i: int|
            0 <= i < staged_view(self.staged@).len() ==> self.blobs().contains_key(
                (#[trigger] staged_view(self.staged@)[i]).hash.value,
            )
        &&& forall|b: Seq<char>|
            #[trigger] self.branches.view_map().contains_key(b) ==> self.dbs_map().contains_key(
                self.branches.view_map()[b],
            ) && self.dbs_map()[self.branches.view_map()[b]].payload is Commit
        &&& forall|cid: u128|
            #[trigger] self.dir_hashes_dbs.view_map().contains_key(cid) ==> dhs_ok(
                self.dir_hashes_dbs.view_map()[cid],
                self.dbs_map(),
            )
    }

    /// A fresh repository at `path`, with the default vnode size.
    pub fn init(path: &str) -> (repo: LocalRepository)
        ensures
            repo.wf(),
            repo.path@ == path@,
            repo.vnode_size == DEFAULT_VNODE_SIZE,
            repo.dbs_map() == Map::<u128, DbView>::empty(),
            repo.blobs() == Map::<u128, Seq<u8>>::empty(),
            repo.cache_map() == Map::<u128, CachedNodeView>::empty(),
            repo.branches.view_map() == Map::<Seq<char>, u128>::empty(),
            staged_view(repo.staged@).len() == 0,
    {
        LocalRepository::init_with_vnode_size(path, DEFAULT_VNODE_SIZE)
    }

    /// A fresh repository with an explicit vnode size.
    pub fn init_with_vnode_size(path: &str, vnode_size: u64) -> (repo: LocalRepository)
        requires
            vnode_size >= 1,
        ensures
            repo.wf(),
            repo.path@ == path@,
            repo.vnode_size == vnode_size,
            repo.dbs_map() == Map::<u128, DbView>::empty(),
            repo.blobs() == Map::<u128, Seq<u8>>::empty(),
            repo.cache_map() == Map::<u128, CachedNodeView>::empty(),
            repo.branches.view_map() == Map::<Seq<char>, u128>::empty(),
            staged_view(repo.staged@).len() == 0,
    {
        LocalRepository {
            path: path.to_owned(),
            vnode_size,
            store: InMemoryVersionStore::new(),
            dbs: KeyedVec::new(),
            dir_hashes_dbs: KeyedVec::new(),
            branches: StrMap::new(),
            head: None,
            staged: Vec::new(),
            validity: KeyedVec::new(),
            cache: NodeCache::new(NODE_CACHE_SIZE),
            rank: Ghost(Map::empty()),
        }
    }

    /// The configured vnode bucket size.
    pub fn vnode_size(&self) -> (n: u64)
        ensures
            n == self.vnode_size,
    {
        self.vnode_size
    }
}

/// Every path a commit's dir-hashes index maps names a directory node
/// whose DB is stored: skipping to a directory through the index always
/// lands on the same kind of node the tree walk would reach.
pub proof fn lemma_dir_hashes_target_stored(repo: &LocalRepository, cid: u128, p: Seq<char>)
    requires
        repo.wf(),
        repo.dir_hashes_dbs.view_map().contains_key(cid),
        repo.dir_hashes_dbs.view_map()[cid].contains_key(p),
    ensures
        repo.dbs_map().contains_key(repo.dir_hashes_dbs.view_map()[cid][p].value),
        repo.dbs_map()[repo.dir_hashes_dbs.view_map()[cid][p].value].payload is Directory,
{
}

/// For any directory node on disk, its entry count equals the sum of
/// the entry counts of its VNode buckets.
pub proof fn lemma_dir_entry_sum(
    dbs: Map<u128, DbView>,
    rank: Map<u128, nat>,
    vnode_size: u64,
    h: u128,
)
    requires
        dbs_wf(dbs, rank, vnode_size),
        dbs.contains_key(h),
        dbs[h].payload is Directory,
    ensures
        dbs[h].payload->Directory_0.num_entries == sum_vnode_entries(dbs[h].children),
        dbs[h].children.len() == spec_num_vnodes(
            dbs[h].payload->Directory_0.num_entries as nat,
            vnode_size as nat,
        ),
        forall|i: int| 0 <= i < dbs[h].children.len() ==> (#[trigger] dbs[h].children[i]) is VNode,
{
    assert(db_ok(dbs, rank, vnode_size, h));
}

/// After a commit, every non-leaf child entry of a stored node has its
/// own DB stored, with the same header: the writer stores children
/// before parents, so every reachable non-leaf node is retrievable.
pub proof fn lemma_reachable_nonleaf_stored(
    dbs: Map<u128, DbView>,
    rank: Map<u128, nat>,
    vnode_size: u64,
    h: u128,
    i: int,
)
    requires
        dbs_wf(dbs, rank, vnode_size),
        dbs.contains_key(h),
        0 <= i < dbs[h].children.len(),
        !dbs[h].children[i].is_leaf(),
    ensures
        dbs.contains_key(dbs[h].children[i].id()),
        dbs[dbs[h].children[i].id()].payload == dbs[h].children[i],
{
    assert(db_ok(dbs, rank, vnode_size, h));
}

/// Whether two repositories agree on everything but the working set and
/// the blob store.
pub open spec fn eq_except_ws(a: &LocalRepository, b: &LocalRepository) -> bool {
    &&& a.path == b.path
    &&& a.vnode_size == b.vnode_size
    &&& a.dbs == b.dbs
    &&& a.dir_hashes_dbs == b.dir_hashes_dbs
    &&& a.branches == b.branches
    &&& a.head == b.head
    &&& a.validity == b.validity
    &&& a.cache == b.cache
    &&& a.rank == b.rank
}

/// Release a repository's node cache in full; everything else stands.
pub fn remove_node_cache(repo: &mut LocalRepository) -> (r: Result<(), OxenError>)
    requires
        old(repo).wf(),
    ensures
        r is Ok,
        final(repo).wf(),
        final(repo).cache_map() == Map::<u128, CachedNodeView>::empty(),
        final(repo).dbs_map() == old(repo).dbs_map(),
        final(repo).blobs() == old(repo).blobs(),
        final(repo).branches.view_map() == old(repo).branches.view_map(),
    {
    repo.cache.clear();
    Ok(())
}

} // verus!
