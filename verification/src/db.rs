//! Per-node key/value databases.
//!
//! Every non-leaf node owns one embedded KV database holding its own
//! header and its immediate children's headers (enough to reconstruct
//! each child's identity and type, but not that child's grandchildren).
//! Leaf nodes have no DB; they exist only as entries inside their parent
//! VNode's DB.

use vstd::prelude::*;
use crate::error::{OxenError, OxenErrorKind};
use crate::hash::MerkleHash;
use crate::node::{EMerkleTreeNode, HeaderView, headers_view};

verus! {

/// The map held by a list of keyed entries, later entries winning.
pub open spec fn kv_map_of<V: View>(entries: Seq<(u128, V)>) -> Map<u128, V::V>
    decreases entries.len(),
{
    if entries.len() == 0 {
        Map::empty()
    } else {
        kv_map_of(entries.drop_last()).insert(entries.last().0, entries.last().1@)
    }
}

/// An association vector keyed by hash value, with each key held once.
/// Its abstract value is the map from keys to entry views.
pub struct KeyedVec<V> {
    entries: Vec<(u128, V)>,
}

impl<V: View> KeyedVec<V> {
    /// The abstract contents.
    pub closed spec fn view_map(&self) -> Map<u128, V::V> {
        kv_map_of(self.entries@)
    }

    /// Keys are stored at most once.
    pub closed spec fn wf(&self) -> bool {
        forall|i: int, j: int|
            0 <= i < j < self.entries@.len() ==> (#[trigger] self.entries@[i].0) != (
            #[trigger] self.entries@[j].0)
    }

    /// How many entries are stored.
    pub closed spec fn len(&self) -> nat {
        self.entries@.len()
    }

    /// The key stored at a position.
    pub closed spec fn key_at(&self, i: int) -> u128 {
        self.entries@[i].0
    }

    pub fn new() -> (s: KeyedVec<V>)
        ensures
            s.view_map() == Map::<u128, V::V>::empty(),
            s.wf(),
            s.len() == 0,
    {
        KeyedVec { entries: Vec::new() }
    }

    fn find(&self, h: u128) -> (r: Option<usize>)
        ensures
            match r {
                Some(i) => i < self.entries@.len() && self.entries@[i as int].0 == h,
                None => forall|i: int|
                    0 <= i < self.entries@.len() ==> (#[trigger] self.entries@[i].0) != h,
            },
    {
        let mut i: usize = 0;
        while i < self.entries.len()
            invariant
                i <= self.entries@.len(),
                forall|j: int| 0 <= j < i ==> (#[trigger] self.entries@[j].0) != h,
            decreases self.entries@.len() - i,
    {
            if self.entries[i].0 == h {
                return Some(i);
            }
            i = i + 1;
        }
        None
    }

    /// Whether a value is stored under this key.
    pub fn contains(&self, h: u128) -> (r: bool)
        requires
            self.wf(),
        ensures
            r == self.view_map().contains_key(h),
    {
        proof {
            lemma_kv_keys(self.entries@);
        }
        self.find(h).is_some()
    }

    /// The stored value under this key, if any.
    pub fn get(&self, h: u128) -> (r: Option<&V>)
        requires
            self.wf(),
        ensures
            match r {
                Some(v) => self.view_map().contains_key(h) && v@ == self.view_map()[h],
                None => !self.view_map().contains_key(h),
            },
    {
        proof {
            lemma_kv_keys(self.entries@);
        }
        match self.find(h) {
            Some(i) => {
                proof {
                    lemma_kv_entry(self.entries@, i as int);
                }
                Some(&self.entries[i].1)
            },
            None => None,
        }
    }

    /// Store a value under a key that is not yet present; a key already
    /// present keeps its value (the caller skips rewriting identical
    /// content-addressed records).
    pub fn put_new(&mut self, h: u128, v: V)
        requires
            old(self).wf(),
        ensures
            final(self).wf(),
            final(self).view_map() == if old(self).view_map().contains_key(h) {
                old(self).view_map()
            } else {
                old(self).view_map().insert(h, v@)
            },
            old(self).view_map().contains_key(h) ==> *final(self) == *old(self),
            !old(self).view_map().contains_key(h) ==> final(self).len() == old(self).len() + 1,
            final(self).view_map().contains_key(h),
            forall|k: u128|
                old(self).view_map().contains_key(k) ==> final(self).view_map().contains_key(k)
                    && final(self).view_map()[k] == old(self).view_map()[k],
    {
        proof {
            lemma_kv_keys(self.entries@);
        }
        match self.find(h) {
            Some(i) => {
                proof {
                    lemma_kv_entry(self.entries@, i as int);
                    assert(self.view_map() =~= old(self).view_map());
                }
            },
            None => {
                self.entries.push((h, v));
                proof {
                    assert(self.entries@.drop_last() =~= old(self).entries@);
                }
            },
        }
    }

    /// Every stored key, in storage order.
    pub fn keys(&self) -> (r: Vec<u128>)
        requires
            self.wf(),
        ensures
            r@.len() == self.len(),
            forall|i: int|
                0 <= i < r@.len() ==> (#[trigger] r@[i]) == self.key_at(i)
                    && self.view_map().contains_key(r@[i]),
    {
        let mut r: Vec<u128> = Vec::new();
        let mut i: usize = 0;
        while i < self.entries.len()
            invariant
                i <= self.entries@.len(),
                r@.len() == i,
                forall|j: int| 0 <= j < i ==> (#[trigger] r@[j]) == self.entries@[j].0,
            decreases self.entries@.len() - i,
        {
            r.push(self.entries[i].0);
            i = i + 1;
        }
        proof {
            assert forall|i2: int| 0 <= i2 < r@.len() implies self.view_map().contains_key(
                r@[i2],
            ) by {
                lemma_kv_entry(self.entries@, i2);
            }
        }
        r
    }
}

/// A key of some entry is a key of the map, and conversely.
pub proof fn lemma_kv_keys<V: View>(entries: Seq<(u128, V)>)
    ensures
        forall|h: u128|
            kv_map_of(entries).contains_key(h) <==> exists|i: int|
                0 <= i < entries.len() && (#[trigger] entries[i]).0 == h,
    decreases entries.len(),
{
    if entries.len() > 0 {
        lemma_kv_keys(entries.drop_last());
        assert forall|h: u128| kv_map_of(entries).contains_key(h) implies exists|i: int|
            0 <= i < entries.len() && (#[trigger] entries[i]).0 == h by {
            if h == entries.last().0 {
                assert(entries[entries.len() - 1].0 == h);
            } else {
                assert(kv_map_of(entries.drop_last()).contains_key(h));
                let i = choose|i: int|
                    0 <= i < entries.drop_last().len() && (#[trigger] entries.drop_last()[i]).0
                        == h;
                assert(entries.drop_last()[i] == entries[i]);
                assert(entries[i].0 == h);
            }
        }
        assert forall|h: u128|
            exists|i: int| 0 <= i < entries.len() && (#[trigger] entries[i]).0 == h implies
            kv_map_of(entries).contains_key(h) by {
            let i = choose|i: int| 0 <= i < entries.len() && (#[trigger] entries[i]).0 == h;
            if i < entries.len() - 1 {
                assert(entries.drop_last()[i].0 == h);
                assert(kv_map_of(entries.drop_last()).contains_key(h));
            } else {
                assert(h == entries.last().0);
            }
        }
    }
}

/// With unique keys, each entry's view is the map's value at its key.
pub proof fn lemma_kv_entry<V: View>(entries: Seq<(u128, V)>, i: int)
    requires
        0 <= i < entries.len(),
        forall|a: int, b: int|
            0 <= a < b < entries.len() ==> (#[trigger] entries[a].0) != (#[trigger] entries[b].0),
    ensures
        kv_map_of(entries).contains_key(entries[i].0),
        kv_map_of(entries)[entries[i].0] == entries[i].1@,
    decreases entries.len(),
{
    if i == entries.len() - 1 {
    } else {
        lemma_kv_entry(entries.drop_last(), i);
        assert(entries.drop_last()[i] == entries[i]);
        assert(entries[i].0 != entries.last().0);
    }
}

/// Ghost mirror of one node's DB.
#[verifier::ext_equal]
pub struct DbView {
    pub payload: HeaderView,
    pub parent: Option<MerkleHash>,
    pub children: Seq<HeaderView>,
}

/// One node's embedded KV database: the node's own header, its parent
/// back-reference, and its immediate children's headers in entry order.
#[derive(Debug)]
pub struct MerkleNodeDb {
    pub payload: EMerkleTreeNode,
    pub parent: Option<MerkleHash>,
    pub children: Vec<EMerkleTreeNode>,
}

impl View for MerkleNodeDb {
    type V = DbView;

    open spec fn view(&self) -> DbView {
        DbView { payload: self.payload@, parent: self.parent, children: headers_view(
            self.children@,
        ) }
    }
}

impl MerkleNodeDb {
    /// An ordered listing of the children: each child's hash with its
    /// header, as stored.
    pub fn map_entries(&self) -> (r: Vec<(MerkleHash, EMerkleTreeNode)>)
        ensures
            r@.len() == self@.children.len(),
            forall|i: int|
                0 <= i < r@.len() ==> (#[trigger] r@[i]).0 == self@.children[i].hash_val()
                    && r@[i].1@ == self@.children[i],
    {
        let mut r: Vec<(MerkleHash, EMerkleTreeNode)> = Vec::new();
        let mut i: usize = 0;
        while i < self.children.len()
            invariant
                i <= self.children@.len(),
                r@.len() == i,
                forall|j: int|
                    0 <= j < i ==> (#[trigger] r@[j]).0 == headers_view(self.children@)[j].hash_val()
                        && r@[j].1@ == headers_view(self.children@)[j],
            decreases self.children@.len() - i,
        {
            let hdr = self.children[i].clone();
            r.push((hdr.hash(), hdr));
            i = i + 1;
        }
        r
    }
}

/// The set of per-node DBs of a repository, keyed by node hash.
pub type NodeDbs = KeyedVec<MerkleNodeDb>;

} // verus!
