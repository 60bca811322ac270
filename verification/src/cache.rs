//! The depth-aware node cache.
//!
//! A cache entry records a node's header, its immediate children's
//! headers, and how deeply the subtree below it was loaded when it was
//! cached. The backing store is an LRU map from the `lru` crate, used
//! through trusted wrappers; inserting a new key into a full cache
//! evicts one other entry, and below capacity nothing is evicted.

use vstd::prelude::*;
use crate::hash::MerkleHash;
use crate::node::{EMerkleTreeNode, HeaderView, headers_view};

verus! {

/// How deeply a cached node's subtree was loaded: `loaded_depth` is -1
/// for a recursive load, else the finite depth below this node.
pub struct CachedNode {
    pub hash: MerkleHash,
    pub node: EMerkleTreeNode,
    pub parent_id: Option<MerkleHash>,
    pub children: Vec<EMerkleTreeNode>,
    pub loaded_depth: i32,
    pub is_recursive: bool,
}

/// Ghost mirror of a cache entry.
#[verifier::ext_equal]
pub struct CachedNodeView {
    pub hash: MerkleHash,
    pub node: HeaderView,
    pub parent_id: Option<MerkleHash>,
    pub children: Seq<HeaderView>,
    pub loaded_depth: i32,
    pub is_recursive: bool,
}

impl View for CachedNode {
    type V = CachedNodeView;

    open spec fn view(&self) -> CachedNodeView {
        CachedNodeView {
            hash: self.hash,
            node: self.node@,
            parent_id: self.parent_id,
            children: headers_view(self.children@),
            loaded_depth: self.loaded_depth,
            is_recursive: self.is_recursive,
        }
    }
}

impl Clone for CachedNode {
    fn clone(&self) -> (res: Self)
        ensures
            res@ == self@,
    {
        let mut children: Vec<EMerkleTreeNode> = Vec::new();
        let mut i: usize = 0;
        while i < self.children.len()
            invariant
                i <= self.children@.len(),
                children@.len() == i,
                forall|j: int| 0 <= j < i ==> (#[trigger] children@[j])@ == self.children@[j]@,
            decreases self.children@.len() - i,
        {
            children.push(self.children[i].clone());
            i = i + 1;
        }
        let res = CachedNode {
            hash: self.hash,
            node: self.node.clone(),
            parent_id: self.parent_id,
            children,
            loaded_depth: self.loaded_depth,
            is_recursive: self.is_recursive,
        };
        proof {
            assert(headers_view(res.children@) =~= headers_view(self.children@));
            assert(res@ =~= self@);
        }
        res
    }
}

impl CachedNodeView {
    /// Whether this entry already covers a request for `requested_depth`
    /// levels (or a recursive request).
    pub open spec fn spec_satisfies_depth(
        self,
        requested_depth: int,
        requested_recursive: bool,
    ) -> bool {
        if requested_recursive && !self.is_recursive {
            false
        } else if self.is_recursive || self.loaded_depth == -1 {
            true
        } else {
            self.loaded_depth >= requested_depth
        }
    }
}

impl CachedNode {
    /// Check if this cached entry satisfies the requested depth.
    pub fn satisfies_depth(&self, requested_depth: i32, requested_recursive: bool) -> (b: bool)
        ensures
            b == self@.spec_satisfies_depth(requested_depth as int, requested_recursive),
    {
        if requested_recursive && !self.is_recursive {
            false
        } else if self.is_recursive || self.loaded_depth == -1 {
            true
        } else {
            self.loaded_depth >= requested_depth
        }
    }
}

/// The LRU map of the `lru` crate, held opaquely: Verus sees this store
/// only through [`cache_contents`] and the trusted wrappers below.
#[verifier::external_body]
pub struct LruStore {
    inner: lru::LruCache<u128, CachedNode>,
}

/// An empty cache contents map.
pub open spec fn empty_cache_contents() -> Map<u128, CachedNodeView> {
    Map::empty()
}

/// What the LRU map holds: entry views by node hash.
pub uninterp spec fn cache_contents(c: LruStore) -> Map<u128, CachedNodeView>;

/// The bound the LRU map was created with: how many entries it holds at
/// most before inserting evicts.
pub uninterp spec fn cache_cap(c: LruStore) -> nat;

/// Relies on `lru::LruCache::new`: an empty cache holding at most `cap`
/// entries.
#[verifier::external_body]
fn lru_new(cap: usize) -> (c: LruStore)
    requires
        cap >= 1,
    ensures
        cache_contents(c) == empty_cache_contents(),
        cache_cap(c) == cap as nat,
{
    LruStore { inner: lru::LruCache::new(core::num::NonZeroUsize::new(cap).unwrap()) }
}

/// Relies on `lru::LruCache::get`: returns the entry stored under the
/// key and only touches recency, plus a field-wise clone of the entry.
#[verifier::external_body]
fn lru_get(c: &mut LruStore, k: u128) -> (r: Option<CachedNode>)
    ensures
        cache_contents(*final(c)) == cache_contents(*old(c)),
        cache_cap(*final(c)) == cache_cap(*old(c)),
        match r {
            Some(v) => cache_contents(*old(c)).contains_key(k) && v@ == cache_contents(*old(c))[k],
            None => !cache_contents(*old(c)).contains_key(k),
        },
{
    c.inner.get(&k).cloned()
}

/// Relies on `lru::LruCache::put`: stores the pair; an existing key is
/// updated in place, and only a new key inserted while the map is full
/// makes the least-recently-used other entry leave.
#[verifier::external_body]
fn lru_put(c: &mut LruStore, k: u128, v: CachedNode)
    ensures
        cache_cap(*final(c)) == cache_cap(*old(c)),
        ({
            let m = cache_contents(*old(c)).insert(k, v@);
            cache_contents(*final(c)) == m || exists|e: u128|
                e != k && cache_contents(*old(c)).contains_key(e) && cache_contents(*final(c))
                    == m.remove(e)
        }),
        cache_contents(*old(c)).contains_key(k) || cache_contents(*old(c)).len() != cache_cap(
            *old(c),
        ) ==> cache_contents(*final(c)) == cache_contents(*old(c)).insert(k, v@),
{
    c.inner.put(k, v);
}

/// Relies on `lru::LruCache::pop`: removes the entry under the key, if
/// any.
#[verifier::external_body]
fn lru_pop(c: &mut LruStore, k: u128)
    ensures
        cache_contents(*final(c)) == cache_contents(*old(c)).remove(k),
        cache_cap(*final(c)) == cache_cap(*old(c)),
{
    let _ = c.inner.pop(&k);
}

/// Relies on `lru::LruCache::clear`: removes every entry.
#[verifier::external_body]
fn lru_clear(c: &mut LruStore)
    ensures
        cache_contents(*final(c)) == empty_cache_contents(),
        cache_cap(*final(c)) == cache_cap(*old(c)),
{
    c.inner.clear();
}

/// The per-repository node cache.
pub struct NodeCache {
    store: LruStore,
}

/// How a cache operation may move the cache: the capacity is kept, the
/// entry count never shrinks, and — as long as the cache stays below
/// its capacity — nothing already cached has been evicted.
pub open spec fn cache_grew(pre: NodeCache, post: NodeCache) -> bool {
    &&& post.capacity() == pre.capacity()
    &&& post.contents().len() >= pre.contents().len()
    &&& (post.contents().len() < post.capacity() ==> forall|k: u128|
        #[trigger] pre.contents().contains_key(k) ==> post.contents().contains_key(k))
}

/// Growing is transitive across two operations.
pub proof fn lemma_cache_grew_trans(a: NodeCache, b: NodeCache, c: NodeCache)
    requires
        cache_grew(a, b),
        cache_grew(b, c),
    ensures
        cache_grew(a, c),
{
}

impl NodeCache {
    /// The cached entries by node hash.
    pub closed spec fn contents(&self) -> Map<u128, CachedNodeView> {
        cache_contents(self.store)
    }

    /// How many entries the cache holds at most.
    pub closed spec fn capacity(&self) -> nat {
        cache_cap(self.store)
    }

    /// An empty cache bounded by `cap` entries.
    pub fn new(cap: usize) -> (c: NodeCache)
        requires
            cap >= 1,
        ensures
            c.contents() == Map::<u128, CachedNodeView>::empty(),
            c.capacity() == cap as nat,
    {
        NodeCache { store: lru_new(cap) }
    }

    /// Look an entry up (touching its recency).
    pub fn get(&mut self, k: u128) -> (r: Option<CachedNode>)
        ensures
            final(self).contents() == old(self).contents(),
            final(self).capacity() == old(self).capacity(),
            cache_grew(*old(self), *final(self)),
            match r {
                Some(v) => old(self).contents().contains_key(k) && v@ == old(self).contents()[k],
                None => !old(self).contents().contains_key(k),
            },
    {
        lru_get(&mut self.store, k)
    }

    /// Store an entry; at most one other entry may be evicted, and none
    /// while the cache is below its capacity.
    pub fn put(&mut self, k: u128, v: CachedNode)
        ensures
            final(self).capacity() == old(self).capacity(),
            old(self).contents().contains_key(k) || old(self).contents().len() < old(
                self,
            ).capacity() ==> final(self).contents() == old(self).contents().insert(k, v@),
            ({
                let m = old(self).contents().insert(k, v@);
                final(self).contents() == m || exists|e: u128|
                    e != k && old(self).contents().contains_key(e) && final(self).contents()
                        == m.remove(e)
            }),
            final(self).contents().contains_key(k),
            final(self).contents()[k] == v@,
            forall|k2: u128|
                final(self).contents().contains_key(k2) ==> k2 == k || (old(
                    self,
                ).contents().contains_key(k2) && final(self).contents()[k2] == old(
                    self,
                ).contents()[k2]),
            old(self).contents().dom().finite() ==> final(self).contents().dom().finite()
                && cache_grew(*old(self), *final(self)),
    {
        lru_put(&mut self.store, k, v);
        proof {
            let pre = old(self).contents();
            let m = pre.insert(k, v@);
            assert(m.dom() =~= pre.dom().insert(k));
            if pre.dom().finite() {
                assert(m.dom().finite());
                if self.contents() != m {
                    let e = choose|e: u128|
                        e != k && pre.contains_key(e) && self.contents() == m.remove(e);
                    assert(self.contents() == m.remove(e));
                    assert(self.contents().dom() =~= m.dom().remove(e));
                    assert(!(pre.contains_key(k) || pre.len() != cache_cap(old(self).store)));
                    assert(m.dom().len() == pre.dom().len() + 1);
                    assert(m.dom().contains(e));
                    assert(self.contents().dom().len() == m.dom().len() - 1);
                    assert(self.contents().len() == pre.len());
                } else {
                    if pre.contains_key(k) {
                        assert(pre.dom().insert(k) =~= pre.dom());
                        assert(self.contents().len() == pre.len());
                    } else {
                        assert(self.contents().dom().len() == pre.dom().len() + 1);
                    }
                }
                assert(cache_grew(*old(self), *self));
            }
        }
    }

    /// Drop the entry under a key, if any.
    pub fn remove(&mut self, k: u128)
        ensures
            final(self).contents() == old(self).contents().remove(k),
            final(self).capacity() == old(self).capacity(),
    {
        lru_pop(&mut self.store, k);
    }

    /// Release every entry.
    pub fn clear(&mut self)
        ensures
            final(self).contents() == Map::<u128, CachedNodeView>::empty(),
            final(self).capacity() == old(self).capacity(),
    {
        lru_clear(&mut self.store);
    }
}

} // verus!
