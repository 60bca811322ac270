//! Loading Merkle tree nodes from the node DBs through the cache.
//!
//! A load request asks for a node bare (no children), to a finite depth,
//! or recursively. Depth counts non-VNode levels only: descending from a
//! directory into its VNode buckets is free. What a load returns is
//! specified by [`spec_load`] and [`spec_load_rec`] over the node DBs
//! alone: a well-formed cache never changes an answer, it only makes it
//! cheaper. That is the reconstruction guarantee of the cache.

use vstd::prelude::*;
use crate::cache::{CachedNode, CachedNodeView, NodeCache};
use crate::db::{DbView, NodeDbs};
use crate::hash::MerkleHash;
use crate::node::{
    EMerkleTreeNode, HeaderView, MerkleTreeNode, NodeView, headers_view, nodes_view,
    lemma_nodes_view,
};
use crate::repo::{cache_entry_wf, cache_wf, db_ok, dbs_wf};

verus! {

/// The depth an edge consumes: descending from a directory into one of
/// its VNode buckets is free; every other edge costs one level.
pub open spec fn load_cost(parent: HeaderView, child: HeaderView) -> int {
    if parent is Directory && child is VNode {
        0
    } else {
        1
    }
}

/// Termination phase of the free edges: a VNode sits between a directory
/// and its entries.
pub open spec fn load_phase(h: HeaderView) -> int {
    if h is VNode {
        0
    } else {
        1
    }
}

/// The rank of a node, from the repository's rank witness.
pub open spec fn rank_of(rank: Map<u128, nat>, h: u128) -> int {
    if rank.contains_key(h) {
        rank[h] as int
    } else {
        0
    }
}

/// A node served without children, from a child entry's header.
pub open spec fn bare_view(h: MerkleHash, hdr: HeaderView, parent: Option<MerkleHash>) -> NodeView {
    NodeView { hash: h, header: hdr, parent, children: Seq::empty() }
}

/// Whether hash `h2` names a leaf node somewhere in the loaded subtree.
pub open spec fn tree_has_leaf(n: NodeView, h2: u128) -> bool
    decreases n,
{
    (n.hash.value == h2 && n.header.is_leaf()) || exists|i: int|
        0 <= i < n.children.len() && tree_has_leaf(#[trigger] n.children[i], h2)
}

/// Whether any tree of a loaded run has leaf `h2`.
pub open spec fn trees_have_leaf(ns: Seq<NodeView>, h2: u128) -> bool {
    exists|j: int| 0 <= j < ns.len() && tree_has_leaf(#[trigger] ns[j], h2)
}

/// The view of an optional loaded node.
pub open spec fn opt_node_view(r: Option<MerkleTreeNode>) -> Option<NodeView> {
    match r {
        Some(n) => Some(n@),
        None => None,
    }
}

/// What loading node `h` to finite depth `d` returns: its own DB record,
/// with the children the budget admits.
pub open spec fn spec_load(dbs: Map<u128, DbView>, h: u128, d: int) -> Option<NodeView>
    decreases d, 2int, 0int, 0int,
    when d >= 0
{
    if !dbs.contains_key(h) {
        None
    } else {
        Some(
            NodeView {
                hash: MerkleHash { value: h },
                header: dbs[h].payload,
                parent: dbs[h].parent,
                children: spec_load_entries(dbs, dbs[h].payload, h, dbs[h].children, d),
            },
        )
    }
}

/// The children a node's entry list yields at budget `d`: entries whose
/// edge cost exceeds the budget are not loaded at all.
pub open spec fn spec_load_entries(
    dbs: Map<u128, DbView>,
    parent: HeaderView,
    parent_h: u128,
    entries: Seq<HeaderView>,
    d: int,
) -> Seq<NodeView>
    decreases d, load_phase(parent), entries.len(), 0int,
    when d >= 0
{
    if entries.len() == 0 {
        Seq::empty()
    } else {
        let rest = spec_load_entries(dbs, parent, parent_h, entries.drop_last(), d);
        let c = entries.last();
        let k = load_cost(parent, c);
        if d >= k {
            rest.push(spec_load_child(dbs, parent_h, c, d - k))
        } else {
            rest
        }
    }
}

/// One loaded child: a leaf, a pruned subtree or a header mismatch is
/// served bare from the entry's header; anything else descends into the
/// child's own DB.
pub open spec fn spec_load_child(
    dbs: Map<u128, DbView>,
    parent_h: u128,
    c: HeaderView,
    d: int,
) -> NodeView
    decreases d, load_phase(c), dbs[c.id()].children.len() + 1, 1int,
    when d >= 0
{
    if c.is_leaf() || !dbs.contains_key(c.id()) || dbs[c.id()].payload != c {
        bare_view(c.hash_val(), c, Some(MerkleHash { value: parent_h }))
    } else {
        NodeView {
            hash: c.hash_val(),
            header: dbs[c.id()].payload,
            parent: dbs[c.id()].parent,
            children: spec_load_entries(dbs, dbs[c.id()].payload, c.id(), dbs[c.id()].children, d),
        }
    }
}

/// What loading node `h` recursively returns. The rank witness bounds
/// the descent; on a well-formed repository it never cuts a subtree
/// short.
pub open spec fn spec_load_rec(dbs: Map<u128, DbView>, rank: Map<u128, nat>, h: u128) -> Option<
    NodeView,
>
    decreases rank_of(rank, h), 1int, 0int,
{
    if !dbs.contains_key(h) {
        None
    } else {
        Some(
            NodeView {
                hash: MerkleHash { value: h },
                header: dbs[h].payload,
                parent: dbs[h].parent,
                children: spec_load_rec_entries(dbs, rank, h, dbs[h].children),
            },
        )
    }
}

pub open spec fn spec_load_rec_entries(
    dbs: Map<u128, DbView>,
    rank: Map<u128, nat>,
    parent_h: u128,
    entries: Seq<HeaderView>,
) -> Seq<NodeView>
    decreases rank_of(rank, parent_h), 0int, entries.len(),
{
    if entries.len() == 0 {
        Seq::empty()
    } else {
        spec_load_rec_entries(dbs, rank, parent_h, entries.drop_last()).push(
            spec_load_rec_child(dbs, rank, parent_h, entries.last()),
        )
    }
}

pub open spec fn spec_load_rec_child(
    dbs: Map<u128, DbView>,
    rank: Map<u128, nat>,
    parent_h: u128,
    c: HeaderView,
) -> NodeView
    decreases rank_of(rank, parent_h), 0int, 0int,
{
    if c.is_leaf() || !dbs.contains_key(c.id()) || dbs[c.id()].payload != c || !(rank_of(
        rank,
        c.id(),
    ) < rank_of(rank, parent_h)) {
        bare_view(c.hash_val(), c, Some(MerkleHash { value: parent_h }))
    } else {
        NodeView {
            hash: c.hash_val(),
            header: dbs[c.id()].payload,
            parent: dbs[c.id()].parent,
            children: spec_load_rec_entries(dbs, rank, c.id(), dbs[c.id()].children),
        }
    }
}

/// A directory loaded at depth 0 carries exactly its stored VNode
/// headers: one loaded child per DB entry, hash and header matching.
pub proof fn lemma_load_dir_entries(
    dbs: Map<u128, DbView>,
    rank: Map<u128, nat>,
    vsz: u64,
    h: u128,
)
    requires
        dbs_wf(dbs, rank, vsz),
        dbs.contains_key(h),
        dbs[h].payload is Directory,
    ensures
        ({
            let loaded = spec_load(dbs, h, 0).unwrap();
            &&& loaded.children.len() == dbs[h].children.len()
            &&& forall|i: int|
                0 <= i < dbs[h].children.len() ==> (#[trigger] loaded.children[i]).hash
                    == dbs[h].children[i].hash_val() && loaded.children[i].header
                    == dbs[h].children[i]
        }),
{
    lemma_load_dir_entries_prefix(dbs, rank, vsz, h, dbs[h].children.len() as int);
    assert(dbs[h].children.subrange(0, dbs[h].children.len() as int) =~= dbs[h].children);
}

proof fn lemma_load_dir_entries_prefix(
    dbs: Map<u128, DbView>,
    rank: Map<u128, nat>,
    vsz: u64,
    h: u128,
    upto: int,
)
    requires
        dbs_wf(dbs, rank, vsz),
        dbs.contains_key(h),
        dbs[h].payload is Directory,
        0 <= upto <= dbs[h].children.len(),
    ensures
        ({
            let cs = spec_load_entries(
                dbs,
                dbs[h].payload,
                h,
                dbs[h].children.subrange(0, upto),
                0,
            );
            &&& cs.len() == upto
            &&& forall|i: int|
                0 <= i < upto ==> (#[trigger] cs[i]).hash == dbs[h].children[i].hash_val()
                    && cs[i].header == dbs[h].children[i]
        }),
    decreases upto,
{
    assert(db_ok(dbs, rank, vsz, h));
    if upto > 0 {
        lemma_load_dir_entries_prefix(dbs, rank, vsz, h, upto - 1);
        let entries = dbs[h].children.subrange(0, upto);
        assert(entries.drop_last() =~= dbs[h].children.subrange(0, upto - 1));
        assert(entries.last() == dbs[h].children[upto - 1]);
        let c = dbs[h].children[upto - 1];
        assert(c is VNode);
        assert(load_cost(dbs[h].payload, c) == 0);
        let child = spec_load_child(dbs, h, c, 0);
        if c.is_leaf() || !dbs.contains_key(c.id()) || dbs[c.id()].payload != c {
            assert(child.hash == c.hash_val() && child.header == c);
        } else {
            assert(child.hash == c.hash_val() && child.header == dbs[c.id()].payload);
        }
    }
}

/// Copy a header list entry by entry.
fn clone_headers(v: &Vec<EMerkleTreeNode>) -> (r: Vec<EMerkleTreeNode>)
    ensures
        headers_view(r@) == headers_view(v@),
{
    let mut r: Vec<EMerkleTreeNode> = Vec::new();
    let mut i: usize = 0;
    while i < v.len()
        invariant
            i <= v@.len(),
            r@.len() == i,
            forall|j: int| 0 <= j < i ==> (#[trigger] r@[j])@ == v@[j]@,
        decreases v@.len() - i,
    {
        r.push(v[i].clone());
        i = i + 1;
    }
    proof {
        assert(headers_view(r@) =~= headers_view(v@));
    }
    r
}

/// What a load of `h` must return, as a function of the node DBs, the
/// cache as it stood at the call, and the load's own answer on disk.
pub open spec fn load_post(
    dbs: Map<u128, DbView>,
    cache0: Map<u128, CachedNodeView>,
    h: u128,
    r: Option<NodeView>,
    loaded: Option<NodeView>,
) -> bool {
    if dbs.contains_key(h) {
        r == loaded
    } else if cache0.contains_key(h) {
        r == Some(bare_view(cache0[h].hash, cache0[h].node, cache0[h].parent_id))
    } else {
        r is None
    }
}

/// Load node `h` with `depth` levels of non-VNode descendants.
///
/// The result is `spec_load(dbs, h, depth)` whenever `h` has a DB,
/// whatever the cache holds; a cached leaf is served bare; anything else
/// is `None` (a leaf has no DB, so an uncached leaf cannot be found).
pub fn read_node_depth(
    dbs: &NodeDbs,
    cache: &mut NodeCache,
    h: u128,
    depth: i32,
    Ghost(rank): Ghost<Map<u128, nat>>,
    Ghost(vsz): Ghost<u64>,
) -> (r: Option<MerkleTreeNode>)
    requires
        depth >= 0,
        dbs.wf(),
        dbs_wf(dbs.view_map(), rank, vsz),
        cache_wf(old(cache).contents(), dbs.view_map()),
    ensures
        cache_wf(final(cache).contents(), dbs.view_map()),
        load_post(
            dbs.view_map(),
            old(cache).contents(),
            h,
            opt_node_view(r),
            spec_load(dbs.view_map(), h, depth as int),
        ),
    decreases depth, load_phase(dbs.view_map()[h].payload), 1int,
{
    let ghost dbsm = dbs.view_map();
    match cache.get(h) {
        Some(e) => {
            proof {
                assert(cache_entry_wf(e@, h, dbsm));
            }
            if e.satisfies_depth(depth, false) {
                if dbs.contains(h) {
                    proof {
                        assert(db_ok(dbsm, rank, vsz, h));
                        assert(headers_view(e.children@) == dbsm[h].children);
                    }
                    let children = read_children(
                        dbs,
                        cache,
                        &e.children,
                        h,
                        depth,
                        Ghost(rank),
                        Ghost(vsz),
                    );
                    let n = MerkleTreeNode {
                        hash: e.hash,
                        node: e.node,
                        parent_id: e.parent_id,
                        children,
                    };
                    proof {
                        assert(e.hash == MerkleHash { value: h });
                        assert(n@ =~= spec_load(dbsm, h, depth as int).unwrap());
                    }
                    Some(n)
                } else {
                    proof {
                        assert(e@.children.len() == 0);
                        assert(headers_view(e.children@).len() == 0);
                    }
                    let n = MerkleTreeNode {
                        hash: e.hash,
                        node: e.node,
                        parent_id: e.parent_id,
                        children: Vec::new(),
                    };
                    proof {
                        let e0 = old(cache).contents()[h];
                        assert(n@ =~= bare_view(e0.hash, e0.node, e0.parent_id));
                    }
                    Some(n)
                }
            } else {
                proof {
                    if !dbsm.contains_key(h) {
                        assert(e@.is_recursive);
                        assert(false);
                    }
                    assert(db_ok(dbsm, rank, vsz, h));
                }
                let db_opt = dbs.get(h);
                match db_opt {
                    Some(db) => {
                        let children = read_children(
                            dbs,
                            cache,
                            &db.children,
                            h,
                            depth,
                                Ghost(rank),
                            Ghost(vsz),
                        );
                        let n = MerkleTreeNode {
                            hash: MerkleHash { value: h },
                            node: db.payload.clone(),
                            parent_id: db.parent,
                            children,
                        };
                        let entry = CachedNode {
                            hash: MerkleHash { value: h },
                            node: db.payload.clone(),
                            parent_id: db.parent,
                            children: clone_headers(&db.children),
                            loaded_depth: depth,
                            is_recursive: false,
                        };
                        proof {
                            assert(cache_entry_wf(entry@, h, dbsm));
                        }
                        cache_put_wf(cache, h, entry, Ghost(dbsm));
                        proof {
                            assert(n@ =~= spec_load(dbsm, h, depth as int).unwrap());
                        }
                        Some(n)
                    },
                    None => {
                        proof {
                            assert(false);
                        }
                        None
                    },
                }
            }
        },
        None => {
            let db_opt = dbs.get(h);
            match db_opt {
                None => None,
                Some(db) => {
                    proof {
                        assert(db_ok(dbsm, rank, vsz, h));
                    }
                    let children = read_children(
                        dbs,
                        cache,
                        &db.children,
                        h,
                        depth,
                        Ghost(rank),
                        Ghost(vsz),
                    );
                    let n = MerkleTreeNode {
                        hash: MerkleHash { value: h },
                        node: db.payload.clone(),
                        parent_id: db.parent,
                        children,
                    };
                    let entry = CachedNode {
                        hash: MerkleHash { value: h },
                        node: db.payload.clone(),
                        parent_id: db.parent,
                        children: clone_headers(&db.children),
                        loaded_depth: depth,
                        is_recursive: false,
                    };
                    proof {
                        assert(cache_entry_wf(entry@, h, dbsm));
                    }
                    cache_put_wf(cache, h, entry, Ghost(dbsm));
                    proof {
                        assert(n@ =~= spec_load(dbsm, h, depth as int).unwrap());
                    }
                    Some(n)
                },
            }
        },
    }
}

/// Store a well-formed entry; the cache stays well formed whatever is
/// evicted.
fn cache_put_wf(
    cache: &mut NodeCache,
    h: u128,
    entry: CachedNode,
    Ghost(dbsm): Ghost<Map<u128, DbView>>,
)
    requires
        cache_wf(old(cache).contents(), dbsm),
        cache_entry_wf(entry@, h, dbsm),
    ensures
        cache_wf(final(cache).contents(), dbsm),
        crate::cache::cache_grew(*old(cache), *final(cache)),
        final(cache).contents().contains_key(h),
{
    let ghost v = entry@;
    cache.put(h, entry);
    proof {
        assert forall|k2: u128| #[trigger] cache.contents().contains_key(k2) implies
            cache_entry_wf(cache.contents()[k2], k2, dbsm) by {
            if k2 == h {
                assert(cache.contents()[k2] == v);
            } else {
                assert(old(cache).contents().contains_key(k2));
                assert(cache.contents()[k2] == old(cache).contents()[k2]);
            }
        }
    }
}

/// Load the children a header list yields at budget `depth`, each child
/// through the cache.
fn read_children(
    dbs: &NodeDbs,
    cache: &mut NodeCache,
    entries: &Vec<EMerkleTreeNode>,
    parent_h: u128,
    depth: i32,
    Ghost(rank): Ghost<Map<u128, nat>>,
    Ghost(vsz): Ghost<u64>,
) -> (r: Vec<MerkleTreeNode>)
    requires
        depth >= 0,
        dbs.wf(),
        dbs_wf(dbs.view_map(), rank, vsz),
        cache_wf(old(cache).contents(), dbs.view_map()),
        dbs.view_map().contains_key(parent_h),
        headers_view(entries@) == dbs.view_map()[parent_h].children,
    ensures
        cache_wf(final(cache).contents(), dbs.view_map()),
        nodes_view(r@) == spec_load_entries(
            dbs.view_map(),
            dbs.view_map()[parent_h].payload,
            parent_h,
            headers_view(entries@),
            depth as int,
        ),
    decreases depth, load_phase(dbs.view_map()[parent_h].payload), 0int,
{
    let ghost dbsm = dbs.view_map();
    let ghost parent = dbsm[parent_h].payload;
    let ghost hs = headers_view(entries@);
    let parent_is_dir = match dbs.get(parent_h) {
        Some(db) => matches!(db.payload, EMerkleTreeNode::Directory(_)),
        None => false,
    };
    proof {
        assert(parent_is_dir == (parent is Directory));
        assert(hs.subrange(0, 0) =~= Seq::<HeaderView>::empty());
    }
    let mut r: Vec<MerkleTreeNode> = Vec::new();
    let mut i: usize = 0;
    while i < entries.len()
        invariant
            depth >= 0,
            dbs.wf(),
            dbs_wf(dbsm, rank, vsz),
            cache_wf(cache.contents(), dbsm),
            dbsm == dbs.view_map(),
            dbsm.contains_key(parent_h),
            parent == dbsm[parent_h].payload,
            parent_is_dir == (parent is Directory),
            hs == headers_view(entries@),
            hs == dbsm[parent_h].children,
            i <= entries@.len(),
            hs.len() == entries@.len(),
            nodes_view(r@) == spec_load_entries(
                dbsm,
                parent,
                parent_h,
                hs.subrange(0, i as int),
                depth as int,
            ),
        decreases entries@.len() - i,
    {
        proof {
            assert(db_ok(dbsm, rank, vsz, parent_h));
            assert(hs[i as int] == entries@[i as int]@);
        }
        let c = &entries[i];
        let ghost cv = c@;
        let k: i32 = if parent_is_dir && matches!(c, EMerkleTreeNode::VNode(_)) {
            0
        } else {
            1
        };
        proof {
            assert(k as int == load_cost(parent, cv));
        }
        if depth >= k {
            let child = read_child(
                dbs,
                cache,
                c,
                parent_h,
                depth - k,
                Ghost(rank),
                Ghost(vsz),
            );
            let ghost pre_vec = r@;
            let ghost pre = nodes_view(r@);
            r.push(child);
            proof {
                assert(r@.drop_last() =~= pre_vec);
                assert(r@.last() == child);
                assert(nodes_view(r@) =~= pre.push(child@));
            }
        }
        proof {
            let sub = hs.subrange(0, (i + 1) as int);
            assert(sub.drop_last() =~= hs.subrange(0, i as int));
            assert(sub.last() == hs[i as int]);
            assert(nodes_view(r@) =~= spec_load_entries(dbsm, parent, parent_h, sub, depth as int));
        }
        i = i + 1;
    }
    proof {
        assert(hs.subrange(0, hs.len() as int) =~= hs);
    }
    r
}

/// Load node `h` with its whole subtree.
///
/// The result is `spec_load_rec(dbs, rank, h)` whenever `h` has a DB,
/// whatever the cache holds; a cached leaf is served bare; anything else
/// is `None`.
pub fn read_node_rec(
    dbs: &NodeDbs,
    cache: &mut NodeCache,
    h: u128,
    Ghost(rank): Ghost<Map<u128, nat>>,
    Ghost(vsz): Ghost<u64>,
) -> (r: Option<MerkleTreeNode>)
    requires
        dbs.wf(),
        dbs_wf(dbs.view_map(), rank, vsz),
        cache_wf(old(cache).contents(), dbs.view_map()),
    ensures
        cache_wf(final(cache).contents(), dbs.view_map()),
        crate::cache::cache_grew(*old(cache), *final(cache)),
        load_post(
            dbs.view_map(),
            old(cache).contents(),
            h,
            opt_node_view(r),
            spec_load_rec(dbs.view_map(), rank, h),
        ),
        final(cache).contents().len() < final(cache).capacity() ==> (match spec_load_rec(
            dbs.view_map(),
            rank,
            h,
        ) {
            Some(nv) => forall|h2: u128|
                #[trigger] tree_has_leaf(nv, h2) && !dbs.view_map().contains_key(h2)
                    ==> final(cache).contents().contains_key(h2),
            None => true,
        }),
    decreases rank_of(rank, h), 2int,
{
    let ghost dbsm = dbs.view_map();
    match cache.get(h) {
        Some(e) => {
            proof {
                assert(cache_entry_wf(e@, h, dbsm));
            }
            if e.satisfies_depth(-1, true) {
                if dbs.contains(h) {
                    proof {
                        assert(db_ok(dbsm, rank, vsz, h));
                        assert(headers_view(e.children@) == dbsm[h].children);
                    }
                    let children = read_rec_children(
                        dbs,
                        cache,
                        &e.children,
                        h,
                        Ghost(rank),
                        Ghost(vsz),
                    );
                        let ghost cviews = nodes_view(children@);
                        let ghost cmid = *cache;
                    let n = MerkleTreeNode {
                        hash: e.hash,
                        node: e.node,
                        parent_id: e.parent_id,
                        children,
                    };
                    proof {
                        assert(e.hash == MerkleHash { value: h });
                        assert(n@ =~= spec_load_rec(dbsm, rank, h).unwrap());
                        if cache.contents().len() < cache.capacity() {
                            let nv = spec_load_rec(dbsm, rank, h).unwrap();
                            assert(nv.children == cviews);
                            assert forall|h2: u128| #[trigger] tree_has_leaf(nv, h2)
                                && !dbsm.contains_key(h2) implies cache.contents().contains_key(
                                h2,
                            ) by {
                                let j = choose|j: int|
                                    0 <= j < nv.children.len() && tree_has_leaf(
                                        #[trigger] nv.children[j],
                                        h2,
                                    );
                                assert(trees_have_leaf(cviews, h2));
                            }
                        }
                    }
                    Some(n)
                } else {
                    proof {
                        assert(headers_view(e.children@).len() == 0);
                    }
                    let n = MerkleTreeNode {
                        hash: e.hash,
                        node: e.node,
                        parent_id: e.parent_id,
                        children: Vec::new(),
                    };
                    proof {
                        let e0 = old(cache).contents()[h];
                        assert(n@ =~= bare_view(e0.hash, e0.node, e0.parent_id));
                    }
                    Some(n)
                }
            } else {
                proof {
                    if !dbsm.contains_key(h) {
                        assert(e@.is_recursive);
                        assert(false);
                    }
                    assert(db_ok(dbsm, rank, vsz, h));
                }
                let db_opt = dbs.get(h);
                match db_opt {
                    Some(db) => {
                        let children = read_rec_children(
                            dbs,
                            cache,
                            &db.children,
                            h,
                                Ghost(rank),
                            Ghost(vsz),
                        );
                        let ghost cviews = nodes_view(children@);
                        let ghost cmid = *cache;
                        let n = MerkleTreeNode {
                            hash: MerkleHash { value: h },
                            node: db.payload.clone(),
                            parent_id: db.parent,
                            children,
                        };
                        let entry = CachedNode {
                            hash: MerkleHash { value: h },
                            node: db.payload.clone(),
                            parent_id: db.parent,
                            children: clone_headers(&db.children),
                            loaded_depth: -1,
                            is_recursive: true,
                        };
                        proof {
                            assert(cache_entry_wf(entry@, h, dbsm));
                        }
                        cache_put_wf(cache, h, entry, Ghost(dbsm));
                        proof {
                            assert(n@ =~= spec_load_rec(dbsm, rank, h).unwrap());
                            if cache.contents().len() < cache.capacity() {
                                let nv = spec_load_rec(dbsm, rank, h).unwrap();
                                assert(nv.children == cviews);
                                assert(cmid.contents().len() <= cache.contents().len());
                                assert forall|h2: u128| #[trigger] tree_has_leaf(nv, h2)
                                    && !dbsm.contains_key(h2) implies cache.contents().contains_key(
                                    h2,
                                ) by {
                                    let j = choose|j: int|
                                        0 <= j < nv.children.len() && tree_has_leaf(
                                            #[trigger] nv.children[j],
                                            h2,
                                        );
                                    assert(trees_have_leaf(cviews, h2));
                                    assert(cmid.contents().contains_key(h2));
                                }
                            }
                        }
                        Some(n)
                    },
                    None => {
                        proof {
                            assert(false);
                        }
                        None
                    },
                }
            }
        },
        None => {
            let db_opt = dbs.get(h);
            match db_opt {
                None => None,
                Some(db) => {
                    proof {
                        assert(db_ok(dbsm, rank, vsz, h));
                    }
                    let children = read_rec_children(
                        dbs,
                        cache,
                        &db.children,
                        h,
                        Ghost(rank),
                        Ghost(vsz),
                    );
                        let ghost cviews = nodes_view(children@);
                        let ghost cmid = *cache;
                    let n = MerkleTreeNode {
                        hash: MerkleHash { value: h },
                        node: db.payload.clone(),
                        parent_id: db.parent,
                        children,
                    };
                    let entry = CachedNode {
                        hash: MerkleHash { value: h },
                        node: db.payload.clone(),
                        parent_id: db.parent,
                        children: clone_headers(&db.children),
                        loaded_depth: -1,
                        is_recursive: true,
                    };
                    proof {
                        assert(cache_entry_wf(entry@, h, dbsm));
                    }
                    cache_put_wf(cache, h, entry, Ghost(dbsm));
                    proof {
                        assert(n@ =~= spec_load_rec(dbsm, rank, h).unwrap());
                        if cache.contents().len() < cache.capacity() {
                            let nv = spec_load_rec(dbsm, rank, h).unwrap();
                            assert(nv.children == cviews);
                            assert(cmid.contents().len() <= cache.contents().len());
                            assert forall|h2: u128| #[trigger] tree_has_leaf(nv, h2)
                                && !dbsm.contains_key(h2) implies cache.contents().contains_key(
                                h2,
                            ) by {
                                let j = choose|j: int|
                                    0 <= j < nv.children.len() && tree_has_leaf(
                                        #[trigger] nv.children[j],
                                        h2,
                                    );
                                assert(trees_have_leaf(cviews, h2));
                                assert(cmid.contents().contains_key(h2));
                            }
                        }
                    }
                    Some(n)
                },
            }
        },
    }
}

/// Load every child of a header list, recursively, each through the
/// cache.
fn read_rec_children(
    dbs: &NodeDbs,
    cache: &mut NodeCache,
    entries: &Vec<EMerkleTreeNode>,
    parent_h: u128,
    Ghost(rank): Ghost<Map<u128, nat>>,
    Ghost(vsz): Ghost<u64>,
) -> (r: Vec<MerkleTreeNode>)
    requires
        dbs.wf(),
        dbs_wf(dbs.view_map(), rank, vsz),
        cache_wf(old(cache).contents(), dbs.view_map()),
        dbs.view_map().contains_key(parent_h),
        headers_view(entries@) == dbs.view_map()[parent_h].children,
    ensures
        cache_wf(final(cache).contents(), dbs.view_map()),
        crate::cache::cache_grew(*old(cache), *final(cache)),
        nodes_view(r@) == spec_load_rec_entries(
            dbs.view_map(),
            rank,
            parent_h,
            headers_view(entries@),
        ),
        final(cache).contents().len() < final(cache).capacity() ==> forall|h2: u128|
            #[trigger] trees_have_leaf(nodes_view(r@), h2) && !dbs.view_map().contains_key(h2)
                ==> final(cache).contents().contains_key(h2),
    decreases rank_of(rank, parent_h), 1int,
{
    let ghost dbsm = dbs.view_map();
    let ghost hs = headers_view(entries@);
    proof {
        assert(hs.subrange(0, 0) =~= Seq::<HeaderView>::empty());
    }
    let mut r: Vec<MerkleTreeNode> = Vec::new();
    let mut i: usize = 0;
    while i < entries.len()
        invariant
            dbs.wf(),
            dbs_wf(dbsm, rank, vsz),
            cache_wf(cache.contents(), dbsm),
            dbsm == dbs.view_map(),
            dbsm.contains_key(parent_h),
            hs == headers_view(entries@),
            hs == dbsm[parent_h].children,
            i <= entries@.len(),
            hs.len() == entries@.len(),
            nodes_view(r@) == spec_load_rec_entries(dbsm, rank, parent_h, hs.subrange(0, i as int)),
            crate::cache::cache_grew(*old(cache), *cache),
            cache.contents().len() < cache.capacity() ==> forall|h2: u128|
                #[trigger] trees_have_leaf(nodes_view(r@), h2) && !dbsm.contains_key(h2)
                    ==> cache.contents().contains_key(h2),
        decreases entries@.len() - i,
    {
        proof {
            assert(db_ok(dbsm, rank, vsz, parent_h));
            assert(hs[i as int] == entries@[i as int]@);
        }
        let ghost cpre = *cache;
        let c = &entries[i];
        let child = read_rec_child(
            dbs,
            cache,
            c,
            parent_h,
            Ghost(rank),
            Ghost(vsz),
        );
        let ghost pre_vec = r@;
        let ghost pre = nodes_view(r@);
        r.push(child);
        proof {
            assert(r@.drop_last() =~= pre_vec);
            assert(r@.last() == child);
            assert(nodes_view(r@) =~= pre.push(child@));
            let sub = hs.subrange(0, (i + 1) as int);
            assert(sub.drop_last() =~= hs.subrange(0, i as int));
            assert(sub.last() == hs[i as int]);
            assert(nodes_view(r@) =~= spec_load_rec_entries(dbsm, rank, parent_h, sub));
            crate::cache::lemma_cache_grew_trans(*old(cache), cpre, *cache);
            if cache.contents().len() < cache.capacity() {
                assert forall|h2: u128|
                    #[trigger] trees_have_leaf(nodes_view(r@), h2) && !dbsm.contains_key(
                    h2,
                ) implies cache.contents().contains_key(h2) by {
                    let j = choose|j: int|
                        0 <= j < nodes_view(r@).len() && tree_has_leaf(
                            #[trigger] nodes_view(r@)[j],
                            h2,
                        );
                    if j < pre.len() {
                        assert(nodes_view(r@)[j] == pre[j]);
                        assert(trees_have_leaf(pre, h2));
                        assert(cpre.contents().len() <= cache.contents().len());
                        assert(cpre.contents().contains_key(h2));
                    } else {
                        assert(nodes_view(r@)[j] == child@);
                        assert(tree_has_leaf(
                            spec_load_rec_child(dbsm, rank, parent_h, c@),
                            h2,
                        ));
                    }
                }
            }
        }
        i = i + 1;
    }
    proof {
        assert(hs.subrange(0, hs.len() as int) =~= hs);
    }
    r
}

/// Load one child entry recursively: bare when it is a leaf or has no DB
/// of its own, else through its own DB.
fn read_rec_child(
    dbs: &NodeDbs,
    cache: &mut NodeCache,
    c: &EMerkleTreeNode,
    parent_h: u128,
    Ghost(rank): Ghost<Map<u128, nat>>,
    Ghost(vsz): Ghost<u64>,
) -> (r: MerkleTreeNode)
    requires
        dbs.wf(),
        dbs_wf(dbs.view_map(), rank, vsz),
        cache_wf(old(cache).contents(), dbs.view_map()),
        !c@.is_leaf() && dbs.view_map().contains_key(c@.id()) ==> dbs.view_map()[c@.id()].payload == c@,
        !c@.is_leaf() && dbs.view_map().contains_key(c@.id()) ==> rank_of(rank, c@.id())
            < rank_of(rank, parent_h),
    ensures
        cache_wf(final(cache).contents(), dbs.view_map()),
        crate::cache::cache_grew(*old(cache), *final(cache)),
        r@ == spec_load_rec_child(dbs.view_map(), rank, parent_h, c@),
        final(cache).contents().len() < final(cache).capacity() ==> forall|h2: u128|
            #[trigger] tree_has_leaf(spec_load_rec_child(dbs.view_map(), rank, parent_h, c@), h2)
                && !dbs.view_map().contains_key(h2) ==> final(cache).contents().contains_key(h2),
    decreases rank_of(rank, parent_h), 0int,
{
    let ghost dbsm = dbs.view_map();
    let id = c.hash().to_u128();
    proof {
        assert(c@.id() == id);
    }
    if c.is_leaf() {
        let hdr = c.clone();
        if !dbs.contains(id) {
            let entry = CachedNode {
                hash: hdr.hash(),
                node: hdr.clone(),
                parent_id: Some(MerkleHash { value: parent_h }),
                children: Vec::new(),
                loaded_depth: 0,
                is_recursive: true,
            };
            proof {
                assert(headers_view(entry.children@) =~= Seq::<HeaderView>::empty());
                assert(cache_entry_wf(entry@, id, dbsm));
            }
            cache_put_wf(cache, id, entry, Ghost(dbsm));
        }
        let n = MerkleTreeNode {
            hash: hdr.hash(),
            node: hdr,
            parent_id: Some(MerkleHash { value: parent_h }),
            children: Vec::new(),
        };
        proof {
            assert(n@ =~= bare_view(c@.hash_val(), c@, Some(MerkleHash { value: parent_h })));
        }
        n
    } else if !dbs.contains(id) {
        let hdr = c.clone();
        let n = MerkleTreeNode {
            hash: hdr.hash(),
            node: hdr,
            parent_id: Some(MerkleHash { value: parent_h }),
            children: Vec::new(),
        };
        proof {
            assert(n@ =~= bare_view(c@.hash_val(), c@, Some(MerkleHash { value: parent_h })));
        }
        n
    } else {
        let loaded = read_node_rec(dbs, cache, id, Ghost(rank), Ghost(vsz));
        match loaded {
            Some(n) => {
                proof {
                    assert(n@ == spec_load_rec(dbsm, rank, id).unwrap());
                    assert(n@ =~= spec_load_rec_child(dbsm, rank, parent_h, c@));
                }
                n
            },
            None => {
                proof {
                    assert(false);
                }
                MerkleTreeNode::from_header(
                    MerkleHash { value: id },
                    EMerkleTreeNode::FileChunk(crate::node::FileChunkNode {
                        hash: MerkleHash { value: id },
                    }),
                    None,
                )
            },
        }
    }
}

/// Load node `h` bare: its header and parent pointer, no children.
pub fn read_node_bare(
    dbs: &NodeDbs,
    cache: &mut NodeCache,
    h: u128,
    Ghost(rank): Ghost<Map<u128, nat>>,
    Ghost(vsz): Ghost<u64>,
) -> (r: Option<MerkleTreeNode>)
    requires
        dbs.wf(),
        dbs_wf(dbs.view_map(), rank, vsz),
        cache_wf(old(cache).contents(), dbs.view_map()),
    ensures
        cache_wf(final(cache).contents(), dbs.view_map()),
        load_post(
            dbs.view_map(),
            old(cache).contents(),
            h,
            opt_node_view(r),
            if dbs.view_map().contains_key(h) {
                Some(
                    bare_view(
                        MerkleHash { value: h },
                        dbs.view_map()[h].payload,
                        dbs.view_map()[h].parent,
                    ),
                )
            } else {
                None
            },
        ),
{
    let ghost dbsm = dbs.view_map();
    match cache.get(h) {
        Some(e) => {
            proof {
                assert(cache_entry_wf(e@, h, dbsm));
            }
            let n = MerkleTreeNode {
                hash: e.hash,
                node: e.node,
                parent_id: e.parent_id,
                children: Vec::new(),
            };
            proof {
                if dbsm.contains_key(h) {
                    assert(n@ =~= bare_view(MerkleHash { value: h }, dbsm[h].payload, dbsm[
                        h].parent));
                } else {
                    let e0 = old(cache).contents()[h];
                    assert(n@ =~= bare_view(e0.hash, e0.node, e0.parent_id));
                }
            }
            Some(n)
        },
        None => {
            match dbs.get(h) {
                None => None,
                Some(db) => {
                    proof {
                        assert(db_ok(dbsm, rank, vsz, h));
                    }
                    let n = MerkleTreeNode {
                        hash: MerkleHash { value: h },
                        node: db.payload.clone(),
                        parent_id: db.parent,
                        children: Vec::new(),
                    };
                    let entry = CachedNode {
                        hash: MerkleHash { value: h },
                        node: db.payload.clone(),
                        parent_id: db.parent,
                        children: clone_headers(&db.children),
                        loaded_depth: 0,
                        is_recursive: false,
                    };
                    proof {
                        assert(cache_entry_wf(entry@, h, dbsm));
                    }
                    cache_put_wf(cache, h, entry, Ghost(dbsm));
                    proof {
                        assert(n@ =~= bare_view(MerkleHash { value: h }, dbsm[h].payload, dbsm[
                            h].parent));
                    }
                    Some(n)
                },
            }
        },
    }
}

/// Load one child entry at budget `depth`: bare when it is a leaf or has
/// no DB of its own, else through its own DB.
fn read_child(
    dbs: &NodeDbs,
    cache: &mut NodeCache,
    c: &EMerkleTreeNode,
    parent_h: u128,
    depth: i32,
    Ghost(rank): Ghost<Map<u128, nat>>,
    Ghost(vsz): Ghost<u64>,
) -> (r: MerkleTreeNode)
    requires
        depth >= 0,
        dbs.wf(),
        dbs_wf(dbs.view_map(), rank, vsz),
        cache_wf(old(cache).contents(), dbs.view_map()),
        !c@.is_leaf() && dbs.view_map().contains_key(c@.id()) ==> dbs.view_map()[c@.id()].payload == c@,
    ensures
        cache_wf(final(cache).contents(), dbs.view_map()),
        r@ == spec_load_child(dbs.view_map(), parent_h, c@, depth as int),
    decreases depth, load_phase(c@), 2int,
{
    let ghost dbsm = dbs.view_map();
    let id = c.hash().to_u128();
    proof {
        assert(c@.id() == id);
    }
    if c.is_leaf() {
        let hdr = c.clone();
        if !dbs.contains(id) {
            let entry = CachedNode {
                hash: hdr.hash(),
                node: hdr.clone(),
                parent_id: Some(MerkleHash { value: parent_h }),
                children: Vec::new(),
                loaded_depth: 0,
                is_recursive: true,
            };
            proof {
                assert(headers_view(entry.children@) =~= Seq::<HeaderView>::empty());
                assert(entry@.hash == c@.hash_val());
                assert(c@.hash_val().value == id);
                assert(cache_entry_wf(entry@, id, dbsm));
            }
            cache_put_wf(cache, id, entry, Ghost(dbsm));
        }
        let n = MerkleTreeNode {
            hash: hdr.hash(),
            node: hdr,
            parent_id: Some(MerkleHash { value: parent_h }),
            children: Vec::new(),
        };
        proof {
            assert(n@ =~= bare_view(c@.hash_val(), c@, Some(MerkleHash { value: parent_h })));
        }
        n
    } else if !dbs.contains(id) {
        // a pruned subtree: only the header is available
        let hdr = c.clone();
        let n = MerkleTreeNode {
            hash: hdr.hash(),
            node: hdr,
            parent_id: Some(MerkleHash { value: parent_h }),
            children: Vec::new(),
        };
        proof {
            assert(n@ =~= bare_view(c@.hash_val(), c@, Some(MerkleHash { value: parent_h })));
        }
        n
    } else {
        let loaded = read_node_depth(dbs, cache, id, depth, Ghost(rank), Ghost(vsz));
        match loaded {
            Some(n) => {
                proof {
                    assert(n@ == spec_load(dbsm, id, depth as int).unwrap());
                    assert(n@ =~= spec_load_child(dbsm, parent_h, c@, depth as int));
                }
                n
            },
            None => {
                proof {
                    assert(false);
                }
                MerkleTreeNode::from_header(
                    MerkleHash { value: id },
                    EMerkleTreeNode::FileChunk(crate::node::FileChunkNode {
                        hash: MerkleHash { value: id },
                    }),
                    None,
                )
            },
        }
    }
}

/// Whether some hash in the list carries this value.
pub open spec fn seq_has_hash(s: Seq<MerkleHash>, v: u128) -> bool {
    exists|j: int| 0 <= j < s.len() && (#[trigger] s[j]).value == v
}

/// Whether the list holds this hash value.
pub fn contains_hash(s: &Vec<MerkleHash>, v: u128) -> (r: bool)
    ensures
        r == seq_has_hash(s@, v),
{
    let mut i: usize = 0;
    while i < s.len()
        invariant
            i <= s@.len(),
            forall|j: int| 0 <= j < i ==> (#[trigger] s@[j]).value != v,
        decreases s@.len() - i,
    {
        if s[i].value == v {
            return true;
        }
        i = i + 1;
    }
    false
}

/// What loading node `h` truncated at a base set returns: the subtree
/// read from the node DBs, cut short at every node whose hash the base
/// holds — such a node keeps its record but loads no children.
pub open spec fn spec_load_unique(
    dbs: Map<u128, DbView>,
    rank: Map<u128, nat>,
    base: Seq<MerkleHash>,
    h: u128,
) -> Option<NodeView>
    decreases rank_of(rank, h), 1int, 0int,
{
    if !dbs.contains_key(h) {
        None
    } else {
        Some(
            NodeView {
                hash: MerkleHash { value: h },
                header: dbs[h].payload,
                parent: dbs[h].parent,
                children: if seq_has_hash(base, h) {
                    Seq::empty()
                } else {
                    spec_load_unique_entries(dbs, rank, base, h, dbs[h].children)
                },
            },
        )
    }
}

pub open spec fn spec_load_unique_entries(
    dbs: Map<u128, DbView>,
    rank: Map<u128, nat>,
    base: Seq<MerkleHash>,
    parent_h: u128,
    entries: Seq<HeaderView>,
) -> Seq<NodeView>
    decreases rank_of(rank, parent_h), 0int, entries.len(),
{
    if entries.len() == 0 {
        Seq::empty()
    } else {
        spec_load_unique_entries(dbs, rank, base, parent_h, entries.drop_last()).push(
            spec_load_unique_child(dbs, rank, base, parent_h, entries.last()),
        )
    }
}

pub open spec fn spec_load_unique_child(
    dbs: Map<u128, DbView>,
    rank: Map<u128, nat>,
    base: Seq<MerkleHash>,
    parent_h: u128,
    c: HeaderView,
) -> NodeView
    decreases rank_of(rank, parent_h), 0int, 0int,
{
    if c.is_leaf() || !dbs.contains_key(c.id()) || dbs[c.id()].payload != c || !(rank_of(
        rank,
        c.id(),
    ) < rank_of(rank, parent_h)) {
        bare_view(c.hash_val(), c, Some(MerkleHash { value: parent_h }))
    } else {
        NodeView {
            hash: c.hash_val(),
            header: dbs[c.id()].payload,
            parent: dbs[c.id()].parent,
            children: if seq_has_hash(base, c.id()) {
                Seq::empty()
            } else {
                spec_load_unique_entries(dbs, rank, base, c.id(), dbs[c.id()].children)
            },
        }
    }
}

/// The topmost base hashes a truncated load runs into, in traversal
/// order: a shared node is recorded once and not descended.
pub open spec fn spec_shared(
    dbs: Map<u128, DbView>,
    rank: Map<u128, nat>,
    base: Seq<MerkleHash>,
    h: u128,
) -> Seq<MerkleHash>
    decreases rank_of(rank, h), 1int, 0int,
{
    if !dbs.contains_key(h) {
        Seq::empty()
    } else if seq_has_hash(base, h) {
        seq![MerkleHash { value: h }]
    } else {
        spec_shared_entries(dbs, rank, base, h, dbs[h].children)
    }
}

pub open spec fn spec_shared_entries(
    dbs: Map<u128, DbView>,
    rank: Map<u128, nat>,
    base: Seq<MerkleHash>,
    parent_h: u128,
    entries: Seq<HeaderView>,
) -> Seq<MerkleHash>
    decreases rank_of(rank, parent_h), 0int, entries.len(),
{
    if entries.len() == 0 {
        Seq::empty()
    } else {
        spec_shared_entries(dbs, rank, base, parent_h, entries.drop_last())
            + spec_shared_child(dbs, rank, base, parent_h, entries.last())
    }
}

pub open spec fn spec_shared_child(
    dbs: Map<u128, DbView>,
    rank: Map<u128, nat>,
    base: Seq<MerkleHash>,
    parent_h: u128,
    c: HeaderView,
) -> Seq<MerkleHash>
    decreases rank_of(rank, parent_h), 0int, 0int,
{
    if c.is_leaf() || !dbs.contains_key(c.id()) || dbs[c.id()].payload != c || !(rank_of(
        rank,
        c.id(),
    ) < rank_of(rank, parent_h)) {
        Seq::empty()
    } else if seq_has_hash(base, c.id()) {
        seq![c.hash_val()]
    } else {
        spec_shared_entries(dbs, rank, base, c.id(), dbs[c.id()].children)
    }
}

/// Load node `h` truncated at the base set, straight from the node DBs,
/// appending the topmost shared hashes as they are met.
pub fn read_unique(
    dbs: &NodeDbs,
    h: u128,
    base: &Vec<MerkleHash>,
    shared: &mut Vec<MerkleHash>,
    Ghost(rank): Ghost<Map<u128, nat>>,
    Ghost(vsz): Ghost<u64>,
) -> (r: Option<MerkleTreeNode>)
    requires
        dbs.wf(),
        dbs_wf(dbs.view_map(), rank, vsz),
    ensures
        opt_node_view(r) == spec_load_unique(dbs.view_map(), rank, base@, h),
        final(shared)@ == old(shared)@ + spec_shared(dbs.view_map(), rank, base@, h),
    decreases rank_of(rank, h), 2int,
{
    let ghost dbsm = dbs.view_map();
    match dbs.get(h) {
        None => {
            proof {
                assert(shared@ =~= old(shared)@ + spec_shared(dbsm, rank, base@, h));
            }
            None
        },
        Some(db) => {
            proof {
                assert(db_ok(dbsm, rank, vsz, h));
            }
            if contains_hash(base, h) {
                shared.push(MerkleHash { value: h });
                let n = MerkleTreeNode {
                    hash: MerkleHash { value: h },
                    node: db.payload.clone(),
                    parent_id: db.parent,
                    children: Vec::new(),
                };
                proof {
                    assert(shared@ =~= old(shared)@ + spec_shared(dbsm, rank, base@, h));
                    assert(n@ =~= spec_load_unique(dbsm, rank, base@, h).unwrap());
                }
                Some(n)
            } else {
                let children = read_unique_children(
                    dbs,
                    &db.children,
                    h,
                    base,
                    shared,
                    Ghost(rank),
                    Ghost(vsz),
                );
                let n = MerkleTreeNode {
                    hash: MerkleHash { value: h },
                    node: db.payload.clone(),
                    parent_id: db.parent,
                    children,
                };
                proof {
                    assert(n@ =~= spec_load_unique(dbsm, rank, base@, h).unwrap());
                }
                Some(n)
            }
        },
    }
}

fn read_unique_children(
    dbs: &NodeDbs,
    entries: &Vec<EMerkleTreeNode>,
    parent_h: u128,
    base: &Vec<MerkleHash>,
    shared: &mut Vec<MerkleHash>,
    Ghost(rank): Ghost<Map<u128, nat>>,
    Ghost(vsz): Ghost<u64>,
) -> (r: Vec<MerkleTreeNode>)
    requires
        dbs.wf(),
        dbs_wf(dbs.view_map(), rank, vsz),
        dbs.view_map().contains_key(parent_h),
        headers_view(entries@) == dbs.view_map()[parent_h].children,
    ensures
        nodes_view(r@) == spec_load_unique_entries(
            dbs.view_map(),
            rank,
            base@,
            parent_h,
            headers_view(entries@),
        ),
        final(shared)@ == old(shared)@ + spec_shared_entries(
            dbs.view_map(),
            rank,
            base@,
            parent_h,
            headers_view(entries@),
        ),
    decreases rank_of(rank, parent_h), 1int,
{
    let ghost dbsm = dbs.view_map();
    let ghost hs = headers_view(entries@);
    proof {
        assert(hs.subrange(0, 0) =~= Seq::<HeaderView>::empty());
        assert(shared@ =~= old(shared)@ + spec_shared_entries(dbsm, rank, base@, parent_h,
            hs.subrange(0, 0)));
    }
    let mut r: Vec<MerkleTreeNode> = Vec::new();
    let mut i: usize = 0;
    while i < entries.len()
        invariant
            dbs.wf(),
            dbs_wf(dbsm, rank, vsz),
            dbsm == dbs.view_map(),
            dbsm.contains_key(parent_h),
            hs == headers_view(entries@),
            hs == dbsm[parent_h].children,
            i <= entries@.len(),
            hs.len() == entries@.len(),
            nodes_view(r@) == spec_load_unique_entries(dbsm, rank, base@, parent_h, hs.subrange(
                0,
                i as int,
            )),
            shared@ == old(shared)@ + spec_shared_entries(dbsm, rank, base@, parent_h, hs.subrange(
                0,
                i as int,
            )),
        decreases entries@.len() - i,
    {
        proof {
            assert(db_ok(dbsm, rank, vsz, parent_h));
            assert(hs[i as int] == entries@[i as int]@);
        }
        let c = &entries[i];
        let child = read_unique_child(
            dbs,
            c,
            parent_h,
            base,
            shared,
            Ghost(rank),
            Ghost(vsz),
        );
        let ghost pre_vec = r@;
        let ghost pre = nodes_view(r@);
        r.push(child);
        proof {
            assert(r@.drop_last() =~= pre_vec);
            assert(r@.last() == child);
            assert(nodes_view(r@) =~= pre.push(child@));
            let sub = hs.subrange(0, (i + 1) as int);
            assert(sub.drop_last() =~= hs.subrange(0, i as int));
            assert(sub.last() == hs[i as int]);
            assert(nodes_view(r@) =~= spec_load_unique_entries(dbsm, rank, base@, parent_h, sub));
            assert(shared@ =~= old(shared)@ + spec_shared_entries(dbsm, rank, base@, parent_h,
                sub));
        }
        i = i + 1;
    }
    proof {
        assert(hs.subrange(0, hs.len() as int) =~= hs);
    }
    r
}

fn read_unique_child(
    dbs: &NodeDbs,
    c: &EMerkleTreeNode,
    parent_h: u128,
    base: &Vec<MerkleHash>,
    shared: &mut Vec<MerkleHash>,
    Ghost(rank): Ghost<Map<u128, nat>>,
    Ghost(vsz): Ghost<u64>,
) -> (r: MerkleTreeNode)
    requires
        dbs.wf(),
        dbs_wf(dbs.view_map(), rank, vsz),
        !c@.is_leaf() && dbs.view_map().contains_key(c@.id()) ==> dbs.view_map()[c@.id()].payload
            == c@,
        !c@.is_leaf() && dbs.view_map().contains_key(c@.id()) ==> rank_of(rank, c@.id())
            < rank_of(rank, parent_h),
    ensures
        r@ == spec_load_unique_child(dbs.view_map(), rank, base@, parent_h, c@),
        final(shared)@ == old(shared)@ + spec_shared_child(dbs.view_map(), rank, base@, parent_h,
            c@),
    decreases rank_of(rank, parent_h), 0int,
{
    let ghost dbsm = dbs.view_map();
    let id = c.hash().to_u128();
    proof {
        assert(c@.id() == id);
    }
    if c.is_leaf() || !dbs.contains(id) {
        let hdr = c.clone();
        let n = MerkleTreeNode {
            hash: hdr.hash(),
            node: hdr,
            parent_id: Some(MerkleHash { value: parent_h }),
            children: Vec::new(),
        };
        proof {
            assert(n@ =~= bare_view(c@.hash_val(), c@, Some(MerkleHash { value: parent_h })));
            assert(shared@ =~= old(shared)@ + spec_shared_child(dbsm, rank, base@, parent_h, c@));
        }
        n
    } else {
        let loaded = read_unique(dbs, id, base, shared, Ghost(rank), Ghost(vsz));
        match loaded {
            Some(n) => {
                proof {
                    assert(n@ == spec_load_unique(dbsm, rank, base@, id).unwrap());
                    assert(n@ =~= spec_load_unique_child(dbsm, rank, base@, parent_h, c@));
                }
                n
            },
            None => {
                proof {
                    assert(false);
                }
                MerkleTreeNode::from_header(
                    MerkleHash { value: id },
                    EMerkleTreeNode::FileChunk(crate::node::FileChunkNode {
                        hash: MerkleHash { value: id },
                    }),
                    None,
                )
            },
        }
    }
}

} // verus!
