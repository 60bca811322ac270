//! The per-commit Merkle tree: loading it whole or piecewise, and
//! navigating it by path through the dir-hashes index.

use vstd::prelude::*;
use vstd::string::StringSliceAdditionalSpecFns;
use vstd::string::StrSliceExecFns;
use crate::db::DbView;
use crate::error::{OxenError, OxenErrorKind};
use crate::hash::{MerkleHash, fnv128_of, hex_chars_of};
use crate::node::{
    EMerkleTreeNode, FileNode, FileNodeView, HeaderView, MerkleTreeNode, NodeView, PartialNode,
    nodes_view, lemma_nodes_view,
};
use crate::repo::{Commit, DirHashes, LocalRepository};
use crate::tree::{
    bare_view, load_post, opt_node_view, read_node_bare, read_node_depth, read_node_rec,
    read_unique, seq_has_hash, spec_load, spec_load_rec, spec_load_unique, spec_shared,
};
use crate::tree_node::{
    node_entries, nodes_ref_view, spec_find_name, spec_get_by_segments, spec_preorder, split_to,
};

verus! {

/// A commit's tree held in memory: its root (to whatever depth it was
/// loaded) and the commit's dir-hashes index.
pub struct CommitMerkleTree {
    pub root: MerkleTreeNode,
    pub dir_hashes: DirHashes,
}

/// What remains of the repository after a read: only the cache moved.
pub open spec fn read_frame(pre: &LocalRepository, post: &LocalRepository) -> bool {
    &&& post.wf()
    &&& post.dbs_map() == pre.dbs_map()
    &&& post.blobs() == pre.blobs()
    &&& post.branches.view_map() == pre.branches.view_map()
    &&& post.dir_hashes_dbs.view_map() == pre.dir_hashes_dbs.view_map()
    &&& post.staged@ == pre.staged@
    &&& post.rank@ == pre.rank@
    &&& post.vnode_size == pre.vnode_size
    &&& post.path@ == pre.path@
    &&& post.head == pre.head
}

impl CommitMerkleTree {
    /// The dir-hashes DB location of a commit:
    /// `<repo>/.oxen/history/<commit-id>/dir_hashes`.
    pub fn dir_hash_db_path_from_commit_id(repo: &LocalRepository, commit_id: MerkleHash) -> (r:
        String)
        ensures
            r@ == repo.path@ + "/.oxen/history/"@ + hex_chars_of(commit_id.value)
                + "/dir_hashes"@,
    {
        let a = crate::text::str_concat(repo.path.as_str(), "/.oxen/history/");
        let hexs = commit_id.to_hex_string();
        let b = crate::text::str_concat(a.as_str(), hexs.as_str());
        let r = crate::text::str_concat(b.as_str(), "/dir_hashes");
        proof {
            assert(r@ =~= repo.path@ + "/.oxen/history/"@ + hex_chars_of(commit_id.value)
                + "/dir_hashes"@);
        }
        r
    }

    /// Load a node by hash: bare, or with its whole subtree.
    ///
    /// With `recurse`, the result is `spec_load_rec` of the node DBs
    /// whenever the hash has a DB, whatever the cache holds; a cached
    /// leaf is served bare; anything else is `None`.
    pub fn read_node(repo: &mut LocalRepository, hash: &MerkleHash, recurse: bool) -> (r: Result<
        Option<MerkleTreeNode>,
        OxenError,
    >)
        requires
            old(repo).wf(),
        ensures
            read_frame(old(repo), final(repo)),
            match r {
                Ok(opt) => load_post(
                    old(repo).dbs_map(),
                    old(repo).cache_map(),
                    hash.value,
                    opt_node_view(opt),
                    if recurse {
                        spec_load_rec(old(repo).dbs_map(), old(repo).rank@, hash.value)
                    } else {
                        match spec_load_rec(old(repo).dbs_map(), old(repo).rank@, hash.value) {
                            Some(n) => Some(bare_view(n.hash, n.header, n.parent)),
                            None => None,
                        }
                    },
                ),
                Err(_) => false,
            },
            recurse && final(repo).cache.contents().len() < final(repo).cache.capacity()
                ==> (match spec_load_rec(old(repo).dbs_map(), old(repo).rank@, hash.value) {
                Some(nv) => forall|h2: u128|
                    #[trigger] crate::tree::tree_has_leaf(nv, h2) && !old(
                        repo,
                    ).dbs_map().contains_key(h2) ==> final(repo).cache.contents().contains_key(h2),
                None => true,
            }),
    {
        let opt = if recurse {
            read_node_rec(
                &repo.dbs,
                &mut repo.cache,
                hash.to_u128(),
                Ghost(repo.rank@),
                Ghost(repo.vnode_size),
            )
        } else {
            let o = read_node_bare(
                &repo.dbs,
                &mut repo.cache,
                hash.to_u128(),
                Ghost(repo.rank@),
                Ghost(repo.vnode_size),
            );
            o
        };
        Ok(opt)
    }

    /// Load a node by hash with `depth` levels of non-VNode descendants;
    /// VNode buckets are transparent to the depth count.
    pub fn read_depth(repo: &mut LocalRepository, hash: &MerkleHash, depth: i32) -> (r: Result<
        Option<MerkleTreeNode>,
        OxenError,
    >)
        requires
            old(repo).wf(),
            depth >= 0,
        ensures
            read_frame(old(repo), final(repo)),
            match r {
                Ok(opt) => load_post(
                    old(repo).dbs_map(),
                    old(repo).cache_map(),
                    hash.value,
                    opt_node_view(opt),
                    spec_load(old(repo).dbs_map(), hash.value, depth as int),
                ),
                Err(_) => false,
            },
    {
        let opt = read_node_depth(
            &repo.dbs,
            &mut repo.cache,
            hash.to_u128(),
            depth,
            Ghost(repo.rank@),
            Ghost(repo.vnode_size),
        );
        Ok(opt)
    }

    /// The commit's root node with its whole subtree.
    pub fn root_with_children(repo: &mut LocalRepository, commit: &Commit) -> (r: Result<
        Option<MerkleTreeNode>,
        OxenError,
    >)
        requires
            old(repo).wf(),
        ensures
            read_frame(old(repo), final(repo)),
            match r {
                Ok(opt) => load_post(
                    old(repo).dbs_map(),
                    old(repo).cache_map(),
                    commit.id.value,
                    opt_node_view(opt),
                    spec_load_rec(old(repo).dbs_map(), old(repo).rank@, commit.id.value),
                ),
                Err(_) => false,
            },
    {
        CommitMerkleTree::read_node(repo, &commit.id, true)
    }

    /// The commit's root node with the root directory and its VNode
    /// headers, but nothing deeper.
    pub fn root_without_children(repo: &mut LocalRepository, commit: &Commit) -> (r: Result<
        Option<MerkleTreeNode>,
        OxenError,
    >)
        requires
            old(repo).wf(),
        ensures
            read_frame(old(repo), final(repo)),
            match r {
                Ok(opt) => load_post(
                    old(repo).dbs_map(),
                    old(repo).cache_map(),
                    commit.id.value,
                    opt_node_view(opt),
                    spec_load(old(repo).dbs_map(), commit.id.value, 1),
                ),
                Err(_) => false,
            },
    {
        CommitMerkleTree::read_depth(repo, &commit.id, 1)
    }

    /// The commit's root with its whole subtree, also collecting every
    /// non-leaf hash of the loaded tree.
    pub fn root_with_children_and_hashes(
        repo: &mut LocalRepository,
        commit: &Commit,
        hashes: &mut Vec<MerkleHash>,
    ) -> (r: Result<Option<MerkleTreeNode>, OxenError>)
        requires
            old(repo).wf(),
        ensures
            read_frame(old(repo), final(repo)),
            match r {
                Ok(opt) => load_post(
                    old(repo).dbs_map(),
                    old(repo).cache_map(),
                    commit.id.value,
                    opt_node_view(opt),
                    spec_load_rec(old(repo).dbs_map(), old(repo).rank@, commit.id.value),
                ) && match opt {
                    Some(n) => final(hashes)@ == old(hashes)@ + spec_preorder(n@).filter(
                        |x: NodeView| !x.header.is_leaf(),
                    ).map_values(|x: NodeView| x.hash),
                    None => final(hashes)@ == old(hashes)@,
                },
                Err(_) => false,
            },
    {
        let r = CommitMerkleTree::read_node(repo, &commit.id, true);
        match r {
            Ok(Some(n)) => {
                let all = n.walk_tree();
                let ghost allv = nodes_view(all@);
                let ghost pred = |x: NodeView| !x.header.is_leaf();
                let mut i: usize = 0;
                proof {
                    lemma_nodes_view(all@);
                    assert(allv.subrange(0, 0) =~= Seq::<NodeView>::empty());
                    assert(allv.subrange(0, 0).filter(pred).map_values(|x: NodeView| x.hash)
                        =~= Seq::<MerkleHash>::empty());
                    assert(hashes@ =~= old(hashes)@ + allv.subrange(0, 0).filter(pred).map_values(
                        |x: NodeView| x.hash,
                    ));
                }
                while i < all.len()
                    invariant
                        i <= all@.len(),
                        allv == nodes_view(all@),
                        allv.len() == all@.len(),
                        pred == (|x: NodeView| !x.header.is_leaf()),
                        hashes@ == old(hashes)@ + allv.subrange(0, i as int).filter(
                            pred,
                        ).map_values(|x: NodeView| x.hash),
                    decreases all@.len() - i,
                {
                    proof {
                        lemma_nodes_view(all@);
                        let sub = allv.subrange(0, (i + 1) as int);
                        assert(sub.drop_last() =~= allv.subrange(0, i as int));
                        assert(sub.last() == allv[i as int]);
                        sub.drop_last().lemma_filter_push(sub.last(), pred);
                        assert(sub =~= sub.drop_last().push(sub.last()));
                    }
                    if !all[i].node.is_leaf() {
                        hashes.push(all[i].hash);
                        proof {
                            assert(hashes@ =~= old(hashes)@ + allv.subrange(0, (i + 1) as int).filter(
                                pred,
                            ).map_values(|x: NodeView| x.hash));
                        }
                    } else {
                        proof {
                            assert(hashes@ =~= old(hashes)@ + allv.subrange(0, (i + 1) as int).filter(
                                pred,
                            ).map_values(|x: NodeView| x.hash));
                        }
                    }
                    i = i + 1;
                }
                proof {
                    assert(allv.subrange(0, allv.len() as int) =~= allv);
                }
                Ok(Some(n))
            },
            Ok(None) => Ok(None),
            Err(e) => Err(e),
        }
    }

    /// The dir-hashes index of a commit: relative directory path to
    /// DirNode hash, the empty path naming the repository root.
    ///
    /// Succeeds exactly when the commit has an index; `NotFound`
    /// otherwise.
    pub fn dir_hashes(repo: &LocalRepository, commit: &Commit) -> (r: Result<
        DirHashes,
        OxenError,
    >)
        requires
            repo.wf(),
        ensures
            match r {
                Ok(dh) => repo.dir_hashes_dbs.view_map().contains_key(commit.id.value)
                    && dh.view_map() == repo.dir_hashes_dbs.view_map()[commit.id.value],
                Err(e) => e.spec_kind() == OxenErrorKind::NotFound
                    && !repo.dir_hashes_dbs.view_map().contains_key(commit.id.value),
            },
    {
        match repo.dir_hashes_dbs.get(commit.id.to_u128()) {
            Some(db) => Ok(db.inner.clone_map()),
            None => Err(OxenError::NotFound(String::new())),
        }
    }

    /// Load a commit's whole tree together with its dir-hashes index.
    ///
    /// Succeeds exactly when the commit's node DB and its dir-hashes
    /// index are both stored; `NotFound` otherwise.
    pub fn from_commit(repo: &mut LocalRepository, commit: &Commit) -> (r: Result<
        CommitMerkleTree,
        OxenError,
    >)
        requires
            old(repo).wf(),
        ensures
            read_frame(old(repo), final(repo)),
            match r {
                Ok(t) => old(repo).dbs_map().contains_key(commit.id.value) && old(
                    repo,
                ).dir_hashes_dbs.view_map().contains_key(commit.id.value) && Some(t.root@)
                    == spec_load_rec(old(repo).dbs_map(), old(repo).rank@, commit.id.value)
                    && t.dir_hashes.view_map() == old(repo).dir_hashes_dbs.view_map()[
                    commit.id.value],
                Err(e) => e.spec_kind() == OxenErrorKind::NotFound && !(old(
                    repo,
                ).dbs_map().contains_key(commit.id.value) && old(
                    repo,
                ).dir_hashes_dbs.view_map().contains_key(commit.id.value)),
            },
    {
        let loaded = CommitMerkleTree::read_node(repo, &commit.id, true);
        let root = match loaded {
            Ok(Some(n)) => n,
            Ok(None) => {
                return Err(OxenError::NotFound(String::new()));
            },
            Err(_) => {
                return Err(OxenError::NotFound(String::new()));
            },
        };
        if !repo.dbs.contains(commit.id.to_u128()) {
            return Err(OxenError::NotFound(String::new()));
        }
        let dir_hashes = match CommitMerkleTree::dir_hashes(repo, commit) {
            Ok(dh) => dh,
            Err(e) => {
                return Err(e);
            },
        };
        Ok(CommitMerkleTree { root, dir_hashes })
    }

    /// Load the subtree at `path` of a commit, recursively.
    ///
    /// Succeeds exactly when the commit has an index and the path names
    /// one of its directories or resolves to a file; the result is then
    /// the full recursive load of that node.
    pub fn from_path_recursive(repo: &mut LocalRepository, commit: &Commit, path: &str) -> (r:
        Result<CommitMerkleTree, OxenError>)
        requires
            old(repo).wf(),
        ensures
            read_frame(old(repo), final(repo)),
            match r {
                Ok(t) => ({
                    &&& old(repo).dir_hashes_dbs.view_map().contains_key(commit.id.value)
                    &&& ({
                        let dhm = old(repo).dir_hashes_dbs.view_map()[commit.id.value];
                        let np = normal_path(path@);
                        &&& t.dir_hashes.view_map() == dhm
                        &&& if dhm.contains_key(np) {
                            Some(t.root@) == spec_load_rec(
                                old(repo).dbs_map(),
                                old(repo).rank@,
                                dhm[np].value,
                            )
                        } else {
                            exists|segs: Seq<Seq<char>>|
                                split_to(np, segs) && Some(t.root@) == spec_read_file(
                                    old(repo).dbs_map(),
                                    dhm,
                                    segs,
                                )
                        }
                    })
                }),
                Err(e) => e.spec_kind() == OxenErrorKind::InvalidArgument || e.spec_kind()
                    == OxenErrorKind::NotFound,
            },
    {
        CommitMerkleTree::from_path(repo, commit, path, true)
    }

    /// Load the directory at `path` of a commit with `depth` levels of
    /// non-VNode descendants, skipping straight to its node through the
    /// dir-hashes index.
    ///
    /// Succeeds exactly when the commit has an index and the path is one
    /// of its directories; the result is then the depth-limited load of
    /// that directory. Anything else is `NotFound`.
    pub fn from_path_depth(repo: &mut LocalRepository, commit: &Commit, path: &str, depth: i32) -> (
        r: Result<Option<MerkleTreeNode>, OxenError>)
        requires
            old(repo).wf(),
            depth >= 0,
        ensures
            read_frame(old(repo), final(repo)),
            match r {
                Ok(opt) => ({
                    &&& old(repo).dir_hashes_dbs.view_map().contains_key(commit.id.value)
                    &&& ({
                        let dhm = old(repo).dir_hashes_dbs.view_map()[commit.id.value];
                        dhm.contains_key(normal_path(path@)) && opt_node_view(opt) == spec_load(
                            old(repo).dbs_map(),
                            dhm[normal_path(path@)].value,
                            depth as int,
                        )
                    })
                }),
                Err(e) => e.spec_kind() == OxenErrorKind::NotFound && !(old(
                    repo,
                ).dir_hashes_dbs.view_map().contains_key(commit.id.value) && old(
                    repo,
                ).dir_hashes_dbs.view_map()[commit.id.value].contains_key(normal_path(path@))),
            },
    {
        let node_path = normalize_path(path);
        let dir_hashes = match CommitMerkleTree::dir_hashes(repo, commit) {
            Ok(dh) => dh,
            Err(e) => {
                return Err(e);
            },
        };
        let node_hash = match dir_hashes.get(node_path.as_str()) {
            Some(h) => h,
            None => {
                return Err(OxenError::NotFound(String::new()));
            },
        };
        proof {
            let dhm = old(repo).dir_hashes_dbs.view_map()[commit.id.value];
            assert(crate::repo::dhs_ok(dhm, old(repo).dbs_map()));
            assert(old(repo).dbs_map().contains_key(node_hash.value));
        }
        CommitMerkleTree::read_depth(repo, &node_hash, depth)
    }

    /// Load the subtree at `path` of a commit: a directory through the
    /// dir-hashes index (recursively or bare), or a single file through
    /// its parent directory's VNode bucket.
    ///
    /// Succeeds exactly when the commit has an index and the path names
    /// one of its directories or resolves to a file; malformed paths are
    /// `InvalidArgument`, the rest `NotFound`.
    pub fn from_path(
        repo: &mut LocalRepository,
        commit: &Commit,
        path: &str,
        load_recursive: bool,
    ) -> (r: Result<CommitMerkleTree, OxenError>)
        requires
            old(repo).wf(),
        ensures
            read_frame(old(repo), final(repo)),
            match r {
                Ok(t) => ({
                    &&& old(repo).dir_hashes_dbs.view_map().contains_key(commit.id.value)
                    &&& ({
                        let dhm = old(repo).dir_hashes_dbs.view_map()[commit.id.value];
                        let np = normal_path(path@);
                        &&& t.dir_hashes.view_map() == dhm
                        &&& if dhm.contains_key(np) {
                            let h = dhm[np].value;
                            if load_recursive {
                                Some(t.root@) == spec_load_rec(
                                    old(repo).dbs_map(),
                                    old(repo).rank@,
                                    h,
                                )
                            } else {
                                t.root@ == bare_view(
                                    MerkleHash { value: h },
                                    old(repo).dbs_map()[h].payload,
                                    old(repo).dbs_map()[h].parent,
                                )
                            }
                        } else {
                            exists|segs: Seq<Seq<char>>|
                                split_to(np, segs) && Some(t.root@) == spec_read_file(
                                    old(repo).dbs_map(),
                                    dhm,
                                    segs,
                                )
                        }
                    })
                }),
                Err(e) => (e.spec_kind() == OxenErrorKind::InvalidArgument && ({
                    let np = normal_path(path@);
                    !crate::paths::is_root_path(np) && !crate::paths::valid_path_chars(np)
                })) || (e.spec_kind() == OxenErrorKind::NotFound && (!old(
                    repo,
                ).dir_hashes_dbs.view_map().contains_key(commit.id.value) || ({
                    let dhm = old(repo).dir_hashes_dbs.view_map()[commit.id.value];
                    let np = normal_path(path@);
                    !dhm.contains_key(np) && exists|segs: Seq<Seq<char>>|
                        split_to(np, segs) && spec_read_file(old(repo).dbs_map(), dhm, segs)
                            is None
                }))),
            },
    {
        let node_path = normalize_path(path);
        let dir_hashes = match CommitMerkleTree::dir_hashes(repo, commit) {
            Ok(dh) => dh,
            Err(e) => {
                return Err(e);
            },
        };
        let root_opt = match dir_hashes.get(node_path.as_str()) {
            Some(h) => {
                proof {
                    let dhm = old(repo).dir_hashes_dbs.view_map()[commit.id.value];
                    assert(crate::repo::dhs_ok(dhm, old(repo).dbs_map()));
                    assert(old(repo).dbs_map().contains_key(h.value));
                }
                match CommitMerkleTree::read_node(repo, &h, load_recursive) {
                    Ok(o) => o,
                    Err(e) => {
                        return Err(e);
                    },
                }
            },
            None => {
                match CommitMerkleTree::read_file(repo, &dir_hashes, node_path.as_str()) {
                    Ok(o) => o,
                    Err(e) => {
                        return Err(e);
                    },
                }
            },
        };
        match root_opt {
            Some(root) => Ok(CommitMerkleTree { root, dir_hashes }),
            None => Err(OxenError::NotFound(String::new())),
        }
    }

    /// The directory node at `path`, bare: no children loaded.
    ///
    /// `Ok(Some)` exactly when the path is a directory of the commit;
    /// `Ok(None)` when it is not; `NotFound` when the commit has no
    /// index.
    pub fn dir_without_children(repo: &mut LocalRepository, commit: &Commit, path: &str) -> (r:
        Result<Option<MerkleTreeNode>, OxenError>)
        requires
            old(repo).wf(),
        ensures
            read_frame(old(repo), final(repo)),
            match r {
                Ok(opt) => ({
                    &&& old(repo).dir_hashes_dbs.view_map().contains_key(commit.id.value)
                    &&& ({
                        let dhm = old(repo).dir_hashes_dbs.view_map()[commit.id.value];
                        let np = normal_path(path@);
                        if dhm.contains_key(np) {
                            opt_node_view(opt) == Some(
                                bare_view(
                                    dhm[np],
                                    old(repo).dbs_map()[dhm[np].value].payload,
                                    old(repo).dbs_map()[dhm[np].value].parent,
                                ),
                            )
                        } else {
                            opt is None
                        }
                    })
                }),
                Err(e) => e.spec_kind() == OxenErrorKind::NotFound && !old(
                    repo,
                ).dir_hashes_dbs.view_map().contains_key(commit.id.value),
            },
    {
        let node_path = normalize_path(path);
        let dir_hashes = match CommitMerkleTree::dir_hashes(repo, commit) {
            Ok(dh) => dh,
            Err(e) => {
                return Err(e);
            },
        };
        match dir_hashes.get(node_path.as_str()) {
            Some(h) => {
                proof {
                    let dhm = old(repo).dir_hashes_dbs.view_map()[commit.id.value];
                    assert(crate::repo::dhs_ok(dhm, old(repo).dbs_map()));
                    assert(old(repo).dbs_map().contains_key(h.value));
                }
                CommitMerkleTree::read_node(repo, &h, false)
            },
            None => Ok(None),
        }
    }

    /// The directory node at `path` with its entries one level deep.
    ///
    /// `Ok(Some)` exactly when the path is a directory of the commit:
    /// the depth-1 load of its node. `Ok(None)` when it is not;
    /// `NotFound` when the commit has no index.
    pub fn dir_with_children(repo: &mut LocalRepository, commit: &Commit, path: &str) -> (r: Result<
        Option<MerkleTreeNode>,
        OxenError,
    >)
        requires
            old(repo).wf(),
        ensures
            read_frame(old(repo), final(repo)),
            match r {
                Ok(opt) => ({
                    &&& old(repo).dir_hashes_dbs.view_map().contains_key(commit.id.value)
                    &&& ({
                        let dhm = old(repo).dir_hashes_dbs.view_map()[commit.id.value];
                        let np = normal_path(path@);
                        if dhm.contains_key(np) {
                            opt_node_view(opt) == spec_load(old(repo).dbs_map(), dhm[np].value, 1)
                        } else {
                            opt is None
                        }
                    })
                }),
                Err(e) => e.spec_kind() == OxenErrorKind::NotFound && !old(
                    repo,
                ).dir_hashes_dbs.view_map().contains_key(commit.id.value),
            },
    {
        let node_path = normalize_path(path);
        let dir_hashes = match CommitMerkleTree::dir_hashes(repo, commit) {
            Ok(dh) => dh,
            Err(e) => {
                return Err(e);
            },
        };
        match dir_hashes.get(node_path.as_str()) {
            Some(h) => {
                proof {
                    let dhm = old(repo).dir_hashes_dbs.view_map()[commit.id.value];
                    assert(crate::repo::dhs_ok(dhm, old(repo).dbs_map()));
                    assert(old(repo).dbs_map().contains_key(h.value));
                }
                CommitMerkleTree::read_depth(repo, &h, 1)
            },
            None => Ok(None),
        }
    }

    /// The directory node at `path` with its whole subtree.
    ///
    /// `Ok(Some)` exactly when the path is a directory of the commit:
    /// the full recursive load of its node. `Ok(None)` when it is not;
    /// `NotFound` when the commit has no index.
    pub fn dir_with_children_recursive(repo: &mut LocalRepository, commit: &Commit, path: &str) -> (
        r: Result<Option<MerkleTreeNode>, OxenError>)
        requires
            old(repo).wf(),
        ensures
            read_frame(old(repo), final(repo)),
            match r {
                Ok(opt) => ({
                    &&& old(repo).dir_hashes_dbs.view_map().contains_key(commit.id.value)
                    &&& ({
                        let dhm = old(repo).dir_hashes_dbs.view_map()[commit.id.value];
                        let np = normal_path(path@);
                        if dhm.contains_key(np) {
                            opt_node_view(opt) == spec_load_rec(
                                old(repo).dbs_map(),
                                old(repo).rank@,
                                dhm[np].value,
                            )
                        } else {
                            opt is None
                        }
                    })
                }),
                Err(e) => e.spec_kind() == OxenErrorKind::NotFound && !old(
                    repo,
                ).dir_hashes_dbs.view_map().contains_key(commit.id.value),
            },
    {
        let node_path = normalize_path(path);
        let dir_hashes = match CommitMerkleTree::dir_hashes(repo, commit) {
            Ok(dh) => dh,
            Err(e) => {
                return Err(e);
            },
        };
        match dir_hashes.get(node_path.as_str()) {
            Some(h) => {
                proof {
                    let dhm = old(repo).dir_hashes_dbs.view_map()[commit.id.value];
                    assert(crate::repo::dhs_ok(dhm, old(repo).dbs_map()));
                    assert(old(repo).dbs_map().contains_key(h.value));
                }
                CommitMerkleTree::read_node(repo, &h, true)
            },
            None => Ok(None),
        }
    }

    /// Load the directories at several paths, each one level deep.
    ///
    /// Every returned pair is a directory of the commit with its depth-1
    /// load; every requested path that is a directory of the commit is
    /// answered. `NotFound` only when the commit has no index.
    #[verifier::rlimit(100)]
    #[verifier::spinoff_prover]
    pub fn read_nodes(repo: &mut LocalRepository, commit: &Commit, paths: &Vec<String>) -> (r:
        Result<Vec<(String, MerkleTreeNode)>, OxenError>)
        requires
            old(repo).wf(),
        ensures
            read_frame(old(repo), final(repo)),
            match r {
                Ok(out) => ({
                    &&& old(repo).dir_hashes_dbs.view_map().contains_key(commit.id.value)
                    &&& ({
                        let dhm = old(repo).dir_hashes_dbs.view_map()[commit.id.value];
                        &&& forall|i: int|
                            0 <= i < out@.len() ==> dhm.contains_key((#[trigger] out@[i]).0@)
                                && Some(out@[i].1@) == spec_load(
                                old(repo).dbs_map(),
                                dhm[out@[i].0@].value,
                                1,
                            )
                        &&& forall|j: int|
                            0 <= j < paths@.len() && dhm.contains_key((#[trigger] paths@[j])@)
                                ==> exists|i: int|
                                0 <= i < out@.len() && (#[trigger] out@[i]).0@ == paths@[j]@
                        &&& forall|i: int|
                            0 <= i < out@.len() ==> path_listed((#[trigger] out@[i]).0@, paths@)
                    })
                }),
                Err(e) => e.spec_kind() == OxenErrorKind::NotFound && !old(
                    repo,
                ).dir_hashes_dbs.view_map().contains_key(commit.id.value),
            },
    {
        let dir_hashes = match CommitMerkleTree::dir_hashes(repo, commit) {
            Ok(dh) => dh,
            Err(e) => {
                return Err(e);
            },
        };
        let ghost dhm = old(repo).dir_hashes_dbs.view_map()[commit.id.value];
        let mut out: Vec<(String, MerkleTreeNode)> = Vec::new();
        let mut i: usize = 0;
        while i < paths.len()
            invariant
                old(repo).wf(),
                read_frame(old(repo), repo),
                dhm == old(repo).dir_hashes_dbs.view_map()[commit.id.value],
                old(repo).dir_hashes_dbs.view_map().contains_key(commit.id.value),
                dir_hashes.view_map() == dhm,
                i <= paths@.len(),
                forall|k: int|
                    0 <= k < out@.len() ==> dhm.contains_key((#[trigger] out@[k]).0@) && Some(
                        out@[k].1@,
                    ) == spec_load(old(repo).dbs_map(), dhm[out@[k].0@].value, 1),
                forall|j: int|
                    0 <= j < i && dhm.contains_key((#[trigger] paths@[j])@) ==> exists|k: int|
                        0 <= k < out@.len() && (#[trigger] out@[k]).0@ == paths@[j]@,
                forall|k: int|
                    0 <= k < out@.len() ==> path_listed((#[trigger] out@[k]).0@, paths@),
            decreases paths@.len() - i,
        {
            match dir_hashes.get(paths[i].as_str()) {
                Some(h) => {
                    proof {
                        assert(crate::repo::dhs_ok(dhm, old(repo).dbs_map()));
                        assert(old(repo).dbs_map().contains_key(h.value));
                    }
                    match CommitMerkleTree::read_depth(repo, &h, 1) {
                        Ok(Some(n)) => {
                            let ghost pre = out@;
                            out.push((paths[i].clone(), n));
                            proof {
                                assert(out@.drop_last() =~= pre);
                                assert(out@[out@.len() - 1].0@ == paths@[i as int]@);
                                assert forall|k: int| 0 <= k < out@.len() implies path_listed(
                                    (#[trigger] out@[k]).0@,
                                    paths@,
                                ) by {
                                    if k < pre.len() {
                                        assert(out@[k] == pre[k]);
                                        assert(path_listed(pre[k].0@, paths@));
                                    } else {
                                        assert(out@[k].0@ == (paths@[i as int])@);
                                    }
                                }
                                assert forall|j: int|
                                    0 <= j < i + 1 && dhm.contains_key(
                                        (#[trigger] paths@[j])@,
                                    ) implies exists|k: int|
                                    0 <= k < out@.len() && (#[trigger] out@[k]).0@ == paths@[j]@ by {
                                    if j < i {
                                        let k = choose|k: int|
                                            0 <= k < pre.len() && (#[trigger] pre[k]).0@
                                                == paths@[j]@;
                                        assert(out@[k].0@ == paths@[j]@);
                                    } else {
                                        assert(out@[out@.len() - 1].0@ == paths@[j]@);
                                    }
                                }
                            }
                        },
                        Ok(None) => {
                            proof {
                                assert(false);
                            }
                        },
                        Err(e) => {
                            proof {
                                assert(false);
                            }
                            return Err(e);
                        },
                    }
                },
                None => {},
            }
            i = i + 1;
        }
        Ok(out)
    }

    /// Whether the tree has a directory at this path.
    pub fn has_dir(&self, path: &str) -> (r: bool)
        ensures
            r == self.dir_hashes.view_map().contains_key(path@),
    {
        self.dir_hashes.contains_key(path)
    }

    /// Whether any entry resolves at this path in the loaded tree.
    /// Errs exactly on malformed paths.
    pub fn has_path(&self, path: &str) -> (r: Result<bool, OxenError>)
        ensures
            match r {
                Ok(b) => exists|segs: Seq<Seq<char>>|
                    split_to(path@, segs) && b == spec_get_by_segments(self.root@, segs) is Some,
                Err(e) => e.spec_kind() == OxenErrorKind::InvalidArgument
                    && !crate::paths::is_root_path(path@) && !crate::paths::valid_path_chars(
                    path@,
                ),
            },
    {
        match self.root.get_by_path(path) {
            Ok(opt) => Ok(opt.is_some()),
            Err(e) => Err(e),
        }
    }

    /// The subtree at `path` of the loaded tree, if the path resolves.
    /// Errs exactly on malformed paths.
    pub fn get_by_path(&self, path: &str) -> (r: Result<Option<MerkleTreeNode>, OxenError>)
        ensures
            match r {
                Ok(opt) => exists|segs: Seq<Seq<char>>|
                    split_to(path@, segs) && opt_node_view(opt) == spec_get_by_segments(
                        self.root@,
                        segs,
                    ),
                Err(e) => e.spec_kind() == OxenErrorKind::InvalidArgument
                    && !crate::paths::is_root_path(path@) && !crate::paths::valid_path_chars(
                    path@,
                ),
            },
    {
        self.root.get_by_path(path)
    }

    /// The VNode buckets of the directory at `path`.
    pub fn get_vnodes_for_dir(&self, path: &str) -> (r: Result<Vec<MerkleTreeNode>, OxenError>)
        ensures
            match r {
                Ok(vns) => exists|segs: Seq<Seq<char>>|
                    split_to(path@, segs) && match spec_get_by_segments(self.root@, segs) {
                        Some(d) => nodes_view(vns@) == d.children,
                        None => vns@.len() == 0,
                    },
                Err(e) => e.spec_kind() == OxenErrorKind::InvalidArgument
                    && !crate::paths::is_root_path(path@) && !crate::paths::valid_path_chars(
                    path@,
                ),
            },
    {
        match self.root.get_by_path(path) {
            Ok(Some(d)) => {
                let mut out: Vec<MerkleTreeNode> = Vec::new();
                let mut i: usize = 0;
                proof {
                    lemma_nodes_view(d.children@);
                    assert(nodes_view(out@) =~= d@.children.subrange(0, 0));
                }
                while i < d.children.len()
                    invariant
                        i <= d.children@.len(),
                        d@.children.len() == d.children@.len(),
                        nodes_view(out@) == d@.children.subrange(0, i as int),
                    decreases d.children@.len() - i,
                {
                    proof {
                        lemma_nodes_view(d.children@);
                    }
                    let ghost pre_vec = out@;
                    let ghost pre = nodes_view(out@);
                    let c = d.children[i].clone();
                    out.push(c);
                    proof {
                        assert(out@.drop_last() =~= pre_vec);
                        assert(nodes_view(out@) =~= pre.push(out@.last()@));
                        assert(out@.last()@ == d@.children[i as int]);
                        assert(nodes_view(out@) =~= d@.children.subrange(0, (i + 1) as int));
                    }
                    i = i + 1;
                }
                proof {
                    assert(d@.children.subrange(0, d@.children.len() as int) =~= d@.children);
                }
                Ok(out)
            },
            Ok(None) => Ok(Vec::new()),
            Err(e) => Err(e),
        }
    }

    /// Every directory path of the tree, from its dir-hashes index.
    pub fn list_dir_paths(&self) -> (r: Result<Vec<String>, OxenError>)
        ensures
            match r {
                Ok(ps) => ps@.len() == self.dir_hashes.spec_len() && forall|i: int|
                    0 <= i < ps@.len() ==> (#[trigger] ps@[i])@ == self.dir_hashes.key_at(i)
                        && self.dir_hashes.view_map().contains_key(ps@[i]@),
                Err(_) => false,
            },
    {
        Ok(self.dir_hashes.keys())
    }

    /// The entries (files and folders) of the directory at `path`.
    pub fn files_and_folders(&self, path: &str) -> (r: Result<Vec<MerkleTreeNode>, OxenError>)
        ensures
            match r {
                Ok(es) => exists|segs: Seq<Seq<char>>|
                    split_to(path@, segs) && match spec_get_by_segments(self.root@, segs) {
                        Some(d) => nodes_view(es@) == node_entries(d),
                        None => false,
                    },
                Err(e) => (e.spec_kind() == OxenErrorKind::InvalidArgument
                    && !crate::paths::is_root_path(path@) && !crate::paths::valid_path_chars(
                    path@,
                )) || (e.spec_kind() == OxenErrorKind::NotFound && exists|segs: Seq<Seq<char>>|
                    split_to(path@, segs) && spec_get_by_segments(self.root@, segs) is None),
            },
    {
        match self.root.get_by_path(path) {
            Ok(Some(d)) => {
                let es = CommitMerkleTree::node_files_and_folders_any(&d);
                Ok(es)
            },
            Ok(None) => Err(OxenError::NotFound(String::new())),
            Err(e) => Err(e),
        }
    }

    /// The entries behind a directory node's VNode buckets.
    pub fn node_files_and_folders(node: &MerkleTreeNode) -> (r: Result<
        Vec<MerkleTreeNode>,
        OxenError,
    >)
        ensures
            match r {
                Ok(es) => node@.header is Directory && nodes_view(es@) == node_entries(node@),
                Err(e) => !(node@.header is Directory) && e.spec_kind()
                    == OxenErrorKind::InvalidArgument,
            },
    {
        if !matches!(node.node, EMerkleTreeNode::Directory(_)) {
            return Err(OxenError::InvalidArgument(String::new()));
        }
        Ok(CommitMerkleTree::node_files_and_folders_any(node))
    }

    /// The entries of any loaded node, cloned out of its buckets.
    fn node_files_and_folders_any(node: &MerkleTreeNode) -> (r: Vec<MerkleTreeNode>)
        ensures
            nodes_view(r@) == node_entries(node@),
    {
        let refs = crate::tree_node::collect_entries(node);
        let mut out: Vec<MerkleTreeNode> = Vec::new();
        let mut i: usize = 0;
        proof {
            assert(nodes_view(out@) =~= nodes_ref_view(refs@).subrange(0, 0));
        }
        while i < refs.len()
            invariant
                i <= refs@.len(),
                nodes_ref_view(refs@) == node_entries(node@),
                nodes_ref_view(refs@).len() == refs@.len(),
                nodes_view(out@) == nodes_ref_view(refs@).subrange(0, i as int),
            decreases refs@.len() - i,
        {
            let ghost pre_vec = out@;
            let ghost pre = nodes_view(out@);
            let c = refs[i].clone();
            out.push(c);
            proof {
                assert(out@.drop_last() =~= pre_vec);
                assert(nodes_view(out@) =~= pre.push(out@.last()@));
                assert(out@.last()@ == nodes_ref_view(refs@)[i as int]);
                assert(nodes_view(out@) =~= nodes_ref_view(refs@).subrange(0, (i + 1) as int));
            }
            i = i + 1;
        }
        proof {
            assert(nodes_ref_view(refs@).subrange(0, refs@.len() as int) =~= nodes_ref_view(refs@));
        }
        out
    }

    /// How many VNodes the loaded tree holds.
    pub fn total_vnodes(&self) -> (n: usize)
        ensures
            n == crate::tree_node::spec_total_vnodes(self.root@),
    {
        self.root.total_vnodes()
    }

    /// Every node of the loaded tree, in depth-first order.
    pub fn walk_tree(&self) -> (r: Vec<MerkleTreeNode>)
        ensures
            nodes_view(r@) == spec_preorder(self.root@),
    {
        self.root.walk_tree()
    }

    /// Every non-leaf node of the loaded tree, in depth-first order.
    pub fn walk_tree_without_leaves(&self) -> (r: Vec<MerkleTreeNode>)
        ensures
            nodes_view(r@) == spec_preorder(self.root@).filter(
                |x: NodeView| !x.header.is_leaf(),
            ),
    {
        let all = self.root.walk_tree();
        let ghost allv = nodes_view(all@);
        let ghost pred = |x: NodeView| !x.header.is_leaf();
        let mut out: Vec<MerkleTreeNode> = Vec::new();
        let mut i: usize = 0;
        proof {
            lemma_nodes_view(all@);
            assert(allv.subrange(0, 0) =~= Seq::<NodeView>::empty());
            assert(allv.subrange(0, 0).filter(pred) =~= Seq::<NodeView>::empty());
            assert(nodes_view(out@) =~= allv.subrange(0, 0).filter(pred));
        }
        while i < all.len()
            invariant
                i <= all@.len(),
                allv == nodes_view(all@),
                allv.len() == all@.len(),
                pred == (|x: NodeView| !x.header.is_leaf()),
                nodes_view(out@) == allv.subrange(0, i as int).filter(pred),
            decreases all@.len() - i,
        {
            proof {
                lemma_nodes_view(all@);
                let sub = allv.subrange(0, (i + 1) as int);
                assert(sub.drop_last() =~= allv.subrange(0, i as int));
                assert(sub.last() == allv[i as int]);
                sub.drop_last().lemma_filter_push(sub.last(), pred);
                assert(sub =~= sub.drop_last().push(sub.last()));
            }
            if !all[i].node.is_leaf() {
                let ghost pre_vec = out@;
                let ghost pre = nodes_view(out@);
                let c = all[i].clone();
                out.push(c);
                proof {
                    assert(out@.drop_last() =~= pre_vec);
                    assert(nodes_view(out@) =~= pre.push(out@.last()@));
                    assert(out@.last()@ == allv[i as int]);
                }
            }
            proof {
                assert(nodes_view(out@) =~= allv.subrange(0, (i + 1) as int).filter(pred));
            }
            i = i + 1;
        }
        proof {
            assert(allv.subrange(0, allv.len() as int) =~= allv);
        }
        out
    }
}

/// What looking a file up through the dir-hashes index returns: resolve
/// the parent directory's node, pick the VNode bucket the full path
/// hashes into, and scan that bucket for the file's name.
pub open spec fn spec_read_file(
    dbs: Map<u128, DbView>,
    dhm: Map<Seq<char>, MerkleHash>,
    segs: Seq<Seq<char>>,
) -> Option<NodeView> {
    if segs.len() == 0 {
        None
    } else {
        let parent_path = crate::paths::spec_join(segs.drop_last());
        let fname = segs.last();
        if !dhm.contains_key(parent_path) {
            None
        } else {
            match spec_load(dbs, dhm[parent_path].value, 0) {
                None => None,
                Some(dirn) => {
                    if !(dirn.header is Directory) || dirn.children.len() == 0 {
                        None
                    } else {
                        let nv = dirn.children.len();
                        let b = (fnv128_of(
                            vstd::utf8::encode_utf8(crate::paths::spec_join(segs)),
                        ) as nat) % nv;
                        match spec_load(dbs, dirn.children[b as int].hash.value, 1) {
                            None => None,
                            Some(vn) => spec_find_name(vn.children, fname),
                        }
                    }
                },
            }
        }
    }
}

impl CommitMerkleTree {
    /// Look a single file up through the dir-hashes index: skip to its
    /// parent directory, then into the one VNode bucket its path hashes
    /// into.
    pub fn read_file(repo: &mut LocalRepository, dir_hashes: &DirHashes, path: &str) -> (r: Result<
        Option<MerkleTreeNode>,
        OxenError,
    >)
        requires
            old(repo).wf(),
        ensures
            read_frame(old(repo), final(repo)),
            match r {
                Ok(opt) => exists|segs: Seq<Seq<char>>|
                    split_to(path@, segs) && opt_node_view(opt) == spec_read_file(
                        old(repo).dbs_map(),
                        dir_hashes.view_map(),
                        segs,
                    ),
                Err(e) => e.spec_kind() == OxenErrorKind::InvalidArgument
                    && !crate::paths::is_root_path(path@) && !crate::paths::valid_path_chars(
                    path@,
                ),
            },
    {
        let segs = match crate::paths::split_path(path) {
            Ok(s) => s,
            Err(e) => {
                return Err(e);
            },
        };
        let ghost segsv = segs.deep_view();
        if segs.len() == 0 {
            proof {
                assert(split_to(path@, segsv));
            }
            return Ok(None);
        }
        // the parent directory's path and the file's name
        let mut parent_parts: Vec<String> = Vec::new();
        let mut i: usize = 0;
        while i < segs.len() - 1
            invariant
                segs@.len() >= 1,
                i <= segs@.len() - 1,
                parent_parts.deep_view() == segs.deep_view().subrange(0, i as int),
            decreases segs@.len() - 1 - i,
        {
            let ghost pre = parent_parts.deep_view();
            parent_parts.push(segs[i].clone());
            proof {
                assert(parent_parts.deep_view() =~= pre.push(segs.deep_view()[i as int]));
                assert(parent_parts.deep_view() =~= segs.deep_view().subrange(0, (i + 1) as int));
            }
            i = i + 1;
        }
        proof {
            assert(segs.deep_view().subrange(0, segs.deep_view().len() - 1)
                =~= segs.deep_view().drop_last());
        }
        let parent_path = join_segments(&parent_parts);
        let fname = &segs[segs.len() - 1];
        proof {
            assert(fname@ == segsv.last());
        }
        let parent_hash = match dir_hashes.get(parent_path.as_str()) {
            Some(h) => h,
            None => {
                proof {
                    assert(split_to(path@, segsv));
                }
                return Ok(None);
            },
        };
        let dir_loaded = match CommitMerkleTree::read_depth(repo, &parent_hash, 0) {
            Ok(o) => o,
            Err(_) => {
                proof {
                    assert(false);
                }
                return Ok(None);
            },
        };
        let ghost dbs0 = old(repo).dbs_map();
        let dirn = match dir_loaded {
            Some(d) => d,
            None => {
                proof {
                    assert(split_to(path@, segsv));
                }
                return Ok(None);
            },
        };
        proof {
            if !dbs0.contains_key(parent_hash.value) {
                // a cached leaf cannot be a directory with buckets: it
                // is served bare, and the scan below finds nothing
            }
        }
        if !matches!(dirn.node, EMerkleTreeNode::Directory(_)) || dirn.children.len() == 0 {
            proof {
                assert(split_to(path@, segsv));
                if dbs0.contains_key(parent_hash.value) {
                    assert(opt_node_view(None::<MerkleTreeNode>) == spec_read_file(
                        dbs0,
                        dir_hashes.view_map(),
                        segsv,
                    ));
                } else {
                    assert(dirn@.children.len() == 0);
                }
            }
            return Ok(None);
        }
        proof {
            // a bare-served cached leaf has no children, so the
            // directory was loaded from its DB
            assert(dbs0.contains_key(parent_hash.value));
        }
        let full_path = join_segments(&segs);
        let hv = crate::hash::hash_buffer_128bit(full_path.as_str().as_bytes());
        let nv = dirn.children.len();
        let b = (hv % (nv as u128)) as usize;
        proof {
            assert((hv % (nv as u128)) < (nv as u128));
            lemma_nodes_view(dirn.children@);
            assert(dirn@.children[b as int] == dirn.children@[b as int]@);
        }
        let vnode_hash = dirn.children[b].hash;
        let vn_loaded = match CommitMerkleTree::read_depth(repo, &vnode_hash, 1) {
            Ok(o) => o,
            Err(_) => {
                proof {
                    assert(false);
                }
                return Ok(None);
            },
        };
        proof {
            // a directory's bucket header always has a DB: the builder
            // writes every VNode before its directory
            assert(crate::repo::db_ok(dbs0, old(repo).rank@, old(repo).vnode_size, parent_hash.value));
            crate::tree::lemma_load_dir_entries(
                dbs0,
                old(repo).rank@,
                old(repo).vnode_size,
                parent_hash.value,
            );
            assert(Some(dirn@) == spec_load(dbs0, parent_hash.value, 0));
            let c = dbs0[parent_hash.value].children[b as int];
            assert(dirn@.children[b as int].hash == c.hash_val() && dirn@.children[b as int].header
                == c);
            assert(c is VNode);
            assert(!c.is_leaf());
            assert(dbs0.contains_key(c.id()));
            assert(vnode_hash.value == c.id());
        }
        let vn = match vn_loaded {
            Some(v) => v,
            None => {
                proof {
                    assert(false);
                }
                return Ok(None);
            },
        };
        let found = find_child_by_name(&vn, fname.as_str());
        proof {
            assert(split_to(path@, segsv));
        }
        Ok(found)
    }
}

/// Join segments with `/`; no segments yield the root path.
fn join_segments(parts: &Vec<String>) -> (r: String)
    ensures
        r@ == crate::paths::spec_join(parts.deep_view()),
{
    if parts.len() == 0 {
        proof {
            reveal_strlit("");
            assert(""@ =~= Seq::<char>::empty());
        }
        return "".to_owned();
    }
    let mut r = parts[0].clone();
    let mut i: usize = 1;
    proof {
        assert(parts.deep_view().subrange(0, 1) =~= seq![parts.deep_view()[0]]);
        assert(crate::paths::spec_join(seq![parts.deep_view()[0]]) == parts.deep_view()[0]);
        assert(r@ == parts.deep_view()[0]);
    }
    while i < parts.len()
        invariant
            1 <= i <= parts@.len(),
            parts@.len() >= 1,
            r@ == crate::paths::spec_join(parts.deep_view().subrange(0, i as int)),
        decreases parts@.len() - i,
    {
        let sep = crate::text::str_concat(r.as_str(), "/");
        let r2 = crate::text::str_concat(sep.as_str(), parts[i].as_str());
        proof {
            reveal_strlit("/");
            assert("/"@ =~= seq!['/']);
            let sub = parts.deep_view().subrange(0, (i + 1) as int);
            assert(sub.drop_last() =~= parts.deep_view().subrange(0, i as int));
            assert(sub.last() == parts.deep_view()[i as int]);
            assert(sub.len() >= 2);
            assert(r2@ =~= crate::paths::spec_join(sub));
        }
        r = r2;
        i = i + 1;
    }
    proof {
        assert(parts.deep_view().subrange(0, parts.deep_view().len() as int)
            =~= parts.deep_view());
    }
    r
}

/// The first child of a loaded node carrying `name`, cloned out.
fn find_child_by_name(n: &MerkleTreeNode, name: &str) -> (r: Option<MerkleTreeNode>)
    ensures
        opt_node_view(r) == spec_find_name(n@.children, name@),
{
    let ghost cs = n@.children;
    let mut i: usize = 0;
    proof {
        lemma_nodes_view(n.children@);
        assert(cs.subrange(0, cs.len() as int) =~= cs);
    }
    while i < n.children.len()
        invariant
            i <= n.children@.len(),
            cs == n@.children,
            cs.len() == n.children@.len(),
            spec_find_name(cs, name@) == spec_find_name(
                cs.subrange(i as int, cs.len() as int),
                name@,
            ),
        decreases n.children@.len() - i,
    {
        proof {
            lemma_nodes_view(n.children@);
            let suf = cs.subrange(i as int, cs.len() as int);
            assert(suf[0] == cs[i as int]);
            assert(cs[i as int] == n.children@[i as int]@);
            assert(suf.drop_first() =~= cs.subrange(i + 1, cs.len() as int));
        }
        if crate::text::str_eq(n.children[i].node.name_str(), name) {
            let c = n.children[i].clone();
            return Some(c);
        }
        i = i + 1;
    }
    proof {
        assert(cs.subrange(cs.len() as int, cs.len() as int).len() == 0);
    }
    None
}

/// The file payload of a header; headers of other kinds yield an empty
/// record.
pub open spec fn file_view_of(h: HeaderView) -> FileNodeView {
    match h {
        HeaderView::File(f) => f,
        _ => FileNodeView {
            hash: MerkleHash { value: 0 },
            name: Seq::empty(),
            size: 0,
            mime: Seq::empty(),
            last_modified_s: 0,
            last_modified_ns: 0,
            chunk_hashes: None,
            metadata: None,
        },
    }
}

/// The views of a vector of file payloads.
pub open spec fn files_view(s: Seq<FileNode>) -> Seq<FileNodeView> {
    Seq::new(s.len(), |i: int| s[i]@)
}

/// The file payloads of a subtree, in depth-first order.
pub open spec fn spec_file_nodes(n: NodeView) -> Seq<FileNodeView> {
    spec_preorder(n).filter(|x: NodeView| x.header is File).map_values(
        |x: NodeView| file_view_of(x.header),
    )
}

impl CommitMerkleTree {
    /// Every file of a directory, VNode or file subtree, in depth-first
    /// order; any other node kind is `InvalidArgument`.
    pub fn dir_entries(node: &MerkleTreeNode) -> (r: Result<Vec<FileNode>, OxenError>)
        ensures
            match r {
                Ok(fs) => (node@.header is Directory || node@.header is VNode || node@.header
                    is File) && files_view(fs@) == spec_file_nodes(node@),
                Err(e) => !(node@.header is Directory || node@.header is VNode || node@.header
                    is File) && e.spec_kind() == OxenErrorKind::InvalidArgument,
            },
    {
        match &node.node {
            EMerkleTreeNode::Directory(_) | EMerkleTreeNode::VNode(_) | EMerkleTreeNode::File(
                _,
            ) => {},
            _ => {
                return Err(OxenError::InvalidArgument(String::new()));
            },
        }
        let all = node.walk_tree();
        let ghost allv = nodes_view(all@);
        let ghost pred = |x: NodeView| x.header is File;
        let ghost fv = |x: NodeView| file_view_of(x.header);
        let mut out: Vec<FileNode> = Vec::new();
        let mut i: usize = 0;
        proof {
            lemma_nodes_view(all@);
            assert(allv.subrange(0, 0) =~= Seq::<NodeView>::empty());
            assert(allv.subrange(0, 0).filter(pred).map_values(fv) =~= Seq::<FileNodeView>::empty());
            assert(files_view(out@) =~= allv.subrange(0, 0).filter(pred).map_values(fv));
        }
        while i < all.len()
            invariant
                i <= all@.len(),
                allv == nodes_view(all@),
                allv.len() == all@.len(),
                pred == (|x: NodeView| x.header is File),
                fv == (|x: NodeView| file_view_of(x.header)),
                files_view(out@) == allv.subrange(0, i as int).filter(pred).map_values(fv),
            decreases all@.len() - i,
        {
            proof {
                lemma_nodes_view(all@);
                let sub = allv.subrange(0, (i + 1) as int);
                assert(sub.drop_last() =~= allv.subrange(0, i as int));
                assert(sub.last() == allv[i as int]);
                sub.drop_last().lemma_filter_push(sub.last(), pred);
                assert(sub =~= sub.drop_last().push(sub.last()));
            }
            match &all[i].node {
                EMerkleTreeNode::File(f) => {
                    let ghost pre = files_view(out@);
                    let fc = f.clone();
                    out.push(fc);
                    proof {
                        assert(out@.drop_last().len() == out@.len() - 1);
                        assert forall|j: int| 0 <= j < out@.len() - 1 implies files_view(out@)[j]
                            == pre[j] by {
                            assert(out@.drop_last()[j] == out@[j]);
                        }
                        assert(files_view(out@)[out@.len() - 1] == fv(allv[i as int]));
                        assert(files_view(out@) =~= pre.push(fv(allv[i as int])));
                        let sub = allv.subrange(0, (i + 1) as int);
                        assert(sub.filter(pred).map_values(fv) =~= sub.drop_last().filter(
                            pred,
                        ).map_values(fv).push(fv(sub.last())));
                        assert(files_view(out@) =~= sub.filter(pred).map_values(fv));
                    }
                },
                _ => {
                    proof {
                        let sub = allv.subrange(0, (i + 1) as int);
                        assert(sub.filter(pred).map_values(fv) =~= sub.drop_last().filter(
                            pred,
                        ).map_values(fv));
                        assert(files_view(out@) =~= sub.filter(pred).map_values(fv));
                    }
                },
            }
            i = i + 1;
        }
        proof {
            assert(allv.subrange(0, allv.len() as int) =~= allv);
        }
        Ok(out)
    }

    /// Load a node with its whole subtree, collecting every non-leaf
    /// hash of the loaded tree as it goes.
    ///
    /// Unlike [`CommitMerkleTree::read_node`], this answers from the
    /// node DBs alone: a hash with no DB of its own — a leaf, cached or
    /// not — is `Ok(None)`.
    pub fn read_node_with_hashes(
        repo: &mut LocalRepository,
        hash: &MerkleHash,
        hashes: &mut Vec<MerkleHash>,
    ) -> (r: Result<Option<MerkleTreeNode>, OxenError>)
        requires
            old(repo).wf(),
        ensures
            read_frame(old(repo), final(repo)),
            match r {
                Ok(opt) => if old(repo).dbs_map().contains_key(hash.value) {
                    opt_node_view(opt) == spec_load_rec(
                        old(repo).dbs_map(),
                        old(repo).rank@,
                        hash.value,
                    ) && match opt {
                        Some(n) => final(hashes)@ == old(hashes)@ + spec_preorder(n@).filter(
                            |x: NodeView| !x.header.is_leaf(),
                        ).map_values(|x: NodeView| x.hash),
                        None => false,
                    }
                } else {
                    opt is None && final(hashes)@ == old(hashes)@
                },
                Err(_) => false,
            },
    {
        if !repo.dbs.contains(hash.to_u128()) {
            return Ok(None);
        }
        let r = CommitMerkleTree::read_node(repo, hash, true);
        match r {
            Ok(Some(n)) => {
                collect_nonleaf_hashes(&n, hashes);
                Ok(Some(n))
            },
            Ok(None) => {
                proof {
                    assert(false);
                }
                Ok(None)
            },
            Err(e) => Err(e),
        }
    }

    /// Load a node's subtree truncated at a base set, straight from the
    /// node DBs: a node whose hash the base holds keeps its record but
    /// loads no children, and its hash — the topmost shared one — is
    /// appended to `shared_hashes`. Every file of the loaded (unique)
    /// regions is reduced to a [`PartialNode`] keyed by its path.
    pub fn read_unique_nodes(
        repo: &mut LocalRepository,
        hash: &MerkleHash,
        base_hashes: &Vec<MerkleHash>,
        shared_hashes: &mut Vec<MerkleHash>,
        partial_nodes: &mut Vec<(String, PartialNode)>,
    ) -> (r: Result<Option<MerkleTreeNode>, OxenError>)
        requires
            old(repo).wf(),
        ensures
            read_frame(old(repo), final(repo)),
            match r {
                Ok(opt) => ({
                    &&& opt_node_view(opt) == spec_load_unique(
                        old(repo).dbs_map(),
                        old(repo).rank@,
                        base_hashes@,
                        hash.value,
                    )
                    &&& final(shared_hashes)@ == old(shared_hashes)@ + spec_shared(
                        old(repo).dbs_map(),
                        old(repo).rank@,
                        base_hashes@,
                        hash.value,
                    )
                    &&& match opt {
                        Some(n) => partials_view(final(partial_nodes)@) == partials_view(
                            old(partial_nodes)@,
                        ) + spec_partials(n@, Seq::empty()),
                        None => final(partial_nodes)@ == old(partial_nodes)@,
                    }
                }),
                Err(_) => false,
            },
    {
        let opt = read_unique(
            &repo.dbs,
            hash.to_u128(),
            base_hashes,
            shared_hashes,
            Ghost(repo.rank@),
            Ghost(repo.vnode_size),
        );
        match opt {
            Some(n) => {
                let pfx = "";
                proof {
                    reveal_strlit("");
                    assert(pfx@ =~= Seq::<char>::empty());
                }
                collect_partials(&n, pfx, partial_nodes);
                Ok(Some(n))
            },
            None => Ok(None),
        }
    }

    /// The commit's root subtree truncated at a base set, with the
    /// topmost shared hashes and the unique regions' files reduced to
    /// [`PartialNode`]s keyed by path.
    pub fn root_with_unique_children(
        repo: &mut LocalRepository,
        commit: &Commit,
        base_hashes: &Vec<MerkleHash>,
        shared_hashes: &mut Vec<MerkleHash>,
        partial_nodes: &mut Vec<(String, PartialNode)>,
    ) -> (r: Result<Option<MerkleTreeNode>, OxenError>)
        requires
            old(repo).wf(),
        ensures
            read_frame(old(repo), final(repo)),
            match r {
                Ok(opt) => ({
                    &&& opt_node_view(opt) == spec_load_unique(
                        old(repo).dbs_map(),
                        old(repo).rank@,
                        base_hashes@,
                        commit.id.value,
                    )
                    &&& final(shared_hashes)@ == old(shared_hashes)@ + spec_shared(
                        old(repo).dbs_map(),
                        old(repo).rank@,
                        base_hashes@,
                        commit.id.value,
                    )
                    &&& match opt {
                        Some(n) => partials_view(final(partial_nodes)@) == partials_view(
                            old(partial_nodes)@,
                        ) + spec_partials(n@, Seq::empty()),
                        None => final(partial_nodes)@ == old(partial_nodes)@,
                    }
                }),
                Err(_) => false,
            },
    {
        CommitMerkleTree::read_unique_nodes(
            repo,
            &commit.id,
            base_hashes,
            shared_hashes,
            partial_nodes,
        )
    }

    /// Render the whole loaded tree, one line per node.
    pub fn print(&self) -> (r: String) {
        CommitMerkleTree::print_node(&self.root)
    }

    /// Render the loaded tree down to `depth` levels.
    pub fn print_depth(&self, depth: i32) -> (r: String) {
        CommitMerkleTree::print_node_depth(&self.root, depth)
    }

    /// Render a subtree down to `depth` levels.
    pub fn print_node_depth(node: &MerkleTreeNode, depth: i32) -> (r: String) {
        render_node(node, 0, depth)
    }

    /// Render a whole subtree.
    pub fn print_node(node: &MerkleTreeNode) -> (r: String) {
        render_node(node, 0, -1)
    }
}

/// Whether a path is one of a request list's entries.
pub open spec fn path_listed(p: Seq<char>, paths: Seq<String>) -> bool {
    exists|j: int| 0 <= j < paths.len() && p == (#[trigger] paths[j])@
}

/// A partial-nodes list by view: paths as character sequences.
pub open spec fn partials_view(s: Seq<(String, PartialNode)>) -> Seq<(Seq<char>, PartialNode)> {
    Seq::new(s.len(), |i: int| (s[i].0@, s[i].1))
}

/// The files of a loaded subtree reduced to partial nodes keyed by
/// their path below `prefix`, in depth-first order; directories extend
/// the path, VNodes and commits are transparent.
pub open spec fn spec_partials(n: NodeView, prefix: Seq<char>) -> Seq<(Seq<char>, PartialNode)>
    decreases n, 1int,
{
    match n.header {
        HeaderView::File(f) => seq![
            (
                crate::commit::child_path_chars(prefix, f.name),
                PartialNode {
                    hash: f.hash,
                    last_modified_seconds: f.last_modified_s,
                    last_modified_nanoseconds: f.last_modified_ns,
                },
            ),
        ],
        HeaderView::FileChunk(_) => Seq::empty(),
        HeaderView::Directory(d) => spec_partials_list(
            n.children,
            crate::commit::child_path_chars(prefix, d.name),
        ),
        _ => spec_partials_list(n.children, prefix),
    }
}

pub open spec fn spec_partials_list(children: Seq<NodeView>, prefix: Seq<char>) -> Seq<
    (Seq<char>, PartialNode),
>
    decreases children, 0int,
{
    if children.len() == 0 {
        Seq::empty()
    } else {
        spec_partials_list(children.drop_last(), prefix) + spec_partials(children.last(), prefix)
    }
}

/// Reduce every file of a subtree to a [`PartialNode`] keyed by its
/// path below `prefix`, appending them in depth-first order.
fn collect_partials(n: &MerkleTreeNode, prefix: &str, out: &mut Vec<(String, PartialNode)>)
    ensures
        partials_view(final(out)@) == partials_view(old(out)@) + spec_partials(n@, prefix@),
    decreases *n,
{
    match &n.node {
        EMerkleTreeNode::File(f) => {
            let path = crate::commit::child_path_string(prefix, f.name.as_str());
            let p = PartialNode::from(f.hash, f.last_modified_s, f.last_modified_ns);
            let ghost pre_vec = out@;
            let ghost pair = (path@, p);
            out.push((path, p));
            proof {
                assert(out@.drop_last() =~= pre_vec);
                assert forall|j: int| 0 <= j < pre_vec.len() implies partials_view(out@)[j]
                    == partials_view(pre_vec)[j] by {
                    assert(out@[j] == pre_vec[j]);
                }
                assert(partials_view(out@)[out@.len() - 1] == pair);
                assert(pair.0 == crate::commit::child_path_chars(prefix@, f.name@));
                assert(partials_view(out@) =~= partials_view(pre_vec) + spec_partials(
                    n@,
                    prefix@,
                ));
            }
        },
        EMerkleTreeNode::FileChunk(_) => {
            proof {
                assert(partials_view(out@) =~= partials_view(old(out)@) + spec_partials(
                    n@,
                    prefix@,
                ));
            }
        },
        _ => {
            let sub_prefix: String = match &n.node {
                EMerkleTreeNode::Directory(d) => crate::commit::child_path_string(
                    prefix,
                    d.name.as_str(),
                ),
                _ => prefix.to_owned(),
            };
            let ghost spfx = sub_prefix@;
            proof {
                lemma_nodes_view(n.children@);
                assert(spec_partials(n@, prefix@) == spec_partials_list(n@.children, spfx));
                assert(nodes_view(n.children@).subrange(0, 0) =~= Seq::<NodeView>::empty());
                assert(partials_view(out@) =~= partials_view(old(out)@) + spec_partials_list(
                    nodes_view(n.children@).subrange(0, 0),
                    spfx,
                ));
            }
            let mut i: usize = 0;
            while i < n.children.len()
                invariant
                    i <= n.children@.len(),
                    spfx == sub_prefix@,
                    partials_view(out@) == partials_view(old(out)@) + spec_partials_list(
                        nodes_view(n.children@).subrange(0, i as int),
                        spfx,
                    ),
                decreases n.children@.len() - i,
            {
                proof {
                    lemma_nodes_view(n.children@);
                    assert(decreases_to!(*n => n.children@[i as int]));
                }
                collect_partials(&n.children[i], sub_prefix.as_str(), out);
                proof {
                    lemma_nodes_view(n.children@);
                    let cs = nodes_view(n.children@);
                    let sub = cs.subrange(0, (i + 1) as int);
                    assert(sub.drop_last() =~= cs.subrange(0, i as int));
                    assert(sub.last() == cs[i as int]);
                    assert(cs[i as int] == n.children@[i as int]@);
                    assert(partials_view(out@) =~= partials_view(old(out)@) + spec_partials_list(
                        sub,
                        spfx,
                    ));
                }
                i = i + 1;
            }
            proof {
                assert(nodes_view(n.children@).subrange(0, n.children@.len() as int) =~= nodes_view(
                    n.children@,
                ));
            }
        },
    }
}

/// One node header rendered for display: its kind in brackets, the
/// short hash, and the name and counts the kind carries.
pub open spec fn summary_chars(h: crate::node::HeaderView, short: Seq<char>) -> Seq<char> {
    match h {
        crate::node::HeaderView::Commit(c) => "[Commit] "@ + short + " \""@ + c.message + "\""@,
        crate::node::HeaderView::Directory(d) => "[Dir] "@ + d.name + " -> "@ + short + " ("@
            + crate::text::dec_chars_of(d.num_entries as nat) + " entries)"@,
        crate::node::HeaderView::VNode(v) => "[VNode] "@ + short + " ("@
            + crate::text::dec_chars_of(v.num_entries as nat) + " entries)"@,
        crate::node::HeaderView::File(f) => "[File] "@ + f.name + " -> "@ + short + " "@
            + crate::text::dec_chars_of(f.size as nat) + " B"@,
        crate::node::HeaderView::FileChunk(_) => "[FileChunk] "@ + short,
    }
}

/// Render one node header for display.
fn node_summary(hdr: &EMerkleTreeNode, short: &str) -> (r: String)
    ensures
        r@ == summary_chars(hdr@, short@),
{
    match hdr {
        EMerkleTreeNode::Commit(c) => {
            let mut s = crate::text::str_concat("[Commit] ", short);
            s = crate::text::str_concat(s.as_str(), " \"");
            s = crate::text::str_concat(s.as_str(), c.message.as_str());
            crate::text::str_concat(s.as_str(), "\"")
        },
        EMerkleTreeNode::Directory(d) => {
            let mut s = crate::text::str_concat("[Dir] ", d.name.as_str());
            s = crate::text::str_concat(s.as_str(), " -> ");
            s = crate::text::str_concat(s.as_str(), short);
            s = crate::text::str_concat(s.as_str(), " (");
            let num = crate::text::decimal_string(d.num_entries);
            s = crate::text::str_concat(s.as_str(), num.as_str());
            crate::text::str_concat(s.as_str(), " entries)")
        },
        EMerkleTreeNode::VNode(v) => {
            let mut s = crate::text::str_concat("[VNode] ", short);
            s = crate::text::str_concat(s.as_str(), " (");
            let num = crate::text::decimal_string(v.num_entries);
            s = crate::text::str_concat(s.as_str(), num.as_str());
            crate::text::str_concat(s.as_str(), " entries)")
        },
        EMerkleTreeNode::File(f) => {
            let mut s = crate::text::str_concat("[File] ", f.name.as_str());
            s = crate::text::str_concat(s.as_str(), " -> ");
            s = crate::text::str_concat(s.as_str(), short);
            s = crate::text::str_concat(s.as_str(), " ");
            let num = crate::text::decimal_string(f.size);
            s = crate::text::str_concat(s.as_str(), num.as_str());
            crate::text::str_concat(s.as_str(), " B")
        },
        EMerkleTreeNode::FileChunk(_) => crate::text::str_concat("[FileChunk] ", short),
    }
}

/// Render a subtree, two spaces per level, stopping at `depth` unless it
/// is negative.
fn render_node(n: &MerkleTreeNode, indent: i32, depth: i32) -> (r: String)
    decreases *n,
{
    if depth >= 0 && indent >= depth && depth > 0 {
        return String::new();
    }
    let mut line = String::new();
    let mut pad: i32 = 0;
    while pad < indent
        invariant
            pad <= indent || indent < 0,
        decreases indent - pad,
    {
        line = crate::text::str_concat(line.as_str(), "  ");
        pad = pad + 1;
    }
    let short = n.hash.to_short_str();
    line = crate::text::str_concat(line.as_str(), node_summary(&n.node, short.as_str()).as_str());
    line = crate::text::str_concat(line.as_str(), "\n");
    let mut i: usize = 0;
    while i < n.children.len()
        invariant
            i <= n.children@.len(),
        decreases n.children@.len() - i,
    {
        proof {
            lemma_nodes_view(n.children@);
            assert(decreases_to!(*n => n.children@[i as int]));
        }
        let sub = if indent < i32::MAX {
            render_node(&n.children[i], indent + 1, depth)
        } else {
            String::new()
        };
        line = crate::text::str_concat(line.as_str(), sub.as_str());
        i = i + 1;
    }
    line
}

/// Collect every non-leaf hash of a loaded subtree in depth-first order.
fn collect_nonleaf_hashes(n: &MerkleTreeNode, hashes: &mut Vec<MerkleHash>)
    ensures
        final(hashes)@ == old(hashes)@ + spec_preorder(n@).filter(
            |x: NodeView| !x.header.is_leaf(),
        ).map_values(|x: NodeView| x.hash),
{
    let all = n.walk_tree();
    let ghost allv = nodes_view(all@);
    let ghost pred = |x: NodeView| !x.header.is_leaf();
    let mut i: usize = 0;
    proof {
        lemma_nodes_view(all@);
        assert(allv.subrange(0, 0) =~= Seq::<NodeView>::empty());
        assert(allv.subrange(0, 0).filter(pred).map_values(|x: NodeView| x.hash) =~= Seq::<
            MerkleHash,
        >::empty());
        assert(hashes@ =~= old(hashes)@ + allv.subrange(0, 0).filter(pred).map_values(
            |x: NodeView| x.hash,
        ));
    }
    while i < all.len()
        invariant
            i <= all@.len(),
            allv == nodes_view(all@),
            allv.len() == all@.len(),
            pred == (|x: NodeView| !x.header.is_leaf()),
            hashes@ == old(hashes)@ + allv.subrange(0, i as int).filter(pred).map_values(
                |x: NodeView| x.hash,
            ),
        decreases all@.len() - i,
    {
        proof {
            lemma_nodes_view(all@);
            let sub = allv.subrange(0, (i + 1) as int);
            assert(sub.drop_last() =~= allv.subrange(0, i as int));
            assert(sub.last() == allv[i as int]);
            sub.drop_last().lemma_filter_push(sub.last(), pred);
            assert(sub =~= sub.drop_last().push(sub.last()));
        }
        if !all[i].node.is_leaf() {
            hashes.push(all[i].hash);
            proof {
                assert(hashes@ =~= old(hashes)@ + allv.subrange(0, (i + 1) as int).filter(
                    pred,
                ).map_values(|x: NodeView| x.hash));
            }
        } else {
            proof {
                assert(hashes@ =~= old(hashes)@ + allv.subrange(0, (i + 1) as int).filter(
                    pred,
                ).map_values(|x: NodeView| x.hash));
            }
        }
        i = i + 1;
    }
    proof {
        assert(allv.subrange(0, allv.len() as int) =~= allv);
    }
}

/// Map `.` to the root path, leaving everything else as given.
fn normalize_path(path: &str) -> (r: String)
    ensures
        r@ == normal_path(path@),
{
    let n = path.unicode_len();
    if n == 1 && path.get_char(0) == '.' {
        proof {
            assert(path@ =~= seq!['.']);
            reveal_strlit("");
            assert(""@ =~= Seq::<char>::empty());
        }
        "".to_owned()
    } else {
        path.to_owned()
    }
}

/// `.` names the root, like the empty path.
pub open spec fn normal_path(s: Seq<char>) -> Seq<char> {
    if s =~= seq!['.'] {
        Seq::empty()
    } else {
        s
    }
}

} // verus!
