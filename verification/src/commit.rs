//! Staging and the commit writer.
//!
//! `add` stages a file's content: the blob goes to the version store
//! under its digest, and the working set records the path. `commit`
//! builds a new Merkle tree bottom-up from the working set, writes the
//! node DBs and the commit's dir-hashes index, and advances the branch
//! ref.

use vstd::prelude::*;
use vstd::string::StringSliceAdditionalSpecFns;
use crate::cache::NodeCache;
use crate::db::{DbView, MerkleNodeDb, NodeDbs};
use crate::error::{OxenError, OxenErrorKind};
use crate::hash::{MerkleHash, fnv128_of, hash_buffer_128bit};
use crate::node::{
    DirNode, EMerkleTreeNode, FileNode, HeaderView, VNode, header_eq, headers_view,
};
use crate::paths::{
    chars_le, is_path_form, lemma_chars_le_total, lemma_chars_le_trans, split_path,
};
use crate::repo::{
    db_ok, db_shape_ok, dbs_wf, cache_wf, eq_except_ws, sum_vnode_entries, Commit,
    LocalRepository, StagedFile, StagedFileView, staged_view, staged_wf, DEFAULT_BRANCH_NAME,
};

verus! {

/// The working set as a map from path to staged entry.
pub open spec fn staged_map(ts: Seq<StagedFileView>) -> Map<Seq<char>, StagedFileView>
    decreases ts.len(),
{
    if ts.len() == 0 {
        Map::empty()
    } else {
        staged_map(ts.drop_last()).insert(ts.last().path, ts.last())
    }
}

/// A path of some entry is a key of the map, and conversely.
pub proof fn lemma_staged_map_keys(ts: Seq<StagedFileView>)
    ensures
        forall|p: Seq<char>|
            staged_map(ts).contains_key(p) <==> exists|i: int|
                0 <= i < ts.len() && (#[trigger] ts[i]).path == p,
    decreases ts.len(),
{
    if ts.len() > 0 {
        lemma_staged_map_keys(ts.drop_last());
        assert forall|p: Seq<char>| staged_map(ts).contains_key(p) implies exists|i: int|
            0 <= i < ts.len() && (#[trigger] ts[i]).path == p by {
            if p == ts.last().path {
                assert(ts[ts.len() - 1].path == p);
            } else {
                assert(staged_map(ts.drop_last()).contains_key(p));
                let i = choose|i: int|
                    0 <= i < ts.drop_last().len() && (#[trigger] ts.drop_last()[i]).path == p;
                assert(ts.drop_last()[i] == ts[i]);
                assert(ts[i].path == p);
            }
        }
        assert forall|p: Seq<char>|
            exists|i: int| 0 <= i < ts.len() && (#[trigger] ts[i]).path == p implies staged_map(
            ts,
        ).contains_key(p) by {
            let i = choose|i: int| 0 <= i < ts.len() && (#[trigger] ts[i]).path == p;
            if i < ts.len() - 1 {
                assert(ts.drop_last()[i].path == p);
                assert(staged_map(ts.drop_last()).contains_key(p));
            } else {
                assert(p == ts.last().path);
            }
        }
    }
}

/// With unique paths, each entry is the map's value at its path.
pub proof fn lemma_staged_map_entry(ts: Seq<StagedFileView>, i: int)
    requires
        0 <= i < ts.len(),
        forall|a: int, b: int|
            0 <= a < b < ts.len() ==> (#[trigger] ts[a].path) != (#[trigger] ts[b].path),
    ensures
        staged_map(ts).contains_key(ts[i].path),
        staged_map(ts)[ts[i].path] == ts[i],
    decreases ts.len(),
{
    if i == ts.len() - 1 {
    } else {
        lemma_staged_map_entry(ts.drop_last(), i);
        assert(ts.drop_last()[i] == ts[i]);
        assert(ts[i].path != ts.last().path);
    }
}

/// Inserting an entry with a fresh path at any position inserts exactly
/// that path.
proof fn lemma_staged_map_insert(ts: Seq<StagedFileView>, i: int, e: StagedFileView)
    requires
        0 <= i <= ts.len(),
        forall|j: int| 0 <= j < ts.len() ==> (#[trigger] ts[j]).path != e.path,
    ensures
        staged_map(ts.insert(i, e)) == staged_map(ts).insert(e.path, e),
    decreases ts.len(),
{
    let ins = ts.insert(i, e);
    if i == ts.len() {
        assert(ins.drop_last() =~= ts);
        assert(ins.last() == e);
    } else {
        assert(ts.len() > 0);
        assert(ts[ts.len() - 1].path != e.path);
        lemma_staged_map_insert(ts.drop_last(), i, e);
        assert(ins.drop_last() =~= ts.drop_last().insert(i, e));
        assert(ins.last() == ts.last());
        assert(staged_map(ins) == staged_map(ts.drop_last()).insert(e.path, e).insert(
            ts.last().path,
            ts.last(),
        ));
        assert(staged_map(ins) =~= staged_map(ts).insert(e.path, e));
    }
}

/// Replacing the entry that holds a path updates exactly that path.
proof fn lemma_staged_map_update(ts: Seq<StagedFileView>, i: int, e: StagedFileView)
    requires
        0 <= i < ts.len(),
        ts[i].path == e.path,
        forall|a: int, b: int|
            0 <= a < b < ts.len() ==> (#[trigger] ts[a].path) != (#[trigger] ts[b].path),
    ensures
        staged_map(ts.update(i, e)) == staged_map(ts).insert(e.path, e),
    decreases ts.len(),
{
    let upd = ts.update(i, e);
    if i == ts.len() - 1 {
        assert(upd.drop_last() =~= ts.drop_last());
        assert(upd.last() == e);
        assert(staged_map(ts).insert(e.path, e) =~= staged_map(ts.drop_last()).insert(e.path, e));
    } else {
        lemma_staged_map_update(ts.drop_last(), i, e);
        assert(upd.drop_last() =~= ts.drop_last().update(i, e));
        assert(upd.last() == ts.last());
        assert(ts.last().path != e.path);
        assert(staged_map(upd) == staged_map(ts.drop_last()).insert(e.path, e).insert(
            ts.last().path,
            ts.last(),
        ));
        assert(staged_map(upd) =~= staged_map(ts).insert(e.path, e));
    }
}

/// Removing the entry that holds a path removes exactly that path.
proof fn lemma_staged_map_remove(ts: Seq<StagedFileView>, i: int)
    requires
        0 <= i < ts.len(),
        forall|a: int, b: int|
            0 <= a < b < ts.len() ==> (#[trigger] ts[a].path) != (#[trigger] ts[b].path),
    ensures
        staged_map(ts.remove(i)) == staged_map(ts).remove(ts[i].path),
    decreases ts.len(),
{
    lemma_staged_map_keys(ts);
    lemma_staged_map_keys(ts.remove(i));
    if i == ts.len() - 1 {
        assert(ts.remove(i) =~= ts.drop_last());
        assert forall|p: Seq<char>| #![auto] staged_map(ts.drop_last()).contains_key(p) implies p
            != ts[i].path by {
            lemma_staged_map_keys(ts.drop_last());
            let j = choose|j: int|
                0 <= j < ts.drop_last().len() && (#[trigger] ts.drop_last()[j]).path == p;
            assert(ts[j].path == p);
        }
        assert(staged_map(ts.drop_last()) =~= staged_map(ts).remove(ts[i].path)) by {
            lemma_staged_map_keys(ts.drop_last());
            assert forall|p: Seq<char>| staged_map(ts.drop_last()).contains_key(p) implies
                staged_map(ts.drop_last())[p] == staged_map(ts).remove(ts[i].path)[p] by {
                let j = choose|j: int|
                    0 <= j < ts.drop_last().len() && (#[trigger] ts.drop_last()[j]).path == p;
                lemma_staged_map_entry(ts.drop_last(), j);
                lemma_staged_map_entry(ts, j);
            }
        }
    } else {
        lemma_staged_map_remove(ts.drop_last(), i);
        assert(ts.remove(i).drop_last() =~= ts.drop_last().remove(i));
        assert(ts.remove(i).last() == ts.last());
        assert(staged_map(ts.remove(i)) == staged_map(ts.drop_last().remove(i)).insert(
            ts.last().path,
            ts.last(),
        ));
        assert(ts[i].path != ts.last().path);
        assert(staged_map(ts).remove(ts[i].path) =~= staged_map(ts.drop_last()).remove(
            ts[i].path,
        ).insert(ts.last().path, ts.last()));
    }
}

/// Whether one segment path would nest inside the other: a staged file
/// cannot be both a file and a directory.
pub open spec fn segs_conflict(a: Seq<Seq<char>>, b: Seq<Seq<char>>) -> bool {
    a.len() != b.len() && (a.is_prefix_of(b) || b.is_prefix_of(a))
}

/// Whether `a`'s segments are a prefix of `b`'s.
fn segs_is_prefix(a: &Vec<String>, b: &Vec<String>) -> (r: bool)
    ensures
        r == a.deep_view().is_prefix_of(b.deep_view()),
{
    if a.len() > b.len() {
        proof {
            if a.deep_view().is_prefix_of(b.deep_view()) {
                assert(a.deep_view().len() <= b.deep_view().len());
            }
        }
        return false;
    }
    let mut i: usize = 0;
    while i < a.len()
        invariant
            i <= a@.len(),
            a@.len() <= b@.len(),
            forall|j: int| 0 <= j < i ==> a.deep_view()[j] == b.deep_view()[j],
        decreases a@.len() - i,
    {
        if !crate::text::str_eq(a[i].as_str(), b[i].as_str()) {
            proof {
                assert(a.deep_view()[i as int] == a@[i as int]@);
                assert(b.deep_view()[i as int] == b@[i as int]@);
                if a.deep_view().is_prefix_of(b.deep_view()) {
                    assert(a.deep_view()[i as int] == b.deep_view()[i as int]);
                }
            }
            return false;
        }
        i = i + 1;
    }
    proof {
        assert(a.deep_view() =~= b.deep_view().subrange(0, a.deep_view().len() as int));
    }
    true
}

/// Stage a file: store its content blob under the content digest and
/// record the path in the working set.
///
/// The path must be a well-formed non-root path that does not nest with
/// an already staged path; anything else is `InvalidArgument` and leaves
/// the repository unchanged. Staging the same path again replaces the
/// entry; staging the same content twice stores its blob once.
pub fn add(repo: &mut LocalRepository, path: &str, content: Vec<u8>) -> (r: Result<
    (),
    OxenError,
>)
    requires
        old(repo).wf(),
    ensures
        final(repo).wf(),
        final(repo).dbs_map() == old(repo).dbs_map(),
        final(repo).cache_map() == old(repo).cache_map(),
        final(repo).branches.view_map() == old(repo).branches.view_map(),
        final(repo).rank@ == old(repo).rank@,
        final(repo).vnode_size == old(repo).vnode_size,
        final(repo).dir_hashes_dbs.view_map() == old(repo).dir_hashes_dbs.view_map(),
        match r {
            Ok(()) => ({
                &&& final(repo).blobs() == (if old(repo).blobs().contains_key(
                    fnv128_of(content@),
                ) {
                    old(repo).blobs()
                } else {
                    old(repo).blobs().insert(fnv128_of(content@), content@)
                })
                &&& exists|segs: Seq<Seq<char>>|
                    is_path_form(segs, path@) && staged_map(staged_view(final(repo).staged@))
                        == staged_map(staged_view(old(repo).staged@)).insert(
                        path@,
                        StagedFileView {
                            path: path@,
                            segments: segs,
                            hash: MerkleHash { value: fnv128_of(content@) },
                            size: content@.len() as u64,
                            last_modified_s: 0,
                            last_modified_ns: 0,
                        },
                    )
            }),
            Err(e) => ({
                &&& e.spec_kind() == OxenErrorKind::InvalidArgument
                &&& final(repo).blobs() == old(repo).blobs()
                &&& final(repo).staged@ == old(repo).staged@
                &&& (crate::paths::is_root_path(path@) || !crate::paths::valid_path_chars(path@)
                    || exists|segs: Seq<Seq<char>>, j: int|
                    is_path_form(segs, path@) && 0 <= j < staged_view(old(repo).staged@).len()
                        && #[trigger] segs_conflict(
                        staged_view(old(repo).staged@)[j].segments,
                        segs,
                    ))
            }),
        },
{
    let segs = match split_path(path) {
        Ok(s) => s,
        Err(e) => {
            return Err(e);
        },
    };
    if segs.len() == 0 {
        return Err(OxenError::InvalidArgument(String::new()));
    }
    let ghost ts0 = staged_view(repo.staged@);
    // reject nesting conflicts and find the entry with the same path
    let mut same: Option<usize> = None;
    let mut i: usize = 0;
    while i < repo.staged.len()
        invariant
            old(repo).wf(),
            i <= repo.staged@.len(),
            eq_except_ws(repo, old(repo)),
            repo.store == old(repo).store,
            repo.staged@ == old(repo).staged@,
            staged_wf(staged_view(repo.staged@)),
            ts0 == staged_view(repo.staged@),
            segs.deep_view().len() > 0,
            is_path_form(segs.deep_view(), path@),
            forall|j: int|
                0 <= j < repo.staged@.len() ==> is_path_form(
                    (#[trigger] ts0[j]).segments,
                    ts0[j].path,
                ),
            match same {
                Some(idx) => idx < i && ts0[idx as int].path == path@,
                None => forall|j: int| 0 <= j < i ==> (#[trigger] ts0[j]).path != path@,
            },
        decreases repo.staged@.len() - i,
    {
        proof {
            assert(ts0[i as int] == repo.staged@[i as int]@);
        }
        let e = &repo.staged[i];
        if crate::text::str_eq(e.path.as_str(), path) {
            if same.is_none() {
                same = Some(i);
            }
        } else if segs_is_prefix(&segs, &e.segments) || segs_is_prefix(&e.segments, &segs) {
            proof {
                // a prefix relation between different paths means the
                // segment lists differ, so one nests inside the other
                let sv = segs.deep_view();
                let ov = ts0[i as int].segments;
                if sv == ov {
                    assert(crate::paths::spec_join(sv) == crate::paths::spec_join(ov));
                    assert(ts0[i as int].path == path@);
                    assert(false);
                }
                assert(sv.is_prefix_of(ov) || ov.is_prefix_of(sv));
                if sv.len() == ov.len() {
                    if sv.is_prefix_of(ov) {
                        assert(sv =~= ov);
                    } else {
                        assert(ov =~= sv);
                    }
                    assert(false);
                }
                assert(segs_conflict(ov, sv));
            }
            return Err(OxenError::InvalidArgument(String::new()));
        }
        i = i + 1;
    }
    // store the blob
    let h = hash_buffer_128bit(content.as_slice());
    let size = content.len() as u64;
    let ghost cbytes = content@;
    let res = repo.store.save_from_bytes(MerkleHash { value: h }, content);
    proof {
        assert(res is Ok);
    }
    let entry = StagedFile {
        path: path.to_owned(),
        segments: segs,
        hash: MerkleHash { value: h },
        size,
        last_modified_s: 0,
        last_modified_ns: 0,
    };
    let ghost ev = entry@;
    match same {
        Some(idx) => {
            proof {
                assert(ts0[idx as int].path == ev.path);
            }
            repo.staged[idx] = entry;
            proof {
                assert(staged_view(repo.staged@) =~= ts0.update(idx as int, ev));
                lemma_staged_map_update(ts0, idx as int, ev);
                assert forall|a: int, b: int|
                    0 <= a < b < staged_view(repo.staged@).len() implies chars_le(
                    #[trigger] staged_view(repo.staged@)[a].path,
                    #[trigger] staged_view(repo.staged@)[b].path,
                ) && staged_view(repo.staged@)[a].path != staged_view(repo.staged@)[b].path by {
                    assert(ts0[a].path == staged_view(repo.staged@)[a].path);
                    assert(ts0[b].path == staged_view(repo.staged@)[b].path);
                }
            }
            Ok(())
        },
        None => {
            // find the sorted position
            let n_staged = repo.staged.len();
            let mut pos: usize = n_staged;
            let mut j: usize = 0;
            while j < n_staged
                invariant
                    old(repo).wf(),
                    j <= repo.staged@.len(),
                    n_staged == repo.staged@.len(),
                    eq_except_ws(repo, old(repo)),
                    repo.staged@ == old(repo).staged@,
                    ts0 == staged_view(repo.staged@),
                    pos == n_staged || (pos < j && chars_le(ev.path, ts0[pos as int].path)),
                    ev.path == path@,
                    forall|k: int|
                        0 <= k < j && k < pos ==> !chars_le(ev.path, (#[trigger] ts0[k]).path),
                decreases repo.staged@.len() - j,
            {
                proof {
                    assert(ts0[j as int] == repo.staged@[j as int]@);
                }
                if pos == n_staged {
                    if crate::paths::str_le(path, repo.staged[j].path.as_str()) {
                        pos = j;
                    }
                }
                j = j + 1;
            }
            let ghost pos0 = pos as int;
            repo.staged.insert(pos, entry);
            proof {
                assert(staged_view(repo.staged@) =~= ts0.insert(pos0, ev));
                lemma_staged_map_insert(ts0, pos0, ev);
                let ts1 = staged_view(repo.staged@);
                assert forall|a: int, b: int| 0 <= a < b < ts1.len() implies chars_le(
                    #[trigger] ts1[a].path,
                    #[trigger] ts1[b].path,
                ) && ts1[a].path != ts1[b].path by {
                    let pa = if a < pos0 {
                        ts0[a].path
                    } else if a == pos0 {
                        ev.path
                    } else {
                        ts0[a - 1].path
                    };
                    let pb = if b < pos0 {
                        ts0[b].path
                    } else if b == pos0 {
                        ev.path
                    } else {
                        ts0[b - 1].path
                    };
                    assert(ts1[a].path == pa);
                    assert(ts1[b].path == pb);
                    if b < pos0 {
                        // both old, below pos
                    } else if a < pos0 && b == pos0 {
                        lemma_chars_le_total(ev.path, ts0[a].path);
                        assert(chars_le(ts0[a].path, ev.path));
                        if ts0[a].path == ev.path {
                            assert(false);
                        }
                    } else if a < pos0 && b > pos0 {
                    } else if a == pos0 {
                        // ev against a later old entry
                        if b - 1 == pos0 {
                            assert(chars_le(ev.path, ts0[pos0].path));
                        } else {
                            assert(chars_le(ev.path, ts0[pos0].path));
                            assert(chars_le(ts0[pos0].path, ts0[b - 1].path));
                            lemma_chars_le_trans(ev.path, ts0[pos0].path, ts0[b - 1].path);
                        }
                        if ts0[b - 1].path == ev.path {
                            assert(false);
                        }
                    } else {
                        // both old, at or above pos
                    }
                }
                assert forall|k: int| 0 <= k < ts1.len() implies is_path_form(
                    (#[trigger] ts1[k]).segments,
                    ts1[k].path,
                ) by {
                    if k < pos0 {
                        assert(ts1[k] == ts0[k]);
                    } else if k == pos0 {
                    } else {
                        assert(ts1[k] == ts0[k - 1]);
                    }
                }
            }
            Ok(())
        },
    }
}

/// The rank of a hash in the witness map, or zero.
pub open spec fn nrank_of(rank: Map<u128, nat>, h: u128) -> nat {
    if rank.contains_key(h) {
        rank[h]
    } else {
        0
    }
}

/// A bound above the ranks of a child header list.
pub open spec fn max_child_rank(rank: Map<u128, nat>, cs: Seq<HeaderView>) -> nat
    decreases cs.len(),
{
    if cs.len() == 0 {
        0
    } else {
        let r = max_child_rank(rank, cs.drop_last());
        let l = nrank_of(rank, cs.last().id());
        if l > r {
            l
        } else {
            r
        }
    }
}

/// Every child's rank is bounded by `max_child_rank`.
pub proof fn lemma_max_child_rank(rank: Map<u128, nat>, cs: Seq<HeaderView>, i: int)
    requires
        0 <= i < cs.len(),
    ensures
        nrank_of(rank, cs[i].id()) <= max_child_rank(rank, cs),
    decreases cs.len(),
{
    if i == cs.len() - 1 {
    } else {
        lemma_max_child_rank(rank, cs.drop_last(), i);
        assert(cs.drop_last()[i] == cs[i]);
    }
}

/// What the commit writer requires of the stores it writes through.
pub open spec fn build_inv(
    dbs: &NodeDbs,
    cache: &NodeCache,
    rank: Map<u128, nat>,
    vsz: u64,
) -> bool {
    &&& dbs.wf()
    &&& dbs_wf(dbs.view_map(), rank, vsz)
    &&& cache_wf(cache.contents(), dbs.view_map())
}

/// Persist one node DB under its hash.
///
/// A hash already stored keeps its record: the write is skipped after
/// checking that the stored payload matches, and a mismatch — two
/// different payloads under one digest — reports `Corrupted`.
fn write_node(
    dbs: &mut NodeDbs,
    cache: &mut NodeCache,
    rank: &mut Ghost<Map<u128, nat>>,
    h: u128,
    payload: EMerkleTreeNode,
    parent: Option<MerkleHash>,
    children: Vec<EMerkleTreeNode>,
    Ghost(rk): Ghost<nat>,
    Ghost(vsz): Ghost<u64>,
) -> (r: Result<(), OxenError>)
    requires
        build_inv(old(dbs), old(cache), old(rank)@, vsz),
        payload@.id() == h,
        !payload@.is_leaf(),
        ({
            let dbv = DbView {
                payload: payload@,
                parent: parent,
                children: headers_view(children@),
            };
            db_shape_ok(dbv, vsz)
        }),
        forall|i: int|
            0 <= i < children@.len() ==> ({
                let c = (#[trigger] children@[i])@;
                !c.is_leaf() ==> old(dbs).view_map().contains_key(c.id()) && old(dbs).view_map()[c.id()].payload == c && old(rank)@.contains_key(c.id()) && old(rank)@[c.id()] < rk
            }),
    ensures
        build_inv(final(dbs), final(cache), final(rank)@, vsz),
        forall|k: u128|
            #[trigger] old(dbs).view_map().contains_key(k) ==> final(dbs).view_map().contains_key(
                k,
            ) && final(dbs).view_map()[k] == old(dbs).view_map()[k],
        forall|k: u128|
            k != h ==> nrank_of(final(rank)@, k) == nrank_of(old(rank)@, k) && (old(rank)@.contains_key(k) ==> final(rank)@.contains_key(k)),
        old(dbs).view_map().contains_key(h) ==> final(rank)@ == old(rank)@ && final(dbs).view_map() == old(dbs).view_map(),
        r is Err <==> old(dbs).view_map().contains_key(h) && old(dbs).view_map()[h].payload
            != payload@,
        match r {
            Ok(()) => final(dbs).view_map().contains_key(h) && final(dbs).view_map()[h].payload
                == payload@ && final(rank)@.contains_key(h),
            Err(e) => e.spec_kind() == OxenErrorKind::Corrupted && final(dbs).view_map() == old(dbs).view_map() && final(rank)@ == old(rank)@,
        },
{
    let ghost dbs0 = dbs.view_map();
    let is_present = dbs.contains(h);
    if is_present {
        let matches_stored = match dbs.get(h) {
            Some(existing) => header_eq(&existing.payload, &payload),
            None => false,
        };
        if matches_stored {
            proof {
                assert(db_ok(dbs0, rank@, vsz, h));
            }
            Ok(())
        } else {
            Err(OxenError::Corrupted(String::new()))
        }
    } else {
        proof {
            let r2 = rank@.insert(h, rk);
            rank@ = r2;
        }
        dbs.put_new(h, MerkleNodeDb { payload, parent, children });
        cache.remove(h);
        let ghost dbs1 = dbs.view_map();
        proof {
            assert(dbs1 == dbs0.insert(h, DbView {
                payload: payload@,
                parent: parent,
                children: headers_view(children@),
            }));
            assert forall|k: u128| #[trigger] dbs1.contains_key(k) implies db_ok(
                dbs1,
                rank@,
                vsz,
                k,
            ) by {
                if k == h {
                    assert forall|i: int| 0 <= i < dbs1[h].children.len() implies ({
                        let c = #[trigger] dbs1[h].children[i];
                        !c.is_leaf() ==> dbs1.contains_key(c.id()) && dbs1[c.id()].payload == c
                            && rank@.contains_key(c.id()) && rank@[c.id()] < rank@[h]
                    }) by {
                        let c = dbs1[h].children[i];
                        assert(c == headers_view(children@)[i]);
                        if !c.is_leaf() {
                            assert(dbs0.contains_key(c.id()));
                            assert(c.id() != h);
                        }
                    }
                } else {
                    assert(dbs0.contains_key(k));
                    assert(db_ok(dbs0, old(rank)@, vsz, k));
                    assert forall|i: int| 0 <= i < dbs1[k].children.len() implies ({
                        let c = #[trigger] dbs1[k].children[i];
                        !c.is_leaf() ==> dbs1.contains_key(c.id()) && dbs1[c.id()].payload == c
                            && rank@.contains_key(c.id()) && rank@[c.id()] < rank@[k]
                    }) by {
                        let c = dbs1[k].children[i];
                        assert(dbs1[k] == dbs0[k]);
                        assert(c == dbs0[k].children[i]);
                        if !c.is_leaf() {
                            assert(dbs0.contains_key(c.id()));
                            assert(c.id() != h);
                        }
                    }
                }
            }
            assert forall|k2: u128| #[trigger] cache.contents().contains_key(k2) implies
                crate::repo::cache_entry_wf(cache.contents()[k2], k2, dbs1) by {
                assert(k2 != h);
                assert(old(cache).contents().contains_key(k2));
                assert(crate::repo::cache_entry_wf(old(cache).contents()[k2], k2, dbs0));
                if dbs1.contains_key(k2) {
                    assert(dbs0.contains_key(k2));
                    assert(dbs1[k2] == dbs0[k2]);
                }
            }
        }
        Ok(())
    }
}

/// The joined path of an entry inside a directory.
pub open spec fn child_path_chars(dir_path: Seq<char>, name: Seq<char>) -> Seq<char> {
    if dir_path.len() == 0 {
        name
    } else {
        dir_path + seq!['/'] + name
    }
}

/// The VNode bucket an entry is assigned to: the digest of its full
/// path, modulo the directory's bucket count.
pub open spec fn spec_bucket(dir_path: Seq<char>, name: Seq<char>, nv: nat) -> nat
    recommends
        nv > 0,
{
    (fnv128_of(vstd::utf8::encode_utf8(child_path_chars(dir_path, name))) as nat) % nv
}

/// The entries of one bucket, in entry order.
pub open spec fn bucket_filter(
    cs: Seq<HeaderView>,
    dir_path: Seq<char>,
    nv: nat,
    b: nat,
) -> Seq<HeaderView> {
    cs.filter(|c: HeaderView| spec_bucket(dir_path, c.name(), nv) == b)
}

/// The sum of the bucket sizes below `upto`.
pub open spec fn sum_bucket_lens(cs: Seq<HeaderView>, dir_path: Seq<char>, nv: nat, upto: nat) -> int
    decreases upto,
{
    if upto == 0 {
        0
    } else {
        sum_bucket_lens(cs, dir_path, nv, (upto - 1) as nat) + bucket_filter(
            cs,
            dir_path,
            nv,
            (upto - 1) as nat,
        ).len()
    }
}

/// Appending one entry grows exactly its own bucket.
proof fn lemma_sum_bucket_push(cs: Seq<HeaderView>, x: HeaderView, dir_path: Seq<char>, nv: nat, upto: nat)
    ensures
        sum_bucket_lens(cs.push(x), dir_path, nv, upto) == sum_bucket_lens(cs, dir_path, nv, upto)
            + (if spec_bucket(dir_path, x.name(), nv) < upto {
            1int
        } else {
            0int
        }),
    decreases upto,
{
    if upto > 0 {
        lemma_sum_bucket_push(cs, x, dir_path, nv, (upto - 1) as nat);
        let b = (upto - 1) as nat;
        let pred = |c: HeaderView| spec_bucket(dir_path, c.name(), nv) == b;
        assert(cs.push(x).drop_last() =~= cs);
        assert(cs.push(x).last() == x);
        cs.lemma_filter_push(x, pred);
    }
}

/// The buckets partition the entries: their sizes sum to the entry count.
proof fn lemma_bucket_partition(cs: Seq<HeaderView>, dir_path: Seq<char>, nv: nat)
    requires
        nv > 0,
    ensures
        sum_bucket_lens(cs, dir_path, nv, nv) == cs.len(),
    decreases cs.len(),
{
    if cs.len() == 0 {
        lemma_sum_bucket_empty(cs, dir_path, nv, nv);
    } else {
        lemma_bucket_partition(cs.drop_last(), dir_path, nv);
        lemma_sum_bucket_push(cs.drop_last(), cs.last(), dir_path, nv, nv);
        assert(cs.drop_last().push(cs.last()) =~= cs);
        assert(spec_bucket(dir_path, cs.last().name(), nv) < nv) by {
            let v = fnv128_of(vstd::utf8::encode_utf8(child_path_chars(dir_path, cs.last().name())));
            assert((v as nat) % nv < nv);
        }
    }
}

proof fn lemma_sum_bucket_empty(cs: Seq<HeaderView>, dir_path: Seq<char>, nv: nat, upto: nat)
    requires
        cs.len() == 0,
    ensures
        sum_bucket_lens(cs, dir_path, nv, upto) == 0,
    decreases upto,
{
    if upto > 0 {
        lemma_sum_bucket_empty(cs, dir_path, nv, (upto - 1) as nat);
        let b = (upto - 1) as nat;
        let pred = |c: HeaderView| spec_bucket(dir_path, c.name(), nv) == b;
        assert(cs.filter(pred) =~= Seq::<HeaderView>::empty());
    }
}

/// Whether a run of child headers holds a directory of this name.
pub open spec fn has_dir_child(hs: Seq<HeaderView>, name: Seq<char>) -> bool {
    exists|j: int| 0 <= j < hs.len() && (#[trigger] hs[j]) is Directory && hs[j].name() == name
}

/// The path of the directory `upto` segments deep along an entry's
/// segment list, starting from `base` at depth `from`.
pub open spec fn prefix_path(base: Seq<char>, segs: Seq<Seq<char>>, from: int, upto: int) -> Seq<
    char,
>
    decreases upto - from,
{
    if upto <= from {
        base
    } else {
        child_path_chars(prefix_path(base, segs, from, (upto - 1) as int), segs[upto - 1])
    }
}

/// Stepping the base one segment down shifts the starting depth.
proof fn lemma_prefix_path_step(base: Seq<char>, segs: Seq<Seq<char>>, from: int, upto: int)
    requires
        from < upto,
    ensures
        prefix_path(base, segs, from, upto) == prefix_path(
            child_path_chars(base, segs[from]),
            segs,
            from + 1,
            upto,
        ),
    decreases upto - from,
{
    let cp = child_path_chars(base, segs[from]);
    if from + 1 == upto {
        assert(prefix_path(base, segs, from, upto) == child_path_chars(
            prefix_path(base, segs, from, from),
            segs[from],
        ));
        assert(prefix_path(cp, segs, from + 1, upto) == cp);
    } else {
        lemma_prefix_path_step(base, segs, from, upto - 1);
        assert(prefix_path(base, segs, from, upto) == child_path_chars(
            prefix_path(base, segs, from, upto - 1),
            segs[upto - 1],
        ));
        assert(prefix_path(cp, segs, from + 1, upto) == child_path_chars(
            prefix_path(cp, segs, from + 1, upto - 1),
            segs[upto - 1],
        ));
    }
}

/// A joined run of nonempty segments is nonempty.
proof fn lemma_spec_join_nonempty(ss: Seq<Seq<char>>)
    requires
        ss.len() > 0,
        forall|i: int| 0 <= i < ss.len() ==> (#[trigger] ss[i]).len() > 0,
    ensures
        crate::paths::spec_join(ss).len() > 0,
    decreases ss.len(),
{
    if ss.len() > 1 {
        lemma_spec_join_nonempty(ss.drop_last());
        assert(forall|i: int|
            0 <= i < ss.drop_last().len() ==> (#[trigger] ss.drop_last()[i]).len() > 0);
    }
}

/// From the root, the prefix path is the join of the first segments.
proof fn lemma_prefix_path_join(segs: Seq<Seq<char>>, upto: int)
    requires
        0 <= upto <= segs.len(),
        forall|i: int| 0 <= i < segs.len() ==> (#[trigger] segs[i]).len() > 0,
    ensures
        prefix_path(Seq::<char>::empty(), segs, 0, upto) == crate::paths::spec_join(
            segs.take(upto),
        ),
    decreases upto,
{
    if upto == 0 {
        assert(segs.take(0) =~= Seq::<Seq<char>>::empty());
    } else {
        lemma_prefix_path_join(segs, upto - 1);
        let t = segs.take(upto);
        assert(t.drop_last() =~= segs.take(upto - 1));
        assert(t.last() == segs[upto - 1]);
        if upto == 1 {
            assert(crate::paths::spec_join(t) == t[0]);
        } else {
            assert(forall|i: int|
                0 <= i < t.drop_last().len() ==> (#[trigger] t.drop_last()[i]).len() > 0);
            lemma_spec_join_nonempty(t.drop_last());
            assert(crate::paths::spec_join(t) == crate::paths::spec_join(t.drop_last())
                + seq!['/'] + t.last());
        }
    }
}

/// Every directory entry lands in exactly the bucket its path digest
/// names: bucket `b` holds only entries whose digest is `b` modulo the
/// bucket count, and the buckets together hold every entry — their
/// sizes sum to the entry count.
pub proof fn lemma_vnode_bucket_rule(cs: Seq<HeaderView>, dir_path: Seq<char>, nv: nat)
    requires
        nv > 0,
    ensures
        forall|b: nat, i: int|
            b < nv && 0 <= i < bucket_filter(cs, dir_path, nv, b).len() ==> spec_bucket(
                dir_path,
                (#[trigger] bucket_filter(cs, dir_path, nv, b)[i]).name(),
                nv,
            ) == b,
        sum_bucket_lens(cs, dir_path, nv, nv) == cs.len(),
{
    assert forall|b: nat, i: int|
        b < nv && 0 <= i < bucket_filter(cs, dir_path, nv, b).len() implies spec_bucket(
        dir_path,
        (#[trigger] bucket_filter(cs, dir_path, nv, b)[i]).name(),
        nv,
    ) == b by {
        let pred = |c: HeaderView| spec_bucket(dir_path, c.name(), nv) == b;
        cs.lemma_filter_pred(pred, i);
    }
    lemma_bucket_partition(cs, dir_path, nv);
}

/// Every entry of a filtered run stands somewhere in the run itself.
proof fn lemma_filter_elem_of(cs: Seq<HeaderView>, pred: spec_fn(HeaderView) -> bool, i: int)
    requires
        0 <= i < cs.filter(pred).len(),
    ensures
        exists|k: int| 0 <= k < cs.len() && cs[k] == cs.filter(pred)[i],
    decreases cs.len(),
{
    reveal(Seq::filter);
    if cs.len() > 0 {
        let d = cs.drop_last();
        if pred(cs.last()) && i == cs.filter(pred).len() - 1 {
            assert(cs[cs.len() - 1] == cs.filter(pred)[i]);
        } else {
            lemma_filter_elem_of(d, pred, i);
            let k = choose|k: int| 0 <= k < d.len() && d[k] == d.filter(pred)[i];
            assert(cs[k] == cs.filter(pred)[i]);
        }
    }
}

/// Filtering keeps a name-sorted run name-sorted.
proof fn lemma_filter_sorted(cs: Seq<HeaderView>, pred: spec_fn(HeaderView) -> bool)
    requires
        forall|i: int, j: int|
            0 <= i < j < cs.len() ==> crate::paths::chars_le(
                (#[trigger] cs[i]).name(),
                (#[trigger] cs[j]).name(),
            ),
    ensures
        forall|i: int, j: int|
            0 <= i < j < cs.filter(pred).len() ==> crate::paths::chars_le(
                (#[trigger] cs.filter(pred)[i]).name(),
                (#[trigger] cs.filter(pred)[j]).name(),
            ),
    decreases cs.len(),
{
    reveal(Seq::filter);
    if cs.len() > 0 {
        let d = cs.drop_last();
        lemma_filter_sorted(d, pred);
        assert forall|i: int, j: int|
            0 <= i < j < cs.filter(pred).len() implies crate::paths::chars_le(
            (#[trigger] cs.filter(pred)[i]).name(),
            (#[trigger] cs.filter(pred)[j]).name(),
        ) by {
            if pred(cs.last()) && j == cs.filter(pred).len() - 1 {
                lemma_filter_elem_of(d, pred, i);
                let k = choose|k: int| 0 <= k < d.len() && d[k] == d.filter(pred)[i];
                assert(cs[k] == cs.filter(pred)[i]);
                assert(crate::paths::chars_le(cs[k].name(), cs[cs.len() - 1].name()));
            } else {
                assert(cs.filter(pred)[i] == d.filter(pred)[i]);
                assert(cs.filter(pred)[j] == d.filter(pred)[j]);
            }
        }
    }
}

/// A name-sorted entry run keeps its order inside every VNode bucket:
/// the bucket's entries stand in the same relative name order.
pub proof fn lemma_vnode_bucket_order(cs: Seq<HeaderView>, dir_path: Seq<char>, nv: nat, b: nat)
    requires
        forall|i: int, j: int|
            0 <= i < j < cs.len() ==> crate::paths::chars_le(
                (#[trigger] cs[i]).name(),
                (#[trigger] cs[j]).name(),
            ),
    ensures
        forall|i: int, j: int|
            0 <= i < j < bucket_filter(cs, dir_path, nv, b).len() ==> crate::paths::chars_le(
                (#[trigger] bucket_filter(cs, dir_path, nv, b)[i]).name(),
                (#[trigger] bucket_filter(cs, dir_path, nv, b)[j]).name(),
            ),
{
    let pred = |c: HeaderView| spec_bucket(dir_path, c.name(), nv) == b;
    lemma_filter_sorted(cs, pred);
}

/// A by-name scan over a run of loaded entries succeeds exactly when
/// one of them carries the name, and then returns the first such entry.
proof fn lemma_find_name_some(vs: Seq<crate::node::NodeView>, n: Seq<char>)
    ensures
        (crate::tree_node::spec_find_name(vs, n) is Some) <==> (exists|j: int|
            0 <= j < vs.len() && (#[trigger] vs[j]).header.name() == n),
        crate::tree_node::spec_find_name(vs, n) matches Some(r) ==> exists|j: int|
            0 <= j < vs.len() && (#[trigger] vs[j]) == r && vs[j].header.name() == n,
    decreases vs.len(),
{
    if vs.len() > 0 {
        if vs[0].header.name() == n {
        } else {
            lemma_find_name_some(vs.drop_first(), n);
            if exists|j: int| 0 <= j < vs.len() && (#[trigger] vs[j]).header.name() == n {
                let j = choose|j: int| 0 <= j < vs.len() && (#[trigger] vs[j]).header.name() == n;
                assert(vs.drop_first()[j - 1].header.name() == n);
            }
            match crate::tree_node::spec_find_name(vs, n) {
                Some(r) => {
                    let j = choose|j: int|
                        0 <= j < vs.drop_first().len() && (#[trigger] vs.drop_first()[j]) == r
                            && vs.drop_first()[j].header.name() == n;
                    assert(vs[j + 1] == r);
                },
                None => {},
            }
        }
    }
}

/// A directory entry is found in its own VNode and in no other: when a
/// VNode's loaded entries carry exactly the headers of bucket `b` of an
/// entry run, looking a name up there succeeds exactly when the run
/// holds an entry of that name whose path digest names bucket `b`, and
/// what is found carries that name and is one of the run's entries.
pub proof fn lemma_bucket_lookup(
    vs: Seq<crate::node::NodeView>,
    cs: Seq<HeaderView>,
    dir_path: Seq<char>,
    nv: nat,
    b: nat,
    n: Seq<char>,
)
    requires
        nv > 0,
        b < nv,
        vs.len() == bucket_filter(cs, dir_path, nv, b).len(),
        forall|i: int|
            0 <= i < vs.len() ==> (#[trigger] vs[i]).header == bucket_filter(
                cs,
                dir_path,
                nv,
                b,
            )[i],
    ensures
        (crate::tree_node::spec_find_name(vs, n) is Some) <==> (spec_bucket(dir_path, n, nv) == b
            && exists|i: int| 0 <= i < cs.len() && (#[trigger] cs[i]).name() == n),
        crate::tree_node::spec_find_name(vs, n) matches Some(r) ==> r.header.name() == n
            && (exists|i: int| 0 <= i < cs.len() && #[trigger] cs[i] == r.header),
{
    let pred = |c: HeaderView| spec_bucket(dir_path, c.name(), nv) == b;
    let bf = bucket_filter(cs, dir_path, nv, b);
    lemma_find_name_some(vs, n);
    match crate::tree_node::spec_find_name(vs, n) {
        Some(r) => {
            let j = choose|j: int|
                0 <= j < vs.len() && (#[trigger] vs[j]) == r && vs[j].header.name() == n;
            assert(r.header == bf[j]);
            cs.lemma_filter_pred(pred, j);
            lemma_filter_elem_of(cs, pred, j);
            let k = choose|k: int| 0 <= k < cs.len() && cs[k] == bf[j];
            assert(cs[k].name() == n);
            assert(spec_bucket(dir_path, n, nv) == b);
        },
        None => {},
    }
    if spec_bucket(dir_path, n, nv) == b && exists|i: int|
        0 <= i < cs.len() && (#[trigger] cs[i]).name() == n {
        let i = choose|i: int| 0 <= i < cs.len() && (#[trigger] cs[i]).name() == n;
        cs.filter_lemma(pred);
        assert(pred(cs[i]));
        assert(bf.contains(cs[i]));
        let j = choose|j: int| 0 <= j < bf.len() && bf[j] == cs[i];
        assert(vs[j].header.name() == n);
    }
}

/// Structural sharing under a one-file change: when two entry lists
/// differ in a single entry whose name (and so whose bucket `b`) is the
/// same in both, every bucket other than `b` holds identical entries —
/// so every sibling VNode keeps its prior hash.
pub proof fn lemma_sibling_vnodes_stable(
    c1: Seq<HeaderView>,
    c2: Seq<HeaderView>,
    dir_path: Seq<char>,
    nv: nat,
    j: int,
    b2: nat,
)
    requires
        nv > 0,
        c1.len() == c2.len(),
        0 <= j < c1.len(),
        forall|i: int| 0 <= i < c1.len() && i != j ==> c1[i] == c2[i],
        c1[j].name() == c2[j].name(),
        b2 != spec_bucket(dir_path, c1[j].name(), nv),
        b2 < nv,
    ensures
        bucket_filter(c1, dir_path, nv, b2) == bucket_filter(c2, dir_path, nv, b2),
        crate::codec::vnode_hash_of(bucket_filter(c1, dir_path, nv, b2))
            == crate::codec::vnode_hash_of(bucket_filter(c2, dir_path, nv, b2)),
{
    lemma_filter_skip_one(c1, c2, dir_path, nv, j, b2, c1.len() as int);
    assert(c1.subrange(0, c1.len() as int) =~= c1);
    assert(c2.subrange(0, c2.len() as int) =~= c2);
}

/// Filter equality on prefixes, skipping the changed position.
proof fn lemma_filter_skip_one(
    c1: Seq<HeaderView>,
    c2: Seq<HeaderView>,
    dir_path: Seq<char>,
    nv: nat,
    j: int,
    b2: nat,
    upto: int,
)
    requires
        nv > 0,
        c1.len() == c2.len(),
        0 <= j < c1.len(),
        forall|i: int| 0 <= i < c1.len() && i != j ==> c1[i] == c2[i],
        c1[j].name() == c2[j].name(),
        b2 != spec_bucket(dir_path, c1[j].name(), nv),
        0 <= upto <= c1.len(),
    ensures
        bucket_filter(c1.subrange(0, upto), dir_path, nv, b2) == bucket_filter(
            c2.subrange(0, upto),
            dir_path,
            nv,
            b2,
        ),
    decreases upto,
{
    let pred = |c: HeaderView| spec_bucket(dir_path, c.name(), nv) == b2;
    if upto == 0 {
        assert(c1.subrange(0, 0) =~= c2.subrange(0, 0));
    } else {
        lemma_filter_skip_one(c1, c2, dir_path, nv, j, b2, upto - 1);
        let p1 = c1.subrange(0, upto - 1);
        let p2 = c2.subrange(0, upto - 1);
        assert(c1.subrange(0, upto) =~= p1.push(c1[upto - 1]));
        assert(c2.subrange(0, upto) =~= p2.push(c2[upto - 1]));
        p1.lemma_filter_push(c1[upto - 1], pred);
        p2.lemma_filter_push(c2[upto - 1], pred);
        if upto - 1 == j {
            assert(!pred(c1[upto - 1]));
            assert(!pred(c2[upto - 1]));
        } else {
            assert(c1[upto - 1] == c2[upto - 1]);
        }
    }
}

/// A fully built node whose own DB is not yet written: its parent hash
/// is known only to the builder one level up.
pub struct PendingNode {
    pub hash: u128,
    pub payload: EMerkleTreeNode,
    pub children: Vec<EMerkleTreeNode>,
}

/// Ghost mirror of [`PendingNode`].
#[verifier::ext_equal]
pub struct PendingNodeView {
    pub hash: u128,
    pub payload: HeaderView,
    pub children: Seq<HeaderView>,
}

impl View for PendingNode {
    type V = PendingNodeView;

    open spec fn view(&self) -> PendingNodeView {
        PendingNodeView {
            hash: self.hash,
            payload: self.payload@,
            children: headers_view(self.children@),
        }
    }
}

/// What holds of a pending directory: its payload names it, its VNode
/// children are already stored with matching payloads and ranks, and its
/// record has directory shape.
pub open spec fn pending_ok(
    p: PendingNodeView,
    dbs: Map<u128, DbView>,
    rank: Map<u128, nat>,
    vsz: u64,
) -> bool {
    &&& p.payload is Directory
    &&& p.payload.id() == p.hash
    &&& db_shape_ok(DbView { payload: p.payload, parent: None, children: p.children }, vsz)
    &&& forall|i: int|
        0 <= i < p.children.len() ==> ({
            let c = #[trigger] p.children[i];
            &&& c is VNode
            &&& dbs.contains_key(c.id())
            &&& dbs[c.id()].payload == c
            &&& rank.contains_key(c.id())
        })
}

/// The joined path string of an entry inside a directory.
pub(crate) fn child_path_string(dir_path: &str, name: &str) -> (r: String)
    ensures
        r@ == child_path_chars(dir_path@, name@),
{
    if dir_path.is_empty() {
        name.to_owned()
    } else {
        let sep = crate::text::str_concat(dir_path, "/");
        let r = crate::text::str_concat(sep.as_str(), name);
        proof {
            reveal_strlit("/");
            assert("/"@ =~= seq!['/']);
            assert(r@ =~= dir_path@ + seq!['/'] + name@);
        }
        r
    }
}

/// The bucket an entry of this directory falls into.
fn bucket_of(dir_path: &str, name: &str, nv: u64) -> (b: u64)
    requires
        nv >= 1,
    ensures
        b == spec_bucket(dir_path@, name@, nv as nat),
        b < nv,
{
    let full = child_path_string(dir_path, name);
    let hv = hash_buffer_128bit(full.as_str().as_bytes());
    let b128: u128 = hv % (nv as u128);
    proof {
        assert((hv as nat) % (nv as nat) == (hv % (nv as u128)) as nat);
        assert(b128 < nv as u128);
    }
    b128 as u64
}

/// Build the directory at `dir_path` from the staged entries below it
/// (each entry's segments beyond `seg_from` are relative to it), writing
/// every descendant's DB and recording every built directory in the
/// dir-hashes accumulator. The directory's own DB is returned pending,
/// for the caller to write under its parent.
#[verifier::rlimit(100)]
#[verifier::spinoff_prover]
fn build_dir(
    dbs: &mut NodeDbs,
    cache: &mut NodeCache,
    rank: &mut Ghost<Map<u128, nat>>,
    vsz: u64,
    entries: &Vec<StagedFile>,
    seg_from: usize,
    dir_path: &str,
    dir_name: &str,
    kmax: usize,
    dh: &mut crate::repo::DirHashes,
) -> (r: Result<PendingNode, OxenError>)
    requires
        vsz >= 1,
        build_inv(old(dbs), old(cache), old(rank)@, vsz),
        old(dh).wf(),
        forall|i: int|
            0 <= i < entries@.len() ==> seg_from < (#[trigger] entries@[i])@.segments.len()
                <= kmax,
    ensures
        build_inv(final(dbs), final(cache), final(rank)@, vsz),
        final(dh).wf(),
        forall|k: u128|
            #[trigger] old(dbs).view_map().contains_key(k) ==> final(dbs).view_map().contains_key(
                k,
            ) && final(dbs).view_map()[k] == old(dbs).view_map()[k] && nrank_of(final(rank)@, k)
                == nrank_of(old(rank)@, k),
        forall|k: Seq<char>|
            #[trigger] old(dh).view_map().contains_key(k) ==> final(dh).view_map().contains_key(k),
        forall|k: Seq<char>|
            #[trigger] final(dh).view_map().contains_key(k) ==> old(dh).view_map().contains_key(k)
                || k == dir_path@ || (exists|ii: int, L: int|
                #![trigger prefix_path(dir_path@, entries@[ii]@.segments, seg_from as int, L)]
                0 <= ii < entries@.len() && seg_from < L < entries@[ii]@.segments.len() && k
                    == prefix_path(dir_path@, entries@[ii]@.segments, seg_from as int, L)),
        match r {
            Ok(p) => pending_ok(p@, final(dbs).view_map(), final(rank)@, vsz) && final(dh).view_map().contains_key(dir_path@) && final(dh).view_map()[dir_path@].value == p@.hash
                && p@.payload.name() == dir_name@ && (forall|k: Seq<char>|
                #[trigger] final(dh).view_map().contains_key(k) ==> (old(dh).view_map().contains_key(k) && final(dh).view_map()[k] == old(dh).view_map()[k]) || (final(dbs).view_map().contains_key(final(dh).view_map()[k].value)
                    && final(dbs).view_map()[final(dh).view_map()[k].value].payload is Directory)
                    || final(dh).view_map()[k].value == p@.hash) && (forall|ii: int, L: int|
                #![trigger prefix_path(dir_path@, entries@[ii]@.segments, seg_from as int, L)]
                0 <= ii < entries@.len() && seg_from < L < entries@[ii]@.segments.len()
                    ==> final(dh).view_map().contains_key(
                    prefix_path(dir_path@, entries@[ii]@.segments, seg_from as int, L),
                )),
            Err(e) => e.spec_kind() == OxenErrorKind::Corrupted,
        },
    decreases kmax - seg_from,
{
    let ghost dbs_in = dbs.view_map();
    let ghost rank_in = rank@;
    // gather the direct children: file headers, and recursively built
    // subdirectory headers, in first-appearance (sorted) order
    let mut children: Vec<EMerkleTreeNode> = Vec::new();
    let mut pendings: Vec<PendingNode> = Vec::new();
    let mut num_files: u64 = 0;
    let mut total_bytes: u64 = 0;
    let mut i: usize = 0;
    while i < entries.len()
        invariant
            vsz >= 1,
            dbs_in == old(dbs).view_map(),
            rank_in == old(rank)@,
            build_inv(dbs, cache, rank@, vsz),
            dh.wf(),
            i <= entries@.len(),
            forall|ii: int|
                0 <= ii < entries@.len() ==> seg_from < (#[trigger] entries@[ii])@.segments.len()
                    <= kmax,
            forall|k: u128|
                #[trigger] dbs_in.contains_key(k) ==> dbs.view_map().contains_key(k)
                    && dbs.view_map()[k] == dbs_in[k] && nrank_of(rank@, k) == nrank_of(rank_in, k),
            forall|k: Seq<char>|
                #[trigger] dh.view_map().contains_key(k) ==> (old(dh).view_map().contains_key(k)
                    && dh.view_map()[k] == old(dh).view_map()[k]) || (dbs.view_map().contains_key(
                    dh.view_map()[k].value,
                ) && dbs.view_map()[dh.view_map()[k].value].payload is Directory) || (exists|
                    pj: int,
                |
                    0 <= pj < pendings@.len() && dh.view_map()[k].value == (
                    #[trigger] pendings@[pj])@.hash),
            forall|k: Seq<char>|
                #[trigger] old(dh).view_map().contains_key(k) ==> dh.view_map().contains_key(k),
            forall|k: Seq<char>|
                #[trigger] dh.view_map().contains_key(k) ==> old(dh).view_map().contains_key(k)
                    || (exists|ii: int, L: int|
                    #![trigger prefix_path(dir_path@, entries@[ii]@.segments, seg_from as int, L)]
                    0 <= ii < entries@.len() && seg_from < L < entries@[ii]@.segments.len() && k
                        == prefix_path(
                        dir_path@,
                        entries@[ii]@.segments,
                        seg_from as int,
                        L,
                    )),
            forall|ii: int|
                0 <= ii < i && (#[trigger] entries@[ii])@.segments.len() > seg_from + 1
                    ==> has_dir_child(
                    headers_view(children@),
                    entries@[ii]@.segments[seg_from as int],
                ),
            forall|ii: int, L: int|
                #![trigger prefix_path(dir_path@, entries@[ii]@.segments, seg_from as int, L)]
                0 <= ii < entries@.len() && seg_from < L < entries@[ii]@.segments.len()
                    && has_dir_child(
                    headers_view(children@),
                    entries@[ii]@.segments[seg_from as int],
                ) ==> dh.view_map().contains_key(
                    prefix_path(dir_path@, entries@[ii]@.segments, seg_from as int, L),
                ),
            forall|j: int|
                0 <= j < headers_view(children@).len() ==> ((#[trigger] headers_view(
                    children@,
                )[j]) is File || headers_view(children@)[j] is Directory),
            forall|j: int|
                0 <= j < headers_view(children@).len() ==> (headers_view(children@)[j] is Directory
                    ==> exists|pj: int|
                    0 <= pj < pendings@.len() && (#[trigger] pendings@[pj]@.payload)
                        == headers_view(children@)[j] && pendings@[pj]@.hash == headers_view(
                        children@,
                    )[j].id()),
            forall|pj: int|
                0 <= pj < pendings@.len() ==> pending_ok(
                    (#[trigger] pendings@[pj])@,
                    dbs.view_map(),
                    rank@,
                    vsz,
                ),
        decreases entries@.len() - i,
    {
        let e = &entries[i];
        proof {
            assert(entries@[i as int]@.segments.len() > seg_from);
            assert(e@.segments == e.segments.deep_view());
            assert(e.segments.deep_view().len() == e.segments@.len());
        }
        if e.segments.len() == seg_from + 1 {
            let f = FileNode {
                hash: e.hash,
                name: e.segments[seg_from].clone(),
                size: e.size,
                mime: "".to_owned(),
                last_modified_s: e.last_modified_s,
                last_modified_ns: e.last_modified_ns,
                chunk_hashes: None,
                metadata: None,
            };
            let ghost pre = headers_view(children@);
            children.push(EMerkleTreeNode::File(f));
            num_files = num_files.saturating_add(1);
            total_bytes = total_bytes.saturating_add(e.size);
            proof {
                assert(headers_view(children@) =~= pre.push(children@.last()@));
                assert(children@.last()@ is File);
                assert forall|n: Seq<char>| #[trigger] has_dir_child(
                    headers_view(children@),
                    n,
                ) implies has_dir_child(pre, n) by {
                    let j = choose|j: int|
                        0 <= j < headers_view(children@).len() && (#[trigger] headers_view(
                            children@,
                        )[j]) is Directory && headers_view(children@)[j].name() == n;
                    assert(j < pre.len());
                    assert(pre[j] == headers_view(children@)[j]);
                }
                assert forall|n: Seq<char>| #[trigger] has_dir_child(pre, n) implies has_dir_child(
                    headers_view(children@),
                    n,
                ) by {
                    let j = choose|j: int|
                        0 <= j < pre.len() && (#[trigger] pre[j]) is Directory && pre[j].name()
                            == n;
                    assert(headers_view(children@)[j] == pre[j]);
                }
            }
        } else {
            // a subdirectory entry: build the subdirectory once
            let name = e.segments[seg_from].clone();
            proof {
                assert(e.segments.deep_view()[seg_from as int] == e.segments@[seg_from as int]@);
                assert(entries@[i as int]@.segments[seg_from as int] == name@);
            }
            let mut seen = false;
            let mut ci: usize = 0;
            while ci < children.len()
                invariant
                    ci <= children@.len(),
                    seen ==> exists|j: int|
                        0 <= j < headers_view(children@).len() && (#[trigger] headers_view(
                            children@,
                        )[j]) is Directory && headers_view(children@)[j].name() == name@,
                decreases children@.len() - ci,
            {
                let c = &children[ci];
                if matches!(c, EMerkleTreeNode::Directory(_)) && crate::text::str_eq(
                    c.name_str(),
                    name.as_str(),
                ) {
                    proof {
                        assert(headers_view(children@)[ci as int] == children@[ci as int]@);
                    }
                    seen = true;
                }
                ci = ci + 1;
            }
            if !seen {
                // collect every entry of this subdirectory
                let mut sub: Vec<StagedFile> = Vec::new();
                let mut k: usize = 0;
                while k < entries.len()
                    invariant
                        k <= entries@.len(),
                        forall|ii: int|
                            0 <= ii < entries@.len() ==> seg_from < (
                            #[trigger] entries@[ii])@.segments.len() <= kmax,
                        forall|sj: int|
                            0 <= sj < sub@.len() ==> seg_from + 1 < (
                            #[trigger] sub@[sj])@.segments.len() <= kmax,
                        forall|ii: int|
                            0 <= ii < k && (#[trigger] entries@[ii])@.segments.len() > seg_from + 1
                                && entries@[ii]@.segments[seg_from as int] == name@ ==> exists|
                                sj: int,
                            |
                                0 <= sj < sub@.len() && (#[trigger] sub@[sj])@ == entries@[ii]@,
                        forall|sj: int|
                            0 <= sj < sub@.len() ==> exists|ii: int|
                                0 <= ii < entries@.len() && (#[trigger] sub@[sj])@ == entries@[ii]@
                                    && entries@[ii]@.segments[seg_from as int] == name@,
                    decreases entries@.len() - k,
                {
                    let e2 = &entries[k];
                    let ghost sub_pre = sub@;
                    proof {
                        assert(e2@.segments == e2.segments.deep_view());
                        assert(e2.segments.deep_view().len() == e2.segments@.len());
                        if e2.segments@.len() > seg_from + 1 {
                            assert(e2.segments.deep_view()[seg_from as int] == e2.segments@[
                                seg_from as int]@);
                        }
                    }
                    if e2.segments.len() > seg_from + 1 {
                        if crate::text::str_eq(e2.segments[seg_from].as_str(), name.as_str()) {
                            let cloned = e2.clone();
                            proof {
                                assert(cloned@ == entries@[k as int]@);
                            }
                            sub.push(cloned);
                            proof {
                                assert(sub@[sub@.len() - 1]@ == entries@[k as int]@);
                                assert forall|ii: int|
                                    0 <= ii < k + 1 && (#[trigger] entries@[ii])@.segments.len()
                                        > seg_from + 1 && entries@[ii]@.segments[seg_from as int]
                                        == name@ implies exists|sj: int|
                                    0 <= sj < sub@.len() && (#[trigger] sub@[sj])@
                                        == entries@[ii]@ by {
                                    if ii < k {
                                        let sj = choose|sj: int|
                                            0 <= sj < sub_pre.len() && (#[trigger] sub_pre[sj])@
                                                == entries@[ii]@;
                                        assert(sub@[sj]@ == entries@[ii]@);
                                    } else {
                                        assert(sub@[sub@.len() - 1]@ == entries@[ii]@);
                                    }
                                }
                            }
                        }
                    }
                    k = k + 1;
                }
                proof {
                    // the current entry belongs to its own subdirectory
                    assert(entries@[i as int]@.segments.len() > seg_from + 1);
                    assert(entries@[i as int]@.segments[seg_from as int] == name@);
                    assert(sub@.len() > 0);
                }
                let child_path = child_path_string(dir_path, name.as_str());
                let ghost dbs_pre = dbs.view_map();
                let ghost rank_pre = rank@;
                let ghost pend_pre = pendings@;
                let ghost dh_pre = dh.view_map();
                let built = build_dir(
                    dbs,
                    cache,
                    rank,
                    vsz,
                    &sub,
                    seg_from + 1,
                    child_path.as_str(),
                    name.as_str(),
                    kmax,
                    dh,
                );
                proof {
                    assert forall|k: u128| dbs_in.contains_key(k) implies
                        dbs.view_map().contains_key(k) && dbs.view_map()[k] == dbs_in[k]
                        && nrank_of(rank@, k) == nrank_of(rank_in, k) by {
                        assert(dbs_pre.contains_key(k) && dbs_pre[k] == dbs_in[k]);
                        assert(nrank_of(rank_pre, k) == nrank_of(rank_in, k));
                    }
                    assert forall|pj: int| 0 <= pj < pendings@.len() implies pending_ok(
                        (#[trigger] pendings@[pj])@,
                        dbs.view_map(),
                        rank@,
                        vsz,
                    ) by {
                        assert(pending_ok(pendings@[pj]@, dbs_pre, rank_pre, vsz));
                        assert forall|ci2: int|
                            0 <= ci2 < pendings@[pj]@.children.len() implies ({
                            let c = #[trigger] pendings@[pj]@.children[ci2];
                            &&& c is VNode
                            &&& dbs.view_map().contains_key(c.id())
                            &&& dbs.view_map()[c.id()].payload == c
                            &&& rank@.contains_key(c.id())
                        }) by {
                            let c = pendings@[pj]@.children[ci2];
                            assert(dbs_pre.contains_key(c.id()));
                            assert(dbs.view_map().contains_key(c.id()));
                            assert(db_ok(dbs.view_map(), rank@, vsz, c.id()));
                        }
                    }
                }
                proof {
                    assert forall|k: Seq<char>| #[trigger] dh.view_map().contains_key(
                        k,
                    ) implies old(dh).view_map().contains_key(k) || (exists|ii: int, L: int|
                        #![trigger prefix_path(dir_path@, entries@[ii]@.segments, seg_from as int, L)]
                        0 <= ii < entries@.len() && seg_from < L < entries@[ii]@.segments.len()
                            && k == prefix_path(
                            dir_path@,
                            entries@[ii]@.segments,
                            seg_from as int,
                            L,
                        )) by {
                        if dh_pre.contains_key(k) {
                        } else if k == child_path@ {
                            let segs = entries@[i as int]@.segments;
                            assert(segs[seg_from as int] == name@);
                            assert(prefix_path(dir_path@, segs, seg_from as int, seg_from as int)
                                == dir_path@);
                            assert(prefix_path(
                                dir_path@,
                                segs,
                                seg_from as int,
                                seg_from as int + 1,
                            ) == child_path_chars(dir_path@, name@));
                            assert(k == prefix_path(
                                dir_path@,
                                segs,
                                seg_from as int,
                                seg_from as int + 1,
                            ));
                        } else {
                            let (sj, L) = choose|sj: int, L: int|
                                #![trigger prefix_path(child_path@, sub@[sj]@.segments, (seg_from + 1) as int, L)]
                                0 <= sj < sub@.len() && seg_from + 1 < L < sub@[
                                    sj]@.segments.len() && k == prefix_path(
                                    child_path@,
                                    sub@[sj]@.segments,
                                    (seg_from + 1) as int,
                                    L,
                                );
                            let ii = choose|ii: int|
                                0 <= ii < entries@.len() && (#[trigger] sub@[sj])@ == entries@[ii]@
                                    && entries@[ii]@.segments[seg_from as int] == name@;
                            let segs = entries@[ii]@.segments;
                            assert(sub@[sj]@.segments == segs);
                            lemma_prefix_path_step(dir_path@, segs, seg_from as int, L);
                            assert(child_path_chars(dir_path@, segs[seg_from as int])
                                == child_path@);
                            assert(k == prefix_path(dir_path@, segs, seg_from as int, L));
                        }
                    }
                }
                let pending = match built {
                    Ok(p) => p,
                    Err(e2) => {
                        return Err(e2);
                    },
                };
                let sub_hdr = pending.payload.clone();
                match &sub_hdr {
                    EMerkleTreeNode::Directory(d) => {
                        num_files = num_files.saturating_add(d.num_files);
                        total_bytes = total_bytes.saturating_add(d.total_bytes);
                    },
                    _ => {
                        proof {
                            assert(false);
                        }
                    },
                }
                let ghost pre = headers_view(children@);
                let ghost pre_pend = pendings@;
                let ghost built_hash = pending.hash;
                children.push(sub_hdr);
                pendings.push(pending);
                proof {
                    assert(headers_view(children@) =~= pre.push(children@.last()@));
                    assert(pendings@.drop_last() =~= pre_pend);
                    assert(children@.last()@ == pendings@.last()@.payload);
                    assert(pendings@.last()@.hash == built_hash);
                    assert forall|k: Seq<char>|
                        #[trigger] dh.view_map().contains_key(k) implies ((old(dh).view_map().contains_key(k) && dh.view_map()[k] == old(dh).view_map()[k]) || (
                    dbs.view_map().contains_key(dh.view_map()[k].value) && dbs.view_map()[
                        dh.view_map()[k].value].payload is Directory) || (exists|pj: int|
                        0 <= pj < pendings@.len() && dh.view_map()[k].value == (
                        #[trigger] pendings@[pj])@.hash)) by {
                        if dh_pre.contains_key(k) && dh.view_map()[k] == dh_pre[k] {
                            // an entry from before the recursion: lift its
                            // old classification through the extensions
                            if old(dh).view_map().contains_key(k) && dh_pre[k] == old(dh).view_map()[k] {
                            } else if dbs_pre.contains_key(dh_pre[k].value) && dbs_pre[
                                dh_pre[k].value].payload is Directory {
                                assert(dbs.view_map().contains_key(dh_pre[k].value));
                                assert(dbs.view_map()[dh_pre[k].value] == dbs_pre[
                                    dh_pre[k].value]);
                            } else {
                                let pj = choose|pj: int|
                                    0 <= pj < pend_pre.len() && dh_pre[k].value == (
                                    #[trigger] pend_pre[pj])@.hash;
                                assert(pendings@[pj]@.hash == dh_pre[k].value);
                            }
                        } else {
                            // an entry the recursion added
                            assert(dbs.view_map().contains_key(dh.view_map()[k].value)
                                && dbs.view_map()[dh.view_map()[k].value].payload is Directory
                                || dh.view_map()[k].value == built_hash);
                            if dh.view_map()[k].value == built_hash {
                                let pj = pendings@.len() - 1;
                                assert(pendings@[pj]@.hash == dh.view_map()[k].value);
                            }
                        }
                    }
                    assert forall|j: int|
                        0 <= j < headers_view(children@).len() && headers_view(
                            children@,
                        )[j] is Directory implies exists|pj: int|
                        0 <= pj < pendings@.len() && (#[trigger] pendings@[pj]@.payload)
                            == headers_view(children@)[j] && pendings@[pj]@.hash == headers_view(
                            children@,
                        )[j].id() by {
                        if j < pre.len() {
                            let pj = choose|pj: int|
                                0 <= pj < pre_pend.len() && (#[trigger] pre_pend[pj]@.payload)
                                    == pre[j] && pre_pend[pj]@.hash == pre[j].id();
                            assert(pendings@[pj]@.payload == headers_view(children@)[j]);
                        } else {
                            let pj = pendings@.len() - 1;
                            assert(pendings@[pj]@.payload == headers_view(children@)[j]);
                        }
                    }
                    // the pushed child is the directory just built
                    assert(headers_view(children@)[pre.len() as int] == children@.last()@);
                    assert(children@.last()@.name() == name@);
                    assert(children@.last()@ is Directory);
                    assert(has_dir_child(headers_view(children@), name@));
                    assert forall|n: Seq<char>| #[trigger] has_dir_child(pre, n) implies has_dir_child(
                        headers_view(children@),
                        n,
                    ) by {
                        let j2 = choose|j2: int|
                            0 <= j2 < pre.len() && (#[trigger] pre[j2]) is Directory && pre[
                                j2].name() == n;
                        assert(headers_view(children@)[j2] == pre[j2]);
                    }
                    assert forall|k: Seq<char>| #[trigger] dh_pre.contains_key(k) implies dh.view_map().contains_key(k) by {}
                    assert forall|ii: int, L: int|
                        #![trigger prefix_path(dir_path@, entries@[ii]@.segments, seg_from as int, L)]
                        0 <= ii < entries@.len() && seg_from < L < entries@[ii]@.segments.len()
                            && has_dir_child(
                            headers_view(children@),
                            entries@[ii]@.segments[seg_from as int],
                        ) implies dh.view_map().contains_key(
                        prefix_path(dir_path@, entries@[ii]@.segments, seg_from as int, L),
                    ) by {
                        let segs = entries@[ii]@.segments;
                        let hn = segs[seg_from as int];
                        if hn == name@ {
                            let sj = choose|sj: int|
                                0 <= sj < sub@.len() && (#[trigger] sub@[sj])@ == entries@[ii]@;
                            assert(sub@[sj]@.segments == segs);
                            if L == seg_from + 1 {
                                assert(prefix_path(dir_path@, segs, seg_from as int, L)
                                    == child_path_chars(
                                    prefix_path(dir_path@, segs, seg_from as int, seg_from as int),
                                    segs[seg_from as int],
                                ));
                                assert(prefix_path(dir_path@, segs, seg_from as int, seg_from as int)
                                    == dir_path@);
                                assert(child_path@ == child_path_chars(dir_path@, name@));
                                assert(dh.view_map().contains_key(child_path@));
                            } else {
                                assert(dh.view_map().contains_key(
                                    prefix_path(child_path@, segs, (seg_from + 1) as int, L),
                                ));
                                lemma_prefix_path_step(dir_path@, segs, seg_from as int, L);
                                assert(child_path_chars(dir_path@, segs[seg_from as int])
                                    == child_path@);
                            }
                        } else {
                            assert(has_dir_child(pre, hn)) by {
                                let j2 = choose|j2: int|
                                    0 <= j2 < headers_view(children@).len() && (
                                    #[trigger] headers_view(children@)[j2]) is Directory
                                        && headers_view(children@)[j2].name() == hn;
                                assert(j2 < pre.len());
                                assert(pre[j2] == headers_view(children@)[j2]);
                            }
                            assert(dh_pre.contains_key(
                                prefix_path(dir_path@, segs, seg_from as int, L),
                            ));
                            assert(dh.view_map().contains_key(
                                prefix_path(dir_path@, segs, seg_from as int, L),
                            ));
                        }
                    }
                }
            } else {
                proof {
                    assert(has_dir_child(headers_view(children@), name@));
                }
            }
        }
        i = i + 1;
    }
    proof {
        assert forall|ii: int, L: int|
            #![trigger prefix_path(dir_path@, entries@[ii]@.segments, seg_from as int, L)]
            0 <= ii < entries@.len() && seg_from < L < entries@[ii]@.segments.len() implies dh.view_map().contains_key(
            prefix_path(dir_path@, entries@[ii]@.segments, seg_from as int, L),
        ) by {
            assert(entries@[ii]@.segments.len() > seg_from + 1);
            assert(has_dir_child(headers_view(children@), entries@[ii]@.segments[seg_from as int]));
        }
    }
    let ghost pend_final = pendings@;
    let ghost dbs_mid = dbs.view_map();
    let ghost dh_mid = dh.view_map();
    let finished = build_dir_finish(
        dbs,
        cache,
        rank,
        vsz,
        children,
        pendings,
        num_files,
        total_bytes,
        dir_path,
        dir_name,
    );
    let p = match finished {
        Ok(p) => p,
        Err(e) => {
            return Err(e);
        },
    };
    proof {
        // the finish step stored every pending directory, so every
        // dir-hashes entry now points at a stored directory (or at the
        // one still-pending node returned)
        assert forall|k: Seq<char>|
            #[trigger] dh.view_map().contains_key(k) implies ((old(dh).view_map().contains_key(k)
            && dh.view_map()[k] == old(dh).view_map()[k]) || (dbs.view_map().contains_key(
            dh.view_map()[k].value,
        ) && dbs.view_map()[dh.view_map()[k].value].payload is Directory)) by {
            if old(dh).view_map().contains_key(k) && dh_mid[k] == old(dh).view_map()[k] {
            } else if dbs_mid.contains_key(dh_mid[k].value) && dbs_mid[
                dh_mid[k].value].payload is Directory {
                assert(dbs.view_map().contains_key(dh_mid[k].value));
                assert(dbs.view_map()[dh_mid[k].value] == dbs_mid[dh_mid[k].value]);
            } else {
                let pj = choose|pj: int|
                    0 <= pj < pend_final.len() && dh_mid[k].value == (
                    #[trigger] pend_final[pj])@.hash;
                assert(dbs.view_map().contains_key(pend_final[pj]@.hash));
                assert(dbs.view_map()[pend_final[pj]@.hash].payload == pend_final[pj]@.payload);
            }
        }
    }
    let ghost dh_before_put = dh.view_map();
    dh.put(dir_path.to_owned(), MerkleHash { value: p.hash });
    proof {
        assert forall|k: Seq<char>|
            #[trigger] dh.view_map().contains_key(k) implies ((old(dh).view_map().contains_key(k)
            && dh.view_map()[k] == old(dh).view_map()[k]) || (dbs.view_map().contains_key(
            dh.view_map()[k].value,
        ) && dbs.view_map()[dh.view_map()[k].value].payload is Directory) || dh.view_map()[
            k].value == p@.hash) by {
            if k == dir_path@ {
                assert(dh.view_map()[k].value == p@.hash);
            } else {
                assert(dh_before_put.contains_key(k));
                assert(dh.view_map()[k] == dh_before_put[k]);
            }
        }
        assert forall|k: Seq<char>| #[trigger] dh.view_map().contains_key(k) implies old(
            dh,
        ).view_map().contains_key(k) || k == dir_path@ || (exists|ii: int, L: int|
            #![trigger prefix_path(dir_path@, entries@[ii]@.segments, seg_from as int, L)]
            0 <= ii < entries@.len() && seg_from < L < entries@[ii]@.segments.len() && k
                == prefix_path(dir_path@, entries@[ii]@.segments, seg_from as int, L)) by {
            if k != dir_path@ {
                assert(dh_before_put.contains_key(k));
                assert(dh_mid.contains_key(k));
            }
        }
    }
    Ok(p)
}

/// Shard a directory's gathered children into VNode buckets, write the
/// subdirectory and VNode DBs, hash the directory, and record it in the
/// dir-hashes accumulator.
#[verifier::rlimit(100)]
#[verifier::spinoff_prover]
fn build_dir_finish(
    dbs: &mut NodeDbs,
    cache: &mut NodeCache,
    rank: &mut Ghost<Map<u128, nat>>,
    vsz: u64,
    children: Vec<EMerkleTreeNode>,
    pendings: Vec<PendingNode>,
    num_files: u64,
    total_bytes: u64,
    dir_path: &str,
    dir_name: &str,
) -> (r: Result<PendingNode, OxenError>)
    requires
        vsz >= 1,
        build_inv(old(dbs), old(cache), old(rank)@, vsz),
        forall|j: int|
            0 <= j < headers_view(children@).len() ==> ((#[trigger] headers_view(
                children@,
            )[j]) is File || headers_view(children@)[j] is Directory),
        forall|j: int|
            0 <= j < headers_view(children@).len() ==> (headers_view(children@)[j] is Directory
                ==> exists|pj: int|
                0 <= pj < pendings@.len() && (#[trigger] pendings@[pj]@.payload) == headers_view(
                    children@,
                )[j] && pendings@[pj]@.hash == headers_view(children@)[j].id()),
        forall|pj: int|
            0 <= pj < pendings@.len() ==> pending_ok(
                (#[trigger] pendings@[pj])@,
                old(dbs).view_map(),
                old(rank)@,
                vsz,
            ),
    ensures
        build_inv(final(dbs), final(cache), final(rank)@, vsz),
        forall|k: u128|
            #[trigger] old(dbs).view_map().contains_key(k) ==> final(dbs).view_map().contains_key(
                k,
            ) && final(dbs).view_map()[k] == old(dbs).view_map()[k] && nrank_of(final(rank)@, k)
                == nrank_of(old(rank)@, k),
        match r {
            Ok(p) => pending_ok(p@, final(dbs).view_map(), final(rank)@, vsz) && p@.payload.name()
                == dir_name@ && (forall|pj: int|
                0 <= pj < pendings@.len() ==> ({
                    let pv = (#[trigger] pendings@[pj])@;
                    &&& final(dbs).view_map().contains_key(pv.hash)
                    &&& final(dbs).view_map()[pv.hash].payload == pv.payload
                })),
            Err(e) => e.spec_kind() == OxenErrorKind::Corrupted,
        },
{
    let ghost dbs_in = dbs.view_map();
    let ghost rank_in = rank@;
    let ghost cs = headers_view(children@);
    let ghost pendings0 = pendings@;
    let n = children.len();
    let n64 = n as u64;
    let q: u64 = n64 / vsz;
    let rm: u64 = n64 % vsz;
    proof {
        assert(q * vsz + rm == n64 && rm < vsz && q <= n64) by (nonlinear_arith)
            requires
                vsz >= 1,
                q == n64 / vsz,
                rm == n64 % vsz,
        ;
        assert(rm != 0 ==> q + 1 <= n64) by (nonlinear_arith)
            requires
                vsz >= 1,
                q == n64 / vsz,
                rm == n64 % vsz,
        ;
    }
    let nv64: u64 = if rm == 0 {
        q
    } else {
        q + 1
    };
    proof {
        assert((n64 as nat) / (vsz as nat) == q && (n64 as nat) % (vsz as nat) == rm)
            by (nonlinear_arith)
            requires
                vsz >= 1,
                q == n64 / vsz,
                rm == n64 % vsz,
        ;
        assert(nv64 as nat == crate::repo::spec_num_vnodes(n64 as nat, vsz as nat));
        if n64 == 0 {
            assert(nv64 == 0);
        } else {
            assert(nv64 <= n64);
            assert(nv64 >= 1) by (nonlinear_arith)
                requires
                    vsz >= 1,
                    q == n64 / vsz,
                    rm == n64 % vsz,
                    n64 >= 1,
                    nv64 == (if rm == 0 {
                        q
                    } else {
                        (q + 1) as u64
                    }),
            ;
        }
    }
    let nv = nv64 as usize;
    // shard into buckets and hash each VNode
    let mut vnode_hdrs: Vec<EMerkleTreeNode> = Vec::new();
    let mut ids: Vec<u128> = Vec::new();
    let mut buckets: Vec<Vec<EMerkleTreeNode>> = Vec::new();
    let mut b: usize = 0;
    while b < nv
        invariant
            vsz >= 1,
            nv == nv64,
            nv64 as nat == crate::repo::spec_num_vnodes(n64 as nat, vsz as nat),
            n64 == n,
            n == children@.len(),
            nv >= 1 || nv == 0,
            b <= nv,
            nv <= n,
            cs == headers_view(children@),
            cs.len() == n,
            forall|j: int| 0 <= j < cs.len() ==> ((#[trigger] cs[j]) is File || cs[j] is Directory),
            vnode_hdrs@.len() == b,
            ids@.len() == b,
            buckets@.len() == b,
            forall|b2: int|
                0 <= b2 < b ==> ({
                    let hd = #[trigger] headers_view(vnode_hdrs@)[b2];
                    &&& hd is VNode
                    &&& hd.id() == crate::codec::vnode_hash_of(
                        bucket_filter(cs, dir_path@, nv64 as nat, b2 as nat),
                    )
                    &&& hd == HeaderView::VNode(
                        crate::node::VNode {
                            hash: MerkleHash {
                                value: crate::codec::vnode_hash_of(
                                    bucket_filter(cs, dir_path@, nv64 as nat, b2 as nat),
                                ),
                            },
                            num_entries: bucket_filter(
                                cs,
                                dir_path@,
                                nv64 as nat,
                                b2 as nat,
                            ).len() as u64,
                        },
                    )
                    &&& headers_view(buckets@[b2]@) == bucket_filter(
                        cs,
                        dir_path@,
                        nv64 as nat,
                        b2 as nat,
                    )
                    &&& ids@[b2] == hd.id()
                }),
            sum_vnode_entries(headers_view(vnode_hdrs@)) == sum_bucket_lens(
                cs,
                dir_path@,
                nv64 as nat,
                b as nat,
            ),
            forall|b2: int, j: int|
                0 <= b2 < b && 0 <= j < buckets@[b2]@.len() ==> exists|k: int|
                    0 <= k < cs.len() && (#[trigger] buckets@[b2]@[j])@ == cs[k],
        decreases nv - b,
    {
        let mut bucket: Vec<EMerkleTreeNode> = Vec::new();
        let mut j: usize = 0;
        proof {
            assert(cs.subrange(0, 0) =~= Seq::<HeaderView>::empty());
            assert(bucket_filter(cs.subrange(0, 0), dir_path@, nv64 as nat, b as nat) =~= Seq::<
                HeaderView,
            >::empty());
            assert(headers_view(bucket@) =~= Seq::<HeaderView>::empty());
        }
        while j < children.len()
            invariant
                vsz >= 1,
                nv64 >= 1,
                b < nv64,
                j <= children@.len(),
                cs == headers_view(children@),
                cs.len() == children@.len(),
                headers_view(bucket@) == bucket_filter(
                    cs.subrange(0, j as int),
                    dir_path@,
                    nv64 as nat,
                    b as nat,
                ),
                forall|jj: int|
                    0 <= jj < bucket@.len() ==> exists|k: int|
                        0 <= k < cs.len() && (#[trigger] bucket@[jj])@ == cs[k],
            decreases children@.len() - j,
        {
            let c = &children[j];
            let cb = bucket_of(dir_path, c.name_str(), nv64);
            proof {
                assert(cs[j as int] == children@[j as int]@);
            }
            let ghost pre = headers_view(bucket@);
            if cb == b as u64 {
                bucket.push(c.clone());
                proof {
                    assert(headers_view(bucket@) =~= pre.push(bucket@.last()@));
                    assert(bucket@.last()@ == cs[j as int]);
                }
            }
            proof {
                let p1 = cs.subrange(0, j as int);
                assert(cs.subrange(0, j + 1) =~= p1.push(cs[j as int]));
                let pred = |c2: HeaderView|
                    spec_bucket(dir_path@, c2.name(), nv64 as nat) == b as nat;
                p1.lemma_filter_push(cs[j as int], pred);
                assert(headers_view(bucket@) =~= bucket_filter(
                    cs.subrange(0, j + 1),
                    dir_path@,
                    nv64 as nat,
                    b as nat,
                ));
            }
            j = j + 1;
        }
        proof {
            assert(cs.subrange(0, cs.len() as int) =~= cs);
        }
        let vh = crate::codec::compute_vnode_hash(&bucket);
        let hdr = crate::node::VNode { hash: MerkleHash { value: vh }, num_entries: bucket.len()
            as u64 };
        let ghost pre_hdrs = headers_view(vnode_hdrs@);
        vnode_hdrs.push(EMerkleTreeNode::VNode(hdr));
        ids.push(vh);
        buckets.push(bucket);
        proof {
            assert(headers_view(vnode_hdrs@) =~= pre_hdrs.push(vnode_hdrs@.last()@));
            let hs2 = headers_view(vnode_hdrs@);
            assert(hs2.drop_last() =~= pre_hdrs);
            assert(hs2.last() == vnode_hdrs@.last()@);
            assert(vnode_hdrs@.last()@ == HeaderView::VNode(hdr));
            assert(headers_view(bucket@).len() == bucket_filter(
                cs,
                dir_path@,
                nv64 as nat,
                b as nat,
            ).len());
            assert(hdr.num_entries == bucket_filter(cs, dir_path@, nv64 as nat, b as nat).len());
            assert(sum_vnode_entries(hs2) == sum_vnode_entries(pre_hdrs) + hdr.num_entries);
            assert(sum_vnode_entries(headers_view(vnode_hdrs@)) == sum_vnode_entries(pre_hdrs)
                + bucket_filter(cs, dir_path@, nv64 as nat, b as nat).len());
        }
        b = b + 1;
    }
    proof {
        if n64 > 0 {
            lemma_bucket_partition(cs, dir_path@, nv64 as nat);
        } else {
            assert(cs.len() == 0);
            assert(headers_view(vnode_hdrs@).len() == 0);
        }
        assert(sum_vnode_entries(headers_view(vnode_hdrs@)) == n);
    }
    // the directory's own identity
    let dir_hash = crate::codec::compute_dir_hash(dir_name, n64, num_files, total_bytes, &ids);
    let dir_hdr = DirNode {
        hash: MerkleHash { value: dir_hash },
        name: dir_name.to_owned(),
        num_entries: n64,
        num_files,
        total_bytes,
    };
    let r = build_dir_writes(
        dbs,
        cache,
        rank,
        vsz,
        Ghost(cs),
        pendings,
        vnode_hdrs,
        buckets,
        dir_hash,
        dir_path,
        Ghost(nv64),
    );
    match r {
        Ok(vnode_hdrs_back) => {
            let p = PendingNode {
                hash: dir_hash,
                payload: EMerkleTreeNode::Directory(dir_hdr),
                children: vnode_hdrs_back,
            };
            proof {
                assert(p@.payload.id() == dir_hash);
                assert(db_shape_ok(
                    DbView { payload: p@.payload, parent: None, children: p@.children },
                    vsz,
                ));
            }
            Ok(p)
        },
        Err(e) => Err(e),
    }
}

/// Write the subdirectory DBs (each under the VNode that buckets it)
/// and then the VNode DBs of one directory.
#[verifier::rlimit(100)]
#[verifier::spinoff_prover]
fn build_dir_writes(
    dbs: &mut NodeDbs,
    cache: &mut NodeCache,
    rank: &mut Ghost<Map<u128, nat>>,
    vsz: u64,
    Ghost(cs): Ghost<Seq<HeaderView>>,
    pendings: Vec<PendingNode>,
    vnode_hdrs: Vec<EMerkleTreeNode>,
    buckets: Vec<Vec<EMerkleTreeNode>>,
    dir_hash: u128,
    dir_path: &str,
    Ghost(nv64): Ghost<u64>,
) -> (r: Result<Vec<EMerkleTreeNode>, OxenError>)
    requires
        vsz >= 1,
        build_inv(old(dbs), old(cache), old(rank)@, vsz),
        vnode_hdrs@.len() == buckets@.len(),
        vnode_hdrs@.len() == nv64,
        forall|b2: int|
            0 <= b2 < vnode_hdrs@.len() ==> ({
                let hd = #[trigger] headers_view(vnode_hdrs@)[b2];
                &&& hd is VNode
                &&& hd matches HeaderView::VNode(v) && v.num_entries == buckets@[b2]@.len()
            }),
        forall|b2: int, j: int|
            0 <= b2 < buckets@.len() && 0 <= j < buckets@[b2]@.len() ==> (((
            #[trigger] buckets@[b2]@[j])@ is File) || buckets@[b2]@[j]@ is Directory),
        forall|b2: int, j: int|
            0 <= b2 < buckets@.len() && 0 <= j < buckets@[b2]@.len() ==> ((
            #[trigger] buckets@[b2]@[j])@ is Directory ==> exists|pj: int|
                0 <= pj < pendings@.len() && (#[trigger] pendings@[pj]@.payload)
                    == buckets@[b2]@[j]@ && pendings@[pj]@.hash == buckets@[b2]@[j]@.id()),
        forall|pj: int|
            0 <= pj < pendings@.len() ==> pending_ok(
                (#[trigger] pendings@[pj])@,
                old(dbs).view_map(),
                old(rank)@,
                vsz,
            ),
    ensures
        build_inv(final(dbs), final(cache), final(rank)@, vsz),
        forall|k: u128|
            #[trigger] old(dbs).view_map().contains_key(k) ==> final(dbs).view_map().contains_key(
                k,
            ) && final(dbs).view_map()[k] == old(dbs).view_map()[k] && nrank_of(final(rank)@, k)
                == nrank_of(old(rank)@, k),
        match r {
            Ok(back) => back@ == vnode_hdrs@ && (forall|b2: int|
                0 <= b2 < headers_view(back@).len() ==> ({
                    let hd = #[trigger] headers_view(back@)[b2];
                    &&& final(dbs).view_map().contains_key(hd.id())
                    &&& final(dbs).view_map()[hd.id()].payload == hd
                    &&& final(rank)@.contains_key(hd.id())
                })) && (forall|pj: int|
                0 <= pj < pendings@.len() ==> ({
                    let pv = (#[trigger] pendings@[pj])@;
                    &&& final(dbs).view_map().contains_key(pv.hash)
                    &&& final(dbs).view_map()[pv.hash].payload == pv.payload
                })),
            Err(e) => e.spec_kind() == OxenErrorKind::Corrupted,
        },
{
    let ghost dbs_in = dbs.view_map();
    let ghost rank_in = rank@;
    let ghost pendings0 = pendings@;
    let mut pendings = pendings;
    if vnode_hdrs.len() == 0 && pendings.len() > 0 {
        return Err(OxenError::Corrupted(String::new()));
    }
    let nv = vnode_hdrs.len();
    // write every subdirectory DB under its bucket VNode
    while pendings.len() > 0
        invariant
            vsz >= 1,
            dbs_in == old(dbs).view_map(),
            rank_in == old(rank)@,
            build_inv(dbs, cache, rank@, vsz),
            nv == vnode_hdrs@.len(),
            nv == nv64,
            nv == buckets@.len(),
            pendings@.len() <= pendings0.len(),
            pendings@ == pendings0.subrange(0, pendings@.len() as int),
            pendings@.len() > 0 ==> nv >= 1,
            forall|k: u128|
                #[trigger] dbs_in.contains_key(k) ==> dbs.view_map().contains_key(k)
                    && dbs.view_map()[k] == dbs_in[k] && nrank_of(rank@, k) == nrank_of(rank_in, k),
            forall|pj: int|
                0 <= pj < pendings@.len() ==> pending_ok(
                    (#[trigger] pendings0[pj])@,
                    dbs.view_map(),
                    rank@,
                    vsz,
                ),
            forall|pj: int|
                pendings@.len() <= pj < pendings0.len() ==> ({
                    let p = (#[trigger] pendings0[pj])@;
                    &&& dbs.view_map().contains_key(p.hash)
                    &&& dbs.view_map()[p.hash].payload == p.payload
                    &&& rank@.contains_key(p.hash)
                }),
        decreases pendings@.len(),
    {
        let ghost cur_len = pendings@.len() as int;
        let p = match pendings.pop() {
            Some(p) => p,
            None => {
                proof {
                    assert(false);
                }
                return Err(OxenError::Corrupted(String::new()));
            },
        };
        proof {
            assert(p == pendings0[cur_len - 1]);
            assert(pendings@ =~= pendings0.subrange(0, cur_len - 1));
            assert(pending_ok(pendings0[cur_len - 1]@, dbs.view_map(), rank@, vsz));
        }
        let bidx = bucket_of(dir_path, p.payload.name_str(), nv as u64);
        let parent_vn = vnode_hdrs[bidx as usize].hash();
        let ghost rk = max_child_rank(rank@, p@.children) + 1;
        proof {
            assert forall|i: int|
                0 <= i < p.children@.len() implies ({
                let c = (#[trigger] p.children@[i])@;
                !c.is_leaf() ==> dbs.view_map().contains_key(c.id())
                    && dbs.view_map()[c.id()].payload == c && rank@.contains_key(c.id())
                    && rank@[c.id()] < rk
            }) by {
                let c = p.children@[i]@;
                assert(p@.children[i] == c);
                if !c.is_leaf() {
                    lemma_max_child_rank(rank@, p@.children, i);
                }
            }
        }
        let ghost dbs_pre = dbs.view_map();
        let ghost rank_pre = rank@;
        let ghost p_hash = p.hash;
        let ghost p_payload = p.payload@;
        let wr = write_node(
            dbs,
            cache,
            rank,
            p.hash,
            p.payload,
            Some(parent_vn),
            p.children,
            Ghost(rk),
            Ghost(vsz),
        );
        match wr {
            Ok(()) => {},
            Err(e) => {
                return Err(e);
            },
        }
        proof {
            assert forall|k: u128| dbs_in.contains_key(k) implies dbs.view_map().contains_key(k)
                && dbs.view_map()[k] == dbs_in[k] && nrank_of(rank@, k) == nrank_of(
                rank_in,
                k,
            ) by {
                assert(dbs_pre.contains_key(k) && dbs_pre[k] == dbs_in[k]);
                if k != p_hash {
                    assert(nrank_of(rank@, k) == nrank_of(rank_pre, k));
                } else {
                    assert(dbs_pre.contains_key(p_hash));
                    assert(rank@ == rank_pre);
                }
            }
            assert forall|pj: int|
                0 <= pj < pendings@.len() implies pending_ok(
                (#[trigger] pendings0[pj])@,
                dbs.view_map(),
                rank@,
                vsz,
            ) by {
                assert(pending_ok(pendings0[pj]@, dbs_pre, rank_pre, vsz));
                assert forall|ci2: int|
                    0 <= ci2 < pendings0[pj]@.children.len() implies ({
                    let c = #[trigger] pendings0[pj]@.children[ci2];
                    &&& c is VNode
                    &&& dbs.view_map().contains_key(c.id())
                    &&& dbs.view_map()[c.id()].payload == c
                    &&& rank@.contains_key(c.id())
                }) by {
                    let c = pendings0[pj]@.children[ci2];
                    assert(dbs_pre.contains_key(c.id()));
                    assert(dbs.view_map().contains_key(c.id()));
                    assert(db_ok(dbs.view_map(), rank@, vsz, c.id()));
                }
            }
            assert forall|pj: int|
                pendings@.len() <= pj < pendings0.len() implies ({
                let pv = (#[trigger] pendings0[pj])@;
                &&& dbs.view_map().contains_key(pv.hash)
                &&& dbs.view_map()[pv.hash].payload == pv.payload
                &&& rank@.contains_key(pv.hash)
            }) by {
                let pv = pendings0[pj]@;
                if pj == cur_len - 1 {
                } else {
                    assert(dbs_pre.contains_key(pv.hash));
                    assert(dbs.view_map().contains_key(pv.hash));
                    assert(db_ok(dbs.view_map(), rank@, vsz, pv.hash));
                }
            }
        }
    }
    // write every VNode DB under the directory
    let ghost buckets0 = buckets@;
    let mut buckets = buckets;
    while buckets.len() > 0
        invariant
            buckets@ == buckets0.subrange(0, buckets@.len() as int),
            buckets0.len() == nv,
            vsz >= 1,
            dbs_in == old(dbs).view_map(),
            rank_in == old(rank)@,
            build_inv(dbs, cache, rank@, vsz),
            nv == vnode_hdrs@.len(),
            buckets@.len() <= nv,
            forall|b2: int|
                0 <= b2 < vnode_hdrs@.len() ==> ({
                    let hd = #[trigger] headers_view(vnode_hdrs@)[b2];
                    &&& hd is VNode
                    &&& hd matches HeaderView::VNode(v) && v.num_entries == buckets0[b2]@.len()
                }),
            forall|b2: int, j: int|
                0 <= b2 < buckets0.len() && 0 <= j < buckets0[b2]@.len() ==> ((
                #[trigger] buckets0[b2]@[j])@ is Directory ==> exists|pj: int|
                    0 <= pj < pendings0.len() && (#[trigger] pendings0[pj]@.payload)
                        == buckets0[b2]@[j]@ && pendings0[pj]@.hash == buckets0[b2]@[j]@.id()),
            forall|b2: int, j: int|
                0 <= b2 < buckets0.len() && 0 <= j < buckets0[b2]@.len() ==> (((
                #[trigger] buckets0[b2]@[j])@ is File) || buckets0[b2]@[j]@ is Directory),
            forall|k: u128|
                #[trigger] dbs_in.contains_key(k) ==> dbs.view_map().contains_key(k)
                    && dbs.view_map()[k] == dbs_in[k] && nrank_of(rank@, k) == nrank_of(rank_in, k),
            forall|pj: int|
                0 <= pj < pendings0.len() ==> ({
                    let p = (#[trigger] pendings0[pj])@;
                    &&& dbs.view_map().contains_key(p.hash)
                    &&& dbs.view_map()[p.hash].payload == p.payload
                    &&& rank@.contains_key(p.hash)
                }),
            forall|b2: int|
                buckets@.len() <= b2 < nv ==> ({
                    let hd = #[trigger] headers_view(vnode_hdrs@)[b2];
                    &&& dbs.view_map().contains_key(hd.id())
                    &&& dbs.view_map()[hd.id()].payload == hd
                    &&& rank@.contains_key(hd.id())
                }),
        decreases buckets@.len(),
    {
        let idx = buckets.len() - 1;
        let ghost pre_buckets = buckets@;
        let bucket = match buckets.pop() {
            Some(bk) => bk,
            None => {
                proof {
                    assert(false);
                }
                return Err(OxenError::Corrupted(String::new()));
            },
        };
        proof {
            assert(bucket == pre_buckets[idx as int]);
            assert(pre_buckets[idx as int] == buckets0[idx as int]);
            assert(buckets@ =~= buckets0.subrange(0, idx as int));
        }
        let hdr = vnode_hdrs[idx].clone();
        let id = hdr.hash().to_u128();
        let ghost rk = max_child_rank(rank@, headers_view(bucket@)) + 1;
        proof {
            assert(hdr@ == headers_view(vnode_hdrs@)[idx as int]);
            assert(hdr@.id() == id);
            assert(!hdr@.is_leaf());
            assert(db_shape_ok(
                DbView { payload: hdr@, parent: Some(MerkleHash { value: dir_hash }), children: headers_view(bucket@) },
                vsz,
            ));
            assert forall|i: int|
                0 <= i < bucket@.len() implies ({
                let c = (#[trigger] bucket@[i])@;
                !c.is_leaf() ==> dbs.view_map().contains_key(c.id())
                    && dbs.view_map()[c.id()].payload == c && rank@.contains_key(c.id())
                    && rank@[c.id()] < rk
            }) by {
                let c = bucket@[i]@;
                if !c.is_leaf() {
                    assert(c is Directory);
                    let pj = choose|pj: int|
                        0 <= pj < pendings0.len() && (#[trigger] pendings0[pj]@.payload) == c
                            && pendings0[pj]@.hash == c.id();
                    assert(dbs.view_map().contains_key(c.id()));
                    lemma_max_child_rank(rank@, headers_view(bucket@), i);
                    assert(headers_view(bucket@)[i] == c);
                }
            }
        }
        let ghost dbs_pre = dbs.view_map();
        let ghost rank_pre = rank@;
        let wr = write_node(
            dbs,
            cache,
            rank,
            id,
            hdr,
            Some(MerkleHash { value: dir_hash }),
            bucket,
            Ghost(rk),
            Ghost(vsz),
        );
        match wr {
            Ok(()) => {},
            Err(e) => {
                return Err(e);
            },
        }
        proof {
            assert forall|k: u128| dbs_in.contains_key(k) implies dbs.view_map().contains_key(k)
                && dbs.view_map()[k] == dbs_in[k] && nrank_of(rank@, k) == nrank_of(
                rank_in,
                k,
            ) by {
                assert(dbs_pre.contains_key(k) && dbs_pre[k] == dbs_in[k]);
                if k != id {
                    assert(nrank_of(rank@, k) == nrank_of(rank_pre, k));
                } else {
                    assert(dbs_pre.contains_key(id));
                    assert(rank@ == rank_pre);
                }
            }
            assert forall|pj: int|
                0 <= pj < pendings0.len() implies ({
                let pv = (#[trigger] pendings0[pj])@;
                &&& dbs.view_map().contains_key(pv.hash)
                &&& dbs.view_map()[pv.hash].payload == pv.payload
                &&& rank@.contains_key(pv.hash)
            }) by {
                let pv = pendings0[pj]@;
                assert(dbs_pre.contains_key(pv.hash));
                assert(dbs.view_map().contains_key(pv.hash));
                assert(db_ok(dbs.view_map(), rank@, vsz, pv.hash));
            }
            assert forall|b2: int|
                buckets@.len() <= b2 < nv implies ({
                let hd = #[trigger] headers_view(vnode_hdrs@)[b2];
                &&& dbs.view_map().contains_key(hd.id())
                &&& dbs.view_map()[hd.id()].payload == hd
                &&& rank@.contains_key(hd.id())
            }) by {
                let hd = headers_view(vnode_hdrs@)[b2];
                if b2 == idx as int {
                    assert(hd == hdr@);
                } else {
                    assert(dbs_pre.contains_key(hd.id()));
                    assert(dbs.view_map().contains_key(hd.id()));
                    assert(db_ok(dbs.view_map(), rank@, vsz, hd.id()));
                }
            }
        }
    }
    Ok(vnode_hdrs)
}

/// The u128 values of a hash sequence.
pub open spec fn hash_ids(s: Seq<MerkleHash>) -> Seq<u128> {
    Seq::new(s.len(), |i: int| s[i].value)
}

/// The branch HEAD names, or the default branch.
pub open spec fn head_branch_chars(repo: &LocalRepository) -> Seq<char> {
    match repo.head {
        Some(b) => b@,
        None => DEFAULT_BRANCH_NAME@,
    }
}

/// Copy the working set.
fn clone_staged(ts: &Vec<StagedFile>) -> (r: Vec<StagedFile>)
    ensures
        staged_view(r@) == staged_view(ts@),
{
    let mut r: Vec<StagedFile> = Vec::new();
    let mut i: usize = 0;
    while i < ts.len()
        invariant
            i <= ts@.len(),
            r@.len() == i,
            forall|j: int| 0 <= j < i ==> (#[trigger] r@[j])@ == ts@[j]@,
        decreases ts@.len() - i,
    {
        r.push(ts[i].clone());
        i = i + 1;
    }
    proof {
        assert(staged_view(r@) =~= staged_view(ts@));
    }
    r
}

/// Commit the working set: build the new Merkle tree bottom-up, write
/// every node DB and the commit's dir-hashes index, and advance the
/// branch ref.
///
/// The new commit's hash is a digest of its message, author, timestamp,
/// parents and root directory hash; the branch HEAD names (or `main`)
/// then points at it. The only failure is `Corrupted`: two different
/// payloads meeting under one digest; the branch ref is then untouched.
#[verifier::rlimit(100)]
#[verifier::spinoff_prover]
pub fn commit(
    repo: &mut LocalRepository,
    message: &str,
    author: &str,
    timestamp_s: i64,
    timestamp_ns: u32,
) -> (r: Result<Commit, OxenError>)
    requires
        old(repo).wf(),
    ensures
        final(repo).wf(),
        final(repo).blobs() == old(repo).blobs(),
        final(repo).staged@ == old(repo).staged@,
        final(repo).vnode_size == old(repo).vnode_size,
        forall|k: u128|
            #[trigger] old(repo).dbs_map().contains_key(k) ==> final(repo).dbs_map().contains_key(
                k,
            ) && final(repo).dbs_map()[k] == old(repo).dbs_map()[k],
        match r {
            Ok(c) => ({
                &&& final(repo).dbs_map().contains_key(c@.id.value)
                &&& final(repo).dbs_map()[c@.id.value].payload matches HeaderView::Commit(cn)
                    && cn.message == message@ && cn.author == author@ && cn.timestamp_s
                    == timestamp_s && cn.timestamp_ns == timestamp_ns && cn.hash == c@.id
                    && cn.parent_ids == c@.parent_ids && c@.id.value
                    == crate::codec::commit_hash_of(
                    message@,
                    author@,
                    timestamp_s,
                    timestamp_ns,
                    hash_ids(cn.parent_ids),
                    cn.root_dir_hash.value,
                ) && final(repo).dbs_map().contains_key(cn.root_dir_hash.value) && final(repo).dbs_map()[cn.root_dir_hash.value].payload is Directory
                &&& c@.message == message@
                &&& c@.author == author@
                &&& c@.timestamp_s == timestamp_s
                &&& c@.timestamp_ns == timestamp_ns
                &&& final(repo).branches.view_map() == old(repo).branches.view_map().insert(
                    head_branch_chars(old(repo)),
                    c@.id.value,
                )
                &&& final(repo).dir_hashes_dbs.view_map().contains_key(c@.id.value)
                &&& crate::repo::dhs_ok(
                    final(repo).dir_hashes_dbs.view_map()[c@.id.value],
                    final(repo).dbs_map(),
                )
                &&& (!old(repo).dir_hashes_dbs.view_map().contains_key(c@.id.value) ==> ({
                    let dhm = final(repo).dir_hashes_dbs.view_map()[c@.id.value];
                    dhm.contains_key(Seq::<char>::empty()) && dhm[Seq::<char>::empty()].value
                        == final(repo).dbs_map()[
                        c@.id.value].payload->Commit_0.root_dir_hash.value
                }))
                &&& (!old(repo).dir_hashes_dbs.view_map().contains_key(c@.id.value) ==> ({
                    let dhm = final(repo).dir_hashes_dbs.view_map()[c@.id.value];
                    forall|j: int, L: int|
                        #![trigger staged_view(old(repo).staged@)[j].segments.take(L)]
                        0 <= j < staged_view(old(repo).staged@).len() && 0 < L < staged_view(
                            old(repo).staged@,
                        )[j].segments.len() ==> dhm.contains_key(
                            crate::paths::spec_join(
                                staged_view(old(repo).staged@)[j].segments.take(L),
                            ),
                        )
                }))
                &&& (!old(repo).dir_hashes_dbs.view_map().contains_key(c@.id.value) ==> ({
                    let dhm = final(repo).dir_hashes_dbs.view_map()[c@.id.value];
                    forall|k: Seq<char>|
                        #[trigger] dhm.contains_key(k) ==> k == Seq::<char>::empty() || (exists|
                            j: int,
                            L: int,
                        |
                            #![trigger staged_view(old(repo).staged@)[j].segments.take(L)]
                            0 <= j < staged_view(old(repo).staged@).len() && 0 < L < staged_view(
                                old(repo).staged@,
                            )[j].segments.len() && k == crate::paths::spec_join(
                                staged_view(old(repo).staged@)[j].segments.take(L),
                            ))
                }))
                &&& forall|j: int|
                    0 <= j < staged_view(old(repo).staged@).len() ==> final(repo).blobs().contains_key(
                        (#[trigger] staged_view(old(repo).staged@)[j]).hash.value,
                    )
            }),
            Err(e) => e.spec_kind() == OxenErrorKind::Corrupted && final(repo).branches.view_map()
                == old(repo).branches.view_map(),
        },
{
    let entries = clone_staged(&repo.staged);
    // the deepest path bounds the recursion
    let mut kmax: usize = 1;
    let mut i: usize = 0;
    while i < entries.len()
        invariant
            old(repo).wf(),
            *repo == *old(repo),
            staged_view(entries@) == staged_view(old(repo).staged@),
            i <= entries@.len(),
            kmax >= 1,
            forall|j: int| 0 <= j < i ==> (#[trigger] entries@[j])@.segments.len() <= kmax,
        decreases entries@.len() - i,
    {
        if entries[i].segments.len() > kmax {
            kmax = entries[i].segments.len();
        }
        i = i + 1;
    }
    proof {
        assert forall|j: int| 0 <= j < entries@.len() implies 0 < (
        #[trigger] entries@[j])@.segments.len() <= kmax by {
            assert(staged_view(entries@)[j] == entries@[j]@);
            assert(staged_view(old(repo).staged@)[j] == old(repo).staged@[j]@);
            assert(crate::paths::is_path_form(
                staged_view(old(repo).staged@)[j].segments,
                staged_view(old(repo).staged@)[j].path,
            ));
        }
    }
    let mut dh: crate::repo::DirHashes = crate::repo::StrMap::new();
    let vsz = repo.vnode_size;
    let ghost dbs0 = repo.dbs.view_map();
    let ghost rank0 = repo.rank@;
    let built = build_dir(
        &mut repo.dbs,
        &mut repo.cache,
        &mut repo.rank,
        vsz,
        &entries,
        0,
        "",
        "",
        kmax,
        &mut dh,
    );
    let pending_root = match built {
        Ok(p) => p,
        Err(e) => {
            proof {
                lemma_restore_wf(old(repo), repo);
            }
            return Err(e);
        },
    };
    // the parent commit, from the branch the HEAD names
    let branch_name: String = match &repo.head {
        Some(b) => b.clone(),
        None => {
            let d = DEFAULT_BRANCH_NAME.to_owned();
            d
        },
    };
    let mut parent_ids: Vec<MerkleHash> = Vec::new();
    let mut parent_vals: Vec<u128> = Vec::new();
    match repo.branches.get(branch_name.as_str()) {
        Some(h) => {
            parent_ids.push(MerkleHash { value: h });
            parent_vals.push(h);
        },
        None => {},
    }
    proof {
        assert(hash_ids(parent_ids@) =~= parent_vals@);
    }
    let commit_hash = crate::codec::compute_commit_hash(
        message,
        author,
        timestamp_s,
        timestamp_ns,
        &parent_vals,
        pending_root.hash,
    );
    let root_hdr = pending_root.payload.clone();
    let root_hash = pending_root.hash;
    // write the root directory under the commit
    let ghost rk_root = max_child_rank(repo.rank@, pending_root@.children) + 1;
    proof {
        assert forall|i2: int|
            0 <= i2 < pending_root.children@.len() implies ({
            let c = (#[trigger] pending_root.children@[i2])@;
            !c.is_leaf() ==> repo.dbs.view_map().contains_key(c.id())
                && repo.dbs.view_map()[c.id()].payload == c && repo.rank@.contains_key(c.id())
                && repo.rank@[c.id()] < rk_root
        }) by {
            let c = pending_root.children@[i2]@;
            assert(pending_root@.children[i2] == c);
            if !c.is_leaf() {
                lemma_max_child_rank(repo.rank@, pending_root@.children, i2);
            }
        }
    }
    let wr = write_node(
        &mut repo.dbs,
        &mut repo.cache,
        &mut repo.rank,
        pending_root.hash,
        pending_root.payload,
        Some(MerkleHash { value: commit_hash }),
        pending_root.children,
        Ghost(rk_root),
        Ghost(vsz),
    );
    match wr {
        Ok(()) => {},
        Err(e) => {
            proof {
                lemma_restore_wf(old(repo), repo);
            }
            return Err(e);
        },
    }
    // write the commit node
    let commit_node = crate::node::CommitNode {
        hash: MerkleHash { value: commit_hash },
        message: message.to_owned(),
        author: author.to_owned(),
        timestamp_s,
        timestamp_ns,
        parent_ids: crate::node::copy_hashes(&parent_ids),
        root_dir_hash: MerkleHash { value: root_hash },
    };
    let mut commit_children: Vec<EMerkleTreeNode> = Vec::new();
    commit_children.push(root_hdr);
    let ghost rk_commit = nrank_of(repo.rank@, root_hash) + 1;
    proof {
        assert(headers_view(commit_children@) =~= seq![commit_children@[0]@]);
        assert(commit_children@[0]@ is Directory);
        assert(commit_children@[0]@.id() == root_hash);
    }
    let wr2 = write_node(
        &mut repo.dbs,
        &mut repo.cache,
        &mut repo.rank,
        commit_hash,
        EMerkleTreeNode::Commit(commit_node),
        None,
        commit_children,
        Ghost(rk_commit),
        Ghost(vsz),
    );
    match wr2 {
        Ok(()) => {},
        Err(e) => {
            proof {
                lemma_restore_wf(old(repo), repo);
            }
            return Err(e);
        },
    }
    // the commit's dir-hashes index
    let ghost dhv = dh.view_map();
    let ghost dbs_pre_idx = repo.dbs.view_map();
    repo.dir_hashes_dbs.put_new(commit_hash, crate::repo::DirHashesDb { inner: dh });
    // advance the branch ref
    repo.branches.put(branch_name.clone(), commit_hash);
    repo.head = Some(branch_name);
    let c = Commit {
        id: MerkleHash { value: commit_hash },
        message: message.to_owned(),
        author: author.to_owned(),
        timestamp_s,
        timestamp_ns,
        parent_ids,
    };
    proof {
        assert forall|b: Seq<char>|
            #[trigger] repo.branches.view_map().contains_key(b) implies repo.dbs_map().contains_key(
            repo.branches.view_map()[b],
        ) && repo.dbs_map()[repo.branches.view_map()[b]].payload is Commit by {
            if b == head_branch_chars(old(repo)) {
            } else {
                assert(old(repo).branches.view_map().contains_key(b));
                assert(old(repo).dbs_map().contains_key(old(repo).branches.view_map()[b]));
            }
        }
        // the new index points at stored directories; older indexes
        // stand because the node DBs only grew
        assert(crate::repo::dhs_ok(dhv, repo.dbs_map())) by {
            assert forall|k: Seq<char>| #[trigger] dhv.contains_key(k) implies
                repo.dbs_map().contains_key(dhv[k].value) && repo.dbs_map()[
                dhv[k].value].payload is Directory by {
                if dhv[k].value == root_hash {
                } else {
                }
            }
        }
        assert forall|cid: u128|
            #[trigger] repo.dir_hashes_dbs.view_map().contains_key(cid) implies crate::repo::dhs_ok(
            repo.dir_hashes_dbs.view_map()[cid],
            repo.dbs_map(),
        ) by {
            if cid == commit_hash && !old(repo).dir_hashes_dbs.view_map().contains_key(cid) {
                assert(repo.dir_hashes_dbs.view_map()[cid] == dhv);
            } else {
                assert(old(repo).dir_hashes_dbs.view_map().contains_key(cid));
                let dhm = old(repo).dir_hashes_dbs.view_map()[cid];
                assert(repo.dir_hashes_dbs.view_map()[cid] == dhm);
                assert(crate::repo::dhs_ok(dhm, old(repo).dbs_map()));
                assert forall|k2: Seq<char>| #[trigger] dhm.contains_key(k2) implies
                    repo.dbs_map().contains_key(dhm[k2].value) && repo.dbs_map()[
                    dhm[k2].value].payload is Directory by {
                    assert(old(repo).dbs_map().contains_key(dhm[k2].value));
                }
            }
        }
        assert(repo.wf());
        assert(c@.id.value == commit_hash);
        assert(repo.dir_hashes_dbs.view_map().contains_key(commit_hash));
        if !old(repo).dir_hashes_dbs.view_map().contains_key(commit_hash) {
            assert(repo.dir_hashes_dbs.view_map()[commit_hash] == dhv);
            reveal_strlit("");
            assert(""@ =~= Seq::<char>::empty());
            assert(dhv.contains_key(Seq::<char>::empty()));
            assert(dhv[Seq::<char>::empty()].value == root_hash);
            assert forall|j: int, L: int|
                #![trigger staged_view(old(repo).staged@)[j].segments.take(L)]
                0 <= j < staged_view(old(repo).staged@).len() && 0 < L < staged_view(
                    old(repo).staged@,
                )[j].segments.len() implies dhv.contains_key(
                crate::paths::spec_join(staged_view(old(repo).staged@)[j].segments.take(L)),
            ) by {
                let segs = staged_view(old(repo).staged@)[j].segments;
                assert(staged_view(entries@)[j] == entries@[j]@);
                assert(entries@[j]@.segments == segs);
                assert(dhv.contains_key(prefix_path(Seq::<char>::empty(), segs, 0, L)));
                assert(crate::paths::is_path_form(
                    staged_view(old(repo).staged@)[j].segments,
                    staged_view(old(repo).staged@)[j].path,
                ));
                assert forall|i2: int| 0 <= i2 < segs.len() implies (#[trigger] segs[i2]).len()
                    > 0 by {
                    assert(crate::paths::seg_ok(segs[i2]));
                }
                lemma_prefix_path_join(segs, L);
            }
            assert forall|k: Seq<char>| #[trigger] dhv.contains_key(k) implies k == Seq::<
                char,
            >::empty() || (exists|j: int, L: int|
                #![trigger staged_view(old(repo).staged@)[j].segments.take(L)]
                0 <= j < staged_view(old(repo).staged@).len() && 0 < L < staged_view(
                    old(repo).staged@,
                )[j].segments.len() && k == crate::paths::spec_join(
                    staged_view(old(repo).staged@)[j].segments.take(L),
                )) by {
                if k != Seq::<char>::empty() {
                    let (ii, L) = choose|ii: int, L: int|
                        #![trigger prefix_path(Seq::<char>::empty(), entries@[ii]@.segments, 0, L)]
                        0 <= ii < entries@.len() && 0 < L < entries@[ii]@.segments.len() && k
                            == prefix_path(Seq::<char>::empty(), entries@[ii]@.segments, 0, L);
                    let segs = entries@[ii]@.segments;
                    assert(staged_view(entries@)[ii] == entries@[ii]@);
                    assert(staged_view(old(repo).staged@)[ii].segments == segs);
                    assert(crate::paths::is_path_form(
                        staged_view(old(repo).staged@)[ii].segments,
                        staged_view(old(repo).staged@)[ii].path,
                    ));
                    assert forall|i2: int| 0 <= i2 < segs.len() implies (#[trigger] segs[
                        i2]).len() > 0 by {
                        assert(crate::paths::seg_ok(segs[i2]));
                    }
                    lemma_prefix_path_join(segs, L);
                    assert(k == crate::paths::spec_join(
                        staged_view(old(repo).staged@)[ii].segments.take(L),
                    ));
                }
            }
        }
    }
    Ok(c)
}

/// Everything the builder does not touch keeps the repository invariant.
proof fn lemma_restore_wf(pre: &LocalRepository, cur: &LocalRepository)
    requires
        pre.wf(),
        cur.vnode_size == pre.vnode_size,
        cur.store == pre.store,
        cur.staged@ == pre.staged@,
        cur.dbs.wf(),
        dbs_wf(cur.dbs_map(), cur.rank@, cur.vnode_size),
        cache_wf(cur.cache_map(), cur.dbs_map()),
        cur.dir_hashes_dbs.wf(),
        cur.dir_hashes_dbs.view_map() == pre.dir_hashes_dbs.view_map(),
        cur.branches == pre.branches,
        cur.validity == pre.validity,
        forall|k: u128|
            #[trigger] pre.dbs_map().contains_key(k) ==> cur.dbs_map().contains_key(k)
                && cur.dbs_map()[k] == pre.dbs_map()[k],
    ensures
        cur.wf(),
{
    assert forall|cid: u128|
        #[trigger] cur.dir_hashes_dbs.view_map().contains_key(cid) implies crate::repo::dhs_ok(
        cur.dir_hashes_dbs.view_map()[cid],
        cur.dbs_map(),
    ) by {
        assert(pre.dir_hashes_dbs.view_map().contains_key(cid));
        let dhm = pre.dir_hashes_dbs.view_map()[cid];
        assert(crate::repo::dhs_ok(dhm, pre.dbs_map()));
        assert forall|k2: Seq<char>| #[trigger] dhm.contains_key(k2) implies cur.dbs_map(
        ).contains_key(dhm[k2].value) && cur.dbs_map()[dhm[k2].value].payload is Directory by {
            assert(pre.dbs_map().contains_key(dhm[k2].value));
        }
    }
    assert forall|b: Seq<char>|
        #[trigger] cur.branches.view_map().contains_key(b) implies cur.dbs_map().contains_key(
        cur.branches.view_map()[b],
    ) && cur.dbs_map()[cur.branches.view_map()[b]].payload is Commit by {
        assert(pre.branches.view_map().contains_key(b));
        assert(pre.dbs_map().contains_key(pre.branches.view_map()[b]));
    }
}

/// Unstage a path; `NotFound` when it is not in the working set.
pub fn rm(repo: &mut LocalRepository, path: &str) -> (r: Result<(), OxenError>)
    requires
        old(repo).wf(),
    ensures
        final(repo).wf(),
        final(repo).dbs_map() == old(repo).dbs_map(),
        final(repo).cache_map() == old(repo).cache_map(),
        final(repo).blobs() == old(repo).blobs(),
        final(repo).branches.view_map() == old(repo).branches.view_map(),
        final(repo).rank@ == old(repo).rank@,
        match r {
            Ok(()) => staged_map(staged_view(old(repo).staged@)).contains_key(path@)
                && staged_map(staged_view(final(repo).staged@)) == staged_map(
                staged_view(old(repo).staged@),
            ).remove(path@),
            Err(e) => e.spec_kind() == OxenErrorKind::NotFound && !staged_map(
                staged_view(old(repo).staged@),
            ).contains_key(path@) && final(repo).staged@ == old(repo).staged@,
        },
{
    let ghost ts0 = staged_view(repo.staged@);
    let mut i: usize = 0;
    while i < repo.staged.len()
        invariant
            old(repo).wf(),
            i <= repo.staged@.len(),
            eq_except_ws(repo, old(repo)),
            repo.store == old(repo).store,
            repo.staged@ == old(repo).staged@,
            ts0 == staged_view(repo.staged@),
            staged_wf(ts0),
            forall|j: int| 0 <= j < i ==> (#[trigger] ts0[j]).path != path@,
        decreases repo.staged@.len() - i,
    {
        proof {
            assert(ts0[i as int] == repo.staged@[i as int]@);
        }
        if crate::text::str_eq(repo.staged[i].path.as_str(), path) {
            proof {
                lemma_staged_map_entry(ts0, i as int);
                lemma_staged_map_remove(ts0, i as int);
            }
            repo.staged.remove(i);
            proof {
                assert(staged_view(repo.staged@) =~= ts0.remove(i as int));
                let ts1 = staged_view(repo.staged@);
                assert forall|a: int, b: int| 0 <= a < b < ts1.len() implies chars_le(
                    #[trigger] ts1[a].path,
                    #[trigger] ts1[b].path,
                ) && ts1[a].path != ts1[b].path by {
                    let a0 = if a < i as int {
                        a
                    } else {
                        a + 1
                    };
                    let b0 = if b < i as int {
                        b
                    } else {
                        b + 1
                    };
                    assert(ts1[a] == ts0[a0]);
                    assert(ts1[b] == ts0[b0]);
                }
                assert forall|k: int| 0 <= k < ts1.len() implies is_path_form(
                    (#[trigger] ts1[k]).segments,
                    ts1[k].path,
                ) by {
                    let k0 = if k < i as int {
                        k
                    } else {
                        k + 1
                    };
                    assert(ts1[k] == ts0[k0]);
                }
            }
            return Ok(());
        }
        i = i + 1;
    }
    proof {
        lemma_staged_map_keys(ts0);
    }
    Err(OxenError::NotFound(String::new()))
}

} // verus!
