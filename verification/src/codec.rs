//! Length-prefixed little-endian record encoding.
//!
//! Node identities are digests of encoded records: a 1-byte variant tag,
//! then the variant's payload, integers little-endian fixed width and
//! strings length-prefixed UTF-8. The same primitives frame the append-only
//! fork status log.

use vstd::prelude::*;
use vstd::bytes::{
    spec_u32_to_le_bytes, spec_u64_to_le_bytes, spec_u128_to_le_bytes, spec_u64_from_le_bytes,
    u32_to_le_bytes, u64_to_le_bytes, u128_to_le_bytes, u64_from_le_bytes,
    lemma_auto_spec_u64_to_from_le_bytes,
};
use vstd::slice::{slice_subrange, slice_to_vec};
use vstd::string::StringSliceAdditionalSpecFns;
use vstd::string::StrSliceExecFns;
use vstd::utf8::encode_utf8;
use crate::hash::fnv128_of;
use crate::hash::hash_buffer_128bit;
use crate::node::{EMerkleTreeNode, HeaderView, MerkleTreeNodeType, headers_view};

verus! {

pub const TAG_COMMIT: u8 = 1;

pub const TAG_DIR: u8 = 2;

pub const TAG_VNODE: u8 = 3;

pub const TAG_FILE: u8 = 4;

pub const TAG_FILE_CHUNK: u8 = 5;

/// The tag byte of a node kind.
pub open spec fn kind_tag(t: MerkleTreeNodeType) -> u8 {
    match t {
        MerkleTreeNodeType::Commit => TAG_COMMIT,
        MerkleTreeNodeType::Dir => TAG_DIR,
        MerkleTreeNodeType::VNode => TAG_VNODE,
        MerkleTreeNodeType::File => TAG_FILE,
        MerkleTreeNodeType::FileChunk => TAG_FILE_CHUNK,
    }
}

pub open spec fn enc_u32(x: u32) -> Seq<u8> {
    spec_u32_to_le_bytes(x)
}

pub open spec fn enc_u64(x: u64) -> Seq<u8> {
    spec_u64_to_le_bytes(x)
}

pub open spec fn enc_u128(x: u128) -> Seq<u8> {
    spec_u128_to_le_bytes(x)
}

pub open spec fn enc_i64(x: i64) -> Seq<u8> {
    spec_u64_to_le_bytes(x as u64)
}

/// A length-prefixed byte block.
pub open spec fn enc_bytes(b: Seq<u8>) -> Seq<u8> {
    enc_u64(b.len() as u64) + b
}

/// A length-prefixed UTF-8 string.
pub open spec fn enc_str(s: Seq<char>) -> Seq<u8> {
    enc_bytes(encode_utf8(s))
}

pub fn put_u8(buf: &mut Vec<u8>, x: u8)
    ensures
        final(buf)@ == old(buf)@.push(x),
{
    buf.push(x);
}

pub fn put_u32(buf: &mut Vec<u8>, x: u32)
    ensures
        final(buf)@ == old(buf)@ + enc_u32(x),
{
    let mut b = u32_to_le_bytes(x);
    buf.append(&mut b);
}

pub fn put_u64(buf: &mut Vec<u8>, x: u64)
    ensures
        final(buf)@ == old(buf)@ + enc_u64(x),
{
    let mut b = u64_to_le_bytes(x);
    buf.append(&mut b);
}

pub fn put_u128(buf: &mut Vec<u8>, x: u128)
    ensures
        final(buf)@ == old(buf)@ + enc_u128(x),
{
    let mut b = u128_to_le_bytes(x);
    buf.append(&mut b);
}

pub fn put_i64(buf: &mut Vec<u8>, x: i64)
    ensures
        final(buf)@ == old(buf)@ + enc_i64(x),
{
    let mut b = u64_to_le_bytes(x as u64);
    buf.append(&mut b);
}

pub fn put_str(buf: &mut Vec<u8>, s: &str)
    ensures
        final(buf)@ == old(buf)@ + enc_str(s@),
{
    let bytes: &[u8] = s.as_bytes();
    put_u64(buf, bytes.len() as u64);
    buf.extend_from_slice(bytes);
    proof {
        assert(buf@ =~= old(buf)@ + enc_str(s@));
    }
}

/// Read one byte at `pos`; `None` when the buffer is exhausted.
pub fn get_u8(buf: &Vec<u8>, pos: usize) -> (r: Option<(u8, usize)>)
    ensures
        match r {
            Some((x, p)) => pos < buf@.len() && x == buf@[pos as int] && p == pos + 1,
            None => pos >= buf@.len(),
        },
{
    if pos < buf.len() {
        Some((buf[pos], pos + 1))
    } else {
        None
    }
}

/// Read a little-endian u64 at `pos`; `None` when fewer than 8 bytes remain.
pub fn get_u64(buf: &Vec<u8>, pos: usize) -> (r: Option<(u64, usize)>)
    ensures
        match r {
            Some((x, p)) => pos + 8 <= buf@.len() && x == spec_u64_from_le_bytes(
                buf@.subrange(pos as int, pos + 8),
            ) && p == pos + 8,
            None => pos + 8 > buf@.len(),
        },
{
    if pos < buf.len() && buf.len() - pos >= 8 {
        let s = slice_subrange(buf.as_slice(), pos, pos + 8);
        Some((u64_from_le_bytes(s), pos + 8))
    } else {
        None
    }
}

/// Read `n` raw bytes at `pos`; `None` when fewer than `n` remain.
pub fn get_bytes(buf: &Vec<u8>, pos: usize, n: usize) -> (r: Option<(Vec<u8>, usize)>)
    ensures
        match r {
            Some((b, p)) => pos + n <= buf@.len() && b@ == buf@.subrange(pos as int, pos + n)
                && p == pos + n,
            None => pos + n > buf@.len(),
        },
{
    if pos <= buf.len() && buf.len() - pos >= n {
        let s = slice_subrange(buf.as_slice(), pos, pos + n);
        Some((slice_to_vec(s), pos + n))
    } else {
        None
    }
}

/// Encoding one u64 then reading it back yields the value: the length
/// prefix is faithful.
pub proof fn lemma_u64_round_trip(x: u64)
    ensures
        enc_u64(x).len() == 8,
        spec_u64_from_le_bytes(enc_u64(x)) == x,
{
    lemma_auto_spec_u64_to_from_le_bytes();
}

/// The encoded key of one child entry inside its parent's DB: the child's
/// kind, entry name and hash.
pub open spec fn entry_bytes(h: HeaderView) -> Seq<u8> {
    seq![kind_tag(h.node_type())] + enc_str(h.name()) + enc_u128(h.id())
}

/// The encodings of a child entry list, concatenated in order.
pub open spec fn entries_bytes(hs: Seq<HeaderView>) -> Seq<u8>
    decreases hs.len(),
{
    if hs.len() == 0 {
        Seq::empty()
    } else {
        entries_bytes(hs.drop_last()) + entry_bytes(hs.last())
    }
}

pub open spec fn ids_bytes(ids: Seq<u128>) -> Seq<u8>
    decreases ids.len(),
{
    if ids.len() == 0 {
        Seq::empty()
    } else {
        ids_bytes(ids.drop_last()) + enc_u128(ids.last())
    }
}

/// The identity of a VNode: a digest of its entry list, names and child
/// hashes included.
pub open spec fn vnode_hash_of(hs: Seq<HeaderView>) -> u128 {
    fnv128_of(seq![TAG_VNODE] + enc_u64(hs.len() as u64) + entries_bytes(hs))
}

/// The identity of a directory: a digest of its payload and the hashes of
/// its VNode buckets.
pub open spec fn dir_hash_of(
    name: Seq<char>,
    num_entries: u64,
    num_files: u64,
    total_bytes: u64,
    vnode_ids: Seq<u128>,
) -> u128 {
    fnv128_of(
        seq![TAG_DIR] + enc_str(name) + enc_u64(num_entries) + enc_u64(num_files) + enc_u64(
            total_bytes,
        ) + enc_u64(vnode_ids.len() as u64) + ids_bytes(vnode_ids),
    )
}

/// The identity of a commit: a digest of its payload, parents and root
/// directory hash included.
pub open spec fn commit_hash_of(
    message: Seq<char>,
    author: Seq<char>,
    timestamp_s: i64,
    timestamp_ns: u32,
    parent_ids: Seq<u128>,
    root_dir_hash: u128,
) -> u128 {
    fnv128_of(
        seq![TAG_COMMIT] + enc_str(message) + enc_str(author) + enc_i64(timestamp_s) + enc_u32(
            timestamp_ns,
        ) + enc_u64(parent_ids.len() as u64) + ids_bytes(parent_ids) + enc_u128(root_dir_hash),
    )
}

/// Append the entry record of one child header.
fn put_entry(buf: &mut Vec<u8>, hdr: &EMerkleTreeNode)
    ensures
        final(buf)@ == old(buf)@ + entry_bytes(hdr@),
{
    let tag: u8 = match hdr.node_type() {
        MerkleTreeNodeType::Commit => TAG_COMMIT,
        MerkleTreeNodeType::Dir => TAG_DIR,
        MerkleTreeNodeType::VNode => TAG_VNODE,
        MerkleTreeNodeType::File => TAG_FILE,
        MerkleTreeNodeType::FileChunk => TAG_FILE_CHUNK,
    };
    put_u8(buf, tag);
    match hdr {
        EMerkleTreeNode::File(f) => put_str(buf, f.name.as_str()),
        EMerkleTreeNode::Directory(d) => put_str(buf, d.name.as_str()),
        _ => {
            put_u64(buf, 0);
            proof {
                assert(encode_utf8(Seq::<char>::empty()) =~= Seq::<u8>::empty());
                assert(enc_str(hdr@.name()) =~= enc_u64(0));
            }
        },
    }
    put_u128(buf, hdr.hash().value);
    proof {
        assert(buf@ =~= old(buf)@ + entry_bytes(hdr@));
    }
}

/// Compute the hash of a VNode from its child entry list.
pub fn compute_vnode_hash(entries: &Vec<EMerkleTreeNode>) -> (h: u128)
    ensures
        h == vnode_hash_of(headers_view(entries@)),
{
    let mut buf: Vec<u8> = Vec::new();
    put_u8(&mut buf, TAG_VNODE);
    put_u64(&mut buf, entries.len() as u64);
    let ghost hs = headers_view(entries@);
    let mut i: usize = 0;
    while i < entries.len()
        invariant
            i <= entries@.len(),
            hs == headers_view(entries@),
            hs.len() == entries@.len(),
            buf@ == seq![TAG_VNODE] + enc_u64(entries@.len() as u64) + entries_bytes(
                hs.subrange(0, i as int),
            ),
        decreases entries@.len() - i,
    {
        put_entry(&mut buf, &entries[i]);
        proof {
            let pre = hs.subrange(0, (i + 1) as int);
            assert(pre.drop_last() =~= hs.subrange(0, i as int));
            assert(pre.last() == hs[i as int]);
            assert(hs[i as int] == entries@[i as int]@);
            assert(buf@ =~= seq![TAG_VNODE] + enc_u64(entries@.len() as u64) + entries_bytes(pre));
        }
        i = i + 1;
    }
    proof {
        assert(hs.subrange(0, hs.len() as int) =~= hs);
    }
    hash_buffer_128bit(buf.as_slice())
}

/// Append each id of a hash list.
fn put_ids(buf: &mut Vec<u8>, ids: &Vec<u128>)
    ensures
        final(buf)@ == old(buf)@ + ids_bytes(ids@),
{
    proof {
        assert(ids_bytes(ids@.subrange(0, 0)) =~= Seq::<u8>::empty());
        assert(buf@ =~= old(buf)@ + ids_bytes(ids@.subrange(0, 0)));
    }
    let mut i: usize = 0;
    while i < ids.len()
        invariant
            i <= ids@.len(),
            buf@ == old(buf)@ + ids_bytes(ids@.subrange(0, i as int)),
        decreases ids@.len() - i,
    {
        put_u128(buf, ids[i]);
        proof {
            let pre = ids@.subrange(0, (i + 1) as int);
            assert(pre.drop_last() =~= ids@.subrange(0, i as int));
            assert(pre.last() == ids@[i as int]);
            assert(buf@ =~= old(buf)@ + ids_bytes(pre));
        }
        i = i + 1;
    }
    proof {
        assert(ids@.subrange(0, ids@.len() as int) =~= ids@);
    }
}

/// Compute the hash of a directory from its payload and VNode hashes.
pub fn compute_dir_hash(
    name: &str,
    num_entries: u64,
    num_files: u64,
    total_bytes: u64,
    vnode_ids: &Vec<u128>,
) -> (h: u128)
    ensures
        h == dir_hash_of(name@, num_entries, num_files, total_bytes, vnode_ids@),
{
    let mut buf: Vec<u8> = Vec::new();
    put_u8(&mut buf, TAG_DIR);
    put_str(&mut buf, name);
    put_u64(&mut buf, num_entries);
    put_u64(&mut buf, num_files);
    put_u64(&mut buf, total_bytes);
    put_u64(&mut buf, vnode_ids.len() as u64);
    put_ids(&mut buf, vnode_ids);
    proof {
        assert(buf@ =~= seq![TAG_DIR] + enc_str(name@) + enc_u64(num_entries) + enc_u64(num_files)
            + enc_u64(total_bytes) + enc_u64(vnode_ids@.len() as u64) + ids_bytes(vnode_ids@));
    }
    hash_buffer_128bit(buf.as_slice())
}

/// Compute the hash of a commit from its payload, parents and root.
pub fn compute_commit_hash(
    message: &str,
    author: &str,
    timestamp_s: i64,
    timestamp_ns: u32,
    parent_ids: &Vec<u128>,
    root_dir_hash: u128,
) -> (h: u128)
    ensures
        h == commit_hash_of(message@, author@, timestamp_s, timestamp_ns, parent_ids@,
            root_dir_hash),
{
    let mut buf: Vec<u8> = Vec::new();
    put_u8(&mut buf, TAG_COMMIT);
    put_str(&mut buf, message);
    put_str(&mut buf, author);
    put_i64(&mut buf, timestamp_s);
    put_u32(&mut buf, timestamp_ns);
    put_u64(&mut buf, parent_ids.len() as u64);
    put_ids(&mut buf, parent_ids);
    put_u128(&mut buf, root_dir_hash);
    proof {
        assert(buf@ =~= seq![TAG_COMMIT] + enc_str(message@) + enc_str(author@) + enc_i64(
            timestamp_s,
        ) + enc_u32(timestamp_ns) + enc_u64(parent_ids@.len() as u64) + ids_bytes(parent_ids@)
            + enc_u128(root_dir_hash));
    }
    hash_buffer_128bit(buf.as_slice())
}

} // verus!
