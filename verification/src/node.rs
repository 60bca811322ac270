//! The typed nodes of the Merkle commit tree.
//!
//! A node is one of five kinds: Commit, Dir, VNode, File, FileChunk.
//! File and FileChunk are leaves; they exist only as entries inside their
//! parent VNode's DB. A node header carries the node's own identity and
//! payload but never its grandchildren.
//!
//! Contracts speak about nodes through their views: ghost mirrors in
//! which strings are character sequences and vectors are sequences.

use vstd::prelude::*;
use crate::hash::MerkleHash;

verus! {

/// The kind of a Merkle tree node.
#[derive(Debug, Clone, Copy, PartialEq, Eq, Structural)]
pub enum MerkleTreeNodeType {
    Commit,
    Dir,
    VNode,
    FileChunk,
    File,
}

/// A commit: a named, immutable snapshot referencing a root DirNode.
#[derive(Debug)]
pub struct CommitNode {
    pub hash: MerkleHash,
    pub message: String,
    pub author: String,
    pub timestamp_s: i64,
    pub timestamp_ns: u32,
    pub parent_ids: Vec<MerkleHash>,
    pub root_dir_hash: MerkleHash,
}

/// A directory: its children are its VNode buckets.
#[derive(Debug)]
pub struct DirNode {
    pub hash: MerkleHash,
    pub name: String,
    /// Count of direct File and Dir entries, summed over the VNodes.
    pub num_entries: u64,
    /// Count of files in the whole subtree.
    pub num_files: u64,
    /// Byte total of the files in the whole subtree (saturating).
    pub total_bytes: u64,
}

/// One bucket of a directory's entries.
#[derive(Debug, Clone, Copy, PartialEq, Eq, Structural)]
pub struct VNode {
    pub hash: MerkleHash,
    pub num_entries: u64,
}

/// A file leaf; `hash` keys the content blob in the version store.
#[derive(Debug)]
pub struct FileNode {
    pub hash: MerkleHash,
    pub name: String,
    pub size: u64,
    pub mime: String,
    pub last_modified_s: i64,
    pub last_modified_ns: u32,
    pub chunk_hashes: Option<Vec<MerkleHash>>,
    pub metadata: Option<String>,
}

/// A chunk leaf referenced by a chunked file's chunk list.
#[derive(Debug, Clone, Copy, PartialEq, Eq, Structural)]
pub struct FileChunkNode {
    pub hash: MerkleHash,
}

impl CommitNode {
    pub fn hash(&self) -> (h: MerkleHash)
        ensures
            h == self.hash,
    {
        self.hash
    }
}

impl DirNode {
    pub fn hash(&self) -> (h: MerkleHash)
        ensures
            h == self.hash,
    {
        self.hash
    }

    pub fn name(&self) -> (n: &String)
        ensures
            n == &self.name,
    {
        &self.name
    }

    pub fn num_entries(&self) -> (n: u64)
        ensures
            n == self.num_entries,
    {
        self.num_entries
    }

    pub fn num_files(&self) -> (n: u64)
        ensures
            n == self.num_files,
    {
        self.num_files
    }

    pub fn total_bytes(&self) -> (n: u64)
        ensures
            n == self.total_bytes,
    {
        self.total_bytes
    }
}

impl VNode {
    pub fn num_entries(&self) -> (n: u64)
        ensures
            n == self.num_entries,
    {
        self.num_entries
    }
}

impl FileNode {
    pub fn hash(&self) -> (h: MerkleHash)
        ensures
            h == self.hash,
    {
        self.hash
    }

    pub fn name(&self) -> (n: &String)
        ensures
            n == &self.name,
    {
        &self.name
    }

    pub fn size(&self) -> (n: u64)
        ensures
            n == self.size,
    {
        self.size
    }

    pub fn last_modified_seconds(&self) -> (n: i64)
        ensures
            n == self.last_modified_s,
    {
        self.last_modified_s
    }

    pub fn last_modified_nanoseconds(&self) -> (n: u32)
        ensures
            n == self.last_modified_ns,
    {
        self.last_modified_ns
    }
}

/// Ghost mirror of [`CommitNode`].
#[verifier::ext_equal]
pub struct CommitNodeView {
    pub hash: MerkleHash,
    pub message: Seq<char>,
    pub author: Seq<char>,
    pub timestamp_s: i64,
    pub timestamp_ns: u32,
    pub parent_ids: Seq<MerkleHash>,
    pub root_dir_hash: MerkleHash,
}

/// Ghost mirror of [`DirNode`].
#[verifier::ext_equal]
pub struct DirNodeView {
    pub hash: MerkleHash,
    pub name: Seq<char>,
    pub num_entries: u64,
    pub num_files: u64,
    pub total_bytes: u64,
}

/// Ghost mirror of [`FileNode`].
#[verifier::ext_equal]
pub struct FileNodeView {
    pub hash: MerkleHash,
    pub name: Seq<char>,
    pub size: u64,
    pub mime: Seq<char>,
    pub last_modified_s: i64,
    pub last_modified_ns: u32,
    pub chunk_hashes: Option<Seq<MerkleHash>>,
    pub metadata: Option<Seq<char>>,
}

impl View for CommitNode {
    type V = CommitNodeView;

    open spec fn view(&self) -> CommitNodeView {
        CommitNodeView {
            hash: self.hash,
            message: self.message@,
            author: self.author@,
            timestamp_s: self.timestamp_s,
            timestamp_ns: self.timestamp_ns,
            parent_ids: self.parent_ids@,
            root_dir_hash: self.root_dir_hash,
        }
    }
}

impl View for DirNode {
    type V = DirNodeView;

    open spec fn view(&self) -> DirNodeView {
        DirNodeView {
            hash: self.hash,
            name: self.name@,
            num_entries: self.num_entries,
            num_files: self.num_files,
            total_bytes: self.total_bytes,
        }
    }
}

impl View for FileNode {
    type V = FileNodeView;

    open spec fn view(&self) -> FileNodeView {
        FileNodeView {
            hash: self.hash,
            name: self.name@,
            size: self.size,
            mime: self.mime@,
            last_modified_s: self.last_modified_s,
            last_modified_ns: self.last_modified_ns,
            chunk_hashes: match self.chunk_hashes {
                Some(v) => Some(v@),
                None => None,
            },
            metadata: match self.metadata {
                Some(s) => Some(s@),
                None => None,
            },
        }
    }
}

/// Copy a vector of hashes element by element.
pub fn copy_hashes(v: &Vec<MerkleHash>) -> (r: Vec<MerkleHash>)
    ensures
        r@ == v@,
{
    let mut r: Vec<MerkleHash> = Vec::new();
    let mut i: usize = 0;
    while i < v.len()
        invariant
            i <= v@.len(),
            r@ =~= v@.subrange(0, i as int),
        decreases v@.len() - i,
    {
        r.push(v[i]);
        i = i + 1;
    }
    proof {
        assert(v@.subrange(0, v@.len() as int) =~= v@);
    }
    r
}

impl Clone for CommitNode {
    fn clone(&self) -> (res: Self)
        ensures
            res@ == self@,
    {
        let res = CommitNode {
            hash: self.hash,
            message: self.message.clone(),
            author: self.author.clone(),
            timestamp_s: self.timestamp_s,
            timestamp_ns: self.timestamp_ns,
            parent_ids: copy_hashes(&self.parent_ids),
            root_dir_hash: self.root_dir_hash,
        };
        proof {
            assert(res@ =~= self@);
        }
        res
    }
}

impl Clone for DirNode {
    fn clone(&self) -> (res: Self)
        ensures
            res@ == self@,
    {
        let res = DirNode {
            hash: self.hash,
            name: self.name.clone(),
            num_entries: self.num_entries,
            num_files: self.num_files,
            total_bytes: self.total_bytes,
        };
        proof {
            assert(res@ =~= self@);
        }
        res
    }
}

impl Clone for FileNode {
    fn clone(&self) -> (res: Self)
        ensures
            res@ == self@,
    {
        let res = FileNode {
            hash: self.hash,
            name: self.name.clone(),
            size: self.size,
            mime: self.mime.clone(),
            last_modified_s: self.last_modified_s,
            last_modified_ns: self.last_modified_ns,
            chunk_hashes: match &self.chunk_hashes {
                Some(v) => Some(copy_hashes(v)),
                None => None,
            },
            metadata: match &self.metadata {
                Some(s) => Some(s.clone()),
                None => None,
            },
        };
        proof {
            assert(res@ =~= self@);
        }
        res
    }
}

/// Ghost mirror of [`EMerkleTreeNode`].
#[verifier::ext_equal]
pub enum HeaderView {
    File(FileNodeView),
    Directory(DirNodeView),
    VNode(VNode),
    FileChunk(FileChunkNode),
    Commit(CommitNodeView),
}

impl HeaderView {
    pub open spec fn node_type(self) -> MerkleTreeNodeType {
        match self {
            HeaderView::File(_) => MerkleTreeNodeType::File,
            HeaderView::Directory(_) => MerkleTreeNodeType::Dir,
            HeaderView::VNode(_) => MerkleTreeNodeType::VNode,
            HeaderView::FileChunk(_) => MerkleTreeNodeType::FileChunk,
            HeaderView::Commit(_) => MerkleTreeNodeType::Commit,
        }
    }

    pub open spec fn hash_val(self) -> MerkleHash {
        match self {
            HeaderView::File(f) => f.hash,
            HeaderView::Directory(d) => d.hash,
            HeaderView::VNode(v) => v.hash,
            HeaderView::FileChunk(c) => c.hash,
            HeaderView::Commit(c) => c.hash,
        }
    }

    /// The u128 value of the node's hash.
    pub open spec fn id(self) -> u128 {
        self.hash_val().value
    }

    pub open spec fn is_leaf(self) -> bool {
        match self {
            HeaderView::File(_) => true,
            HeaderView::FileChunk(_) => true,
            _ => false,
        }
    }

    /// The entry name of this node inside its parent directory; nodes
    /// without names yield the empty string.
    pub open spec fn name(self) -> Seq<char> {
        match self {
            HeaderView::File(f) => f.name,
            HeaderView::Directory(d) => d.name,
            _ => Seq::empty(),
        }
    }

    pub open spec fn metadata(self) -> Option<Seq<char>> {
        match self {
            HeaderView::File(f) => f.metadata,
            _ => None,
        }
    }
}

/// A node header: the sum of the five node kinds.
#[derive(Debug)]
pub enum EMerkleTreeNode {
    File(FileNode),
    Directory(DirNode),
    VNode(VNode),
    FileChunk(FileChunkNode),
    Commit(CommitNode),
}

impl View for EMerkleTreeNode {
    type V = HeaderView;

    open spec fn view(&self) -> HeaderView {
        match self {
            EMerkleTreeNode::File(f) => HeaderView::File(f@),
            EMerkleTreeNode::Directory(d) => HeaderView::Directory(d@),
            EMerkleTreeNode::VNode(v) => HeaderView::VNode(*v),
            EMerkleTreeNode::FileChunk(c) => HeaderView::FileChunk(*c),
            EMerkleTreeNode::Commit(c) => HeaderView::Commit(c@),
        }
    }
}

impl Clone for EMerkleTreeNode {
    fn clone(&self) -> (res: Self)
        ensures
            res@ == self@,
    {
        match self {
            EMerkleTreeNode::File(f) => EMerkleTreeNode::File(f.clone()),
            EMerkleTreeNode::Directory(d) => EMerkleTreeNode::Directory(d.clone()),
            EMerkleTreeNode::VNode(v) => EMerkleTreeNode::VNode(*v),
            EMerkleTreeNode::FileChunk(c) => EMerkleTreeNode::FileChunk(*c),
            EMerkleTreeNode::Commit(c) => EMerkleTreeNode::Commit(c.clone()),
        }
    }
}

impl EMerkleTreeNode {
    /// The kind of this node.
    pub fn node_type(&self) -> (t: MerkleTreeNodeType)
        ensures
            t == self@.node_type(),
    {
        match self {
            EMerkleTreeNode::File(_) => MerkleTreeNodeType::File,
            EMerkleTreeNode::Directory(_) => MerkleTreeNodeType::Dir,
            EMerkleTreeNode::VNode(_) => MerkleTreeNodeType::VNode,
            EMerkleTreeNode::FileChunk(_) => MerkleTreeNodeType::FileChunk,
            EMerkleTreeNode::Commit(_) => MerkleTreeNodeType::Commit,
        }
    }

    /// The node's own hash.
    pub fn hash(&self) -> (h: MerkleHash)
        ensures
            h == self@.hash_val(),
    {
        match self {
            EMerkleTreeNode::File(file) => file.hash,
            EMerkleTreeNode::Directory(dir) => dir.hash,
            EMerkleTreeNode::VNode(vnode) => vnode.hash,
            EMerkleTreeNode::FileChunk(chunk) => chunk.hash,
            EMerkleTreeNode::Commit(commit) => commit.hash,
        }
    }

    /// The metadata attached to the node; only files carry any.
    pub fn metadata(&self) -> (m: Option<String>)
        ensures
            match m {
                Some(s) => self@.metadata() == Some(s@),
                None => self@.metadata() is None,
            },
    {
        match self {
            EMerkleTreeNode::File(file) => match &file.metadata {
                Some(s) => Some(s.clone()),
                None => None,
            },
            _ => None,
        }
    }

    /// The entry name of this node; empty for unnamed kinds.
    pub fn name_str(&self) -> (r: &str)
        ensures
            r@ == self@.name(),
    {
        match self {
            EMerkleTreeNode::File(f) => f.name.as_str(),
            EMerkleTreeNode::Directory(d) => d.name.as_str(),
            _ => {
                let r = "";
                proof {
                    reveal_strlit("");
                    assert(r@ =~= Seq::<char>::empty());
                }
                r
            },
        }
    }

    /// Whether this node is a leaf (File or FileChunk): a leaf has no
    /// node DB of its own.
    pub fn is_leaf(&self) -> (b: bool)
        ensures
            b == self@.is_leaf(),
    {
        match self {
            EMerkleTreeNode::File(_) => true,
            EMerkleTreeNode::FileChunk(_) => true,
            _ => false,
        }
    }
}

/// A file reduced to what a checkout comparison needs: its content hash
/// and modification stamp.
#[derive(Debug, Clone, Copy, PartialEq, Eq, Structural)]
pub struct PartialNode {
    pub hash: MerkleHash,
    pub last_modified_seconds: i64,
    pub last_modified_nanoseconds: u32,
}

impl PartialNode {
    pub fn from(hash: MerkleHash, last_modified_seconds: i64, last_modified_nanoseconds: u32) -> (
        p: PartialNode)
        ensures
            p.hash == hash,
            p.last_modified_seconds == last_modified_seconds,
            p.last_modified_nanoseconds == last_modified_nanoseconds,
    {
        PartialNode { hash, last_modified_seconds, last_modified_nanoseconds }
    }
}

/// Whether two hash lists are equal.
pub fn hashes_eq(a: &Vec<MerkleHash>, b: &Vec<MerkleHash>) -> (r: bool)
    ensures
        r == (a@ == b@),
{
    if a.len() != b.len() {
        proof {
            if a@ == b@ {
                assert(a@.len() == b@.len());
            }
        }
        return false;
    }
    let mut i: usize = 0;
    while i < a.len()
        invariant
            i <= a@.len(),
            a@.len() == b@.len(),
            forall|j: int| 0 <= j < i ==> a@[j] == b@[j],
        decreases a@.len() - i,
    {
        if a[i].value != b[i].value {
            proof {
                if a@ == b@ {
                    assert(a@[i as int] == b@[i as int]);
                }
            }
            return false;
        }
        i = i + 1;
    }
    proof {
        assert(a@ =~= b@);
    }
    true
}

/// Whether two node headers carry the same payload.
pub fn header_eq(a: &EMerkleTreeNode, b: &EMerkleTreeNode) -> (r: bool)
    ensures
        r == (a@ == b@),
{
    match (a, b) {
        (EMerkleTreeNode::File(x), EMerkleTreeNode::File(y)) => {
            let chunks_eq = match (&x.chunk_hashes, &y.chunk_hashes) {
                (None, None) => true,
                (Some(cx), Some(cy)) => hashes_eq(cx, cy),
                _ => false,
            };
            let meta_eq = match (&x.metadata, &y.metadata) {
                (None, None) => true,
                (Some(mx), Some(my)) => crate::text::str_eq(mx.as_str(), my.as_str()),
                _ => false,
            };
            let r = x.hash.value == y.hash.value && crate::text::str_eq(
                x.name.as_str(),
                y.name.as_str(),
            ) && x.size == y.size && crate::text::str_eq(x.mime.as_str(), y.mime.as_str())
                && x.last_modified_s == y.last_modified_s && x.last_modified_ns
                == y.last_modified_ns && chunks_eq && meta_eq;
            proof {
                if r {
                    assert(x@ =~= y@);
                    assert(a@ =~= b@);
                }
            }
            r
        },
        (EMerkleTreeNode::Directory(x), EMerkleTreeNode::Directory(y)) => {
            let r = x.hash.value == y.hash.value && crate::text::str_eq(
                x.name.as_str(),
                y.name.as_str(),
            ) && x.num_entries == y.num_entries && x.num_files == y.num_files && x.total_bytes
                == y.total_bytes;
            proof {
                if r {
                    assert(x@ =~= y@);
                    assert(a@ =~= b@);
                }
            }
            r
        },
        (EMerkleTreeNode::VNode(x), EMerkleTreeNode::VNode(y)) => {
            x.hash.value == y.hash.value && x.num_entries == y.num_entries
        },
        (EMerkleTreeNode::FileChunk(x), EMerkleTreeNode::FileChunk(y)) => {
            x.hash.value == y.hash.value
        },
        (EMerkleTreeNode::Commit(x), EMerkleTreeNode::Commit(y)) => {
            let r = x.hash.value == y.hash.value && crate::text::str_eq(
                x.message.as_str(),
                y.message.as_str(),
            ) && crate::text::str_eq(x.author.as_str(), y.author.as_str()) && x.timestamp_s
                == y.timestamp_s && x.timestamp_ns == y.timestamp_ns && hashes_eq(
                &x.parent_ids,
                &y.parent_ids,
            ) && x.root_dir_hash.value == y.root_dir_hash.value;
            proof {
                if r {
                    assert(x@ =~= y@);
                    assert(a@ =~= b@);
                }
            }
            r
        },
        _ => false,
    }
}

/// Ghost mirror of a loaded [`MerkleTreeNode`] subtree.
#[verifier::ext_equal]
pub struct NodeView {
    pub hash: MerkleHash,
    pub header: HeaderView,
    pub parent: Option<MerkleHash>,
    pub children: Seq<NodeView>,
}

impl NodeView {
    /// A node view with no children below it.
    pub open spec fn bare(hash: MerkleHash, header: HeaderView, parent: Option<
        MerkleHash,
    >) -> NodeView {
        NodeView { hash, header, parent, children: Seq::empty() }
    }
}

/// A loaded node of the in-memory tree, with however many levels of
/// children the load request asked for.
#[derive(Debug)]
pub struct MerkleTreeNode {
    pub hash: MerkleHash,
    pub node: EMerkleTreeNode,
    pub parent_id: Option<MerkleHash>,
    pub children: Vec<MerkleTreeNode>,
}

/// The views of a sequence of node headers.
pub open spec fn headers_view(s: Seq<EMerkleTreeNode>) -> Seq<HeaderView> {
    Seq::new(s.len(), |i: int| s[i]@)
}

/// The views of a sequence of loaded nodes.
pub open spec fn nodes_view(s: Seq<MerkleTreeNode>) -> Seq<NodeView>
    decreases s,
{
    if s.len() == 0 {
        Seq::empty()
    } else {
        nodes_view(s.drop_last()).push(s.last()@)
    }
}

/// `nodes_view` maps each node to its view, position by position.
pub proof fn lemma_nodes_view(s: Seq<MerkleTreeNode>)
    ensures
        nodes_view(s).len() == s.len(),
        forall|i: int| 0 <= i < s.len() ==> nodes_view(s)[i] == s[i]@,
    decreases s,
{
    if s.len() > 0 {
        lemma_nodes_view(s.drop_last());
        assert(nodes_view(s) == nodes_view(s.drop_last()).push(s.last()@));
        assert forall|i: int| 0 <= i < s.len() implies nodes_view(s)[i] == s[i]@ by {
            if i < s.len() - 1 {
                assert(nodes_view(s)[i] == nodes_view(s.drop_last())[i]);
                assert(s.drop_last()[i] == s[i]);
            } else {
                assert(nodes_view(s)[i] == s.last()@);
            }
        }
    }
}

impl View for MerkleTreeNode {
    type V = NodeView;

    open spec fn view(&self) -> NodeView
        decreases self,
    {
        NodeView {
            hash: self.hash,
            header: self.node@,
            parent: self.parent_id,
            children: nodes_view(self.children@),
        }
    }
}

impl Clone for MerkleTreeNode {
    fn clone(&self) -> (res: Self)
        ensures
            res@ == self@,
        decreases *self,
    {
        let mut children: Vec<MerkleTreeNode> = Vec::new();
        let n = self.children.len();
        let mut i: usize = 0;
        while i < n
            invariant
                i <= n,
                n == self.children@.len(),
                children@.len() == i,
                forall|j: int| 0 <= j < i ==> children@[j]@ == self.children@[j]@,
            decreases n - i,
        {
            proof {
                assert(decreases_to!(*self => self.children@[i as int]));
            }
            let c = self.children[i].clone();
            children.push(c);
            i = i + 1;
        }
        let res = MerkleTreeNode {
            hash: self.hash,
            node: self.node.clone(),
            parent_id: self.parent_id,
            children,
        };
        proof {
            lemma_nodes_view(res.children@);
            lemma_nodes_view(self.children@);
            assert(nodes_view(res.children@) =~= nodes_view(self.children@));
            assert(res@ =~= self@);
        }
        res
    }
}

impl MerkleTreeNode {
    /// A node loaded without any children.
    pub fn from_header(hash: MerkleHash, node: EMerkleTreeNode, parent_id: Option<
        MerkleHash,
    >) -> (n: MerkleTreeNode)
        ensures
            n@ == NodeView::bare(hash, node@, parent_id),
    {
        let n = MerkleTreeNode { hash, node, parent_id, children: Vec::new() };
        proof {
            assert(n@ =~= NodeView::bare(hash, n.node@, parent_id));
        }
        n
    }

    /// The directory payload, if this is a directory node.
    pub fn dir(&self) -> (d: Option<&DirNode>)
        ensures
            match d {
                Some(dn) => self@.header == HeaderView::Directory(dn@),
                None => !(self@.header is Directory),
            },
    {
        match &self.node {
            EMerkleTreeNode::Directory(dn) => Some(dn),
            _ => None,
        }
    }

    /// The file payload, if this is a file node.
    pub fn file(&self) -> (f: Option<&FileNode>)
        ensures
            match f {
                Some(fnode) => self@.header == HeaderView::File(fnode@),
                None => !(self@.header is File),
            },
    {
        match &self.node {
            EMerkleTreeNode::File(fnode) => Some(fnode),
            _ => None,
        }
    }
}

} // verus!
