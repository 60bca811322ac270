//! Operations on a loaded, in-memory Merkle tree.
//!
//! A loaded node owns its subtree by value. Navigation descends through
//! VNode buckets transparently: the entries of a directory are the
//! children of its VNodes, and a commit stands for its root directory.

use vstd::prelude::*;
use crate::node::{
    EMerkleTreeNode, FileNode, HeaderView, MerkleTreeNode, NodeView, nodes_view, lemma_nodes_view,
};

verus! {

/// The entries behind a child list: VNode children are transparent, any
/// other child is an entry itself.
pub open spec fn entry_list(children: Seq<NodeView>) -> Seq<NodeView>
    decreases children,
{
    if children.len() == 0 {
        Seq::empty()
    } else {
        entry_list(children.drop_last()) + (if children.last().header is VNode {
            children.last().children
        } else {
            seq![children.last()]
        })
    }
}

/// The entries of a loaded node: a commit stands for its root directory.
pub open spec fn node_entries(n: NodeView) -> Seq<NodeView> {
    if n.header is Commit && n.children.len() == 1 {
        entry_list(n.children[0].children)
    } else {
        entry_list(n.children)
    }
}

/// The first entry carrying `name`, scanning in order.
pub open spec fn spec_find_name(entries: Seq<NodeView>, name: Seq<char>) -> Option<NodeView>
    decreases entries.len(),
{
    if entries.len() == 0 {
        None
    } else if entries[0].header.name() == name {
        Some(entries[0])
    } else {
        spec_find_name(entries.drop_first(), name)
    }
}

/// Resolving a segment list against a loaded subtree: each segment picks
/// the entry of that name; no segments name the node itself.
pub open spec fn spec_get_by_segments(n: NodeView, segs: Seq<Seq<char>>) -> Option<NodeView>
    decreases segs.len(),
{
    if segs.len() == 0 {
        Some(n)
    } else {
        match spec_find_name(node_entries(n), segs[0]) {
            Some(c) => spec_get_by_segments(c, segs.drop_first()),
            None => None,
        }
    }
}

/// The nodes of a subtree in depth-first order, the node first.
pub open spec fn spec_preorder(n: NodeView) -> Seq<NodeView>
    decreases n, 1int,
{
    seq![n] + spec_preorder_list(n.children)
}

pub open spec fn spec_preorder_list(children: Seq<NodeView>) -> Seq<NodeView>
    decreases children, 0int,
{
    if children.len() == 0 {
        Seq::empty()
    } else {
        spec_preorder_list(children.drop_last()) + spec_preorder(children.last())
    }
}

/// How many VNodes a subtree holds.
pub open spec fn spec_total_vnodes(n: NodeView) -> nat {
    spec_preorder(n).filter(|x: NodeView| x.header is VNode).len()
}

/// Gather the entries behind a node's children, VNodes flattened.
pub(crate) fn collect_entries<'a>(n: &'a MerkleTreeNode) -> (r: Vec<&'a MerkleTreeNode>)
    ensures
        nodes_ref_view(r@) == node_entries(n@),
{
    let source: &Vec<MerkleTreeNode> = if matches!(n.node, EMerkleTreeNode::Commit(_))
        && n.children.len() == 1 {
        &n.children[0].children
    } else {
        &n.children
    };
    proof {
        lemma_nodes_view(n.children@);
        if n@.header is Commit && n@.children.len() == 1 {
            assert(source@ == n.children@[0].children@);
            assert(n.children@[0]@ == n@.children[0]);
        }
        assert(nodes_view(source@) == (if n@.header is Commit && n@.children.len() == 1 {
            n@.children[0].children
        } else {
            n@.children
        }));
    }
    let mut r: Vec<&'a MerkleTreeNode> = Vec::new();
    let mut i: usize = 0;
    proof {
        lemma_nodes_view(source@);
        assert(nodes_view(source@).subrange(0, 0) =~= Seq::<NodeView>::empty());
        assert(entry_list(nodes_view(source@).subrange(0, 0)) =~= Seq::<NodeView>::empty());
        assert(nodes_ref_view(r@) =~= Seq::<NodeView>::empty());
    }
    while i < source.len()
        invariant
            i <= source@.len(),
            nodes_ref_view(r@) == entry_list(nodes_view(source@).subrange(0, i as int)),
        decreases source@.len() - i,
    {
        proof {
            lemma_nodes_view(source@);
        }
        let c = &source[i];
        if matches!(c.node, EMerkleTreeNode::VNode(_)) {
            let mut j: usize = 0;
            while j < c.children.len()
                invariant
                    j <= c.children@.len(),
                    i < source@.len(),
                    nodes_ref_view(r@) == entry_list(nodes_view(source@).subrange(0, i as int))
                        + nodes_view(c.children@).subrange(0, j as int),
                decreases c.children@.len() - j,
            {
                proof {
                    lemma_nodes_view(c.children@);
                }
                let ghost pre = r@;
                r.push(&c.children[j]);
                proof {
                    assert(r@.drop_last() =~= pre);
                    lemma_nodes_ref_view_push(pre, r@, c.children@[j as int]);
                    assert(nodes_view(c.children@).subrange(0, (j + 1) as int) =~= nodes_view(
                        c.children@,
                    ).subrange(0, j as int).push(c.children@[j as int]@));
                    assert(nodes_ref_view(r@) =~= entry_list(nodes_view(source@).subrange(
                        0,
                        i as int,
                    )) + nodes_view(c.children@).subrange(0, (j + 1) as int));
                }
                j = j + 1;
            }
            proof {
                lemma_nodes_view(c.children@);
                let sub = nodes_view(source@).subrange(0, (i + 1) as int);
                assert(sub.drop_last() =~= nodes_view(source@).subrange(0, i as int));
                assert(sub.last() == source@[i as int]@);
                assert(sub.last().header is VNode);
                assert(nodes_view(c.children@).subrange(0, c.children@.len() as int) =~= nodes_view(
                    c.children@,
                ));
                assert(sub.last().children == nodes_view(c.children@));
                assert(nodes_ref_view(r@) =~= entry_list(sub));
            }
        } else {
            let ghost pre = r@;
            r.push(c);
            proof {
                assert(r@.drop_last() =~= pre);
                lemma_nodes_ref_view_push(pre, r@, source@[i as int]);
                let sub = nodes_view(source@).subrange(0, (i + 1) as int);
                assert(sub.drop_last() =~= nodes_view(source@).subrange(0, i as int));
                assert(sub.last() == source@[i as int]@);
                assert(!(sub.last().header is VNode));
                assert(nodes_ref_view(r@) =~= entry_list(sub));
            }
        }
        i = i + 1;
    }
    proof {
        assert(nodes_view(source@).subrange(0, source@.len() as int) =~= nodes_view(source@));
    }
    r
}

/// The views of a vector of borrowed nodes.
pub open spec fn nodes_ref_view(s: Seq<&MerkleTreeNode>) -> Seq<NodeView> {
    Seq::new(s.len(), |i: int| s[i]@)
}

proof fn lemma_nodes_ref_view_push(pre: Seq<&MerkleTreeNode>, post: Seq<&MerkleTreeNode>, v: MerkleTreeNode)
    requires
        post.drop_last() == pre,
        post.len() == pre.len() + 1,
        post.last()@ == v@,
    ensures
        nodes_ref_view(post) == nodes_ref_view(pre).push(v@),
{
    assert forall|i: int| 0 <= i < pre.len() implies nodes_ref_view(post)[i] == nodes_ref_view(
        pre,
    )[i] by {
        assert(post.drop_last()[i] == pre[i]);
        assert(post[i] == pre[i]);
    }
    assert(nodes_ref_view(post) =~= nodes_ref_view(pre).push(v@));
}

/// The first child entry carrying `name`.
fn find_entry<'a>(entries: &Vec<&'a MerkleTreeNode>, name: &str) -> (r: Option<
    &'a MerkleTreeNode,
>)
    ensures
        match r {
            Some(c) => spec_find_name(nodes_ref_view(entries@), name@) == Some(c@),
            None => spec_find_name(nodes_ref_view(entries@), name@) is None,
        },
{
    let ghost all = nodes_ref_view(entries@);
    let mut i: usize = 0;
    proof {
        assert(all.subrange(0, all.len() as int) =~= all);
    }
    while i < entries.len()
        invariant
            i <= entries@.len(),
            all == nodes_ref_view(entries@),
            spec_find_name(all, name@) == spec_find_name(
                all.subrange(i as int, all.len() as int),
                name@,
            ),
        decreases entries@.len() - i,
    {
        let c: &'a MerkleTreeNode = entries[i];
        proof {
            let suf = all.subrange(i as int, all.len() as int);
            assert(suf[0] == all[i as int]);
            assert(all[i as int] == entries@[i as int]@);
            assert(suf.drop_first() =~= all.subrange(i + 1, all.len() as int));
        }
        if crate::text::str_eq(c.node.name_str(), name) {
            return Some(c);
        }
        i = i + 1;
    }
    proof {
        assert(all.subrange(entries@.len() as int, all.len() as int).len() == 0);
    }
    None
}

impl MerkleTreeNode {
    /// Resolve a segment path against this loaded subtree.
    pub fn get_by_segments<'a>(&'a self, segs: &Vec<String>, from: usize) -> (r: Option<
        &'a MerkleTreeNode,
    >)
        requires
            from <= segs@.len(),
        ensures
            match r {
                Some(c) => spec_get_by_segments(
                    self@,
                    segs.deep_view().subrange(from as int, segs.deep_view().len() as int),
                ) == Some(c@),
                None => spec_get_by_segments(
                    self@,
                    segs.deep_view().subrange(from as int, segs.deep_view().len() as int),
                ) is None,
            },
        decreases segs@.len() - from,
    {
        let ghost rest = segs.deep_view().subrange(from as int, segs.deep_view().len() as int);
        if from == segs.len() {
            proof {
                assert(rest.len() == 0);
            }
            return Some(self);
        }
        let entries = collect_entries(self);
        let found = find_entry(&entries, segs[from].as_str());
        proof {
            assert(rest[0] == segs.deep_view()[from as int]);
            assert(segs.deep_view()[from as int] == segs@[from as int]@);
        }
        match found {
            Some(c) => {
                let r = c.get_by_segments(segs, from + 1);
                proof {
                    assert(rest.drop_first() =~= segs.deep_view().subrange(
                        from + 1,
                        segs.deep_view().len() as int,
                    ));
                }
                r
            },
            None => None,
        }
    }

    /// The subtree at a relative path, if the path resolves.
    pub fn get_by_path(&self, path: &str) -> (r: Result<Option<MerkleTreeNode>, crate::error::OxenError>)
        ensures
            match r {
                Ok(opt) => exists|segs: Seq<Seq<char>>|
                    split_to(path@, segs) && crate::tree::opt_node_view(opt)
                        == spec_get_by_segments(self@, segs),
                Err(e) => e.spec_kind() == crate::error::OxenErrorKind::InvalidArgument
                    && !crate::paths::is_root_path(path@) && !crate::paths::valid_path_chars(
                    path@,
                ),
            },
    {
        let segs = match crate::paths::split_path(path) {
            Ok(s) => s,
            Err(e) => {
                return Err(e);
            },
        };
        let found = self.get_by_segments(&segs, 0);
        proof {
            assert(segs.deep_view().subrange(0, segs.deep_view().len() as int) =~= segs.deep_view());
        }
        match found {
            Some(c) => {
                let n = c.clone();
                proof {
                    assert(split_to(path@, segs.deep_view()));
                }
                Ok(Some(n))
            },
            None => {
                proof {
                    assert(split_to(path@, segs.deep_view()));
                }
                Ok(None)
            },
        }
    }

    /// Every node of this subtree, in depth-first order.
    pub fn walk_tree(&self) -> (r: Vec<MerkleTreeNode>)
        ensures
            nodes_view(r@) == spec_preorder(self@),
        decreases *self, 1int,
    {
        let mut r: Vec<MerkleTreeNode> = Vec::new();
        let ghost pre0 = r@;
        r.push(self.clone());
        proof {
            lemma_nodes_view(r@);
            assert(r@.drop_last() =~= pre0);
            assert(nodes_view(r@) =~= seq![self@]);
        }
        let mut i: usize = 0;
        proof {
            lemma_nodes_view(self.children@);
            assert(nodes_view(self.children@).subrange(0, 0) =~= Seq::<NodeView>::empty());
            assert(spec_preorder_list(nodes_view(self.children@).subrange(0, 0)) =~= Seq::<
                NodeView,
            >::empty());
            assert(nodes_view(r@) =~= seq![self@] + spec_preorder_list(nodes_view(
                self.children@,
            ).subrange(0, 0)));
        }
        while i < self.children.len()
            invariant
                i <= self.children@.len(),
                nodes_view(r@) == seq![self@] + spec_preorder_list(nodes_view(
                    self.children@,
                ).subrange(0, i as int)),
            decreases self.children@.len() - i,
        {
            proof {
                lemma_nodes_view(self.children@);
                assert(decreases_to!(*self => self.children@[i as int]));
            }
            let mut sub = self.children[i].walk_tree();
            let ghost pre = nodes_view(r@);
            let ghost subv = nodes_view(sub@);
            append_nodes(&mut r, &mut sub);
            proof {
                let cs = nodes_view(self.children@);
                let subr = cs.subrange(0, (i + 1) as int);
                assert(subr.drop_last() =~= cs.subrange(0, i as int));
                assert(subr.last() == cs[i as int]);
                assert(cs[i as int] == self.children@[i as int]@);
                assert(nodes_view(r@) =~= seq![self@] + spec_preorder_list(subr));
            }
            i = i + 1;
        }
        proof {
            assert(nodes_view(self.children@).subrange(0, self.children@.len() as int)
                =~= nodes_view(self.children@));
        }
        r
    }

    /// How many VNodes this subtree holds.
    pub fn total_vnodes(&self) -> (n: usize)
        ensures
            n == spec_total_vnodes(self@),
        decreases *self, 1int,
    {
        let all = self.walk_tree();
        let mut n: usize = 0;
        let ghost allv = nodes_view(all@);
        let mut i: usize = 0;
        proof {
            lemma_nodes_view(all@);
            assert(allv.subrange(0, 0) =~= Seq::<NodeView>::empty());
            assert(allv.subrange(0, 0).filter(|x: NodeView| x.header is VNode).len() == 0);
        }
        while i < all.len()
            invariant
                i <= all@.len(),
                allv == nodes_view(all@),
                allv.len() == all@.len(),
                n == allv.subrange(0, i as int).filter(|x: NodeView| x.header is VNode).len(),
                n <= i,
            decreases all@.len() - i,
        {
            proof {
                lemma_nodes_view(all@);
                let sub = allv.subrange(0, (i + 1) as int);
                assert(sub.drop_last() =~= allv.subrange(0, i as int));
                assert(sub.last() == allv[i as int]);
                sub.drop_last().lemma_filter_push(sub.last(), |x: NodeView| x.header is VNode);
                assert(sub =~= sub.drop_last().push(sub.last()));
            }
            if matches!(all[i].node, EMerkleTreeNode::VNode(_)) {
                n = n + 1;
            }
            i = i + 1;
        }
        proof {
            assert(allv.subrange(0, allv.len() as int) =~= allv);
        }
        n
    }
}

/// Whether `segs` is what [`crate::paths::split_path`] yields for `s`.
pub open spec fn split_to(s: Seq<char>, segs: Seq<Seq<char>>) -> bool {
    if crate::paths::is_root_path(s) {
        segs.len() == 0
    } else {
        crate::paths::is_path_form(segs, s)
    }
}

/// Move every node of `b` to the end of `a`.
fn append_nodes(a: &mut Vec<MerkleTreeNode>, b: &mut Vec<MerkleTreeNode>)
    ensures
        nodes_view(final(a)@) == nodes_view(old(a)@) + nodes_view(old(b)@),
{
    proof {
        lemma_nodes_view(a@);
        lemma_nodes_view(b@);
    }
    a.append(b);
    proof {
        lemma_nodes_view(a@);
        lemma_nodes_view(old(a)@);
        lemma_nodes_view(old(b)@);
        assert(nodes_view(a@) =~= nodes_view(old(a)@) + nodes_view(old(b)@));
    }
}

} // verus!
