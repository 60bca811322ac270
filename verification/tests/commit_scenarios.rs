//! End-to-end commit scenarios: staging, tree shape, deduplication,
//! sharding and path lookup.

use oxen_core::commit::{add, commit, rm};
use oxen_core::commit_merkle_tree::CommitMerkleTree;
use oxen_core::hash::MerkleHash;
use oxen_core::node::EMerkleTreeNode;
use oxen_core::repo::LocalRepository;

#[test]
fn init_add_commit_text_file() {
    let mut repo = LocalRepository::init("repo");
    let content = b"Hello from Oxen integration test!\nThis is real file content.".to_vec();
    assert_eq!(content.len(), 60);
    add(&mut repo, "test.txt", content).unwrap();
    let c = commit(&mut repo, "Initial commit", "Test User", 7, 0).unwrap();

    // the branch ref advanced to the new commit
    let head = repo.branches.get("main").expect("main should exist");
    assert_eq!(head, c.id.value);

    // the root directory has one VNode holding one FileNode
    let root = CommitMerkleTree::from_path_depth(&mut repo, &c, "", 1)
        .unwrap()
        .expect("root should load");
    assert_eq!(root.children.len(), 1, "one VNode bucket");
    let vnode = &root.children[0];
    assert!(matches!(vnode.node, EMerkleTreeNode::VNode(_)));
    assert_eq!(vnode.children.len(), 1, "one file entry");
    match &vnode.children[0].node {
        EMerkleTreeNode::File(f) => {
            assert_eq!(f.name, "test.txt");
            assert_eq!(f.size, 60);
        }
        other => panic!("expected a file, got {:?}", other),
    }
}

#[test]
fn same_content_two_paths_shares_one_blob() {
    let mut repo = LocalRepository::init("repo");
    add(&mut repo, "a.txt", b"X".to_vec()).unwrap();
    add(&mut repo, "b.txt", b"X".to_vec()).unwrap();
    let c = commit(&mut repo, "Two names, one blob", "Test User", 7, 0).unwrap();

    // exactly one blob in the store
    assert_eq!(repo.store.list().len(), 1);

    // two FileNodes share the hash but differ in name
    let tree = CommitMerkleTree::from_commit(&mut repo, &c).unwrap();
    let mut files = Vec::new();
    for node in tree.walk_tree() {
        if let EMerkleTreeNode::File(f) = &node.node {
            files.push((f.name.clone(), f.hash));
        }
    }
    files.sort_by(|a, b| a.0.cmp(&b.0));
    assert_eq!(files.len(), 2);
    assert_eq!(files[0].0, "a.txt");
    assert_eq!(files[1].0, "b.txt");
    assert_eq!(files[0].1, files[1].1, "same content, same hash");
}

#[test]
fn directory_shard_invariant() {
    let mut repo = LocalRepository::init_with_vnode_size("repo", 10);
    for i in 0..25 {
        let path = format!("data/file_{}.txt", i);
        let content = format!("row {}", i);
        add(&mut repo, path.as_str(), content.into_bytes()).unwrap();
    }
    add(&mut repo, "other/keep.txt", b"unchanged".to_vec()).unwrap();
    let c1 = commit(&mut repo, "First commit", "Test User", 7, 0).unwrap();

    // 25 entries at VNODE_SIZE 10 shard into exactly 3 VNodes
    let data1 = CommitMerkleTree::from_path_depth(&mut repo, &c1, "data", 0)
        .unwrap()
        .expect("data should load");
    assert_eq!(data1.children.len(), 3, "ceil(25 / 10) buckets");
    let mut entry_sum: u64 = 0;
    for v in &data1.children {
        match &v.node {
            EMerkleTreeNode::VNode(vn) => entry_sum += vn.num_entries,
            other => panic!("expected a VNode bucket, got {:?}", other),
        }
    }
    match &data1.node {
        EMerkleTreeNode::Directory(d) => {
            assert_eq!(d.num_entries, 25);
            assert_eq!(d.num_entries, entry_sum, "entry counts sum over the buckets");
        }
        other => panic!("expected a directory, got {:?}", other),
    }
    let vnode_hashes_1: Vec<MerkleHash> = data1.children.iter().map(|v| v.hash).collect();
    let dh1 = CommitMerkleTree::dir_hashes(&repo, &c1).unwrap();
    let data_hash_1 = dh1.get("data").unwrap();
    let other_hash_1 = dh1.get("other").unwrap();

    // modify one file; only its bucket re-hashes
    add(&mut repo, "data/file_7.txt", b"changed".to_vec()).unwrap();
    let c2 = commit(&mut repo, "Second commit", "Test User", 8, 0).unwrap();
    let data2 = CommitMerkleTree::from_path_depth(&mut repo, &c2, "data", 0)
        .unwrap()
        .expect("data should load");
    assert_eq!(data2.children.len(), 3);
    let vnode_hashes_2: Vec<MerkleHash> = data2.children.iter().map(|v| v.hash).collect();
    let changed = vnode_hashes_1
        .iter()
        .zip(vnode_hashes_2.iter())
        .filter(|(a, b)| a != b)
        .count();
    assert_eq!(changed, 1, "exactly one VNode hash changes");

    let dh2 = CommitMerkleTree::dir_hashes(&repo, &c2).unwrap();
    let data_hash_2 = dh2.get("data").unwrap();
    let other_hash_2 = dh2.get("other").unwrap();
    assert_ne!(data_hash_1.value, data_hash_2.value, "the DirNode hash changes");
    assert_eq!(
        other_hash_1.value, other_hash_2.value,
        "sibling DirNodes' hashes are unchanged"
    );
}

#[test]
fn path_lookup_via_dir_hashes() {
    let mut repo = LocalRepository::init("repo");
    let csv =
        b"product,price,category\nLaptop,999.99,Electronics\nChair,149.50,Furniture\nBook,19.99,Education"
            .to_vec();
    let original = csv.clone();
    add(&mut repo, "products.csv", csv).unwrap();
    let c = commit(&mut repo, "Add CSV data", "Test", 7, 0).unwrap();

    // skip to the file through the dir-hashes index
    let dh = CommitMerkleTree::dir_hashes(&repo, &c).unwrap();
    let found = CommitMerkleTree::read_file(&mut repo, &dh, "products.csv")
        .unwrap()
        .expect("file should resolve");
    let file = found.file().expect("a file node");
    let bytes = repo.store.get_to_bytes(file.hash).unwrap();
    assert_eq!(bytes, original, "read back the exact bytes");

    // the walk through the tree agrees with the dir-hashes skip
    let tree = CommitMerkleTree::from_commit(&mut repo, &c).unwrap();
    let walked = tree
        .get_by_path("products.csv")
        .unwrap()
        .expect("path should resolve");
    assert_eq!(walked.hash, found.hash, "both lookups find the same node");
}

#[test]
fn empty_commit_has_empty_root() {
    let mut repo = LocalRepository::init("repo");
    let c = commit(&mut repo, "Nothing yet", "Test User", 7, 0).unwrap();
    let root = CommitMerkleTree::from_path_depth(&mut repo, &c, "", 0)
        .unwrap()
        .expect("root should load");
    match &root.node {
        EMerkleTreeNode::Directory(d) => {
            assert_eq!(d.num_entries, 0);
        }
        other => panic!("expected the root directory, got {:?}", other),
    }
    assert_eq!(root.children.len(), 0, "an empty directory has no VNodes");
}

#[test]
fn delete_only_commit_removes_the_file() {
    let mut repo = LocalRepository::init("repo");
    add(&mut repo, "a.txt", b"aaa".to_vec()).unwrap();
    add(&mut repo, "b.txt", b"bbb".to_vec()).unwrap();
    let c1 = commit(&mut repo, "Two files", "Test User", 7, 0).unwrap();
    let t1 = CommitMerkleTree::from_commit(&mut repo, &c1).unwrap();
    assert!(t1.get_by_path("a.txt").unwrap().is_some());

    rm(&mut repo, "a.txt").unwrap();
    let c2 = commit(&mut repo, "Drop a.txt", "Test User", 8, 0).unwrap();
    let t2 = CommitMerkleTree::from_commit(&mut repo, &c2).unwrap();
    assert!(t2.get_by_path("a.txt").unwrap().is_none());
    assert!(t2.get_by_path("b.txt").unwrap().is_some());
    assert_eq!(c2.parent_ids.len(), 1);
    assert_eq!(c2.parent_ids[0], c1.id);
}

#[test]
fn rename_keeps_the_blob_and_rehashes_both_dirs() {
    let mut repo = LocalRepository::init("repo");
    add(&mut repo, "one/data.bin", b"payload".to_vec()).unwrap();
    add(&mut repo, "two/other.bin", b"other".to_vec()).unwrap();
    let c1 = commit(&mut repo, "Initial", "Test User", 7, 0).unwrap();
    let blobs_before = repo.store.list().len();
    let dh1 = CommitMerkleTree::dir_hashes(&repo, &c1).unwrap();

    rm(&mut repo, "one/data.bin").unwrap();
    add(&mut repo, "two/data.bin", b"payload".to_vec()).unwrap();
    let c2 = commit(&mut repo, "Move across dirs", "Test User", 8, 0).unwrap();

    // the blob is unchanged and not duplicated
    assert_eq!(repo.store.list().len(), blobs_before);

    // both directory subtrees re-hash
    let dh2 = CommitMerkleTree::dir_hashes(&repo, &c2).unwrap();
    assert_ne!(dh1.get("two").unwrap().value, dh2.get("two").unwrap().value);
    assert!(!dh2.contains_key("one"), "the emptied directory is gone");

    let t2 = CommitMerkleTree::from_commit(&mut repo, &c2).unwrap();
    let moved = t2.get_by_path("two/data.bin").unwrap().expect("moved file");
    let t1 = CommitMerkleTree::from_commit(&mut repo, &c1).unwrap();
    let orig = t1.get_by_path("one/data.bin").unwrap().expect("old file");
    assert_eq!(moved.hash, orig.hash, "content hash survives the rename");
}

#[test]
fn every_reachable_node_is_retrievable() {
    let mut repo = LocalRepository::init("repo");
    add(&mut repo, "a/one.txt", b"one".to_vec()).unwrap();
    add(&mut repo, "a/b/two.txt", b"two".to_vec()).unwrap();
    add(&mut repo, "three.txt", b"three".to_vec()).unwrap();
    let c = commit(&mut repo, "layers", "Test User", 7, 0).unwrap();
    let tree = CommitMerkleTree::from_commit(&mut repo, &c).unwrap();
    for node in tree.walk_tree() {
        if node.node.is_leaf() {
            // every leaf's blob is in the version store
            assert!(repo.store.contains(node.node.hash()));
        } else {
            // every non-leaf has a node DB of its own
            oxen_core::repo::remove_node_cache(&mut repo).unwrap();
            let loaded = CommitMerkleTree::read_node(&mut repo, &node.hash, false).unwrap();
            assert!(loaded.is_some(), "non-leaf nodes are always retrievable");
        }
    }
}

#[test]
fn nested_paths_are_rejected() {
    let mut repo = LocalRepository::init("repo");
    add(&mut repo, "dir/file.txt", b"x".to_vec()).unwrap();
    assert!(add(&mut repo, "dir/file.txt/extra", b"y".to_vec()).is_err());
    assert!(add(&mut repo, "dir", b"z".to_vec()).is_err());
    assert!(add(&mut repo, "", b"z".to_vec()).is_err());
    assert!(add(&mut repo, "a//b", b"z".to_vec()).is_err());
    assert!(add(&mut repo, "/lead", b"z".to_vec()).is_err());
    assert!(rm(&mut repo, "missing.txt").is_err());
}

#[test]
fn commit_indexes_every_directory() {
    let mut repo = LocalRepository::init("repo");
    add(&mut repo, "a/b/c.txt", b"one".to_vec()).unwrap();
    add(&mut repo, "a/d.txt", b"two".to_vec()).unwrap();
    add(&mut repo, "top.txt", b"three".to_vec()).unwrap();
    let c = commit(&mut repo, "Nested directories", "Test User", 7, 0).unwrap();
    let dh = CommitMerkleTree::dir_hashes(&repo, &c).unwrap();
    assert!(dh.contains_key(""));
    assert!(dh.contains_key("a"));
    assert!(dh.contains_key("a/b"));
    assert!(!dh.contains_key("a/b/c.txt"));
    assert!(!dh.contains_key("top.txt"));
    assert!(!dh.contains_key("missing"));
}
