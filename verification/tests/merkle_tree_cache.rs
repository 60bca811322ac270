//! Tree loading and the depth-aware node cache.

use oxen_core::commit::{add, commit};
use oxen_core::commit_merkle_tree::CommitMerkleTree;
use oxen_core::node::EMerkleTreeNode;
use oxen_core::repo::{remove_node_cache, Commit, LocalRepository};
use std::time::Instant;

fn add_n_files_m_dirs(repo: &mut LocalRepository, n: usize, m: usize) {
    add(
        repo,
        "README.md",
        b"This is the readme".to_vec(),
    )
    .unwrap();
    add(
        repo,
        "files.csv",
        b"file,label\nfiles/dir_0/file0.txt,0\n".to_vec(),
    )
    .unwrap();
    for i in 0..n {
        let path = format!("files/dir_{}/file{}.txt", i % m, i);
        let content = format!("file number {}", i);
        add(repo, path.as_str(), content.into_bytes()).unwrap();
    }
}

fn first_commit(repo: &mut LocalRepository) -> Commit {
    commit(repo, "First commit", "test author", 7, 0).unwrap()
}

#[test]
fn test_load_dir_nodes() {
    let mut repo = LocalRepository::init("repo");
    add_n_files_m_dirs(&mut repo, 10, 3);
    let c = first_commit(&mut repo);

    let tree = CommitMerkleTree::from_commit(&mut repo, &c).unwrap();
    println!("{}", tree.print());

    let dir_hashes = CommitMerkleTree::dir_hashes(&repo, &c).unwrap();
    println!("Got {} dir_hashes", dir_hashes.len());
    assert_eq!(dir_hashes.len(), 5);
    assert!(dir_hashes.contains_key(""));
    assert!(dir_hashes.contains_key("files"));
    assert!(dir_hashes.contains_key("files/dir_0"));
    assert!(dir_hashes.contains_key("files/dir_1"));
    assert!(dir_hashes.contains_key("files/dir_2"));

    let paths_to_load = vec![String::from(""), String::from("files/dir_1")];
    let loaded_nodes = CommitMerkleTree::read_nodes(&mut repo, &c, &paths_to_load).unwrap();
    println!("loaded {} nodes", loaded_nodes.len());
    assert_eq!(loaded_nodes.len(), 2);
    for (path, node) in &loaded_nodes {
        println!("node at {:?}", path);
        let dir = node.dir().expect("loaded nodes should be directories");
        assert!(node.parent_id.is_some());
        assert!(!node.children.is_empty());
        assert!(dir.num_files() > 0);
        assert!(dir.num_entries() > 0);
    }
}

#[test]
fn test_node_cache_performance() {
    let mut repo = LocalRepository::init("repo");
    add_n_files_m_dirs(&mut repo, 1000, 10);
    let c = first_commit(&mut repo);

    remove_node_cache(&mut repo).unwrap();

    let start = Instant::now();
    let tree1 = CommitMerkleTree::from_commit(&mut repo, &c).unwrap();
    let first_load_time = start.elapsed();
    println!("First load time: {:?}", first_load_time);

    let node_count = tree1.walk_tree().len();
    println!("Total nodes in tree: {}", node_count);
    assert!(node_count > 1000);

    let start = Instant::now();
    let tree2 = CommitMerkleTree::from_commit(&mut repo, &c).unwrap();
    let second_load_time = start.elapsed();
    println!("Second load time: {:?}", second_load_time);

    let start = Instant::now();
    let tree3 = CommitMerkleTree::from_commit(&mut repo, &c).unwrap();
    let third_load_time = start.elapsed();
    println!("Third load time: {:?}", third_load_time);

    assert_eq!(tree1.root.hash, tree2.root.hash);
    assert_eq!(tree2.root.hash, tree3.root.hash);
}

#[test]
fn test_node_cache_shared_nodes() {
    let mut repo = LocalRepository::init("repo");
    add_n_files_m_dirs(&mut repo, 10, 3);
    let c = first_commit(&mut repo);

    remove_node_cache(&mut repo).unwrap();

    println!("Loading root directory without children...");
    let root_no_children = CommitMerkleTree::root_without_children(&mut repo, &c)
        .unwrap()
        .expect("Root should exist");
    println!("Number of children: {}", root_no_children.children.len());
    assert!(
        !root_no_children.children.is_empty(),
        "Root should have children"
    );
    for child in &root_no_children.children {
        if matches!(child.node, EMerkleTreeNode::VNode(_)) {
            assert!(
                child.children.is_empty(),
                "VNodes should not have children loaded"
            );
        }
    }

    println!("Loading root directory with children (recursive)...");
    let root_with_children = CommitMerkleTree::root_with_children(&mut repo, &c)
        .unwrap()
        .expect("Root should exist");
    assert_eq!(
        root_no_children.hash, root_with_children.hash,
        "Root nodes should have matching hashes"
    );

    let mut has_grandchildren = false;
    for child in &root_with_children.children {
        if !child.children.is_empty() {
            has_grandchildren = true;
        }
        for grandchild in &child.children {
            if !grandchild.children.is_empty() {
                has_grandchildren = true;
            }
        }
    }
    assert!(
        has_grandchildren,
        "Root with children should have grandchildren loaded"
    );

    println!("Loading subdirectory without children...");
    let subdir_no_children = CommitMerkleTree::dir_without_children(&mut repo, &c, "files")
        .unwrap()
        .expect("Subdirectory should exist");
    assert_eq!(
        subdir_no_children.children.len(),
        0,
        "Should have no children loaded"
    );

    println!("Loading subdirectory with children...");
    let subdir_with_children = CommitMerkleTree::dir_with_children(&mut repo, &c, "files")
        .unwrap()
        .expect("Subdirectory should exist");
    assert_eq!(
        subdir_no_children.hash, subdir_with_children.hash,
        "Subdirectory nodes should have matching hashes"
    );
    assert!(
        !subdir_with_children.children.is_empty(),
        "Subdirectory with children should have children loaded"
    );
}

#[test]
fn test_read_leaf_node_directly() {
    let mut repo = LocalRepository::init("repo");
    add(&mut repo, "test.txt", b"test content".to_vec()).unwrap();
    let c = commit(&mut repo, "Test commit", "test author", 7, 0).unwrap();

    let tree = CommitMerkleTree::from_commit(&mut repo, &c).unwrap();
    let mut file_hash = None;
    for node in tree.walk_tree() {
        if let EMerkleTreeNode::File(f) = &node.node {
            if f.name == "test.txt" {
                file_hash = Some(node.hash);
            }
        }
    }
    let file_hash = file_hash.expect("Should find test.txt in tree");

    remove_node_cache(&mut repo).unwrap();

    // leaf nodes have no DB of their own: direct lookup misses
    let result = CommitMerkleTree::read_node(&mut repo, &file_hash, false).unwrap();
    assert!(
        result.is_none(),
        "Should not be able to load leaf node directly from disk"
    );

    // the correct way: load the parent and find the file through it
    let root_with_children = CommitMerkleTree::root_with_children(&mut repo, &c)
        .unwrap()
        .expect("Root should exist");
    let mut found_file = false;
    for node in root_with_children.walk_tree() {
        if let EMerkleTreeNode::File(f) = &node.node {
            if f.name == "test.txt" {
                found_file = true;
            }
        }
    }
    assert!(found_file, "Should find file when loading through parent");
}

#[test]
fn test_cache_leaf_node_handling() {
    let mut repo = LocalRepository::init("repo");
    add(&mut repo, "file1.txt", b"content1".to_vec()).unwrap();
    add(&mut repo, "subdir/file2.txt", b"content2".to_vec()).unwrap();
    let c = commit(&mut repo, "Test commit", "test author", 7, 0).unwrap();

    remove_node_cache(&mut repo).unwrap();

    let tree = CommitMerkleTree::from_commit(&mut repo, &c).unwrap();
    let mut file_hash = None;
    for node in tree.walk_tree() {
        if let EMerkleTreeNode::File(f) = &node.node {
            if f.name == "file1.txt" {
                file_hash = Some(node.hash);
            }
        }
    }
    let file_hash = file_hash.expect("Should find file1.txt");

    // cached leaves can be served directly, even recursively
    let cached = CommitMerkleTree::read_node(&mut repo, &file_hash, true).unwrap();
    let cached = cached.expect("Failed to load file node from cache");
    assert!(matches!(cached.node, EMerkleTreeNode::File(_)));

    // without the cache, a leaf has no DB to load from
    remove_node_cache(&mut repo).unwrap();
    let uncached = CommitMerkleTree::read_node(&mut repo, &file_hash, false).unwrap();
    assert!(
        uncached.is_none(),
        "Should not be able to load uncached leaf node"
    );

    // reconstruction through the cache keeps leaves reachable
    remove_node_cache(&mut repo).unwrap();
    let _dir = CommitMerkleTree::dir_with_children(&mut repo, &c, "").unwrap();
    println!("loaded dir with children (depth 1)");
    let dir_rec = CommitMerkleTree::dir_with_children_recursive(&mut repo, &c, "").unwrap();
    let dir_rec = dir_rec.expect("directory should load recursively");
    let mut file_count = 0;
    for node in dir_rec.walk_tree() {
        if matches!(node.node, EMerkleTreeNode::File(_)) {
            file_count += 1;
        }
    }
    assert!(file_count > 0, "Should have found file nodes");
}

#[test]
fn test_cache_reconstruct_with_leaf_nodes() {
    let mut repo = LocalRepository::init("repo");
    add(&mut repo, "root.txt", b"root file".to_vec()).unwrap();
    add(&mut repo, "dir1/file1.txt", b"file in dir1".to_vec()).unwrap();
    let c = commit(&mut repo, "Test commit", "test author", 7, 0).unwrap();

    remove_node_cache(&mut repo).unwrap();

    // depth 0: the root and its VNode buckets, nothing deeper
    let tree_depth0 = CommitMerkleTree::from_path_depth(&mut repo, &c, "", 0)
        .unwrap()
        .expect("Should load root");
    assert_eq!(
        tree_depth0.children.len(),
        1,
        "Root should have 1 VNode child at depth 0"
    );
    let vnode = &tree_depth0.children[0];
    assert!(
        matches!(vnode.node, EMerkleTreeNode::VNode(_)),
        "Child should be VNode"
    );
    assert_eq!(
        vnode.children.len(),
        0,
        "VNode should have no children at depth 0"
    );

    // depth 1: the root's entries, with dir1's VNode still empty
    let tree_depth1 = CommitMerkleTree::from_path_depth(&mut repo, &c, "", 1)
        .unwrap()
        .expect("Should load root");
    let mut found_root_txt = false;
    let mut found_dir1 = false;
    let mut found_file1_txt = false;
    for node in tree_depth1.walk_tree() {
        match &node.node {
            EMerkleTreeNode::File(f) => {
                if f.name == "root.txt" {
                    found_root_txt = true;
                } else if f.name == "file1.txt" {
                    found_file1_txt = true;
                }
            }
            EMerkleTreeNode::Directory(d) => {
                if d.name == "dir1" {
                    found_dir1 = true;
                    assert_eq!(
                        node.children.len(),
                        1,
                        "dir1 should have 1 VNode child at depth 1"
                    );
                    assert!(matches!(node.children[0].node, EMerkleTreeNode::VNode(_)));
                    assert_eq!(
                        node.children[0].children.len(),
                        0,
                        "dir1's VNode should have no children at depth 1"
                    );
                }
            }
            _ => {}
        }
    }
    assert!(found_root_txt, "Should find root.txt at depth 1");
    assert!(found_dir1, "Should find dir1 at depth 1");
    assert!(!found_file1_txt, "Should NOT find file1.txt at depth 1");

    // depth 2: file1.txt appears, since VNodes are free
    let tree_depth2 = CommitMerkleTree::from_path_depth(&mut repo, &c, "", 2)
        .unwrap()
        .expect("Should load root");
    let mut found_file1_txt_d2 = false;
    for node in tree_depth2.walk_tree() {
        if let EMerkleTreeNode::File(f) = &node.node {
            if f.name == "file1.txt" {
                found_file1_txt_d2 = true;
            }
        }
    }
    assert!(found_file1_txt_d2, "Should find file1.txt at depth 2");

    // cached leaves serve direct reads until the cache is dropped
    remove_node_cache(&mut repo).unwrap();
    let dir1_tree = CommitMerkleTree::from_path_depth(&mut repo, &c, "dir1", 1)
        .unwrap()
        .expect("Should load dir1");
    let mut file_hash = None;
    for node in dir1_tree.walk_tree() {
        if let EMerkleTreeNode::File(f) = &node.node {
            if f.name == "file1.txt" {
                file_hash = Some(node.hash);
            }
        }
    }
    let file_hash = file_hash.expect("Should find file1.txt");
    let cached_file = CommitMerkleTree::read_node(&mut repo, &file_hash, false).unwrap();
    assert!(
        cached_file.is_some(),
        "File should be in cache after parent was loaded"
    );
    remove_node_cache(&mut repo).unwrap();
    let uncached_file = CommitMerkleTree::read_node(&mut repo, &file_hash, false).unwrap();
    assert!(
        uncached_file.is_none(),
        "File should not be loadable when not cached"
    );
}
