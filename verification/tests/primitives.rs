//! Hashes, the version store, comparisons and the integrity pass.

use oxen_core::commit::{add, commit};
use oxen_core::compare::{added_fields, compute_new_row_indices, get_compare_dir, removed_fields};
use oxen_core::content_validator::{compute, is_valid};
use oxen_core::error::OxenErrorKind;
use oxen_core::hash::{hash_buffer_128bit, MerkleHash};
use oxen_core::repo::{Commit, LocalRepository};
use oxen_core::store::{InMemoryVersionStore, S3VersionStore, VersionStore};

#[test]
fn digest_depends_on_the_bytes_alone() {
    let a = hash_buffer_128bit(b"hello");
    let b = hash_buffer_128bit(b"hello");
    let c = hash_buffer_128bit(b"hello!");
    assert_eq!(a, b);
    assert_ne!(a, c);
    assert_ne!(hash_buffer_128bit(b""), 0);
}

#[test]
fn hex_rendering_round_trips() {
    let h = MerkleHash::new(0x0123456789abcdef0011223344556677u128);
    let s = h.to_hex_string();
    assert_eq!(s, "0123456789abcdef0011223344556677");
    assert_eq!(s.len(), 32);
    let back = MerkleHash::from_hex_str(s.as_str()).unwrap();
    assert_eq!(back, h);
    assert_eq!(h.to_short_str(), "0123456789");

    assert!(MerkleHash::from_hex_str("xyz").is_err());
    assert!(MerkleHash::from_hex_str("0123").is_err());
    assert!(MerkleHash::from_hex_str("0123456789ABCDEF0011223344556677").is_err());
}

#[test]
fn in_memory_store_is_content_addressed() {
    let mut store = InMemoryVersionStore::new();
    let h = MerkleHash::new(hash_buffer_128bit(b"blob"));
    assert!(!store.contains(h));
    store.save_from_bytes(h, b"blob".to_vec()).unwrap();
    assert!(store.contains(h));
    assert_eq!(store.get_to_bytes(h).unwrap(), b"blob".to_vec());

    // the second write of the same content is a no-op
    store.save_from_bytes(h, b"blob".to_vec()).unwrap();
    assert_eq!(store.list().len(), 1);

    let missing = MerkleHash::new(1);
    let err = store.get_to_bytes(missing).unwrap_err();
    assert_eq!(err.kind(), OxenErrorKind::NotFound);

    store.delete(h).unwrap();
    assert!(!store.contains(h));
}

#[test]
fn s3_store_reports_unsupported() {
    let mut s3 = S3VersionStore::new("bucket-name".to_string(), "prefix".to_string());
    assert_eq!(VersionStore::storage_type(&s3), "s3");
    let h = MerkleHash::new(7);
    assert!(VersionStore::init(&mut s3).is_err());
    assert!(VersionStore::get_to_bytes(&s3, h).is_err());
    assert!(VersionStore::contains(&s3, h).is_err());
    let settings = VersionStore::storage_settings(&s3);
    assert_eq!(settings.len(), 2);
}

#[test]
fn row_and_field_diffs() {
    let base = vec!["h1".to_string(), "h2".to_string(), "h3".to_string()];
    let head = vec!["h2".to_string(), "h4".to_string(), "h1".to_string(), "h5".to_string()];
    let (added, removed) = compute_new_row_indices(&base, &head).unwrap();
    assert_eq!(added, vec![1, 3], "h4 and h5 are new, ascending");
    assert_eq!(removed, vec![2], "h3 is gone");

    let s1 = vec!["file".to_string(), "label".to_string()];
    let s2 = vec!["file".to_string(), "label".to_string(), "is_cute".to_string()];
    assert_eq!(added_fields(&s1, &s2), vec!["is_cute".to_string()]);
    assert!(removed_fields(&s1, &s2).is_empty());
    assert_eq!(removed_fields(&s2, &s1), vec!["is_cute".to_string()]);
}

#[test]
fn compare_dir_location() {
    let repo = LocalRepository::init("my_repo");
    let dir = get_compare_dir(&repo, "abc123");
    assert_eq!(dir, "my_repo/.oxen/cache/compares/abc123");
}

#[test]
fn integrity_pass_validates_commits() {
    let mut repo = LocalRepository::init("repo");
    add(&mut repo, "f.txt", b"data".to_vec()).unwrap();
    let c = commit(&mut repo, "msg", "author", 7, 0).unwrap();

    assert!(!is_valid(&repo, &c), "not validated until the pass runs");
    compute(&mut repo, &c).unwrap();
    assert!(is_valid(&repo, &c));

    let ghostly = Commit {
        id: MerkleHash::new(12345),
        message: "never committed".to_string(),
        author: "nobody".to_string(),
        timestamp_s: 0,
        timestamp_ns: 0,
        parent_ids: Vec::new(),
    };
    compute(&mut repo, &ghostly).unwrap();
    assert!(!is_valid(&repo, &ghostly), "an unknown commit is unsound");
}

#[test]
fn commit_metadata_round_trips() {
    let mut repo = LocalRepository::init("repo");
    add(&mut repo, "f.txt", b"data".to_vec()).unwrap();
    let c1 = commit(&mut repo, "first", "alice", 100, 5).unwrap();
    assert_eq!(c1.message, "first");
    assert_eq!(c1.author, "alice");
    assert_eq!(c1.timestamp_s, 100);
    assert_eq!(c1.timestamp_ns, 5);
    assert!(c1.parent_ids.is_empty());

    add(&mut repo, "g.txt", b"more".to_vec()).unwrap();
    let c2 = commit(&mut repo, "second", "bob", 200, 6).unwrap();
    assert_eq!(c2.parent_ids, vec![c1.id]);
    assert_ne!(c1.id, c2.id);

    let path = oxen_core::commit_merkle_tree::CommitMerkleTree::dir_hash_db_path_from_commit_id(
        &repo, c1.id,
    );
    let expected = format!("repo/.oxen/history/{}/dir_hashes", c1.id.to_hex_string());
    assert_eq!(path, expected);
}
