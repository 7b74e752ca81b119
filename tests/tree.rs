use pmtree::codec::{decode_u64, encode_u64, node_key, pow2_exec, DEPTH_KEY, NEXT_INDEX_KEY};
use pmtree::database::{Database, MemoryDb};
use pmtree::hasher::{empty_hashes, ConcatHasher, Hasher};
use pmtree::merkle_proof::{verify, MerkleProof};
use pmtree::tree::MerkleTree;
use pmtree::{DatabaseErrorKind, PmtreeErrorKind, TreeErrorKind};

type Tree = MerkleTree<MemoryDb, ConcatHasher>;

fn h(l: &[u8], r: &[u8]) -> Vec<u8> {
    ConcatHasher::hash(&l.to_vec(), &r.to_vec())
}

fn fresh(depth: u64) -> Tree {
    Tree::new(MemoryDb::new(), depth).unwrap()
}

fn all_verify(t: &Tree) -> bool {
    let root = t.root();
    (0..t.next_index()).all(|i| {
        let leaf = t.get(i).unwrap();
        let p = t.proof_of(i).unwrap();
        verify::<ConcatHasher>(&leaf, i, &p, &root)
    })
}

fn same_path(a: &MerkleProof, b: &MerkleProof) -> bool {
    a.path.len() == b.path.len()
        && a.path.iter().zip(b.path.iter()).all(|(x, y)| {
            x.sibling == y.sibling && x.sibling_is_left == y.sibling_is_left
        })
}

#[test]
fn depth_two_scenario() {
    let a = vec![0xa1u8];
    let b = vec![0xb2u8];
    let c = vec![0xc3u8];
    let mut t = fresh(2);
    assert_eq!(t.insert(a.clone()).unwrap(), 0);
    assert_eq!(t.insert(b.clone()).unwrap(), 1);
    let e0 = ConcatHasher::default_leaf();
    let expected = h(&h(&a, &b), &h(&e0, &e0));
    assert_eq!(t.root(), expected);
    assert_eq!(t.root(), vec![0xa1, 0xb2, 0, 0]);
    let p0 = t.proof_of(0).unwrap();
    assert!(verify::<ConcatHasher>(&a, 0, &p0, &t.root()));

    let old_root = t.root();
    let old_p1 = t.proof_of(1).unwrap();
    assert_eq!(old_p1.path[0].sibling, a);
    t.update(0, c.clone()).unwrap();
    assert_ne!(t.root(), old_root);
    assert_eq!(t.root(), h(&h(&c, &b), &h(&e0, &e0)));
    let p1 = t.proof_of(1).unwrap();
    assert_eq!(p1.path[0].sibling, c);
    assert!(p1.path[0].sibling_is_left);
    assert_eq!(p1.path[1].sibling, h(&e0, &e0));
    assert!(!p1.path[1].sibling_is_left);
    assert_ne!(p1.compute_root::<ConcatHasher>(&b), old_p1.compute_root::<ConcatHasher>(&b));
    assert!(verify::<ConcatHasher>(&b, 1, &p1, &t.root()));
    assert!(!verify::<ConcatHasher>(&b, 1, &old_p1, &t.root()));
}

#[test]
fn insert_then_get_returns_each_value() {
    let mut t = fresh(3);
    for i in 0..8u8 {
        assert_eq!(t.insert(vec![i, i + 100]).unwrap(), i as u64);
    }
    for i in 0..8u8 {
        assert_eq!(t.get(i as u64).unwrap(), vec![i, i + 100]);
    }
    assert_eq!(t.next_index(), 8);
}

#[test]
fn proofs_verify_after_every_mutation() {
    let mut t = fresh(3);
    for i in 0..5u8 {
        t.insert(vec![i + 1]).unwrap();
        assert!(all_verify(&t));
    }
    t.update(2, vec![42]).unwrap();
    assert!(all_verify(&t));
    t.delete(0).unwrap();
    assert!(all_verify(&t));
    t.insert(vec![9]).unwrap();
    assert!(all_verify(&t));
}

#[test]
fn verify_rejects_wrong_index_leaf_or_root() {
    let mut t = fresh(2);
    t.insert(vec![1]).unwrap();
    t.insert(vec![2]).unwrap();
    let root = t.root();
    let p = t.proof_of(1).unwrap();
    assert!(verify::<ConcatHasher>(&vec![2], 1, &p, &root));
    assert!(!verify::<ConcatHasher>(&vec![2], 0, &p, &root));
    assert!(!verify::<ConcatHasher>(&vec![2], 5, &p, &root));
    assert!(!verify::<ConcatHasher>(&vec![3], 1, &p, &root));
    assert!(!verify::<ConcatHasher>(&vec![2], 1, &p, &vec![1, 2, 0, 1]));
}

#[test]
fn close_and_reopen_keeps_the_tree() {
    let mut t = fresh(3);
    for i in 0..5u8 {
        t.insert(vec![i * 3]).unwrap();
    }
    t.update(1, vec![77]).unwrap();
    let root = t.root();
    let leaves: Vec<Vec<u8>> = (0..5).map(|i| t.get(i).unwrap()).collect();
    let db = t.close();
    let reopened = Tree::load(db).unwrap();
    assert_eq!(reopened.root(), root);
    assert_eq!(reopened.next_index(), 5);
    assert_eq!(reopened.depth(), 3);
    for i in 0..5u64 {
        assert_eq!(reopened.get(i).unwrap(), leaves[i as usize]);
    }
    let again = Tree::open(reopened.close(), 3).unwrap();
    assert_eq!(again.root(), root);
    assert_eq!(again.next_index(), 5);
}

#[test]
fn proof_is_deterministic() {
    let mut t = fresh(3);
    for i in 0..6u8 {
        t.insert(vec![i]).unwrap();
    }
    for i in 0..6u64 {
        let p = t.proof_of(i).unwrap();
        let q = t.proof_of(i).unwrap();
        assert!(same_path(&p, &q));
        assert_eq!(p.path.len(), 3);
    }
}

#[test]
fn full_tree_rejects_insert_and_keeps_state() {
    let mut t = fresh(1);
    t.insert(vec![1]).unwrap();
    t.insert(vec![2]).unwrap();
    assert_eq!(t.capacity(), 2);
    let root = t.root();
    let r = t.insert(vec![3]);
    assert!(matches!(r, Err(PmtreeErrorKind::TreeError(TreeErrorKind::MerkleTreeIsFull))));
    assert_eq!(t.root(), root);
    assert_eq!(t.next_index(), 2);
    assert_eq!(t.get(1).unwrap(), vec![2]);
}

#[test]
fn out_of_bounds_index_is_rejected() {
    let mut t = fresh(2);
    t.insert(vec![5]).unwrap();
    let root = t.root();
    assert!(matches!(t.get(1), Err(PmtreeErrorKind::TreeError(TreeErrorKind::IndexOutOfBounds))));
    assert!(matches!(
        t.update(1, vec![6]),
        Err(PmtreeErrorKind::TreeError(TreeErrorKind::IndexOutOfBounds))
    ));
    assert!(matches!(t.delete(3), Err(PmtreeErrorKind::TreeError(TreeErrorKind::IndexOutOfBounds))));
    assert!(matches!(
        t.proof_of(4),
        Err(PmtreeErrorKind::TreeError(TreeErrorKind::IndexOutOfBounds))
    ));
    assert_eq!(t.root(), root);
    assert_eq!(t.next_index(), 1);
}

#[test]
fn delete_resets_leaf_but_keeps_index() {
    let mut t = fresh(2);
    t.insert(vec![5]).unwrap();
    t.insert(vec![6]).unwrap();
    t.delete(0).unwrap();
    assert_eq!(t.get(0).unwrap(), vec![0]);
    assert_eq!(t.next_index(), 2);
    assert_eq!(t.root(), vec![0, 6, 0, 0]);
    assert_eq!(t.insert(vec![7]).unwrap(), 2);
}

#[test]
fn empty_tree_root_is_empty_hash() {
    let t = fresh(3);
    assert_eq!(t.root(), vec![0u8; 8]);
    assert_eq!(t.next_index(), 0);
    assert_eq!(t.capacity(), 8);
    let e = empty_hashes::<ConcatHasher>(3);
    assert_eq!(e.len(), 4);
    assert_eq!(e[3], t.root());
    assert_eq!(e[1], vec![0, 0]);
}

#[test]
fn depth_zero_tree_has_one_slot() {
    let mut t = fresh(0);
    assert_eq!(t.insert(vec![4]).unwrap(), 0);
    assert_eq!(t.root(), vec![4]);
    let p = t.proof_of(0).unwrap();
    assert_eq!(p.path.len(), 0);
    assert!(verify::<ConcatHasher>(&vec![4], 0, &p, &vec![4]));
    assert!(matches!(t.insert(vec![5]), Err(PmtreeErrorKind::TreeError(TreeErrorKind::MerkleTreeIsFull))));
}

#[test]
fn new_rejects_unsupported_depth() {
    let r = Tree::new(MemoryDb::new(), 57);
    assert!(matches!(r, Err(PmtreeErrorKind::TreeError(TreeErrorKind::InvalidKey))));
}

#[test]
fn new_rejects_store_with_state() {
    let t = fresh(2);
    let r = Tree::new(t.close(), 2);
    assert!(matches!(r, Err(PmtreeErrorKind::DatabaseError(DatabaseErrorKind::DatabaseExists))));
}

#[test]
fn load_rejects_store_without_tree() {
    let r = Tree::load(MemoryDb::new());
    assert!(matches!(r, Err(PmtreeErrorKind::DatabaseError(DatabaseErrorKind::CannotLoadDatabase))));
    let mut db = MemoryDb::new();
    db.put(DEPTH_KEY, vec![1, 2, 3]);
    db.put(NEXT_INDEX_KEY, encode_u64(0));
    assert!(matches!(
        Tree::load(db),
        Err(PmtreeErrorKind::DatabaseError(DatabaseErrorKind::CannotLoadDatabase))
    ));
    let mut db = MemoryDb::new();
    db.put(DEPTH_KEY, encode_u64(2));
    db.put(NEXT_INDEX_KEY, encode_u64(5));
    assert!(matches!(
        Tree::load(db),
        Err(PmtreeErrorKind::DatabaseError(DatabaseErrorKind::CannotLoadDatabase))
    ));
}

#[test]
fn open_creates_or_resumes_and_checks_depth() {
    let mut t = Tree::open(MemoryDb::new(), 2).unwrap();
    t.insert(vec![8]).unwrap();
    let db = t.close();
    assert_eq!(db.get(DEPTH_KEY), Some(encode_u64(2)));
    assert_eq!(db.get(NEXT_INDEX_KEY), Some(encode_u64(1)));
    let r = Tree::open(db, 3);
    assert!(matches!(r, Err(PmtreeErrorKind::DatabaseError(DatabaseErrorKind::CannotLoadDatabase))));
}

#[test]
fn node_keys_pack_level_and_index() {
    assert_eq!(node_key(0, 5).unwrap(), 5);
    assert_eq!(node_key(1, 3).unwrap(), 0x100_0000_0000_0003);
    assert_eq!(node_key(56, 0).unwrap(), 56 * 0x100_0000_0000_0000);
    assert!(matches!(node_key(57, 0), Err(TreeErrorKind::InvalidKey)));
    assert!(matches!(node_key(0, 0x100_0000_0000_0000), Err(TreeErrorKind::InvalidKey)));
    assert!(node_key(56, 0xff_ffff_ffff_ffff).unwrap() < DEPTH_KEY);
}

#[test]
fn metadata_integers_round_trip() {
    assert_eq!(encode_u64(0x0102_0304_0506_0708), vec![1, 2, 3, 4, 5, 6, 7, 8]);
    assert_eq!(decode_u64(&vec![1, 2, 3, 4, 5, 6, 7, 8]), Some(0x0102_0304_0506_0708));
    assert_eq!(decode_u64(&encode_u64(u64::MAX)), Some(u64::MAX));
    assert_eq!(decode_u64(&vec![1, 2, 3]), None);
    assert_eq!(pow2_exec(10), 1024);
}

#[test]
fn concat_hasher_keeps_order() {
    assert_eq!(h(&[1, 2], &[3]), vec![1, 2, 3]);
    assert_ne!(h(&[1], &[2]), h(&[2], &[1]));
}

#[test]
fn memory_db_stores_and_replaces() {
    let mut db = MemoryDb::new();
    assert!(db.is_empty());
    assert_eq!(db.get(7), None);
    db.put(7, vec![1]);
    db.put(7, vec![2]);
    assert_eq!(db.get(7), Some(vec![2]));
    assert!(!db.is_empty());
}

#[test]
fn error_messages() {
    let e = PmtreeErrorKind::TreeError(TreeErrorKind::IndexOutOfBounds);
    assert_eq!(e.message(), "Tree error: IndexOutOfBounds");
    let e = PmtreeErrorKind::DatabaseError(DatabaseErrorKind::DatabaseExists);
    assert_eq!(e.message(), "Database error: DatabaseExists");
    let e = PmtreeErrorKind::UnknownError("disk \"a\"".to_string());
    assert_eq!(e.message(), "Unknown error: \"disk \\\"a\\\"\"");
    let e = PmtreeErrorKind::TreeError(TreeErrorKind::UnknownError("x".to_string()));
    assert_eq!(e.message(), "Tree error: UnknownError(\"x\")");
    assert_eq!(e.message(), format!("Tree error: {:?}", TreeErrorKind::UnknownError("x".to_string())));
    let e = PmtreeErrorKind::DatabaseError(DatabaseErrorKind::UnknownError("a\nb".to_string()));
    assert_eq!(e.message(), "Database error: UnknownError(\"a\\nb\")");
    let e = PmtreeErrorKind::DatabaseError(DatabaseErrorKind::CannotLoadDatabase);
    assert_eq!(e.message(), "Database error: CannotLoadDatabase");
    let e = PmtreeErrorKind::TreeError(TreeErrorKind::MerkleTreeIsFull);
    assert_eq!(e.message(), "Tree error: MerkleTreeIsFull");
    assert_eq!(TreeErrorKind::InvalidKey.text(), "InvalidKey");
}

#[test]
fn proof_recombines_and_spells_index() {
    let mut t = fresh(2);
    for i in 0..3u8 {
        t.insert(vec![10 + i]).unwrap();
    }
    let p = t.proof_of(2).unwrap();
    assert_eq!(p.compute_root::<ConcatHasher>(&vec![12]), t.root());
    assert_eq!(t.root(), vec![10, 11, 12, 0]);
    assert!(p.fits_index(2));
    assert!(!p.fits_index(3));
    assert!(!p.fits_index(6));
    assert_eq!(p.path[0].sibling, vec![0]);
    assert!(!p.path[0].sibling_is_left);
    assert_eq!(p.path[1].sibling, vec![10, 11]);
    assert!(p.path[1].sibling_is_left);
}
