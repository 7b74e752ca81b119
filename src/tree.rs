//! The Merkle tree engine: nodes addressed by (level, index) coordinates, leaves
//! at level 0 and the root at level `depth`, all held in a key-value store.
use core::marker::PhantomData;
use vstd::prelude::*;

use crate::codec::{
    be_bytes, coordinate_key, decode_u64, encode_u64, from_be_bytes, key_of,
    lemma_from_be_bytes_inverse, lemma_key_not_reserved, lemma_keys_distinct,
    lemma_pow2_within_stride, pow2, pow2_exec, valid_coordinate, DEPTH_KEY, LEVEL_STRIDE,
    MAX_DEPTH, NEXT_INDEX_KEY,
};
use crate::copy_bytes;
use crate::database::Database;
use crate::hasher::{empty_hash, empty_hashes, Hasher};
use crate::merkle_proof::{fold_path, path_fits, MerkleProof, PathStep};
use crate::model::{
    ancestor, lemma_merkle_path_verifies, merkle_path, merkle_root, sibling, subtree_hash,
};
use crate::{DatabaseErrorKind, PmtreeErrorKind, PmtreeResult, TreeErrorKind};

verus! {

/// The value of the node at `(level, index)` in `store`: what is stored under
/// its key, or the empty-subtree value of its level when nothing is.
pub open spec fn node_value<H: Hasher>(store: Map<u64, Seq<u8>>, level: nat, index: nat) -> Seq<
    u8,
> {
    if store.contains_key(key_of(level, index)) {
        store[key_of(level, index)]
    } else {
        empty_hash::<H>(level)
    }
}

/// The node at `(level, index)` holds the hash of its two children, left first.
pub open spec fn consistent_at<H: Hasher>(store: Map<u64, Seq<u8>>, level: nat, index: nat) -> bool {
    node_value::<H>(store, level, index) == H::spec_hash(
        node_value::<H>(store, (level - 1) as nat, 2 * index),
        node_value::<H>(store, (level - 1) as nat, 2 * index + 1),
    )
}

/// Every internal node of a tree of `depth` is consistent, except perhaps the
/// one at `(level, index)`.
pub open spec fn consistent_except<H: Hasher>(
    store: Map<u64, Seq<u8>>,
    depth: nat,
    level: nat,
    index: nat,
) -> bool {
    forall|l: nat, i: nat|
        1 <= l <= depth && i < pow2((depth - l) as nat) && !(l == level && i == index)
            ==> #[trigger] consistent_at::<H>(store, l, i)
}

/// Every internal node of a tree of `depth` holds the hash of its children.
pub open spec fn consistent<H: Hasher>(store: Map<u64, Seq<u8>>, depth: nat) -> bool {
    consistent_except::<H>(store, depth, depth + 1, 0)
}

/// The store holds a tree's metadata: its depth and next free leaf index.
pub open spec fn metadata_holds(store: Map<u64, Seq<u8>>, depth: u64, next_index: u64) -> bool {
    &&& store.contains_key(DEPTH_KEY)
    &&& store[DEPTH_KEY] == be_bytes(depth)
    &&& store.contains_key(NEXT_INDEX_KEY)
    &&& store[NEXT_INDEX_KEY] == be_bytes(next_index)
}

/// Every leaf slot from `next_index` on holds the empty leaf.
pub open spec fn unused_leaves_empty<H: Hasher>(store: Map<u64, Seq<u8>>, depth: nat, next_index: nat) -> bool {
    forall|j: nat|
        next_index <= j < pow2(depth) ==> #[trigger] node_value::<H>(store, 0, j) == H::spec_default_leaf()
}

/// The first `next_index` leaves the store holds.
pub open spec fn leaves_of<H: Hasher>(store: Map<u64, Seq<u8>>, next_index: nat) -> Seq<Seq<u8>> {
    Seq::new(next_index, |j: int| node_value::<H>(store, 0, j as nat))
}

/// The store holds a whole well-formed tree of `depth` with `next_index` leaves.
pub open spec fn image_wf<H: Hasher>(store: Map<u64, Seq<u8>>, depth: u64, next_index: u64) -> bool {
    &&& depth <= MAX_DEPTH
    &&& next_index <= pow2(depth as nat)
    &&& metadata_holds(store, depth, next_index)
    &&& consistent::<H>(store, depth as nat)
    &&& unused_leaves_empty::<H>(store, depth as nat, next_index as nat)
}

/// The children of a node of a tree of `depth` are valid coordinates.
proof fn lemma_children_valid(depth: nat, level: nat, index: nat)
    requires
        depth <= MAX_DEPTH,
        1 <= level <= depth,
        index < pow2((depth - level) as nat),
    ensures
        2 * index + 1 < pow2((depth - (level - 1)) as nat),
        valid_coordinate(level, index),
        valid_coordinate((level - 1) as nat, 2 * index),
        valid_coordinate((level - 1) as nat, 2 * index + 1),
{
    assert(pow2((depth - (level - 1)) as nat) == 2 * pow2((depth - level) as nat));
    lemma_pow2_within_stride((depth - (level - 1)) as nat);
}

/// Writing `value` at `(level, index)`, where it is the hash of the children
/// (or a leaf), moves the one possibly inconsistent node up to the parent.
proof fn lemma_write_moves_exception<H: Hasher>(
    store: Map<u64, Seq<u8>>,
    depth: nat,
    level: nat,
    index: nat,
    value: Seq<u8>,
)
    requires
        depth <= MAX_DEPTH,
        level <= depth,
        index < pow2((depth - level) as nat),
        consistent_except::<H>(store, depth, level, index),
        level > 0 ==> value == H::spec_hash(
            node_value::<H>(store, (level - 1) as nat, 2 * index),
            node_value::<H>(store, (level - 1) as nat, 2 * index + 1),
        ),
    ensures
        consistent_except::<H>(store.insert(key_of(level, index), value), depth, level + 1, index / 2),
{
    let s2 = store.insert(key_of(level, index), value);
    lemma_pow2_within_stride((depth - level) as nat);
    assert forall|l: nat, i: nat|
        1 <= l <= depth && i < pow2((depth - l) as nat) && !(l == level + 1 && i == index / 2)
        implies #[trigger] consistent_at::<H>(s2, l, i) by {
        lemma_children_valid(depth, l, i);
        let lc = (l - 1) as nat;
        assert(!(lc == level && 2 * i == index));
        assert(!(lc == level && 2 * i + 1 == index));
        lemma_keys_distinct(lc, 2 * i, level, index);
        lemma_keys_distinct(lc, 2 * i + 1, level, index);
        assert(node_value::<H>(s2, lc, 2 * i) == node_value::<H>(store, lc, 2 * i));
        assert(node_value::<H>(s2, lc, 2 * i + 1) == node_value::<H>(store, lc, 2 * i + 1));
        if l == level && i == index {
            assert(node_value::<H>(s2, l, i) == value);
        } else {
            lemma_keys_distinct(l, i, level, index);
            assert(consistent_at::<H>(store, l, i));
            assert(node_value::<H>(s2, l, i) == node_value::<H>(store, l, i));
        }
    }
}

/// What a fresh store holds once a tree of `depth` is created in it.
pub open spec fn fresh_image(depth: u64) -> Map<u64, Seq<u8>> {
    Map::<u64, Seq<u8>>::empty().insert(DEPTH_KEY, be_bytes(depth)).insert(
        NEXT_INDEX_KEY,
        be_bytes(0),
    )
}

/// The store's metadata can be loaded: both reserved keys hold eight bytes, the
/// depth is supported and the leaf count fits in the tree.
pub open spec fn stored_metadata_valid(store: Map<u64, Seq<u8>>) -> bool {
    &&& store.contains_key(DEPTH_KEY)
    &&& store[DEPTH_KEY].len() == 8
    &&& from_be_bytes(store[DEPTH_KEY]) <= MAX_DEPTH
    &&& store.contains_key(NEXT_INDEX_KEY)
    &&& store[NEXT_INDEX_KEY].len() == 8
    &&& from_be_bytes(store[NEXT_INDEX_KEY]) <= pow2(from_be_bytes(store[DEPTH_KEY]) as nat)
}

/// Writing a reserved key changes no node.
proof fn lemma_metadata_write<H: Hasher>(
    store: Map<u64, Seq<u8>>,
    depth: nat,
    key: u64,
    value: Seq<u8>,
)
    requires
        depth <= MAX_DEPTH,
        key == DEPTH_KEY || key == NEXT_INDEX_KEY,
    ensures
        forall|l: nat, i: nat|
            l <= depth && i < pow2((depth - l) as nat) ==> #[trigger] node_value::<H>(
                store.insert(key, value),
                l,
                i,
            ) == node_value::<H>(store, l, i),
        consistent::<H>(store, depth) ==> consistent::<H>(store.insert(key, value), depth),
{
    let s2 = store.insert(key, value);
    assert forall|l: nat, i: nat| l <= depth && i < pow2((depth - l) as nat) implies #[trigger] node_value::<H>(
        s2,
        l,
        i,
    ) == node_value::<H>(store, l, i) by {
        lemma_pow2_within_stride((depth - l) as nat);
        lemma_key_not_reserved(l, i);
    }
    if consistent::<H>(store, depth) {
        assert forall|l: nat, i: nat|
            1 <= l <= depth && i < pow2((depth - l) as nat) && !(l == depth + 1 && i == 0)
            implies #[trigger] consistent_at::<H>(s2, l, i) by {
            lemma_children_valid(depth, l, i);
            lemma_key_not_reserved(l, i);
            lemma_key_not_reserved((l - 1) as nat, 2 * i);
            lemma_key_not_reserved((l - 1) as nat, 2 * i + 1);
            assert(consistent_at::<H>(store, l, i));
        }
    }
}

/// A store holding only metadata holds a consistent tree: every node is empty.
proof fn lemma_fresh_consistent<H: Hasher>(depth: u64)
    requires
        depth <= MAX_DEPTH,
    ensures
        consistent::<H>(fresh_image(depth), depth as nat),
        unused_leaves_empty::<H>(fresh_image(depth), depth as nat, 0),
{
    let s = fresh_image(depth);
    assert forall|j: nat| 0 <= j < pow2(depth as nat) implies #[trigger] node_value::<H>(s, 0, j)
        == H::spec_default_leaf() by {
        lemma_pow2_within_stride(depth as nat);
        lemma_key_not_reserved(0, j);
    }
    assert forall|l: nat, i: nat|
        1 <= l <= depth && i < pow2((depth - l) as nat) && !(l == depth + 1 && i == 0)
        implies #[trigger] consistent_at::<H>(s, l, i) by {
        lemma_children_valid(depth as nat, l, i);
        lemma_key_not_reserved(l, i);
        lemma_key_not_reserved((l - 1) as nat, 2 * i);
        lemma_key_not_reserved((l - 1) as nat, 2 * i + 1);
    }
}

/// In a well-formed tree every node holds the value of its subtree over the leaves.
proof fn lemma_nodes_match_model<H: Hasher>(
    store: Map<u64, Seq<u8>>,
    depth: nat,
    next_index: nat,
    level: nat,
    index: nat,
)
    requires
        depth <= MAX_DEPTH,
        next_index <= pow2(depth),
        consistent::<H>(store, depth),
        unused_leaves_empty::<H>(store, depth, next_index),
        level <= depth,
        index < pow2((depth - level) as nat),
    ensures
        node_value::<H>(store, level, index) == subtree_hash::<H>(
            leaves_of::<H>(store, next_index),
            level,
            index,
        ),
    decreases level,
{
    if level > 0 {
        lemma_children_valid(depth, level, index);
        lemma_nodes_match_model::<H>(store, depth, next_index, (level - 1) as nat, 2 * index);
        lemma_nodes_match_model::<H>(store, depth, next_index, (level - 1) as nat, 2 * index + 1);
        assert(consistent_at::<H>(store, level, index));
    }
}

/// A Merkle tree of fixed depth whose nodes live in the store `D`, hashed by `H`.
pub struct MerkleTree<D: Database, H: Hasher> {
    db: D,
    depth: u64,
    next_index: u64,
    capacity: u64,
    empty: Vec<Vec<u8>>,
    hasher: PhantomData<H>,
}

impl<D: Database, H: Hasher> MerkleTree<D, H> {
    /// What the store holds.
    pub closed spec fn contents(&self) -> Map<u64, Seq<u8>> {
        self.db.contents()
    }

    /// The tree's depth: it has `2^depth` leaf slots.
    pub closed spec fn spec_depth(&self) -> u64 {
        self.depth
    }

    /// How many leaves were ever inserted; the next free leaf index.
    pub closed spec fn spec_next_index(&self) -> u64 {
        self.next_index
    }

    /// The inserted leaves, in index order.
    pub closed spec fn spec_leaves(&self) -> Seq<Seq<u8>> {
        leaves_of::<H>(self.db.contents(), self.next_index as nat)
    }

    /// The cached capacity and empty-subtree values match the depth and the hash engine.
    pub closed spec fn cache_ok(&self) -> bool {
        &&& self.depth <= MAX_DEPTH
        &&& self.capacity == pow2(self.depth as nat)
        &&& self.empty@.len() == self.depth + 1
        &&& forall|l: int| 0 <= l <= self.depth ==> #[trigger] self.empty@[l]@ == empty_hash::<H>(l as nat)
    }

    /// The tree's invariant: the store holds a well-formed tree of this depth
    /// and leaf count, and the caches agree with it.
    pub closed spec fn wf(&self) -> bool {
        &&& self.cache_ok()
        &&& image_wf::<H>(self.db.contents(), self.depth, self.next_index)
    }

    /// The invariant without the emptiness of unused leaf slots.
    closed spec fn nodes_wf(&self) -> bool {
        &&& self.cache_ok()
        &&& self.next_index <= pow2(self.depth as nat)
        &&& metadata_holds(self.db.contents(), self.depth, self.next_index)
        &&& consistent::<H>(self.db.contents(), self.depth as nat)
    }

    /// `after` is this tree, of the same depth, with the leaf at `index` set to
    /// `value` and every other leaf kept.
    closed spec fn leaf_written(&self, after: &Self, index: nat, value: Seq<u8>) -> bool {
        &&& after.depth == self.depth
        &&& node_value::<H>(after.db.contents(), 0, index) == value
        &&& forall|j: nat|
            j < pow2(self.depth as nat) && j != index ==> #[trigger] node_value::<H>(
                after.db.contents(),
                0,
                j,
            ) == node_value::<H>(self.db.contents(), 0, j)
    }

    /// The tree was loaded from `store`: it works on exactly that store, with the
    /// depth and leaf count its metadata records.
    pub open spec fn loaded_from(&self, store: Map<u64, Seq<u8>>) -> bool {
        &&& self.cache_ok()
        &&& self.contents() == store
        &&& self.spec_depth() == from_be_bytes(store[DEPTH_KEY])
        &&& self.spec_next_index() == from_be_bytes(store[NEXT_INDEX_KEY])
    }

    fn read_node(&self, level: u64, index: u64) -> (r: Vec<u8>)
        requires
            self.cache_ok(),
            level <= self.depth,
            index < LEVEL_STRIDE,
        ensures
            r@ == node_value::<H>(self.db.contents(), level as nat, index as nat),
    {
        let k = coordinate_key(level, index);
        match self.db.get(k) {
            Some(v) => v,
            None => copy_bytes(&self.empty[level as usize]),
        }
    }

    /// Writes `leaf` at `index` and recomputes every ancestor up to the root.
    fn write_leaf(&mut self, index: u64, leaf: Vec<u8>)
        requires
            old(self).nodes_wf(),
            index < pow2(old(self).depth as nat),
        ensures
            final(self).nodes_wf(),
            final(self).depth == old(self).depth,
            final(self).next_index == old(self).next_index,
            old(self).leaf_written(final(self), index as nat, leaf@),
    {
        let ghost depth = self.depth as nat;
        let ghost s0 = self.db.contents();
        proof {
            lemma_pow2_within_stride(depth);
            lemma_write_moves_exception::<H>(s0, depth, 0, index as nat, leaf@);
        }
        let mut cur = copy_bytes(&leaf);
        self.db.put(coordinate_key(0, index), leaf);
        let ghost s1 = self.db.contents();
        proof {
            assert forall|j: nat| j < pow2(depth) && j != index implies #[trigger] node_value::<H>(
                s1,
                0,
                j,
            ) == node_value::<H>(s0, 0, j) by {
                lemma_keys_distinct(0, j, 0, index as nat);
            }
            lemma_keys_distinct(0, index as nat, 1, 0);
        }
        let mut a: u64 = index;
        let mut l: u64 = 0;
        while l < self.depth
            invariant
                self.cache_ok(),
                self.depth == depth,
                self.depth <= MAX_DEPTH,
                self.next_index == old(self).next_index,
                l <= depth,
                a < pow2((depth - l) as nat),
                cur@ == node_value::<H>(self.db.contents(), l as nat, a as nat),
                consistent_except::<H>(self.db.contents(), depth, (l + 1) as nat, (a / 2) as nat),
                metadata_holds(self.db.contents(), self.depth, self.next_index),
                forall|j: nat| j < pow2(depth) ==> #[trigger] node_value::<H>(self.db.contents(), 0, j)
                    == node_value::<H>(s1, 0, j),
            decreases depth - l,
        {
            let ghost s = self.db.contents();
            proof {
                lemma_pow2_within_stride((depth - l) as nat);
                assert(pow2((depth - l) as nat) == 2 * pow2((depth - l - 1) as nat));
            }
            let parent: Vec<u8>;
            if a % 2 == 0 {
                let sib = self.read_node(l, a + 1);
                parent = H::hash(&cur, &sib);
            } else {
                let sib = self.read_node(l, a - 1);
                parent = H::hash(&sib, &cur);
            }
            let p = a / 2;
            proof {
                lemma_write_moves_exception::<H>(s, depth, (l + 1) as nat, p as nat, parent@);
                lemma_pow2_within_stride((depth - l - 1) as nat);
                assert forall|j: nat| j < pow2(depth) implies #[trigger] node_value::<H>(
                    s.insert(key_of((l + 1) as nat, p as nat), parent@),
                    0,
                    j,
                ) == node_value::<H>(s, 0, j) by {
                    lemma_pow2_within_stride(depth);
                    lemma_keys_distinct(0, j, (l + 1) as nat, p as nat);
                }
                lemma_keys_distinct((l + 1) as nat, p as nat, 0, 0);
            }
            cur = copy_bytes(&parent);
            self.db.put(coordinate_key(l + 1, p), parent);
            a = p;
            l = l + 1;
        }
        proof {
            let s = self.db.contents();
            assert forall|lv: nat, i: nat|
                1 <= lv <= depth && i < pow2((depth - lv) as nat) && !(lv == depth + 1 && i == 0)
                implies #[trigger] consistent_at::<H>(s, lv, i) by {}
            assert forall|j: nat| j < pow2(depth) && j != index implies #[trigger] node_value::<H>(
                s,
                0,
                j,
            ) == node_value::<H>(s0, 0, j) by {}
            assert(node_value::<H>(s, 0, index as nat) == node_value::<H>(s1, 0, index as nat));
        }
    }
    /// Creates a tree of `depth` in a store that holds nothing yet.
    pub fn new(db: D, depth: u64) -> (r: PmtreeResult<Self>)
        ensures
            r is Ok <==> depth <= MAX_DEPTH && db.contents() == Map::<u64, Seq<u8>>::empty(),
            depth > MAX_DEPTH ==> r matches Err(PmtreeErrorKind::TreeError(TreeErrorKind::InvalidKey)),
            depth <= MAX_DEPTH && db.contents() != Map::<u64, Seq<u8>>::empty() ==> r matches Err(
                PmtreeErrorKind::DatabaseError(DatabaseErrorKind::DatabaseExists),
            ),
            r matches Ok(t) ==> {
                &&& t.wf()
                &&& t.spec_depth() == depth
                &&& t.spec_next_index() == 0
                &&& t.spec_leaves() == Seq::<Seq<u8>>::empty()
                &&& t.contents() == fresh_image(depth)
            },
    {
        if depth > MAX_DEPTH {
            return Err(PmtreeErrorKind::TreeError(TreeErrorKind::InvalidKey));
        }
        if !db.is_empty() {
            return Err(PmtreeErrorKind::DatabaseError(DatabaseErrorKind::DatabaseExists));
        }
        let mut db = db;
        db.put(DEPTH_KEY, encode_u64(depth));
        db.put(NEXT_INDEX_KEY, encode_u64(0));
        proof {
            lemma_fresh_consistent::<H>(depth);
            lemma_pow2_within_stride(depth as nat);
            assert(db.contents() =~= fresh_image(depth));
        }
        let empty = empty_hashes::<H>(depth);
        let capacity = pow2_exec(depth);
        let t = MerkleTree { db, depth, next_index: 0, capacity, empty, hasher: PhantomData };
        assert(t.spec_leaves() =~= Seq::<Seq<u8>>::empty());
        Ok(t)
    }

    /// Resumes the tree a store holds, with the depth and leaf count its metadata records.
    pub fn load(db: D) -> (r: PmtreeResult<Self>)
        ensures
            r is Ok <==> stored_metadata_valid(db.contents()),
            r is Err ==> r matches Err(
                PmtreeErrorKind::DatabaseError(DatabaseErrorKind::CannotLoadDatabase),
            ),
            r matches Ok(t) ==> t.loaded_from(db.contents()),
            r matches Ok(t) ==> (t.wf() <==> consistent::<H>(db.contents(), t.spec_depth() as nat)
                && unused_leaves_empty::<H>(
                db.contents(),
                t.spec_depth() as nat,
                t.spec_next_index() as nat,
            )),
    {
        let depth = match db.get(DEPTH_KEY) {
            Some(v) => match decode_u64(&v) {
                Some(d) => d,
                None => {
                    return Err(PmtreeErrorKind::DatabaseError(DatabaseErrorKind::CannotLoadDatabase));
                },
            },
            None => {
                return Err(PmtreeErrorKind::DatabaseError(DatabaseErrorKind::CannotLoadDatabase));
            },
        };
        if depth > MAX_DEPTH {
            return Err(PmtreeErrorKind::DatabaseError(DatabaseErrorKind::CannotLoadDatabase));
        }
        let next_index = match db.get(NEXT_INDEX_KEY) {
            Some(v) => match decode_u64(&v) {
                Some(n) => n,
                None => {
                    return Err(PmtreeErrorKind::DatabaseError(DatabaseErrorKind::CannotLoadDatabase));
                },
            },
            None => {
                return Err(PmtreeErrorKind::DatabaseError(DatabaseErrorKind::CannotLoadDatabase));
            },
        };
        let capacity = pow2_exec(depth);
        if next_index > capacity {
            return Err(PmtreeErrorKind::DatabaseError(DatabaseErrorKind::CannotLoadDatabase));
        }
        let empty = empty_hashes::<H>(depth);
        Ok(MerkleTree { db, depth, next_index, capacity, empty, hasher: PhantomData })
    }

    /// Opens a tree of `depth` in `db`: creates it when the store holds nothing,
    /// else resumes it, failing when the stored depth is another.
    pub fn open(db: D, depth: u64) -> (r: PmtreeResult<Self>)
        ensures
            db.contents() == Map::<u64, Seq<u8>>::empty() ==> {
                &&& (r is Ok <==> depth <= MAX_DEPTH)
                &&& (r is Err ==> r matches Err(PmtreeErrorKind::TreeError(TreeErrorKind::InvalidKey)))
                &&& (r matches Ok(t) ==> t.wf() && t.spec_depth() == depth && t.spec_next_index() == 0
                    && t.spec_leaves() == Seq::<Seq<u8>>::empty() && t.contents() == fresh_image(depth))
            },
            db.contents() != Map::<u64, Seq<u8>>::empty() ==> {
                &&& (r is Ok <==> stored_metadata_valid(db.contents()) && from_be_bytes(
                    db.contents()[DEPTH_KEY],
                ) == depth)
                &&& (r is Err ==> r matches Err(
                    PmtreeErrorKind::DatabaseError(DatabaseErrorKind::CannotLoadDatabase),
                ))
                &&& (r matches Ok(t) ==> t.loaded_from(db.contents()) && (t.wf() <==> consistent::<H>(
                    db.contents(),
                    depth as nat,
                ) && unused_leaves_empty::<H>(db.contents(), depth as nat, t.spec_next_index() as nat)))
            },
    {
        if db.is_empty() {
            Self::new(db, depth)
        } else {
            let t = Self::load(db)?;
            if t.depth != depth {
                return Err(PmtreeErrorKind::DatabaseError(DatabaseErrorKind::CannotLoadDatabase));
            }
            Ok(t)
        }
    }

    /// Ends the tree and hands back its store.
    pub fn close(self) -> (r: D)
        ensures
            r.contents() == self.contents(),
    {
        self.db
    }

    /// The tree's depth.
    pub fn depth(&self) -> (r: u64)
        ensures
            r == self.spec_depth(),
    {
        self.depth
    }

    /// The number of leaf slots, `2^depth`.
    pub fn capacity(&self) -> (r: u64)
        requires
            self.wf(),
        ensures
            r == pow2(self.spec_depth() as nat),
    {
        self.capacity
    }

    /// How many leaves were ever inserted.
    pub fn next_index(&self) -> (r: u64)
        ensures
            r == self.spec_next_index(),
            r == self.spec_leaves().len(),
    {
        self.next_index
    }

    /// The root's value: the Merkle root of the inserted leaves.
    pub fn root(&self) -> (r: Vec<u8>)
        requires
            self.wf(),
        ensures
            r@ == merkle_root::<H>(self.spec_leaves(), self.spec_depth() as nat),
    {
        proof {
            lemma_nodes_match_model::<H>(
                self.db.contents(),
                self.depth as nat,
                self.next_index as nat,
                self.depth as nat,
                0,
            );
        }
        self.read_node(self.depth, 0)
    }

    /// The value of the leaf at `index`; `IndexOutOfBounds` unless it was inserted.
    pub fn get(&self, index: u64) -> (r: PmtreeResult<Vec<u8>>)
        requires
            self.wf(),
        ensures
            r is Ok <==> index < self.spec_next_index(),
            r is Err ==> r matches Err(PmtreeErrorKind::TreeError(TreeErrorKind::IndexOutOfBounds)),
            r matches Ok(v) ==> v@ == self.spec_leaves()[index as int],
    {
        if index >= self.next_index {
            return Err(PmtreeErrorKind::TreeError(TreeErrorKind::IndexOutOfBounds));
        }
        proof {
            lemma_pow2_within_stride(self.depth as nat);
        }
        Ok(self.read_node(0, index))
    }

    /// Appends `leaf` at the next free index and returns that index;
    /// `MerkleTreeIsFull` when every slot was used.
    pub fn insert(&mut self, leaf: Vec<u8>) -> (r: PmtreeResult<u64>)
        requires
            old(self).wf(),
        ensures
            final(self).wf(),
            r is Ok <==> old(self).spec_next_index() < pow2(old(self).spec_depth() as nat),
            r is Err ==> *final(self) == *old(self) && r matches Err(
                PmtreeErrorKind::TreeError(TreeErrorKind::MerkleTreeIsFull),
            ),
            final(self).spec_depth() == old(self).spec_depth(),
            r matches Ok(i) ==> {
                &&& i == old(self).spec_next_index()
                &&& final(self).spec_next_index() == old(self).spec_next_index() + 1
                &&& final(self).spec_leaves() == old(self).spec_leaves().push(leaf@)
            },
    {
        if self.next_index >= self.capacity {
            return Err(PmtreeErrorKind::TreeError(TreeErrorKind::MerkleTreeIsFull));
        }
        let index = self.next_index;
        self.write_leaf(index, leaf);
        let ghost s = self.db.contents();
        let ghost mid = *self;
        self.db.put(NEXT_INDEX_KEY, encode_u64(index + 1));
        self.next_index = index + 1;
        proof {
            lemma_metadata_write::<H>(s, self.depth as nat, NEXT_INDEX_KEY, be_bytes((index + 1) as u64));
            let st = self.db.contents();
            assert forall|j: nat| j < pow2(self.depth as nat) implies #[trigger] node_value::<H>(st, 0, j)
                == node_value::<H>(s, 0, j) by {}
            assert forall|j: nat|
                self.next_index <= j < pow2(self.depth as nat) implies #[trigger] node_value::<H>(
                st,
                0,
                j,
            ) == H::spec_default_leaf() by {
                assert(node_value::<H>(s, 0, j) == node_value::<H>(old(self).db.contents(), 0, j));
            }
            assert(self.spec_leaves() =~= old(self).spec_leaves().push(leaf@));
        }
        Ok(index)
    }

    /// Replaces the leaf at `index`; `IndexOutOfBounds` unless it was inserted.
    pub fn update(&mut self, index: u64, leaf: Vec<u8>) -> (r: PmtreeResult<()>)
        requires
            old(self).wf(),
        ensures
            final(self).wf(),
            r is Ok <==> index < old(self).spec_next_index(),
            r is Err ==> *final(self) == *old(self) && r matches Err(
                PmtreeErrorKind::TreeError(TreeErrorKind::IndexOutOfBounds),
            ),
            final(self).spec_depth() == old(self).spec_depth(),
            final(self).spec_next_index() == old(self).spec_next_index(),
            r is Ok ==> final(self).spec_leaves() == old(self).spec_leaves().update(index as int, leaf@),
    {
        if index >= self.next_index {
            return Err(PmtreeErrorKind::TreeError(TreeErrorKind::IndexOutOfBounds));
        }
        let ghost v = leaf@;
        self.write_leaf(index, leaf);
        proof {
            let st = self.db.contents();
            assert forall|j: nat|
                self.next_index <= j < pow2(self.depth as nat) implies #[trigger] node_value::<H>(
                st,
                0,
                j,
            ) == H::spec_default_leaf() by {
                assert(node_value::<H>(st, 0, j) == node_value::<H>(old(self).db.contents(), 0, j));
            }
        }
        assert(self.spec_leaves() =~= old(self).spec_leaves().update(index as int, v));
        Ok(())
    }

    /// Resets the leaf at `index` to the empty leaf; the index stays used.
    /// `IndexOutOfBounds` unless it was inserted.
    pub fn delete(&mut self, index: u64) -> (r: PmtreeResult<()>)
        requires
            old(self).wf(),
        ensures
            final(self).wf(),
            r is Ok <==> index < old(self).spec_next_index(),
            r is Err ==> *final(self) == *old(self) && r matches Err(
                PmtreeErrorKind::TreeError(TreeErrorKind::IndexOutOfBounds),
            ),
            final(self).spec_depth() == old(self).spec_depth(),
            final(self).spec_next_index() == old(self).spec_next_index(),
            r is Ok ==> final(self).spec_leaves() == old(self).spec_leaves().update(
                index as int,
                H::spec_default_leaf(),
            ),
    {
        self.update(index, H::default_leaf())
    }

    /// The Merkle path of the leaf at `index`; `IndexOutOfBounds` unless it was inserted.
    pub fn proof_of(&self, index: u64) -> (r: PmtreeResult<MerkleProof>)
        requires
            self.wf(),
        ensures
            r is Ok <==> index < self.spec_next_index(),
            r is Err ==> r matches Err(PmtreeErrorKind::TreeError(TreeErrorKind::IndexOutOfBounds)),
            r matches Ok(p) ==> p@ == merkle_path::<H>(
                self.spec_leaves(),
                self.spec_depth() as nat,
                index as nat,
            ),
    {
        if index >= self.next_index {
            return Err(PmtreeErrorKind::TreeError(TreeErrorKind::IndexOutOfBounds));
        }
        let ghost depth = self.depth as nat;
        let mut path: Vec<PathStep> = Vec::new();
        let mut a: u64 = index;
        let mut l: u64 = 0;
        while l < self.depth
            invariant
                self.wf(),
                self.depth == depth,
                l <= depth,
                a == ancestor(index as nat, l as nat),
                a < pow2((depth - l) as nat),
                path@.len() == l,
                forall|k: int|
                    0 <= k < l ==> (#[trigger] path@[k]).sibling@ == merkle_path::<H>(
                        self.spec_leaves(),
                        depth,
                        index as nat,
                    )[k].0 && path@[k].sibling_is_left == merkle_path::<H>(
                        self.spec_leaves(),
                        depth,
                        index as nat,
                    )[k].1,
            decreases depth - l,
        {
            proof {
                lemma_pow2_within_stride((depth - l) as nat);
                assert(pow2((depth - l) as nat) == 2 * pow2((depth - l - 1) as nat));
                lemma_nodes_match_model::<H>(
                    self.db.contents(),
                    depth,
                    self.next_index as nat,
                    l as nat,
                    sibling(a as nat),
                );
            }
            let sib = if a % 2 == 0 {
                a + 1
            } else {
                a - 1
            };
            let sibling_value = self.read_node(l, sib);
            path.push(PathStep { sibling: sibling_value, sibling_is_left: a % 2 == 1 });
            a = a / 2;
            l = l + 1;
        }
        let p = MerkleProof { path };
        assert(p@ =~= merkle_path::<H>(self.spec_leaves(), depth, index as nat));
        Ok(p)
    }
    /// In every well-formed tree, so after each mutation, the path that
    /// `proof_of` gives for an inserted leaf verifies against `root`: its
    /// orientations spell out the index, and it recombines the leaf into the root.
    pub proof fn lemma_proof_verifies(&self, index: nat)
        requires
            self.wf(),
            index < self.spec_next_index(),
        ensures
            path_fits(index, merkle_path::<H>(self.spec_leaves(), self.spec_depth() as nat, index)),
            fold_path::<H>(
                self.spec_leaves()[index as int],
                merkle_path::<H>(self.spec_leaves(), self.spec_depth() as nat, index),
            ) == merkle_root::<H>(self.spec_leaves(), self.spec_depth() as nat),
    {
        lemma_merkle_path_verifies::<H>(self.spec_leaves(), self.depth as nat, index);
    }

    /// A leaf written by `insert` reads back through `get` as the value
    /// inserted, and every earlier leaf reads as before.
    pub proof fn lemma_insert_then_get(&self, after: &Self, value: Seq<u8>)
        requires
            after.spec_leaves() == self.spec_leaves().push(value),
        ensures
            after.spec_next_index() == self.spec_next_index() + 1,
            after.spec_leaves()[self.spec_next_index() as int] == value,
            forall|i: int|
                0 <= i < self.spec_next_index() ==> #[trigger] after.spec_leaves()[i]
                    == self.spec_leaves()[i],
    {
        assert(after.spec_leaves().len() == after.spec_next_index());
    }

    /// Closing a tree and loading its store again gives back the same tree: it
    /// loads, is well formed, and has the same depth, leaves and root.
    pub proof fn lemma_reopen(&self, reopened: &Self)
        requires
            self.wf(),
            reopened.loaded_from(self.contents()),
        ensures
            stored_metadata_valid(self.contents()),
            reopened.wf(),
            reopened.spec_depth() == self.spec_depth(),
            reopened.spec_next_index() == self.spec_next_index(),
            reopened.spec_leaves() == self.spec_leaves(),
            merkle_root::<H>(reopened.spec_leaves(), reopened.spec_depth() as nat) == merkle_root::<
                H,
            >(self.spec_leaves(), self.spec_depth() as nat),
    {
        lemma_from_be_bytes_inverse(self.depth);
        lemma_from_be_bytes_inverse(self.next_index);
    }

    /// Computing a leaf's proof twice without a mutation in between yields the same path.
    pub proof fn lemma_proof_deterministic(&self, index: nat, first: &MerkleProof, second: &MerkleProof)
        requires
            first@ == merkle_path::<H>(self.spec_leaves(), self.spec_depth() as nat, index),
            second@ == merkle_path::<H>(self.spec_leaves(), self.spec_depth() as nat, index),
        ensures
            first@ == second@,
    {
    }
}

} // verus!
