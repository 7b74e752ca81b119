//! The mathematical tree: the value of every subtree over a sequence of leaves,
//! the Merkle root, and each leaf's Merkle path. The engine's store is proved
//! to agree with it.
use vstd::prelude::*;

use crate::codec::pow2;
use crate::hasher::Hasher;
use crate::merkle_proof::{fold_path, path_fits};

verus! {

/// The value of the subtree at `(level, index)` over `leaves`; leaf slots past
/// the end of `leaves` hold the empty leaf. Children combine left first.
pub open spec fn subtree_hash<H: Hasher>(leaves: Seq<Seq<u8>>, level: nat, index: nat) -> Seq<u8>
    decreases level,
{
    if level == 0 {
        if index < leaves.len() {
            leaves[index as int]
        } else {
            H::spec_default_leaf()
        }
    } else {
        H::spec_hash(
            subtree_hash::<H>(leaves, (level - 1) as nat, 2 * index),
            subtree_hash::<H>(leaves, (level - 1) as nat, 2 * index + 1),
        )
    }
}

/// The root value of a tree of `depth` over `leaves`.
pub open spec fn merkle_root<H: Hasher>(leaves: Seq<Seq<u8>>, depth: nat) -> Seq<u8> {
    subtree_hash::<H>(leaves, depth, 0)
}

/// Index of the ancestor at `level` of the leaf at `index`.
pub open spec fn ancestor(index: nat, level: nat) -> nat
    decreases level,
{
    if level == 0 {
        index
    } else {
        ancestor(index, (level - 1) as nat) / 2
    }
}

/// Index of the other child of the same parent.
pub open spec fn sibling(index: nat) -> nat {
    if index % 2 == 0 {
        index + 1
    } else {
        (index - 1) as nat
    }
}

/// The Merkle path of the leaf at `index` in a tree of `depth` over `leaves`:
/// from the leaf's level up to just below the root, the sibling's value and
/// whether the sibling is on the left.
pub open spec fn merkle_path<H: Hasher>(leaves: Seq<Seq<u8>>, depth: nat, index: nat) -> Seq<
    (Seq<u8>, bool),
> {
    Seq::new(
        depth,
        |l: int|
            (
                subtree_hash::<H>(leaves, l as nat, sibling(ancestor(index, l as nat))),
                ancestor(index, l as nat) % 2 == 1,
            ),
    )
}

/// The ancestors of a leaf of a tree of `depth` stay within their levels.
pub proof fn lemma_ancestor_bound(index: nat, depth: nat, level: nat)
    requires
        index < pow2(depth),
        level <= depth,
    ensures
        ancestor(index, level) < pow2((depth - level) as nat),
    decreases level,
{
    if level > 0 {
        lemma_ancestor_bound(index, depth, (level - 1) as nat);
        assert(pow2((depth - (level - 1)) as nat) == 2 * pow2((depth - level) as nat));
    }
}

/// The first `level` steps of a leaf's path recombine it into its ancestor at `level`.
proof fn lemma_fold_reaches_ancestor<H: Hasher>(
    leaves: Seq<Seq<u8>>,
    depth: nat,
    index: nat,
    level: nat,
)
    requires
        level <= depth,
    ensures
        fold_path::<H>(
            subtree_hash::<H>(leaves, 0, index),
            merkle_path::<H>(leaves, depth, index).subrange(0, level as int),
        ) == subtree_hash::<H>(leaves, level, ancestor(index, level)),
    decreases level,
{
    let path = merkle_path::<H>(leaves, depth, index);
    if level == 0 {
        assert(path.subrange(0, 0).len() == 0);
    } else {
        let k = (level - 1) as nat;
        lemma_fold_reaches_ancestor::<H>(leaves, depth, index, k);
        assert(path.subrange(0, level as int).drop_last() =~= path.subrange(0, k as int));
        assert(path.subrange(0, level as int).last() == path[k as int]);
    }
}

/// The orientations of a leaf's path, from `level` up, spell out its ancestor there.
proof fn lemma_path_fits_from<H: Hasher>(leaves: Seq<Seq<u8>>, depth: nat, index: nat, level: nat)
    requires
        index < pow2(depth),
        level <= depth,
    ensures
        path_fits(
            ancestor(index, level),
            merkle_path::<H>(leaves, depth, index).subrange(level as int, depth as int),
        ),
    decreases depth - level,
{
    let path = merkle_path::<H>(leaves, depth, index);
    let rest = path.subrange(level as int, depth as int);
    if level == depth {
        lemma_ancestor_bound(index, depth, level);
        assert(rest.len() == 0);
    } else {
        lemma_path_fits_from::<H>(leaves, depth, index, level + 1);
        assert(rest.drop_first() =~= path.subrange(level + 1 as int, depth as int));
        assert(rest[0] == path[level as int]);
        assert(ancestor(index, level + 1) == ancestor(index, level) / 2);
    }
}

/// A leaf's Merkle path verifies: its orientations spell out the leaf's index,
/// and it recombines the leaf's value into the Merkle root.
pub proof fn lemma_merkle_path_verifies<H: Hasher>(leaves: Seq<Seq<u8>>, depth: nat, index: nat)
    requires
        leaves.len() <= pow2(depth),
        index < leaves.len(),
    ensures
        path_fits(index, merkle_path::<H>(leaves, depth, index)),
        fold_path::<H>(leaves[index as int], merkle_path::<H>(leaves, depth, index))
            == merkle_root::<H>(leaves, depth),
{
    let path = merkle_path::<H>(leaves, depth, index);
    lemma_fold_reaches_ancestor::<H>(leaves, depth, index, depth);
    lemma_path_fits_from::<H>(leaves, depth, index, 0);
    assert(path.subrange(0, depth as int) =~= path);
    lemma_ancestor_bound(index, depth, depth);
}

} // verus!
