//! Merkle proofs: the sibling path from a leaf to the root, and its standalone
//! verification.
use vstd::prelude::*;

use crate::copy_bytes;
use crate::hasher::Hasher;

verus! {

/// One level of a Merkle path: the sibling's value and whether the sibling is
/// the left child of the common parent.
pub struct PathStep {
    pub sibling: Vec<u8>,
    pub sibling_is_left: bool,
}

/// The sibling path of a leaf, ordered from the leaf's level up to just below the root.
pub struct MerkleProof {
    pub path: Vec<PathStep>,
}

impl View for MerkleProof {
    type V = Seq<(Seq<u8>, bool)>;

    open spec fn view(&self) -> Seq<(Seq<u8>, bool)> {
        self.path@.map_values(|s: PathStep| (s.sibling@, s.sibling_is_left))
    }
}

/// The parent value of `below` and the sibling recorded in `step`.
pub open spec fn step_up<H: Hasher>(below: Seq<u8>, step: (Seq<u8>, bool)) -> Seq<u8> {
    if step.1 {
        H::spec_hash(step.0, below)
    } else {
        H::spec_hash(below, step.0)
    }
}

/// The root value that `path` recombines `leaf` into.
pub open spec fn fold_path<H: Hasher>(leaf: Seq<u8>, path: Seq<(Seq<u8>, bool)>) -> Seq<u8>
    decreases path.len(),
{
    if path.len() == 0 {
        leaf
    } else {
        step_up::<H>(fold_path::<H>(leaf, path.drop_last()), path.last())
    }
}

/// The orientations along `path` spell out `index`: at each level the sibling is
/// on the left exactly when the current node is a right child, and no bit of
/// `index` is left over above the path.
pub open spec fn path_fits(index: nat, path: Seq<(Seq<u8>, bool)>) -> bool
    decreases path.len(),
{
    if path.len() == 0 {
        index == 0
    } else {
        path[0].1 == (index % 2 == 1) && path_fits(index / 2, path.drop_first())
    }
}

fn bytes_equal(a: &Vec<u8>, b: &Vec<u8>) -> (r: bool)
    ensures
        r == (a@ == b@),
{
    if a.len() != b.len() {
        return false;
    }
    let mut i: usize = 0;
    while i < a.len()
        invariant
            a@.len() == b@.len(),
            i <= a@.len(),
            forall|j: int| 0 <= j < i ==> a@[j] == b@[j],
        decreases a@.len() - i,
    {
        if a[i] != b[i] {
            return false;
        }
        i = i + 1;
    }
    assert(a@ =~= b@);
    true
}

impl MerkleProof {
    /// The root value that this path recombines `leaf` into.
    pub fn compute_root<H: Hasher>(&self, leaf: &Vec<u8>) -> (r: Vec<u8>)
        ensures
            r@ == fold_path::<H>(leaf@, self@),
    {
        let mut cur = copy_bytes(leaf);
        let mut k: usize = 0;
        assert(self@.subrange(0, 0) =~= Seq::<(Seq<u8>, bool)>::empty());
        while k < self.path.len()
            invariant
                k <= self@.len(),
                self@.len() == self.path@.len(),
                cur@ == fold_path::<H>(leaf@, self@.subrange(0, k as int)),
            decreases self.path@.len() - k,
        {
            let step = &self.path[k];
            assert(self@[k as int] == (step.sibling@, step.sibling_is_left));
            assert(self@.subrange(0, k + 1).drop_last() =~= self@.subrange(0, k as int));
            if step.sibling_is_left {
                cur = H::hash(&step.sibling, &cur);
            } else {
                cur = H::hash(&cur, &step.sibling);
            }
            k = k + 1;
        }
        assert(self@.subrange(0, k as int) =~= self@);
        cur
    }

    /// Whether the orientations of this path spell out `index`.
    pub fn fits_index(&self, index: u64) -> (r: bool)
        ensures
            r == path_fits(index as nat, self@),
    {
        let mut cur: u64 = index;
        let mut k: usize = 0;
        assert(self@.subrange(0, self@.len() as int) =~= self@);
        while k < self.path.len()
            invariant
                k <= self@.len(),
                self@.len() == self.path@.len(),
                path_fits(index as nat, self@) == path_fits(
                    cur as nat,
                    self@.subrange(k as int, self@.len() as int),
                ),
            decreases self.path@.len() - k,
        {
            let ghost rest = self@.subrange(k as int, self@.len() as int);
            assert(rest[0] == self@[k as int]);
            assert(rest.drop_first() =~= self@.subrange(k + 1, self@.len() as int));
            if self.path[k].sibling_is_left != (cur % 2 == 1) {
                return false;
            }
            cur = cur / 2;
            k = k + 1;
        }
        cur == 0
    }
}

/// Whether `proof` shows that `leaf` stands at `index` under `root`: the path's
/// orientations spell out `index`, and it recombines `leaf` into `root`.
/// Needs no tree: only the hash engine.
pub fn verify<H: Hasher>(leaf: &Vec<u8>, index: u64, proof: &MerkleProof, root: &Vec<u8>) -> (r:
    bool)
    ensures
        r == (path_fits(index as nat, proof@) && fold_path::<H>(leaf@, proof@) == root@),
{
    if !proof.fits_index(index) {
        return false;
    }
    let computed = proof.compute_root::<H>(leaf);
    bytes_equal(&computed, root)
}

} // verus!
