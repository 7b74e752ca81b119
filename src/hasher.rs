//! The hash engine the tree is built on, and the empty-subtree hashes it implies.
use vstd::prelude::*;

verus! {

/// A binary hash engine over byte-string hash values.
///
/// `hash` combines the values of a left and a right child, in that order, into
/// their parent's value; `default_leaf` is the value of a leaf never written.
pub trait Hasher {
    /// The value of a parent whose children hold `left` and `right`.
    spec fn spec_hash(left: Seq<u8>, right: Seq<u8>) -> Seq<u8>;

    /// The value of an empty leaf.
    spec fn spec_default_leaf() -> Seq<u8>;

    fn hash(left: &Vec<u8>, right: &Vec<u8>) -> (r: Vec<u8>)
        ensures
            r@ == Self::spec_hash(left@, right@),
    ;

    fn default_leaf() -> (r: Vec<u8>)
        ensures
            r@ == Self::spec_default_leaf(),
    ;
}

/// The value of a subtree of height `level` none of whose leaves was written.
pub open spec fn empty_hash<H: Hasher>(level: nat) -> Seq<u8>
    decreases level,
{
    if level == 0 {
        H::spec_default_leaf()
    } else {
        let below = empty_hash::<H>((level - 1) as nat);
        H::spec_hash(below, below)
    }
}

/// The empty-subtree values of levels `0..=depth`, leaves first.
pub fn empty_hashes<H: Hasher>(depth: u64) -> (r: Vec<Vec<u8>>)
    requires
        depth < u64::MAX,
    ensures
        r@.len() == depth + 1,
        forall|l: int| 0 <= l <= depth ==> #[trigger] r@[l]@ == empty_hash::<H>(l as nat),
{
    let mut r: Vec<Vec<u8>> = Vec::new();
    let mut cur = H::default_leaf();
    let mut level: u64 = 0;
    while level < depth
        invariant
            level <= depth,
            r@.len() == level,
            cur@ == empty_hash::<H>(level as nat),
            forall|l: int| 0 <= l < level ==> #[trigger] r@[l]@ == empty_hash::<H>(l as nat),
        decreases depth - level,
    {
        let next = H::hash(&cur, &cur);
        r.push(cur);
        cur = next;
        level = level + 1;
    }
    r.push(cur);
    r
}

/// A hash engine whose parent value is the concatenation of its children's
/// values and whose empty leaf is the single byte zero. It is injective but
/// not compressing: values double in length per level. Useful to test and
/// inspect trees of small depth.
pub struct ConcatHasher;

impl Hasher for ConcatHasher {
    open spec fn spec_hash(left: Seq<u8>, right: Seq<u8>) -> Seq<u8> {
        left + right
    }

    open spec fn spec_default_leaf() -> Seq<u8> {
        seq![0u8]
    }

    fn hash(left: &Vec<u8>, right: &Vec<u8>) -> (r: Vec<u8>) {
        let mut r: Vec<u8> = Vec::new();
        let mut i: usize = 0;
        while i < left.len()
            invariant
                i <= left@.len(),
                r@ == left@.subrange(0, i as int),
            decreases left@.len() - i,
        {
            r.push(left[i]);
            i = i + 1;
            assert(r@ =~= left@.subrange(0, i as int));
        }
        let mut j: usize = 0;
        while j < right.len()
            invariant
                j <= right@.len(),
                r@ == left@ + right@.subrange(0, j as int),
            decreases right@.len() - j,
        {
            r.push(right[j]);
            j = j + 1;
            assert(r@ =~= left@ + right@.subrange(0, j as int));
        }
        assert(left@.subrange(0, left@.len() as int) =~= left@);
        assert(right@.subrange(0, right@.len() as int) =~= right@);
        r
    }

    fn default_leaf() -> (r: Vec<u8>) {
        let mut r: Vec<u8> = Vec::new();
        r.push(0u8);
        assert(r@ =~= seq![0u8]);
        r
    }
}

} // verus!
