//! Coordinate codec: packs a node's (level, index) coordinate into a store key,
//! and encodes the tree's metadata integers as fixed-width byte strings.
use vstd::prelude::*;

use crate::{DBKey, TreeErrorKind};

verus! {

/// Largest tree depth the codec supports.
pub const MAX_DEPTH: u64 = 56;

/// Distance between the keys of two consecutive levels: `2^56`.
/// Every index of a supported tree is below it.
pub const LEVEL_STRIDE: u64 = 0x100_0000_0000_0000;

/// Reserved key under which the tree's depth is stored.
pub const DEPTH_KEY: DBKey = 0xffff_ffff_ffff_fffe;

/// Reserved key under which the tree's next free leaf index is stored.
pub const NEXT_INDEX_KEY: DBKey = 0xffff_ffff_ffff_ffff;

/// `2^n`.
pub open spec fn pow2(n: nat) -> nat
    decreases n,
{
    if n == 0 {
        1
    } else {
        2 * pow2((n - 1) as nat)
    }
}

/// Coordinates the codec can encode.
pub open spec fn valid_coordinate(level: nat, index: nat) -> bool {
    level <= MAX_DEPTH && index < LEVEL_STRIDE
}

/// The key of the node at `(level, index)`: level in the high bits, index in the low bits.
pub open spec fn spec_key(level: nat, index: nat) -> int {
    level * LEVEL_STRIDE + index
}

/// The key of the node at `(level, index)` as a store key.
pub open spec fn key_of(level: nat, index: nat) -> DBKey {
    spec_key(level, index) as DBKey
}

/// `2^n` grows with `n`.
pub proof fn lemma_pow2_monotonic(a: nat, b: nat)
    requires
        a <= b,
    ensures
        pow2(a) <= pow2(b),
    decreases b - a,
{
    if a < b {
        lemma_pow2_monotonic(a, (b - 1) as nat);
    }
}

/// Every capacity of a supported depth fits below the level stride.
pub proof fn lemma_pow2_within_stride(n: nat)
    requires
        n <= MAX_DEPTH,
    ensures
        pow2(n) <= LEVEL_STRIDE,
{
    reveal_with_fuel(pow2, 57);
    assert(pow2(56) == LEVEL_STRIDE);
    lemma_pow2_monotonic(n, 56);
}

/// Distinct valid coordinates have distinct keys.
pub proof fn lemma_key_injective(l1: nat, i1: nat, l2: nat, i2: nat)
    requires
        valid_coordinate(l1, i1),
        valid_coordinate(l2, i2),
        spec_key(l1, i1) == spec_key(l2, i2),
    ensures
        l1 == l2,
        i1 == i2,
{
    let s = LEVEL_STRIDE as int;
    if l1 < l2 {
        assert(l1 * s + s <= l2 * s) by (nonlinear_arith)
            requires
                l1 < l2,
                s > 0,
        ;
    } else if l2 < l1 {
        assert(l2 * s + s <= l1 * s) by (nonlinear_arith)
            requires
                l2 < l1,
                s > 0,
        ;
    }
}

/// No valid coordinate's key is one of the two reserved metadata keys.
pub proof fn lemma_key_not_reserved(level: nat, index: nat)
    requires
        valid_coordinate(level, index),
    ensures
        0 <= spec_key(level, index) < DEPTH_KEY,
        spec_key(level, index) != NEXT_INDEX_KEY,
        key_of(level, index) == spec_key(level, index),
        key_of(level, index) != DEPTH_KEY,
        key_of(level, index) != NEXT_INDEX_KEY,
{
    let s = LEVEL_STRIDE as int;
    assert(level * s <= 56 * s) by (nonlinear_arith)
        requires
            level <= 56,
            s > 0,
    ;
}

/// Distinct valid coordinates have distinct store keys, and none of them is reserved.
pub proof fn lemma_keys_distinct(l1: nat, i1: nat, l2: nat, i2: nat)
    requires
        valid_coordinate(l1, i1),
        valid_coordinate(l2, i2),
        !(l1 == l2 && i1 == i2),
    ensures
        key_of(l1, i1) != key_of(l2, i2),
        key_of(l1, i1) != DEPTH_KEY,
        key_of(l1, i1) != NEXT_INDEX_KEY,
{
    lemma_key_not_reserved(l1, i1);
    lemma_key_not_reserved(l2, i2);
    if spec_key(l1, i1) == spec_key(l2, i2) {
        lemma_key_injective(l1, i1, l2, i2);
    }
}

pub(crate) fn coordinate_key(level: u64, index: u64) -> (k: DBKey)
    requires
        valid_coordinate(level as nat, index as nat),
    ensures
        k == spec_key(level as nat, index as nat),
        k == key_of(level as nat, index as nat),
{
    proof {
        lemma_key_not_reserved(level as nat, index as nat);
    }
    level * LEVEL_STRIDE + index
}

/// The store key of the node at `(level, index)`, or `InvalidKey` when the
/// coordinate is outside the codec's range.
pub fn node_key(level: u64, index: u64) -> (r: Result<DBKey, TreeErrorKind>)
    ensures
        r is Ok <==> valid_coordinate(level as nat, index as nat),
        r matches Ok(k) ==> k == key_of(level as nat, index as nat),
        r matches Err(e) ==> e is InvalidKey,
{
    if level <= MAX_DEPTH && index < LEVEL_STRIDE {
        Ok(coordinate_key(level, index))
    } else {
        Err(TreeErrorKind::InvalidKey)
    }
}


/// Big-endian bytes of a metadata integer.
pub open spec fn be_bytes(x: u64) -> Seq<u8> {
    seq![
        (x >> 56u64) as u8,
        (x >> 48u64) as u8,
        (x >> 40u64) as u8,
        (x >> 32u64) as u8,
        (x >> 24u64) as u8,
        (x >> 16u64) as u8,
        (x >> 8u64) as u8,
        x as u8,
    ]
}

/// The integer whose big-endian bytes are the first eight of `s`.
pub open spec fn from_be_bytes(s: Seq<u8>) -> u64 {
    ((s[0] as u64) << 56u64) | ((s[1] as u64) << 48u64) | ((s[2] as u64) << 40u64) | ((
    s[3] as u64) << 32u64) | ((s[4] as u64) << 24u64) | ((s[5] as u64) << 16u64) | ((s[6]
    as u64) << 8u64) | (s[7] as u64)
}

/// Decoding an encoding gives back the integer.
pub proof fn lemma_from_be_bytes_inverse(x: u64)
    ensures
        be_bytes(x).len() == 8,
        from_be_bytes(be_bytes(x)) == x,
{
    let b = be_bytes(x);
    assert(b[0] == (x >> 56u64) as u8 && b[1] == (x >> 48u64) as u8 && b[2] == (x >> 40u64) as u8
        && b[3] == (x >> 32u64) as u8 && b[4] == (x >> 24u64) as u8 && b[5] == (x >> 16u64) as u8
        && b[6] == (x >> 8u64) as u8 && b[7] == x as u8);
    assert(x == (((x >> 56u64) as u8 as u64) << 56u64) | (((x >> 48u64) as u8 as u64) << 48u64)
        | (((x >> 40u64) as u8 as u64) << 40u64) | (((x >> 32u64) as u8 as u64) << 32u64) | (((x
        >> 24u64) as u8 as u64) << 24u64) | (((x >> 16u64) as u8 as u64) << 16u64) | (((x
        >> 8u64) as u8 as u64) << 8u64) | (x as u8 as u64)) by (bit_vector);
}

/// Encodes a metadata integer as eight big-endian bytes.
pub fn encode_u64(x: u64) -> (r: Vec<u8>)
    ensures
        r@ == be_bytes(x),
{
    let mut r: Vec<u8> = Vec::new();
    r.push((x >> 56u64) as u8);
    r.push((x >> 48u64) as u8);
    r.push((x >> 40u64) as u8);
    r.push((x >> 32u64) as u8);
    r.push((x >> 24u64) as u8);
    r.push((x >> 16u64) as u8);
    r.push((x >> 8u64) as u8);
    r.push(x as u8);
    assert(r@ =~= be_bytes(x));
    r
}

/// Decodes eight big-endian bytes; `None` when the value has another length.
pub fn decode_u64(v: &Vec<u8>) -> (r: Option<u64>)
    ensures
        r is Some <==> v@.len() == 8,
        r matches Some(x) ==> x == from_be_bytes(v@) && be_bytes(x) == v@,
{
    if v.len() != 8 {
        return None;
    }
    let b0 = v[0];
    let b1 = v[1];
    let b2 = v[2];
    let b3 = v[3];
    let b4 = v[4];
    let b5 = v[5];
    let b6 = v[6];
    let b7 = v[7];
    let x: u64 = ((b0 as u64) << 56u64) | ((b1 as u64) << 48u64) | ((b2 as u64) << 40u64)
        | ((b3 as u64) << 32u64) | ((b4 as u64) << 24u64) | ((b5 as u64) << 16u64) | ((b6
        as u64) << 8u64) | (b7 as u64);
    assert(
        (x >> 56u64) as u8 == b0 && (x >> 48u64) as u8 == b1 && (x >> 40u64) as u8 == b2 && (x
            >> 32u64) as u8 == b3 && (x >> 24u64) as u8 == b4 && (x >> 16u64) as u8 == b5 && (x
            >> 8u64) as u8 == b6 && x as u8 == b7
    ) by (bit_vector)
        requires
            x == ((b0 as u64) << 56u64) | ((b1 as u64) << 48u64) | ((b2 as u64) << 40u64) | ((
            b3 as u64) << 32u64) | ((b4 as u64) << 24u64) | ((b5 as u64) << 16u64) | ((b6
            as u64) << 8u64) | (b7 as u64),
    ;
    assert(be_bytes(x) =~= v@);
    Some(x)
}

/// `2^n`, for the depths the codec supports.
pub fn pow2_exec(n: u64) -> (r: u64)
    requires
        n <= MAX_DEPTH,
    ensures
        r == pow2(n as nat),
{
    proof {
        lemma_pow2_within_stride(n as nat);
    }
    let mut r: u64 = 1;
    let mut k: u64 = 0;
    while k < n
        invariant
            k <= n,
            n <= MAX_DEPTH,
            r == pow2(k as nat),
            pow2(n as nat) <= LEVEL_STRIDE,
        decreases n - k,
    {
        proof {
            lemma_pow2_monotonic((k + 1) as nat, n as nat);
        }
        r = r * 2;
        k = k + 1;
    }
    r
}

} // verus!
