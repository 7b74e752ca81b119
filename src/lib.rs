//! # pmtree
//! Persistent Merkle tree whose whole state lives in a pluggable key-value store.
//!
//! ## How it is stored
//! { DEPTH_KEY (u64::MAX - 1) : depth }
//! { NEXT_INDEX_KEY (u64::MAX) : next_index }
//! { coordinate (level, index), packed into a DBKey : hash value }
use vstd::prelude::*;
use vstd::string::StringExecFns;

pub mod codec;
pub mod database;
pub mod hasher;
pub mod merkle_proof;
pub mod model;
pub mod tree;

verus! {

/// Denotes keys in a database
pub type DBKey = u64;

/// Denotes values in a database
pub type Value = Vec<u8>;

#[derive(Debug)]
pub enum TreeErrorKind {
    MerkleTreeIsFull,
    InvalidKey,
    IndexOutOfBounds,
    UnknownError(String),
}

#[derive(Debug)]
pub enum DatabaseErrorKind {
    CannotLoadDatabase,
    DatabaseExists,
    UnknownError(String),
}

#[derive(Debug)]
pub enum PmtreeErrorKind {
    /// Error in database
    DatabaseError(DatabaseErrorKind),
    /// Error in tree
    TreeError(TreeErrorKind),
    UnknownError(String),
}

/// What std's `Debug` formatting makes of a string: the text in double quotes,
/// with quotes, backslashes and control characters escaped.
pub uninterp spec fn debug_quoted(s: Seq<char>) -> Seq<char>;

/// Relies on std's `Debug` impl for `str` (through `format!`): the quoted,
/// escaped form of `s`, which depends on its characters alone.
#[verifier::external_body]
fn debug_string(s: &String) -> (r: String)
    ensures
        r@ == debug_quoted(s@),
{
    format!("{:?}", s)
}

/// The debug form of a tree error.
pub open spec fn tree_error_text(e: TreeErrorKind) -> Seq<char> {
    match e {
        TreeErrorKind::MerkleTreeIsFull => "MerkleTreeIsFull"@,
        TreeErrorKind::InvalidKey => "InvalidKey"@,
        TreeErrorKind::IndexOutOfBounds => "IndexOutOfBounds"@,
        TreeErrorKind::UnknownError(s) => "UnknownError("@ + debug_quoted(s@) + ")"@,
    }
}

/// The debug form of a database error.
pub open spec fn database_error_text(e: DatabaseErrorKind) -> Seq<char> {
    match e {
        DatabaseErrorKind::CannotLoadDatabase => "CannotLoadDatabase"@,
        DatabaseErrorKind::DatabaseExists => "DatabaseExists"@,
        DatabaseErrorKind::UnknownError(s) => "UnknownError("@ + debug_quoted(s@) + ")"@,
    }
}

/// The human-readable message of an error.
pub open spec fn error_message(e: PmtreeErrorKind) -> Seq<char> {
    match e {
        PmtreeErrorKind::DatabaseError(d) => "Database error: "@ + database_error_text(d),
        PmtreeErrorKind::TreeError(t) => "Tree error: "@ + tree_error_text(t),
        PmtreeErrorKind::UnknownError(s) => "Unknown error: "@ + debug_quoted(s@),
    }
}

fn unknown_text(s: &String) -> (r: String)
    ensures
        r@ == "UnknownError("@ + debug_quoted(s@) + ")"@,
{
    let mut r = String::from_str("UnknownError(");
    let q = debug_string(s);
    r.append(q.as_str());
    r.append(")");
    r
}

impl TreeErrorKind {
    /// The debug form of this error.
    pub fn text(&self) -> (r: String)
        ensures
            r@ == tree_error_text(*self),
    {
        match self {
            TreeErrorKind::MerkleTreeIsFull => String::from_str("MerkleTreeIsFull"),
            TreeErrorKind::InvalidKey => String::from_str("InvalidKey"),
            TreeErrorKind::IndexOutOfBounds => String::from_str("IndexOutOfBounds"),
            TreeErrorKind::UnknownError(s) => unknown_text(s),
        }
    }
}

impl DatabaseErrorKind {
    /// The debug form of this error.
    pub fn text(&self) -> (r: String)
        ensures
            r@ == database_error_text(*self),
    {
        match self {
            DatabaseErrorKind::CannotLoadDatabase => String::from_str("CannotLoadDatabase"),
            DatabaseErrorKind::DatabaseExists => String::from_str("DatabaseExists"),
            DatabaseErrorKind::UnknownError(s) => unknown_text(s),
        }
    }
}

impl PmtreeErrorKind {
    /// The human-readable message of this error, e.g. `Tree error: IndexOutOfBounds`.
    pub fn message(&self) -> (r: String)
        ensures
            r@ == error_message(*self),
    {
        let (mut r, rest) = match self {
            PmtreeErrorKind::DatabaseError(d) => (String::from_str("Database error: "), d.text()),
            PmtreeErrorKind::TreeError(t) => (String::from_str("Tree error: "), t.text()),
            PmtreeErrorKind::UnknownError(s) => (String::from_str("Unknown error: "), debug_string(s)),
        };
        r.append(rest.as_str());
        r
    }
}

/// A copy of a byte string.
pub(crate) fn copy_bytes(v: &Vec<u8>) -> (r: Vec<u8>)
    ensures
        r@ == v@,
{
    let r = v.clone();
    assert(r@ =~= v@);
    r
}

/// Custom `Result` type with custom `Error` type
pub type PmtreeResult<T> = Result<T, PmtreeErrorKind>;

} // verus!
