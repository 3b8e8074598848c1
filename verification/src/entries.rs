//! Storage entries of inner nodes whose hashes, paths and lengths are small
//! numbers, one byte each: handy for writing down small trees.
use crate::felt::be_bytes;
use crate::filled_node::{binary_bytes, edge_bytes};
use crate::storage::{create_db_key, db_key, StorageKey, StoragePrefix, StorageValue};
use vstd::prelude::*;

verus! {

/// The big-endian form of zero is all zeros.
proof fn lemma_be_bytes_zero(n: nat)
    ensures
        be_bytes(0, n) == Seq::new(n, |i: int| 0u8),
    decreases n,
{
    if n > 0 {
        lemma_be_bytes_zero((n - 1) as nat);
        assert(be_bytes(0, n) =~= Seq::new(n, |i: int| 0u8));
    }
}

/// The 32-byte big-endian form of a byte: 31 zeros, then the byte.
pub fn create_32_bytes_entry(simple_val: u8) -> (r: Vec<u8>)
    ensures
        r@ == be_bytes(simple_val as nat, 32),
{
    let mut res: Vec<u8> = vec![0; 31];
    res.push(simple_val);
    proof {
        lemma_be_bytes_zero(31);
        assert((simple_val as nat) / 256 == 0);
        assert((simple_val as nat) % 256 == simple_val as nat);
        assert(res@ =~= be_bytes(0, 31).push(simple_val));
    }
    res
}

/// The storage key of the inner node with the given one-byte hash.
pub fn create_patricia_key(val: u8) -> (r: StorageKey)
    ensures
        r.0@ == db_key(StoragePrefix::InnerNode, be_bytes(val as nat, 32)),
{
    let suffix = create_32_bytes_entry(val);
    create_db_key(StoragePrefix::InnerNode, suffix.as_slice())
}

/// The stored form of a binary node with the given one-byte child hashes.
pub fn create_binary_val(left: u8, right: u8) -> (r: StorageValue)
    ensures
        r.0@ == binary_bytes(left as nat, right as nat),
{
    let mut bytes = create_32_bytes_entry(left);
    let mut tail = create_32_bytes_entry(right);
    bytes.append(&mut tail);
    StorageValue(bytes)
}

/// The stored form of an edge node with the given one-byte bottom hash, path
/// and length.
pub fn create_edge_val(hash: u8, path: u8, length: u8) -> (r: StorageValue)
    ensures
        r.0@ == edge_bytes(hash as nat, path as nat, length),
{
    let mut bytes = create_32_bytes_entry(hash);
    let mut tail = create_32_bytes_entry(path);
    bytes.append(&mut tail);
    bytes.push(length);
    StorageValue(bytes)
}

/// The storage entry of a binary node whose hash is taken to be the sum of its
/// children's hashes.
pub fn create_binary_entry(left: u8, right: u8) -> (r: (StorageKey, StorageValue))
    requires
        left + right < 256,
    ensures
        r.0.0@ == db_key(StoragePrefix::InnerNode, be_bytes((left + right) as nat, 32)),
        r.1.0@ == binary_bytes(left as nat, right as nat),
{
    (create_patricia_key(left + right), create_binary_val(left, right))
}

/// The storage entry of an edge node whose hash is taken to be the sum of its
/// bottom hash, path and length.
pub fn create_edge_entry(hash: u8, path: u8, length: u8) -> (r: (StorageKey, StorageValue))
    requires
        hash + path + length < 256,
    ensures
        r.0.0@ == db_key(StoragePrefix::InnerNode, be_bytes((hash + path + length) as nat, 32)),
        r.1.0@ == edge_bytes(hash as nat, path as nat, length),
{
    (create_patricia_key(hash + path + length), create_edge_val(hash, path, length))
}

} // verus!
