//! The stored form of leaves: a storage value is its 32 big-endian bytes; a
//! compiled class hash and a contract state are JSON text.
use crate::deserialization::DeserializationError;
use crate::filled_node::lemma_prime_below_pow2_256;
use crate::felt::{be_bytes, be_value, lemma_be_bytes_value, felt_hex_value, felt_prime, hex_digits, hex_len, hex_prefixed, Felt};
use crate::hash::HashOutput;
use crate::json::{
    json_member, json_parse, json_string_map, json_text, parse_json, parse_string_map, string_member, utf8_decode,
    utf8_text, JsonValue, JsonView,
};
use crate::leaf::{ClassHash, CompiledClassHash, ContractState, LeafDataImpl, Nonce};
use crate::storage::{append_bytes, StorageKey, StoragePrefix, StorageValue};
use vstd::arithmetic::div_mod::lemma_small_mod;
use vstd::prelude::*;

verus! {

/// `{"compiled_class_hash": "`
pub open spec fn class_leaf_open() -> Seq<u8> {
    seq![123u8, 34, 99, 111, 109, 112, 105, 108, 101, 100, 95, 99, 108, 97, 115, 115, 95, 104, 97, 115, 104, 34, 58, 32, 34]
}

/// `"}`
pub open spec fn json_close() -> Seq<u8> {
    seq![34u8, 125]
}

/// `{"contract_hash": "`
pub open spec fn state_leaf_open() -> Seq<u8> {
    seq![123u8, 34, 99, 111, 110, 116, 114, 97, 99, 116, 95, 104, 97, 115, 104, 34, 58, 32, 34]
}

/// `", "storage_commitment_tree": {"root": "`
pub open spec fn state_leaf_root() -> Seq<u8> {
    seq![
        34u8, 44, 32, 34, 115, 116, 111, 114, 97, 103, 101, 95, 99, 111, 109, 109, 105, 116, 109, 101, 110, 116,
        95, 116, 114, 101, 101, 34, 58, 32, 123, 34, 114, 111, 111, 116, 34, 58, 32, 34,
    ]
}

/// `", "height": 251}, "nonce": "`
pub open spec fn state_leaf_nonce() -> Seq<u8> {
    seq![
        34u8, 44, 32, 34, 104, 101, 105, 103, 104, 116, 34, 58, 32, 50, 53, 49, 125, 44, 32, 34, 110, 111, 110, 99,
        101, 34, 58, 32, 34,
    ]
}

/// The hexadecimal text of a number, without leading zeros.
pub open spec fn hex_text(v: nat) -> Seq<u8> {
    hex_prefixed(hex_digits(v, hex_len(v)))
}

/// The hexadecimal text of a number, with 64 digits.
pub open spec fn fixed_hex_text(v: nat) -> Seq<u8> {
    hex_prefixed(hex_digits(v, 64))
}

/// The stored form of a leaf.
pub open spec fn leaf_bytes(leaf: LeafDataImpl) -> Seq<u8> {
    match leaf {
        LeafDataImpl::StorageValue(v) => be_bytes(v.val(), 32),
        LeafDataImpl::CompiledClassHash(c) => class_leaf_open() + hex_text(c.0.val()) + json_close(),
        LeafDataImpl::ContractState(s) => state_leaf_open() + fixed_hex_text(s.class_hash.0.val()) + state_leaf_root()
            + fixed_hex_text(s.storage_root_hash.val()) + state_leaf_nonce() + hex_text(s.nonce.0.val())
            + json_close(),
    }
}

/// The storage prefix of a leaf.
pub open spec fn leaf_prefix(leaf: LeafDataImpl) -> StoragePrefix {
    match leaf {
        LeafDataImpl::StorageValue(_) => StoragePrefix::StorageLeaf,
        LeafDataImpl::CompiledClassHash(_) => StoragePrefix::CompiledClassLeaf,
        LeafDataImpl::ContractState(_) => StoragePrefix::StateTreeLeaf,
    }
}

impl LeafDataImpl {
    /// The stored form of the leaf: a storage value as its 32 big-endian bytes;
    /// a compiled class hash as `{"compiled_class_hash": "<hex>"}`; a contract
    /// state as `{"contract_hash": "<hex>", "storage_commitment_tree": {"root":
    /// "<hex>", "height": 251}, "nonce": "<hex>"}` (the class hash and root
    /// with 64 digits, the others without leading zeros).
    pub fn serialize(&self) -> (r: StorageValue)
        ensures
            r.0@ == leaf_bytes(*self),
    {
        match self {
            LeafDataImpl::StorageValue(value) => StorageValue(value.to_bytes_be()),
            LeafDataImpl::CompiledClassHash(class_hash) => {
                let mut out: Vec<u8> = vec![
                    123u8, 34, 99, 111, 109, 112, 105, 108, 101, 100, 95, 99, 108, 97, 115, 115, 95, 104, 97,
                    115, 104, 34, 58, 32, 34,
                ];
                proof {
                    assert(out@ =~= class_leaf_open());
                }
                let hex = class_hash.0.to_hex();
                append_bytes(&mut out, hex.as_slice());
                let close: Vec<u8> = vec![34u8, 125];
                proof {
                    assert(close@ =~= json_close());
                }
                append_bytes(&mut out, close.as_slice());
                StorageValue(out)
            },
            LeafDataImpl::ContractState(state) => {
                let mut out: Vec<u8> = vec![
                    123u8, 34, 99, 111, 110, 116, 114, 97, 99, 116, 95, 104, 97, 115, 104, 34, 58, 32, 34,
                ];
                proof {
                    assert(out@ =~= state_leaf_open());
                }
                let class_hash = state.class_hash.0.to_fixed_hex_string();
                append_bytes(&mut out, class_hash.as_slice());
                let root_key: Vec<u8> = vec![
                    34u8, 44, 32, 34, 115, 116, 111, 114, 97, 103, 101, 95, 99, 111, 109, 109, 105, 116, 109,
                    101, 110, 116, 95, 116, 114, 101, 101, 34, 58, 32, 123, 34, 114, 111, 111, 116, 34, 58, 32,
                    34,
                ];
                proof {
                    assert(root_key@ =~= state_leaf_root());
                }
                append_bytes(&mut out, root_key.as_slice());
                let root = state.storage_root_hash.0.to_fixed_hex_string();
                append_bytes(&mut out, root.as_slice());
                let nonce_key: Vec<u8> = vec![
                    34u8, 44, 32, 34, 104, 101, 105, 103, 104, 116, 34, 58, 32, 50, 53, 49, 125, 44, 32, 34, 110,
                    111, 110, 99, 101, 34, 58, 32, 34,
                ];
                proof {
                    assert(nonce_key@ =~= state_leaf_nonce());
                }
                append_bytes(&mut out, nonce_key.as_slice());
                let nonce = state.nonce.0.to_hex();
                append_bytes(&mut out, nonce.as_slice());
                let close: Vec<u8> = vec![34u8, 125];
                proof {
                    assert(close@ =~= json_close());
                }
                append_bytes(&mut out, close.as_slice());
                StorageValue(out)
            },
        }
    }

    /// The storage prefix of the leaf.
    pub fn get_prefix(&self) -> (r: StoragePrefix)
        ensures
            r == leaf_prefix(*self),
    {
        match self {
            LeafDataImpl::StorageValue(_) => StoragePrefix::StorageLeaf,
            LeafDataImpl::CompiledClassHash(_) => StoragePrefix::CompiledClassLeaf,
            LeafDataImpl::ContractState(_) => StoragePrefix::StateTreeLeaf,
        }
    }
}

/// Why reading a stored leaf fails.
pub enum LeafReadFailure {
    /// The bytes are not UTF-8.
    NotUtf8,
    /// The text is not the JSON expected.
    NotJson,
    /// The named member is missing.
    MissingKey(Seq<char>),
    /// A member is not a string.
    NotText,
    /// A text is not a hexadecimal field element.
    BadHex,
    /// The prefix is not that of a leaf.
    WrongPrefix,
}

/// The field elements of a leaf, by kind.
pub enum LeafFields {
    Storage(nat),
    Class(nat),
    /// The nonce, the storage root hash and the class hash.
    State(nat, nat, nat),
}

/// The field elements of a leaf.
pub open spec fn leaf_fields(leaf: LeafDataImpl) -> LeafFields {
    match leaf {
        LeafDataImpl::StorageValue(v) => LeafFields::Storage(v.val()),
        LeafDataImpl::CompiledClassHash(c) => LeafFields::Class(c.0.val()),
        LeafDataImpl::ContractState(s) => LeafFields::State(s.nonce.0.val(), s.storage_root_hash.val(), s.class_hash.0.val()),
    }
}

/// The text of the member `key` of a JSON value.
pub open spec fn text_member(doc: JsonView, key: Seq<char>) -> Result<Seq<char>, LeafReadFailure> {
    match json_member(doc, key) {
        None => Err(LeafReadFailure::MissingKey(key)),
        Some(v) => match json_text(v) {
            None => Err(LeafReadFailure::NotText),
            Some(t) => Ok(t),
        },
    }
}

/// The field element a hexadecimal text stands for.
pub open spec fn hex_field(text: Seq<char>) -> Result<nat, LeafReadFailure> {
    match felt_hex_value(text) {
        None => Err(LeafReadFailure::BadHex),
        Some(v) => Ok(v),
    }
}

/// A compiled class leaf from its JSON text: the hash under
/// `compiled_class_hash`.
pub open spec fn read_class_leaf(text: Seq<char>) -> Result<LeafFields, LeafReadFailure> {
    match json_string_map(text) {
        None => Err(LeafReadFailure::NotJson),
        Some(m) => if !m.dom().contains("compiled_class_hash"@) {
            Err(LeafReadFailure::MissingKey("compiled_class_hash"@))
        } else {
            match hex_field(m["compiled_class_hash"@]) {
                Err(e) => Err(e),
                Ok(v) => Ok(LeafFields::Class(v)),
            }
        },
    }
}

/// A contract state leaf from its JSON value: the class hash under
/// `contract_hash`, the nonce under `nonce`, the root under
/// `storage_commitment_tree` and `root`; the members looked up in that order,
/// then the nonce, the root and the class hash read in that order.
pub open spec fn read_state_leaf(doc: JsonView) -> Result<LeafFields, LeafReadFailure> {
    match text_member(doc, "contract_hash"@) {
        Err(e) => Err(e),
        Ok(class_text) => match text_member(doc, "nonce"@) {
            Err(e) => Err(e),
            Ok(nonce_text) => match json_member(doc, "storage_commitment_tree"@) {
                None => Err(LeafReadFailure::MissingKey("storage_commitment_tree"@)),
                Some(tree) => match text_member(tree, "root"@) {
                    Err(e) => Err(e),
                    Ok(root_text) => match hex_field(nonce_text) {
                        Err(e) => Err(e),
                        Ok(nonce) => match hex_field(root_text) {
                            Err(e) => Err(e),
                            Ok(root) => match hex_field(class_text) {
                                Err(e) => Err(e),
                                Ok(class_hash) => Ok(LeafFields::State(nonce, root, class_hash)),
                            },
                        },
                    },
                },
            },
        },
    }
}

/// A leaf from its stored bytes and the prefix of its kind: a storage value
/// is the big-endian number of the bytes, reduced; the other kinds are JSON
/// text.
pub open spec fn read_leaf(bytes: Seq<u8>, prefix: StoragePrefix) -> Result<LeafFields, LeafReadFailure> {
    match prefix {
        StoragePrefix::StorageLeaf => Ok(LeafFields::Storage(be_value(bytes) % felt_prime())),
        StoragePrefix::CompiledClassLeaf => match utf8_decode(bytes) {
            None => Err(LeafReadFailure::NotUtf8),
            Some(text) => read_class_leaf(text),
        },
        StoragePrefix::StateTreeLeaf => match utf8_decode(bytes) {
            None => Err(LeafReadFailure::NotUtf8),
            Some(text) => match json_parse(text) {
                None => Err(LeafReadFailure::NotJson),
                Some(doc) => read_state_leaf(doc),
            },
        },
        StoragePrefix::InnerNode => Err(LeafReadFailure::WrongPrefix),
    }
}

/// The error that stands for a failure to read a leaf with a prefix.
pub open spec fn leaf_failure_is(e: DeserializationError, f: LeafReadFailure, prefix: StoragePrefix) -> bool {
    match f {
        LeafReadFailure::NotUtf8 => e is StringConversionError,
        LeafReadFailure::NotJson => e is ParsingError,
        LeafReadFailure::MissingKey(k) => e matches DeserializationError::NonExistingKey(s) && s@ == k,
        LeafReadFailure::NotText => e is LeafTypeError,
        LeafReadFailure::BadHex => e is FeltParsingError,
        LeafReadFailure::WrongPrefix => e == DeserializationError::LeafPrefixError(prefix),
    }
}

/// The text of the member `key` of a JSON value.
fn get_text_member<'a>(doc: &'a JsonValue, key: &str) -> (r: Result<&'a String, DeserializationError>)
    ensures
        match text_member(doc@, key@) {
            Ok(t) => r matches Ok(s) && s@ == t,
            Err(f) => r matches Err(e) && leaf_failure_is(e, f, StoragePrefix::InnerNode),
        },
{
    match doc.get(key) {
        None => Err(DeserializationError::NonExistingKey(key.to_owned())),
        Some(v) => match v.as_str() {
            None => Err(DeserializationError::LeafTypeError),
            Some(s) => Ok(s),
        },
    }
}

impl LeafDataImpl {
    /// Reads a leaf from its stored value and the prefix of its kind: a
    /// storage value from its big-endian bytes; a compiled class hash from the
    /// JSON member `compiled_class_hash`; a contract state from the JSON
    /// members `contract_hash`, `nonce` and `storage_commitment_tree.root`.
    /// Any other prefix is an error.
    pub fn deserialize(key: &StorageKey, value: &StorageValue, storage_prefix: &StoragePrefix) -> (r: Result<
        LeafDataImpl,
        DeserializationError,
    >)
        ensures
            match read_leaf(value.0@, *storage_prefix) {
                Ok(f) => r matches Ok(l) && leaf_fields(l) == f,
                Err(f) => r matches Err(e) && leaf_failure_is(e, f, *storage_prefix),
            },
    {
        match storage_prefix {
            StoragePrefix::CompiledClassLeaf => {
                let json_str = match utf8_text(value.0.as_slice()) {
                    Ok(s) => s,
                    Err(e) => {
                        return Err(DeserializationError::StringConversionError(e));
                    },
                };
                let map = match parse_string_map(json_str) {
                    Ok(m) => m,
                    Err(e) => {
                        return Err(DeserializationError::ParsingError(e));
                    },
                };
                let hash_as_hex = match string_member(&map, "compiled_class_hash") {
                    Some(h) => h,
                    None => {
                        return Err(DeserializationError::NonExistingKey("compiled_class_hash".to_owned()));
                    },
                };
                match Felt::from_hex(hash_as_hex.as_str()) {
                    Ok(f) => Ok(LeafDataImpl::CompiledClassHash(CompiledClassHash(f))),
                    Err(e) => Err(DeserializationError::FeltParsingError(e)),
                }
            },
            StoragePrefix::StorageLeaf => Ok(LeafDataImpl::StorageValue(Felt::from_bytes_be_slice(value.0.as_slice()))),
            StoragePrefix::StateTreeLeaf => {
                let json_str = match utf8_text(value.0.as_slice()) {
                    Ok(s) => s,
                    Err(e) => {
                        return Err(DeserializationError::StringConversionError(e));
                    },
                };
                let deserialized_map = match parse_json(json_str) {
                    Ok(v) => v,
                    Err(e) => {
                        return Err(DeserializationError::ParsingError(e));
                    },
                };
                let class_hash_as_hex = get_text_member(&deserialized_map, "contract_hash")?;
                let nonce_as_hex = get_text_member(&deserialized_map, "nonce")?;
                let tree = match deserialized_map.get("storage_commitment_tree") {
                    Some(t) => t,
                    None => {
                        return Err(DeserializationError::NonExistingKey("storage_commitment_tree".to_owned()));
                    },
                };
                let root_hash_as_hex = get_text_member(tree, "root")?;
                let nonce = match Nonce::from_hex(nonce_as_hex.as_str()) {
                    Ok(n) => n,
                    Err(e) => {
                        return Err(DeserializationError::FeltParsingError(e));
                    },
                };
                let storage_root_hash = match HashOutput::from_hex(root_hash_as_hex.as_str()) {
                    Ok(h) => h,
                    Err(e) => {
                        return Err(DeserializationError::FeltParsingError(e));
                    },
                };
                let class_hash = match ClassHash::from_hex(class_hash_as_hex.as_str()) {
                    Ok(c) => c,
                    Err(e) => {
                        return Err(DeserializationError::FeltParsingError(e));
                    },
                };
                Ok(LeafDataImpl::ContractState(ContractState { nonce, storage_root_hash, class_hash }))
            },
            StoragePrefix::InnerNode => Err(DeserializationError::LeafPrefixError(*storage_prefix)),
        }
    }
}

/// Reading back the stored form of a storage value leaf, with its prefix,
/// gives the leaf.
pub proof fn lemma_storage_leaf_roundtrip(v: Felt)
    requires
        v.val() < felt_prime(),
    ensures
        read_leaf(leaf_bytes(LeafDataImpl::StorageValue(v)), leaf_prefix(LeafDataImpl::StorageValue(v))) == Ok::<
            LeafFields,
            LeafReadFailure,
        >(leaf_fields(LeafDataImpl::StorageValue(v))),
{
    lemma_prime_below_pow2_256();
    lemma_be_bytes_value(v.val(), 32);
    lemma_small_mod(v.val(), felt_prime());
}

} // verus!
