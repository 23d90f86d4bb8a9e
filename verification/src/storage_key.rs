//! Storage slots of the vote records, laid out the way Solidity lays out
//!
//! ```solidity
//! struct VoteInfo {
//!     uint version,
//!     uint[3] pow_base_reward dynamic,
//!     uint[3] pos_interest_rate dynamic,
//! }
//! mapping(address => VoteInfo) votes;
//! ```
//!
//! A mapping entry sits at the Keccak-256 hash of the key and the mapping's
//! slot; a dynamic array starts at the hash of its slot.

use vstd::prelude::*;
use crate::word::{
    U256, be_bytes, be_value, u256_max, u256_modulus, u256_add, u256_lt, u256_sub,
    u256_to_be_bytes, u256_from_be_bytes,
};

verus! {

/// What the Keccak-256 hash of `data` is.
pub uninterp spec fn keccak256_spec(data: Seq<u8>) -> Seq<u8>;

/// `keccak_hash::keccak`: the Keccak-256 digest of `data`.
#[verifier::external_body]
pub(crate) fn keccak(data: &[u8]) -> (r: [u8; 32])
    ensures
        r@ == keccak256_spec(data@),
{
    keccak_hash::keccak(data).0
}

/// `From<H160> for H256` of `ethereum_types`: the 20 address bytes after 12
/// zero bytes.
#[verifier::external_body]
pub(crate) fn h256_from_address(address: &[u8; 20]) -> (r: [u8; 32])
    ensures
        r@ == Seq::new(12, |i: int| 0u8) + address@,
{
    ethereum_types::H256::from(ethereum_types::H160(*address)).0
}

/// `BigEndianHash::into_uint` of `ethereum_types::H256`: the number the 32
/// bytes stand for, most significant first.
#[verifier::external_body]
pub(crate) fn h256_into_uint(hash: &[u8; 32]) -> (r: U256)
    ensures
        r@ == be_value(hash@),
{
    U256 {
        limbs: <ethereum_types::H256 as ethereum_types::BigEndianHash>::into_uint(
            &ethereum_types::H256(*hash),
        ).0,
    }
}

/// The slot of the `votes` mapping itself.
pub const VOTES_SLOT: usize = 0;

/// The slot of the entry for key `index` in a mapping at slot `base`.
pub open spec fn mapping_slot_value(base: nat, index: nat) -> nat {
    be_value(keccak256_spec(be_bytes(index, 32) + be_bytes(base, 32)))
}

/// The first slot of the elements of a dynamic array whose length sits at
/// slot `base`.
pub open spec fn dynamic_slot_value(base: nat) -> nat {
    be_value(keccak256_spec(be_bytes(base, 32)))
}

/// An address as a number.
pub open spec fn address_value(address: Seq<u8>) -> nat {
    be_value(Seq::new(12, |i: int| 0u8) + address)
}

/// The slot of `votes[address]`, which holds its `version`.
pub open spec fn address_slot_value(address: Seq<u8>) -> nat {
    mapping_slot_value(VOTES_SLOT as nat, address_value(address))
}

/// The offset of the array of parameter `index` within a `VoteInfo`.
pub open spec fn topic_offset_value(index: int) -> nat {
    (index + 1) as nat
}

/// The slot of `votes[address].<parameter index>[opt_index]`.
pub open spec fn votes_slot_value(address: Seq<u8>, index: int, opt_index: int) -> nat {
    (dynamic_slot_value(address_slot_value(address) + topic_offset_value(index)) + opt_index) as nat
}

/// The parameter exists and no slot addition on the way to the vote slot
/// leaves 256 bits.
pub open spec fn votes_key_in_range(address: Seq<u8>, index: int, opt_index: int) -> bool {
    &&& 0 <= index < 2
    &&& address_slot_value(address) + topic_offset_value(index) <= u256_max()
    &&& dynamic_slot_value(address_slot_value(address) + topic_offset_value(index)) + opt_index
        <= u256_max()
}

/// Both 32-byte halves, one after the other.
fn concat_bytes(first: &[u8; 32], second: &[u8; 32]) -> (r: Vec<u8>)
    ensures
        r@ == first@ + second@,
{
    let mut out: Vec<u8> = Vec::new();
    let mut i: usize = 0;
    while i < 32
        invariant
            i <= 32,
            out@ == first@.take(i as int),
        decreases 32 - i,
    {
        out.push(first[i]);
        assert(first@.take(i + 1) =~= first@.take(i as int).push(first@[i as int]));
        i = i + 1;
    }
    let mut j: usize = 0;
    while j < 32
        invariant
            j <= 32,
            out@ == first@ + second@.take(j as int),
        decreases 32 - j,
    {
        out.push(second[j]);
        assert(second@.take(j + 1) =~= second@.take(j as int).push(second@[j as int]));
        j = j + 1;
    }
    assert(first@.take(32) =~= first@);
    assert(second@.take(32) =~= second@);
    out
}

/// The slot of the entry for key `index` in a mapping at slot `base`.
fn mapping_slot(base: U256, index: U256) -> (r: U256)
    ensures
        r@ == mapping_slot_value(base@, index@),
{
    let high = u256_to_be_bytes(index);
    let low = u256_to_be_bytes(base);
    let input = concat_bytes(&high, &low);
    let hash = keccak(input.as_slice());
    u256_from_be_bytes(&hash)
}

/// The first element slot of the dynamic array at `base`, moved on by `index`
/// elements of `size` slots each.
#[allow(dead_code)]
fn vector_slot(base: U256, index: usize, size: usize) -> (r: U256)
    requires
        index * size <= usize::MAX,
        dynamic_slot_value(base@) + index * size <= u256_max(),
    ensures
        r@ == dynamic_slot_value(base@) + index * size,
{
    let start_slot = dynamic_slot(base);
    array_slot(start_slot, index, size)
}

/// The first element slot of the dynamic array at `base`.
fn dynamic_slot(base: U256) -> (r: U256)
    ensures
        r@ == dynamic_slot_value(base@),
{
    let input = u256_to_be_bytes(base);
    let hash = keccak(&input);
    u256_from_be_bytes(&hash)
}

/// Slot `base` moved on by `index` elements of `element_size` slots each.
fn array_slot(base: U256, index: usize, element_size: usize) -> (r: U256)
    requires
        index * element_size <= usize::MAX,
        base@ + index * element_size <= u256_max(),
    ensures
        r@ == base@ + index * element_size,
{
    u256_add(base, U256::from_u64((index * element_size) as u64))
}

/// The 32 big-endian bytes of a value.
pub fn u256_to_array(input: U256) -> (r: [u8; 32])
    ensures
        r@ == be_bytes(input@, 32),
{
    u256_to_be_bytes(input)
}

/// The slot of `votes[address]` as a number.
fn address_slot(address: &[u8; 20]) -> (r: U256)
    ensures
        r@ == address_slot_value(address@),
{
    let base = U256::from_u64(VOTES_SLOT as u64);
    let key = h256_from_address(address);
    mapping_slot(base, h256_into_uint(&key))
}

/// The offset of the array of parameter `index` within a `VoteInfo`.
fn topic_offset(index: usize) -> (r: usize)
    requires
        index < 2,
    ensures
        r == topic_offset_value(index as int),
{
    if index == 0 {
        1
    } else {
        2
    }
}

/// The storage key of `votes[address].version`.
pub fn versions(address: &[u8; 20]) -> (r: [u8; 32])
    ensures
        r@ == be_bytes(address_slot_value(address@), 32),
{
    let version_slot = address_slot(address);
    u256_to_array(version_slot)
}

/// The storage key of the account's vote for option `opt_index` of parameter
/// `index`: `votes[address].<parameter>[opt_index]`.
pub fn votes(address: &[u8; 20], index: usize, opt_index: usize) -> (r: [u8; 32])
    requires
        votes_key_in_range(address@, index as int, opt_index as int),
    ensures
        r@ == be_bytes(votes_slot_value(address@, index as int, opt_index as int), 32),
{
    let address_slot = address_slot(address);
    let topic_slot = u256_add(address_slot, U256::from_u64(topic_offset(index) as u64));
    let topic_slot = dynamic_slot(topic_slot);
    let opt_slot = array_slot(topic_slot, opt_index, 1);
    u256_to_array(opt_slot)
}

/// The storage key of `votes`, or `None` where the parameter does not exist
/// or a slot addition would leave 256 bits (where `votes` panics).
pub fn votes_checked(address: &[u8; 20], index: usize, opt_index: usize) -> (r: Option<[u8; 32]>)
    ensures
        r is Some <==> votes_key_in_range(address@, index as int, opt_index as int),
        r matches Some(key) ==> key@ == be_bytes(
            votes_slot_value(address@, index as int, opt_index as int),
            32,
        ),
{
    if index >= 2 {
        return None;
    }
    let address_slot = address_slot(address);
    let offset = U256::from_u64(topic_offset(index) as u64);
    proof {
        address_slot.lemma_bound();
    }
    if u256_lt(u256_sub(U256::max_value(), offset), address_slot) {
        return None;
    }
    let topic_slot = dynamic_slot(u256_add(address_slot, offset));
    proof {
        topic_slot.lemma_bound();
    }
    if u256_lt(u256_sub(U256::max_value(), U256::from_u64(opt_index as u64)), topic_slot) {
        return None;
    }
    Some(votes(address, index, opt_index))
}

} // verus!
