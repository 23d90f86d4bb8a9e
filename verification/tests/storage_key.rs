use conflux_logic::storage_key::{u256_to_array, versions, votes, votes_checked};
use conflux_logic::word::U256;
use ethereum_types::{BigEndianHash, H160, H256};
use keccak_hash::keccak;

fn mapping_slot(base: ethereum_types::U256, index: ethereum_types::U256) -> ethereum_types::U256 {
    let mut input = [0u8; 64];
    base.to_big_endian(&mut input[32..]);
    index.to_big_endian(&mut input[..32]);
    ethereum_types::U256::from_big_endian(keccak(input).as_ref())
}

fn dynamic_slot(base: ethereum_types::U256) -> ethereum_types::U256 {
    let mut input = [0u8; 32];
    base.to_big_endian(&mut input);
    ethereum_types::U256::from_big_endian(keccak(input).as_ref())
}

fn to_array(x: ethereum_types::U256) -> [u8; 32] {
    let mut a = [0u8; 32];
    x.to_big_endian(&mut a);
    a
}

fn address() -> [u8; 20] {
    let mut a = [0u8; 20];
    for (i, b) in a.iter_mut().enumerate() {
        *b = (i as u8) * 7 + 1;
    }
    a
}

fn address_slot(a: [u8; 20]) -> ethereum_types::U256 {
    mapping_slot(ethereum_types::U256::zero(), H256::from(H160(a)).into_uint())
}

#[test]
fn version_key_is_the_mapping_entry() {
    let a = address();
    assert_eq!(versions(&a), to_array(address_slot(a)));
}

#[test]
fn vote_keys_are_elements_of_the_dynamic_arrays() {
    let a = address();
    for index in 0..2usize {
        for opt in 0..3usize {
            let topic = address_slot(a) + [1usize, 2][index];
            let expected = to_array(dynamic_slot(topic) + opt);
            assert_eq!(votes(&a, index, opt), expected);
            assert_eq!(votes_checked(&a, index, opt), Some(expected));
        }
    }
}

#[test]
fn vote_keys_differ_by_parameter_and_option() {
    let a = address();
    assert_ne!(votes(&a, 0, 0), votes(&a, 1, 0));
    assert_ne!(votes(&a, 0, 0), votes(&a, 0, 1));
    assert_ne!(votes(&a, 0, 0), versions(&a));
}

#[test]
fn vote_key_of_unknown_parameter_is_none() {
    assert_eq!(votes_checked(&address(), 2, 0), None);
}

#[test]
fn u256_to_array_is_big_endian() {
    let x = U256 { limbs: [0x0102030405060708, 0, 0, 0xa0b0c0d0e0f01020] };
    let a = u256_to_array(x);
    assert_eq!(a[..8], [0xa0, 0xb0, 0xc0, 0xd0, 0xe0, 0xf0, 0x10, 0x20]);
    assert_eq!(a[24..], [1, 2, 3, 4, 5, 6, 7, 8]);
    assert_eq!(a[8..24], [0u8; 16]);
    // reading the bytes back gives the value again
    assert_eq!(ethereum_types::U256::from_big_endian(&a).0, x.limbs);
}
