//! Fixed-width unsigned integers held as little-endian 64-bit limbs, with the
//! arithmetic of `ethereum-types` behind small trusted wrappers.

use vstd::prelude::*;

verus! {

/// 2^64, the base of one limb.
pub open spec fn limb_base() -> nat {
    0x1_0000_0000_0000_0000
}

/// 2^256.
pub open spec fn u256_modulus() -> nat {
    limb_base() * limb_base() * limb_base() * limb_base()
}

/// The largest value a `U256` holds: 2^256 - 1.
pub open spec fn u256_max() -> nat {
    (u256_modulus() - 1) as nat
}

/// 2^512.
pub open spec fn u512_modulus() -> nat {
    u256_modulus() * u256_modulus()
}

/// (2^64)^n.
pub open spec fn limb_power(n: nat) -> nat
    decreases n,
{
    if n == 0 {
        1
    } else {
        limb_base() * limb_power((n - 1) as nat)
    }
}

/// The number that little-endian limbs stand for.
pub open spec fn limbs_value(limbs: Seq<u64>) -> nat
    decreases limbs.len(),
{
    if limbs.len() == 0 {
        0
    } else {
        (limbs[0] + limb_base() * limbs_value(limbs.drop_first())) as nat
    }
}

/// The number that a big-endian byte string stands for.
pub open spec fn be_value(bytes: Seq<u8>) -> nat
    decreases bytes.len(),
{
    if bytes.len() == 0 {
        0
    } else {
        (be_value(bytes.drop_last()) * 256 + bytes.last()) as nat
    }
}

/// The `n` low bytes of `x`, most significant first.
pub open spec fn be_bytes(x: nat, n: nat) -> Seq<u8>
    decreases n,
{
    if n == 0 {
        Seq::empty()
    } else {
        be_bytes(x / 256, (n - 1) as nat).push((x % 256) as u8)
    }
}

/// 256^n.
pub open spec fn byte_power(n: nat) -> nat
    decreases n,
{
    if n == 0 {
        1
    } else {
        256 * byte_power((n - 1) as nat)
    }
}

/// Reading back `n` big-endian bytes of `x` gives `x` modulo 256^n.
pub proof fn lemma_be_value_of_be_bytes(x: nat, n: nat)
    ensures
        byte_power(n) > 0,
        be_value(be_bytes(x, n)) == x % byte_power(n),
    decreases n,
{
    if n > 0 {
        let m = (n - 1) as nat;
        lemma_be_value_of_be_bytes(x / 256, m);
        let bytes = be_bytes(x, n);
        assert(bytes.drop_last() =~= be_bytes(x / 256, m));
        assert(bytes.last() == (x % 256) as u8);
        vstd::arithmetic::div_mod::lemma_mod_breakdown(x as int, 256, byte_power(m) as int);
        assert(256 * byte_power(m) == byte_power(n));
    } else {
        assert(x % 1 == 0) by (nonlinear_arith);
    }
}

/// 256^32 is 2^256.
pub proof fn lemma_byte_power_32()
    ensures
        byte_power(32) == u256_modulus(),
{
    reveal_with_fuel(byte_power, 33);
    let b = limb_base();
    assert(b == byte_power(8));
    assert(byte_power(32) == 256 * (256 * (256 * (256 * (256 * (256 * (256 * (256 * byte_power(24)))))))));
    assert(byte_power(24) == 256 * (256 * (256 * (256 * (256 * (256 * (256 * (256 * byte_power(16)))))))));
    assert(byte_power(16) == 256 * (256 * (256 * (256 * (256 * (256 * (256 * (256 * byte_power(8)))))))));
    assert(byte_power(16) == b * b) by (nonlinear_arith)
        requires
            byte_power(16) == 256 * (256 * (256 * (256 * (256 * (256 * (256 * (256 * byte_power(8)))))))),
            b == byte_power(8),
            b == 256 * 256 * 256 * 256 * 256 * 256 * 256 * 256,
    ;
    assert(byte_power(24) == b * b * b) by (nonlinear_arith)
        requires
            byte_power(24) == 256 * (256 * (256 * (256 * (256 * (256 * (256 * (256 * byte_power(16)))))))),
            byte_power(16) == b * b,
            b == 256 * 256 * 256 * 256 * 256 * 256 * 256 * 256,
    ;
    assert(byte_power(32) == b * b * b * b) by (nonlinear_arith)
        requires
            byte_power(32) == 256 * (256 * (256 * (256 * (256 * (256 * (256 * (256 * byte_power(24)))))))),
            byte_power(24) == b * b * b,
            b == 256 * 256 * 256 * 256 * 256 * 256 * 256 * 256,
    ;
}

/// Writing a 256-bit value as 32 big-endian bytes and reading them back gives
/// the value again.
pub proof fn law_be_bytes_round_trip(x: U256)
    ensures
        be_value(be_bytes(x@, 32)) == x@,
{
    x.lemma_bound();
    lemma_be_value_of_be_bytes(x@, 32);
    lemma_byte_power_32();
    vstd::arithmetic::div_mod::lemma_small_mod(x@, u256_modulus());
}

/// A 256-bit unsigned integer: four 64-bit limbs, least significant first.
#[derive(Clone, Copy, Debug, PartialEq, Eq)]
pub struct U256 {
    pub limbs: [u64; 4],
}

/// A 512-bit unsigned integer: eight 64-bit limbs, least significant first.
#[derive(Clone, Copy, Debug, PartialEq, Eq)]
pub struct U512 {
    pub limbs: [u64; 8],
}

impl View for U256 {
    type V = nat;

    open spec fn view(&self) -> nat {
        limbs_value(self.limbs@)
    }
}

impl View for U512 {
    type V = nat;

    open spec fn view(&self) -> nat {
        limbs_value(self.limbs@)
    }
}

/// Limbs are bounded by the power of the base of their count.
pub proof fn lemma_limbs_value_bound(limbs: Seq<u64>)
    ensures
        limbs_value(limbs) < limb_power(limbs.len()),
    decreases limbs.len(),
{
    if limbs.len() > 0 {
        let rest = limbs.drop_first();
        lemma_limbs_value_bound(rest);
        let a = limbs[0] as int;
        let v = limbs_value(rest) as int;
        let p = limb_power(rest.len()) as int;
        let b = limb_base() as int;
        assert(a + b * v < b * p) by (nonlinear_arith)
            requires
                0 <= a < b,
                0 <= v < p,
        ;
    }
}

/// (2^64)^4 is 2^256 and (2^64)^8 is 2^512.
pub proof fn lemma_limb_powers()
    ensures
        limb_power(4) == u256_modulus(),
        limb_power(8) == u512_modulus(),
{
    reveal_with_fuel(limb_power, 9);
    let b = limb_base();
    assert(limb_power(4) == b * b * b * b);
    assert(limb_power(8) == b * (b * (b * (b * (b * b * b * b)))));
    assert(b * (b * (b * (b * (b * b * b * b)))) == (b * b * b * b) * (b * b * b * b))
        by (nonlinear_arith);
}

impl U256 {
    /// Every `U256` is at most 2^256 - 1.
    pub proof fn lemma_bound(self)
        ensures
            self@ <= u256_max(),
    {
        lemma_limbs_value_bound(self.limbs@);
        lemma_limb_powers();
    }

    /// Zero.
    pub fn zero() -> (r: U256)
        ensures
            r@ == 0,
    {
        let r = U256 { limbs: [0, 0, 0, 0] };
        proof {
            reveal_with_fuel(limbs_value, 5);
        }
        r
    }

    /// The value of a `u64`.
    pub fn from_u64(x: u64) -> (r: U256)
        ensures
            r@ == x,
    {
        let r = U256 { limbs: [x, 0, 0, 0] };
        proof {
            reveal_with_fuel(limbs_value, 5);
        }
        r
    }

    /// The largest value, 2^256 - 1.
    pub fn max_value() -> (r: U256)
        ensures
            r@ == u256_max(),
    {
        let m = 0xffff_ffff_ffff_ffffu64;
        let r = U256 { limbs: [m, m, m, m] };
        proof {
            reveal_with_fuel(limbs_value, 5);
        }
        r
    }
}



/// `saturating_add` of `ethereum_types::U256`: the sum, or 2^256 - 1 where the
/// sum does not fit.
#[verifier::external_body]
pub(crate) fn u256_saturating_add(a: U256, b: U256) -> (r: U256)
    ensures
        r@ == (if a@ + b@ > u256_max() { u256_max() } else { (a@ + b@) as nat }),
{
    U256 { limbs: ethereum_types::U256(a.limbs).saturating_add(ethereum_types::U256(b.limbs)).0 }
}

/// `+` of `ethereum_types::U256`, which panics on overflow: the exact sum.
#[verifier::external_body]
pub(crate) fn u256_add(a: U256, b: U256) -> (r: U256)
    requires
        a@ + b@ <= u256_max(),
    ensures
        r@ == a@ + b@,
{
    U256 { limbs: (ethereum_types::U256(a.limbs) + ethereum_types::U256(b.limbs)).0 }
}

/// `-` of `ethereum_types::U256`, which panics on underflow: the exact
/// difference.
#[verifier::external_body]
pub(crate) fn u256_sub(a: U256, b: U256) -> (r: U256)
    requires
        b@ <= a@,
    ensures
        r@ == a@ - b@,
{
    U256 { limbs: (ethereum_types::U256(a.limbs) - ethereum_types::U256(b.limbs)).0 }
}

/// `*` of `ethereum_types::U256` by a `u64`, which panics on overflow: the
/// exact product.
#[verifier::external_body]
pub(crate) fn u256_mul_u64(a: U256, b: u64) -> (r: U256)
    requires
        a@ * b <= u256_max(),
    ensures
        r@ == a@ * b,
{
    U256 { limbs: (ethereum_types::U256(a.limbs) * b).0 }
}

/// `/` of `ethereum_types::U256` by a `u64`, which panics on a zero divisor:
/// the quotient rounded down.
#[verifier::external_body]
pub(crate) fn u256_div_u64(a: U256, b: u64) -> (r: U256)
    requires
        b != 0,
    ensures
        r@ == a@ / (b as nat),
{
    U256 { limbs: (ethereum_types::U256(a.limbs) / b).0 }
}

/// `<` of `ethereum_types::U256`: numeric order.
#[verifier::external_body]
pub(crate) fn u256_lt(a: U256, b: U256) -> (r: bool)
    ensures
        r == (a@ < b@),
{
    ethereum_types::U256(a.limbs) < ethereum_types::U256(b.limbs)
}

/// `==` of `ethereum_types::U256`: numeric equality.
#[verifier::external_body]
pub(crate) fn u256_eq(a: U256, b: U256) -> (r: bool)
    ensures
        r == (a@ == b@),
{
    ethereum_types::U256(a.limbs) == ethereum_types::U256(b.limbs)
}

/// `as_u64` of `ethereum_types::U256`, which panics when the value does not
/// fit: the value itself.
#[verifier::external_body]
pub(crate) fn u256_as_u64(a: U256) -> (r: u64)
    requires
        a@ <= u64::MAX,
    ensures
        r == a@,
{
    ethereum_types::U256(a.limbs).as_u64()
}

/// `to_big_endian` of `ethereum_types::U256`: the 32 bytes of the value,
/// most significant first.
#[verifier::external_body]
pub(crate) fn u256_to_be_bytes(a: U256) -> (r: [u8; 32])
    ensures
        r@ == be_bytes(a@, 32),
{
    let mut bytes = [0u8; 32];
    ethereum_types::U256(a.limbs).to_big_endian(&mut bytes);
    bytes
}

/// `from_big_endian` of `ethereum_types::U256` on 32 bytes: the number they
/// stand for, most significant byte first.
#[verifier::external_body]
pub(crate) fn u256_from_be_bytes(bytes: &[u8; 32]) -> (r: U256)
    ensures
        r@ == be_value(bytes@),
{
    U256 { limbs: ethereum_types::U256::from_big_endian(bytes).0 }
}

/// `From<U256> for U512` of `ethereum_types`: the same value.
#[verifier::external_body]
pub(crate) fn u512_from_u256(a: U256) -> (r: U512)
    ensures
        r@ == a@,
{
    U512 { limbs: ethereum_types::U512::from(ethereum_types::U256(a.limbs)).0 }
}

/// `*` of `ethereum_types::U512`, which panics on overflow: the exact product.
#[verifier::external_body]
pub(crate) fn u512_mul(a: U512, b: U512) -> (r: U512)
    requires
        a@ * b@ < u512_modulus(),
    ensures
        r@ == a@ * b@,
{
    U512 { limbs: (ethereum_types::U512(a.limbs) * ethereum_types::U512(b.limbs)).0 }
}

/// `/` of `ethereum_types::U512`, which panics on a zero divisor: the quotient
/// rounded down.
#[verifier::external_body]
pub(crate) fn u512_div(a: U512, b: U512) -> (r: U512)
    requires
        b@ != 0,
    ensures
        r@ == a@ / b@,
{
    U512 { limbs: (ethereum_types::U512(a.limbs) / ethereum_types::U512(b.limbs)).0 }
}

/// The error of `TryFrom<U512> for U256` in `primitive_types`.
#[verifier::external_type_specification]
#[verifier::external_body]
pub struct ExConversionError(primitive_types::Error);

/// `TryFrom<U512> for U256` of `primitive_types` (the integers of
/// `ethereum_types`): the same value where it fits in 256 bits, and the
/// overflow error where it does not.
#[verifier::external_body]
pub(crate) fn u256_try_from_u512(a: U512) -> (r: Result<U256, primitive_types::Error>)
    ensures
        r is Ok <==> a@ <= u256_max(),
        r matches Ok(v) ==> v@ == a@,
{
    match <ethereum_types::U256 as core::convert::TryFrom<ethereum_types::U512>>::try_from(ethereum_types::U512(a.limbs)) {
        Ok(v) => Ok(U256 { limbs: v.0 }),
        Err(e) => Err(e),
    }
}

} // verus!
