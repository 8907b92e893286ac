//! Byte representations of integers in the machine's native byte order.
//!
//! The native order is vstd's `endianness()`, the byte order of the machine
//! that runs the code, the same for every conversion in one run.
use vstd::prelude::*;
use vstd::endian::{endianness, Endian};

verus! {

/// `256` to the power `n`.
pub open spec fn pow256(n: nat) -> nat
    decreases n,
{
    if n == 0 {
        1
    } else {
        256 * pow256((n - 1) as nat)
    }
}

/// The `n` least significant base-256 digits of `v`, least significant first.
pub open spec fn le_bytes(v: nat, n: nat) -> Seq<u8>
    decreases n,
{
    if n == 0 {
        Seq::empty()
    } else {
        seq![(v % 256) as u8] + le_bytes(v / 256, (n - 1) as nat)
    }
}

/// The number whose base-256 digits, least significant first, are `s`.
pub open spec fn le_value(s: Seq<u8>) -> nat
    decreases s.len(),
{
    if s.len() == 0 {
        0
    } else {
        s[0] as nat + 256 * le_value(s.drop_first())
    }
}

/// The `n`-byte memory representation of `v` in the native byte order of the machine.
pub open spec fn ne_bytes(v: nat, n: nat) -> Seq<u8> {
    match endianness() {
        Endian::Little => le_bytes(v, n),
        Endian::Big => le_bytes(v, n).reverse(),
    }
}

/// The number that the bytes `s` represent in the native byte order of the machine.
pub open spec fn ne_value(s: Seq<u8>) -> nat {
    match endianness() {
        Endian::Little => le_value(s),
        Endian::Big => le_value(s.reverse()),
    }
}

/// The two's complement bit pattern of an `i16`, read as an unsigned number.
pub open spec fn i16_bits(x: i16) -> nat {
    if x < 0 {
        (x + 0x10000) as nat
    } else {
        x as nat
    }
}

/// The `i16` whose two's complement bit pattern is the unsigned number `v`.
pub open spec fn i16_from_bits(v: nat) -> int {
    if v >= 0x8000 {
        v - 0x10000
    } else {
        v as int
    }
}

pub proof fn lemma_le_bytes_len(v: nat, n: nat)
    ensures
        le_bytes(v, n).len() == n,
    decreases n,
{
    if n > 0 {
        lemma_le_bytes_len(v / 256, (n - 1) as nat);
    }
}

pub proof fn lemma_pow256_pos(n: nat)
    ensures
        pow256(n) >= 1,
    decreases n,
{
    if n > 0 {
        lemma_pow256_pos((n - 1) as nat);
    }
}

/// Reading back `n` little-endian digits of `v` gives `v` when `v` fits in `n` bytes.
pub proof fn lemma_le_roundtrip(v: nat, n: nat)
    requires
        v < pow256(n),
    ensures
        le_value(le_bytes(v, n)) == v,
        le_bytes(v, n).len() == n,
    decreases n,
{
    lemma_le_bytes_len(v, n);
    if n > 0 {
        let m = (n - 1) as nat;
        lemma_pow256_pos(m);
        assert(v / 256 < pow256(m)) by (nonlinear_arith)
            requires
                v < 256 * pow256(m),
        ;
        lemma_le_roundtrip(v / 256, m);
        let s = le_bytes(v, n);
        assert(s.drop_first() =~= le_bytes(v / 256, m));
        assert(v == v % 256 + 256 * (v / 256)) by (nonlinear_arith);
    }
}

/// Reading back the native-order representation of `v` in `n` bytes gives `v`
/// when `v` fits in `n` bytes.
pub proof fn lemma_ne_roundtrip(v: nat, n: nat)
    requires
        v < pow256(n),
    ensures
        ne_value(ne_bytes(v, n)) == v,
        ne_bytes(v, n).len() == n,
{
    lemma_le_roundtrip(v, n);
    let s = le_bytes(v, n);
    assert(s.reverse().reverse() =~= s);
}

pub proof fn lemma_i16_bits(x: i16)
    ensures
        i16_bits(x) < pow256(2),
        i16_from_bits(i16_bits(x)) == x,
{
    assert(pow256(0) == 1);
    assert(pow256(1) == 256);
    assert(pow256(2) == 0x10000);
}

pub proof fn lemma_pow256_small()
    ensures
        pow256(0) == 1,
        pow256(1) == 0x100,
        pow256(2) == 0x10000,
        pow256(3) == 0x1000000,
        pow256(4) == 0x100000000,
{
    assert(pow256(0) == 1);
    assert(pow256(1) == 0x100);
    assert(pow256(2) == 0x10000);
    assert(pow256(3) == 0x1000000);
    assert(pow256(4) == 0x100000000);
}

pub proof fn lemma_pow256_16()
    ensures
        pow256(16) == 0x1_0000_0000_0000_0000_0000_0000_0000_0000,
{
    reveal_with_fuel(pow256, 17);
}

/// `u16::to_ne_bytes`: claimed to give the two base-256 digits of `x` in
/// the machine's byte order (`ne_bytes`).
#[verifier::external_body]
pub(crate) fn u16_to_ne_bytes(x: u16) -> (r: [u8; 2])
    ensures
        r@ == ne_bytes(x as nat, 2),
{
    x.to_ne_bytes()
}

/// `i16::to_ne_bytes`: claimed to give the two base-256 digits of the two's
/// complement bit pattern of `x` in the machine's byte order.
#[verifier::external_body]
pub(crate) fn i16_to_ne_bytes(x: i16) -> (r: [u8; 2])
    ensures
        r@ == ne_bytes(i16_bits(x), 2),
{
    x.to_ne_bytes()
}

/// `u32::to_ne_bytes`: claimed to give the four base-256 digits of `x` in
/// the machine's byte order.
#[verifier::external_body]
pub(crate) fn u32_to_ne_bytes(x: u32) -> (r: [u8; 4])
    ensures
        r@ == ne_bytes(x as nat, 4),
{
    x.to_ne_bytes()
}

/// `u128::to_ne_bytes`: claimed to give the sixteen base-256 digits of `x`
/// in the machine's byte order.
#[verifier::external_body]
pub(crate) fn u128_to_ne_bytes(x: u128) -> (r: [u8; 16])
    ensures
        r@ == ne_bytes(x as nat, 16),
{
    x.to_ne_bytes()
}

/// `u16::from_ne_bytes`: claimed to give the number whose base-256 digits,
/// in the machine's byte order, are `b` (`ne_value`).
#[verifier::external_body]
pub(crate) fn u16_from_ne_bytes(b: [u8; 2]) -> (r: u16)
    ensures
        r as nat == ne_value(b@),
{
    u16::from_ne_bytes(b)
}

/// `i16::from_ne_bytes`: claimed to give the `i16` whose two's complement
/// bit pattern has the base-256 digits `b`, in the machine's byte order.
#[verifier::external_body]
pub(crate) fn i16_from_ne_bytes(b: [u8; 2]) -> (r: i16)
    ensures
        r as int == i16_from_bits(ne_value(b@)),
{
    i16::from_ne_bytes(b)
}

/// `u32::from_ne_bytes`: claimed to give the number whose base-256 digits,
/// in the machine's byte order, are `b`.
#[verifier::external_body]
pub(crate) fn u32_from_ne_bytes(b: [u8; 4]) -> (r: u32)
    ensures
        r as nat == ne_value(b@),
{
    u32::from_ne_bytes(b)
}

/// `u128::from_ne_bytes`: claimed to give the number whose base-256 digits,
/// in the machine's byte order, are `b`.
#[verifier::external_body]
pub(crate) fn u128_from_ne_bytes(b: [u8; 16]) -> (r: u128)
    ensures
        r as nat == ne_value(b@),
{
    u128::from_ne_bytes(b)
}

} // verus!
