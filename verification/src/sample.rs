//! Audio sample formats and their byte encodings.
use vstd::prelude::*;
use crate::bytes::{ne_bytes, i16_bits, pow256, lemma_i16_bits, lemma_ne_roundtrip, lemma_pow256_small, i16_to_ne_bytes, u16_to_ne_bytes, u32_to_ne_bytes};

verus! {

/// The sample formats that a sound device can deliver or take.
#[derive(Clone, Copy, Debug, PartialEq, Eq, Structural)]
pub enum SampleKind {
    F32,
    I16,
    U16,
}

/// A 32-bit float sample, held as its IEEE-754 bit pattern (`f32::to_bits`).
#[derive(Clone, Copy, Debug, PartialEq, Eq, Structural)]
pub struct F32Bits(pub u32);

/// A sample taken from one of the playback queues.
#[derive(Clone, Copy, Debug, PartialEq, Eq, Structural)]
pub enum QueuedSample {
    F32(F32Bits),
    I16(i16),
    U16(u16),
}

/// Number of bytes of one sample of the given format.
pub open spec fn spec_type_size(kind: SampleKind) -> nat {
    match kind {
        SampleKind::F32 => 4,
        SampleKind::I16 => 2,
        SampleKind::U16 => 2,
    }
}

/// Number of bytes of one sample of the given format: 4 for a float
/// sample, 2 for the 16-bit integer formats.
pub fn type_size(kind: SampleKind) -> (r: usize)
    ensures
        r == spec_type_size(kind),
{
    match kind {
        SampleKind::F32 => 4,
        SampleKind::I16 => 2,
        SampleKind::U16 => 2,
    }
}

/// A sample type that can be written out as bytes in native byte order.
pub trait ConvertBytes: Sized {
    /// The native-order bytes of this sample.
    spec fn spec_ne_bytes(&self) -> Seq<u8>;

    /// The size of one sample of this type, in bytes.
    spec fn spec_size() -> nat;

    /// A sample's bytes are as many as the size of its type.
    proof fn lemma_ne_bytes_len(&self)
        ensures
            self.spec_ne_bytes().len() == Self::spec_size(),
    ;

    /// The sample's bytes in native byte order.
    fn to_ne_bytes(&self) -> (r: Vec<u8>)
        ensures
            r@ == self.spec_ne_bytes(),
            r@.len() == Self::spec_size(),
    ;

    /// The size of this sample in bytes.
    fn size_of(&self) -> (r: usize)
        ensures
            r == Self::spec_size(),
    ;

    /// The size of one sample of this type in bytes.
    fn byte_size() -> (r: usize)
        ensures
            r == Self::spec_size(),
            0 < r <= 16,
    ;
}

impl ConvertBytes for i16 {
    open spec fn spec_ne_bytes(&self) -> Seq<u8> {
        ne_bytes(i16_bits(*self), 2)
    }

    open spec fn spec_size() -> nat {
        2
    }

    proof fn lemma_ne_bytes_len(&self) {
        lemma_i16_bits(*self);
        lemma_ne_roundtrip(i16_bits(*self), 2);
    }

    fn to_ne_bytes(&self) -> (r: Vec<u8>) {
        let z = i16_to_ne_bytes(*self);
        proof {
            lemma_i16_bits(*self);
            lemma_ne_roundtrip(i16_bits(*self), 2);
        }
        let mut v: Vec<u8> = Vec::new();
        v.push(z[0]);
        v.push(z[1]);
        assert(v@ =~= z@);
        v
    }

    fn size_of(&self) -> (r: usize) {
        2
    }

    fn byte_size() -> (r: usize) {
        2
    }
}

impl ConvertBytes for u16 {
    open spec fn spec_ne_bytes(&self) -> Seq<u8> {
        ne_bytes(*self as nat, 2)
    }

    open spec fn spec_size() -> nat {
        2
    }

    proof fn lemma_ne_bytes_len(&self) {
        lemma_pow256_small();
        lemma_ne_roundtrip(*self as nat, 2);
    }

    fn to_ne_bytes(&self) -> (r: Vec<u8>) {
        let z = u16_to_ne_bytes(*self);
        proof {
            assert(pow256(0) == 1);
            assert(pow256(1) == 256);
            assert(pow256(2) == 0x10000);
            lemma_ne_roundtrip(*self as nat, 2);
        }
        let mut v: Vec<u8> = Vec::new();
        v.push(z[0]);
        v.push(z[1]);
        assert(v@ =~= z@);
        v
    }

    fn size_of(&self) -> (r: usize) {
        2
    }

    fn byte_size() -> (r: usize) {
        2
    }
}

impl ConvertBytes for F32Bits {
    open spec fn spec_ne_bytes(&self) -> Seq<u8> {
        ne_bytes(self.0 as nat, 4)
    }

    open spec fn spec_size() -> nat {
        4
    }

    proof fn lemma_ne_bytes_len(&self) {
        lemma_pow256_small();
        lemma_ne_roundtrip(self.0 as nat, 4);
    }

    fn to_ne_bytes(&self) -> (r: Vec<u8>) {
        let z = u32_to_ne_bytes(self.0);
        proof {
            lemma_pow256_small();
            lemma_ne_roundtrip(self.0 as nat, 4);
        }
        let mut v: Vec<u8> = Vec::new();
        v.push(z[0]);
        v.push(z[1]);
        v.push(z[2]);
        v.push(z[3]);
        assert(v@ =~= z@);
        v
    }

    fn size_of(&self) -> (r: usize) {
        4
    }

    fn byte_size() -> (r: usize) {
        4
    }
}

} // verus!
