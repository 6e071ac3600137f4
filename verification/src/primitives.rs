//! Leaf types: a fixed number of bytes that decode to a number.

use crate::context::Context;
use vstd::prelude::*;

verus! {

/// A type whose byte length follows from its declaration alone.
pub trait FixedSize {
    /// The number of bytes that a value of this type occupies.
    spec fn fixed_length(&self) -> nat;

    /// The number of bytes that a value of this type occupies, whatever the
    /// context.
    fn length(&self, ctx: Context) -> (n: usize)
        ensures
            n == self.fixed_length(),
    ;
}

/// A leaf type: a fixed number of bytes that decode to a number.
pub trait FixedSizePrimitive: FixedSize {
    /// The name of the type, for display.
    spec fn name_spec(&self) -> Seq<char>;

    /// The number that `bytes` stand for.
    spec fn decode_spec(&self, bytes: Seq<u8>) -> u64;

    /// The name of the type, for display.
    fn name(&self) -> (name: String)
        ensures
            name@ == self.name_spec(),
    ;

    /// Decodes the bytes of one value.
    fn decode(&self, bytes: &[u8]) -> (value: u64)
        requires
            bytes@.len() == self.fixed_length(),
        ensures
            value == self.decode_spec(bytes@),
    ;
}

/// The number that bytes stand for, the least significant first.
pub open spec fn little_endian(bytes: Seq<u8>) -> nat
    decreases bytes.len(),
{
    if bytes.len() == 0 {
        0
    } else {
        bytes[0] as nat + 256 * little_endian(bytes.drop_first())
    }
}

/// An unsigned integer of 4 bytes, the least significant first.
pub struct U32 {}

impl FixedSize for U32 {
    open spec fn fixed_length(&self) -> nat {
        4
    }

    fn length(&self, _ctx: Context) -> (n: usize) {
        4
    }
}

impl FixedSizePrimitive for U32 {
    open spec fn name_spec(&self) -> Seq<char> {
        "u32"@
    }

    open spec fn decode_spec(&self, bytes: Seq<u8>) -> u64 {
        little_endian(bytes) as u64
    }

    fn name(&self) -> (name: String) {
        "u32".to_owned()
    }

    fn decode(&self, bytes: &[u8]) -> (value: u64) {
        let b0 = bytes[0] as u64;
        let b1 = bytes[1] as u64;
        let b2 = bytes[2] as u64;
        let b3 = bytes[3] as u64;
        proof {
            lemma_little_endian_of_four(bytes@);
        }
        b0 + 256 * b1 + 65536 * b2 + 16777216 * b3
    }
}

/// The little-endian number of four bytes, written out.
pub proof fn lemma_little_endian_of_four(bytes: Seq<u8>)
    requires
        bytes.len() == 4,
    ensures
        little_endian(bytes) == bytes[0] + 256 * bytes[1] + 65536 * bytes[2] + 16777216 * bytes[3],
{
    let b1 = bytes.drop_first();
    let b2 = b1.drop_first();
    let b3 = b2.drop_first();
    let b4 = b3.drop_first();
    assert(little_endian(b4) == 0);
    assert(little_endian(b3) == bytes[3] as nat);
    assert(little_endian(b2) == bytes[2] as nat + 256 * little_endian(b3));
    assert(little_endian(b1) == bytes[1] as nat + 256 * little_endian(b2));
}

} // verus!
