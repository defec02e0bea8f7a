//! IEEE-754 values carried as their raw bit patterns, little-endian on the wire.
//!
//! The library works on the bit pattern of a float (`f32::to_bits`,
//! `f64::to_bits`); a float is rebuilt from a decoded pattern with
//! `from_bits`, which keeps every bit, NaN payloads included.
use vstd::prelude::*;

use crate::codec::AvroCodec;
use crate::cursor::ByteCursor;

verus! {

/// The bit pattern of a 32-bit float.
#[derive(Clone, Copy, Debug, PartialEq, Eq)]
pub struct F32Bits {
    pub bits: u32,
}

/// The bit pattern of a 64-bit float.
#[derive(Clone, Copy, Debug, PartialEq, Eq)]
pub struct F64Bits {
    pub bits: u64,
}

impl DeepView for F32Bits {
    type V = u32;

    open spec fn deep_view(&self) -> u32 {
        self.bits
    }
}

impl DeepView for F64Bits {
    type V = u64;

    open spec fn deep_view(&self) -> u64 {
        self.bits
    }
}

/// The four bytes of `x`, least significant first.
pub open spec fn le_bytes_32(x: u32) -> Seq<u8> {
    seq![
        (x & 0xff) as u8,
        ((x >> 8u32) & 0xff) as u8,
        ((x >> 16u32) & 0xff) as u8,
        ((x >> 24u32) & 0xff) as u8,
    ]
}

/// The value of the first four bytes of `b`, least significant first.
pub open spec fn from_le_bytes_32(b: Seq<u8>) -> u32 {
    (b[0] as u32) | ((b[1] as u32) << 8u32) | ((b[2] as u32) << 16u32) | ((b[3] as u32) << 24u32)
}

/// The eight bytes of `x`, least significant first.
pub open spec fn le_bytes_64(x: u64) -> Seq<u8> {
    seq![
        (x & 0xff) as u8,
        ((x >> 8u64) & 0xff) as u8,
        ((x >> 16u64) & 0xff) as u8,
        ((x >> 24u64) & 0xff) as u8,
        ((x >> 32u64) & 0xff) as u8,
        ((x >> 40u64) & 0xff) as u8,
        ((x >> 48u64) & 0xff) as u8,
        ((x >> 56u64) & 0xff) as u8,
    ]
}

/// The value of the first eight bytes of `b`, least significant first.
pub open spec fn from_le_bytes_64(b: Seq<u8>) -> u64 {
    (b[0] as u64) | ((b[1] as u64) << 8u64) | ((b[2] as u64) << 16u64) | ((b[3] as u64) << 24u64)
        | ((b[4] as u64) << 32u64) | ((b[5] as u64) << 40u64) | ((b[6] as u64) << 48u64) | ((
    b[7] as u64) << 56u64)
}

/// Reassembling the bytes of a 32-bit pattern gives back every bit of it.
pub proof fn lemma_le_32_round_trip(x: u32)
    ensures
        from_le_bytes_32(le_bytes_32(x)) == x,
{
    let b = le_bytes_32(x);
    let (b0, b1, b2, b3) = (b[0], b[1], b[2], b[3]);
    assert(b0 == (x & 0xff) as u8 && b1 == ((x >> 8u32) & 0xff) as u8 && b2 == ((x >> 16u32)
        & 0xff) as u8 && b3 == ((x >> 24u32) & 0xff) as u8);
    assert((b0 == (x & 0xff) as u8 && b1 == ((x >> 8u32) & 0xff) as u8 && b2 == ((x >> 16u32)
        & 0xff) as u8 && b3 == ((x >> 24u32) & 0xff) as u8) ==> (b0 as u32) | ((b1 as u32)
        << 8u32) | ((b2 as u32) << 16u32) | ((b3 as u32) << 24u32) == x) by (bit_vector);
}

/// Reassembling the bytes of a 64-bit pattern gives back every bit of it.
pub proof fn lemma_le_64_round_trip(x: u64)
    ensures
        from_le_bytes_64(le_bytes_64(x)) == x,
{
    let b = le_bytes_64(x);
    let (b0, b1, b2, b3, b4, b5, b6, b7) = (b[0], b[1], b[2], b[3], b[4], b[5], b[6], b[7]);
    assert(b0 == (x & 0xff) as u8 && b1 == ((x >> 8u64) & 0xff) as u8 && b2 == ((x >> 16u64)
        & 0xff) as u8 && b3 == ((x >> 24u64) & 0xff) as u8 && b4 == ((x >> 32u64) & 0xff) as u8
        && b5 == ((x >> 40u64) & 0xff) as u8 && b6 == ((x >> 48u64) & 0xff) as u8 && b7 == ((x
        >> 56u64) & 0xff) as u8);
    assert((b0 == (x & 0xff) as u8 && b1 == ((x >> 8u64) & 0xff) as u8 && b2 == ((x >> 16u64)
        & 0xff) as u8 && b3 == ((x >> 24u64) & 0xff) as u8 && b4 == ((x >> 32u64) & 0xff) as u8
        && b5 == ((x >> 40u64) & 0xff) as u8 && b6 == ((x >> 48u64) & 0xff) as u8 && b7 == ((x
        >> 56u64) & 0xff) as u8) ==> (b0 as u64) | ((b1 as u64) << 8u64) | ((b2 as u64) << 16u64)
        | ((b3 as u64) << 24u64) | ((b4 as u64) << 32u64) | ((b5 as u64) << 40u64) | ((b6 as u64)
        << 48u64) | ((b7 as u64) << 56u64) == x) by (bit_vector);
}

impl AvroCodec for F32Bits {
    open spec fn spec_encodable(v: u32) -> bool {
        true
    }

    open spec fn spec_encode(v: u32) -> Seq<u8> {
        le_bytes_32(v)
    }

    open spec fn spec_decode(s: Seq<u8>) -> Option<(u32, nat)> {
        if s.len() >= 4 {
            Some((from_le_bytes_32(s), 4))
        } else {
            None
        }
    }

    open spec fn spec_round_trips(v: u32) -> bool {
        true
    }

    proof fn lemma_round_trip(v: u32, rest: Seq<u8>) {
        lemma_le_32_round_trip(v);
        assert(from_le_bytes_32(le_bytes_32(v) + rest) == from_le_bytes_32(le_bytes_32(v)));
    }

    fn encode(&self) -> (r: Vec<u8>) {
        let x = self.bits;
        vec![(x & 0xff) as u8, ((x >> 8u32) & 0xff) as u8, ((x >> 16u32) & 0xff) as u8, ((x >> 24u32) & 0xff) as u8]
    }

    fn decode(bytes: &mut ByteCursor) -> (r: Option<F32Bits>) {
        match bytes.next_bytes(4) {
            Some(b) => {
                let bits = (b[0] as u32) | ((b[1] as u32) << 8u32) | ((b[2] as u32) << 16u32) | ((
                b[3] as u32) << 24u32);
                Some(F32Bits { bits })
            },
            None => None,
        }
    }
}

impl AvroCodec for F64Bits {
    open spec fn spec_encodable(v: u64) -> bool {
        true
    }

    open spec fn spec_encode(v: u64) -> Seq<u8> {
        le_bytes_64(v)
    }

    open spec fn spec_decode(s: Seq<u8>) -> Option<(u64, nat)> {
        if s.len() >= 8 {
            Some((from_le_bytes_64(s), 8))
        } else {
            None
        }
    }

    open spec fn spec_round_trips(v: u64) -> bool {
        true
    }

    proof fn lemma_round_trip(v: u64, rest: Seq<u8>) {
        lemma_le_64_round_trip(v);
        assert(from_le_bytes_64(le_bytes_64(v) + rest) == from_le_bytes_64(le_bytes_64(v)));
    }

    fn encode(&self) -> (r: Vec<u8>) {
        let x = self.bits;
        vec![
            (x & 0xff) as u8,
            ((x >> 8u64) & 0xff) as u8,
            ((x >> 16u64) & 0xff) as u8,
            ((x >> 24u64) & 0xff) as u8,
            ((x >> 32u64) & 0xff) as u8,
            ((x >> 40u64) & 0xff) as u8,
            ((x >> 48u64) & 0xff) as u8,
            ((x >> 56u64) & 0xff) as u8,
        ]
    }

    fn decode(bytes: &mut ByteCursor) -> (r: Option<F64Bits>) {
        match bytes.next_bytes(8) {
            Some(b) => {
                let bits = (b[0] as u64) | ((b[1] as u64) << 8u64) | ((b[2] as u64) << 16u64) | ((
                b[3] as u64) << 24u64) | ((b[4] as u64) << 32u64) | ((b[5] as u64) << 40u64) | ((
                b[6] as u64) << 48u64) | ((b[7] as u64) << 56u64);
                Some(F64Bits { bits })
            },
            None => None,
        }
    }
}

} // verus!
