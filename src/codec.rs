//! The codec contract and its implementations for the primitive types.
use vstd::prelude::*;
use vstd::slice::slice_to_vec;
use vstd::utf8::{decode_utf8, encode_utf8, encode_utf8_decode_utf8, encode_utf8_valid_utf8, valid_utf8};

use crate::cursor::ByteCursor;
use crate::varint::{
    lemma_parse_varint_bound, lemma_parse_varint_bytes, lemma_unzigzag_zigzag, lemma_varint_len,
    parse_varint, pow128, read_varint, two_pow_32, two_pow_64, unzigzag, varint_bytes,
    write_varint, zigzag,
};

verus! {

/// A type whose values can be written as bytes and read back from a cursor.
///
/// The encoding of a value is a function of its model (its deep view), and
/// decoding is a function of the bytes left in the cursor: it either yields a
/// model and the number of bytes it spans, or fails.
pub trait AvroCodec: Sized + DeepView {
    /// The models that `encode` accepts.
    spec fn spec_encodable(v: Self::V) -> bool;

    /// The bytes that `encode` writes for a value with model `v`.
    spec fn spec_encode(v: Self::V) -> Seq<u8>;

    /// What `decode` reads from the front of `s`: the model of the value and
    /// the number of bytes it consumes, or `None` when it fails.
    spec fn spec_decode(s: Seq<u8>) -> Option<(Self::V, nat)>;

    /// The models whose encoding is read back as the same model, consuming
    /// exactly the encoding.
    spec fn spec_round_trips(v: Self::V) -> bool;

    /// Decoding the encoding of `v`, whatever bytes follow it, gives back `v`
    /// and leaves the cursor just after the encoding.
    proof fn lemma_round_trip(v: Self::V, rest: Seq<u8>)
        requires
            Self::spec_round_trips(v),
        ensures
            Self::spec_decode(Self::spec_encode(v) + rest) == Some(
                (v, Self::spec_encode(v).len()),
            ),
    ;

    /// Writes the encoding of `self`.
    fn encode(&self) -> (r: Vec<u8>)
        requires
            Self::spec_encodable(self.deep_view()),
        ensures
            r@ == Self::spec_encode(self.deep_view()),
    ;

    /// Reads one value from `bytes`, advancing it past the bytes the value spans.
    fn decode(bytes: &mut ByteCursor) -> (r: Option<Self>)
        ensures
            match Self::spec_decode(old(bytes)@) {
                Some((v, n)) => {
                    &&& r matches Some(x) && x.deep_view() == v
                    &&& n <= old(bytes)@.len()
                    &&& final(bytes)@ == old(bytes)@.skip(n as int)
                },
                None => r is None,
            },
    ;
}

/// The varint of a 32-bit integer at the front of `s`: at most five bytes,
/// its accumulator cut to 32 bits, unfolded from zigzag.
pub open spec fn parse_int(s: Seq<u8>) -> Option<(int, nat)> {
    match parse_varint(s, 5) {
        Some((u, n)) => Some((unzigzag(u % two_pow_32()), n)),
        None => None,
    }
}

/// The varint of a 64-bit integer at the front of `s`: at most ten bytes,
/// its accumulator cut to 64 bits, unfolded from zigzag.
pub open spec fn parse_long(s: Seq<u8>) -> Option<(int, nat)> {
    match parse_varint(s, 10) {
        Some((u, n)) => Some((unzigzag(u % two_pow_64()), n)),
        None => None,
    }
}

/// The encoding of a signed integer of either width.
pub open spec fn int_bytes(v: int) -> Seq<u8> {
    varint_bytes(zigzag(v))
}

/// The encoding of a length or size.
pub open spec fn length_bytes(n: nat) -> Seq<u8> {
    varint_bytes(2 * n)
}

/// A length read from the front of `s`: a 32-bit integer, without its sign.
pub open spec fn parse_length(s: Seq<u8>) -> Option<(nat, nat)> {
    match parse_int(s) {
        Some((v, n)) => Some((if v < 0 {
            (-v) as nat
        } else {
            v as nat
        }, n)),
        None => None,
    }
}

/// The largest length that the length encoding carries faithfully, plus one.
pub open spec fn length_limit() -> nat {
    0x8000_0000
}

/// A signed integer in the 32-bit range is read back as itself.
pub proof fn lemma_int_round_trip(v: int, rest: Seq<u8>)
    requires
        i32::MIN <= v <= i32::MAX,
    ensures
        parse_int(int_bytes(v) + rest) == Some((v, int_bytes(v).len())),
        int_bytes(v).len() <= 5,
{
    reveal_with_fuel(pow128, 6);
    lemma_varint_len(zigzag(v), 5);
    lemma_parse_varint_bytes(zigzag(v), 5, rest);
    vstd::arithmetic::div_mod::lemma_small_mod(zigzag(v), two_pow_32());
    lemma_unzigzag_zigzag(v);
}

/// A signed integer in the 64-bit range is read back as itself.
pub proof fn lemma_long_round_trip(v: int, rest: Seq<u8>)
    requires
        i64::MIN <= v <= i64::MAX,
    ensures
        parse_long(int_bytes(v) + rest) == Some((v, int_bytes(v).len())),
        int_bytes(v).len() <= 10,
{
    reveal_with_fuel(pow128, 11);
    lemma_varint_len(zigzag(v), 10);
    lemma_parse_varint_bytes(zigzag(v), 10, rest);
    vstd::arithmetic::div_mod::lemma_small_mod(zigzag(v), two_pow_64());
    lemma_unzigzag_zigzag(v);
}

/// A length below the limit is read back as itself.
pub proof fn lemma_length_round_trip(n: nat, rest: Seq<u8>)
    requires
        n < length_limit(),
    ensures
        parse_length(length_bytes(n) + rest) == Some((n, length_bytes(n).len())),
{
    assert(zigzag(n as int) == 2 * n);
    lemma_int_round_trip(n as int, rest);
}

/// Zero encodes to the single byte `0x00` at every width, and that byte
/// decodes to zero at every width.
pub proof fn lemma_zero_encoding()
    ensures
        int_bytes(0) == seq![0u8],
        length_bytes(0) == seq![0u8],
        parse_int(seq![0u8]) == Some((0int, 1nat)),
        parse_long(seq![0u8]) == Some((0int, 1nat)),
        parse_length(seq![0u8]) == Some((0nat, 1nat)),
{
    assert(int_bytes(0) =~= seq![0u8]);
    assert(length_bytes(0) =~= seq![0u8]);
    reveal_with_fuel(parse_varint, 2);
}

/// The extremes of each width take the longest encodings: five bytes for
/// 32-bit integers and ten for 64-bit ones.
pub proof fn lemma_extreme_widths()
    ensures
        int_bytes(i32::MIN as int).len() == 5,
        int_bytes(i32::MAX as int).len() == 5,
        int_bytes(i64::MIN as int).len() == 10,
        int_bytes(i64::MAX as int).len() == 10,
{
    reveal_with_fuel(varint_bytes, 11);
}

/// A 32-bit integer read from a varint lies in the 32-bit range.
pub proof fn lemma_parse_int_range(s: Seq<u8>)
    ensures
        parse_int(s) matches Some((v, n)) ==> i32::MIN <= v <= i32::MAX && n <= s.len(),
{
    lemma_parse_varint_bound(s, 5);
}

/// A 64-bit integer read from a varint lies in the 64-bit range.
proof fn lemma_parse_long_range(s: Seq<u8>)
    ensures
        parse_long(s) matches Some((v, n)) ==> i64::MIN <= v <= i64::MAX && n <= s.len(),
{
    lemma_parse_varint_bound(s, 10);
}

fn zigzag_fold(v: i64) -> (r: u64)
    ensures
        r == zigzag(v as int),
{
    if v >= 0 {
        (v as u64) * 2
    } else {
        ((-(v + 1)) as u64) * 2 + 1
    }
}

fn zigzag_unfold(u: u64) -> (r: i64)
    ensures
        r == unzigzag(u as nat),
{
    if u % 2 == 0 {
        (u / 2) as i64
    } else {
        -((u / 2) as i64) - 1
    }
}

impl AvroCodec for i32 {
    open spec fn spec_encodable(v: i32) -> bool {
        true
    }

    open spec fn spec_encode(v: i32) -> Seq<u8> {
        int_bytes(v as int)
    }

    open spec fn spec_decode(s: Seq<u8>) -> Option<(i32, nat)> {
        match parse_int(s) {
            Some((v, n)) => Some((v as i32, n)),
            None => None,
        }
    }

    open spec fn spec_round_trips(v: i32) -> bool {
        true
    }

    proof fn lemma_round_trip(v: i32, rest: Seq<u8>) {
        lemma_int_round_trip(v as int, rest);
    }

    fn encode(&self) -> (r: Vec<u8>) {
        write_varint(zigzag_fold(*self as i64))
    }

    fn decode(bytes: &mut ByteCursor) -> (r: Option<i32>) {
        proof {
            lemma_parse_int_range(bytes@);
        }
        match read_varint(bytes, 5) {
            Some(u) => {
                proof {
                    if let Some((w, n)) = parse_varint(old(bytes)@, 5) {
                        vstd::arithmetic::div_mod::lemma_mod_mod(w as int, two_pow_32() as int, 0x1_0000_0000);
                    }
                }
                Some(zigzag_unfold(u % 0x1_0000_0000) as i32)
            },
            None => None,
        }
    }
}

impl AvroCodec for i64 {
    open spec fn spec_encodable(v: i64) -> bool {
        true
    }

    open spec fn spec_encode(v: i64) -> Seq<u8> {
        int_bytes(v as int)
    }

    open spec fn spec_decode(s: Seq<u8>) -> Option<(i64, nat)> {
        match parse_long(s) {
            Some((v, n)) => Some((v as i64, n)),
            None => None,
        }
    }

    open spec fn spec_round_trips(v: i64) -> bool {
        true
    }

    proof fn lemma_round_trip(v: i64, rest: Seq<u8>) {
        lemma_long_round_trip(v as int, rest);
    }

    fn encode(&self) -> (r: Vec<u8>) {
        write_varint(zigzag_fold(*self))
    }

    fn decode(bytes: &mut ByteCursor) -> (r: Option<i64>) {
        proof {
            lemma_parse_long_range(bytes@);
        }
        match read_varint(bytes, 10) {
            Some(u) => Some(zigzag_unfold(u)),
            None => None,
        }
    }
}

impl AvroCodec for usize {
    open spec fn spec_encodable(v: usize) -> bool {
        v < length_limit()
    }

    open spec fn spec_encode(v: usize) -> Seq<u8> {
        length_bytes(v as nat)
    }

    open spec fn spec_decode(s: Seq<u8>) -> Option<(usize, nat)> {
        match parse_length(s) {
            Some((v, n)) => Some((v as usize, n)),
            None => None,
        }
    }

    open spec fn spec_round_trips(v: usize) -> bool {
        v < length_limit()
    }

    proof fn lemma_round_trip(v: usize, rest: Seq<u8>) {
        lemma_length_round_trip(v as nat, rest);
    }

    fn encode(&self) -> (r: Vec<u8>) {
        write_varint((*self as u64) * 2)
    }

    fn decode(bytes: &mut ByteCursor) -> (r: Option<usize>) {
        match i32::decode(bytes) {
            Some(x) => {
                if x < 0 {
                    Some((-(x as i64)) as usize)
                } else {
                    Some(x as usize)
                }
            },
            None => None,
        }
    }
}

impl AvroCodec for bool {
    open spec fn spec_encodable(v: bool) -> bool {
        true
    }

    open spec fn spec_encode(v: bool) -> Seq<u8> {
        if v {
            seq![1u8]
        } else {
            seq![0u8]
        }
    }

    open spec fn spec_decode(s: Seq<u8>) -> Option<(bool, nat)> {
        if s.len() > 0 && s[0] == 0 {
            Some((false, 1))
        } else if s.len() > 0 && s[0] == 1 {
            Some((true, 1))
        } else {
            None
        }
    }

    open spec fn spec_round_trips(v: bool) -> bool {
        true
    }

    proof fn lemma_round_trip(v: bool, rest: Seq<u8>) {
    }

    fn encode(&self) -> (r: Vec<u8>) {
        if *self {
            vec![1u8]
        } else {
            vec![0u8]
        }
    }

    fn decode(bytes: &mut ByteCursor) -> (r: Option<bool>) {
        match bytes.next() {
            Some(0u8) => Some(false),
            Some(1u8) => Some(true),
            _ => None,
        }
    }
}

impl AvroCodec for u8 {
    open spec fn spec_encodable(v: u8) -> bool {
        true
    }

    open spec fn spec_encode(v: u8) -> Seq<u8> {
        seq![v]
    }

    open spec fn spec_decode(s: Seq<u8>) -> Option<(u8, nat)> {
        if s.len() > 0 {
            Some((s[0], 1))
        } else {
            None
        }
    }

    open spec fn spec_round_trips(v: u8) -> bool {
        true
    }

    proof fn lemma_round_trip(v: u8, rest: Seq<u8>) {
    }

    fn encode(&self) -> (r: Vec<u8>) {
        vec![*self]
    }

    fn decode(bytes: &mut ByteCursor) -> (r: Option<u8>) {
        bytes.next()
    }
}

/// Relies on `String::from_utf8`: it accepts exactly the well-formed UTF-8
/// byte sequences, and the string it returns holds the characters they encode.
#[verifier::external_body]
fn string_from_utf8(bytes: Vec<u8>) -> (r: Option<String>)
    ensures
        r is Some <==> valid_utf8(bytes@),
        r matches Some(s) ==> s@ == decode_utf8(bytes@),
{
    String::from_utf8(bytes).ok()
}

/// A string read from the front of `s`: a length, then that many bytes of
/// well-formed UTF-8.
pub open spec fn parse_string(s: Seq<u8>) -> Option<(Seq<char>, nat)> {
    match parse_length(s) {
        Some((len, k)) => {
            let body = s.subrange(k as int, (k + len) as int);
            if k + len <= s.len() && valid_utf8(body) {
                Some((decode_utf8(body), k + len))
            } else {
                None
            }
        },
        None => None,
    }
}

/// The encoding of a string: the length of its UTF-8 bytes, then the bytes.
pub open spec fn string_bytes(v: Seq<char>) -> Seq<u8> {
    length_bytes(encode_utf8(v).len()) + encode_utf8(v)
}

impl AvroCodec for String {
    open spec fn spec_encodable(v: Seq<char>) -> bool {
        encode_utf8(v).len() < length_limit()
    }

    open spec fn spec_encode(v: Seq<char>) -> Seq<u8> {
        string_bytes(v)
    }

    open spec fn spec_decode(s: Seq<u8>) -> Option<(Seq<char>, nat)> {
        parse_string(s)
    }

    open spec fn spec_round_trips(v: Seq<char>) -> bool {
        encode_utf8(v).len() < length_limit()
    }

    proof fn lemma_round_trip(v: Seq<char>, rest: Seq<u8>) {
        let body = encode_utf8(v);
        let len = body.len();
        let s = string_bytes(v) + rest;
        lemma_length_round_trip(len, body + rest);
        assert(s =~= length_bytes(len) + (body + rest));
        assert(s.subrange(length_bytes(len).len() as int, (length_bytes(len).len() + len) as int) =~= body);
        encode_utf8_valid_utf8(v);
        encode_utf8_decode_utf8(v);
    }

    fn encode(&self) -> (r: Vec<u8>) {
        let mut body = slice_to_vec(self.as_str().as_bytes());
        let mut out = body.len().encode();
        out.append(&mut body);
        out
    }

    fn decode(bytes: &mut ByteCursor) -> (r: Option<String>) {
        let len = match usize::decode(bytes) {
            Some(len) => len,
            None => return None,
        };
        let ghost after_len = bytes@;
        match bytes.next_bytes(len) {
            Some(body) => {
                proof {
                    assert(body@ =~= old(bytes)@.subrange(
                        old(bytes)@.len() - after_len.len(),
                        old(bytes)@.len() - after_len.len() + len,
                    ));
                    assert(bytes@ =~= old(bytes)@.skip(old(bytes)@.len() - after_len.len() + len));
                }
                string_from_utf8(body)
            },
            None => None,
        }
    }
}

} // verus!
