//! Zigzag folding of signed integers and little-endian base-128 varints.
use vstd::arithmetic::div_mod::{lemma_fundamental_div_mod, lemma_mod_mod, lemma_small_mod};
use vstd::prelude::*;

use crate::cursor::{consumed_from, ByteCursor};

verus! {

/// 2^64, the modulus of a 64-bit accumulator.
pub open spec fn two_pow_64() -> nat {
    0x1_0000_0000_0000_0000
}

/// 2^32, the modulus of a 32-bit accumulator.
pub open spec fn two_pow_32() -> nat {
    0x1_0000_0000
}

/// `128^k`: one more than the largest value that `k` varint bytes can carry.
pub open spec fn pow128(k: nat) -> nat
    decreases k,
{
    if k == 0 {
        1
    } else {
        128 * pow128((k - 1) as nat)
    }
}

/// The varint bytes of `u`: seven payload bits per byte, least significant
/// group first, the high bit set on every byte but the last.
pub open spec fn varint_bytes(u: nat) -> Seq<u8>
    decreases u,
{
    if u < 128 {
        seq![u as u8]
    } else {
        seq![(u % 128 + 128) as u8] + varint_bytes(u / 128)
    }
}

/// The varint at the front of `s`, when it ends within its first `max` bytes:
/// the unsigned value it carries and the number of bytes it spans.
pub open spec fn parse_varint(s: Seq<u8>, max: nat) -> Option<(nat, nat)>
    decreases max,
{
    if max == 0 || s.len() == 0 {
        None
    } else if s[0] < 128 {
        Some((s[0] as nat, 1))
    } else {
        match parse_varint(s.skip(1), (max - 1) as nat) {
            Some((v, n)) => Some((((s[0] - 128) + 128 * v) as nat, n + 1)),
            None => None,
        }
    }
}

/// Zigzag folding: non-negative `v` goes to `2v`, negative `v` to `-2v - 1`.
pub open spec fn zigzag(v: int) -> nat {
    if v >= 0 {
        (2 * v) as nat
    } else {
        (-2 * v - 1) as nat
    }
}

/// The inverse of [`zigzag`]: even `u` gives `u / 2`, odd `u` gives `-(u / 2) - 1`.
pub open spec fn unzigzag(u: nat) -> int {
    if u % 2 == 0 {
        (u / 2) as int
    } else {
        -((u / 2) as int) - 1
    }
}

/// Unfolding `zigzag` and `unzigzag` gives back the signed value.
pub proof fn lemma_unzigzag_zigzag(v: int)
    ensures
        unzigzag(zigzag(v)) == v,
{
}

/// The varint of `u` spans at most `k` bytes when `u < 128^k`.
pub proof fn lemma_varint_len(u: nat, k: nat)
    requires
        k >= 1,
        u < pow128(k),
    ensures
        varint_bytes(u).len() <= k,
    decreases u,
{
    if u >= 128 {
        assert(k >= 2) by {
            if k == 1 {
                reveal_with_fuel(pow128, 2);
            }
        }
        assert(u / 128 < pow128((k - 1) as nat)) by (nonlinear_arith)
            requires
                u < pow128(k),
                pow128(k) == 128 * pow128((k - 1) as nat),
        ;
        lemma_varint_len(u / 128, (k - 1) as nat);
    }
}

/// A varint read from the front of `varint_bytes(u) + rest` gives back `u`
/// and spans exactly the varint's own bytes.
pub proof fn lemma_parse_varint_bytes(u: nat, max: nat, rest: Seq<u8>)
    requires
        varint_bytes(u).len() <= max,
    ensures
        parse_varint(varint_bytes(u) + rest, max) == Some((u, varint_bytes(u).len())),
    decreases u,
{
    let s = varint_bytes(u) + rest;
    if u >= 128 {
        lemma_parse_varint_bytes(u / 128, (max - 1) as nat, rest);
        assert(s.skip(1) =~= varint_bytes(u / 128) + rest);
    }
}

/// The value of a varint of `n` bytes is below `128^n`.
pub proof fn lemma_parse_varint_bound(s: Seq<u8>, max: nat)
    ensures
        parse_varint(s, max) matches Some((v, n)) ==> v < pow128(n) && 1 <= n <= max && n
            <= s.len(),
    decreases max,
{
    reveal_with_fuel(pow128, 2);
    if max > 0 && s.len() > 0 && s[0] >= 128 {
        lemma_parse_varint_bound(s.skip(1), (max - 1) as nat);
        if let Some((v, n)) = parse_varint(s.skip(1), (max - 1) as nat) {
            assert(pow128(n + 1) == 128 * pow128(n));
            assert((s[0] - 128) + 128 * v < 128 * pow128(n)) by (nonlinear_arith)
                requires
                    v < pow128(n),
                    0 <= s[0] - 128 < 128,
            ;
        }
    }
}

/// A varint whose every available byte has its continuation bit set is
/// truncated: reading it fails, however large the limit.
pub proof fn lemma_truncated_varint_fails(s: Seq<u8>, max: nat)
    requires
        forall|i: int| 0 <= i < s.len() ==> #[trigger] s[i] >= 128,
    ensures
        parse_varint(s, max) is None,
    decreases max,
{
    if max > 0 && s.len() > 0 {
        assert forall|i: int| 0 <= i < s.skip(1).len() implies #[trigger] s.skip(1)[i] >= 128 by {
            assert(s.skip(1)[i] == s[i + 1]);
        }
        lemma_truncated_varint_fails(s.skip(1), (max - 1) as nat);
    }
}

proof fn lemma_shift_in(c: nat, v: nat)
    requires
        c < 128,
    ensures
        (c + 128 * v) % two_pow_64() == c + 128 * (v % 0x200_0000_0000_0000),
        (v % two_pow_64()) % 0x200_0000_0000_0000 == v % 0x200_0000_0000_0000,
{
    let q = v / 0x200_0000_0000_0000;
    let r = v % 0x200_0000_0000_0000;
    lemma_fundamental_div_mod(v as int, 0x200_0000_0000_0000);
    assert(c + 128 * v == (c + 128 * r) + q * two_pow_64()) by (nonlinear_arith)
        requires
            v == 0x200_0000_0000_0000 * q + r,
    ;
    vstd::arithmetic::div_mod::lemma_mod_multiples_vanish(q as int, (c + 128 * r) as int, two_pow_64() as int);
    lemma_small_mod((c + 128 * r) as nat, two_pow_64());
    lemma_mod_mod(v as int, 0x200_0000_0000_0000, 128);
}

/// Writes the varint bytes of `u`.
pub fn write_varint(u: u64) -> (r: Vec<u8>)
    ensures
        r@ == varint_bytes(u as nat),
{
    let mut out: Vec<u8> = Vec::new();
    let mut rest: u64 = u;
    while rest >= 128
        invariant
            out@ + varint_bytes(rest as nat) == varint_bytes(u as nat),
        decreases rest,
    {
        let b: u8 = (rest % 128 + 128) as u8;
        proof {
            assert(out@.push(b) + varint_bytes((rest / 128) as nat) =~= out@ + varint_bytes(
                rest as nat,
            ));
        }
        out.push(b);
        rest = rest / 128;
    }
    out.push(rest as u8);
    out
}

/// Reads a varint of at most `max` bytes from `cur`, as a 64-bit accumulator
/// into which each group is shifted; bits beyond the 64th are dropped.
/// Fails when the bytes run out, or when `max` bytes pass with the
/// continuation bit still set. It pulls no more than `max` bytes.
pub fn read_varint(cur: &mut ByteCursor, max: usize) -> (r: Option<u64>)
    ensures
        match parse_varint(old(cur)@, max as nat) {
            Some((v, n)) => r == Some((v % two_pow_64()) as u64) && final(cur)@ == old(
                cur,
            )@.skip(n as int),
            None => r is None,
        },
        consumed_from(old(cur)@, final(cur)@),
        old(cur)@.len() - final(cur)@.len() <= max,
    decreases max,
{
    proof {
        assert(old(cur)@.skip(0) =~= old(cur)@);
    }
    if max == 0 {
        return None;
    }
    match cur.next() {
        None => None,
        Some(b) => {
            if b < 128 {
                Some(b as u64)
            } else {
                let ghost mid = cur@;
                let tail = read_varint(cur, max - 1);
                proof {
                    assert(old(cur)@.skip(1) == mid);
                    assert(cur@ =~= old(cur)@.skip(old(cur)@.len() - cur@.len()));
                }
                match tail {
                    None => None,
                    Some(t) => {
                        let c: u64 = (b - 128) as u64;
                        proof {
                            if let Some((v, n)) = parse_varint(mid, (max - 1) as nat) {
                                lemma_shift_in(c as nat, v);
                                lemma_parse_varint_bound(mid, (max - 1) as nat);
                                assert(mid.skip(n as int) =~= old(cur)@.skip(n + 1 as int));
                            }
                        }
                        Some((t % 0x200_0000_0000_0000) * 128 + c)
                    },
                }
            }
        },
    }
}

} // verus!
