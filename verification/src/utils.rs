//! Little-endian byte combination: assembling a short byte sequence into an
//! unsigned or signed 32-bit integer.

use vstd::prelude::*;

verus! {

/// 256 raised to the power `n`: the weight of byte position `n` in a
/// little-endian byte sequence.
pub open spec fn pow256(n: nat) -> nat
    decreases n,
{
    if n == 0 {
        1
    } else {
        256 * pow256((n - 1) as nat)
    }
}

/// The unsigned value of a byte sequence read little-endian: byte `i`
/// contributes `s[i] * 256^i`.
pub open spec fn le_value(s: Seq<u8>) -> nat
    decreases s.len(),
{
    if s.len() == 0 {
        0
    } else {
        s[0] as nat + 256 * le_value(s.subrange(1, s.len() as int))
    }
}

/// The two's-complement reading of an unsigned 32-bit value.
pub open spec fn as_signed32(n: nat) -> int {
    if n >= 0x8000_0000 {
        n - 0x1_0000_0000
    } else {
        n as int
    }
}

/// The signed value of a byte sequence read little-endian: the same bit
/// assembly as `le_value`, reinterpreted as a two's-complement 32-bit
/// integer. Sequences shorter than four bytes never set the sign bit,
/// so their value stays non-negative.
pub open spec fn le_value_signed(s: Seq<u8>) -> int {
    as_signed32(le_value(s))
}

/// A little-endian value is bounded by the weight of the position one
/// past its last byte.
pub proof fn lemma_le_value_bound(s: Seq<u8>)
    ensures
        le_value(s) < pow256(s.len()),
    decreases s.len(),
{
    if s.len() != 0 {
        lemma_le_value_bound(s.subrange(1, s.len() as int));
    }
}

/// Extending the prefix under consideration by one byte adds that byte at
/// its positional weight.
pub proof fn lemma_le_value_take_succ(s: Seq<u8>, i: int)
    requires
        0 <= i < s.len(),
    ensures
        le_value(s.take(i + 1)) == le_value(s.take(i)) + s[i] * pow256(i as nat),
    decreases i,
{
    let t = s.subrange(1, s.len() as int);
    if i == 0 {
        let t1 = s.take(1);
        assert(t1.len() == 1 && t1[0] == s[0]);
        assert(t1.subrange(1, 1) =~= Seq::<u8>::empty());
        assert(le_value(Seq::<u8>::empty()) == 0);
        assert(le_value(t1) == s[0] as nat + 256 * le_value(t1.subrange(1, 1)));
        assert(s.take(0) =~= Seq::<u8>::empty());
        assert(pow256(0) == 1);
    } else {
        lemma_le_value_take_succ(t, i - 1);
        assert(s.take(i + 1).subrange(1, i + 1) =~= t.take(i));
        assert(s.take(i).subrange(1, i) =~= t.take(i - 1));
        assert(s.take(i + 1)[0] == s[0]);
        assert(le_value(s.take(i + 1)) == s[0] + 256 * le_value(t.take(i)));
        assert(le_value(s.take(i)) == s[0] + 256 * le_value(t.take(i - 1)));
        assert(256 * (le_value(t.take(i - 1)) + t[i - 1] * pow256((i - 1) as nat)) == 256
            * le_value(t.take(i - 1)) + 256 * (t[i - 1] * pow256((i - 1) as nat)))
            by (nonlinear_arith);
        assert(256 * (t[i - 1] * pow256((i - 1) as nat)) == t[i - 1] * (256 * pow256(
            (i - 1) as nat,
        ))) by (nonlinear_arith);
        assert(pow256(i as nat) == 256 * pow256((i - 1) as nat));
    }
}

/// Assembles at most four little-endian bytes into an unsigned 32-bit
/// integer: byte `i` contributes `bytes[i] << (8 * i)`, OR-combined.
pub fn combine_8bits(buffer: &[u8]) -> (r: u32)
    requires
        buffer@.len() <= 4,
    ensures
        r == le_value(buffer@),
{
    let mut combined_bits: u32 = 0;
    let mut counter: u32 = 0;
    let mut i: usize = 0;
    while i < buffer.len()
        invariant
            buffer@.len() <= 4,
            i <= buffer@.len(),
            counter == 8 * i,
            combined_bits == le_value(buffer@.take(i as int)),
        decreases buffer@.len() - i,
    {
        let byte = buffer[i];
        proof {
            lemma_le_value_take_succ(buffer@, i as int);
            lemma_le_value_bound(buffer@.take(i as int));
            assert(buffer@.take(i as int).len() == i);
            assert(pow256(0) == 1);
            assert(pow256(1) == 256);
            assert(pow256(2) == 65536);
            assert(pow256(3) == 16777216);
        }
        let term: u32 = (byte as u32) << counter;
        proof {
            let c = combined_bits;
            let b = byte as u32;
            let p = pow256(i as nat);
            if i == 0 {
                assert(p == 1);
                assert((b << 0u32) == b && (c | (b << 0u32)) == c + b) by (bit_vector)
                    requires
                        c < 1,
                        b < 256,
                ;
                assert(b * p == b) by (nonlinear_arith)
                    requires
                        p == 1,
                ;
            } else if i == 1 {
                assert(p == 256);
                assert((b << 8u32) == b * 256 && (c | (b << 8u32)) == c + b * 256) by (bit_vector)
                    requires
                        c < 256,
                        b < 256,
                ;
                assert(b * p == b * 256) by (nonlinear_arith)
                    requires
                        p == 256,
                ;
            } else if i == 2 {
                assert(p == 65536);
                assert((b << 16u32) == b * 65536 && (c | (b << 16u32)) == c + b * 65536)
                    by (bit_vector)
                    requires
                        c < 65536,
                        b < 256,
                ;
                assert(b * p == b * 65536) by (nonlinear_arith)
                    requires
                        p == 65536,
                ;
            } else {
                assert(p == 16777216);
                assert((b << 24u32) == b * 16777216 && (c | (b << 24u32)) == c + b * 16777216)
                    by (bit_vector)
                    requires
                        c < 16777216,
                        b < 256,
                ;
                assert(b * p == b * 16777216) by (nonlinear_arith)
                    requires
                        p == 16777216,
                ;
            }
            assert((c | term) == le_value(buffer@.take(i + 1)));
        }
        combined_bits = combined_bits | term;
        counter = counter + 8;
        i = i + 1;
    }
    proof {
        assert(buffer@.take(buffer@.len() as int) =~= buffer@);
    }
    combined_bits
}

/// Assembles at most four little-endian bytes into a signed 32-bit integer:
/// the same bit assembly as `combine_8bits`, with the full 32-bit pattern
/// read as two's complement, so four bytes whose last byte has its high bit
/// set produce a negative value.
pub fn combine_8bits_signed(buffer: &[u8]) -> (r: i32)
    requires
        buffer@.len() <= 4,
    ensures
        r == le_value_signed(buffer@),
{
    let combined = combine_8bits(buffer);
    if combined >= 0x8000_0000 {
        let low = combined - 0x8000_0000;
        (low as i32) + i32::MIN
    } else {
        combined as i32
    }
}

} // verus!
