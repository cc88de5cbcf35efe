//! The cyclic redundancy checksum guarding compacted segment files:
//! the reflected 32-bit polynomial, bit by bit.

use vstd::prelude::*;

verus! {

/// Reflected generator polynomial of the 32-bit checksum.
pub const CRC32_POLY: u32 = 0xEDB8_8320;

/// One shift-and-conditionally-xor round on the running remainder.
pub open spec fn crc32_bit(c: u32) -> u32 {
    if c & 1 == 1 {
        (c >> 1) ^ CRC32_POLY
    } else {
        c >> 1
    }
}

/// `k` rounds of `crc32_bit`.
pub open spec fn crc32_bits(c: u32, k: nat) -> u32
    decreases k,
{
    if k == 0 {
        c
    } else {
        crc32_bits(crc32_bit(c), (k - 1) as nat)
    }
}

/// Folds one byte into the running remainder.
pub open spec fn crc32_byte(c: u32, b: u8) -> u32 {
    crc32_bits(c ^ (b as u32), 8)
}

/// Folds a whole byte sequence into the running remainder, front first.
pub open spec fn crc32_fold(c: u32, s: Seq<u8>) -> u32
    decreases s.len(),
{
    if s.len() == 0 {
        c
    } else {
        crc32_fold(crc32_byte(c, s[0]), s.drop_first())
    }
}

/// The checksum of a byte sequence.
pub open spec fn crc32(s: Seq<u8>) -> u32 {
    crc32_fold(0xFFFF_FFFF, s) ^ 0xFFFF_FFFF
}

/// Folding distributes over appending one byte at the back.
pub proof fn lemma_crc32_fold_push(c: u32, s: Seq<u8>, b: u8)
    ensures
        crc32_fold(c, s.push(b)) == crc32_byte(crc32_fold(c, s), b),
    decreases s.len(),
{
    assert(crc32_fold(c, s.push(b)) == crc32_fold(crc32_byte(c, s.push(b)[0]), s.push(b).drop_first()));
    if s.len() == 0 {
        assert(s.push(b)[0] == b);
        assert(s.push(b).drop_first() =~= s);
        assert(crc32_fold(c, s) == c);
    } else {
        assert(s.push(b)[0] == s[0]);
        assert(s.push(b).drop_first() =~= s.drop_first().push(b));
        lemma_crc32_fold_push(crc32_byte(c, s[0]), s.drop_first(), b);
        assert(crc32_fold(c, s) == crc32_fold(crc32_byte(c, s[0]), s.drop_first()));
    }
}

/// One executable round, mirroring `crc32_bit`.
fn crc32_bit_exec(c: u32) -> (r: u32)
    ensures
        r == crc32_bit(c),
{
    if c & 1 == 1 {
        (c >> 1u32) ^ CRC32_POLY
    } else {
        c >> 1u32
    }
}

/// Folds one byte, mirroring `crc32_byte`.
fn crc32_byte_exec(c: u32, b: u8) -> (r: u32)
    ensures
        r == crc32_byte(c, b),
{
    let mut acc: u32 = c ^ (b as u32);
    let mut k: usize = 0;
    while k < 8
        invariant
            k <= 8,
            crc32_bits(acc, (8 - k) as nat) == crc32_byte(c, b),
        decreases 8 - k,
    {
        acc = crc32_bit_exec(acc);
        k = k + 1;
    }
    acc
}

/// The checksum of `buf[0 .. end]`.
pub fn crc32_prefix(buf: &Vec<u8>, end: usize) -> (r: u32)
    requires
        end <= buf@.len(),
    ensures
        r == crc32(buf@.subrange(0, end as int)),
{
    let mut acc: u32 = 0xFFFF_FFFF;
    let mut i: usize = 0;
    while i < end
        invariant
            i <= end,
            end <= buf@.len(),
            acc == crc32_fold(0xFFFF_FFFF, buf@.subrange(0, i as int)),
        decreases end - i,
    {
        let ghost pre = buf@.subrange(0, i as int);
        acc = crc32_byte_exec(acc, buf[i]);
        proof {
            assert(buf@.subrange(0, i + 1) =~= pre.push(buf@[i as int]));
            lemma_crc32_fold_push(0xFFFF_FFFF, pre, buf@[i as int]);
        }
        i = i + 1;
    }
    acc ^ 0xFFFF_FFFF
}

} // verus!
