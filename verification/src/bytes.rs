//! Little-endian integer serialization used by the on-disk record layouts.

use vstd::prelude::*;
use vstd::arithmetic::power2::{pow2, lemma_pow2_adds, lemma_pow2_strictly_increases, lemma2_to64};
use vstd::arithmetic::div_mod::lemma_fundamental_div_mod;

verus! {

/// The `n` little-endian bytes of `x`; bits above `8 * n` are dropped.
pub open spec fn le_bytes(x: nat, n: nat) -> Seq<u8>
    decreases n,
{
    if n == 0 {
        Seq::empty()
    } else {
        seq![(x % 256) as u8].add(le_bytes(x / 256, (n - 1) as nat))
    }
}

/// The value read back from little-endian bytes.
pub open spec fn from_le(s: Seq<u8>) -> nat
    decreases s.len(),
{
    if s.len() == 0 {
        0
    } else {
        (s[0] + 256 * from_le(s.drop_first())) as nat
    }
}

pub proof fn lemma_le_bytes_len(x: nat, n: nat)
    ensures
        le_bytes(x, n).len() == n,
    decreases n,
{
    if n > 0 {
        lemma_le_bytes_len(x / 256, (n - 1) as nat);
    }
}

/// Reading back the little-endian bytes of `x` recovers `x` whenever `x`
/// fits in `n` bytes.
pub proof fn lemma_le_round_trip(x: nat, n: nat)
    requires
        x < pow2(8 * n),
    ensures
        from_le(le_bytes(x, n)) == x,
    decreases n,
{
    if n == 0 {
        assert(pow2(0) == 1) by {
            lemma2_to64();
        }
    } else {
        lemma_pow2_adds(8, 8 * (n - 1) as nat);
        assert(pow2(8) == 256) by {
            lemma2_to64();
        }
        assert(x / 256 < pow2(8 * (n - 1) as nat)) by (nonlinear_arith)
            requires
                x < 256 * pow2(8 * (n - 1) as nat),
        ;
        lemma_le_round_trip(x / 256, (n - 1) as nat);
        let s = le_bytes(x, n);
        assert(s.drop_first() =~= le_bytes(x / 256, (n - 1) as nat));
        lemma_fundamental_div_mod(x as int, 256);
    }
}

/// A value read from `s` is bounded by the width of `s`.
pub proof fn lemma_from_le_bound(s: Seq<u8>)
    ensures
        from_le(s) < pow2(8 * s.len()),
    decreases s.len(),
{
    if s.len() == 0 {
        assert(pow2(0) == 1) by {
            lemma2_to64();
        }
    } else {
        lemma_from_le_bound(s.drop_first());
        lemma_pow2_adds(8, 8 * (s.len() - 1) as nat);
        assert(pow2(8) == 256) by {
            lemma2_to64();
        }
        assert(s[0] + 256 * from_le(s.drop_first()) < 256 * pow2(8 * (s.len() - 1) as nat))
            by (nonlinear_arith)
            requires
                s[0] < 256,
                from_le(s.drop_first()) < pow2(8 * (s.len() - 1) as nat),
        ;
    }
}

/// Appends the `n` little-endian bytes of `x` to `out`.
pub fn put_le(out: &mut Vec<u8>, x: u128, n: usize)
    requires
        n <= 16,
    ensures
        final(out)@ == old(out)@.add(le_bytes(x as nat, n as nat)),
{
    let ghost orig = out@;
    let mut v: u128 = x;
    let mut i: usize = 0;
    while i < n
        invariant
            i <= n,
            out@.add(le_bytes(v as nat, (n - i) as nat)) == orig.add(le_bytes(x as nat, n as nat)),
        decreases n - i,
    {
        let ghost pre = out@;
        let b: u8 = (v % 256) as u8;
        out.push(b);
        proof {
            assert(le_bytes(v as nat, (n - i) as nat) == seq![b].add(
                le_bytes(v as nat / 256, (n - i - 1) as nat),
            ));
            assert(out@.add(le_bytes(v as nat / 256, (n - i - 1) as nat)) =~= pre.add(
                le_bytes(v as nat, (n - i) as nat),
            ));
        }
        v = v / 256;
        i = i + 1;
    }
    proof {
        assert(out@.add(le_bytes(v as nat, 0)) =~= out@);
    }
}

/// Reads an `n`-byte little-endian value out of `buf` at position `at`.
pub fn get_le(buf: &Vec<u8>, at: usize, n: usize) -> (r: u128)
    requires
        n <= 16,
        at + n <= buf@.len(),
    ensures
        r as nat == from_le(buf@.subrange(at as int, at + n)),
{
    proof {
        lemma_pow2_adds(64, 64);
        lemma2_to64();
    }
    let blen: usize = buf.len();
    let mut acc: u128 = 0;
    let mut i: usize = n;
    while i > 0
        invariant
            i <= n,
            n <= 16,
            at + n <= blen,
            blen == buf@.len(),
            acc as nat == from_le(buf@.subrange(at + i, at + n)),
            acc < pow2(8 * (n - i) as nat),
            pow2(128) == u128::MAX + 1,
        decreases i,
    {
        let b: u8 = buf[at + i - 1];
        proof {
            let whole = buf@.subrange(at + i - 1, at + n);
            assert(whole.drop_first() =~= buf@.subrange(at + i, at + n));
            assert(whole[0] == b);
            lemma_pow2_adds(8, 8 * (n - i) as nat);
            assert(pow2(8) == 256) by {
                lemma2_to64();
            }
            assert(b + 256 * acc < 256 * pow2(8 * (n - i) as nat)) by (nonlinear_arith)
                requires
                    b < 256,
                    acc < pow2(8 * (n - i) as nat),
            ;
            assert(8 * (n - i + 1) as nat == 8 + 8 * (n - i) as nat);
            if (8 * (n - i + 1) as nat) < 128 {
                lemma_pow2_strictly_increases(8 * (n - i + 1) as nat, 128);
            }
            assert(b + 256 * acc <= u128::MAX);
        }
        acc = acc * 256 + (b as u128);
        i = i - 1;
    }
    proof {
        assert(buf@.subrange(at as int, at + n) =~= buf@.subrange(at + 0, at + n));
    }
    acc
}

/// Reads a `u16` stored little-endian at `at`.
pub fn get_u16_le(buf: &Vec<u8>, at: usize) -> (r: u16)
    requires
        at + 2 <= buf@.len(),
    ensures
        r as nat == from_le(buf@.subrange(at as int, at + 2)),
{
    let v = get_le(buf, at, 2);
    proof {
        lemma_from_le_bound(buf@.subrange(at as int, at + 2));
        lemma2_to64();
    }
    v as u16
}

/// Reads a `u32` stored little-endian at `at`.
pub fn get_u32_le(buf: &Vec<u8>, at: usize) -> (r: u32)
    requires
        at + 4 <= buf@.len(),
    ensures
        r as nat == from_le(buf@.subrange(at as int, at + 4)),
{
    let v = get_le(buf, at, 4);
    proof {
        lemma_from_le_bound(buf@.subrange(at as int, at + 4));
        lemma2_to64();
    }
    v as u32
}

/// Reads a `u64` stored little-endian at `at`.
pub fn get_u64_le(buf: &Vec<u8>, at: usize) -> (r: u64)
    requires
        at + 8 <= buf@.len(),
    ensures
        r as nat == from_le(buf@.subrange(at as int, at + 8)),
{
    let v = get_le(buf, at, 8);
    proof {
        lemma_from_le_bound(buf@.subrange(at as int, at + 8));
        lemma2_to64();
    }
    v as u64
}

/// Reads a `u128` stored little-endian at `at`.
pub fn get_u128_le(buf: &Vec<u8>, at: usize) -> (r: u128)
    requires
        at + 16 <= buf@.len(),
    ensures
        r as nat == from_le(buf@.subrange(at as int, at + 16)),
{
    get_le(buf, at, 16)
}

/// A fresh copy of a byte vector.
pub fn copy_bytes(src: &Vec<u8>) -> (out: Vec<u8>)
    ensures
        out@ == src@,
{
    let mut out: Vec<u8> = Vec::new();
    let n: usize = src.len();
    let mut i: usize = 0;
    while i < n
        invariant
            i <= n,
            n == src@.len(),
            out@ == src@.subrange(0, i as int),
        decreases n - i,
    {
        out.push(src[i]);
        proof {
            assert(src@.subrange(0, i + 1) =~= src@.subrange(0, i as int).push(src@[i as int]));
        }
        i = i + 1;
    }
    proof {
        assert(src@.subrange(0, n as int) =~= src@);
    }
    out
}

/// Overwrites `dst` with the contents of `src`.
pub fn copy_into(dst: &mut Vec<u8>, src: &Vec<u8>)
    ensures
        final(dst)@ == src@,
{
    dst.clear();
    let n: usize = src.len();
    let mut i: usize = 0;
    while i < n
        invariant
            i <= n,
            n == src@.len(),
            dst@ == src@.subrange(0, i as int),
        decreases n - i,
    {
        dst.push(src[i]);
        proof {
            assert(src@.subrange(0, i + 1) =~= src@.subrange(0, i as int).push(src@[i as int]));
        }
        i = i + 1;
    }
    proof {
        assert(src@.subrange(0, n as int) =~= src@);
    }
}

/// Overwrites `dst` with `n` bytes of `src` starting at `at`.
pub fn copy_range_into(dst: &mut Vec<u8>, src: &Vec<u8>, at: usize, n: usize)
    requires
        at + n <= src@.len(),
    ensures
        final(dst)@ == src@.subrange(at as int, at + n),
{
    dst.clear();
    let slen: usize = src.len();
    let mut i: usize = 0;
    while i < n
        invariant
            i <= n,
            at + n <= slen,
            slen == src@.len(),
            dst@ == src@.subrange(at as int, at + i),
        decreases n - i,
    {
        dst.push(src[at + i]);
        proof {
            assert(src@.subrange(at as int, at + i + 1) =~= src@.subrange(at as int, at + i).push(
                src@[at + i],
            ));
        }
        i = i + 1;
    }
}

/// Round trip for values that fit 2 bytes.
pub proof fn lemma_u16_round_trip(x: u16)
    ensures
        from_le(le_bytes(x as nat, 2)) == x,
{
    lemma2_to64();
    lemma_le_round_trip(x as nat, 2);
}

/// Round trip for values that fit 4 bytes.
pub proof fn lemma_u32_round_trip(x: u32)
    ensures
        from_le(le_bytes(x as nat, 4)) == x,
{
    lemma2_to64();
    lemma_le_round_trip(x as nat, 4);
}

/// Round trip for values that fit 8 bytes.
pub proof fn lemma_u64_round_trip(x: u64)
    ensures
        from_le(le_bytes(x as nat, 8)) == x,
{
    lemma2_to64();
    lemma_le_round_trip(x as nat, 8);
}

/// Round trip for values that fit 16 bytes.
pub proof fn lemma_u128_round_trip(x: u128)
    ensures
        from_le(le_bytes(x as nat, 16)) == x,
{
    lemma2_to64();
    lemma_pow2_adds(64, 64);
    assert(x < pow2(128)) by (nonlinear_arith)
        requires
            pow2(128) == pow2(64) * pow2(64),
            pow2(64) == 0x10000000000000000,
    ;
    lemma_le_round_trip(x as nat, 16);
}

} // verus!
