//! Integers as little-endian bytes, and back.

use vstd::prelude::*;

verus! {

/// The four bytes of `x`, the lowest first.
#[verifier::opaque]
pub open spec fn le_u32(x: u32) -> Seq<u8> {
    seq![
        (x % 256) as u8,
        (x / 0x100 % 256) as u8,
        (x / 0x1_0000 % 256) as u8,
        (x / 0x100_0000) as u8,
    ]
}

/// The integer whose four little-endian bytes stand in `bytes` at `off`.
pub open spec fn u32_at(bytes: Seq<u8>, off: int) -> u32 {
    (bytes[off] + 0x100 * bytes[off + 1] + 0x1_0000 * bytes[off + 2] + 0x100_0000 * bytes[off + 3]) as u32
}

/// The eight bytes of `x`, the lowest first.
#[verifier::opaque]
pub open spec fn le_u64(x: u64) -> Seq<u8> {
    le_u32((x % 0x1_0000_0000) as u32) + le_u32((x / 0x1_0000_0000) as u32)
}

/// The integer whose eight little-endian bytes stand in `bytes` at `off`.
pub open spec fn u64_at(bytes: Seq<u8>, off: int) -> u64 {
    (u32_at(bytes, off) + 0x1_0000_0000 * u32_at(bytes, off + 4)) as u64
}

/// The integers of `words` as little-endian bytes, one after the other.
pub open spec fn words_le(words: Seq<u32>) -> Seq<u8> {
    Seq::new(4 * words.len(), |i: int| le_u32(words[i / 4])[i % 4])
}

/// The `n` integers whose little-endian bytes stand in `bytes` from `start`.
pub open spec fn words_at(bytes: Seq<u8>, start: int, n: int) -> Seq<u32> {
    Seq::new(n as nat, |i: int| u32_at(bytes, start + 4 * i))
}

/// Reading back what was written gives the integer.
pub proof fn lemma_u32_round_trip(x: u32)
    ensures
        le_u32(x).len() == 4,
        u32_at(le_u32(x), 0) == x,
{
    reveal(le_u32);
    let b0 = x % 256;
    let b1 = x / 0x100 % 256;
    let b2 = x / 0x1_0000 % 256;
    let b3 = x / 0x100_0000;
    assert(b0 < 256 && b1 < 256 && b2 < 256 && b3 < 256);
    assert(x / 0x1_0000 == x / 0x100 / 0x100);
    assert(x / 0x100_0000 == x / 0x1_0000 / 0x100);
    assert(b0 + 0x100 * b1 + 0x1_0000 * b2 + 0x100_0000 * b3 == x);
    let s = le_u32(x);
    assert(s[0] == b0 as u8 && s[1] == b1 as u8 && s[2] == b2 as u8 && s[3] == b3 as u8);
}

/// Reading back what was written gives the integer.
pub proof fn lemma_u64_round_trip(x: u64)
    ensures
        le_u64(x).len() == 8,
        u64_at(le_u64(x), 0) == x,
{
    reveal(le_u64);
    let lo = (x % 0x1_0000_0000) as u32;
    let hi = (x / 0x1_0000_0000) as u32;
    lemma_u32_round_trip(lo);
    lemma_u32_round_trip(hi);
    let s = le_u64(x);
    assert(s[0] == le_u32(lo)[0] && s[1] == le_u32(lo)[1] && s[2] == le_u32(lo)[2] && s[3] == le_u32(lo)[3]);
    assert(s[4] == le_u32(hi)[0] && s[5] == le_u32(hi)[1] && s[6] == le_u32(hi)[2] && s[7] == le_u32(hi)[3]);
}

/// An integer read from bytes depends on its own four bytes alone.
pub(crate) proof fn lemma_u32_at_same(a: Seq<u8>, i: int, b: Seq<u8>, j: int)
    requires
        0 <= i && i + 4 <= a.len(),
        0 <= j && j + 4 <= b.len(),
        a[i] == b[j],
        a[i + 1] == b[j + 1],
        a[i + 2] == b[j + 2],
        a[i + 3] == b[j + 3],
    ensures
        u32_at(a, i) == u32_at(b, j),
{
}

/// The integer at position `i` of the bytes of `words` is `words[i]`.
pub proof fn lemma_words_round_trip(words: Seq<u32>, i: int)
    requires
        0 <= i < words.len(),
    ensures
        words_le(words).len() == 4 * words.len(),
        u32_at(words_le(words), 4 * i) == words[i],
{
    let s = words_le(words);
    lemma_u32_round_trip(words[i]);
    assert(s[4 * i] == le_u32(words[i])[0]);
    assert(s[4 * i + 1] == le_u32(words[i])[1]);
    assert(s[4 * i + 2] == le_u32(words[i])[2]);
    assert(s[4 * i + 3] == le_u32(words[i])[3]);
}

/// Appends the four little-endian bytes of `x`.
pub fn push_u32(out: &mut Vec<u8>, x: u32)
    ensures
        final(out)@ == old(out)@ + le_u32(x),
        le_u32(x).len() == 4,
{
    let ghost before = out@;
    out.push((x % 256) as u8);
    out.push((x / 0x100 % 256) as u8);
    out.push((x / 0x1_0000 % 256) as u8);
    out.push((x / 0x100_0000) as u8);
    proof {
        reveal(le_u32);
        assert(out@ =~= before + le_u32(x));
    }
}

/// Appends the eight little-endian bytes of `x`.
pub fn push_u64(out: &mut Vec<u8>, x: u64)
    ensures
        final(out)@ == old(out)@ + le_u64(x),
        le_u64(x).len() == 8,
{
    let ghost before = out@;
    push_u32(out, (x % 0x1_0000_0000) as u32);
    push_u32(out, (x / 0x1_0000_0000) as u32);
    proof {
        reveal(le_u64);
        assert(out@ =~= before + le_u64(x));
    }
}

/// Reads the integer whose four little-endian bytes stand at `off`.
pub fn read_u32(bytes: &[u8], off: usize) -> (r: u32)
    requires
        off + 4 <= bytes@.len(),
    ensures
        r == u32_at(bytes@, off as int),
{
    let b0: u32 = bytes[off] as u32;
    let b1: u32 = bytes[off + 1] as u32;
    let b2: u32 = bytes[off + 2] as u32;
    let b3: u32 = bytes[off + 3] as u32;
    b0 + 0x100 * b1 + 0x1_0000 * b2 + 0x100_0000 * b3
}

/// Reads the integer whose eight little-endian bytes stand at `off`.
pub fn read_u64(bytes: &[u8], off: usize) -> (r: u64)
    requires
        off + 8 <= bytes@.len(),
    ensures
        r == u64_at(bytes@, off as int),
{
    let n: usize = bytes.len();
    let lo: u64 = read_u32(bytes, off) as u64;
    let hi: u64 = read_u32(bytes, off + 4) as u64;
    lo + 0x1_0000_0000 * hi
}

/// The integers of `slice` as little-endian bytes, one after the other.
pub fn to_bytes(slice: &[u32]) -> (r: Vec<u8>)
    ensures
        r@ == words_le(slice@),
{
    let mut out: Vec<u8> = Vec::new();
    let mut i: usize = 0;
    while i < slice.len()
        invariant
            i <= slice@.len(),
            out@ == words_le(slice@.take(i as int)),
        decreases slice@.len() - i,
    {
        let ghost before = out@;
        push_u32(&mut out, slice[i]);
        proof {
            let shorter = slice@.take(i as int);
            let longer = slice@.take(i + 1);
            assert forall|k: int| 0 <= k < 4 * (i + 1) implies out@[k] == words_le(longer)[k] by {
                if k < 4 * i {
                    assert(out@[k] == words_le(shorter)[k]);
                    assert(shorter[k / 4] == longer[k / 4]);
                } else {
                    assert(out@[k] == le_u32(slice@[i as int])[k - 4 * i]);
                    assert(k / 4 == i);
                }
            }
            assert(out@ =~= words_le(longer));
        }
        i = i + 1;
    }
    proof {
        assert(slice@.take(slice@.len() as int) =~= slice@);
    }
    out
}

} // verus!
