//! The blob that holds a double array: a header of five little-endian
//! 64-bit integers, then `BASE`, `CHECK` and `DATA`.
//!
//! | bytes    | field                                    |
//! |----------|------------------------------------------|
//! | 0..8     | offset of `BASE`                         |
//! | 8..16    | offset of `CHECK`                        |
//! | 16..24   | offset of `DATA`                         |
//! | 24..32   | number of entries of `BASE`              |
//! | 32..40   | number of entries of `CHECK`             |
//!
//! The entries of `BASE` and `CHECK` are little-endian 32-bit integers, and
//! `DATA` runs from its offset to the end of the blob.

use vstd::prelude::*;
use crate::error::{Error, Flaw};
use crate::model::Arrays;
use crate::utils::{
    le_u64, lemma_u32_at_same, lemma_u64_round_trip, lemma_words_round_trip, push_u64, read_u64, to_bytes,
    u64_at, words_at, words_le,
};

verus! {

/// The number of bytes of the header.
pub const HEADER_SIZE: usize = 40;

/// Where the regions lie, as the header says it.
pub struct Layout {
    pub base_idx: int,
    pub check_idx: int,
    pub data_idx: int,
    pub base_len: int,
    pub check_len: int,
}

impl Layout {
    /// Whether every region lies within a blob of `n` bytes.
    pub open spec fn within(self, n: int) -> bool {
        &&& self.base_idx + 4 * self.base_len <= n
        &&& self.check_idx + 4 * self.check_len <= n
        &&& self.data_idx <= n
    }

    /// The header bytes that say this layout.
    pub open spec fn bytes(self) -> Seq<u8> {
        le_u64(self.base_idx as u64) + le_u64(self.check_idx as u64) + le_u64(self.data_idx as u64) + le_u64(
            self.base_len as u64,
        ) + le_u64(self.check_len as u64)
    }
}

/// The layout that the first bytes of a blob say.
pub open spec fn layout_of(blob: Seq<u8>) -> Layout {
    Layout {
        base_idx: u64_at(blob, 0) as int,
        check_idx: u64_at(blob, 8) as int,
        data_idx: u64_at(blob, 16) as int,
        base_len: u64_at(blob, 24) as int,
        check_len: u64_at(blob, 32) as int,
    }
}

/// Whether a blob holds a header whose regions lie within the blob.
pub open spec fn well_formed(blob: Seq<u8>) -> bool {
    blob.len() >= HEADER_SIZE && layout_of(blob).within(blob.len() as int)
}

/// What is wrong with a blob, if anything: the first of the flaws, in the
/// order of the header's fields, offsets before lengths.
pub open spec fn flaw_of(blob: Seq<u8>) -> Option<Flaw> {
    let n = blob.len() as int;
    let l = layout_of(blob);
    if n < HEADER_SIZE {
        Some(Flaw::TooShort)
    } else if l.base_idx > n {
        Some(Flaw::BaseIdx)
    } else if l.check_idx > n {
        Some(Flaw::CheckIdx)
    } else if l.data_idx > n {
        Some(Flaw::DataIdx)
    } else if l.base_idx + 4 * l.base_len > n {
        Some(Flaw::BaseLen)
    } else if l.check_idx + 4 * l.check_len > n {
        Some(Flaw::CheckLen)
    } else {
        None
    }
}

/// A blob is well-formed exactly where nothing is wrong with it.
pub proof fn lemma_flawless(blob: Seq<u8>)
    ensures
        well_formed(blob) <==> flaw_of(blob) is None,
{
}

/// The arrays that a blob holds.
pub open spec fn arrays_of(blob: Seq<u8>) -> Arrays {
    let l = layout_of(blob);
    Arrays {
        base: words_at(blob, l.base_idx, l.base_len),
        check: words_at(blob, l.check_idx, l.check_len),
        data: blob.skip(l.data_idx),
    }
}

/// The layout of the blob made from arrays: the regions follow the header
/// one after the other.
pub open spec fn packed_layout(arr: Arrays) -> Layout {
    Layout {
        base_idx: HEADER_SIZE as int,
        check_idx: HEADER_SIZE + 4 * arr.base.len(),
        data_idx: HEADER_SIZE + 4 * arr.base.len() + 4 * arr.check.len(),
        base_len: arr.base.len() as int,
        check_len: arr.check.len() as int,
    }
}

/// The blob made from arrays.
pub open spec fn blob_of(arr: Arrays) -> Seq<u8> {
    packed_layout(arr).bytes() + words_le(arr.base) + words_le(arr.check) + arr.data
}

/// The eight bytes of `x` between two runs of bytes read as `x`.
proof fn lemma_field(front: Seq<u8>, x: u64, back: Seq<u8>)
    ensures
        le_u64(x).len() == 8,
        u64_at(front + le_u64(x) + back, front.len() as int) == x,
{
    lemma_u64_round_trip(x);
    let s = le_u64(x);
    let all = front + s + back;
    let off = front.len() as int;
    assert(all[off] == s[0] && all[off + 1] == s[1] && all[off + 2] == s[2] && all[off + 3] == s[3]);
    assert(all[off + 4] == s[4] && all[off + 5] == s[5] && all[off + 6] == s[6] && all[off + 7] == s[7]);
    lemma_u32_at_same(all, off, s, 0);
    lemma_u32_at_same(all, off + 4, s, 4);
}

/// The header bytes say the layout that they were made from.
pub proof fn lemma_header_round_trip(l: Layout, rest: Seq<u8>)
    requires
        0 <= l.base_idx <= u64::MAX,
        0 <= l.check_idx <= u64::MAX,
        0 <= l.data_idx <= u64::MAX,
        0 <= l.base_len <= u64::MAX,
        0 <= l.check_len <= u64::MAX,
    ensures
        l.bytes().len() == HEADER_SIZE,
        layout_of(l.bytes() + rest) == l,
{
    let a = le_u64(l.base_idx as u64);
    let b = le_u64(l.check_idx as u64);
    let c = le_u64(l.data_idx as u64);
    let d = le_u64(l.base_len as u64);
    let e = le_u64(l.check_len as u64);
    let all = l.bytes() + rest;
    let none = Seq::<u8>::empty();
    lemma_field(none, l.base_idx as u64, b + c + d + e + rest);
    lemma_field(a, l.check_idx as u64, c + d + e + rest);
    lemma_field(a + b, l.data_idx as u64, d + e + rest);
    lemma_field(a + b + c, l.base_len as u64, e + rest);
    lemma_field(a + b + c + d, l.check_len as u64, rest);
    assert(all =~= none + a + (b + c + d + e + rest));
    assert(all =~= a + b + (c + d + e + rest));
    assert(all =~= a + b + c + (d + e + rest));
    assert(all =~= a + b + c + d + (e + rest));
    assert(all =~= a + b + c + d + e + rest);
}

/// Bytes that are those of `words` from `start` on read as `words`.
proof fn lemma_region(blob: Seq<u8>, start: int, words: Seq<u32>)
    requires
        0 <= start,
        start + 4 * words.len() <= blob.len(),
        forall|k: int| 0 <= k < 4 * words.len() ==> #[trigger] blob[start + k] == words_le(words)[k],
    ensures
        words_at(blob, start, words.len() as int) == words,
{
    let got = words_at(blob, start, words.len() as int);
    assert forall|i: int| 0 <= i < words.len() implies got[i] == words[i] by {
        lemma_words_round_trip(words, i);
        assert(blob[start + 4 * i] == words_le(words)[4 * i]);
        assert(blob[start + (4 * i + 1)] == words_le(words)[4 * i + 1]);
        assert(blob[start + (4 * i + 2)] == words_le(words)[4 * i + 2]);
        assert(blob[start + (4 * i + 3)] == words_le(words)[4 * i + 3]);
        lemma_u32_at_same(blob, start + 4 * i, words_le(words), 4 * i);
    }
    assert(got =~= words);
}

/// A blob made from arrays is well-formed and holds those arrays.
pub proof fn lemma_blob_round_trip(arr: Arrays)
    requires
        HEADER_SIZE + 4 * arr.base.len() + 4 * arr.check.len() + arr.data.len() <= u64::MAX,
    ensures
        well_formed(blob_of(arr)),
        layout_of(blob_of(arr)) == packed_layout(arr),
        arrays_of(blob_of(arr)) == arr,
{
    let l = packed_layout(arr);
    let blob = blob_of(arr);
    let rest = words_le(arr.base) + words_le(arr.check) + arr.data;
    assert(blob =~= l.bytes() + rest);
    lemma_header_round_trip(l, rest);
    assert(blob.len() == 40 + 4 * arr.base.len() + 4 * arr.check.len() + arr.data.len());
    assert forall|k: int| 0 <= k < 4 * arr.base.len() implies #[trigger] blob[l.base_idx + k] == words_le(
        arr.base,
    )[k] by {}
    lemma_region(blob, l.base_idx, arr.base);
    assert forall|k: int| 0 <= k < 4 * arr.check.len() implies #[trigger] blob[l.check_idx + k]
        == words_le(arr.check)[k] by {}
    lemma_region(blob, l.check_idx, arr.check);
    assert(blob.skip(l.data_idx) =~= arr.data);
}

/// The header of a blob, as read from it.
#[derive(Debug)]
pub struct DoubleArrayHeader {
    pub base_idx: usize,
    pub check_idx: usize,
    pub data_idx: usize,
    pub base_len: usize,
    pub check_len: usize,
}

impl DoubleArrayHeader {
    /// The header as a layout.
    pub open spec fn layout(&self) -> Layout {
        Layout {
            base_idx: self.base_idx as int,
            check_idx: self.check_idx as int,
            data_idx: self.data_idx as int,
            base_len: self.base_len as int,
            check_len: self.check_len as int,
        }
    }
}

/// Reads and checks the header of a blob: it is refused where the blob is
/// shorter than a header or a region does not lie within the blob, with the
/// first flaw found.
pub fn parse_header(blob: &[u8]) -> (r: Result<DoubleArrayHeader, Error>)
    ensures
        match r {
            Ok(h) => well_formed(blob@) && h.layout() == layout_of(blob@),
            Err(e) => {
                &&& !well_formed(blob@)
                &&& e matches Error::MalformedBlob(flaw) && flaw_of(blob@) == Some(flaw)
            },
        },
{
    let n: usize = blob.len();
    if n < HEADER_SIZE {
        return Err(Error::MalformedBlob(Flaw::TooShort));
    }
    let base_idx: u64 = read_u64(blob, 0);
    let check_idx: u64 = read_u64(blob, 8);
    let data_idx: u64 = read_u64(blob, 16);
    let base_len: u64 = read_u64(blob, 24);
    let check_len: u64 = read_u64(blob, 32);
    let len: u64 = n as u64;
    if base_idx > len {
        return Err(Error::MalformedBlob(Flaw::BaseIdx));
    }
    if check_idx > len {
        return Err(Error::MalformedBlob(Flaw::CheckIdx));
    }
    if data_idx > len {
        return Err(Error::MalformedBlob(Flaw::DataIdx));
    }
    if base_len > (len - base_idx) / 4 {
        return Err(Error::MalformedBlob(Flaw::BaseLen));
    }
    if check_len > (len - check_idx) / 4 {
        return Err(Error::MalformedBlob(Flaw::CheckLen));
    }
    Ok(
        DoubleArrayHeader {
            base_idx: base_idx as usize,
            check_idx: check_idx as usize,
            data_idx: data_idx as usize,
            base_len: base_len as usize,
            check_len: check_len as usize,
        },
    )
}

/// Makes the blob that holds the given arrays. Fails where its length does
/// not fit the machine's addresses.
pub fn pack(base: &[u32], check: &[u32], data: &[u8]) -> (r: Result<Vec<u8>, Error>)
    ensures
        match r {
            Ok(blob) => {
                &&& blob@ == blob_of(Arrays { base: base@, check: check@, data: data@ })
                &&& HEADER_SIZE + 4 * base@.len() + 4 * check@.len() + data@.len() <= usize::MAX
            },
            Err(e) => e is IndexOverflow && HEADER_SIZE + 4 * base@.len() + 4 * check@.len() + data@.len()
                > usize::MAX,
        },
{
    let room: usize = usize::MAX - HEADER_SIZE;
    if base.len() > room / 4 {
        return Err(Error::IndexOverflow);
    }
    let room: usize = room - 4 * base.len();
    if check.len() > room / 4 {
        return Err(Error::IndexOverflow);
    }
    let room: usize = room - 4 * check.len();
    if data.len() > room {
        return Err(Error::IndexOverflow);
    }
    let check_idx: usize = HEADER_SIZE + 4 * base.len();
    let data_idx: usize = check_idx + 4 * check.len();
    let mut blob: Vec<u8> = Vec::new();
    push_u64(&mut blob, HEADER_SIZE as u64);
    push_u64(&mut blob, check_idx as u64);
    push_u64(&mut blob, data_idx as u64);
    push_u64(&mut blob, base.len() as u64);
    push_u64(&mut blob, check.len() as u64);
    let ghost header = blob@;
    let base_bytes: Vec<u8> = to_bytes(base);
    let check_bytes: Vec<u8> = to_bytes(check);
    blob.extend_from_slice(base_bytes.as_slice());
    let ghost with_base = blob@;
    blob.extend_from_slice(check_bytes.as_slice());
    let ghost front = blob@;
    blob.extend_from_slice(data);
    proof {
        let arr = Arrays { base: base@, check: check@, data: data@ };
        assert(header =~= packed_layout(arr).bytes());
        assert(with_base =~= header + words_le(base@));
        assert(front =~= with_base + words_le(check@));
        assert(blob@ =~= front + data@);
        assert(blob@ =~= blob_of(arr));
    }
    Ok(blob)
}

} // verus!
