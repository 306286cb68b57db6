//! The compiled dictionary: a read-only blob that answers exact and
//! common-prefix lookups by walking `BASE` and `CHECK`.

use core::marker::PhantomData;
use vstd::prelude::*;
use vstd::slice::slice_subrange;
use vstd::string::StringSliceAdditionalSpecFns;
use vstd::utf8::is_char_boundary;
use crate::error::{Error, Flaw};
use crate::layout::{
    arrays_of, blob_of, flaw_of, layout_of, lemma_blob_round_trip, pack, parse_header, well_formed,
    DoubleArrayHeader,
};
use crate::codec::{decode_block, decodes_to, fails_to_decode};
use crate::mapping::{bytes_of, fill, make_read_only, map_anon, mapped};
use crate::model::{Arrays, ROOT, VALUE_BYTE};
use crate::utils::read_u32;

verus! {

/// A dictionary compiled into a double array and held in a memory mapping.
#[derive(Debug)]
pub struct DoubleArray<T> {
    mmap: memmap::Mmap,
    header: DoubleArrayHeader,
    phantom: PhantomData<T>,
}

impl<T> DoubleArray<T> {
    /// The bytes of the blob.
    pub closed spec fn blob(&self) -> Seq<u8> {
        mapped(self.mmap)
    }

    /// The blob is well-formed and the header kept beside it is its own.
    pub closed spec fn wf(&self) -> bool {
        well_formed(self.blob()) && self.header.layout() == layout_of(self.blob())
    }

    /// The arrays that the blob holds.
    pub open spec fn view(&self) -> Arrays {
        arrays_of(self.blob())
    }

    /// The blob of a dictionary is well-formed: its header fits it, and no
    /// region runs beyond it.
    pub proof fn lemma_well_formed(&self)
        requires
            self.wf(),
        ensures
            well_formed(self.blob()),
            flaw_of(self.blob()) is None,
    {
    }

    /// Takes a mapping that holds a blob, as one of a dictionary file does.
    /// The blob is refused where its header does not fit it.
    pub fn from_mmap(mmap: memmap::Mmap) -> (r: Result<Self, Error>)
        ensures
            match r {
                Ok(da) => da.wf() && da.blob() == mapped(mmap) && well_formed(mapped(mmap)),
                Err(e) => {
                    &&& !well_formed(mapped(mmap))
                    &&& e matches Error::MalformedBlob(flaw) && flaw_of(mapped(mmap)) == Some(flaw)
                },
            },
    {
        let parsed = parse_header(bytes_of(&mmap));
        match parsed {
            Ok(header) => Ok(DoubleArray { mmap, header, phantom: PhantomData }),
            Err(e) => Err(e),
        }
    }

    /// Copies a blob into a fresh anonymous mapping. The blob is refused
    /// where its header does not fit it; beyond that only the mapping can fail.
    pub fn from_slice(bytes: &[u8]) -> (r: Result<Self, Error>)
        ensures
            match r {
                Ok(da) => da.wf() && da.blob() == bytes@ && well_formed(bytes@),
                Err(e) => if well_formed(bytes@) {
                    e is IoFailure
                } else {
                    e matches Error::MalformedBlob(flaw) && flaw_of(bytes@) == Some(flaw)
                },
            },
    {
        let header = match parse_header(bytes) {
            Ok(h) => h,
            Err(e) => {
                return Err(e);
            },
        };
        let mut writable = match map_anon(bytes.len()) {
            Ok(m) => m,
            Err(e) => {
                return Err(Error::IoFailure(e));
            },
        };
        fill(&mut writable, bytes);
        match make_read_only(writable) {
            Ok(mmap) => Ok(DoubleArray { mmap, header, phantom: PhantomData }),
            Err(e) => Err(Error::IoFailure(e)),
        }
    }

    /// Packs the arrays into a blob, header first, and holds it in a fresh
    /// anonymous mapping. Only the mapping can fail, or a blob too long for
    /// the machine's addresses.
    pub fn from_arrays(base_arr: &[u32], check_arr: &[u32], data_bytes: &[u8]) -> (r: Result<Self, Error>)
        ensures
            match r {
                Ok(da) => {
                    &&& da.wf()
                    &&& well_formed(da.blob())
                    &&& da.blob() == blob_of(Arrays { base: base_arr@, check: check_arr@, data: data_bytes@ })
                    &&& da@ == (Arrays { base: base_arr@, check: check_arr@, data: data_bytes@ })
                },
                Err(e) => if 40 + 4 * base_arr@.len() + 4 * check_arr@.len() + data_bytes@.len()
                    <= usize::MAX {
                    e is IoFailure
                } else {
                    e is IndexOverflow
                },
            },
    {
        let blob = match pack(base_arr, check_arr, data_bytes) {
            Ok(b) => b,
            Err(e) => {
                return Err(e);
            },
        };
        proof {
            lemma_blob_round_trip(Arrays { base: base_arr@, check: check_arr@, data: data_bytes@ });
        }
        match Self::from_slice(blob.as_slice()) {
            Ok(da) => Ok(da),
            Err(e) => Err(e),
        }
    }

    /// The bytes of the blob, as they are written to a dictionary file.
    pub fn as_bytes(&self) -> (r: &[u8])
        ensures
            r@ == self.blob(),
    {
        bytes_of(&self.mmap)
    }

    /// Entry `i` of `BASE`.
    fn base_at(&self, bytes: &[u8], i: usize) -> (r: u32)
        requires
            self.wf(),
            bytes@ == self.blob(),
            i < self@.base.len(),
        ensures
            r == self@.base[i as int],
    {
        let n: usize = bytes.len();
        read_u32(bytes, self.header.base_idx + 4 * i)
    }

    /// Entry `i` of `CHECK`.
    fn check_at(&self, bytes: &[u8], i: usize) -> (r: u32)
        requires
            self.wf(),
            bytes@ == self.blob(),
            i < self@.check.len(),
        ensures
            r == self@.check[i as int],
    {
        let n: usize = bytes.len();
        read_u32(bytes, self.header.check_idx + 4 * i)
    }

    /// The arrays that the blob holds: `BASE`, `CHECK` and `DATA`.
    pub fn get_arrays(&self) -> (r: (Vec<u32>, Vec<u32>, &[u8]))
        requires
            self.wf(),
        ensures
            r.0@ == self@.base,
            r.1@ == self@.check,
            r.2@ == self@.data,
    {
        let bytes: &[u8] = bytes_of(&self.mmap);
        let mut base: Vec<u32> = Vec::new();
        let mut i: usize = 0;
        while i < self.header.base_len
            invariant
                self.wf(),
                bytes@ == self.blob(),
                i <= self.header.base_len,
                base@ == self@.base.take(i as int),
            decreases self.header.base_len - i,
        {
            let x: u32 = self.base_at(bytes, i);
            base.push(x);
            proof {
                assert(base@ =~= self@.base.take(i + 1));
            }
            i = i + 1;
        }
        let mut check: Vec<u32> = Vec::new();
        let mut j: usize = 0;
        while j < self.header.check_len
            invariant
                self.wf(),
                bytes@ == self.blob(),
                j <= self.header.check_len,
                check@ == self@.check.take(j as int),
            decreases self.header.check_len - j,
        {
            let x: u32 = self.check_at(bytes, j);
            check.push(x);
            proof {
                assert(check@ =~= self@.check.take(j + 1));
            }
            j = j + 1;
        }
        proof {
            assert(self@.base.take(i as int) =~= self@.base);
            assert(self@.check.take(j as int) =~= self@.check);
        }
        let data: &[u8] = slice_subrange(bytes, self.header.data_idx, bytes.len());
        proof {
            assert(data@ =~= self@.data);
        }
        (base, check, data)
    }
}


/// What a lookup hands back once the block at offset `off` has gone
/// through the codec: the values, or the failure to decode them.
pub fn decoded<T>(off: usize, outcome: Result<Vec<T>, Box<bincode::ErrorKind>>) -> (r: Result<Vec<T>, Error>)
    ensures
        match outcome {
            Ok(values) => r == Ok::<Vec<T>, Error>(values),
            Err(_) => r matches Err(Error::DecodeFailure(at)) && at == off,
        },
{
    match outcome {
        Ok(values) => Ok(values),
        Err(_) => Err(Error::DecodeFailure(off)),
    }
}

impl<T> DoubleArray<T> {
    /// The transition from node `idx` over byte `b`, with both arrays'
    /// bounds checked.
    fn step(&self, bytes: &[u8], idx: usize, b: u8) -> (r: Option<usize>)
        requires
            self.wf(),
            bytes@ == self.blob(),
        ensures
            match r {
                Some(next) => self@.step(idx as int, b) == Some(next as int),
                None => self@.step(idx as int, b) is None,
            },
    {
        if idx >= self.header.base_len {
            return None;
        }
        let base: u64 = self.base_at(bytes, idx) as u64;
        let next: u64 = base + b as u64;
        if next >= self.header.check_len as u64 {
            return None;
        }
        let next: usize = next as usize;
        let parent: u32 = self.check_at(bytes, next);
        if parent as u64 == idx as u64 {
            Some(next)
        } else {
            None
        }
    }

    /// The offset in `DATA` of the values of node `idx`, if it has a value slot.
    fn value_offset(&self, bytes: &[u8], idx: usize) -> (r: Option<usize>)
        requires
            self.wf(),
            bytes@ == self.blob(),
        ensures
            match r {
                Some(off) => self@.value_offset(idx as int) == Some(off as int),
                None => self@.value_offset(idx as int) is None,
            },
    {
        match self.step(bytes, idx, VALUE_BYTE) {
            Some(slot) => {
                if slot < self.header.base_len {
                    Some(self.base_at(bytes, slot) as usize)
                } else {
                    None
                }
            },
            None => None,
        }
    }

    /// The offset in `DATA` of the values of `key`, if the key has values.
    pub fn find(&self, key: &str) -> (r: Option<usize>)
        requires
            self.wf(),
        ensures
            match r {
                Some(off) => self@.find(key.spec_bytes()) == Some(off as int),
                None => self@.find(key.spec_bytes()) is None,
            },
    {
        let bytes: &[u8] = bytes_of(&self.mmap);
        let k: &[u8] = key.as_bytes();
        let mut idx: usize = ROOT;
        let mut pos: usize = 0;
        while pos < k.len()
            invariant
                self.wf(),
                bytes@ == self.blob(),
                k@ == key.spec_bytes(),
                pos <= k@.len(),
                self@.walk(k@.take(pos as int)) == Some(idx as int),
            decreases k@.len() - pos,
        {
            proof {
                self@.lemma_walk_next(k@, pos as int);
            }
            match self.step(bytes, idx, k[pos]) {
                Some(next) => {
                    idx = next;
                },
                None => {
                    proof {
                        assert(self@.walk(k@.take(pos + 1)) is None);
                        self@.lemma_walk_prefix(k@, pos + 1);
                        assert(self@.find(k@) is None);
                    }
                    return None;
                },
            }
            pos = pos + 1;
        }
        proof {
            assert(k@.take(pos as int) =~= k@);
        }
        self.value_offset(bytes, idx)
    }

    /// The bytes of `DATA` from `off` on; none where `off` lies beyond it.
    pub fn block(&self, off: usize) -> (r: &[u8])
        requires
            self.wf(),
        ensures
            r@ == self@.block_from(off as int),
    {
        let bytes: &[u8] = bytes_of(&self.mmap);
        let n: usize = bytes.len();
        let r: &[u8] = if off <= n - self.header.data_idx {
            slice_subrange(bytes, self.header.data_idx + off, n)
        } else {
            slice_subrange(bytes, n, n)
        };
        proof {
            assert(r@ =~= self@.block_from(off as int));
        }
        r
    }

    /// The prefixes of `key` that have values, shortest first: each as its
    /// length in bytes and the offset of its values in `DATA`.
    pub fn prefix_matches(&self, key: &str) -> (r: Vec<(usize, usize)>)
        requires
            self.wf(),
        ensures
            r@.len() == self@.matches(key.spec_bytes(), key.spec_bytes().len()).len(),
            forall|i: int|
                0 <= i < r@.len() ==> {
                    &&& (#[trigger] r@[i]).0 == self@.matches(key.spec_bytes(), key.spec_bytes().len())[i].0
                    &&& r@[i].1 == self@.matches(key.spec_bytes(), key.spec_bytes().len())[i].1
                },
    {
        let bytes: &[u8] = bytes_of(&self.mmap);
        let k: &[u8] = key.as_bytes();
        let mut found: Vec<(usize, usize)> = Vec::new();
        let mut idx: usize = ROOT;
        let mut pos: usize = 0;
        proof {
            self@.lemma_matches_step(k@, 0);
        }
        while pos < k.len()
            invariant
                self.wf(),
                bytes@ == self.blob(),
                k@ == key.spec_bytes(),
                pos <= k@.len(),
                self@.walk(k@.take(pos as int)) == Some(idx as int),
                found@.len() == self@.matches(k@, pos as nat).len(),
                forall|i: int|
                    0 <= i < found@.len() ==> {
                        &&& (#[trigger] found@[i]).0 == self@.matches(k@, pos as nat)[i].0
                        &&& found@[i].1 == self@.matches(k@, pos as nat)[i].1
                    },
            decreases k@.len() - pos,
        {
            proof {
                self@.lemma_walk_next(k@, pos as int);
                self@.lemma_matches_step(k@, (pos + 1) as nat);
            }
            match self.step(bytes, idx, k[pos]) {
                Some(next) => {
                    idx = next;
                },
                None => {
                    proof {
                        assert(self@.walk(k@.take(pos + 1)) is None);
                        assert(self@.find(k@.take(pos + 1)) is None);
                        assert(self@.matches(k@, (pos + 1) as nat) == self@.matches(k@, pos as nat));
                        self@.lemma_matches_stop(k@, (pos + 1) as nat, k@.len());
                    }
                    return found;
                },
            }
            pos = pos + 1;
            match self.value_offset(bytes, idx) {
                Some(off) => {
                    found.push((pos, off));
                },
                None => {},
            }
        }
        found
    }
}


/// The first `n` bytes of `key` as a string, where they end between two
/// characters.
pub fn prefix_of<'a>(key: &'a str, n: usize) -> (r: Option<&'a str>)
    ensures
        match r {
            Some(p) => is_char_boundary(key.spec_bytes(), n as int) && p.spec_bytes()
                == key.spec_bytes().take(n as int),
            None => !is_char_boundary(key.spec_bytes(), n as int),
        },
{
    if key.is_char_boundary(n) {
        let parts: (&'a str, &'a str) = key.split_at(n);
        Some(parts.0)
    } else {
        None
    }
}

/// Whether `e` is the failure of the match `hit` of a prefix search over
/// `key`: the prefix ends in the middle of a character, or else its block
/// did not decode.
pub open spec fn fails_on(e: Error, key: Seq<u8>, hit: (nat, int)) -> bool {
    match e {
        Error::MalformedBlob(flaw) => flaw == Flaw::SplitCharacter && !is_char_boundary(key, hit.0 as int),
        Error::DecodeFailure(at) => at == hit.1 && is_char_boundary(key, hit.0 as int),
        _ => false,
    }
}

/// One match of a prefix search, once its block at offset `off` has gone
/// through the codec: the prefix with its values, or the failure to decode
/// them; a blob that marks values in the middle of a character is refused
/// as malformed.
pub fn matched<'a, T>(
    key: &'a str,
    len: usize,
    off: usize,
    outcome: Result<Vec<T>, Box<bincode::ErrorKind>>,
) -> (r: Result<(&'a str, Vec<T>), Error>)
    ensures
        match r {
            Ok(pair) => {
                &&& is_char_boundary(key.spec_bytes(), len as int)
                &&& pair.0.spec_bytes() == key.spec_bytes().take(len as int)
                &&& outcome == Ok::<Vec<T>, Box<bincode::ErrorKind>>(pair.1)
            },
            Err(e) => {
                &&& fails_on(e, key.spec_bytes(), (len as nat, off as int))
                &&& is_char_boundary(key.spec_bytes(), len as int) ==> outcome is Err
            },
        },
{
    match prefix_of(key, len) {
        Some(prefix) => match outcome {
            Ok(values) => Ok((prefix, values)),
            Err(_) => Err(Error::DecodeFailure(off)),
        },
        None => Err(Error::MalformedBlob(Flaw::SplitCharacter)),
    }
}

/// Whether `outcome` is what a prefix search over `key` in `arr` hands out
/// for the match `hit`: the prefix with an answer of the codec to the bytes
/// of `DATA` from the offset of the match on; or the refusal of a prefix
/// that ends in the middle of a character; or else the failure of the codec
/// on those bytes.
pub open spec fn answers<'a, T: serde::de::DeserializeOwned>(
    arr: Arrays,
    key: Seq<u8>,
    hit: (nat, int),
    outcome: Result<(&'a str, Vec<T>), Error>,
) -> bool {
    match outcome {
        Ok(pair) => {
            &&& is_char_boundary(key, hit.0 as int)
            &&& pair.0.spec_bytes() == key.take(hit.0 as int)
            &&& decodes_to::<T>(arr.block_from(hit.1), pair.1)
        },
        Err(e) => {
            &&& fails_on(e, key, hit)
            &&& e is DecodeFailure ==> fails_to_decode::<T>(arr.block_from(hit.1))
        },
    }
}

/// Whether a prefix search over `key` in `arr` gets past the match `hit`:
/// the prefix ends between two characters, and the codec has an answer to
/// the bytes of `DATA` from the offset of the match on.
pub open spec fn answered<T: serde::de::DeserializeOwned>(arr: Arrays, key: Seq<u8>, hit: (nat, int)) -> bool {
    &&& is_char_boundary(key, hit.0 as int)
    &&& exists|values: Vec<T>| #[trigger] decodes_to::<T>(arr.block_from(hit.1), values)
}

impl<T: serde::de::DeserializeOwned> DoubleArray<T> {
    /// What a prefix search hands out for the match of the first `len` bytes
    /// of `key`, whose values lie at `off`.
    fn answer<'a>(&self, key: &'a str, len: usize, off: usize) -> (r: Result<(&'a str, Vec<T>), Error>)
        requires
            self.wf(),
        ensures
            answers::<T>(self@, key.spec_bytes(), (len as nat, off as int), r),
    {
        matched(key, len, off, decode_block::<T>(self.block(off)))
    }

    /// The values of `key`, decoded from its block: `None` where the key has
    /// no values; where it has, the values or the failure to decode them.
    pub fn get(&self, key: &str) -> (r: Result<Option<Vec<T>>, Error>)
        requires
            self.wf(),
        ensures
            match r {
                Ok(Some(values)) => {
                    &&& self@.find(key.spec_bytes()) is Some
                    &&& decodes_to::<T>(self@.block_from(self@.find(key.spec_bytes())->Some_0), values)
                },
                Ok(None) => self@.find(key.spec_bytes()) is None,
                Err(e) => {
                    &&& e matches Error::DecodeFailure(off) && self@.find(key.spec_bytes()) == Some(off as int)
                    &&& self@.find(key.spec_bytes()) is Some
                    &&& fails_to_decode::<T>(self@.block_from(self@.find(key.spec_bytes())->Some_0))
                },
            },
    {
        match self.find(key) {
            Some(off) => {
                match decoded(off, decode_block::<T>(self.block(off))) {
                    Ok(values) => Ok(Some(values)),
                    Err(e) => Err(e),
                }
            },
            None => Ok(None),
        }
    }

    /// The prefixes of `key` that have values, shortest first, each with its
    /// values decoded. Fails on the first match whose prefix ends in the
    /// middle of a character or whose block does not decode.
    pub fn prefix_search<'a>(&self, key: &'a str) -> (r: Result<Vec<(&'a str, Vec<T>)>, Error>)
        requires
            self.wf(),
        ensures
            match r {
                Ok(found) => {
                    &&& found@.len() == self@.matches(key.spec_bytes(), key.spec_bytes().len()).len()
                    &&& forall|i: int|
                        0 <= i < found@.len() ==> answers::<T>(
                            self@,
                            key.spec_bytes(),
                            self@.matches(key.spec_bytes(), key.spec_bytes().len())[i],
                            Ok::<(&str, Vec<T>), Error>(#[trigger] found@[i]),
                        )
                },
                Err(e) => exists|i: int|
                    {
                        &&& 0 <= i < self@.matches(key.spec_bytes(), key.spec_bytes().len()).len()
                        &&& answers::<T>(
                            self@,
                            key.spec_bytes(),
                            #[trigger] self@.matches(key.spec_bytes(), key.spec_bytes().len())[i],
                            Err::<(&str, Vec<T>), Error>(e),
                        )
                        &&& forall|j: int|
                            0 <= j < i ==> answered::<T>(
                                self@,
                                key.spec_bytes(),
                                #[trigger] self@.matches(key.spec_bytes(), key.spec_bytes().len())[j],
                            )
                    },
            },
    {
        let hits: Vec<(usize, usize)> = self.prefix_matches(key);
        let mut found: Vec<(&'a str, Vec<T>)> = Vec::new();
        let mut i: usize = 0;
        while i < hits.len()
            invariant
                self.wf(),
                i <= hits@.len(),
                hits@.len() == self@.matches(key.spec_bytes(), key.spec_bytes().len()).len(),
                forall|j: int|
                    0 <= j < hits@.len() ==> {
                        &&& (#[trigger] hits@[j]).0 == self@.matches(key.spec_bytes(), key.spec_bytes().len())[j].0
                        &&& hits@[j].1 == self@.matches(key.spec_bytes(), key.spec_bytes().len())[j].1
                    },
                found@.len() == i,
                forall|j: int|
                    0 <= j < i ==> answers::<T>(
                        self@,
                        key.spec_bytes(),
                        self@.matches(key.spec_bytes(), key.spec_bytes().len())[j],
                        Ok::<(&str, Vec<T>), Error>(#[trigger] found@[j]),
                    ),
            decreases hits@.len() - i,
        {
            let len: usize = hits[i].0;
            let off: usize = hits[i].1;
            let ghost all = self@.matches(key.spec_bytes(), key.spec_bytes().len());
            proof {
                assert(all[i as int] == (len as nat, off as int));
            }
            match self.answer(key, len, off) {
                Ok(pair) => {
                    found.push(pair);
                },
                Err(e) => {
                    proof {
                        assert(answers::<T>(self@, key.spec_bytes(), all[i as int], Err::<(&str, Vec<T>), Error>(e)));
                        assert forall|j: int| 0 <= j < i implies answered::<T>(
                            self@,
                            key.spec_bytes(),
                            #[trigger] all[j],
                        ) by {
                            assert(decodes_to::<T>(self@.block_from(all[j].1), found@[j].1));
                        }
                    }
                    return Err(e);
                },
            }
            i = i + 1;
        }
        Ok(found)
    }
}

/// A prefix search that hands out one match at a time, shortest prefix first.
pub struct PrefixSearchIter<'a, T> {
    da: &'a DoubleArray<T>,
    key: &'a str,
    key_ptr: usize,
    arr_ptr: usize,
    live: bool,
}

impl<'a, T> PrefixSearchIter<'a, T> {
    /// The key that is searched.
    pub closed spec fn key(&self) -> Seq<u8> {
        self.key.spec_bytes()
    }

    /// The arrays that are searched.
    pub closed spec fn arrays(&self) -> Arrays {
        self.da@
    }

    /// All the matches of the search.
    pub open spec fn all(&self) -> Seq<(nat, int)> {
        self.arrays().matches(self.key(), self.key().len())
    }

    /// How many matches have been handed out.
    pub closed spec fn emitted(&self) -> nat {
        self.da@.matches(self.key.spec_bytes(), self.key_ptr as nat).len()
    }

    /// The search stands at a node that the bytes read so far lead to, or has
    /// run out of key.
    pub closed spec fn wf(&self) -> bool {
        &&& self.da.wf()
        &&& self.key_ptr <= self.key.spec_bytes().len()
        &&& self.live ==> self.da@.walk(self.key.spec_bytes().take(self.key_ptr as int)) == Some(
            self.arr_ptr as int,
        )
        &&& !self.live ==> self.key_ptr == self.key.spec_bytes().len()
    }

    /// The next prefix that has values, as its length in bytes and the
    /// offset of its values in `DATA`; `None` once there is no further one.
    pub fn advance(&mut self) -> (r: Option<(usize, usize)>)
        requires
            old(self).wf(),
        ensures
            final(self).wf(),
            final(self).key() == old(self).key(),
            final(self).arrays() == old(self).arrays(),
            old(self).emitted() <= old(self).all().len(),
            match r {
                Some(hit) => {
                    &&& old(self).emitted() < old(self).all().len()
                    &&& hit.0 == old(self).all()[old(self).emitted() as int].0
                    &&& hit.1 == old(self).all()[old(self).emitted() as int].1
                    &&& final(self).emitted() == old(self).emitted() + 1
                },
                None => {
                    &&& old(self).emitted() == old(self).all().len()
                    &&& final(self).emitted() == old(self).emitted()
                },
            },
    {
        let ghost arr = self.da@;
        let ghost k = self.key.spec_bytes();
        let ghost from = self.key_ptr as nat;
        proof {
            arr.lemma_matches_extend(k, from, k.len());
        }
        if !self.live {
            return None;
        }
        let (pos, idx, hit) = self.da.scan(self.key, self.key_ptr, self.arr_ptr);
        self.key_ptr = pos;
        self.arr_ptr = idx;
        match hit {
            Some(off) => {
                proof {
                    arr.lemma_matches_extend(k, pos as nat, k.len());
                    arr.lemma_matches_step(k, pos as nat);
                    assert(arr.matches(k, pos as nat) == arr.matches(k, (pos - 1) as nat).push(
                        (pos as nat, off as int),
                    ));
                }
                Some((pos, off))
            },
            None => {
                self.live = false;
                None
            },
        }
    }
}

impl<T> DoubleArray<T> {
    /// Walks on from node `idx`, reached by the first `pos` bytes of `key`,
    /// to the next prefix that has values: where it ends, the node reached
    /// and the offset of the values. Without such a prefix the whole key
    /// counts as read.
    fn scan(&self, key: &str, start: usize, node: usize) -> (r: (usize, usize, Option<usize>))
        requires
            self.wf(),
            start <= key.spec_bytes().len(),
            self@.walk(key.spec_bytes().take(start as int)) == Some(node as int),
        ensures
            start <= r.0 <= key.spec_bytes().len(),
            match r.2 {
                Some(off) => {
                    &&& start < r.0
                    &&& self@.walk(key.spec_bytes().take(r.0 as int)) == Some(r.1 as int)
                    &&& self@.find(key.spec_bytes().take(r.0 as int)) == Some(off as int)
                    &&& self@.matches(key.spec_bytes(), (r.0 - 1) as nat).len() == self@.matches(
                        key.spec_bytes(),
                        start as nat,
                    ).len()
                },
                None => {
                    &&& r.0 == key.spec_bytes().len()
                    &&& self@.matches(key.spec_bytes(), r.0 as nat).len() == self@.matches(
                        key.spec_bytes(),
                        start as nat,
                    ).len()
                },
            },
    {
        let bytes: &[u8] = bytes_of(&self.mmap);
        let k: &[u8] = key.as_bytes();
        let ghost arr = self@;
        let ghost count = arr.matches(k@, start as nat).len();
        let mut pos: usize = start;
        let mut idx: usize = node;
        while pos < k.len()
            invariant
                self.wf(),
                arr == self@,
                bytes@ == self.blob(),
                k@ == key.spec_bytes(),
                start <= pos <= k@.len(),
                arr.walk(k@.take(pos as int)) == Some(idx as int),
                count == arr.matches(k@, start as nat).len(),
                arr.matches(k@, pos as nat).len() == count,
            decreases k@.len() - pos,
        {
            proof {
                arr.lemma_walk_next(k@, pos as int);
                arr.lemma_matches_step(k@, (pos + 1) as nat);
            }
            let stepped: Option<usize> = self.step(bytes, idx, k[pos]);
            if stepped.is_none() {
                proof {
                    assert(arr.find(k@.take(pos + 1)) is None);
                    assert(arr.matches(k@, (pos + 1) as nat) == arr.matches(k@, pos as nat));
                    arr.lemma_matches_stop(k@, (pos + 1) as nat, k@.len());
                }
                return (k.len(), idx, None);
            }
            idx = stepped.unwrap();
            pos = pos + 1;
            let value: Option<usize> = self.value_offset(bytes, idx);
            if value.is_some() {
                proof {
                    assert(arr.find(k@.take(pos as int)) == Some(value->Some_0 as int));
                }
                return (pos, idx, value);
            }
            proof {
                assert(arr.find(k@.take(pos as int)) is None);
                assert(arr.matches(k@, pos as nat) == arr.matches(k@, (pos - 1) as nat));
            }
        }
        (pos, idx, None)
    }
}

impl<'a, T> PrefixSearchIter<'a, T> {
    /// No more matches are handed out than there are.
    pub proof fn lemma_emitted_bound(&self)
        requires
            self.wf(),
        ensures
            self.emitted() <= self.all().len(),
    {
        self.da@.lemma_matches_extend(self.key.spec_bytes(), self.key_ptr as nat, self.key.spec_bytes().len());
    }

    /// All the matches that are left, in order: after this the search is
    /// exhausted. On a fresh search these are the matches of `prefix_matches`.
    pub fn rest(&mut self) -> (r: Vec<(usize, usize)>)
        requires
            old(self).wf(),
        ensures
            final(self).wf(),
            final(self).key() == old(self).key(),
            final(self).arrays() == old(self).arrays(),
            final(self).emitted() == old(self).all().len(),
            r@.len() == old(self).all().len() - old(self).emitted(),
            forall|i: int|
                0 <= i < r@.len() ==> {
                    &&& (#[trigger] r@[i]).0 == old(self).all()[old(self).emitted() + i].0
                    &&& r@[i].1 == old(self).all()[old(self).emitted() + i].1
                },
    {
        let mut found: Vec<(usize, usize)> = Vec::new();
        let ghost all = self.all();
        let ghost first = self.emitted();
        proof {
            self.lemma_emitted_bound();
        }
        loop
            invariant
                self.wf(),
                self.key() == old(self).key(),
                self.arrays() == old(self).arrays(),
                all == old(self).all(),
                first == old(self).emitted(),
                self.emitted() == first + found@.len(),
                self.emitted() <= all.len(),
                forall|i: int|
                    0 <= i < found@.len() ==> {
                        &&& (#[trigger] found@[i]).0 == all[first + i].0
                        &&& found@[i].1 == all[first + i].1
                    },
            decreases all.len() - self.emitted(),
        {
            match self.advance() {
                Some(hit) => {
                    found.push(hit);
                },
                None => {
                    return found;
                },
            }
        }
    }
}

impl<'a, T: serde::de::DeserializeOwned> PrefixSearchIter<'a, T> {
    /// The next prefix that has values, with its values decoded; `None` once
    /// there is no further one.
    pub fn next(&mut self) -> (r: Option<Result<(&'a str, Vec<T>), Error>>)
        requires
            old(self).wf(),
        ensures
            final(self).wf(),
            final(self).key() == old(self).key(),
            final(self).arrays() == old(self).arrays(),
            match r {
                Some(outcome) => {
                    &&& old(self).emitted() < old(self).all().len()
                    &&& final(self).emitted() == old(self).emitted() + 1
                    &&& answers::<T>(
                        old(self).arrays(),
                        old(self).key(),
                        old(self).all()[old(self).emitted() as int],
                        outcome,
                    )
                },
                None => {
                    &&& old(self).emitted() == old(self).all().len()
                    &&& final(self).emitted() == old(self).emitted()
                },
            },
    {
        match self.advance() {
            Some(hit) => {
                let key: &'a str = self.key;
                let da: &'a DoubleArray<T> = self.da;
                Some(da.answer(key, hit.0, hit.1))
            },
            None => None,
        }
    }
}

impl<T> DoubleArray<T> {
    /// A prefix search over `key` that has handed out nothing yet.
    pub fn prefix_search_iter<'a>(&'a self, key: &'a str) -> (r: PrefixSearchIter<'a, T>)
        requires
            self.wf(),
        ensures
            r.wf(),
            r.key() == key.spec_bytes(),
            r.arrays() == self@,
            r.emitted() == 0,
    {
        let r = PrefixSearchIter { da: self, key, key_ptr: 0, arr_ptr: ROOT, live: true };
        proof {
            assert(key.spec_bytes().take(0).len() == 0);
            self@.lemma_matches_step(key.spec_bytes(), 0);
        }
        r
    }
}

} // verus!
