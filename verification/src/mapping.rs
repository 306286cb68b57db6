//! Memory mappings of the `memmap` crate, as far as the dictionary uses
//! them: a mapping is a buffer of bytes. Nothing here is proved; each
//! contract says what the crate's source shows of the call.

use vstd::prelude::*;

verus! {

/// `memmap::Mmap`, a read-only mapping: known by its bytes alone.
#[verifier::external_type_specification]
#[verifier::external_body]
pub struct ExMmap(memmap::Mmap);

/// `memmap::MmapMut`, a writable mapping: known by its bytes alone.
#[verifier::external_type_specification]
#[verifier::external_body]
pub struct ExMmapMut(memmap::MmapMut);

/// The bytes that a read-only mapping holds. For a mapping of a file this
/// takes for granted that nobody writes to the file while it is mapped.
pub uninterp spec fn mapped(m: memmap::Mmap) -> Seq<u8>;

/// The bytes that a writable mapping holds.
pub uninterp spec fn mapped_mut(m: memmap::MmapMut) -> Seq<u8>;

/// `MmapOptions::new().len(len).map_anon()`: a fresh anonymous mapping of
/// `len` bytes, or the error of the system call; a length of zero is an error.
#[verifier::external_body]
pub(crate) fn map_anon(len: usize) -> (r: Result<memmap::MmapMut, std::io::Error>)
    ensures
        r matches Ok(m) ==> mapped_mut(m).len() == len,
{
    memmap::MmapOptions::new().len(len).map_anon()
}

/// `copy_from_slice` through `MmapMut`'s `DerefMut`: the mapping, seen as a
/// slice of its own length, is overwritten with `bytes`.
#[verifier::external_body]
pub(crate) fn fill(m: &mut memmap::MmapMut, bytes: &[u8])
    requires
        mapped_mut(*old(m)).len() == bytes@.len(),
    ensures
        mapped_mut(*final(m)) == bytes@,
{
    m.copy_from_slice(bytes);
}

/// `MmapMut::make_read_only`: the same mapping with its protection changed,
/// or the error of the system call.
#[verifier::external_body]
pub(crate) fn make_read_only(m: memmap::MmapMut) -> (r: Result<memmap::Mmap, std::io::Error>)
    ensures
        r matches Ok(ro) ==> mapped(ro) == mapped_mut(m),
{
    m.make_read_only()
}

/// `Mmap`'s `Deref`: the mapping as a slice of its bytes.
#[verifier::external_body]
pub(crate) fn bytes_of(m: &memmap::Mmap) -> (r: &[u8])
    ensures
        r@ == mapped(*m),
{
    &m[..]
}

} // verus!
