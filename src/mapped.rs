//! A read-only memory-mapped byte store.
use vstd::prelude::*;
use vstd::slice::slice_subrange;

verus! {

#[verifier::external_type_specification]
#[verifier::external_body]
pub struct ExMmap(memmap2::Mmap);

#[verifier::external_type_specification]
#[verifier::external_body]
pub struct ExMmapMut(memmap2::MmapMut);

#[verifier::external_type_specification]
#[verifier::external_body]
pub struct ExIoError(std::io::Error);

/// The bytes that a read-only map shows. Naming them assumes that the file
/// behind a map is not changed while it is mapped, as `memmap2::Mmap::map`
/// asks of its callers.
pub uninterp spec fn mapped_bytes(m: memmap2::Mmap) -> Seq<u8>;

/// The bytes that a writable map shows.
pub uninterp spec fn writable_bytes(m: memmap2::MmapMut) -> Seq<u8>;

/// Relies on `Deref for memmap2::Mmap`: the slice of the mapped bytes.
#[verifier::external_body]
fn mmap_slice(m: &memmap2::Mmap) -> (r: &[u8])
    ensures
        r@ == mapped_bytes(*m),
{
    m
}

/// Relies on `memmap2::MmapMut::map_anon`: a fresh anonymous map of `len` bytes.
#[verifier::external_body]
fn anon_map(len: usize) -> (r: Result<memmap2::MmapMut, std::io::Error>)
    ensures
        r matches Ok(m) ==> writable_bytes(m).len() == len,
{
    memmap2::MmapMut::map_anon(len)
}

/// Relies on `DerefMut for memmap2::MmapMut`: the map's bytes become `src`.
#[verifier::external_body]
fn fill_map(m: &mut memmap2::MmapMut, src: &[u8])
    requires
        writable_bytes(*old(m)).len() == src@.len(),
    ensures
        writable_bytes(*final(m)) == src@,
{
    m.copy_from_slice(src)
}

/// Relies on `memmap2::MmapMut::make_read_only`: the same bytes, read-only.
#[verifier::external_body]
fn freeze_map(m: memmap2::MmapMut) -> (r: Result<memmap2::Mmap, std::io::Error>)
    ensures
        r matches Ok(f) ==> mapped_bytes(f) == writable_bytes(m),
{
    m.make_read_only()
}

/// The original document, mapped read-only into memory. Its bytes never
/// change while it is held.
#[derive(Debug)]
pub struct MmapFile {
    map: memmap2::Mmap,
}

impl View for MmapFile {
    type V = Seq<u8>;

    closed spec fn view(&self) -> Seq<u8> {
        mapped_bytes(self.map)
    }
}

impl MmapFile {
    /// Wraps a map that the caller opened.
    pub fn from_mmap(map: memmap2::Mmap) -> (r: MmapFile)
        ensures
            r@ == mapped_bytes(map),
    {
        MmapFile { map }
    }

    /// An anonymous map that holds a copy of `bytes`; `None` when the
    /// operating system refuses the map.
    pub fn from_bytes(bytes: &[u8]) -> (r: Option<MmapFile>)
        ensures
            r matches Some(f) ==> f@ == bytes@,
    {
        match anon_map(bytes.len()) {
            Ok(mut m) => {
                fill_map(&mut m, bytes);
                match freeze_map(m) {
                    Ok(map) => Some(MmapFile { map }),
                    Err(_) => None,
                }
            },
            Err(_) => None,
        }
    }

    pub fn as_slice(&self) -> (r: &[u8])
        ensures
            r@ == self@,
    {
        mmap_slice(&self.map)
    }

    /// File length in bytes.
    pub fn len(&self) -> (r: usize)
        ensures
            r == self@.len(),
    {
        self.as_slice().len()
    }

    pub fn is_empty(&self) -> (r: bool)
        ensures
            r == (self@.len() == 0),
    {
        self.len() == 0
    }

    /// The bytes `[start, start + length)`, only when all of them exist.
    pub fn get_bytes_exact(&self, start: usize, length: usize) -> (r: Option<&[u8]>)
        ensures
            start + length <= self@.len() ==> (r matches Some(s) && s@ == self@.subrange(
                start as int,
                start + length,
            )),
            start + length > self@.len() ==> r is None,
    {
        let all = self.as_slice();
        if start > all.len() || length > all.len() - start {
            return None;
        }
        Some(slice_subrange(all, start, start + length))
    }

    /// The bytes of `[start, start + length)` that exist.
    pub fn get_bytes_clamped(&self, start: usize, length: usize) -> (r: &[u8])
        ensures
            start >= self@.len() ==> r@.len() == 0,
            start < self@.len() ==> r@ == self@.subrange(
                start as int,
                if start + length <= self@.len() { start + length } else { self@.len() as int },
            ),
    {
        let all = self.as_slice();
        let n = all.len();
        if start >= n {
            return slice_subrange(all, n, n);
        }
        let end = if length > n - start { n } else { start + length };
        slice_subrange(all, start, end)
    }
}

} // verus!
