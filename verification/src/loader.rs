//! Deciding how a file is brought into memory, and whether its contents look
//! like binary data.
use vstd::prelude::*;

verus! {

#[verifier::external_type_specification]
#[verifier::external_body]
pub struct ExMmap(memmap2::Mmap);

/// A file's contents: read into memory, or mapped.
pub enum Loaded {
    Owned(Vec<u8>),
    Mapped(memmap2::Mmap),
}

/// The bytes of a memory map (`Mmap`'s `Deref`). Trusted, and nothing is
/// claimed of them: they are whatever the mapped file holds.
#[verifier::external_body]
fn mapped_bytes(map: &memmap2::Mmap) -> &[u8] {
    map
}

impl Loaded {
    /// The contents, whichever way they were loaded.
    pub fn as_bytes(&self) -> (bytes: &[u8])
        ensures
            (self matches Loaded::Owned(v) ==> bytes@ == v@),
    {
        match self {
            Loaded::Owned(v) => v.as_slice(),
            Loaded::Mapped(m) => mapped_bytes(m),
        }
    }
}

/// How a file is to be loaded.
#[derive(Debug, PartialEq, Eq, Clone, Copy)]
pub enum LoadPlan {
    /// Memory-map it.
    MemoryMap,
    /// Read it, reserving `capacity` bytes up front.
    Read { capacity: usize },
}

/// The reservation for reading a file that reports `len` bytes.
pub open spec fn read_capacity(len: u64, threshold: u64) -> usize {
    let hint = if len < threshold { len } else { threshold };
    if hint <= usize::MAX { hint as usize } else { 0usize }
}

/// Decides how to load a file from what its metadata says.
///
/// Only a regular file at or above `threshold` bytes is mapped: a pipe or a
/// device cannot be, whatever size it reports. Anything else is read. The
/// reported size is only a hint for the initial reservation, capped at
/// `threshold` (a larger hint would have taken the mapping branch) and dropped
/// to 0 where it does not fit in memory's address range.
pub fn load_plan(is_file: bool, len: u64, threshold: u64) -> (plan: LoadPlan)
    ensures
        is_file && len >= threshold ==> plan == LoadPlan::MemoryMap,
        !(is_file && len >= threshold) ==> (plan == LoadPlan::Read {
            capacity: read_capacity(len, threshold),
        }),
{
    if is_file && len >= threshold {
        return LoadPlan::MemoryMap;
    }
    let hint = if len < threshold { len } else { threshold };
    let capacity: usize = if hint <= usize::MAX as u64 { hint as usize } else { 0 };
    LoadPlan::Read { capacity }
}

/// Files at or above this many bytes are memory-mapped rather than read.
pub const MMAP_THRESHOLD_BYTES: u64 = 1073741824u64;

/// How much of a file is inspected when deciding whether it is binary. Bounded
/// so detection costs the same whatever the file's size: a NUL past this point
/// is not detected, the same trade `grep` makes with its first read buffer.
pub const BINARY_SNIFF_BYTES: usize = 8192usize;

/// The leading window of `buf` that the binary check inspects.
pub open spec fn sniff_window(buf: Seq<u8>) -> Seq<u8> {
    if buf.len() <= BINARY_SNIFF_BYTES {
        buf
    } else {
        buf.take(BINARY_SNIFF_BYTES as int)
    }
}

/// True if the leading `BINARY_SNIFF_BYTES` of `buf` contain a NUL byte.
pub fn looks_binary(buf: &[u8]) -> (binary: bool)
    ensures
        binary == sniff_window(buf@).contains(0u8),
        binary == exists|i: int| 0 <= i < buf@.len() && i < BINARY_SNIFF_BYTES && buf@[i] == 0u8,
{
    let n: usize = if buf.len() < BINARY_SNIFF_BYTES { buf.len() } else { BINARY_SNIFF_BYTES };
    let mut i: usize = 0;
    while i < n
        invariant
            n <= buf.len(),
            n == sniff_window(buf@).len(),
            i <= n,
            forall|j: int| 0 <= j < i ==> buf@[j] != 0u8,
        decreases n - i,
    {
        if buf[i] == 0u8 {
            assert(sniff_window(buf@)[i as int] == 0u8);
            assert(buf@[i as int] == 0u8);
            return true;
        }
        i = i + 1;
    }
    assert forall|j: int| 0 <= j < sniff_window(buf@).len() implies sniff_window(buf@)[j] != 0u8 by {
        assert(sniff_window(buf@)[j] == buf@[j]);
    }
    false
}

/// The window the binary test inspects holds a NUL exactly when one of the
/// first `BINARY_SNIFF_BYTES` bytes is a NUL, wherever lines begin and end.
pub proof fn lemma_binary_means_early_nul(buf: Seq<u8>)
    ensures
        sniff_window(buf).contains(0u8) <==> exists|i: int|
            0 <= i < buf.len() && i < BINARY_SNIFF_BYTES && buf[i] == 0u8,
{
    let w = sniff_window(buf);
    assert(w.len() == if buf.len() <= BINARY_SNIFF_BYTES { buf.len() as int } else {
        BINARY_SNIFF_BYTES as int
    });
    assert forall|i: int| 0 <= i < w.len() implies w[i] == buf[i] by {}
    if exists|i: int| 0 <= i < buf.len() && i < BINARY_SNIFF_BYTES && buf[i] == 0u8 {
        let i = choose|i: int| 0 <= i < buf.len() && i < BINARY_SNIFF_BYTES && buf[i] == 0u8;
        assert(w[i] == 0u8);
    }
}

} // verus!
