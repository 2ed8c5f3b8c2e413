//! Heap buffers whose length is a whole number of I/O units.
//!
//! Every byte the arena moves to or from the backing store goes through one
//! of these. Cache-bypassing I/O is only honoured for aligned offsets and
//! lengths, so the length discipline is enforced by the type, not by
//! convention.

use vstd::prelude::*;

verus! {

/// The I/O alignment the arena assumes. 4 KiB satisfies APFS, ext4 and xfs on
/// every drive of interest (512e and 4Kn alike).
pub const IO_ALIGN: usize = 4096;

/// A byte buffer whose length is a non-zero multiple of [`IO_ALIGN`].
pub struct AlignedBuf {
    bytes: Vec<u8>,
}

impl View for AlignedBuf {
    type V = Seq<u8>;

    closed spec fn view(&self) -> Seq<u8> {
        self.bytes@
    }
}

impl AlignedBuf {
    /// Allocate `len` zeroed bytes. `len` must be a non-zero multiple of the
    /// alignment.
    pub fn zeroed(len: usize) -> (buf: Self)
        requires
            len > 0,
            len % IO_ALIGN == 0,
            len <= isize::MAX,
        ensures
            buf@ == Seq::new(len as nat, |i: int| 0u8),
    {
        let bytes: Vec<u8> = vec![0u8; len];
        assert(bytes@ =~= Seq::new(len as nat, |i: int| 0u8));
        AlignedBuf { bytes }
    }

    /// Length in bytes.
    pub fn len(&self) -> (n: usize)
        ensures
            n == self@.len(),
    {
        self.bytes.len()
    }

    /// The whole buffer, readable.
    pub fn as_slice(&self) -> (s: &[u8])
        ensures
            s@ == self@,
    {
        self.bytes.as_slice()
    }

    /// The whole buffer, writable. The length cannot change.
    pub fn as_mut_slice(&mut self) -> (s: &mut [u8])
        ensures
            s@ == old(self)@,
            final(self)@ == final(s)@,
    {
        self.bytes.as_mut_slice()
    }
}

impl core::ops::Deref for AlignedBuf {
    type Target = [u8];

    fn deref(&self) -> (s: &[u8])
        ensures
            s@ == self@,
    {
        self.as_slice()
    }
}

} // verus!
