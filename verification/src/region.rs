//! A run of bytes that the caller lends out, with the address at which it
//! lies and the byte order of the machine that reads it.
use crate::bytes::ByteOrder;
use vstd::prelude::*;

verus! {

/// The bytes of a region, lent for reading or for reading and writing.
pub enum Backing<'lt> {
    /// Lent for reading.
    Shared(&'lt [u8]),
    /// Lent for reading and writing.
    Exclusive(&'lt mut [u8]),
}

/// A run of bytes in memory: what a pointer to its first byte stands for,
/// together with how far it reaches.
pub struct Region<'lt> {
    /// The bytes.
    pub backing: Backing<'lt>,
    /// The address of the first byte.
    pub address: usize,
    /// The byte order in which integers lie in the bytes.
    pub order: ByteOrder,
}

impl<'lt> Region<'lt> {
    /// The bytes as they are now.
    pub open spec fn bytes(&self) -> Seq<u8> {
        match self.backing {
            Backing::Shared(bytes) => bytes@,
            Backing::Exclusive(bytes) => bytes@,
        }
    }

    /// Whether the bytes may be written.
    pub open spec fn writable(&self) -> bool {
        self.backing is Exclusive
    }

    /// The region lies within the address space.
    pub open spec fn wf(&self) -> bool {
        self.address + self.bytes().len() <= usize::MAX
    }

    /// A region of bytes lent for reading, whose first byte lies at `address`.
    pub fn shared(bytes: &'lt [u8], address: usize, order: ByteOrder) -> (region: Region<'lt>)
        requires
            address + bytes@.len() <= usize::MAX,
        ensures
            region.wf(),
            !region.writable(),
            region.bytes() == bytes@,
            region.address == address,
            region.order == order,
    {
        Region { backing: Backing::Shared(bytes), address, order }
    }

    /// A region of bytes lent for reading and writing, whose first byte lies
    /// at `address`. What is written through the region is written to `bytes`.
    pub fn exclusive(bytes: &'lt mut [u8], address: usize, order: ByteOrder) -> (region: Region<
        'lt,
    >)
        requires
            address + old(bytes)@.len() <= usize::MAX,
        ensures
            region.wf(),
            region.bytes() == old(bytes)@,
            region.address == address,
            region.order == order,
            region.backing matches Backing::Exclusive(lent) && final(lent)@ == final(bytes)@,
    {
        Region { backing: Backing::Exclusive(bytes), address, order }
    }

    /// The number of bytes in the region.
    pub fn len(&self) -> (len: usize)
        ensures
            len == self.bytes().len(),
    {
        match &self.backing {
            Backing::Shared(bytes) => bytes.len(),
            Backing::Exclusive(bytes) => bytes.len(),
        }
    }

    /// The bytes, for reading.
    pub fn as_bytes(&self) -> (bytes: &[u8])
        ensures
            bytes@ == self.bytes(),
    {
        match &self.backing {
            Backing::Shared(bytes) => bytes,
            Backing::Exclusive(bytes) => bytes,
        }
    }

    /// Whether the bytes may be written.
    pub fn is_writable(&self) -> (writable: bool)
        ensures
            writable == self.writable(),
    {
        match &self.backing {
            Backing::Shared(_) => false,
            Backing::Exclusive(_) => true,
        }
    }

    /// The same bytes, for reading only. What was lent for writing is given
    /// back as it is now.
    pub fn freeze(self) -> (region: Region<'lt>)
        ensures
            !region.writable(),
            region.bytes() == self.bytes(),
            region.address == self.address,
            region.order == self.order,
            self.backing matches Backing::Exclusive(lent) ==> final(lent)@ == self.bytes(),
    {
        let Region { backing, address, order } = self;
        match backing {
            Backing::Shared(bytes) => Region { backing: Backing::Shared(bytes), address, order },
            Backing::Exclusive(bytes) => {
                let frozen: &'lt [u8] = bytes;
                Region { backing: Backing::Shared(frozen), address, order }
            },
        }
    }

    /// The part of the region from byte `count` on: what the pointer moved
    /// forward by `count` bytes stands for. The bytes before it are given
    /// back as they are now.
    pub fn offset(self, count: usize) -> (region: Region<'lt>)
        requires
            self.wf(),
            count <= self.bytes().len(),
        ensures
            region.wf(),
            region.writable() == self.writable(),
            region.bytes() == self.bytes().skip(count as int),
            region.address == self.address + count,
            region.order == self.order,
            self.backing matches Backing::Exclusive(lent) ==> (region.backing matches Backing::Exclusive(
                rest,
            ) && final(lent)@ == self.bytes().take(count as int) + final(rest)@),
    {
        let Region { backing, address, order } = self;
        match backing {
            Backing::Shared(bytes) => {
                let (_, rest) = bytes.split_at(count);
                Region { backing: Backing::Shared(rest), address: address + count, order }
            },
            Backing::Exclusive(bytes) => {
                let (_, rest) = bytes.split_at_mut(count);
                Region { backing: Backing::Exclusive(rest), address: address + count, order }
            },
        }
    }
}

} // verus!
