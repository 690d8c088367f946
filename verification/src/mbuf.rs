//! The handle on a record in a region: placing one, writing one, and
//! reading and changing what it holds.
use crate::bytes::lemma_splice;
use crate::bytes::splice;
use crate::bytes::ByteOrder;
use crate::layout::align;
use crate::layout::data_offset;
use crate::layout::footprint;
use crate::layout::lemma_layout_order;
use crate::layout::locate_length;
use crate::layout::measure_header;
use crate::layout::measure_record;
use crate::plain::decode_all;
use crate::plain::load_all;
use crate::plain::store_all;
use crate::plain::Plain;
use crate::record::data_image;
use crate::record::element_offset;
use crate::record::has_room;
use crate::record::header_image;
use crate::record::holds_record;
use crate::record::lemma_copy_from_slice;
use crate::record::lemma_element_offsets;
use crate::record::lemma_header_image;
use crate::record::lemma_header_image_data;
use crate::record::lemma_replace_data;
use crate::record::lemma_replace_element;
use crate::record::lemma_replace_metadata;
use crate::record::lemma_write_then_view;
use crate::record::record_image;
use crate::record::stored_len;
use crate::record::stored_metadata;
use crate::record::stored_record;
use crate::record::Record;
use crate::region::Backing;
use crate::region::Region;
use std::marker::PhantomData;
use vstd::layout::align_nonzero;
use vstd::layout::align_of;
use vstd::layout::align_properties;
use vstd::layout::size_of;
use vstd::prelude::*;

verus! {

/// A record in memory: metadata of type `M`, an element count, and that
/// many elements of type `D` behind them. The handle owns no memory: it
/// reads and writes the bytes of the region that it was placed on.
pub struct Mbuf<'lt, M, D> {
    /// The bytes from the record's first byte on.
    pub region: Region<'lt>,
    /// The types of the metadata and of the elements.
    pub marker: PhantomData<(M, D)>,
}

impl<'lt, M: Plain, D: Plain> View for Mbuf<'lt, M, D> {
    type V = Record<M, D>;

    /// The record that the bytes hold now.
    open spec fn view(&self) -> Record<M, D> {
        stored_record::<M, D>(self.region.bytes(), self.region.address as int, self.region.order)
    }
}

impl<'lt, M: Plain, D: Plain> Mbuf<'lt, M, D> {
    /// The region lies within the address space, its first byte suits a
    /// header, and it holds the header and every element that the count
    /// announces.
    pub open spec fn wf(&self) -> bool {
        &&& self.region.wf()
        &&& holds_record::<M, D>(
            self.region.bytes(),
            self.region.address as int,
            self.region.order,
        )
    }

    /// Whether `region` lies within the address space, starts at an address
    /// that suits a header, and has room for the header and `length`
    /// elements: what writing a record of that length asks of a region.
    pub fn room_for(region: &Region<'lt>, length: usize) -> (fits: bool)
        ensures
            fits == (region.wf() && has_room::<M, D>(
                region.bytes(),
                region.address as int,
                length as int,
            )),
    {
        broadcast use align_properties, align_nonzero;

        let size: usize = region.len();
        if size > usize::MAX - region.address {
            return false;
        }
        if region.address % std::mem::align_of::<M>() != 0 {
            return false;
        }
        if region.address % std::mem::align_of::<usize>() != 0 {
            return false;
        }
        if measure_header::<M>() > size {
            return false;
        }
        match measure_record::<M, D>(region.address, length) {
            None => false,
            Some(needed) => needed <= size,
        }
    }

    /// Whether `region` lies within the address space and holds a whole
    /// record at its start: what placing a handle asks of a region.
    pub fn holds(region: &Region<'lt>) -> (whole: bool)
        ensures
            whole == (region.wf() && holds_record::<M, D>(
                region.bytes(),
                region.address as int,
                region.order,
            )),
    {
        if !Self::room_for(region, 0) {
            proof {
                lemma_layout_order::<M, D>(region.address as int);
                assert(stored_len::<M>(region.bytes(), region.order) * size_of::<D>() >= 0)
                    by (nonlinear_arith);
            }
            return false;
        }
        proof {
            lemma_layout_order::<M, D>(region.address as int);
        }
        let length: usize = usize::load(region.as_bytes(), locate_length::<M>(), region.order);
        Self::room_for(region, length)
    }

    /// Takes the bytes of `region` for a record, for reading.
    ///
    /// The region must hold a whole record at its start: a header at an
    /// address that suits it, and as many elements as its count says. Bytes
    /// that were lent for writing are given back as they are.
    #[must_use]
    pub fn at_ptr(region: Region<'lt>) -> (mbuf: Self)
        requires
            region.wf(),
            holds_record::<M, D>(region.bytes(), region.address as int, region.order),
        ensures
            mbuf.wf(),
            !mbuf.region.writable(),
            mbuf.region.bytes() == region.bytes(),
            mbuf.region.address == region.address,
            mbuf.region.order == region.order,
            region.backing matches Backing::Exclusive(lent) ==> final(lent)@ == region.bytes(),
    {
        Mbuf { region: region.freeze(), marker: PhantomData }
    }

    /// Takes the bytes of `region` for a record, for reading and writing.
    ///
    /// The region must be writable and hold a whole record at its start.
    pub fn at_ptr_mut(region: Region<'lt>) -> (mbuf: Self)
        requires
            region.wf(),
            region.writable(),
            holds_record::<M, D>(region.bytes(), region.address as int, region.order),
        ensures
            mbuf.wf(),
            mbuf.region == region,
    {
        Mbuf { region, marker: PhantomData }
    }

    /// Takes the bytes of `region` from byte `offset` on for a record, for
    /// reading.
    ///
    /// The region must hold a whole record from that byte on. Bytes that
    /// were lent for writing are given back as they are.
    #[must_use]
    pub fn at_offset(region: Region<'lt>, offset: usize) -> (mbuf: Self)
        requires
            region.wf(),
            offset <= region.bytes().len(),
            holds_record::<M, D>(
                region.bytes().skip(offset as int),
                region.address + offset,
                region.order,
            ),
        ensures
            mbuf.wf(),
            !mbuf.region.writable(),
            mbuf.region.bytes() == region.bytes().skip(offset as int),
            mbuf.region.address == region.address + offset,
            mbuf.region.order == region.order,
            region.backing matches Backing::Exclusive(lent) ==> final(lent)@ == region.bytes(),
    {
        proof {
            assert(region.bytes().take(offset as int) + region.bytes().skip(offset as int)
                =~= region.bytes());
        }
        Self::at_ptr(region.offset(offset))
    }

    /// Takes the bytes of `region` from byte `offset` on for a record, for
    /// reading and writing.
    ///
    /// The region must be writable and hold a whole record from that byte
    /// on. The bytes before it are given back as they are.
    pub fn at_offset_mut(region: Region<'lt>, offset: usize) -> (mbuf: Self)
        requires
            region.wf(),
            region.writable(),
            offset <= region.bytes().len(),
            holds_record::<M, D>(
                region.bytes().skip(offset as int),
                region.address + offset,
                region.order,
            ),
        ensures
            mbuf.wf(),
            mbuf.region.bytes() == region.bytes().skip(offset as int),
            mbuf.region.address == region.address + offset,
            mbuf.region.order == region.order,
            region.backing matches Backing::Exclusive(lent)
                && mbuf.region.backing matches Backing::Exclusive(rest)
                && final(lent)@ == region.bytes().take(offset as int) + final(rest)@,
    {
        Self::at_ptr_mut(region.offset(offset))
    }

    /// Writes a header with `metadata` and `length` at the start of
    /// `region` and leaves every byte behind the header as it is: the
    /// elements are whatever the bytes held before.
    ///
    /// The region must be writable, start at an address that suits the
    /// header, and have room for the header and `length` elements.
    pub fn init_at_ptr(region: Region<'lt>, metadata: M, length: usize) -> (mbuf: Self)
        requires
            region.wf(),
            region.writable(),
            has_room::<M, D>(region.bytes(), region.address as int, length as int),
        ensures
            mbuf.wf(),
            mbuf@.metadata == metadata,
            mbuf@.data == decode_all::<D>(
                region.bytes(),
                data_offset::<M, D>(region.address as int),
                length as nat,
                region.order,
            ),
            mbuf.region.bytes() == header_image::<M>(
                region.bytes(),
                metadata,
                length,
                region.order,
            ),
            mbuf.region.address == region.address,
            mbuf.region.order == region.order,
            region.backing matches Backing::Exclusive(lent)
                && mbuf.region.backing matches Backing::Exclusive(kept)
                && final(lent)@ == final(kept)@,
    {
        proof {
            lemma_header_image::<M>(
                region.bytes(),
                region.address as int,
                metadata,
                length,
                region.order,
            );
            lemma_header_image_data::<M, D>(
                region.bytes(),
                region.address as int,
                metadata,
                length,
                region.order,
            );
            lemma_layout_order::<M, D>(region.address as int);
            metadata.lemma_round_trip(region.order);
            length.lemma_round_trip(region.order);
            lemma_splice(region.bytes(), 0, metadata.encode(region.order));
        }
        let Region { backing, address, order } = region;
        match backing {
            Backing::Exclusive(bytes) => {
                metadata.store(bytes, 0, order);
                length.store(bytes, locate_length::<M>(), order);
                Mbuf {
                    region: Region { backing: Backing::Exclusive(bytes), address, order },
                    marker: PhantomData,
                }
            },
            Backing::Shared(bytes) => Mbuf {
                region: Region { backing: Backing::Shared(bytes), address, order },
                marker: PhantomData,
            },
        }
    }

    /// Writes a header with `metadata` and `length` at byte `offset` of
    /// `region` and leaves every other byte as it is.
    ///
    /// The region must be writable and, from that byte on, start at an
    /// address that suits the header and have room for the header and
    /// `length` elements.
    pub fn init_at_offset(region: Region<'lt>, offset: usize, metadata: M, length: usize) -> (mbuf:
        Self)
        requires
            region.wf(),
            region.writable(),
            offset <= region.bytes().len(),
            has_room::<M, D>(
                region.bytes().skip(offset as int),
                region.address + offset,
                length as int,
            ),
        ensures
            mbuf.wf(),
            mbuf@.metadata == metadata,
            mbuf@.data == decode_all::<D>(
                region.bytes().skip(offset as int),
                data_offset::<M, D>(region.address + offset),
                length as nat,
                region.order,
            ),
            mbuf.region.bytes() == header_image::<M>(
                region.bytes().skip(offset as int),
                metadata,
                length,
                region.order,
            ),
            mbuf.region.address == region.address + offset,
            mbuf.region.order == region.order,
            region.backing matches Backing::Exclusive(lent)
                && mbuf.region.backing matches Backing::Exclusive(kept)
                && final(lent)@ == region.bytes().take(offset as int) + final(kept)@,
    {
        Self::init_at_ptr(region.offset(offset), metadata, length)
    }

    /// Writes a record with `metadata` and the elements of `data` at the
    /// start of `region`, and returns the handle on it, for reading and
    /// writing. Padding and the bytes behind the record stay as they are.
    ///
    /// The region must be writable, start at an address that suits the
    /// header, and have room for the header and the elements.
    pub fn write_to_ptr_mut(region: Region<'lt>, metadata: M, data: &[D]) -> (mbuf: Self)
        requires
            region.wf(),
            region.writable(),
            has_room::<M, D>(region.bytes(), region.address as int, data@.len() as int),
        ensures
            mbuf.wf(),
            mbuf@ == (Record { metadata, data: data@ }),
            mbuf.region.bytes() == record_image::<M, D>(
                region.bytes(),
                region.address as int,
                metadata,
                data@,
                region.order,
            ),
            mbuf.region.address == region.address,
            mbuf.region.order == region.order,
            region.backing matches Backing::Exclusive(lent)
                && mbuf.region.backing matches Backing::Exclusive(kept)
                && final(lent)@ == final(kept)@,
    {
        proof {
            assert(data.len() <= usize::MAX);
            lemma_write_then_view::<M, D>(
                region.bytes(),
                region.address as int,
                metadata,
                data@,
                region.order,
            );
        }
        let mut mbuf: Self = Self::init_at_ptr(region, metadata, data.len());
        mbuf.copy_from_slice(data);
        mbuf
    }

    /// Writes a record with `metadata` and the elements of `data` at the
    /// start of `region`, and returns the handle on it, for reading. What
    /// was written is given back with the region.
    ///
    /// The region must be writable, start at an address that suits the
    /// header, and have room for the header and the elements.
    #[must_use]
    pub fn write_to_ptr(region: Region<'lt>, metadata: M, data: &[D]) -> (mbuf: Self)
        requires
            region.wf(),
            region.writable(),
            has_room::<M, D>(region.bytes(), region.address as int, data@.len() as int),
        ensures
            mbuf.wf(),
            !mbuf.region.writable(),
            mbuf@ == (Record { metadata, data: data@ }),
            mbuf.region.bytes() == record_image::<M, D>(
                region.bytes(),
                region.address as int,
                metadata,
                data@,
                region.order,
            ),
            mbuf.region.address == region.address,
            mbuf.region.order == region.order,
            region.backing matches Backing::Exclusive(lent) && final(lent)@ == mbuf.region.bytes(),
    {
        let written: Self = Self::write_to_ptr_mut(region, metadata, data);
        Mbuf { region: written.region.freeze(), marker: PhantomData }
    }

    /// Writes a record with `metadata` and the elements of `data` at byte
    /// `offset` of `region`, and returns the handle on it, for reading. What
    /// was written is given back with the region.
    ///
    /// The region must be writable and, from that byte on, start at an
    /// address that suits the header and have room for the header and the
    /// elements.
    #[must_use]
    pub fn write_to_offset(region: Region<'lt>, offset: usize, metadata: M, data: &[D]) -> (mbuf:
        Self)
        requires
            region.wf(),
            region.writable(),
            offset <= region.bytes().len(),
            has_room::<M, D>(
                region.bytes().skip(offset as int),
                region.address + offset,
                data@.len() as int,
            ),
        ensures
            mbuf.wf(),
            !mbuf.region.writable(),
            mbuf@ == (Record { metadata, data: data@ }),
            mbuf.region.bytes() == record_image::<M, D>(
                region.bytes().skip(offset as int),
                region.address + offset,
                metadata,
                data@,
                region.order,
            ),
            mbuf.region.address == region.address + offset,
            mbuf.region.order == region.order,
            region.backing matches Backing::Exclusive(lent) && final(lent)@ == region.bytes().take(
                offset as int,
            ) + mbuf.region.bytes(),
    {
        let written: Self = Self::write_to_offset_mut(region, offset, metadata, data);
        Mbuf { region: written.region.freeze(), marker: PhantomData }
    }

    /// Writes a record with `metadata` and the elements of `data` at byte
    /// `offset` of `region`, and returns the handle on it, for reading and
    /// writing. Every byte outside the record stays as it is.
    ///
    /// The region must be writable and, from that byte on, start at an
    /// address that suits the header and have room for the header and the
    /// elements.
    pub fn write_to_offset_mut(region: Region<'lt>, offset: usize, metadata: M, data: &[D]) -> (mbuf:
        Self)
        requires
            region.wf(),
            region.writable(),
            offset <= region.bytes().len(),
            has_room::<M, D>(
                region.bytes().skip(offset as int),
                region.address + offset,
                data@.len() as int,
            ),
        ensures
            mbuf.wf(),
            mbuf@ == (Record { metadata, data: data@ }),
            mbuf.region.bytes() == record_image::<M, D>(
                region.bytes().skip(offset as int),
                region.address + offset,
                metadata,
                data@,
                region.order,
            ),
            mbuf.region.address == region.address + offset,
            mbuf.region.order == region.order,
            region.backing matches Backing::Exclusive(lent)
                && mbuf.region.backing matches Backing::Exclusive(kept)
                && final(lent)@ == region.bytes().take(offset as int) + final(kept)@,
    {
        Self::write_to_ptr_mut(region.offset(offset), metadata, data)
    }

    /// The offset of the first element from the record's first byte.
    fn data_start(&self) -> (start: usize)
        requires
            self.wf(),
        ensures
            start as int == data_offset::<M, D>(self.region.address as int),
    {
        broadcast use align_properties, align_nonzero;

        proof {
            lemma_layout_order::<M, D>(self.region.address as int);
            lemma_element_offsets::<M, D>(self.region.address as int, 0, 1);
            assert(self@.data.len() * size_of::<D>() >= 0) by (nonlinear_arith);
        }
        let header_end: usize = self.region.address + measure_header::<M>();
        align::<D>(header_end) - self.region.address
    }

    /// Returns the metadata.
    pub fn get_metadata(&self) -> (metadata: M)
        requires
            self.wf(),
        ensures
            metadata == self@.metadata,
    {
        M::load(self.region.as_bytes(), 0, self.region.order)
    }

    /// Sets the metadata and returns the previous value. The count and the
    /// elements stay as they are.
    pub fn set_metadata(&mut self, metadata: M) -> (previous: M)
        requires
            old(self).wf(),
            old(self).region.writable(),
        ensures
            previous == old(self)@.metadata,
            final(self)@ == (Record { metadata, data: old(self)@.data }),
            final(self).wf(),
            final(self).region.bytes() == splice(
                old(self).region.bytes(),
                0,
                metadata.encode(old(self).region.order),
            ),
            final(self).region.address == old(self).region.address,
            final(self).region.order == old(self).region.order,
            old(self).region.backing matches Backing::Exclusive(before)
                && final(self).region.backing matches Backing::Exclusive(after)
                && final(before)@ == final(after)@,
    {
        let previous: M = self.get_metadata();
        proof {
            lemma_replace_metadata::<M, D>(
                self.region.bytes(),
                self.region.address as int,
                metadata,
                self.region.order,
            );
            lemma_layout_order::<M, D>(self.region.address as int);
        }
        let order: ByteOrder = self.region.order;
        match &mut self.region.backing {
            Backing::Exclusive(bytes) => {
                metadata.store(bytes, 0, order);
            },
            Backing::Shared(_) => {},
        }
        previous
    }

    /// Returns the bytes of the elements, for reading and writing: as many
    /// bytes as the count times the size of an element. What is written to
    /// them is written to the record, whose metadata and count stay as they
    /// are.
    pub fn to_slice_mut(&mut self) -> (run: &mut [u8])
        requires
            old(self).wf(),
            old(self).region.writable(),
        ensures
            run@ == old(self).region.bytes().subrange(
                data_offset::<M, D>(old(self).region.address as int),
                footprint::<M, D>(old(self).region.address as int, old(self)@.data.len() as int),
            ),
            final(self).region.bytes() == old(self).region.bytes().subrange(
                0,
                data_offset::<M, D>(old(self).region.address as int),
            ) + final(run)@ + old(self).region.bytes().subrange(
                footprint::<M, D>(old(self).region.address as int, old(self)@.data.len() as int),
                old(self).region.bytes().len() as int,
            ),
            final(run)@.len() == run@.len() ==> final(self).wf() && final(self)@ == (Record {
                metadata: old(self)@.metadata,
                data: decode_all::<D>(
                    final(run)@,
                    0,
                    old(self)@.data.len(),
                    old(self).region.order,
                ),
            }),
            final(self).region.address == old(self).region.address,
            final(self).region.order == old(self).region.order,
            old(self).region.backing matches Backing::Exclusive(before)
                && final(self).region.backing matches Backing::Exclusive(after)
                && final(before)@ == final(after)@,
    {
        let start: usize = self.data_start();
        let length: usize = self.len();
        let width: usize = std::mem::size_of::<D>();
        proof {
            assert(length * width >= 0) by (nonlinear_arith);
        }
        let size: usize = length * width;
        let ghost before = self.region.bytes();
        let ghost address = self.region.address as int;
        let ghost order = self.region.order;
        match &mut self.region.backing {
            Backing::Exclusive(bytes) => {
                let (_, tail) = bytes.split_at_mut(start);
                let (run, _) = tail.split_at_mut(size);
                proof {
                    let fresh = final(run)@;
                    let head = before.subrange(0, start as int);
                    let rest = before.subrange(start + size, before.len() as int);
                    assert(run@ =~= before.subrange(start as int, start + size));
                    assert(before.subrange(start as int, before.len() as int).subrange(
                        size as int,
                        before.len() - start,
                    ) =~= rest);
                    assert(head + (fresh + rest) =~= head + fresh + rest);
                    assert(fresh.len() == run@.len() ==> splice(before, start as int, fresh) == head
                        + fresh + rest && holds_record::<M, D>(
                        splice(before, start as int, fresh),
                        address,
                        order,
                    ) && stored_record::<M, D>(splice(before, start as int, fresh), address, order)
                        == (Record {
                        metadata: stored_metadata::<M>(before, order),
                        data: decode_all::<D>(fresh, 0, length as nat, order),
                    })) by {
                        if fresh.len() == run@.len() {
                            lemma_replace_data::<M, D>(before, address, fresh, order);
                        }
                    }
                }
                run
            },
            Backing::Shared(_) => &mut [],
        }
    }

    /// Returns element `index`.
    pub fn get(&self, index: usize) -> (value: D)
        requires
            self.wf(),
            index < self@.data.len(),
        ensures
            value == self@.data[index as int],
    {
        proof {
            lemma_element_offsets::<M, D>(
                self.region.address as int,
                index as int,
                self@.data.len() as int,
            );
        }
        let start: usize = self.data_start();
        let width: usize = std::mem::size_of::<D>();
        proof {
            assert(index * width >= 0 && (index + 1) * width == index * width + width)
                by (nonlinear_arith);
        }
        D::load(self.region.as_bytes(), start + index * width, self.region.order)
    }

    /// Sets element `index` to `value`. The metadata, the count and the
    /// other elements stay as they are.
    pub fn set(&mut self, index: usize, value: D)
        requires
            old(self).wf(),
            old(self).region.writable(),
            index < old(self)@.data.len(),
        ensures
            final(self).wf(),
            final(self)@ == (Record {
                metadata: old(self)@.metadata,
                data: old(self)@.data.update(index as int, value),
            }),
            final(self).region.bytes() == splice(
                old(self).region.bytes(),
                element_offset::<M, D>(old(self).region.address as int, index as int),
                value.encode(old(self).region.order),
            ),
            final(self).region.address == old(self).region.address,
            final(self).region.order == old(self).region.order,
            old(self).region.backing matches Backing::Exclusive(before)
                && final(self).region.backing matches Backing::Exclusive(after)
                && final(before)@ == final(after)@,
    {
        proof {
            lemma_replace_element::<M, D>(
                self.region.bytes(),
                self.region.address as int,
                index as int,
                value,
                self.region.order,
            );
            lemma_element_offsets::<M, D>(
                self.region.address as int,
                index as int,
                self@.data.len() as int,
            );
            value.lemma_round_trip(self.region.order);
        }
        let start: usize = self.data_start();
        let width: usize = std::mem::size_of::<D>();
        proof {
            assert(index * width >= 0 && (index + 1) * width == index * width + width)
                by (nonlinear_arith);
        }
        let order: ByteOrder = self.region.order;
        match &mut self.region.backing {
            Backing::Exclusive(bytes) => {
                value.store(bytes, start + index * width, order);
            },
            Backing::Shared(_) => {},
        }
    }

    /// Sets the elements to those of `data`, which are as many as the
    /// record has. The metadata and the count stay as they are.
    pub fn copy_from_slice(&mut self, data: &[D])
        requires
            old(self).wf(),
            old(self).region.writable(),
            data@.len() == old(self)@.data.len(),
        ensures
            final(self).wf(),
            final(self)@ == (Record { metadata: old(self)@.metadata, data: data@ }),
            final(self).region.bytes() == data_image::<M, D>(
                old(self).region.bytes(),
                old(self).region.address as int,
                data@,
                old(self).region.order,
            ),
            final(self).region.address == old(self).region.address,
            final(self).region.order == old(self).region.order,
            old(self).region.backing matches Backing::Exclusive(before)
                && final(self).region.backing matches Backing::Exclusive(after)
                && final(before)@ == final(after)@,
    {
        proof {
            lemma_copy_from_slice::<M, D>(
                self.region.bytes(),
                self.region.address as int,
                data@,
                self.region.order,
            );
        }
        let start: usize = self.data_start();
        let order: ByteOrder = self.region.order;
        match &mut self.region.backing {
            Backing::Exclusive(bytes) => {
                store_all::<D>(bytes, start, data, order);
            },
            Backing::Shared(_) => {},
        }
    }

    /// Returns the number of elements.
    pub fn len(&self) -> (length: usize)
        requires
            self.wf(),
        ensures
            length == self@.data.len(),
    {
        proof {
            lemma_layout_order::<M, D>(self.region.address as int);
        }
        usize::load(self.region.as_bytes(), locate_length::<M>(), self.region.order)
    }

    /// Returns `true` if the record has no elements.
    pub fn is_empty(&self) -> (empty: bool)
        requires
            self.wf(),
        ensures
            empty == (self@.data.len() == 0),
    {
        self.len() == 0
    }

    /// Returns the elements, read from the region in their order.
    pub fn to_slice(&self) -> (elements: Vec<D>)
        requires
            self.wf(),
        ensures
            elements@ == self@.data,
    {
        let start: usize = self.data_start();
        let length: usize = self.len();
        let elements: Vec<D> = load_all::<D>(
            self.region.as_bytes(),
            start,
            length,
            self.region.order,
        );
        proof {
            assert(elements@ =~= self@.data);
        }
        elements
    }
}

} // verus!
