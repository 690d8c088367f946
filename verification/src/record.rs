//! What a record is as bytes: where its parts lie in a region and what the
//! region holds once a record has been written into it.
use crate::bytes::lemma_splice;
use crate::bytes::splice;
use crate::bytes::ByteOrder;
use crate::layout::data_offset;
use crate::layout::footprint;
use crate::layout::header_size;
use crate::layout::lemma_layout_order;
use crate::layout::length_offset;
use crate::plain::decode_all;
use crate::plain::encode_all;
use crate::plain::lemma_encode_all_element;
use crate::plain::lemma_encode_all_len;
use crate::plain::Plain;
use vstd::layout::align_of;
use vstd::layout::size_of;
use vstd::prelude::*;

verus! {

/// A record as a value: its metadata and its elements.
pub struct Record<M, D> {
    /// The metadata.
    pub metadata: M,
    /// The elements, in the order in which they lie in memory.
    pub data: Seq<D>,
}

/// Where element `index` of a record at `address` starts, counted in bytes
/// from the record's first byte.
pub open spec fn element_offset<M, D>(address: int, index: int) -> int {
    data_offset::<M, D>(address) + index * size_of::<D>()
}

/// The metadata that the bytes of a record hold.
pub open spec fn stored_metadata<M: Plain>(bytes: Seq<u8>, order: ByteOrder) -> M {
    M::decode(bytes.subrange(0, size_of::<M>() as int), order)
}

/// The element count that the bytes of a record hold.
pub open spec fn stored_len<M: Plain>(bytes: Seq<u8>, order: ByteOrder) -> usize {
    usize::decode(bytes.subrange(length_offset::<M>(), header_size::<M>()), order)
}

/// Element `index` of the record whose bytes are `bytes` and whose first
/// byte lies at `address`.
pub open spec fn stored_element<M: Plain, D: Plain>(
    bytes: Seq<u8>,
    address: int,
    order: ByteOrder,
    index: int,
) -> D {
    D::decode(
        bytes.subrange(
            element_offset::<M, D>(address, index),
            element_offset::<M, D>(address, index + 1),
        ),
        order,
    )
}

/// The elements of the record whose bytes are `bytes` and whose first byte
/// lies at `address`: as many as the count says.
pub open spec fn stored_data<M: Plain, D: Plain>(
    bytes: Seq<u8>,
    address: int,
    order: ByteOrder,
) -> Seq<D> {
    Seq::new(
        stored_len::<M>(bytes, order) as nat,
        |index: int| stored_element::<M, D>(bytes, address, order, index),
    )
}

/// The record whose bytes are `bytes` and whose first byte lies at `address`.
pub open spec fn stored_record<M: Plain, D: Plain>(
    bytes: Seq<u8>,
    address: int,
    order: ByteOrder,
) -> Record<M, D> {
    Record {
        metadata: stored_metadata::<M>(bytes, order),
        data: stored_data::<M, D>(bytes, address, order),
    }
}

/// `address` suits both parts of a header with metadata of type `M`, and
/// `bytes` are enough for the header.
pub open spec fn holds_header<M>(bytes: Seq<u8>, address: int) -> bool {
    &&& address % (align_of::<M>() as int) == 0
    &&& address % (align_of::<usize>() as int) == 0
    &&& header_size::<M>() <= bytes.len()
}

/// `bytes` can take a record of `length` elements whose first byte lies at
/// `address`.
pub open spec fn has_room<M, D>(bytes: Seq<u8>, address: int, length: int) -> bool {
    &&& holds_header::<M>(bytes, address)
    &&& footprint::<M, D>(address, length) <= bytes.len()
}

/// `bytes` hold a whole record whose first byte lies at `address`: a header,
/// and as many elements as its count says.
pub open spec fn holds_record<M: Plain, D: Plain>(
    bytes: Seq<u8>,
    address: int,
    order: ByteOrder,
) -> bool {
    has_room::<M, D>(bytes, address, stored_len::<M>(bytes, order) as int)
}

/// `bytes` once a header with `metadata` and `length` has been written at
/// their start. The padding between the two and all bytes behind the header
/// stay as they are.
pub open spec fn header_image<M: Plain>(
    bytes: Seq<u8>,
    metadata: M,
    length: usize,
    order: ByteOrder,
) -> Seq<u8> {
    splice(splice(bytes, 0, metadata.encode(order)), length_offset::<M>(), length.encode(order))
}

/// `bytes` once the bytes of `data` have been written where the elements of
/// a record at `address` lie.
pub open spec fn data_image<M: Plain, D: Plain>(
    bytes: Seq<u8>,
    address: int,
    data: Seq<D>,
    order: ByteOrder,
) -> Seq<u8> {
    splice(bytes, data_offset::<M, D>(address), encode_all(data, order))
}

/// `bytes` once a record with `metadata` and the elements `data` has been
/// written at their start, for a first byte at `address`. Padding and the
/// bytes behind the record stay as they are.
pub open spec fn record_image<M: Plain, D: Plain>(
    bytes: Seq<u8>,
    address: int,
    metadata: M,
    data: Seq<D>,
    order: ByteOrder,
) -> Seq<u8> {
    data_image::<M, D>(
        header_image::<M>(bytes, metadata, data.len() as usize, order),
        address,
        data,
        order,
    )
}

/// Elements lie one behind the other, each as large as its type, and none
/// starts before the elements do.
pub proof fn lemma_element_offsets<M, D>(address: int, index: int, length: int)
    requires
        0 <= index < length,
    ensures
        data_offset::<M, D>(address) <= element_offset::<M, D>(address, index),
        element_offset::<M, D>(address, index + 1) == element_offset::<M, D>(address, index)
            + size_of::<D>(),
        element_offset::<M, D>(address, index + 1) <= footprint::<M, D>(address, length),
{
    let width = size_of::<D>() as int;
    assert(0 <= index * width && (index + 1) * width == index * width + width && (index + 1)
        * width <= length * width) by (nonlinear_arith)
        requires
            0 <= index < length,
            0 <= width,
    ;
}

/// Once a header has been written, the bytes hold its metadata and its
/// count, and are otherwise what they were.
pub proof fn lemma_header_image<M: Plain>(
    bytes: Seq<u8>,
    address: int,
    metadata: M,
    length: usize,
    order: ByteOrder,
)
    requires
        holds_header::<M>(bytes, address),
    ensures
        header_image::<M>(bytes, metadata, length, order).len() == bytes.len(),
        holds_header::<M>(header_image::<M>(bytes, metadata, length, order), address),
        stored_metadata::<M>(header_image::<M>(bytes, metadata, length, order), order) == metadata,
        stored_len::<M>(header_image::<M>(bytes, metadata, length, order), order) == length,
        forall|from: int, to: int|
            header_size::<M>() <= from <= to <= bytes.len() ==> #[trigger] header_image::<M>(
                bytes,
                metadata,
                length,
                order,
            ).subrange(from, to) == bytes.subrange(from, to),
{
    lemma_layout_order::<M, u8>(address);
    metadata.lemma_round_trip(order);
    length.lemma_round_trip(order);
    let first = splice(bytes, 0, metadata.encode(order));
    let image = header_image::<M>(bytes, metadata, length, order);
    lemma_splice(bytes, 0, metadata.encode(order));
    lemma_splice(first, length_offset::<M>(), length.encode(order));
    assert(image.subrange(0, size_of::<M>() as int) == first.subrange(0, size_of::<M>() as int));
    assert forall|from: int, to: int|
        header_size::<M>() <= from <= to <= bytes.len() implies #[trigger] image.subrange(from, to)
        == bytes.subrange(from, to) by {
        assert(image.subrange(from, to) == first.subrange(from, to));
    }
}

/// Writing bytes where the elements lie leaves the header as it is.
pub proof fn lemma_data_image_header<M: Plain, D: Plain>(
    bytes: Seq<u8>,
    address: int,
    run: Seq<u8>,
    order: ByteOrder,
)
    requires
        holds_header::<M>(bytes, address),
        data_offset::<M, D>(address) + run.len() <= bytes.len(),
    ensures
        splice(bytes, data_offset::<M, D>(address), run).len() == bytes.len(),
        holds_header::<M>(splice(bytes, data_offset::<M, D>(address), run), address),
        stored_metadata::<M>(splice(bytes, data_offset::<M, D>(address), run), order)
            == stored_metadata::<M>(bytes, order),
        stored_len::<M>(splice(bytes, data_offset::<M, D>(address), run), order) == stored_len::<M>(
            bytes,
            order,
        ),
{
    lemma_layout_order::<M, D>(address);
    lemma_splice(bytes, data_offset::<M, D>(address), run);
}

/// Once the bytes of a run of elements have been written where the elements
/// lie, each element read back is the one written.
pub proof fn lemma_data_image_elements<M: Plain, D: Plain>(
    bytes: Seq<u8>,
    address: int,
    data: Seq<D>,
    order: ByteOrder,
)
    requires
        holds_header::<M>(bytes, address),
        footprint::<M, D>(address, data.len() as int) <= bytes.len(),
    ensures
        forall|index: int|
            0 <= index < data.len() ==> #[trigger] stored_element::<M, D>(
                data_image::<M, D>(bytes, address, data, order),
                address,
                order,
                index,
            ) == data[index],
{
    let start = data_offset::<M, D>(address);
    let width = size_of::<D>() as int;
    let run = encode_all(data, order);
    let image = data_image::<M, D>(bytes, address, data, order);
    lemma_layout_order::<M, D>(address);
    lemma_encode_all_len(data, order);
    lemma_splice(bytes, start, run);
    assert forall|index: int| 0 <= index < data.len() implies #[trigger] stored_element::<M, D>(
        image,
        address,
        order,
        index,
    ) == data[index] by {
        lemma_element_offsets::<M, D>(address, index, data.len() as int);
        lemma_encode_all_element(data, order, index);
        data[index].lemma_round_trip(order);
        let from = element_offset::<M, D>(address, index);
        let to = element_offset::<M, D>(address, index + 1);
        assert(image.subrange(from, to) =~= run.subrange(index * width, (index + 1) * width));
    }
}

/// Writing a record into bytes that have room for it and reading the bytes
/// back gives the metadata and the elements that were written, one for one.
pub proof fn lemma_write_then_view<M: Plain, D: Plain>(
    bytes: Seq<u8>,
    address: int,
    metadata: M,
    data: Seq<D>,
    order: ByteOrder,
)
    requires
        has_room::<M, D>(bytes, address, data.len() as int),
        data.len() <= usize::MAX,
    ensures
        record_image::<M, D>(bytes, address, metadata, data, order).len() == bytes.len(),
        holds_record::<M, D>(record_image::<M, D>(bytes, address, metadata, data, order), address, order),
        stored_record::<M, D>(
            record_image::<M, D>(bytes, address, metadata, data, order),
            address,
            order,
        ) == (Record { metadata, data }),
{
    let length = data.len() as usize;
    let header = header_image::<M>(bytes, metadata, length, order);
    let image = record_image::<M, D>(bytes, address, metadata, data, order);
    lemma_header_image::<M>(bytes, address, metadata, length, order);
    lemma_encode_all_len(data, order);
    lemma_data_image_header::<M, D>(header, address, encode_all(data, order), order);
    lemma_data_image_elements::<M, D>(header, address, data, order);
    assert(stored_data::<M, D>(image, address, order) =~= data);
}

/// Replacing the bytes of the elements of a record by as many others
/// leaves its metadata and its count as they are, and its elements are then
/// what the new bytes hold.
pub proof fn lemma_replace_data<M: Plain, D: Plain>(
    bytes: Seq<u8>,
    address: int,
    run: Seq<u8>,
    order: ByteOrder,
)
    requires
        holds_record::<M, D>(bytes, address, order),
        run.len() == stored_len::<M>(bytes, order) * size_of::<D>(),
    ensures
        holds_record::<M, D>(splice(bytes, data_offset::<M, D>(address), run), address, order),
        stored_record::<M, D>(splice(bytes, data_offset::<M, D>(address), run), address, order)
            == (Record {
            metadata: stored_metadata::<M>(bytes, order),
            data: decode_all::<D>(run, 0, stored_len::<M>(bytes, order) as nat, order),
        }),
{
    let start = data_offset::<M, D>(address);
    let width = size_of::<D>() as int;
    let length = stored_len::<M>(bytes, order);
    let image = splice(bytes, start, run);
    lemma_data_image_header::<M, D>(bytes, address, run, order);
    lemma_splice(bytes, start, run);
    let fresh = decode_all::<D>(run, 0, length as nat, order);
    assert forall|index: int| 0 <= index < length implies stored_element::<M, D>(
        image,
        address,
        order,
        index,
    ) == fresh[index] by {
        lemma_element_offsets::<M, D>(address, index, length as int);
        assert(0 <= index * width && (index + 1) * width == index * width + width && (index + 1)
            * width <= length * width) by (nonlinear_arith)
            requires
                0 <= index < length,
                0 <= width,
        ;
        assert(image.subrange(
            element_offset::<M, D>(address, index),
            element_offset::<M, D>(address, index + 1),
        ) =~= run.subrange(index * width, (index + 1) * width));
    }
    assert(stored_data::<M, D>(image, address, order) =~= fresh);
}

/// Writing as many elements as a record has where its elements lie leaves
/// its metadata and its count as they are, and its elements are then the
/// ones written.
pub proof fn lemma_copy_from_slice<M: Plain, D: Plain>(
    bytes: Seq<u8>,
    address: int,
    data: Seq<D>,
    order: ByteOrder,
)
    requires
        holds_record::<M, D>(bytes, address, order),
        data.len() == stored_len::<M>(bytes, order),
    ensures
        footprint::<M, D>(address, data.len() as int) <= bytes.len(),
        holds_record::<M, D>(data_image::<M, D>(bytes, address, data, order), address, order),
        stored_record::<M, D>(data_image::<M, D>(bytes, address, data, order), address, order)
            == (Record { metadata: stored_metadata::<M>(bytes, order), data }),
{
    let image = data_image::<M, D>(bytes, address, data, order);
    lemma_encode_all_len(data, order);
    lemma_data_image_header::<M, D>(bytes, address, encode_all(data, order), order);
    lemma_data_image_elements::<M, D>(bytes, address, data, order);
    assert(stored_data::<M, D>(image, address, order) =~= data);
}

/// Replacing the bytes of one element of a record leaves its metadata, its
/// count and its other elements as they are, and that element is then the
/// value written.
pub proof fn lemma_replace_element<M: Plain, D: Plain>(
    bytes: Seq<u8>,
    address: int,
    index: int,
    value: D,
    order: ByteOrder,
)
    requires
        holds_record::<M, D>(bytes, address, order),
        0 <= index < stored_len::<M>(bytes, order),
    ensures
        element_offset::<M, D>(address, index) + value.encode(order).len() <= bytes.len(),
        holds_record::<M, D>(
            splice(bytes, element_offset::<M, D>(address, index), value.encode(order)),
            address,
            order,
        ),
        stored_record::<M, D>(
            splice(bytes, element_offset::<M, D>(address, index), value.encode(order)),
            address,
            order,
        ) == (Record {
            metadata: stored_metadata::<M>(bytes, order),
            data: stored_data::<M, D>(bytes, address, order).update(index, value),
        }),
{
    let length = stored_len::<M>(bytes, order) as int;
    let at = element_offset::<M, D>(address, index);
    let part = value.encode(order);
    let image = splice(bytes, at, part);
    lemma_layout_order::<M, D>(address);
    lemma_element_offsets::<M, D>(address, index, length);
    value.lemma_round_trip(order);
    lemma_splice(bytes, at, part);
    assert(stored_len::<M>(image, order) == stored_len::<M>(bytes, order));
    let changed = stored_data::<M, D>(bytes, address, order).update(index, value);
    assert forall|other: int| 0 <= other < length implies stored_element::<M, D>(
        image,
        address,
        order,
        other,
    ) == changed[other] by {
        lemma_element_offsets::<M, D>(address, other, length);
        let width = size_of::<D>() as int;
        if other < index {
            assert((other + 1) * width <= index * width) by (nonlinear_arith)
                requires
                    other + 1 <= index,
                    0 <= width,
            ;
        } else if other > index {
            assert((index + 1) * width <= other * width) by (nonlinear_arith)
                requires
                    index + 1 <= other,
                    0 <= width,
            ;
        }
    }
    assert(stored_data::<M, D>(image, address, order) =~= changed);
}

/// Replacing the metadata of a record leaves its count and its elements as
/// they are.
pub proof fn lemma_replace_metadata<M: Plain, D: Plain>(
    bytes: Seq<u8>,
    address: int,
    metadata: M,
    order: ByteOrder,
)
    requires
        holds_record::<M, D>(bytes, address, order),
    ensures
        splice(bytes, 0, metadata.encode(order)).len() == bytes.len(),
        holds_record::<M, D>(splice(bytes, 0, metadata.encode(order)), address, order),
        stored_record::<M, D>(splice(bytes, 0, metadata.encode(order)), address, order) == (Record {
            metadata,
            data: stored_data::<M, D>(bytes, address, order),
        }),
{
    let image = splice(bytes, 0, metadata.encode(order));
    lemma_layout_order::<M, D>(address);
    metadata.lemma_round_trip(order);
    lemma_splice(bytes, 0, metadata.encode(order));
    assert(stored_len::<M>(image, order) == stored_len::<M>(bytes, order));
    assert forall|index: int| 0 <= index < stored_len::<M>(bytes, order) implies stored_element::<
        M,
        D,
    >(image, address, order, index) == stored_element::<M, D>(bytes, address, order, index) by {
        lemma_element_offsets::<M, D>(address, index, stored_len::<M>(bytes, order) as int);
    }
    assert(stored_data::<M, D>(image, address, order) =~= stored_data::<M, D>(
        bytes,
        address,
        order,
    ));
}

/// The elements of a record are the values that stand one behind the other
/// from where its elements start.
pub proof fn lemma_stored_data_is_decoded<M: Plain, D: Plain>(
    bytes: Seq<u8>,
    address: int,
    order: ByteOrder,
)
    ensures
        stored_data::<M, D>(bytes, address, order) == decode_all::<D>(
            bytes,
            data_offset::<M, D>(address),
            stored_len::<M>(bytes, order) as nat,
            order,
        ),
{
    let width = size_of::<D>() as int;
    let start = data_offset::<M, D>(address);
    let decoded = decode_all::<D>(bytes, start, stored_len::<M>(bytes, order) as nat, order);
    assert forall|index: int| 0 <= index < stored_len::<M>(bytes, order) implies stored_element::<
        M,
        D,
    >(bytes, address, order, index) == decoded[index] by {
        assert((index + 1) * width == index * width + width) by (nonlinear_arith);
    }
    assert(stored_data::<M, D>(bytes, address, order) =~= decoded);
}

/// Writing a header leaves the elements as the bytes behind it held them.
pub proof fn lemma_header_image_data<M: Plain, D: Plain>(
    bytes: Seq<u8>,
    address: int,
    metadata: M,
    length: usize,
    order: ByteOrder,
)
    requires
        has_room::<M, D>(bytes, address, length as int),
    ensures
        stored_data::<M, D>(header_image::<M>(bytes, metadata, length, order), address, order)
            == decode_all::<D>(bytes, data_offset::<M, D>(address), length as nat, order),
{
    let image = header_image::<M>(bytes, metadata, length, order);
    let start = data_offset::<M, D>(address);
    let width = size_of::<D>() as int;
    lemma_header_image::<M>(bytes, address, metadata, length, order);
    lemma_layout_order::<M, D>(address);
    lemma_stored_data_is_decoded::<M, D>(image, address, order);
    let kept = decode_all::<D>(bytes, start, length as nat, order);
    let seen = decode_all::<D>(image, start, length as nat, order);
    assert forall|index: int| 0 <= index < length implies seen[index] == kept[index] by {
        lemma_element_offsets::<M, D>(address, index, length as int);
        assert((index + 1) * width == index * width + width) by (nonlinear_arith);
        assert(image.subrange(start + index * width, start + (index + 1) * width)
            == bytes.subrange(start + index * width, start + (index + 1) * width));
    }
    assert(seen =~= kept);
}

/// Replacing the metadata twice leaves the second value in place, and
/// after the first replacement the metadata is the first value: what the
/// second replacement finds is what the first one put.
pub proof fn lemma_replace_metadata_twice<M: Plain, D: Plain>(
    bytes: Seq<u8>,
    address: int,
    first: M,
    second: M,
    order: ByteOrder,
)
    requires
        holds_record::<M, D>(bytes, address, order),
    ensures
        stored_metadata::<M>(splice(bytes, 0, first.encode(order)), order) == first,
        stored_record::<M, D>(
            splice(splice(bytes, 0, first.encode(order)), 0, second.encode(order)),
            address,
            order,
        ) == (Record { metadata: second, data: stored_data::<M, D>(bytes, address, order) }),
{
    lemma_replace_metadata::<M, D>(bytes, address, first, order);
    lemma_replace_metadata::<M, D>(splice(bytes, 0, first.encode(order)), address, second, order);
}

/// A record written with no elements has the count 0 and no elements.
pub proof fn lemma_empty_record<M: Plain, D: Plain>(
    bytes: Seq<u8>,
    address: int,
    metadata: M,
    order: ByteOrder,
)
    requires
        has_room::<M, D>(bytes, address, 0),
    ensures
        stored_len::<M>(
            record_image::<M, D>(bytes, address, metadata, Seq::<D>::empty(), order),
            order,
        ) == 0,
        stored_data::<M, D>(
            record_image::<M, D>(bytes, address, metadata, Seq::<D>::empty(), order),
            address,
            order,
        ) == Seq::<D>::empty(),
{
    lemma_write_then_view::<M, D>(bytes, address, metadata, Seq::<D>::empty(), order);
    assert(stored_data::<M, D>(
        record_image::<M, D>(bytes, address, metadata, Seq::<D>::empty(), order),
        address,
        order,
    ).len() == 0);
}

/// Writing a record at byte `offset` of a region at `address` and reading
/// it there is writing it at the start of the region that begins at that
/// byte, at `address + offset`, and reading it there: the bytes from
/// `offset` on and the record read back are the same, and the bytes before
/// `offset` are untouched.
pub proof fn lemma_offset_equivalence<M: Plain, D: Plain>(
    bytes: Seq<u8>,
    address: int,
    offset: int,
    metadata: M,
    data: Seq<D>,
    order: ByteOrder,
)
    requires
        0 <= offset <= bytes.len(),
        data.len() <= usize::MAX,
        has_room::<M, D>(bytes.skip(offset), address + offset, data.len() as int),
    ensures
        (bytes.take(offset) + record_image::<M, D>(
            bytes.skip(offset),
            address + offset,
            metadata,
            data,
            order,
        )).skip(offset) == record_image::<M, D>(
            bytes.skip(offset),
            address + offset,
            metadata,
            data,
            order,
        ),
        (bytes.take(offset) + record_image::<M, D>(
            bytes.skip(offset),
            address + offset,
            metadata,
            data,
            order,
        )).take(offset) == bytes.take(offset),
        stored_record::<M, D>(
            (bytes.take(offset) + record_image::<M, D>(
                bytes.skip(offset),
                address + offset,
                metadata,
                data,
                order,
            )).skip(offset),
            address + offset,
            order,
        ) == (Record { metadata, data }),
{
    let image = record_image::<M, D>(bytes.skip(offset), address + offset, metadata, data, order);
    lemma_write_then_view::<M, D>(bytes.skip(offset), address + offset, metadata, data, order);
    assert((bytes.take(offset) + image).skip(offset) =~= image);
    assert((bytes.take(offset) + image).take(offset) =~= bytes.take(offset));
}

} // verus!
