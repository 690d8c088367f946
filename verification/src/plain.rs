//! Values that can be kept in raw memory: each has a fixed run of bytes.
use crate::bytes::int_bytes;
use crate::bytes::int_value;
use crate::bytes::lemma_int_round_trip;
use crate::bytes::lemma_int_value_bound;
use crate::bytes::lemma_span_values;
use crate::bytes::lemma_splice;
use crate::bytes::lemma_splice_extend;
use crate::bytes::load_uint;
use crate::bytes::span;
use crate::bytes::splice;
use crate::bytes::store_uint;
use crate::bytes::ByteOrder;
use vstd::arithmetic::power2::lemma2_to64;
use vstd::layout::size_of;
use vstd::layout::unsigned_int_max_values;
use vstd::prelude::*;

verus! {

/// A copyable value with a fixed representation in memory: as many bytes as
/// its type is large, from which the value can be read back.
pub trait Plain: Copy + Sized {
    /// The bytes that hold `self` on a machine of the given byte order.
    spec fn encode(self, order: ByteOrder) -> Seq<u8>;

    /// The value that `bytes` hold on a machine of the given byte order.
    spec fn decode(bytes: Seq<u8>, order: ByteOrder) -> Self;

    /// A value takes as many bytes as its type is large, and reading them
    /// back gives the value.
    proof fn lemma_round_trip(self, order: ByteOrder)
        ensures
            self.encode(order).len() == size_of::<Self>(),
            Self::decode(self.encode(order), order) == self,
    ;

    /// Writes `self` into `out` from index `at` on and leaves every other
    /// byte as it was.
    fn store(self, out: &mut [u8], at: usize, order: ByteOrder)
        requires
            at + size_of::<Self>() <= old(out)@.len(),
        ensures
            final(out)@ == splice(old(out)@, at as int, self.encode(order)),
            final(out)@.len() == old(out)@.len(),
    ;

    /// Reads the value that `bytes` hold from index `at` on.
    fn load(bytes: &[u8], at: usize, order: ByteOrder) -> (value: Self)
        requires
            at + size_of::<Self>() <= bytes@.len(),
        ensures
            value == Self::decode(bytes@.subrange(at as int, at + size_of::<Self>()), order),
    ;
}

impl Plain for u8 {
    open spec fn encode(self, order: ByteOrder) -> Seq<u8> {
        int_bytes(self as nat, 1, order)
    }

    open spec fn decode(bytes: Seq<u8>, order: ByteOrder) -> Self {
        int_value(bytes, order) as u8
    }

    proof fn lemma_round_trip(self, order: ByteOrder) {
        lemma_span_values();
        lemma_int_round_trip(self as nat, 1, order);
    }

    fn store(self, out: &mut [u8], at: usize, order: ByteOrder) {
        store_uint(out, at, 1, self as u64, order);
    }

    fn load(bytes: &[u8], at: usize, order: ByteOrder) -> (value: Self) {
        proof {
            lemma_span_values();
            lemma_int_value_bound(bytes@.subrange(at as int, at + 1), order);
        }
        load_uint(bytes, at, 1, order) as u8
    }
}

impl Plain for u16 {
    open spec fn encode(self, order: ByteOrder) -> Seq<u8> {
        int_bytes(self as nat, 2, order)
    }

    open spec fn decode(bytes: Seq<u8>, order: ByteOrder) -> Self {
        int_value(bytes, order) as u16
    }

    proof fn lemma_round_trip(self, order: ByteOrder) {
        lemma_span_values();
        lemma_int_round_trip(self as nat, 2, order);
    }

    fn store(self, out: &mut [u8], at: usize, order: ByteOrder) {
        store_uint(out, at, 2, self as u64, order);
    }

    fn load(bytes: &[u8], at: usize, order: ByteOrder) -> (value: Self) {
        proof {
            lemma_span_values();
            lemma_int_value_bound(bytes@.subrange(at as int, at + 2), order);
        }
        load_uint(bytes, at, 2, order) as u16
    }
}

impl Plain for u32 {
    open spec fn encode(self, order: ByteOrder) -> Seq<u8> {
        int_bytes(self as nat, 4, order)
    }

    open spec fn decode(bytes: Seq<u8>, order: ByteOrder) -> Self {
        int_value(bytes, order) as u32
    }

    proof fn lemma_round_trip(self, order: ByteOrder) {
        lemma_span_values();
        lemma_int_round_trip(self as nat, 4, order);
    }

    fn store(self, out: &mut [u8], at: usize, order: ByteOrder) {
        store_uint(out, at, 4, self as u64, order);
    }

    fn load(bytes: &[u8], at: usize, order: ByteOrder) -> (value: Self) {
        proof {
            lemma_span_values();
            lemma_int_value_bound(bytes@.subrange(at as int, at + 4), order);
        }
        load_uint(bytes, at, 4, order) as u32
    }
}

impl Plain for u64 {
    open spec fn encode(self, order: ByteOrder) -> Seq<u8> {
        int_bytes(self as nat, 8, order)
    }

    open spec fn decode(bytes: Seq<u8>, order: ByteOrder) -> Self {
        int_value(bytes, order) as u64
    }

    proof fn lemma_round_trip(self, order: ByteOrder) {
        lemma_span_values();
        lemma_int_round_trip(self as nat, 8, order);
    }

    fn store(self, out: &mut [u8], at: usize, order: ByteOrder) {
        store_uint(out, at, 8, self, order);
    }

    fn load(bytes: &[u8], at: usize, order: ByteOrder) -> (value: Self) {
        load_uint(bytes, at, 8, order)
    }
}

/// A `usize` is four or eight bytes wide, and its largest value is the
/// largest that those bytes can hold.
pub proof fn lemma_usize_width()
    ensures
        size_of::<usize>() == 4 || size_of::<usize>() == 8,
        usize::MAX + 1 == span(size_of::<usize>()),
{
    unsigned_int_max_values();
    lemma2_to64();
    lemma_span_values();
}

impl Plain for usize {
    open spec fn encode(self, order: ByteOrder) -> Seq<u8> {
        int_bytes(self as nat, size_of::<usize>(), order)
    }

    open spec fn decode(bytes: Seq<u8>, order: ByteOrder) -> Self {
        int_value(bytes, order) as usize
    }

    proof fn lemma_round_trip(self, order: ByteOrder) {
        lemma_usize_width();
        lemma_int_round_trip(self as nat, size_of::<usize>(), order);
    }

    fn store(self, out: &mut [u8], at: usize, order: ByteOrder) {
        let width: usize = std::mem::size_of::<usize>();
        store_uint(out, at, width, self as u64, order);
    }

    fn load(bytes: &[u8], at: usize, order: ByteOrder) -> (value: Self) {
        let width: usize = std::mem::size_of::<usize>();
        proof {
            lemma_usize_width();
            lemma_int_value_bound(bytes@.subrange(at as int, at + width), order);
        }
        load_uint(bytes, at, width, order) as usize
    }
}

/// The bytes of `data`, element behind element.
pub open spec fn encode_all<D: Plain>(data: Seq<D>, order: ByteOrder) -> Seq<u8>
    decreases data.len(),
{
    if data.len() == 0 {
        Seq::empty()
    } else {
        encode_all(data.drop_last(), order) + data.last().encode(order)
    }
}

/// The `count` values that stand one behind the other in `bytes` from
/// index `at` on.
pub open spec fn decode_all<D: Plain>(bytes: Seq<u8>, at: int, count: nat, order: ByteOrder) -> Seq<
    D,
> {
    Seq::new(
        count,
        |index: int|
            D::decode(
                bytes.subrange(at + index * size_of::<D>(), at + (index + 1) * size_of::<D>()),
                order,
            ),
    )
}

/// The bytes of a run of elements are as many as the elements times the
/// size of one.
pub proof fn lemma_encode_all_len<D: Plain>(data: Seq<D>, order: ByteOrder)
    ensures
        encode_all(data, order).len() == data.len() * size_of::<D>(),
    decreases data.len(),
{
    let width = size_of::<D>() as int;
    if data.len() > 0 {
        lemma_encode_all_len(data.drop_last(), order);
        data.last().lemma_round_trip(order);
        assert((data.len() - 1) * width + width == data.len() * width) by (nonlinear_arith);
    } else {
        assert(0 * width == 0);
    }
}

/// In the bytes of a run of elements, each element's bytes stand at its
/// index times the size of one.
pub proof fn lemma_encode_all_element<D: Plain>(data: Seq<D>, order: ByteOrder, index: int)
    requires
        0 <= index < data.len(),
    ensures
        (index + 1) * size_of::<D>() <= encode_all(data, order).len(),
        encode_all(data, order).subrange(index * size_of::<D>(), (index + 1) * size_of::<D>())
            == data[index].encode(order),
    decreases data.len(),
{
    let width = size_of::<D>() as int;
    let front = data.drop_last();
    lemma_encode_all_len(data, order);
    lemma_encode_all_len(front, order);
    data.last().lemma_round_trip(order);
    assert(0 <= index * width && (index + 1) * width == index * width + width && (index + 1)
        * width <= data.len() * width) by (nonlinear_arith)
        requires
            0 <= index < data.len(),
            0 <= width,
    ;
    if index == data.len() - 1 {
        assert(encode_all(data, order).subrange(index * width, (index + 1) * width)
            =~= data[index].encode(order));
    } else {
        lemma_encode_all_element(front, order, index);
        assert((index + 1) * width <= front.len() * width) by (nonlinear_arith)
            requires
                0 <= index + 1 <= front.len(),
                0 <= width,
        ;
        assert(encode_all(data, order).subrange(index * width, (index + 1) * width)
            =~= encode_all(front, order).subrange(index * width, (index + 1) * width));
    }
}

/// Reading back the bytes of a run of values gives the values, wherever in
/// a longer run of bytes they stand.
pub proof fn lemma_decode_encode_all<D: Plain>(
    whole: Seq<u8>,
    at: int,
    data: Seq<D>,
    order: ByteOrder,
)
    requires
        0 <= at,
        at + data.len() * size_of::<D>() <= whole.len(),
    ensures
        decode_all::<D>(splice(whole, at, encode_all(data, order)), at, data.len(), order) == data,
{
    let width = size_of::<D>() as int;
    let run = encode_all(data, order);
    let image = splice(whole, at, run);
    lemma_encode_all_len(data, order);
    lemma_splice(whole, at, run);
    let back = decode_all::<D>(image, at, data.len(), order);
    assert forall|index: int| 0 <= index < data.len() implies back[index] == data[index] by {
        lemma_encode_all_element(data, order, index);
        data[index].lemma_round_trip(order);
        assert(0 <= index * width && (index + 1) * width == index * width + width && (index + 1)
            * width <= data.len() * width) by (nonlinear_arith)
            requires
                0 <= index < data.len(),
                0 <= width,
        ;
        assert(image.subrange(at + index * width, at + (index + 1) * width) =~= run.subrange(
            index * width,
            (index + 1) * width,
        ));
    }
    assert(back =~= data);
}

/// Writes the values of `data` into `out`, one behind the other from index
/// `at` on, and leaves every other byte as it was.
pub fn store_all<D: Plain>(out: &mut [u8], at: usize, data: &[D], order: ByteOrder)
    requires
        at + data@.len() * size_of::<D>() <= old(out)@.len(),
    ensures
        final(out)@ == splice(old(out)@, at as int, encode_all(data@, order)),
        final(out)@.len() == old(out)@.len(),
{
    let ghost before = out@;
    let width: usize = std::mem::size_of::<D>();
    let count: usize = data.len();
    assert(out.len() <= usize::MAX);
    let mut index: usize = 0;
    proof {
        assert(data@.take(0) =~= Seq::<D>::empty());
        assert(out@ =~= splice(before, at as int, Seq::<u8>::empty()));
    }
    while index < count
        invariant
            index <= count == data@.len(),
            width == size_of::<D>(),
            before.len() <= usize::MAX,
            at + count * width <= before.len(),
            out@.len() == before.len(),
            out@ == splice(before, at as int, encode_all(data@.take(index as int), order)),
        decreases count - index,
    {
        let value: D = data[index];
        proof {
            let done = data@.take(index as int);
            let next = data@.take(index + 1);
            assert(next.drop_last() =~= done);
            assert(next.last() == value);
            lemma_encode_all_len(done, order);
            lemma_encode_all_len(next, order);
            value.lemma_round_trip(order);
            assert(index * width + width == (index + 1) * width && (index + 1) * width <= count
                * width) by (nonlinear_arith)
                requires
                    index < count,
            ;
            lemma_splice(before, at as int, encode_all(done, order));
            lemma_splice_extend(before, at as int, encode_all(done, order), value.encode(order));
        }
        value.store(out, at + index * width, order);
        index = index + 1;
    }
    proof {
        assert(data@.take(count as int) =~= data@);
    }
}

/// Reads the `count` values that stand one behind the other in `bytes` from
/// index `at` on.
pub fn load_all<D: Plain>(bytes: &[u8], at: usize, count: usize, order: ByteOrder) -> (values: Vec<D>)
    requires
        at + count * size_of::<D>() <= bytes@.len(),
    ensures
        values@ == decode_all::<D>(bytes@, at as int, count as nat, order),
{
    let width: usize = std::mem::size_of::<D>();
    assert(bytes.len() <= usize::MAX);
    let mut values: Vec<D> = Vec::new();
    let mut index: usize = 0;
    while index < count
        invariant
            index <= count,
            width == size_of::<D>(),
            at + count * width <= bytes@.len() <= usize::MAX,
            values@ == decode_all::<D>(bytes@, at as int, index as nat, order),
        decreases count - index,
    {
        proof {
            assert(index * width + width == (index + 1) * width && (index + 1) * width <= count
                * width) by (nonlinear_arith)
                requires
                    index < count,
            ;
        }
        let value: D = D::load(bytes, at + index * width, order);
        values.push(value);
        index = index + 1;
        proof {
            assert(values@ =~= decode_all::<D>(bytes@, at as int, index as nat, order));
        }
    }
    values
}

} // verus!
