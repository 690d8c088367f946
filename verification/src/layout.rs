//! Address arithmetic: rounding an address up to an alignment, and where the
//! parts of a record lie.
use vstd::arithmetic::div_mod::lemma_fundamental_div_mod;
use vstd::arithmetic::div_mod::lemma_mod_multiples_basic;
use vstd::arithmetic::power::lemma_pow_positive;
use vstd::arithmetic::power::pow;
use vstd::arithmetic::power2::is_pow2;
use vstd::arithmetic::power2::is_pow2_equiv;
use vstd::layout::align_nonzero;
use vstd::layout::align_of;
use vstd::layout::align_properties;
use vstd::layout::layout_for_type_is_valid;
use vstd::layout::layout_of_primitives;
use vstd::layout::size_of;
use vstd::layout::unsigned_int_max_values;
use vstd::prelude::*;

verus! {

/// `address` rounded up to `alignment`: `address` itself where it is a
/// multiple of `alignment`, else `address` plus what it lacks to the next one.
pub open spec fn align_up(address: int, alignment: int) -> int
    recommends
        alignment > 0,
{
    if address % alignment == 0 {
        address
    } else {
        address + (alignment - address % alignment)
    }
}

/// The number of addresses that a `usize` can hold.
pub open spec fn address_space() -> int {
    usize::MAX + 1
}

/// A rounded address is a multiple of the alignment, is not below the
/// address it was rounded from, and lies less than one alignment above it.
pub proof fn lemma_align_up_correct(address: int, alignment: int)
    requires
        alignment > 0,
    ensures
        align_up(address, alignment) % alignment == 0,
        align_up(address, alignment) >= address,
        align_up(address, alignment) - address < alignment,
{
    let r = address % alignment;
    if r != 0 {
        assert((address + (alignment - r)) % alignment == 0) by (nonlinear_arith)
            requires
                r == address % alignment,
                alignment > 0,
        ;
    }
}

/// Rounding an address that is already rounded changes nothing.
pub proof fn lemma_align_up_idempotent(address: int, alignment: int)
    requires
        alignment > 0,
    ensures
        align_up(align_up(address, alignment), alignment) == align_up(address, alignment),
{
    lemma_align_up_correct(address, alignment);
}

/// No multiple of the alignment lies between an address and its rounding:
/// the rounded address is the least multiple that is not below the address.
pub proof fn lemma_align_up_least(address: int, alignment: int, other: int)
    requires
        alignment > 0,
        other % alignment == 0,
        other >= address,
    ensures
        align_up(address, alignment) <= other,
{
    lemma_align_up_correct(address, alignment);
    let up = align_up(address, alignment);
    if other < up {
        assert(false) by (nonlinear_arith)
            requires
                alignment > 0,
                other % alignment == 0,
                up % alignment == 0,
                other < up,
                up - other < alignment,
        ;
    }
}

/// A power of two divides every power of two that is not below it.
pub proof fn lemma_pow2_divides(small: int, large: int)
    requires
        is_pow2(small),
        is_pow2(large),
        small <= large,
    ensures
        large % small == 0,
    decreases large,
{
    reveal(is_pow2);
    if small == 1 || small == large {
        assert(large % small == 0) by (nonlinear_arith)
            requires
                small == 1 || small == large,
                small > 0,
        ;
    } else {
        let half_small = small / 2;
        let half_large = large / 2;
        lemma_pow2_divides(half_small, half_large);
        let times = half_large / half_small;
        lemma_fundamental_div_mod(half_large, half_small);
        assert(large == times * small) by (nonlinear_arith)
            requires
                small == 2 * half_small,
                large == 2 * half_large,
                half_large == half_small * times,
        ;
        lemma_mod_multiples_basic(times, small);
    }
}

/// The address space is a power of two in size.
pub proof fn lemma_address_space_pow2()
    ensures
        is_pow2(address_space()),
{
    unsigned_int_max_values();
    lemma_pow_positive(2, usize::BITS as nat);
    assert(pow(2, usize::BITS as nat) == address_space());
    is_pow2_equiv(address_space());
}

/// Where rounding leaves the address space, it lands exactly on its end.
pub proof fn lemma_align_up_overflow(address: int, alignment: int)
    requires
        is_pow2(alignment),
        0 <= address < address_space(),
        alignment < address_space(),
        align_up(address, alignment) >= address_space(),
    ensures
        align_up(address, alignment) == address_space(),
{
    reveal(is_pow2);
    lemma_address_space_pow2();
    lemma_pow2_divides(alignment, address_space());
    lemma_align_up_least(address, alignment, address_space());
}

/// Rounds `address` up to the alignment of `T`.
///
/// The result is the least multiple of that alignment that is not below
/// `address`. At the very top of the address space, where that multiple is
/// one past the last address, the result wraps to 0.
pub fn align<T>(address: usize) -> (aligned: usize)
    ensures
        aligned as int % (align_of::<T>() as int) == 0,
        align_up(address as int, align_of::<T>() as int) <= usize::MAX ==> {
            &&& aligned as int == align_up(address as int, align_of::<T>() as int)
            &&& address <= aligned < address + align_of::<T>()
        },
        align_up(address as int, align_of::<T>() as int) > usize::MAX ==> aligned == 0,
{
    broadcast use align_properties, align_nonzero;

    let align_size: usize = std::mem::align_of::<T>();
    let remainder: usize = address % align_size;
    proof {
        lemma_align_up_correct(address as int, align_size as int);
        if align_up(address as int, align_size as int) > usize::MAX {
            lemma_align_up_overflow(address as int, align_size as int);
        }
    }
    if remainder == 0 {
        address
    } else {
        address.wrapping_add(align_size - remainder)
    }
}

/// Where the element count stands in a record with metadata of type `M`,
/// counted in bytes from the record's first byte: behind the metadata, at
/// the first offset that suits a `usize`.
pub open spec fn length_offset<M>() -> int {
    align_up(size_of::<M>() as int, align_of::<usize>() as int)
}

/// The size of a record's header: the offset just behind the element count.
pub open spec fn header_size<M>() -> int {
    length_offset::<M>() + size_of::<usize>()
}

/// Where the elements of a record at `address` start, counted in bytes from
/// the record's first byte: at the first address behind the header that
/// suits a `D`.
pub open spec fn data_offset<M, D>(address: int) -> int {
    align_up(address + header_size::<M>(), align_of::<D>() as int) - address
}

/// The number of bytes that a record at `address` with `length` elements
/// takes, padding included.
pub open spec fn footprint<M, D>(address: int, length: int) -> int {
    data_offset::<M, D>(address) + length * size_of::<D>()
}

/// The header is at least as large as the metadata and the element count
/// together, the count stands behind the metadata, and the elements start
/// behind the header, less than one alignment of `D` behind it.
pub proof fn lemma_layout_order<M, D>(address: int)
    ensures
        size_of::<M>() <= length_offset::<M>(),
        length_offset::<M>() % (align_of::<usize>() as int) == 0,
        length_offset::<M>() + size_of::<usize>() == header_size::<M>(),
        header_size::<M>() <= data_offset::<M, D>(address),
        data_offset::<M, D>(address) - header_size::<M>() < align_of::<D>(),
        (address + data_offset::<M, D>(address)) % (align_of::<D>() as int) == 0,
{
    broadcast use align_properties, align_nonzero;

    lemma_align_up_correct(size_of::<M>() as int, align_of::<usize>() as int);
    lemma_align_up_correct(address + header_size::<M>(), align_of::<D>() as int);
}

/// The offset of the element count in a record with metadata of type `M`.
pub fn locate_length<M>() -> (offset: usize)
    ensures
        offset as int == length_offset::<M>(),
{
    broadcast use align_properties, align_nonzero;

    layout_for_type_is_valid::<M>();
    layout_for_type_is_valid::<usize>();
    let size: usize = std::mem::size_of::<M>();
    proof {
        lemma_usize_layout();
        lemma_align_up_correct(size as int, align_of::<usize>() as int);
    }
    align::<usize>(size)
}

/// The size of the header of a record with metadata of type `M`.
pub fn measure_header<M>() -> (size: usize)
    ensures
        size as int == header_size::<M>(),
{
    broadcast use align_properties, align_nonzero;

    layout_for_type_is_valid::<M>();
    proof {
        lemma_usize_layout();
        lemma_align_up_correct(size_of::<M>() as int, align_of::<usize>() as int);
    }
    locate_length::<M>() + std::mem::size_of::<usize>()
}

/// The offset at which the elements of a record at `address` start, or
/// `None` where that lies beyond the last address.
pub fn locate_data<M, D>(address: usize) -> (offset: Option<usize>)
    ensures
        offset == if address + data_offset::<M, D>(address as int) <= usize::MAX {
            Some(data_offset::<M, D>(address as int) as usize)
        } else {
            None
        },
{
    broadcast use align_properties, align_nonzero;

    proof {
        lemma_layout_order::<M, D>(address as int);
    }
    match address.checked_add(measure_header::<M>()) {
        None => None,
        Some(header_end) => {
            let start: usize = align::<D>(header_end);
            if start < header_end {
                None
            } else {
                Some(start - address)
            }
        },
    }
}

/// The number of bytes that a record at `address` with `length` elements
/// takes, or `None` where the record would reach beyond the last address.
pub fn measure_record<M, D>(address: usize, length: usize) -> (size: Option<usize>)
    ensures
        size == if address + footprint::<M, D>(address as int, length as int) <= usize::MAX {
            Some(footprint::<M, D>(address as int, length as int) as usize)
        } else {
            None
        },
{
    proof {
        lemma_layout_order::<M, D>(address as int);
        assert(length * size_of::<D>() >= 0) by (nonlinear_arith);
    }
    let start: usize = match locate_data::<M, D>(address) {
        None => { return None; },
        Some(start) => start,
    };
    let run: usize = match length.checked_mul(std::mem::size_of::<D>()) {
        None => { return None; },
        Some(run) => run,
    };
    match start.checked_add(run) {
        None => None,
        Some(size) => if size <= usize::MAX - address {
            Some(size)
        } else {
            None
        },
    }
}

/// A `usize` is at most eight bytes large, and its alignment is at most its size.
pub proof fn lemma_usize_layout()
    ensures
        0 < align_of::<usize>() <= size_of::<usize>() <= 8,
{
    broadcast use align_properties, align_nonzero, layout_of_primitives;

    assert(align_of::<usize>() <= size_of::<usize>()) by (nonlinear_arith)
        requires
            size_of::<usize>() % align_of::<usize>() == 0,
            size_of::<usize>() > 0,
            align_of::<usize>() > 0,
    ;
}

} // verus!
