//! Unsigned integers as runs of bytes, in either byte order.
use vstd::prelude::*;

verus! {

/// The order in which the bytes of an integer lie in memory.
#[derive(Clone, Copy, PartialEq, Eq, Debug, Structural)]
pub enum ByteOrder {
    /// Least significant byte at the lowest address.
    Little,
    /// Most significant byte at the lowest address.
    Big,
}

/// `value` with its `count` lowest base-256 digits dropped.
pub open spec fn shift(value: nat, count: nat) -> nat
    decreases count,
{
    if count == 0 {
        value
    } else {
        shift(value / 256, (count - 1) as nat)
    }
}

/// The base-256 digit of `value` at place `place`, place 0 weighing least.
pub open spec fn digit(value: nat, place: nat) -> u8 {
    (shift(value, place) % 256) as u8
}

/// The `width` lowest base-256 digits of `value`, the least first.
pub open spec fn le_digits(value: nat, width: nat) -> Seq<u8> {
    Seq::new(width, |place: int| digit(value, place as nat))
}

/// The number whose base-256 digits, the least first, are `digits`.
pub open spec fn le_value(digits: Seq<u8>) -> nat
    decreases digits.len(),
{
    if digits.len() == 0 {
        0
    } else {
        digits[0] as nat + 256 * le_value(digits.drop_first())
    }
}

/// The number of values that `width` bytes can tell apart: 256 to the `width`.
pub open spec fn span(width: nat) -> nat
    decreases width,
{
    if width == 0 {
        1
    } else {
        256 * span((width - 1) as nat)
    }
}

/// The `width` bytes that hold `value` in the given order. A value that
/// does not fit loses its high digits.
pub open spec fn int_bytes(value: nat, width: nat, order: ByteOrder) -> Seq<u8> {
    match order {
        ByteOrder::Little => le_digits(value, width),
        ByteOrder::Big => le_digits(value, width).reverse(),
    }
}

/// The number that `bytes` hold in the given order.
pub open spec fn int_value(bytes: Seq<u8>, order: ByteOrder) -> nat {
    match order {
        ByteOrder::Little => le_value(bytes),
        ByteOrder::Big => le_value(bytes.reverse()),
    }
}

/// `whole` with the bytes from index `at` on replaced by `part`.
pub open spec fn splice(whole: Seq<u8>, at: int, part: Seq<u8>) -> Seq<u8>
    recommends
        0 <= at,
        at + part.len() <= whole.len(),
{
    whole.subrange(0, at) + part + whole.subrange(at + part.len(), whole.len() as int)
}

/// Replacing bytes keeps the length, gives the new bytes where they were
/// put, and keeps the old ones before and behind them.
pub proof fn lemma_splice(whole: Seq<u8>, at: int, part: Seq<u8>)
    requires
        0 <= at,
        at + part.len() <= whole.len(),
    ensures
        splice(whole, at, part).len() == whole.len(),
        splice(whole, at, part).subrange(at, at + part.len()) == part,
        forall|from: int, to: int|
            0 <= from <= to <= at ==> #[trigger] splice(whole, at, part).subrange(from, to)
                == whole.subrange(from, to),
        forall|from: int, to: int|
            at + part.len() <= from <= to <= whole.len() ==> #[trigger] splice(
                whole,
                at,
                part,
            ).subrange(from, to) == whole.subrange(from, to),
{
    let spliced = splice(whole, at, part);
    assert(spliced.subrange(at, at + part.len()) =~= part);
    assert forall|from: int, to: int| 0 <= from <= to <= at implies #[trigger] spliced.subrange(
        from,
        to,
    ) == whole.subrange(from, to) by {
        assert(spliced.subrange(from, to) =~= whole.subrange(from, to));
    }
    assert forall|from: int, to: int|
        at + part.len() <= from <= to <= whole.len() implies #[trigger] spliced.subrange(from, to)
        == whole.subrange(from, to) by {
        assert(spliced.subrange(from, to) =~= whole.subrange(from, to));
    }
}

/// Replacing bytes and then the bytes right behind them is replacing both
/// runs at once.
pub proof fn lemma_splice_extend(whole: Seq<u8>, at: int, first: Seq<u8>, second: Seq<u8>)
    requires
        0 <= at,
        at + first.len() + second.len() <= whole.len(),
    ensures
        splice(splice(whole, at, first), at + first.len(), second) == splice(
            whole,
            at,
            first + second,
        ),
{
    assert(splice(splice(whole, at, first), at + first.len(), second) =~= splice(
        whole,
        at,
        first + second,
    ));
}

/// Dropping one more digit is dividing once more by 256.
pub proof fn lemma_shift_step(value: nat, count: nat)
    ensures
        shift(value, count + 1) == shift(value, count) / 256,
    decreases count,
{
    reveal_with_fuel(shift, 2);
    if count > 0 {
        lemma_shift_step(value / 256, (count - 1) as nat);
        assert(shift(value, count + 1) == shift(value / 256, count));
    }
}

/// The spans of the widths up to eight bytes.
pub proof fn lemma_span_values()
    ensures
        span(0) == 1,
        span(1) == 0x100,
        span(2) == 0x1_0000,
        span(3) == 0x100_0000,
        span(4) == 0x1_0000_0000,
        span(5) == 0x100_0000_0000,
        span(6) == 0x1_0000_0000_0000,
        span(7) == 0x100_0000_0000_0000,
        span(8) == 0x1_0000_0000_0000_0000,
{
    reveal_with_fuel(span, 9);
}

/// A run of digits holds a number below the span of its length.
pub proof fn lemma_le_value_bound(digits: Seq<u8>)
    ensures
        le_value(digits) < span(digits.len()),
    decreases digits.len(),
{
    if digits.len() > 0 {
        lemma_le_value_bound(digits.drop_first());
    }
}

/// Reading back the digits of a value that fits in them gives the value.
pub proof fn lemma_le_round_trip(value: nat, width: nat)
    requires
        value < span(width),
    ensures
        le_digits(value, width).len() == width,
        le_value(le_digits(value, width)) == value,
    decreases width,
{
    if width > 0 {
        let digits = le_digits(value, width);
        let rest = le_digits(value / 256, (width - 1) as nat);
        assert(digits.drop_first() =~= rest) by {
            assert forall|place: int| 0 <= place < width - 1 implies digits.drop_first()[place]
                == rest[place] by {
                assert(shift(value, (place + 1) as nat) == shift(value / 256, place as nat));
            }
        }
        lemma_le_round_trip(value / 256, (width - 1) as nat);
    }
}

/// Writing a value that fits in `width` bytes and reading the bytes back in
/// the same order gives the value, in either order.
pub proof fn lemma_int_round_trip(value: nat, width: nat, order: ByteOrder)
    requires
        value < span(width),
    ensures
        int_bytes(value, width, order).len() == width,
        int_value(int_bytes(value, width, order), order) == value,
{
    lemma_le_round_trip(value, width);
    let digits = le_digits(value, width);
    assert(digits.reverse().reverse() =~= digits);
}

/// What `bytes` hold in either order is below the span of their number.
pub proof fn lemma_int_value_bound(bytes: Seq<u8>, order: ByteOrder)
    ensures
        int_value(bytes, order) < span(bytes.len()),
{
    lemma_le_value_bound(bytes);
    lemma_le_value_bound(bytes.reverse());
}

/// `u16::to_ne_bytes`: the two bytes of `value` as this machine lays them
/// out in memory, which is the low byte first or the high byte first.
#[verifier::external_body]
fn native_u16(value: u16) -> (bytes: [u8; 2])
    ensures
        bytes@ == int_bytes(value as nat, 2, ByteOrder::Little) || bytes@ == int_bytes(
            value as nat,
            2,
            ByteOrder::Big,
        ),
{
    value.to_ne_bytes()
}

impl ByteOrder {
    /// The order in which a machine lays out integers, told from the two
    /// bytes that it makes of the number one.
    pub fn from_probe(probe: [u8; 2]) -> (order: ByteOrder)
        ensures
            order == if probe@[0] == 1 {
                ByteOrder::Little
            } else {
                ByteOrder::Big
            },
    {
        if probe[0] == 1 {
            ByteOrder::Little
        } else {
            ByteOrder::Big
        }
    }

    /// The byte order of the machine that runs this code.
    pub fn host() -> (order: ByteOrder) {
        ByteOrder::from_probe(native_u16(1))
    }
}

/// Writes `value` into the `width` bytes of `out` from index `at` on, in
/// the given order, and leaves every other byte as it was.
pub fn store_uint(out: &mut [u8], at: usize, width: usize, value: u64, order: ByteOrder)
    requires
        at + width <= old(out)@.len(),
    ensures
        final(out)@ == splice(old(out)@, at as int, int_bytes(value as nat, width as nat, order)),
        final(out)@.len() == old(out)@.len(),
{
    let ghost before = out@;
    let ghost digits = le_digits(value as nat, width as nat);
    assert(out.len() <= usize::MAX);
    let mut rest: u64 = value;
    let mut place: usize = 0;
    while place < width
        invariant
            place <= width,
            at + width <= out@.len(),
            out@.len() == before.len() <= usize::MAX,
            rest as nat == shift(value as nat, place as nat),
            forall|j: int| 0 <= j < before.len() && !(at <= j < at + width) ==> out@[j] == before[j],
            digits == le_digits(value as nat, width as nat),
            order == ByteOrder::Little ==> forall|j: int|
                0 <= j < place ==> out@[at + j] == #[trigger] digits[j],
            order == ByteOrder::Big ==> forall|j: int|
                0 <= j < place ==> out@[at + width - 1 - j] == #[trigger] digits[j],
        decreases width - place,
    {
        let low: u8 = (rest % 256) as u8;
        let index: usize = match order {
            ByteOrder::Little => at + place,
            ByteOrder::Big => at + (width - 1 - place),
        };
        out[index] = low;
        proof {
            lemma_shift_step(value as nat, place as nat);
        }
        rest = rest / 256;
        place = place + 1;
    }
    proof {
        let part = int_bytes(value as nat, width as nat, order);
        assert forall|j: int| 0 <= j < width implies out@[at + j] == part[j] by {
            if order == ByteOrder::Big {
                assert(part[j] == digits[width - 1 - j]);
            } else {
                assert(part[j] == digits[j]);
            }
        }
        assert(out@ =~= splice(before, at as int, part));
    }
}

/// Reads the number that the `width` bytes of `bytes` from index `at` on
/// hold in the given order.
pub fn load_uint(bytes: &[u8], at: usize, width: usize, order: ByteOrder) -> (value: u64)
    requires
        at + width <= bytes@.len(),
        width <= 8,
    ensures
        value as nat == int_value(bytes@.subrange(at as int, at + width), order),
{
    let ghost window = bytes@.subrange(at as int, at + width);
    let ghost digits = match order {
        ByteOrder::Little => window,
        ByteOrder::Big => window.reverse(),
    };
    assert(bytes.len() <= usize::MAX);
    let mut value: u64 = 0;
    let mut left: usize = width;
    proof {
        assert(digits.subrange(width as int, width as int) =~= Seq::<u8>::empty());
    }
    while left > 0
        invariant
            left <= width <= 8,
            at + width <= bytes@.len() <= usize::MAX,
            window == bytes@.subrange(at as int, at + width),
            digits == match order {
                ByteOrder::Little => window,
                ByteOrder::Big => window.reverse(),
            },
            value as nat == le_value(digits.subrange(left as int, width as int)),
        decreases left,
    {
        let index: usize = match order {
            ByteOrder::Little => at + (left - 1),
            ByteOrder::Big => at + (width - left),
        };
        let byte: u8 = bytes[index];
        proof {
            let tail = digits.subrange(left as int, width as int);
            let longer = digits.subrange(left - 1, width as int);
            assert(longer.drop_first() =~= tail);
            assert(longer[0] == byte);
            lemma_le_value_bound(tail);
            lemma_le_value_bound(longer);
            lemma_span_values();
            lemma_span_monotone(longer.len(), 8);
        }
        value = value * 256 + byte as u64;
        left = left - 1;
    }
    proof {
        assert(digits.subrange(0, width as int) =~= digits);
    }
    value
}

/// A wider run of bytes tells at least as many values apart.
pub proof fn lemma_span_monotone(narrow: nat, wide: nat)
    requires
        narrow <= wide,
    ensures
        span(narrow) <= span(wide),
    decreases wide,
{
    if narrow < wide {
        lemma_span_monotone(narrow, (wide - 1) as nat);
    }
}

} // verus!
