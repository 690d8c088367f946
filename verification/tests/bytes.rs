use mbuf::bytes::load_uint;
use mbuf::bytes::store_uint;
use mbuf::bytes::ByteOrder;
use mbuf::plain::load_all;
use mbuf::plain::store_all;
use mbuf::plain::Plain;
use mbuf::region::Region;

#[test]
fn host_order_is_the_order_of_native_integers() {
    let expected = if u16::from_ne_bytes([1, 0]) == 1 {
        ByteOrder::Little
    } else {
        ByteOrder::Big
    };
    assert_eq!(ByteOrder::host(), expected);
}

#[test]
fn probe_with_low_byte_first_is_little() {
    assert_eq!(ByteOrder::from_probe([1, 0]), ByteOrder::Little);
    assert_eq!(ByteOrder::from_probe([0, 1]), ByteOrder::Big);
}

#[test]
fn store_uint_little_puts_the_low_byte_first() {
    let mut out = [0xFFu8; 6];
    store_uint(&mut out, 1, 4, 0x0102_0304, ByteOrder::Little);
    assert_eq!(out, [0xFF, 4, 3, 2, 1, 0xFF]);
}

#[test]
fn store_uint_big_puts_the_high_byte_first() {
    let mut out = [0xFFu8; 6];
    store_uint(&mut out, 1, 4, 0x0102_0304, ByteOrder::Big);
    assert_eq!(out, [0xFF, 1, 2, 3, 4, 0xFF]);
}

#[test]
fn store_uint_drops_digits_that_do_not_fit() {
    let mut out = [0u8; 2];
    store_uint(&mut out, 0, 2, 0x0102_0304, ByteOrder::Little);
    assert_eq!(out, [4, 3]);
    store_uint(&mut out, 0, 2, 0x0102_0304, ByteOrder::Big);
    assert_eq!(out, [3, 4]);
    store_uint(&mut out, 1, 0, 0x0102_0304, ByteOrder::Big);
    assert_eq!(out, [3, 4]);
}

#[test]
fn load_uint_reads_either_order() {
    let bytes = [9u8, 1, 2, 3, 4, 9];
    assert_eq!(load_uint(&bytes, 1, 4, ByteOrder::Big), 0x0102_0304);
    assert_eq!(load_uint(&bytes, 1, 4, ByteOrder::Little), 0x0403_0201);
    assert_eq!(load_uint(&bytes, 1, 0, ByteOrder::Little), 0);
    assert_eq!(load_uint(&bytes, 5, 1, ByteOrder::Big), 9);
}

#[test]
fn eight_bytes_round_trip_through_memory() {
    let mut out = [0u8; 8];
    store_uint(&mut out, 0, 8, u64::MAX - 1, ByteOrder::Big);
    assert_eq!(out, [0xFF, 0xFF, 0xFF, 0xFF, 0xFF, 0xFF, 0xFF, 0xFE]);
    assert_eq!(load_uint(&out, 0, 8, ByteOrder::Big), u64::MAX - 1);
    assert_eq!(load_uint(&out, 0, 8, ByteOrder::Little), 0xFEFF_FFFF_FFFF_FFFF);
}

#[test]
fn plain_integers_store_as_native_bytes() {
    let order = ByteOrder::host();
    let mut out = [0u8; 16];
    0xABu8.store(&mut out, 0, order);
    assert_eq!(out[0], 0xAB);
    0x1234u16.store(&mut out, 2, order);
    assert_eq!(&out[2..4], &0x1234u16.to_ne_bytes()[..]);
    0x1234_5678u32.store(&mut out, 4, order);
    assert_eq!(&out[4..8], &0x1234_5678u32.to_ne_bytes()[..]);
    0x1234_5678_9ABC_DEF0u64.store(&mut out, 8, order);
    assert_eq!(&out[8..16], &0x1234_5678_9ABC_DEF0u64.to_ne_bytes()[..]);
    assert_eq!(u8::load(&out, 0, order), 0xAB);
    assert_eq!(u16::load(&out, 2, order), 0x1234);
    assert_eq!(u32::load(&out, 4, order), 0x1234_5678);
    assert_eq!(u64::load(&out, 8, order), 0x1234_5678_9ABC_DEF0);
}

#[test]
fn plain_usize_is_as_wide_as_the_machine_word() {
    let order = ByteOrder::host();
    let word = std::mem::size_of::<usize>();
    let mut out = vec![0x77u8; word + 2];
    usize::MAX.store(&mut out, 1, order);
    assert_eq!(out[0], 0x77);
    assert_eq!(out[word + 1], 0x77);
    assert!(out[1..word + 1].iter().all(|byte| *byte == 0xFF));
    assert_eq!(usize::load(&out, 1, order), usize::MAX);
    12345usize.store(&mut out, 1, order);
    assert_eq!(&out[1..word + 1], &12345usize.to_ne_bytes()[..]);
    assert_eq!(usize::load(&out, 1, order), 12345);
}

#[test]
fn store_all_then_load_all_gives_the_values() {
    let mut out = [0xEEu8; 10];
    store_all::<u16>(&mut out, 2, &[0x0102u16, 0x0304, 0x0506], ByteOrder::Big);
    assert_eq!(out, [0xEE, 0xEE, 1, 2, 3, 4, 5, 6, 0xEE, 0xEE]);
    assert_eq!(load_all::<u16>(&out, 2, 3, ByteOrder::Big), vec![0x0102u16, 0x0304, 0x0506]);
    assert_eq!(load_all::<u16>(&out, 2, 3, ByteOrder::Little), vec![0x0201u16, 0x0403, 0x0605]);
    assert_eq!(load_all::<u16>(&out, 2, 0, ByteOrder::Little), Vec::<u16>::new());
}

#[test]
fn region_offset_moves_the_address() {
    let mut memory = vec![1u8, 2, 3, 4, 5];
    let region = Region::exclusive(&mut memory, 100, ByteOrder::Little);
    assert_eq!(region.len(), 5);
    assert!(region.is_writable());
    let moved = region.offset(2);
    assert_eq!(moved.address, 102);
    assert_eq!(moved.len(), 3);
    assert_eq!(moved.as_bytes(), &[3u8, 4, 5][..]);
    assert!(moved.is_writable());
    let frozen = moved.freeze();
    assert!(!frozen.is_writable());
    assert_eq!(frozen.address, 102);
    assert_eq!(frozen.as_bytes(), &[3u8, 4, 5][..]);
    let end = frozen.offset(3);
    assert_eq!(end.len(), 0);
    assert_eq!(end.address, 105);
}

#[test]
fn shared_region_is_not_writable() {
    let memory = vec![1u8, 2, 3];
    let region = Region::shared(&memory, 8, ByteOrder::Big);
    assert!(!region.is_writable());
    assert_eq!(region.len(), 3);
    assert_eq!(region.order, ByteOrder::Big);
    assert_eq!(region.as_bytes(), &[1u8, 2, 3][..]);
}
