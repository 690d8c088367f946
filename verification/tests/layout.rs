use mbuf::layout::align;
use mbuf::layout::locate_data;
use mbuf::layout::locate_length;
use mbuf::layout::measure_header;
use mbuf::layout::measure_record;

#[test]
fn align_leaves_a_multiple_unchanged() {
    assert_eq!(align::<u8>(13), 13);
    assert_eq!(align::<u8>(0), 0);
    let quad = std::mem::align_of::<u64>();
    assert_eq!(align::<u64>(0), 0);
    assert_eq!(align::<u64>(quad), quad);
    assert_eq!(align::<u64>(5 * quad), 5 * quad);
}

#[test]
fn align_rounds_up_to_the_next_multiple() {
    let quad = std::mem::align_of::<u64>();
    assert_eq!(align::<u64>(1), quad);
    assert_eq!(align::<u64>(quad - 1), quad);
    assert_eq!(align::<u64>(quad + 1), 2 * quad);
    assert_eq!(align::<u16>(3), 4);
    assert_eq!(align::<u16>(4), 4);
    assert_eq!(align::<u32>(13), 16);
}

#[test]
fn align_is_idempotent() {
    for address in 0usize..200 {
        let once = align::<u64>(address);
        assert_eq!(align::<u64>(once), once);
        let once = align::<u16>(address);
        assert_eq!(align::<u16>(once), once);
    }
}

#[test]
fn align_gives_the_least_multiple_not_below() {
    let quad = std::mem::align_of::<u64>();
    for address in 0usize..200 {
        let aligned = align::<u64>(address);
        assert_eq!(aligned % quad, 0);
        assert!(aligned >= address);
        assert!(aligned - address < quad);
    }
}

#[test]
fn align_wraps_to_zero_past_the_last_address() {
    assert_eq!(align::<u16>(usize::MAX), 0);
    assert_eq!(align::<u16>(usize::MAX - 1), usize::MAX - 1);
    assert_eq!(align::<u8>(usize::MAX), usize::MAX);
}

#[test]
fn count_stands_behind_the_metadata() {
    let word = std::mem::size_of::<usize>();
    let word_align = std::mem::align_of::<usize>();
    assert_eq!(locate_length::<u8>(), word_align);
    assert_eq!(locate_length::<u32>(), 4usize.div_ceil(word_align) * word_align);
    assert_eq!(locate_length::<u64>(), 8);
    assert_eq!(measure_header::<u64>(), 8 + word);
    assert_eq!(measure_header::<u8>(), word_align + word);
}

#[test]
fn header_of_four_byte_metadata_on_a_64_bit_machine() {
    if std::mem::size_of::<usize>() == 8 && std::mem::align_of::<usize>() == 8 {
        assert_eq!(locate_length::<u32>(), 8);
        assert_eq!(measure_header::<u32>(), 16);
        assert_eq!(locate_data::<u32, u64>(0x1000), Some(16));
        assert_eq!(locate_data::<u32, u8>(0x1000), Some(16));
        assert_eq!(measure_record::<u32, u64>(0x1000, 2), Some(32));
        assert_eq!(measure_record::<u32, u16>(0x1000, 3), Some(22));
    }
}

#[test]
fn record_size_is_header_padding_and_elements() {
    let header = measure_header::<u16>();
    assert_eq!(measure_record::<u16, u8>(0x2000, 0), Some(header));
    assert_eq!(measure_record::<u16, u8>(0x2000, 5), Some(header + 5));
    let start = locate_data::<u16, u32>(0x2000).unwrap();
    assert_eq!(measure_record::<u16, u32>(0x2000, 5), Some(start + 20));
}

#[test]
fn record_beyond_the_last_address_has_no_size() {
    assert_eq!(measure_record::<u32, u64>(usize::MAX - 7, 0), None);
    assert_eq!(locate_data::<u32, u64>(usize::MAX - 7), None);
    assert_eq!(measure_record::<u32, u64>(0x1000, usize::MAX), None);
    assert_eq!(measure_record::<u32, u8>(0x1000, usize::MAX - 0x1000), None);
    assert_eq!(measure_record::<u32, u64>(0x1000, usize::MAX / 8), None);
}
