use mbuf::bytes::ByteOrder;
use mbuf::layout::locate_data;
use mbuf::layout::locate_length;
use mbuf::layout::measure_header;
use mbuf::mbuf::Mbuf;
use mbuf::plain::load_all;
use mbuf::plain::store_all;
use mbuf::region::Region;

const BASE: usize = 0x1000;

#[test]
fn write_then_read_two_elements() {
    let mut memory = vec![0u8; 64];
    let region = Region::exclusive(&mut memory, BASE, ByteOrder::host());
    assert!(Mbuf::<u32, u64>::room_for(&region, 2));
    let record = Mbuf::<u32, u64>::write_to_ptr_mut(region, 7u32, &[100u64, 200u64]);
    assert_eq!(record.len(), 2);
    assert_eq!(record.get_metadata(), 7);
    assert_eq!(record.to_slice(), vec![100u64, 200u64]);
    assert!(!record.is_empty());
    assert_eq!(locate_data::<u32, u64>(BASE), Some(16));
}

#[test]
fn written_bytes_are_the_native_layout() {
    let mut memory = vec![0xAAu8; 64];
    let region = Region::exclusive(&mut memory, BASE, ByteOrder::host());
    let record = Mbuf::<u32, u64>::write_to_ptr_mut(region, 7u32, &[100u64, 200u64]);
    assert_eq!(record.len(), 2);
    let word = std::mem::size_of::<usize>();
    let count_at = locate_length::<u32>();
    let data_at = locate_data::<u32, u64>(BASE).unwrap();
    assert_eq!(&memory[0..4], &7u32.to_ne_bytes()[..]);
    assert_eq!(&memory[count_at..count_at + word], &2usize.to_ne_bytes()[..]);
    assert_eq!(&memory[data_at..data_at + 8], &100u64.to_ne_bytes()[..]);
    assert_eq!(&memory[data_at + 8..data_at + 16], &200u64.to_ne_bytes()[..]);
    assert!(memory[4..count_at].iter().all(|byte| *byte == 0xAA));
    assert!(memory[count_at + word..data_at].iter().all(|byte| *byte == 0xAA));
    assert!(memory[data_at + 16..].iter().all(|byte| *byte == 0xAA));
}

#[test]
fn view_after_write_sees_the_record() {
    let mut memory = vec![0u8; 64];
    let order = ByteOrder::host();
    {
        let region = Region::exclusive(&mut memory, BASE, order);
        let written = Mbuf::<u32, u64>::write_to_ptr(region, 7u32, &[100u64, 200u64]);
        assert_eq!(written.len(), 2);
    }
    let region = Region::shared(&memory, BASE, order);
    assert!(Mbuf::<u32, u64>::holds(&region));
    let seen = Mbuf::<u32, u64>::at_ptr(region);
    assert_eq!(seen.get_metadata(), 7);
    assert_eq!(seen.len(), 2);
    assert_eq!(seen.to_slice(), vec![100u64, 200u64]);
    assert!(!seen.region.is_writable());
}

#[test]
fn view_in_the_other_byte_order_differs() {
    let mut memory = vec![0u8; 64];
    {
        let region = Region::exclusive(&mut memory, BASE, ByteOrder::Little);
        let written = Mbuf::<u32, u8>::write_to_ptr(region, 0x0102_0304u32, &[]);
        assert_eq!(written.get_metadata(), 0x0102_0304);
    }
    assert_eq!(&memory[0..4], &[4u8, 3, 2, 1][..]);
    let region = Region::shared(&memory, BASE, ByteOrder::Big);
    let seen = Mbuf::<u32, u8>::at_ptr(region);
    assert_eq!(seen.get_metadata(), 0x0403_0201);
    assert_eq!(seen.len(), 0);
}

#[test]
fn replacing_metadata_returns_the_value_before() {
    let mut memory = vec![0u8; 64];
    let region = Region::exclusive(&mut memory, BASE, ByteOrder::host());
    let mut record = Mbuf::<u32, u64>::write_to_ptr_mut(region, 7u32, &[100u64, 200u64]);
    assert_eq!(record.set_metadata(9), 7);
    assert_eq!(record.get_metadata(), 9);
    assert_eq!(record.set_metadata(11), 9);
    assert_eq!(record.get_metadata(), 11);
    assert_eq!(record.len(), 2);
    assert_eq!(record.to_slice(), vec![100u64, 200u64]);
    assert_eq!(&memory[0..4], &11u32.to_ne_bytes()[..]);
}

#[test]
fn record_without_elements_is_empty() {
    let mut memory = vec![0u8; 32];
    let region = Region::exclusive(&mut memory, BASE, ByteOrder::host());
    let record = Mbuf::<u16, u32>::write_to_ptr_mut(region, 3u16, &[]);
    assert_eq!(record.len(), 0);
    assert!(record.is_empty());
    assert_eq!(record.to_slice(), Vec::<u32>::new());
    assert_eq!(record.get_metadata(), 3);
}

#[test]
fn empty_record_fits_in_a_header() {
    let header = measure_header::<u16>();
    let mut memory = vec![0u8; header];
    let region = Region::exclusive(&mut memory, BASE, ByteOrder::host());
    assert!(Mbuf::<u16, u8>::room_for(&region, 0));
    assert!(!Mbuf::<u16, u8>::room_for(&region, 1));
    let mut record = Mbuf::<u16, u8>::write_to_ptr_mut(region, 3u16, &[]);
    assert!(record.is_empty());
    assert_eq!(record.to_slice_mut().len(), 0);
}

#[test]
fn writing_at_an_offset_is_writing_at_the_moved_address() {
    let order = ByteOrder::host();
    let mut direct = vec![0x55u8; 72];
    let mut moved = vec![0x55u8; 72];
    {
        let region = Region::exclusive(&mut direct, BASE, order);
        let record = Mbuf::<u32, u64>::write_to_offset_mut(region, 8, 7u32, &[100u64, 200u64]);
        assert_eq!(record.region.address, BASE + 8);
        assert_eq!(record.get_metadata(), 7);
        assert_eq!(record.to_slice(), vec![100u64, 200u64]);
    }
    {
        let region = Region::exclusive(&mut moved[8..], BASE + 8, order);
        let record = Mbuf::<u32, u64>::write_to_ptr_mut(region, 7u32, &[100u64, 200u64]);
        assert_eq!(record.region.address, BASE + 8);
    }
    assert_eq!(direct, moved);
    assert!(direct[..8].iter().all(|byte| *byte == 0x55));
    let at_offset = Mbuf::<u32, u64>::at_offset(Region::shared(&direct, BASE, order), 8);
    let at_start = Mbuf::<u32, u64>::at_ptr(Region::shared(&moved[8..], BASE + 8, order));
    assert_eq!(at_offset.get_metadata(), at_start.get_metadata());
    assert_eq!(at_offset.len(), at_start.len());
    assert_eq!(at_offset.to_slice(), at_start.to_slice());
    assert_eq!(at_offset.to_slice(), vec![100u64, 200u64]);
}

#[test]
fn write_to_offset_returns_a_read_only_handle() {
    let mut memory = vec![0u8; 72];
    let region = Region::exclusive(&mut memory, BASE, ByteOrder::host());
    let record = Mbuf::<u8, u16>::write_to_offset(region, 16, 200u8, &[1u16, 2, 3]);
    assert!(!record.region.is_writable());
    assert_eq!(record.get_metadata(), 200);
    assert_eq!(record.to_slice(), vec![1u16, 2, 3]);
}

#[test]
fn init_writes_the_header_only() {
    let order = ByteOrder::host();
    let mut memory = vec![0u8; 64];
    let data_at = locate_data::<u32, u16>(BASE).unwrap();
    store_all::<u16>(&mut memory, data_at, &[11u16, 22, 33], order);
    let before = memory.clone();
    let header = measure_header::<u32>();
    {
        let region = Region::exclusive(&mut memory, BASE, order);
        let record = Mbuf::<u32, u16>::init_at_ptr(region, 5u32, 3);
        assert_eq!(record.get_metadata(), 5);
        assert_eq!(record.len(), 3);
        assert_eq!(record.to_slice(), vec![11u16, 22, 33]);
    }
    assert_eq!(&memory[header..], &before[header..]);
}

#[test]
fn init_at_offset_then_fill_the_elements() {
    let order = ByteOrder::host();
    let mut memory = vec![0u8; 64];
    {
        let region = Region::exclusive(&mut memory, BASE, order);
        let mut record = Mbuf::<u64, u32>::init_at_offset(region, 8, 77u64, 2);
        assert_eq!(record.region.address, BASE + 8);
        assert_eq!(record.len(), 2);
        let run = record.to_slice_mut();
        assert_eq!(run.len(), 8);
        store_all::<u32>(run, 0, &[0xDEAD_BEEFu32, 0x0BAD_F00D], order);
        assert_eq!(record.to_slice(), vec![0xDEAD_BEEFu32, 0x0BAD_F00D]);
        assert_eq!(record.get_metadata(), 77);
    }
    let seen = Mbuf::<u64, u32>::at_offset_mut(Region::exclusive(&mut memory, BASE, order), 8);
    assert_eq!(seen.to_slice(), vec![0xDEAD_BEEFu32, 0x0BAD_F00D]);
    assert!(seen.region.is_writable());
}

#[test]
fn element_bytes_are_the_run_behind_the_header() {
    let order = ByteOrder::host();
    let mut memory = vec![0u8; 64];
    let region = Region::exclusive(&mut memory, BASE, order);
    let mut record = Mbuf::<u32, u64>::write_to_ptr_mut(region, 7u32, &[100u64, 200u64]);
    let run = record.to_slice_mut();
    assert_eq!(run.len(), 16);
    assert_eq!(load_all::<u64>(run, 0, 2, order), vec![100u64, 200u64]);
    run[..8].copy_from_slice(&300u64.to_ne_bytes());
    assert_eq!(record.to_slice(), vec![300u64, 200u64]);
    assert_eq!(record.get_metadata(), 7);
    assert_eq!(record.len(), 2);
}

#[test]
fn at_ptr_mut_changes_the_memory_in_place() {
    let order = ByteOrder::host();
    let mut memory = vec![0u8; 64];
    {
        let region = Region::exclusive(&mut memory, BASE, order);
        let written = Mbuf::<u32, u64>::write_to_ptr_mut(region, 7u32, &[1u64]);
        assert_eq!(written.len(), 1);
    }
    {
        let mut record = Mbuf::<u32, u64>::at_ptr_mut(Region::exclusive(&mut memory, BASE, order));
        assert_eq!(record.set_metadata(8), 7);
    }
    let seen = Mbuf::<u32, u64>::at_ptr(Region::shared(&memory, BASE, order));
    assert_eq!(seen.get_metadata(), 8);
    assert_eq!(seen.to_slice(), vec![1u64]);
}

#[test]
fn elements_start_at_the_next_aligned_address() {
    let order = ByteOrder::host();
    let quad = std::mem::align_of::<u64>();
    let word = std::mem::align_of::<usize>();
    let header = measure_header::<u8>();
    let address = 0x1000 + word;
    let expected = (address + header).div_ceil(quad) * quad - address;
    assert_eq!(locate_data::<u8, u64>(address), Some(expected));
    let mut memory = vec![0u8; 64];
    let region = Region::exclusive(&mut memory, address, order);
    let record = Mbuf::<u8, u64>::write_to_ptr_mut(region, 1u8, &[0x0102_0304_0506_0708u64]);
    assert_eq!(record.to_slice(), vec![0x0102_0304_0506_0708u64]);
    assert_eq!(&memory[expected..expected + 8], &0x0102_0304_0506_0708u64.to_ne_bytes()[..]);
}

#[test]
fn a_region_that_is_too_small_holds_no_record() {
    let order = ByteOrder::host();
    let mut memory = vec![0u8; 64];
    {
        let region = Region::exclusive(&mut memory, BASE, order);
        let written = Mbuf::<u32, u64>::write_to_ptr_mut(region, 7u32, &[100u64, 200u64]);
        assert_eq!(written.len(), 2);
    }
    assert!(Mbuf::<u32, u64>::holds(&Region::shared(&memory, BASE, order)));
    assert!(Mbuf::<u32, u64>::holds(&Region::shared(&memory[..32], BASE, order)));
    assert!(!Mbuf::<u32, u64>::holds(&Region::shared(&memory[..31], BASE, order)));
    assert!(!Mbuf::<u32, u64>::holds(&Region::shared(&memory[..8], BASE, order)));
    assert!(!Mbuf::<u32, u64>::holds(&Region::shared(&memory[..0], BASE, order)));
}

#[test]
fn a_misaligned_address_has_no_room() {
    let order = ByteOrder::host();
    let memory = vec![0u8; 64];
    assert!(Mbuf::<u32, u64>::room_for(&Region::shared(&memory, BASE, order), 2));
    assert!(!Mbuf::<u32, u64>::room_for(&Region::shared(&memory, BASE + 1, order), 2));
    assert!(!Mbuf::<u32, u64>::room_for(&Region::shared(&memory, BASE, order), 7));
    assert!(Mbuf::<u32, u64>::room_for(&Region::shared(&memory, BASE, order), 6));
    assert!(!Mbuf::<u32, u64>::room_for(&Region::shared(&memory, BASE, order), usize::MAX));
}

#[test]
fn a_region_beyond_the_last_address_has_no_room() {
    let memory = vec![0u8; 64];
    let region = Region {
        backing: mbuf::region::Backing::Shared(&memory),
        address: usize::MAX - 15,
        order: ByteOrder::host(),
    };
    assert!(!Mbuf::<u32, u64>::room_for(&region, 0));
    assert!(!Mbuf::<u32, u64>::holds(&region));
}

#[test]
fn get_reads_each_element() {
    let mut memory = vec![0u8; 64];
    let region = Region::exclusive(&mut memory, BASE, ByteOrder::host());
    let record = Mbuf::<u16, u32>::write_to_ptr(region, 1u16, &[10u32, 20, 30]);
    assert_eq!(record.get(0), 10);
    assert_eq!(record.get(1), 20);
    assert_eq!(record.get(2), 30);
}

#[test]
fn set_changes_one_element_in_place() {
    let order = ByteOrder::host();
    let mut memory = vec![0u8; 64];
    let data_at = locate_data::<u16, u32>(BASE).unwrap();
    {
        let region = Region::exclusive(&mut memory, BASE, order);
        let mut record = Mbuf::<u16, u32>::write_to_ptr_mut(region, 1u16, &[10u32, 20, 30]);
        record.set(1, 0x0A0B_0C0D);
        assert_eq!(record.to_slice(), vec![10u32, 0x0A0B_0C0D, 30]);
        assert_eq!(record.get_metadata(), 1);
        assert_eq!(record.len(), 3);
    }
    assert_eq!(&memory[data_at + 4..data_at + 8], &0x0A0B_0C0Du32.to_ne_bytes()[..]);
    assert_eq!(&memory[data_at..data_at + 4], &10u32.to_ne_bytes()[..]);
    assert_eq!(&memory[data_at + 8..data_at + 12], &30u32.to_ne_bytes()[..]);
}

#[test]
fn copy_from_slice_replaces_every_element() {
    let order = ByteOrder::host();
    let mut memory = vec![0u8; 64];
    {
        let region = Region::exclusive(&mut memory, BASE, order);
        let mut record = Mbuf::<u32, u64>::init_at_ptr(region, 4u32, 3);
        assert_eq!(record.to_slice(), vec![0u64, 0, 0]);
        record.copy_from_slice(&[7u64, 8, 9]);
        assert_eq!(record.to_slice(), vec![7u64, 8, 9]);
        assert_eq!(record.get_metadata(), 4);
    }
    let seen = Mbuf::<u32, u64>::at_ptr(Region::shared(&memory, BASE, order));
    assert_eq!(seen.to_slice(), vec![7u64, 8, 9]);
}
