use pomelo::kmm::{FromUnsafeData, MemoryBlockHeaderPtr, MemoryRegion, UnsafeData, KMM};
use pomelo::le::{read_word, write_word};
use pomelo::memory::{
    read_u16, read_u32, read_u64, read_u8, write_pages, write_u16, write_u32, write_u64, write_u8, Memory, Page, PageSlice,
    PhysicalMemory, VirtualMemory,
};

#[test]
fn physical_memory_starts_zeroed_and_reads_back_writes() {
    let mut m = PhysicalMemory::new(2);
    assert_eq!(m.size_in_pages(), 2);
    let mut buf = vec![1u8; 8];
    m.read(0x0FFC, &mut buf);
    assert_eq!(buf, vec![0u8; 8]);
    m.write(0x0FFE, &[1, 2, 3, 4]);
    let mut buf = vec![0u8; 6];
    m.read(0x0FFD, &mut buf);
    assert_eq!(buf, vec![0, 1, 2, 3, 4, 0]);
}

#[test]
fn words_are_little_endian() {
    let mut m = PhysicalMemory::new(1);
    write_u32(&mut m, 0x10, 0x1122_3344);
    assert_eq!(read_u8(&m, 0x10), 0x44);
    assert_eq!(read_u8(&m, 0x13), 0x11);
    assert_eq!(read_u32(&m, 0x10), 0x1122_3344);
    write_u8(&mut m, 0x11, 0xAA);
    assert_eq!(read_u32(&m, 0x10), 0x1122_AA44);
}

#[test]
fn word_helpers_encode_little_endian() {
    let mut v = vec![0u8; 8];
    write_word(&mut v, 4, 0xDEAD_BEEF);
    assert_eq!(v, vec![0, 0, 0, 0, 0xEF, 0xBE, 0xAD, 0xDE]);
    assert_eq!(read_word(&v, 4), 0xDEAD_BEEF);
    assert_eq!(read_word(&v, 0), 0);
}

#[test]
fn page_slice_sizes_and_reads() {
    let m = PhysicalMemory::new(3);
    let s = m.slice();
    assert_eq!(s.size_in_pages(), 3);
    assert_eq!(s.size_in_bytes(), 3 * 0x1000);
    assert_eq!(s.pages().len(), 3);
    let mut buf = vec![9u8; 4];
    s.read(0x2FFC, &mut buf);
    assert_eq!(buf, vec![0u8; 4]);
    let pages = vec![Page::zero()];
    let s2 = PageSlice::from(&pages[..]);
    assert_eq!(s2.size_in_bytes(), 0x1000);
}

#[test]
fn virtual_memory_translates_to_span_offsets() {
    let mut vm: VirtualMemory<PhysicalMemory, ()> = VirtualMemory::new();
    vm.map_memory(0x2000_0000, PhysicalMemory::new(2), ());
    vm.map_memory(0x1000_0000, PhysicalMemory::new(1), ());
    assert_eq!(vm.size_in_pages(), 0);
    vm.write(0x2000_0FFE, &[7, 8, 9, 10]);
    let mut buf = vec![0u8; 4];
    vm.read(0x2000_0FFE, &mut buf);
    assert_eq!(buf, vec![7, 8, 9, 10]);
    let mut one = vec![0u8; 1];
    vm.read(0x1000_0000, &mut one);
    assert_eq!(one, vec![0]);
    write_u32(&mut vm, 0x1000_0FFC, 0xCAFEBABE);
    assert_eq!(read_u32(&vm, 0x1000_0FFC), 0xCAFEBABE);
    assert_eq!(read_u32(&vm, 0x2000_1000), 0x0000_0A09);
}

#[test]
fn virtual_memory_replaces_a_span_at_the_same_page() {
    let mut vm: VirtualMemory<PhysicalMemory, u8> = VirtualMemory::new();
    vm.map_memory(0x4000, PhysicalMemory::new(1), 1);
    vm.write(0x4000, &[5]);
    vm.map_memory(0x4000, PhysicalMemory::new(1), 2);
    let mut b = vec![1u8];
    vm.read(0x4000, &mut b);
    assert_eq!(b, vec![0]);
}

#[test]
fn block_pointers_check_alignment_and_range() {
    assert!(MemoryBlockHeaderPtr::from_ptr(0).is_none());
    assert!(MemoryBlockHeaderPtr::from_ptr(0x0FFF).is_none());
    assert!(MemoryBlockHeaderPtr::from_ptr(0x2001).is_none());
    let p = MemoryBlockHeaderPtr::from_ptr(0x2000_0000).unwrap();
    assert_eq!(p.page_number(), 0x20000);
    assert_eq!(p.offset(5).unwrap().page_number(), 0x20005);
    assert!(p.offset(0xE0000).is_none());
    assert_eq!(p.offset(0xDFFFF).unwrap().page_number(), 0xFFFFF);
}

#[test]
fn raw_links_decode() {
    let none: Option<MemoryBlockHeaderPtr> = None;
    assert_eq!(none.into_unsafe().0, 0);
    let some = MemoryBlockHeaderPtr::from_ptr(0x3000);
    assert_eq!(some.into_unsafe().0, 0x3000);
    assert_eq!(UnsafeData::<Option<MemoryBlockHeaderPtr>>::new(0x3001).try_safe(), None);
    assert_eq!(UnsafeData::<Option<MemoryBlockHeaderPtr>>::new(0).try_safe(), Some(None));
    assert_eq!(UnsafeData::<Option<MemoryBlockHeaderPtr>>::new(0x5000).assert_safe().unwrap().page_number(), 5);
    assert_eq!(<Option<MemoryBlockHeaderPtr> as FromUnsafeData>::from_unsafe_data(0x7000).unwrap().unwrap().page_number(), 7);
}

fn kmm_over(pages: u32) -> KMM<PhysicalMemory> {
    KMM::new(PhysicalMemory::new(pages))
}

#[test]
fn allocation_takes_pages_from_the_front_of_the_first_block() {
    let mut k = kmm_over(64);
    k.init_region(MemoryRegion::App, 0x1000, 16);
    assert_eq!(k.allocate_linear(MemoryRegion::App, 4), Some(1));
    assert_eq!(k.allocate_linear(MemoryRegion::App, 4), Some(5));
    assert_eq!(k.allocate_linear(MemoryRegion::App, 9), None);
    assert_eq!(k.allocate_linear(MemoryRegion::App, 8), Some(9));
    assert_eq!(k.allocate_linear(MemoryRegion::App, 1), None);
    assert_eq!(k.allocate_linear(MemoryRegion::System, 1), None);
}

#[test]
fn the_block_header_lives_in_memory() {
    let mut k = kmm_over(64);
    k.init_region(MemoryRegion::Base, 0x2000, 10);
    assert_eq!(read_u32(k.mem(), 0x2000), 10);
    assert_eq!(read_u32(k.mem(), 0x2004), 0);
    assert_eq!(read_u32(k.mem(), 0x2008), 0);
    assert_eq!(k.allocate_linear(MemoryRegion::Base, 3), Some(2));
    assert_eq!(read_u32(k.mem(), 0x5000), 7);
}

#[test]
fn freeing_what_was_taken_restores_the_block() {
    let mut k = kmm_over(64);
    k.init_region(MemoryRegion::App, 0x1000, 16);
    assert_eq!(k.allocate_linear(MemoryRegion::App, 4), Some(1));
    k.free(MemoryRegion::App, 0x1000, 4);
    assert_eq!(read_u32(k.mem(), 0x1000), 16);
    assert_eq!(k.allocate_linear(MemoryRegion::App, 16), Some(1));
}

#[test]
fn freeing_joins_neighbours() {
    let mut k = kmm_over(64);
    k.init_region(MemoryRegion::System, 0x1000, 12);
    assert_eq!(k.allocate_linear(MemoryRegion::System, 12), Some(1));
    k.free(MemoryRegion::System, 0x5000, 2);
    k.free(MemoryRegion::System, 0x1000, 2);
    assert_eq!(read_u32(k.mem(), 0x1004), 0x5000);
    k.free(MemoryRegion::System, 0x3000, 2);
    assert_eq!(read_u32(k.mem(), 0x1000), 6);
    assert_eq!(read_u32(k.mem(), 0x1004), 0);
    assert_eq!(k.allocate_linear(MemoryRegion::System, 6), Some(1));
}

#[test]
fn regions_are_independent() {
    let mut k = kmm_over(64);
    k.init_region(MemoryRegion::App, 0x1000, 8);
    k.init_region(MemoryRegion::System, 0x9000, 8);
    k.init_region(MemoryRegion::Base, 0x11000, 8);
    assert_eq!(k.allocate_linear(MemoryRegion::System, 8), Some(9));
    assert_eq!(k.allocate_linear(MemoryRegion::App, 2), Some(1));
    assert_eq!(k.allocate_linear(MemoryRegion::Base, 8), Some(0x11));
    assert_eq!(k.allocate_linear(MemoryRegion::App, 6), Some(3));
}

#[test]
fn halfwords_and_doublewords_are_little_endian() {
    let mut m = PhysicalMemory::new(1);
    write_u16(&mut m, 0x20, 0xBEEF);
    assert_eq!(read_u8(&m, 0x20), 0xEF);
    assert_eq!(read_u16(&m, 0x20), 0xBEEF);
    write_u64(&mut m, 0x40, 0x0102_0304_0506_0708);
    assert_eq!(read_u8(&m, 0x40), 0x08);
    assert_eq!(read_u8(&m, 0x47), 0x01);
    assert_eq!(read_u64(&m, 0x40), 0x0102_0304_0506_0708);
    assert_eq!(read_u32(&m, 0x44), 0x0102_0304);
}

#[test]
fn a_write_through_the_page_slice_is_seen_by_the_memory() {
    let mut m = PhysicalMemory::new(2);
    write_pages(m.slice_mut(), 0x0FFE, &[1, 2, 3, 4]);
    let mut buf = vec![0u8; 6];
    m.read(0x0FFD, &mut buf);
    assert_eq!(buf, vec![0, 1, 2, 3, 4, 0]);
    let mut tail = vec![0u8; 2];
    m.slice().read(0x1000, &mut tail);
    assert_eq!(tail, vec![3, 4]);
}
