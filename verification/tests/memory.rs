use aleo_guest::memory::{
    allocate, dealloc, forget_buf_ptr, forget_buf_ptr_len, forget_buf_ptr_len_checked, GuestMemory,
};

#[test]
fn allocate_reserves_header_and_data() {
    let mut m = GuestMemory::new();
    let p = allocate(&mut m, 5);
    // one reserved byte at address zero, then the 8-byte header
    assert_eq!(p, 9);
    // the header records the full block size: 5 data bytes plus the header
    assert_eq!(m.region_capacity(p), 13);
    assert_eq!(m.mem_size(), 14);
}

#[test]
fn header_capacity_round_trips_for_many_sizes() {
    for n in [0usize, 1, 7, 8, 9, 255, 256, 1000, 4096] {
        let mut m = GuestMemory::new();
        let p = allocate(&mut m, n);
        assert_eq!(m.region_capacity(p), n + 8);
        dealloc(&mut m, p, 0xDEAD);
    }
}

#[test]
fn header_is_little_endian() {
    let mut m = GuestMemory::new();
    let p = allocate(&mut m, 0x1234);
    // block size 0x123C, stored little-endian in the 8 bytes before the data
    let header = m.read_bytes(p - 8, 8);
    assert_eq!(header, vec![0x3C, 0x12, 0, 0, 0, 0, 0, 0]);
}

#[test]
fn dealloc_ignores_its_length_argument() {
    let mut m = GuestMemory::new();
    let p = allocate(&mut m, 16);
    // the passed length is wildly wrong; the header decides the extent
    dealloc(&mut m, p, 999_999);
    assert_eq!(m.mem_size(), 1 + 8 + 16);
    let block = m.read_bytes(p - 8, 24);
    assert!(block.iter().all(|&b| b == 0));
}

#[test]
fn dealloc_of_null_is_a_no_op() {
    let mut m = GuestMemory::new();
    let before = m.mem_size();
    dealloc(&mut m, 0, 42);
    assert_eq!(m.mem_size(), before);
}

#[test]
fn single_dealloc_releases_whole_region_and_spares_neighbours() {
    let mut m = GuestMemory::new();
    let p1 = allocate(&mut m, 2);
    let p2 = allocate(&mut m, 3);
    m.write_bytes(p1, &vec![7, 7]);
    m.write_bytes(p2, &vec![5, 6, 8]);
    dealloc(&mut m, p1, 0);
    // the released block is scrubbed in full, header included
    let gone = m.read_bytes(p1 - 8, 10);
    assert!(gone.iter().all(|&b| b == 0));
    // the neighbouring region is untouched: header and data both survive
    assert_eq!(m.region_capacity(p2), 11);
    assert_eq!(m.read_bytes(p2, 3), vec![5, 6, 8]);
}

#[test]
fn end_to_end_allocate_write_dealloc_allocate() {
    let mut m = GuestMemory::new();
    let p = allocate(&mut m, 5);
    m.write_bytes(p, &vec![1, 2, 3, 4, 5]);
    assert_eq!(m.read_bytes(p, 5), vec![1, 2, 3, 4, 5]);
    dealloc(&mut m, p, 0);
    let q = allocate(&mut m, 3);
    assert_eq!(m.region_capacity(q), 11);
}

#[test]
fn forget_buf_ptr_capacity_equals_length() {
    let mut m = GuestMemory::new();
    let before = m.mem_size();
    let p = forget_buf_ptr(&mut m, vec![9, 8, 7]);
    // the region's capacity is exactly the buffer length: no slack bytes
    assert_eq!(m.mem_size(), before + 3);
    assert_eq!(m.read_bytes(p, 3), vec![9, 8, 7]);
}

#[test]
fn forget_buf_ptr_of_empty_buffer_adds_nothing() {
    let mut m = GuestMemory::new();
    let before = m.mem_size();
    let p = forget_buf_ptr(&mut m, Vec::new());
    assert_eq!(m.mem_size(), before);
    assert_eq!(p, before);
}

#[test]
fn packed_handle_carries_length_and_bytes() {
    let mut m = GuestMemory::new();
    let h = forget_buf_ptr_len(&mut m, vec![1, 2, 3, 4, 5]);
    let len = (h >> 32) as usize;
    let p = (h & 0xFFFF_FFFF) as usize;
    assert_eq!(len, 5);
    assert_eq!(m.read_bytes(p, 5), vec![1, 2, 3, 4, 5]);
    // the copy sits behind a header, so the one dealloc entry point frees it
    assert_eq!(m.region_capacity(p), 13);
    dealloc(&mut m, p, 0);
}

#[test]
fn zero_length_success_is_not_the_failure_sentinel() {
    let mut m = GuestMemory::new();
    let h = forget_buf_ptr_len(&mut m, Vec::new());
    assert_ne!(h, 0);
    assert_eq!(h >> 32, 0);
    assert_ne!(h & 0xFFFF_FFFF, 0);
}

#[test]
fn checked_transfer_behaves_like_unchecked_when_in_bounds() {
    let mut m = GuestMemory::new();
    let h = forget_buf_ptr_len_checked(&mut m, vec![42]);
    assert_ne!(h, 0);
    assert_eq!(h >> 32, 1);
    let p = (h & 0xFFFF_FFFF) as usize;
    assert_eq!(m.read_bytes(p, 1), vec![42]);
}
