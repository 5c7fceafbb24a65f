use aleo_guest::key::{get_address, new_private_key};
use aleo_guest::memory::{allocate, GuestMemory};

#[test]
fn malformed_bytes_yield_zero_and_allocate_nothing() {
    let mut m = GuestMemory::new();
    let p = allocate(&mut m, 2);
    m.write_bytes(p, &vec![0xFF, 0xFE]);
    let before = m.mem_size();
    let h = get_address(&mut m, p, 2);
    assert_eq!(h, 0);
    assert_eq!(m.mem_size(), before);
}

#[test]
fn text_that_is_no_key_yields_zero_and_allocates_nothing() {
    let mut m = GuestMemory::new();
    let text = b"hello, host".to_vec();
    let p = allocate(&mut m, text.len());
    m.write_bytes(p, &text);
    let before = m.mem_size();
    let h = get_address(&mut m, p, text.len());
    assert_eq!(h, 0);
    assert_eq!(m.mem_size(), before);
}

#[test]
fn new_key_then_address_round_trip() {
    let mut m = GuestMemory::new();
    let h = new_private_key(&mut m);
    assert_ne!(h, 0);
    let key_len = (h >> 32) as usize;
    let key_ptr = (h & 0xFFFF_FFFF) as usize;
    let key = m.read_bytes(key_ptr, key_len);
    assert!(key.starts_with(b"APrivateKey1"));
    // the key text sits in guest memory; derive the matching address from it
    let h2 = get_address(&mut m, key_ptr, key_len);
    assert_ne!(h2, 0);
    let addr_len = (h2 >> 32) as usize;
    let addr_ptr = (h2 & 0xFFFF_FFFF) as usize;
    let addr = m.read_bytes(addr_ptr, addr_len);
    assert!(addr.starts_with(b"aleo1"));
    assert!(addr_len > 5);
}

#[test]
fn two_fresh_keys_differ() {
    let mut m = GuestMemory::new();
    let h1 = new_private_key(&mut m);
    let h2 = new_private_key(&mut m);
    assert_ne!(h1, 0);
    assert_ne!(h2, 0);
    let k1 = m.read_bytes((h1 & 0xFFFF_FFFF) as usize, (h1 >> 32) as usize);
    let k2 = m.read_bytes((h2 & 0xFFFF_FFFF) as usize, (h2 >> 32) as usize);
    assert_ne!(k1, k2);
}
