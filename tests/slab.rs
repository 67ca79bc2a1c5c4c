use cortex_core::layout::BLOCK_SIZE;
use cortex_core::{Handle, Slab};

#[test]
fn allocate_get_deallocate_round_trip() {
    let mut slab = Slab::new(1024); // 2 blocks
    let handle = slab.allocate(b"key", b"value", 1).expect("allocation");
    let val = slab.get_value(handle).expect("get");
    assert_eq!(val, b"value");

    let (ttl, key, value) = slab.get_meta(handle).expect("meta");
    assert_eq!(ttl, 1);
    assert_eq!(key, b"key");
    assert_eq!(value, b"value");

    slab.deallocate(handle);
    // A second deallocation would be a double free, which `deallocate` refuses.
    assert!(slab.is_free(handle), "a deallocated block is free, so deallocating it again is refused");
    assert_eq!(slab.free_blocks(), slab.total_blocks());
}

#[test]
fn new_truncates_capacity_to_whole_blocks() {
    assert_eq!(Slab::new(1024).total_blocks(), 2);
    assert_eq!(Slab::new(1023).total_blocks(), 1);
    assert_eq!(Slab::new(511).total_blocks(), 0);
    assert_eq!(Slab::new(0).total_blocks(), 0);
    let slab = Slab::new(5 * BLOCK_SIZE + 100);
    assert_eq!(slab.total_blocks(), 5);
    assert_eq!(slab.free_blocks(), 5);
}

#[test]
fn first_allocations_take_blocks_in_ascending_order() {
    let mut slab = Slab::new(3 * BLOCK_SIZE);
    assert_eq!(slab.allocate(b"a", b"1", 0), Some(Handle(0)));
    assert_eq!(slab.allocate(b"b", b"2", 0), Some(Handle(1)));
    assert_eq!(slab.allocate(b"c", b"3", 0), Some(Handle(2)));
}

#[test]
fn freed_block_is_handed_out_next() {
    let mut slab = Slab::new(3 * BLOCK_SIZE);
    let a = slab.allocate(b"a", b"1", 0).unwrap();
    let _b = slab.allocate(b"b", b"2", 0).unwrap();
    slab.deallocate(a);
    assert_eq!(slab.allocate(b"c", b"3", 0), Some(a));
}

#[test]
fn round_trip_keeps_ttl_key_and_value() {
    let mut slab = Slab::new(4 * BLOCK_SIZE);
    let key: Vec<u8> = (0..=255u8).collect();
    let value: Vec<u8> = vec![0xab; 100];
    let h = slab.allocate(&key, &value, u64::MAX).unwrap();
    assert_eq!(slab.get_value(h).unwrap(), &value[..]);
    let (ttl, k, v) = slab.get_meta(h).unwrap();
    assert_eq!(ttl, u64::MAX);
    assert_eq!(k, &key[..]);
    assert_eq!(v, &value[..]);

    let h2 = slab.allocate(b"", b"", 0x0102_0304_0506_0708).unwrap();
    assert_eq!(slab.get_value(h2).unwrap(), b"");
    assert_eq!(slab.get_meta(h2).unwrap(), (0x0102_0304_0506_0708, &b""[..], &b""[..]));
    // The first record is untouched by the second.
    assert_eq!(slab.get_meta(h).unwrap().1, &key[..]);
}

#[test]
fn record_filling_the_block_exactly_fits() {
    let mut slab = Slab::new(BLOCK_SIZE);
    let key = vec![7u8; 200];
    let value = vec![9u8; BLOCK_SIZE - 12 - 200];
    let h = slab.allocate(&key, &value, 3).unwrap();
    assert_eq!(slab.get_value(h).unwrap(), &value[..]);
    assert_eq!(slab.free_blocks(), 0);
}

#[test]
fn oversize_record_is_rejected_without_change() {
    let mut slab = Slab::new(2 * BLOCK_SIZE);
    let key = vec![7u8; 200];
    let value = vec![9u8; BLOCK_SIZE - 12 - 200 + 1];
    assert_eq!(slab.allocate(&key, &value, 3), None);
    assert_eq!(slab.free_blocks(), 2);
    assert_eq!(slab.allocate(b"k", b"v", 0), Some(Handle(0)));
}

#[test]
fn over_long_fields_are_rejected() {
    let mut slab = Slab::new(2 * BLOCK_SIZE);
    let long = vec![1u8; 65536];
    assert_eq!(slab.allocate(&long, b"", 0), None);
    assert_eq!(slab.allocate(b"", &long, 0), None);
    assert_eq!(slab.free_blocks(), 2);
}

#[test]
fn allocation_after_the_last_block_fails() {
    let mut slab = Slab::new(1024);
    assert!(slab.allocate(b"a", b"1", 0).is_some());
    assert!(slab.allocate(b"b", b"2", 0).is_some());
    assert_eq!(slab.free_blocks(), 0);
    assert_eq!(slab.allocate(b"c", b"3", 0), None);
    assert_eq!(slab.free_blocks(), 0);
}

#[test]
fn empty_slab_allocates_nothing() {
    let mut slab = Slab::new(100);
    assert_eq!(slab.allocate(b"a", b"1", 0), None);
    assert_eq!(slab.get_value(Handle(0)), None);
}

#[test]
fn free_count_is_conserved() {
    let mut slab = Slab::new(4 * BLOCK_SIZE);
    let mut handles = Vec::new();
    for n in 0..3u64 {
        handles.push(slab.allocate(b"key", b"value", n).unwrap());
        assert_eq!(slab.free_blocks(), 4 - (n as usize + 1));
    }
    slab.deallocate(handles[1]);
    assert_eq!(slab.free_blocks(), 4 - 3 + 1);
}

#[test]
fn out_of_range_handles_read_nothing_and_free_nothing() {
    let mut slab = Slab::new(1024);
    let h = slab.allocate(b"key", b"value", 1).unwrap();
    for bad in [Handle(2), Handle(3), Handle(usize::MAX)] {
        assert_eq!(slab.get_value(bad), None);
        assert_eq!(slab.get_meta(bad), None);
        assert_eq!(slab.debug_dump(bad), None);
        assert!(!slab.is_free(bad));
        slab.deallocate(bad);
        assert_eq!(slab.free_blocks(), 1);
    }
    assert_eq!(slab.get_value(h).unwrap(), b"value");
}

#[test]
fn deallocated_block_is_zero() {
    let mut slab = Slab::new(1024);
    let h = slab.allocate(b"key", b"value", 0xffff).unwrap();
    slab.deallocate(h);
    let dump = slab.debug_dump(h).unwrap();
    for line in dump.lines() {
        let hex = &line[6..54];
        assert_eq!(hex, "00 ".repeat(16));
    }
    // A stale handle reads the zeroed header: an empty record.
    assert_eq!(slab.get_value(h).unwrap(), b"");
    assert_eq!(slab.get_meta(h).unwrap(), (0, &b""[..], &b""[..]));
}

#[test]
fn is_free_tracks_the_freelist() {
    let mut slab = Slab::new(1024);
    assert!(slab.is_free(Handle(0)));
    let h = slab.allocate(b"k", b"v", 0).unwrap();
    assert!(!slab.is_free(h));
    assert!(slab.is_free(Handle(1)));
    slab.deallocate(h);
    assert!(slab.is_free(h));
}

#[test]
fn debug_dump_renders_hex_and_text() {
    let mut slab = Slab::new(1024);
    let h = slab.allocate(b"key", b"value", 1).unwrap();
    let dump = slab.debug_dump(h).unwrap();
    let lines: Vec<&str> = dump.lines().collect();
    assert_eq!(lines.len(), 32);
    assert_eq!(
        lines[0],
        "0000: 01 00 00 00 00 00 00 00 03 00 05 00 6b 65 79 76  ............keyv"
    );
    assert_eq!(
        lines[1],
        "0010: 61 6c 75 65 00 00 00 00 00 00 00 00 00 00 00 00  alue............"
    );
    assert!(lines[31].starts_with("01f0: "));
    assert!(dump.ends_with("................\n"));
    assert_eq!(dump.len(), 32 * (6 + 48 + 1 + 16 + 1));
}

#[test]
fn debug_dump_shows_space_and_printables_only() {
    let mut slab = Slab::new(512);
    let h = slab.allocate(b" ~\x7f\x1f", b"\xff", 0).unwrap();
    let dump = slab.debug_dump(h).unwrap();
    let first = dump.lines().next().unwrap();
    assert_eq!(
        first,
        "0000: 00 00 00 00 00 00 00 00 04 00 01 00 20 7e 7f 1f  ............ ~.."
    );
}

#[test]
fn freed_block_stays_free_until_handed_out_again() {
    let mut slab = Slab::new(3 * BLOCK_SIZE);
    let a = slab.allocate(b"a", b"1", 0).unwrap();
    let b = slab.allocate(b"b", b"2", 0).unwrap();
    slab.deallocate(a);
    slab.deallocate(b);
    assert!(slab.is_free(a));
    let c = slab.allocate(b"c", b"3", 0).unwrap();
    assert_eq!(c, b);
    assert!(slab.is_free(a));
    assert!(!slab.is_free(b));
}
