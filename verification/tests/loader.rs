use greep::loader::{load_plan, looks_binary, LoadPlan, Loaded, BINARY_SNIFF_BYTES, MMAP_THRESHOLD_BYTES};

#[test]
fn load_delegates_with_the_one_gibibyte_threshold() {
    assert_eq!(MMAP_THRESHOLD_BYTES, 1 << 30);
    assert_eq!(MMAP_THRESHOLD_BYTES, 1_073_741_824);
}

#[test]
fn text_is_not_binary() {
    assert!(!looks_binary(b""));
    assert!(!looks_binary(b"hello world\nsecond line\n"));
}

#[test]
fn nul_byte_marks_binary() {
    assert!(looks_binary(b"\x7fELF\x02\x01\x01\x00"));
    assert!(looks_binary(b"text then \x00 a nul"));
}

#[test]
fn nul_beyond_the_sniff_window_is_not_detected() {
    let mut buf = vec![b'a'; BINARY_SNIFF_BYTES + 100];
    buf[BINARY_SNIFF_BYTES + 50] = 0;
    assert!(!looks_binary(&buf));

    let mut buf = vec![b'a'; BINARY_SNIFF_BYTES + 100];
    buf[BINARY_SNIFF_BYTES - 1] = 0;
    assert!(looks_binary(&buf));
}

#[test]
fn a_nul_just_past_the_window_is_missed_but_one_at_its_edge_is_not() {
    let mut buf = vec![b'a'; BINARY_SNIFF_BYTES + 1];
    buf[BINARY_SNIFF_BYTES] = 0;
    assert!(!looks_binary(&buf));
    assert!(looks_binary(&buf[1..]));
}

#[test]
fn a_file_at_the_threshold_is_mapped() {
    assert_eq!(load_plan(true, 12, 12), LoadPlan::MemoryMap);
}

#[test]
fn a_file_one_byte_below_the_threshold_is_read() {
    assert_eq!(load_plan(true, 12, 13), LoadPlan::Read { capacity: 12 });
}

#[test]
fn a_special_file_is_read_whatever_size_it_reports() {
    assert_eq!(load_plan(false, 0, 1), LoadPlan::Read { capacity: 0 });
    assert_eq!(
        load_plan(false, u64::MAX, MMAP_THRESHOLD_BYTES),
        LoadPlan::Read {
            capacity: MMAP_THRESHOLD_BYTES as usize
        }
    );
}

#[test]
fn owned_contents_are_returned_as_they_are() {
    let loaded = Loaded::Owned(b"hello world\n".to_vec());
    assert_eq!(loaded.as_bytes(), b"hello world\n");
}
