use fbf_wasm_api::log::{LogResult, Logs, CAPACITY};

#[test]
fn test_append_fits_in_buffer() {
    let mut logs = Logs::new();
    let slices = logs.append(100);

    assert_eq!(slices.source_offset, 0);
    assert_eq!(logs.len(), 100);
    assert_eq!(logs.offset(), 100);
    assert_eq!(slices.first_offset, 0);
    assert_eq!(slices.first_len, 100);
    assert_eq!(slices.second_len, 0);
    assert!(slices.second_offset.is_none());
}

#[test]
fn test_append_exceeds_capacity() {
    let mut logs = Logs::new();
    let large_len = CAPACITY + 100;

    let slices = logs.append(large_len);

    assert_eq!(slices.source_offset, 100);
    assert_eq!(logs.len(), CAPACITY);
    assert_eq!(logs.offset(), 0);
    assert_eq!(slices.first_offset, 0);
    assert_eq!(slices.first_len, CAPACITY);
    assert_eq!(slices.second_len, 0);
    assert!(slices.second_offset.is_none());
}

#[test]
fn test_append_zero_length() {
    let mut logs = Logs::new();
    let slices = logs.append(0);

    assert_eq!(slices.source_offset, 0);
    assert_eq!(logs.len(), 0);
    assert_eq!(logs.offset(), 0);
    assert_eq!(slices.first_offset, 0);
    assert_eq!(slices.first_len, 0);
    assert_eq!(slices.second_len, 0);
    assert!(slices.second_offset.is_none());
}

#[test]
fn test_append_exact_capacity() {
    let mut logs = Logs::new();
    let slices = logs.append(CAPACITY);

    assert_eq!(slices.source_offset, 0);
    assert_eq!(logs.len(), CAPACITY);
    assert_eq!(logs.offset(), 0);
    assert_eq!(slices.first_offset, 0);
    assert_eq!(slices.first_len, CAPACITY);
    assert_eq!(slices.second_len, 0);
    assert!(slices.second_offset.is_none());
}

#[test]
fn test_append_multiple_operations() {
    let mut logs = Logs::new();

    let slices = logs.append(300);
    assert_eq!(slices.source_offset, 0);
    assert_eq!(logs.len(), 300);
    assert_eq!(logs.offset(), 300);
    assert_eq!(slices.first_offset, 0);
    assert_eq!(slices.first_len, 300);
    assert_eq!(slices.second_offset, None);
    assert_eq!(slices.second_len, 0);

    let slices = logs.append(200);
    assert_eq!(slices.source_offset, 0);
    assert_eq!(logs.len(), 500);
    assert_eq!(logs.offset(), 500);
    assert_eq!(slices.first_offset, 300);
    assert_eq!(slices.first_len, 200);
    assert_eq!(slices.second_offset, None);
    assert_eq!(slices.second_len, 0);

    let slices = logs.append(600); // Total would be 1100, exceeds capacity (1001)
    assert_eq!(slices.source_offset, 0);
    assert_eq!(logs.len(), CAPACITY);
    assert_eq!(logs.offset(), 99); // (500 + 600) % CAPACITY
    assert_eq!(slices.first_offset, 500);
    assert_eq!(slices.first_len, 501);
    assert_eq!(slices.second_offset, Some(0));
    assert_eq!(slices.second_len, 99);

    let slices = logs.append(100); // Total would be 1200
    assert_eq!(slices.source_offset, 0);
    assert_eq!(logs.len(), CAPACITY);
    assert_eq!(logs.offset(), 199); // (500 + 600 + 100) % CAPACITY
    assert_eq!(slices.first_offset, 99);
    assert_eq!(slices.first_len, 100);
    assert_eq!(slices.second_offset, None);
    assert_eq!(slices.second_len, 0);
}

fn read_back(logs: &Logs) -> Vec<u8> {
    let (first, first_len, second, second_len) = logs.read_ranges();
    let mut out = logs.buffer()[first..first + first_len].to_vec();
    if let Some(second) = second {
        out.extend_from_slice(&logs.buffer()[second..second + second_len]);
    }
    out
}

#[test]
fn log_keeps_the_most_recent_bytes() {
    let mut logs = Logs::new();
    let first: Vec<u8> = (0..700u32).map(|i| (i % 251) as u8).collect();
    let second: Vec<u8> = (0..600u32).map(|i| (i % 241) as u8 + 1).collect();
    logs.write(&first);
    assert_eq!(read_back(&logs), first);
    logs.write(&second);
    let mut all = first.clone();
    all.extend_from_slice(&second);
    let expected = all[all.len() - CAPACITY..].to_vec();
    assert_eq!(read_back(&logs), expected);
    assert_eq!(logs.len(), CAPACITY);
}

#[test]
fn log_result_codes() {
    assert_eq!(LogResult::from_repr(0), Some(LogResult::Success));
    assert_eq!(LogResult::from_repr(1), None);
    assert_eq!(LogResult::Success.as_usize(), 0);
}
