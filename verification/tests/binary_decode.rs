use x2trace::chrome::EventType;
use x2trace::iftrace::{parse_binary_buffer, parse_binary_file, parse_binary_files, DecodeErrorKind, Warning};

fn le32(v: u32) -> [u8; 4] {
    v.to_le_bytes()
}

fn header(base_us: u64, pid: u32, tid: u32) -> Vec<u8> {
    let mut b = Vec::new();
    b.extend_from_slice(&base_us.to_le_bytes());
    b.extend_from_slice(&pid.to_le_bytes());
    b.extend_from_slice(&tid.to_le_bytes());
    b
}

/// The record word for kind `flag` and microsecond delta `d`: the decoder
/// reads the kind from the top two bits of the word less one.
fn rec(flag: u32, d: u32) -> [u8; 4] {
    if d == 0 {
        le32((flag + 1) << 30)
    } else {
        le32((flag << 30) | d)
    }
}

fn enter64(b: &mut Vec<u8>, d: u32, addr: u64) {
    b.extend_from_slice(&rec(0, d));
    b.extend_from_slice(&addr.to_le_bytes());
}

fn exit_rec(b: &mut Vec<u8>, d: u32) {
    b.extend_from_slice(&rec(2, d));
}

fn blob(b: &mut Vec<u8>, text: &str) {
    let bytes = text.as_bytes();
    b.extend_from_slice(&(bytes.len() as u32).to_le_bytes());
    b.extend_from_slice(bytes);
    let pad = (4 - bytes.len() % 4) % 4;
    for _ in 0..pad {
        b.push(0);
    }
}

#[test]
fn enter_exit_complete_event() {
    // One call entered at t=0 and left five microseconds later.
    let mut b = header(0, 1, 2);
    enter64(&mut b, 0, 0x1000);
    exit_rec(&mut b, 5);
    let (events, warnings) = parse_binary_buffer(&b, false).unwrap();
    assert_eq!(events.len(), 1);
    assert_eq!(events[0].name, "0x1000");
    assert_eq!(events[0].category, "call");
    assert_eq!(events[0].event_type, EventType::Complete);
    assert_eq!(events[0].timestamp, 0);
    assert_eq!(events[0].duration, 5000);
    assert!(events[0].args.is_none());
    assert_eq!(events[0].process_id, 1);
    assert_eq!(events[0].thread_id, 2);
    assert!(warnings.is_empty());
}

#[test]
fn leftover_enter_is_flushed_with_warning() {
    // An enter with no exit before the end of the buffer.
    let mut b = header(0, 1, 2);
    enter64(&mut b, 0, 0x2000);
    let (events, warnings) = parse_binary_buffer(&b, false).unwrap();
    assert_eq!(events.len(), 1);
    assert_eq!(events[0].name, "0x2000");
    assert_eq!(events[0].event_type, EventType::DurationBegin);
    assert_eq!(events[0].duration, 0);
    assert_eq!(warnings, vec![Warning::LeftoverStack { count: 1 }]);
}

#[test]
fn zero_header_stops_with_warning_citing_offset() {
    // A record header of all-zero bytes at offset 40.
    let mut b = header(0, 1, 2);
    enter64(&mut b, 0, 0x1000); // 16..28
    enter64(&mut b, 1, 0x2000); // 28..40
    b.extend_from_slice(&le32(0)); // 40..44: zero header
    b.extend_from_slice(&[7u8; 4]); // trailing bytes never reached
    let (events, warnings) = parse_binary_buffer(&b, false).unwrap();
    assert_eq!(events.len(), 2);
    assert_eq!(events[0].name, "0x1000");
    assert_eq!(events[1].name, "0x2000");
    assert_eq!(warnings[0], Warning::TruncatedBuffer { offset: 40 });
    assert_eq!(warnings[1], Warning::LeftoverStack { count: 2 });
}

#[test]
fn zero_duration_gets_virtual_duration() {
    let mut b = header(0, 1, 2);
    enter64(&mut b, 0, 0x30);
    exit_rec(&mut b, 0);
    let (events, _) = parse_binary_buffer(&b, false).unwrap();
    assert_eq!(events.len(), 1);
    assert_eq!(events[0].duration, 200);
    let args = events[0].args.as_ref().unwrap();
    assert_eq!(args.len(), 1);
    assert_eq!(args[0].0, "virtual_duration");
    assert_eq!(args[0].1, "true");
}

#[test]
fn nonzero_duration_has_no_virtual_flag() {
    let mut b = header(0, 1, 2);
    enter64(&mut b, 0, 0x30);
    exit_rec(&mut b, 1);
    let (events, _) = parse_binary_buffer(&b, false).unwrap();
    assert_eq!(events[0].duration, 1000);
    assert!(events[0].args.is_none());
}

#[test]
fn nested_calls_pop_in_order() {
    let mut b = header(10, 1, 2);
    enter64(&mut b, 0, 0xa); // outer at 10us
    enter64(&mut b, 1, 0xb); // inner at 11us
    exit_rec(&mut b, 1); // closes inner at 12us
    exit_rec(&mut b, 2); // closes outer at 14us
    let (events, warnings) = parse_binary_buffer(&b, false).unwrap();
    assert!(warnings.is_empty());
    assert_eq!(events.len(), 2);
    assert_eq!(events[0].name, "0xb");
    assert_eq!(events[0].timestamp, 11_000);
    assert_eq!(events[0].duration, 1000);
    assert_eq!(events[1].name, "0xa");
    assert_eq!(events[1].timestamp, 10_000);
    assert_eq!(events[1].duration, 4000);
}

#[test]
fn thirty_two_bit_addresses() {
    let mut b = header(0, 1, 2);
    b.extend_from_slice(&rec(0, 0));
    b.extend_from_slice(&0xdeadbeefu32.to_le_bytes());
    exit_rec(&mut b, 3);
    let (events, _) = parse_binary_buffer(&b, true).unwrap();
    assert_eq!(events[0].name, "0xdeadbeef");
    assert_eq!(events[0].duration, 3000);
}

#[test]
fn async_start_event_carries_blob_name() {
    let mut b = header(0, 7, 42);
    b.extend_from_slice(&rec(1, 1)); // extended enter at 1us
    b.extend_from_slice(&le32(2)); // async enter sub-type
    blob(&mut b, "task");
    let (events, warnings) = parse_binary_buffer(&b, false).unwrap();
    assert!(warnings.is_empty());
    assert_eq!(events.len(), 1);
    assert_eq!(events[0].event_type, EventType::AsyncNestableStart);
    assert_eq!(events[0].name, "task");
    assert_eq!(events[0].id.as_deref(), Some("task"));
    assert_eq!(events[0].scope.as_deref(), Some("42"));
    assert_eq!(events[0].category, "extend");
    assert_eq!(events[0].timestamp, 1000);
}

#[test]
fn blob_padding_leaves_cursor_on_boundary() {
    // A five-byte name takes three bytes of padding; the record after it
    // still decodes.
    let mut b = header(0, 1, 2);
    b.extend_from_slice(&rec(1, 1));
    b.extend_from_slice(&le32(2));
    blob(&mut b, "hello");
    b.extend_from_slice(&rec(1, 2)); // extended enter, instant sub-type
    b.extend_from_slice(&le32(4));
    let (events, warnings) = parse_binary_buffer(&b, false).unwrap();
    assert!(warnings.is_empty());
    assert_eq!(events.len(), 2);
    assert_eq!(events[0].name, "hello");
    assert_eq!(events[1].event_type, EventType::Instant);
    assert_eq!(events[1].timestamp, 3000);
}

#[test]
fn extended_exit_duration_names_the_span() {
    let mut b = header(0, 1, 2);
    enter64(&mut b, 0, 0x99);
    b.extend_from_slice(&rec(3, 4)); // extended exit at 4us
    b.extend_from_slice(&le32(1)); // duration exit sub-type
    blob(&mut b, "foo");
    let (events, warnings) = parse_binary_buffer(&b, false).unwrap();
    assert!(warnings.is_empty());
    assert_eq!(events.len(), 1);
    assert_eq!(events[0].event_type, EventType::Complete);
    assert_eq!(events[0].name, "foo");
    assert_eq!(events[0].category, "external");
    assert_eq!(events[0].duration, 4000);
}

#[test]
fn extended_exit_async_end_event() {
    let mut b = header(0, 1, 9);
    b.extend_from_slice(&rec(3, 2));
    b.extend_from_slice(&le32(3)); // async exit sub-type
    blob(&mut b, "job1");
    let (events, _) = parse_binary_buffer(&b, false).unwrap();
    assert_eq!(events.len(), 1);
    assert_eq!(events[0].event_type, EventType::AsyncNestableEnd);
    assert_eq!(events[0].name, "job1");
    assert_eq!(events[0].id.as_deref(), Some("job1"));
    assert_eq!(events[0].scope.as_deref(), Some("9"));
    assert!(events[0].instant_scope.is_none());
}

#[test]
fn extended_exit_instant_has_global_scope() {
    let mut b = header(0, 1, 2);
    b.extend_from_slice(&rec(3, 1));
    b.extend_from_slice(&le32(4)); // instant sub-type
    blob(&mut b, "mark");
    let (events, _) = parse_binary_buffer(&b, false).unwrap();
    assert_eq!(events[0].event_type, EventType::Instant);
    assert_eq!(events[0].instant_scope, Some(x2trace::chrome::Scope::Global));
    assert!(events[0].id.is_none());
}

#[test]
fn nameless_exit_becomes_internal() {
    // An extended enter of the duration kind has no name; its plain exit is
    // renamed to the internal marker.
    let mut b = header(0, 1, 2);
    b.extend_from_slice(&rec(1, 1));
    b.extend_from_slice(&le32(0)); // duration enter sub-type
    exit_rec(&mut b, 1);
    let (events, _) = parse_binary_buffer(&b, false).unwrap();
    assert_eq!(events.len(), 1);
    assert_eq!(events[0].name, "[internal]");
    assert_eq!(events[0].category, "internal");
    assert_eq!(events[0].event_type, EventType::Complete);
}

#[test]
fn stack_underflow_is_fatal() {
    let mut b = header(0, 1, 2);
    exit_rec(&mut b, 1);
    b.extend_from_slice(&[0u8; 4]); // keep the cursor inside the loop
    let e = parse_binary_buffer(&b, false).unwrap_err();
    assert_eq!(e.kind, DecodeErrorKind::StackUnderflow);
    assert_eq!(e.offset, 16);
}

#[test]
fn unknown_extended_sub_type_is_fatal() {
    let mut b = header(0, 1, 2);
    b.extend_from_slice(&rec(1, 1));
    b.extend_from_slice(&le32(7));
    let e = parse_binary_buffer(&b, false).unwrap_err();
    assert_eq!(e.kind, DecodeErrorKind::UnknownFlag { value: 7 });
    assert_eq!(e.offset, 16);
}

#[test]
fn non_utf8_blob_is_fatal() {
    let mut b = header(0, 1, 2);
    b.extend_from_slice(&rec(3, 1));
    b.extend_from_slice(&le32(3)); // async exit sub-type
    b.extend_from_slice(&le32(2)); // blob length 2
    b.extend_from_slice(&[0xff, 0xfe, 0, 0]); // invalid UTF-8, padded
    let e = parse_binary_buffer(&b, false).unwrap_err();
    assert_eq!(e.kind, DecodeErrorKind::NonUtf8Text);
    assert_eq!(e.offset, 16);
}

#[test]
fn truncated_payload_is_malformed() {
    let mut b = header(0, 1, 2);
    b.extend_from_slice(&rec(0, 1));
    b.extend_from_slice(&[1, 2, 3, 4]); // only half of a 64-bit address
    let e = parse_binary_buffer(&b, false).unwrap_err();
    assert_eq!(e.kind, DecodeErrorKind::MalformedRecord);
    assert_eq!(e.offset, 16);
}

#[test]
fn extended_enter_duration_exit_sub_type_is_malformed() {
    let mut b = header(0, 1, 2);
    b.extend_from_slice(&rec(1, 1));
    b.extend_from_slice(&le32(1)); // duration exit inside an enter record
    let e = parse_binary_buffer(&b, false).unwrap_err();
    assert_eq!(e.kind, DecodeErrorKind::MalformedRecord);
    assert_eq!(e.offset, 16);
}

#[test]
fn short_header_is_malformed() {
    let e = parse_binary_buffer(&vec![1, 2, 3], false).unwrap_err();
    assert_eq!(e.kind, DecodeErrorKind::MalformedRecord);
    assert_eq!(e.offset, 0);
    let e = parse_binary_buffer(&vec![0u8; 10], false).unwrap_err();
    assert_eq!(e.offset, 8);
    let e = parse_binary_buffer(&vec![0u8; 14], false).unwrap_err();
    assert_eq!(e.offset, 12);
}

#[test]
fn trailing_partial_header_is_malformed() {
    // Two stray bytes after the last record leave the cursor inside the
    // loop with no room for a record word.
    let mut b = header(0, 1, 2);
    enter64(&mut b, 0, 0x1);
    exit_rec(&mut b, 1);
    b.extend_from_slice(&[9, 9]);
    let e = parse_binary_buffer(&b, false).unwrap_err();
    assert_eq!(e.kind, DecodeErrorKind::MalformedRecord);
    assert_eq!(e.offset, 32);
    assert_eq!(e.events.len(), 1);
}

#[test]
fn blob_longer_than_buffer_is_malformed() {
    let mut b = header(0, 1, 2);
    b.extend_from_slice(&rec(1, 1));
    b.extend_from_slice(&le32(2)); // async enter sub-type
    b.extend_from_slice(&le32(100)); // blob length far past the end
    b.extend_from_slice(b"ab");
    let e = parse_binary_buffer(&b, false).unwrap_err();
    assert_eq!(e.kind, DecodeErrorKind::MalformedRecord);
    assert_eq!(e.offset, 16);
}

#[test]
fn blob_padding_may_run_past_the_end() {
    // The payload fits but its padding does not; the cursor stops at the
    // end of the buffer and decoding finishes cleanly.
    let mut b = header(0, 1, 2);
    b.extend_from_slice(&rec(1, 1));
    b.extend_from_slice(&le32(2)); // async enter sub-type
    b.extend_from_slice(&le32(2));
    b.extend_from_slice(b"ab");
    let (events, warnings) = parse_binary_buffer(&b, false).unwrap();
    assert!(warnings.is_empty());
    assert_eq!(events.len(), 1);
    assert_eq!(events[0].name, "ab");
}

#[test]
fn decoding_twice_is_identical() {
    let mut b = header(3, 1, 2);
    enter64(&mut b, 1, 0xabc);
    exit_rec(&mut b, 2);
    enter64(&mut b, 0, 0xdef);
    let first = parse_binary_buffer(&b, false).unwrap();
    let second = parse_binary_buffer(&b, false).unwrap();
    assert_eq!(first.0, second.0);
    assert_eq!(first.1, second.1);
}

#[test]
fn base_timestamp_offsets_all_records() {
    let mut b = header(1_000_000, 1, 2);
    enter64(&mut b, 2, 0x1);
    exit_rec(&mut b, 3);
    let (events, _) = parse_binary_buffer(&b, false).unwrap();
    assert_eq!(events[0].timestamp, 1_000_002_000);
    assert_eq!(events[0].duration, 3000);
}

#[test]
fn parse_binary_file_matches_buffer() {
    let mut b = header(0, 1, 2);
    enter64(&mut b, 0, 0x5);
    exit_rec(&mut b, 1);
    let a = parse_binary_file(&b, false).unwrap();
    let c = parse_binary_buffer(&b, false).unwrap();
    assert_eq!(a.0, c.0);
    assert_eq!(a.1, c.1);
}

#[test]
fn parse_binary_files_concatenates() {
    let mut b1 = header(0, 1, 2);
    enter64(&mut b1, 0, 0x5);
    exit_rec(&mut b1, 1);
    let mut b2 = header(0, 3, 4);
    enter64(&mut b2, 0, 0x6);
    exit_rec(&mut b2, 2);
    let (events, warnings) = parse_binary_files(&vec![b1, b2], false).unwrap();
    assert!(warnings.is_empty());
    assert_eq!(events.len(), 2);
    assert_eq!(events[0].name, "0x5");
    assert_eq!(events[1].name, "0x6");
    assert_eq!(events[1].process_id, 3);
}

#[test]
fn parse_binary_files_empty_is_empty() {
    let (events, warnings) = parse_binary_files(&vec![], false).unwrap();
    assert!(events.is_empty());
    assert!(warnings.is_empty());
}

#[test]
fn parse_binary_files_propagates_failure() {
    let mut good = header(0, 1, 2);
    enter64(&mut good, 0, 0x5);
    exit_rec(&mut good, 1);
    let bad = vec![0u8; 3];
    let e = parse_binary_files(&vec![good, bad], false).unwrap_err();
    assert_eq!(e.kind, DecodeErrorKind::MalformedRecord);
    assert_eq!(e.offset, 0);
}
