use x2trace::chrome::{Event, EventType, Scope};
use x2trace::iftrace::{
    args_insert, parse_line_to_event, parse_text_buffer, parse_text_file, parse_text_files,
    update_to_complete_event, TextParseErrorKind,
};
use x2trace::text;

fn begin_event(ts: u128) -> Event {
    let mut e = Event::default();
    e.timestamp = ts;
    e
}

#[test]
fn parse_line_enter() {
    let e = parse_line_to_event("239949354 1624633549138701 enter 0x1002d47e8 0x100166be0")
        .unwrap();
    assert_eq!(e.thread_id, 239949354);
    assert_eq!(e.timestamp, 1624633549138701 * 1000);
    assert_eq!(e.event_type, EventType::DurationBegin);
    assert_eq!(e.name, "0x100166be0");
    assert_eq!(e.category, "category");
    assert_eq!(e.process_id, 1234);
    assert!(e.args.is_none());
}

#[test]
fn parse_line_exit() {
    let e = parse_line_to_event("1 5 exit 0xa 0xb").unwrap();
    assert_eq!(e.event_type, EventType::DurationEnd);
    assert_eq!(e.timestamp, 5000);
    assert_eq!(e.name, "0xb");
}

#[test]
fn parse_line_wrong_field_count() {
    let e = parse_line_to_event("1 5 enter 0xa").unwrap_err();
    assert_eq!(e.kind, TextParseErrorKind::WrongFieldCount);
    assert_eq!(e.line, "1 5 enter 0xa");
}

#[test]
fn parse_line_bad_thread_id() {
    let e = parse_line_to_event("x 5 enter 0xa 0xb").unwrap_err();
    assert_eq!(e.kind, TextParseErrorKind::BadThreadId);
    // A thread id above the 32-bit range is rejected too.
    let e = parse_line_to_event("4294967296 5 enter 0xa 0xb").unwrap_err();
    assert_eq!(e.kind, TextParseErrorKind::BadThreadId);
}

#[test]
fn parse_line_bad_timestamp() {
    let e = parse_line_to_event("1 t enter 0xa 0xb").unwrap_err();
    assert_eq!(e.kind, TextParseErrorKind::BadTimestamp);
}

#[test]
fn parse_line_bad_action() {
    let e = parse_line_to_event("1 5 jump 0xa 0xb").unwrap_err();
    assert_eq!(e.kind, TextParseErrorKind::BadAction);
}

#[test]
fn parse_text_buffer_lines_in_order() {
    let events = parse_text_buffer("1 5 enter 0xa 0xb\n1 9 exit 0xa 0xb\n").unwrap();
    assert_eq!(events.len(), 2);
    assert_eq!(events[0].event_type, EventType::DurationBegin);
    assert_eq!(events[1].event_type, EventType::DurationEnd);
    assert_eq!(events[1].timestamp, 9000);
}

#[test]
fn parse_text_buffer_reports_offending_line() {
    let e = parse_text_buffer("1 5 enter 0xa 0xb\nbroken line\n").unwrap_err();
    assert_eq!(e.line, "broken line");
    assert_eq!(e.kind, TextParseErrorKind::WrongFieldCount);
}

#[test]
fn parse_text_file_and_files() {
    let one = parse_text_file("1 5 enter 0xa 0xb\n").unwrap();
    assert_eq!(one.len(), 1);
    let all = parse_text_files(&vec![
        "1 5 enter 0xa 0xb\n".to_string(),
        "2 6 exit 0xc 0xd\n".to_string(),
    ])
    .unwrap();
    assert_eq!(all.len(), 2);
    assert_eq!(all[0].thread_id, 1);
    assert_eq!(all[1].thread_id, 2);
}

#[test]
fn update_to_complete_sets_duration() {
    let mut e = begin_event(100);
    update_to_complete_event(&mut e, 150);
    assert_eq!(e.event_type, EventType::Complete);
    assert_eq!(e.duration, 50);
    assert!(e.args.is_none());
}

#[test]
fn update_to_complete_zero_width_gets_virtual_duration() {
    let mut e = begin_event(100);
    update_to_complete_event(&mut e, 100);
    assert_eq!(e.duration, 200);
    let args = e.args.unwrap();
    assert_eq!(args, vec![("virtual_duration".to_string(), "true".to_string())]);
}

#[test]
fn args_insert_replaces_and_appends() {
    let mut args = None;
    args_insert(&mut args, "a".to_string(), "1".to_string());
    args_insert(&mut args, "b".to_string(), "2".to_string());
    args_insert(&mut args, "a".to_string(), "3".to_string());
    assert_eq!(
        args.unwrap(),
        vec![("a".to_string(), "3".to_string()), ("b".to_string(), "2".to_string())]
    );
}

#[test]
fn event_type_codes_match_wire_format() {
    assert_eq!(EventType::DurationBegin.code(), 'B');
    assert_eq!(EventType::DurationEnd.code(), 'E');
    assert_eq!(EventType::Complete.code(), 'X');
    assert_eq!(EventType::Instant.code(), 'I');
    assert_eq!(EventType::AsyncNestableStart.code(), 'b');
    assert_eq!(EventType::AsyncNestableInstant.code(), 'n');
    assert_eq!(EventType::AsyncNestableEnd.code(), 'e');
    assert_eq!(EventType::Metadata.code(), 'M');
    assert_eq!(EventType::Context.code(), ',');
}

#[test]
fn scope_codes_match_wire_format() {
    assert_eq!(Scope::Global.code(), 'g');
    assert_eq!(Scope::Process.code(), 'p');
    assert_eq!(Scope::Thread.code(), 't');
}

#[test]
fn defaults() {
    assert_eq!(EventType::default(), EventType::DurationBegin);
    assert_eq!(Scope::default(), Scope::Global);
    let e = Event::default();
    assert_eq!(e.name, "");
    assert_eq!(e.event_type, EventType::DurationBegin);
    assert_eq!(e.timestamp, 0);
}

#[test]
fn whole_micros_rendering() {
    assert!(x2trace::chrome::is_whole_micros(5000));
    assert_eq!(x2trace::chrome::whole_micros(5000), 5);
    assert!(!x2trace::chrome::is_whole_micros(200));
    assert!(x2trace::chrome::is_whole_micros(0));
}

#[test]
fn hex_and_decimal_rendering() {
    assert_eq!(text::u64_to_hex(0), "0");
    assert_eq!(text::u64_to_hex(0x1000), "1000");
    assert_eq!(text::u64_to_hex(0xdeadbeef), "deadbeef");
    assert_eq!(text::u64_to_hex(u64::MAX), "ffffffffffffffff");
    assert_eq!(text::u64_to_dec(0), "0");
    assert_eq!(text::u64_to_dec(90210), "90210");
}

#[test]
fn decimal_parsing() {
    assert_eq!(text::parse_u64_dec("0"), Some(0));
    assert_eq!(text::parse_u64_dec("18446744073709551615"), Some(u64::MAX));
    assert_eq!(text::parse_u64_dec("18446744073709551616"), None);
    assert_eq!(text::parse_u64_dec(""), None);
    assert_eq!(text::parse_u64_dec("12x"), None);
    assert_eq!(text::parse_u64_dec("+12"), None);
}

#[test]
fn hex_parsing() {
    assert_eq!(text::parse_hex_addr("ff"), Some(255));
    assert_eq!(text::parse_hex_addr("FF"), Some(255));
    assert_eq!(text::parse_hex_addr("7fffffffffffffff"), Some(i64::MAX as u64));
    assert_eq!(text::parse_hex_addr("8000000000000000"), None);
    assert_eq!(text::parse_hex_addr(""), None);
    assert_eq!(text::parse_hex_addr("0x10"), None);
}

#[test]
fn string_helpers() {
    assert!(text::str_lt("abc", "abd"));
    assert!(text::str_lt("ab", "abc"));
    assert!(!text::str_lt("abc", "abc"));
    assert!(text::str_contains("ELF 64-bit LSB", "64-bit"));
    assert!(!text::str_contains("ELF", "64-bit"));
    assert!(text::str_starts_with("0x10", "0x"));
    assert!(!text::str_starts_with("x10", "0x"));
    assert_eq!(text::trim_end_ws("abc  \n"), "abc");
    assert_eq!(text::trim_start_zeros_spaces("000 0 12"), "12");
    assert_eq!(text::trim_angle_brackets("<foo>"), "foo");
    assert_eq!(text::trim_angle_brackets("<<f>>"), "f");
    assert_eq!(text::strip_0x_prefix("0x0x10"), "10");
    assert_eq!(text::strip_0x_prefix("10"), "10");
}

#[test]
fn split_helpers() {
    assert_eq!(text::split_whitespace_fields("  a  bb\tc "), vec!["a", "bb", "c"]);
    assert_eq!(text::split_whitespace_fields(""), Vec::<String>::new());
    assert_eq!(text::split_lines("a\nb"), vec!["a", "b"]);
    assert_eq!(text::split_lines("a\nb\n"), vec!["a", "b"]);
    assert_eq!(text::split_lines("a\n\nb"), vec!["a", "", "b"]);
    assert_eq!(text::split_lines(""), Vec::<String>::new());
}
