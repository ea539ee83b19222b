use x2trace::chrome::{Event, EventType};
use x2trace::file::{
    elf_bit_option_needs_probe, parse_elf_bit_option, parse_elf_bit_size_output, ElfBitOptionError,
    ElfBitSize,
};
use x2trace::iftrace::parse_binary_buffer;
use x2trace::objdump::{collect_hex_addresses, get_addr2info_map, rewrite_events};
use x2trace::proc_maps::{parse_proc_maps, MapsRecord};

fn addrs(list: &[&str]) -> Vec<String> {
    list.iter().map(|s| s.to_string()).collect()
}

#[test]
fn exact_match_hit_and_miss() {
    // Two addresses against a listing that names only one of them.
    let listing = "0000000000002000 <foo>\n0000000000004000 <bar>\n";
    let infos = get_addr2info_map(listing, "0", &addrs(&["2000", "3000"])).unwrap();
    assert_eq!(infos.len(), 1);
    assert_eq!(infos[0].address, "0x2000");
    assert_eq!(infos[0].function_name, "foo");
    assert_eq!(infos[0].file_location, "");
}

#[test]
fn base_offset_is_added_to_listing_addresses() {
    let listing = "0000001000 <f> insn\n";
    let infos = get_addr2info_map(listing, "0x1000", &addrs(&["0x2000"])).unwrap();
    assert_eq!(infos.len(), 1);
    assert_eq!(infos[0].address, "0x2000");
    assert_eq!(infos[0].function_name, "f");
}

#[test]
fn file_location_lines_are_tracked() {
    let listing = "/src/a.c:12\n0000000000002000 <foo>\n/src/b.c:3\n0000000000003000 <bar>\n";
    let infos = get_addr2info_map(listing, "0", &addrs(&["2000", "3000"])).unwrap();
    assert_eq!(infos.len(), 2);
    assert_eq!(infos[0].file_location, "/src/a.c:12");
    assert_eq!(infos[1].file_location, "/src/b.c:3");
}

#[test]
fn addresses_are_normalized_and_sorted() {
    // Upper case and prefixed inputs in arbitrary order still match.
    let listing = "0000000000002abc <f>\n0000000000003000 <g>\n";
    let infos = get_addr2info_map(listing, "0", &addrs(&["3000", "0X2ABC"])).unwrap();
    assert_eq!(infos.len(), 2);
    assert_eq!(infos[0].address, "0x2abc");
    assert_eq!(infos[1].address, "0x3000");
}

#[test]
fn uppercase_listing_addresses_parse_and_render_lowercase() {
    let listing = "0000002ABC <f>\n";
    let infos = get_addr2info_map(listing, "0", &addrs(&["2abc"])).unwrap();
    assert_eq!(infos.len(), 1);
    assert_eq!(infos[0].address, "0x2abc");
}

#[test]
fn ignored_and_indented_lines() {
    // Lines that open with neither a zero nor a space are ignored; an
    // indented line is an instruction line.
    let listing = "header text\n 2000 <foo> insn\nmore noise\n";
    let infos = get_addr2info_map(listing, "0", &addrs(&["2000"])).unwrap();
    assert_eq!(infos.len(), 1);
    assert_eq!(infos[0].function_name, "foo");
}

#[test]
fn malformed_listing_address_is_reported() {
    let listing = "0zzz <f>\n";
    let e = get_addr2info_map(listing, "0", &addrs(&["2000"])).unwrap_err();
    assert_eq!(e.text, "zzz");
}

#[test]
fn malformed_base_address_is_reported() {
    let e = get_addr2info_map("", "0xnope", &addrs(&["2000"])).unwrap_err();
    assert_eq!(e.text, "nope");
}

#[test]
fn unmatched_addresses_never_fail() {
    let infos = get_addr2info_map("", "0", &addrs(&["2000"])).unwrap();
    assert!(infos.is_empty());
}

#[test]
fn collect_hex_addresses_dedupes_in_order() {
    let mut names = Vec::new();
    for n in ["0x10", "main", "0x20", "0x10"] {
        let mut e = Event::default();
        e.name = n.to_string();
        names.push(e);
    }
    assert_eq!(collect_hex_addresses(&names), vec!["0x10".to_string(), "0x20".to_string()]);
}

#[test]
fn rewrite_renames_and_attaches_location() {
    let mut b = Vec::new();
    b.extend_from_slice(&0u64.to_le_bytes());
    b.extend_from_slice(&1u32.to_le_bytes());
    b.extend_from_slice(&2u32.to_le_bytes());
    b.extend_from_slice(&(1u32 << 30).to_le_bytes());
    b.extend_from_slice(&0x2000u64.to_le_bytes());
    b.extend_from_slice(&0x80000005u32.to_le_bytes());
    let (mut events, _) = parse_binary_buffer(&b, false).unwrap();
    assert_eq!(events[0].name, "0x2000");
    let listing = "/src/a.c:12\n0000000000002000 <_Z3foov>\n";
    let names = collect_hex_addresses(&events);
    let infos = get_addr2info_map(listing, "0", &names).unwrap();
    rewrite_events(&mut events, &infos, true, false);
    // The mangled name resolves and demangles; the file location is kept as
    // an argument.
    assert_eq!(events[0].name, "foo()");
    let args = events[0].args.as_ref().unwrap();
    assert!(args.contains(&("file_location".to_string(), "/src/a.c:12".to_string())));
}

#[test]
fn rewrite_keeps_mangled_name_when_asked() {
    let mut e = Event::default();
    e.name = "0x2000".to_string();
    let mut events = vec![e];
    let infos = get_addr2info_map("0000000000002000 <_Z3barv>\n", "0", &addrs(&["0x2000"]))
        .unwrap();
    rewrite_events(&mut events, &infos, false, true);
    assert_eq!(events[0].name, "_Z3barv");
    assert!(events[0].args.is_none());
}

#[test]
fn rewrite_leaves_duration_end_without_location() {
    let mut e = Event::default();
    e.name = "0x2000".to_string();
    e.event_type = EventType::DurationEnd;
    let mut events = vec![e];
    let listing = "/src/a.c:1\n0000000000002000 <plain_name>\n";
    let infos = get_addr2info_map(listing, "0", &addrs(&["0x2000"])).unwrap();
    rewrite_events(&mut events, &infos, true, false);
    // A name that is no mangled symbol stays as the listing gives it.
    assert_eq!(events[0].name, "plain_name");
    assert!(events[0].args.is_none());
}

#[test]
fn rewrite_ignores_unresolved_names() {
    let mut e = Event::default();
    e.name = "0x9999".to_string();
    let mut events = vec![e];
    rewrite_events(&mut events, &Vec::new(), true, false);
    assert_eq!(events[0].name, "0x9999");
}

#[test]
fn proc_maps_extracts_zero_offset_bases() {
    let records = vec![
        MapsRecord { begin: 0x1000, offset: 0, pathname: Some("/usr/lib/libfoo.so".to_string()) },
        MapsRecord { begin: 0x2000, offset: 0x400, pathname: Some("/usr/lib/libfoo.so".to_string()) },
        MapsRecord { begin: 0x3000, offset: 0, pathname: None },
        MapsRecord { begin: 0x4000, offset: 0, pathname: Some("/opt/app".to_string()) },
    ];
    let bases = parse_proc_maps(&records).unwrap();
    assert_eq!(
        bases,
        vec![("libfoo.so".to_string(), 0x1000), ("app".to_string(), 0x4000)]
    );
}

#[test]
fn proc_maps_later_region_overrides() {
    let records = vec![
        MapsRecord { begin: 0x1000, offset: 0, pathname: Some("/a/lib.so".to_string()) },
        MapsRecord { begin: 0x9000, offset: 0, pathname: Some("/b/lib.so".to_string()) },
    ];
    let bases = parse_proc_maps(&records).unwrap();
    assert_eq!(bases, vec![("lib.so".to_string(), 0x9000)]);
}

#[test]
fn proc_maps_path_without_file_name_fails() {
    let records = vec![MapsRecord { begin: 1, offset: 0, pathname: Some("/".to_string()) }];
    let e = parse_proc_maps(&records).unwrap_err();
    assert_eq!(e.path, "/");
}

#[test]
fn elf_bit_size_lines() {
    assert!(matches!(
        parse_elf_bit_size_output("app: ELF 64-bit LSB pie executable"),
        Ok(ElfBitSize::Bit64)
    ));
    assert!(matches!(
        parse_elf_bit_size_output("app: ELF 32-bit LSB executable"),
        Ok(ElfBitSize::Bit32)
    ));
    let e = parse_elf_bit_size_output("app: data").unwrap_err();
    assert_eq!(e.text, "app: data");
}

#[test]
fn elf_bit_option_resolution() {
    assert_eq!(parse_elf_bit_option("32", None), Ok(true));
    assert_eq!(parse_elf_bit_option("64", None), Ok(false));
    assert_eq!(parse_elf_bit_option("auto", Some(ElfBitSize::Bit32)), Ok(true));
    assert_eq!(parse_elf_bit_option("auto", Some(ElfBitSize::Bit64)), Ok(false));
    assert_eq!(
        parse_elf_bit_option("auto", None),
        Err(ElfBitOptionError::ProbeUnavailable)
    );
    assert_eq!(
        parse_elf_bit_option("16", None),
        Err(ElfBitOptionError::UnknownOption)
    );
    assert!(elf_bit_option_needs_probe("auto"));
    assert!(!elf_bit_option_needs_probe("64"));
}
