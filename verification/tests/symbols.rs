use embedded_debugger::error::DebugError;
use embedded_debugger::rtt::elf_cache::get_elf_file;
use embedded_debugger::rtt::elf_cache::ElfCache;
use embedded_debugger::rtt::elf_parser::check_rtt_symbol;
use embedded_debugger::rtt::elf_parser::collect_all_symbols;
use embedded_debugger::rtt::elf_parser::find_like;
use embedded_debugger::rtt::elf_parser::find_rtt_related;
use embedded_debugger::rtt::elf_parser::find_symbol;
use embedded_debugger::rtt::elf_parser::find_symbols_by_pattern;
use embedded_debugger::rtt::elf_parser::get_elf_debug_info;
use embedded_debugger::rtt::elf_parser::get_rtt_symbol_from_elf;
use embedded_debugger::rtt::elf_parser::get_symbol_from_elf;
use embedded_debugger::rtt::elf_parser::has_debug_sections;
use embedded_debugger::rtt::elf_parser::index_sections;
use embedded_debugger::rtt::elf_parser::is_undefined;
use embedded_debugger::rtt::elf_parser::is_valid_rtt_address;
use embedded_debugger::rtt::elf_parser::label_section;
use embedded_debugger::rtt::elf_parser::CachedElf;
use embedded_debugger::rtt::elf_parser::SymbolInfo;
use embedded_debugger::rtt::elf_parser::SHN_UNDEF;
use embedded_debugger::rtt::object_file::SectionRecord;
use embedded_debugger::rtt::object_file::SymbolRecord;
use embedded_debugger::text::to_ascii_lowercase;
use std::collections::HashMap;
use std::sync::Arc;

const SHT_PROGBITS: u32 = 1;
const SHT_SYMTAB: u32 = 2;
const SHT_STRTAB: u32 = 3;
const SHT_DYNSYM: u32 = 11;

struct Section {
    name: &'static str,
    kind: u32,
    data: Vec<u8>,
    link: u32,
    info: u32,
    entry_size: u32,
}

fn section(name: &'static str, kind: u32, data: Vec<u8>) -> Section {
    Section { name, kind, data, link: 0, info: 0, entry_size: 0 }
}

fn put16(out: &mut Vec<u8>, n: u16) {
    out.extend_from_slice(&n.to_le_bytes());
}

fn put32(out: &mut Vec<u8>, n: u32) {
    out.extend_from_slice(&n.to_le_bytes());
}

/// A 32-bit little-endian ARM image with the given sections, numbered from one, and a table of
/// section names behind them.
fn image(entry: u32, sections: Vec<Section>) -> Vec<u8> {
    let mut names: Vec<u8> = vec![0];
    let mut name_offsets: Vec<u32> = Vec::new();
    for s in &sections {
        name_offsets.push(names.len() as u32);
        names.extend_from_slice(s.name.as_bytes());
        names.push(0);
    }
    let own_name: u32 = names.len() as u32;
    names.extend_from_slice(b".shstrtab\0");

    let mut body: Vec<u8> = Vec::new();
    let mut headers: Vec<u8> = vec![0; 40];
    for (i, s) in sections.iter().enumerate() {
        let offset = 52 + body.len() as u32;
        body.extend_from_slice(&s.data);
        for n in [name_offsets[i], s.kind, 0, 0, offset, s.data.len() as u32] {
            put32(&mut headers, n);
        }
        for n in [s.link, s.info, 1, s.entry_size] {
            put32(&mut headers, n);
        }
    }
    let offset = 52 + body.len() as u32;
    body.extend_from_slice(&names);
    for n in [own_name, SHT_STRTAB, 0, 0, offset, names.len() as u32, 0, 0, 1, 0] {
        put32(&mut headers, n);
    }
    let header_offset = 52 + body.len() as u32;

    let mut out: Vec<u8> = vec![0x7F, b'E', b'L', b'F', 1, 1, 1];
    out.resize(16, 0);
    put16(&mut out, 2);
    put16(&mut out, 0x28);
    put32(&mut out, 1);
    put32(&mut out, entry);
    put32(&mut out, 0);
    put32(&mut out, header_offset);
    put32(&mut out, 0);
    put16(&mut out, 52);
    put16(&mut out, 32);
    put16(&mut out, 0);
    put16(&mut out, 40);
    put16(&mut out, sections.len() as u16 + 2);
    put16(&mut out, sections.len() as u16 + 1);
    out.extend_from_slice(&body);
    out.extend_from_slice(&headers);
    out
}

/// A symbol table and its names; the null symbol is put in front.
fn symbol_table(symbols: &[(&str, u32, u32, u16)]) -> (Vec<u8>, Vec<u8>) {
    let mut table: Vec<u8> = vec![0; 16];
    let mut names: Vec<u8> = vec![0];
    for (name, address, size, shndx) in symbols {
        put32(&mut table, names.len() as u32);
        put32(&mut table, *address);
        put32(&mut table, *size);
        table.push(0x11);
        table.push(0);
        put16(&mut table, *shndx);
        names.extend_from_slice(name.as_bytes());
        names.push(0);
    }
    (table, names)
}

/// Sections: 1 `.text`, 2 `.bss`, 3 `.symtab`, 4 `.strtab`, 5 `.dynsym`, 6 `.dynstr`, 7 as
/// given, 8 `.shstrtab`.
fn firmware(
    symbols: &[(&str, u32, u32, u16)],
    dynamic_symbols: &[(&str, u32, u32, u16)],
    last: &'static str,
) -> CachedElf {
    let (table, names) = symbol_table(symbols);
    let (dynamic_table, dynamic_names) = symbol_table(dynamic_symbols);
    let bytes = image(
        0x0800_0101,
        vec![
            section(".text", SHT_PROGBITS, vec![1, 2, 3, 4]),
            section(".bss", SHT_PROGBITS, vec![0; 4]),
            Section {
                name: ".symtab",
                kind: SHT_SYMTAB,
                data: table,
                link: 4,
                info: 1,
                entry_size: 16,
            },
            section(".strtab", SHT_STRTAB, names),
            Section {
                name: ".dynsym",
                kind: SHT_DYNSYM,
                data: dynamic_table,
                link: 6,
                info: 1,
                entry_size: 16,
            },
            section(".dynstr", SHT_STRTAB, dynamic_names),
            section(last, SHT_PROGBITS, vec![0; 4]),
        ],
    );
    CachedElf::parse(bytes.leak(), "fw.elf").unwrap()
}

fn usual_firmware() -> CachedElf {
    firmware(
        &[
            ("imported", 0x1000, 4, 0),
            ("_SEGGER_RTT", 0, 4, 2),
            ("main", 0x0800_0100, 64, 1),
            ("_segger_rtt", 0x2000_8000, 168, 2),
            ("rttBuffer", 0x2000_9000, 1024, 7),
        ],
        &[
            ("Main", 0x0800_0200, 32, 1),
            ("shared_RTT_lock", 0x2000_A000, 4, 8),
            ("Rtt_idle", 0x2000_A100, 4, 2),
        ],
        ".debug_info",
    )
}

fn symbol(name: Option<&str>, address: u64, section: Option<usize>) -> SymbolRecord {
    SymbolRecord { name: name.map(|n| n.to_string()), address, size: 4, section }
}

fn names(infos: &[SymbolInfo]) -> Vec<&str> {
    infos.iter().map(|i| i.name.as_str()).collect()
}

#[test]
fn test_valid_rtt_address() {
    assert!(is_valid_rtt_address(0x20000000));
    assert!(is_valid_rtt_address(0x20008000));
    assert!(is_valid_rtt_address(0x2000A000));
    assert!(!is_valid_rtt_address(0x08000000));
    assert!(!is_valid_rtt_address(0x00000000));
    assert!(!is_valid_rtt_address(0x40000000));
}

#[test]
fn test_rtt_address_bounds() {
    assert!(!is_valid_rtt_address(0x1FFF_FFFF));
    assert!(is_valid_rtt_address(0x2FFF_FFFF));
    assert!(!is_valid_rtt_address(0x3000_0000));
    assert!(!is_valid_rtt_address(u64::MAX));
}

#[test]
fn test_undefined_filter_index_zero_is_undefined() {
    assert_eq!(SHN_UNDEF, 0);
}

#[test]
fn test_undefined_symbols() {
    assert!(is_undefined(&symbol(Some("a"), 0x100, Some(0))));
    assert!(is_undefined(&symbol(Some("a"), 0x100, None)));
    assert!(is_undefined(&symbol(Some("a"), 0, Some(1))));
    assert!(!is_undefined(&symbol(Some("a"), 0x100, Some(1))));
}

#[test]
fn test_ascii_lowercase_matches_previous_behavior() {
    for input in ["_SEGGER_RTT", "_segger_rtt", "SeggerRtt", "RTT"] {
        let lower = to_ascii_lowercase(input);
        assert!(
            lower.chars().all(|c| !c.is_uppercase()),
            "expected all-ASCII-lowercase, got {:?} from {:?}",
            lower,
            input
        );
    }
}

#[test]
fn test_ascii_lowercase_values() {
    assert_eq!(to_ascii_lowercase("_SEGGER_RTT"), "_segger_rtt");
    assert_eq!(to_ascii_lowercase("@AZ[`az{9"), "@az[`az{9");
    assert_eq!(to_ascii_lowercase("ÄÖ"), "ÄÖ");
    assert_eq!(to_ascii_lowercase(&to_ascii_lowercase("aBc")), "abc");
}

fn minimal_elf32_arm_header() -> Vec<u8> {
    let mut buf = vec![0u8; 52];
    buf[0..4].copy_from_slice(&[0x7F, b'E', b'L', b'F']);
    buf[4] = 1;
    buf[5] = 1;
    buf[6] = 1;
    buf[0x10..0x12].copy_from_slice(&2u16.to_le_bytes());
    buf[0x12..0x14].copy_from_slice(&0x28u16.to_le_bytes());
    buf[0x14..0x18].copy_from_slice(&1u32.to_le_bytes());
    buf[0x28..0x2A].copy_from_slice(&52u16.to_le_bytes());
    buf[0x2A..0x2C].copy_from_slice(&32u16.to_le_bytes());
    buf[0x2C..0x2E].copy_from_slice(&0u16.to_le_bytes());
    buf[0x2E..0x30].copy_from_slice(&40u16.to_le_bytes());
    buf[0x30..0x32].copy_from_slice(&0u16.to_le_bytes());
    buf[0x32..0x34].copy_from_slice(&0u16.to_le_bytes());
    buf
}

#[test]
fn test_elf_cache_arc_identity_holds_for_same_path() {
    let mut cache = ElfCache::new();
    let bytes = minimal_elf32_arm_header();

    let first =
        get_elf_file(&mut cache, b"/fw.elf", "fw.elf", Ok(bytes.clone())).expect("first parse");
    let second = get_elf_file(&mut cache, b"/fw.elf", "fw.elf", Ok(bytes))
        .expect("second parse (should hit cache)");

    assert!(
        Arc::ptr_eq(&first, &second),
        "expected same Arc<CachedElf> from cache, got distinct allocations",
    );
}

#[test]
fn test_cache_answers_without_the_file() {
    let mut cache = ElfCache::new();
    let bytes = minimal_elf32_arm_header();
    assert!(cache.get(b"/a.elf").is_none());
    let first = get_elf_file(&mut cache, b"/a.elf", "a.elf", Ok(bytes)).unwrap();
    let gone = get_elf_file(&mut cache, b"/a.elf", "a.elf", Err("gone".to_string())).unwrap();
    assert!(Arc::ptr_eq(&first, &gone));
    assert!(Arc::ptr_eq(&first, &cache.get(b"/a.elf").unwrap()));
}

#[test]
fn test_cache_keeps_paths_apart() {
    let mut cache = ElfCache::new();
    let bytes = minimal_elf32_arm_header();
    let a = get_elf_file(&mut cache, b"/a.elf", "a.elf", Ok(bytes.clone())).unwrap();
    let b = get_elf_file(&mut cache, b"/b.elf", "b.elf", Ok(bytes)).unwrap();
    assert!(!Arc::ptr_eq(&a, &b));
    assert!(Arc::ptr_eq(&a, &cache.get(b"/a.elf").unwrap()));
    assert!(Arc::ptr_eq(&b, &cache.get(b"/b.elf").unwrap()));
    assert!(cache.get(b"/").is_none());
}

#[test]
fn test_cache_failures_leave_no_trace() {
    let mut cache = ElfCache::new();
    match get_elf_file(&mut cache, b"/x.elf", "x.elf", Err("no such file".to_string())) {
        Err(DebugError::RttError(text)) => {
            assert_eq!(text, "Failed to read ELF file x.elf: no such file")
        }
        _ => panic!("expected an error"),
    }
    let garbage = vec![1, 2, 3, 4, 5, 6, 7, 8];
    match get_elf_file(&mut cache, b"/x.elf", "x.elf", Ok(garbage)) {
        Err(DebugError::RttError(text)) => {
            assert!(text.starts_with("Failed to parse ELF file x.elf: "))
        }
        _ => panic!("expected an error"),
    }
    assert!(cache.get(b"/x.elf").is_none());
    let bytes = minimal_elf32_arm_header();
    assert!(get_elf_file(&mut cache, b"/x.elf", "x.elf", Ok(bytes)).is_ok());
}

#[test]
fn test_parse_error_names_the_image() {
    let garbage: &'static [u8] = b"not an object file";
    match CachedElf::parse(garbage, "junk.bin") {
        Err(DebugError::RttError(text)) => {
            assert!(text.starts_with("Failed to parse ELF file junk.bin: "));
            assert!(text.len() > "Failed to parse ELF file junk.bin: ".len());
        }
        _ => panic!("expected an error"),
    }
}

#[test]
fn test_symbol_lookup_ignores_case_and_skips_undefined() {
    let elf = usual_firmware();
    let info = get_symbol_from_elf(&elf, "fw.elf", "_SEGGER_RTT").unwrap();
    assert_eq!(info.name, "_segger_rtt");
    assert_eq!(info.address, 0x2000_8000);
    assert_eq!(info.size, 168);
    assert_eq!(info.section, ".bss");
}

#[test]
fn test_symbol_table_comes_before_dynamic_symbols() {
    let elf = usual_firmware();
    let info = get_symbol_from_elf(&elf, "fw.elf", "MAIN").unwrap();
    assert_eq!(info.name, "main");
    assert_eq!(info.address, 0x0800_0100);
    assert_eq!(info.section, ".text");
    let dynamic = get_symbol_from_elf(&elf, "fw.elf", "rtt_IDLE").unwrap();
    assert_eq!(dynamic.address, 0x2000_A100);
}

#[test]
fn test_symbol_of_the_last_section_has_a_section_name() {
    let elf = usual_firmware();
    let info = get_symbol_from_elf(&elf, "fw.elf", "shared_rtt_lock").unwrap();
    assert_eq!(info.section, ".shstrtab");
}

#[test]
fn test_missing_and_undefined_symbols_are_not_found() {
    let elf = usual_firmware();
    for name in ["imported", "nothing", ""] {
        match get_symbol_from_elf(&elf, "dir/fw.elf", name) {
            Err(DebugError::SymbolNotFound(text)) => {
                assert_eq!(text, format!("Symbol '{}' not found in ELF file dir/fw.elf", name))
            }
            _ => panic!("expected an error"),
        }
    }
}

#[test]
fn test_pattern_search() {
    let elf = usual_firmware();
    let found = find_symbols_by_pattern(&elf, "fw.elf", "RtT").unwrap();
    assert_eq!(names(&found), vec!["_segger_rtt", "rttBuffer", "shared_RTT_lock", "Rtt_idle"]);
    assert_eq!(found[1].section, ".debug_info");
    let again = find_symbols_by_pattern(&elf, "fw.elf", "rtt").unwrap();
    assert_eq!(names(&again), names(&found));
    let all = find_symbols_by_pattern(&elf, "fw.elf", "").unwrap();
    assert_eq!(all.len(), 6);
    let named = find_symbols_by_pattern(&elf, "fw.elf", "MAIN").unwrap();
    assert_eq!(names(&named), vec!["main", "Main"]);
    match find_symbols_by_pattern(&elf, "fw.elf", "imported") {
        Err(DebugError::SymbolNotFound(text)) => {
            assert_eq!(text, "No symbols matching 'imported' found in ELF file fw.elf")
        }
        _ => panic!("expected an error"),
    }
}

#[test]
fn test_debug_overview() {
    let info = get_elf_debug_info(&usual_firmware()).unwrap();
    assert_eq!(info.entry_point, 0x0800_0101);
    assert_eq!(info.symbol_count, 8);
    assert!(info.has_debug_info);
    assert_eq!(
        names(&info.rtt_related_symbols),
        vec!["_segger_rtt", "rttBuffer", "shared_RTT_lock"]
    );
    let plain = get_elf_debug_info(&firmware(&[], &[], ".data")).unwrap();
    assert!(!plain.has_debug_info);
    assert_eq!(plain.symbol_count, 0);
    assert!(plain.rtt_related_symbols.is_empty());
}

#[test]
fn test_rtt_control_block() {
    assert_eq!(get_rtt_symbol_from_elf(&usual_firmware(), "fw.elf").unwrap(), 0x2000_8000);
    let flash = firmware(&[("_SEGGER_RTT", 0x0800_0010, 4, 1)], &[], ".data");
    match get_rtt_symbol_from_elf(&flash, "fw.elf") {
        Err(DebugError::RttError(text)) => {
            assert_eq!(text, "RTT symbol found at invalid address 0x08000010")
        }
        _ => panic!("expected an error"),
    }
    match get_rtt_symbol_from_elf(&firmware(&[], &[], ".data"), "fw.elf") {
        Err(DebugError::SymbolNotFound(text)) => {
            assert_eq!(text, "Symbol '_SEGGER_RTT' not found in ELF file fw.elf")
        }
        _ => panic!("expected an error"),
    }
}

#[test]
fn test_rtt_check_of_a_wide_address() {
    let info = SymbolInfo {
        name: "_SEGGER_RTT".to_string(),
        address: 0x1_2000_0000,
        size: 0,
        section: "unknown".to_string(),
    };
    match check_rtt_symbol(Ok(info)) {
        Err(DebugError::RttError(text)) => {
            assert_eq!(text, "RTT symbol found at invalid address 0x120000000")
        }
        _ => panic!("expected an error"),
    }
}

#[test]
fn test_image_accessors() {
    let elf = usual_firmware();
    let symbols = collect_all_symbols(&elf);
    assert_eq!(symbols.len(), 8);
    assert_eq!(symbols[0].name, Some("imported".to_string()));
    assert_eq!(symbols[0].section, None);
    assert_eq!(symbols[5].name, Some("Main".to_string()));
    assert_eq!(elf.section_name(Some(1)), ".text");
    assert_eq!(elf.section_name(Some(8)), ".shstrtab");
    assert_eq!(elf.section_name(Some(0)), "unknown");
    assert_eq!(elf.section_name(Some(9)), "unknown");
    assert_eq!(elf.section_name(None), "unknown");
}

/// A PE32+ image with one section and one COFF symbol.
fn windows_image(image_base: u64) -> Vec<u8> {
    let mut out: Vec<u8> = b"MZ".to_vec();
    out.resize(60, 0);
    put32(&mut out, 64);
    out.extend_from_slice(b"PE\0\0");
    put16(&mut out, 0x8664);
    put16(&mut out, 1);
    put32(&mut out, 0);
    let symbols_at = 64 + 24 + 112 + 40;
    put32(&mut out, symbols_at);
    put32(&mut out, 1);
    put16(&mut out, 112);
    put16(&mut out, 0x22);
    let optional = out.len();
    put16(&mut out, 0x20b);
    out.resize(optional + 24, 0);
    out.extend_from_slice(&image_base.to_le_bytes());
    out.resize(optional + 112, 0);
    out.extend_from_slice(b".text\0\0\0");
    put32(&mut out, 4);
    put32(&mut out, 0x1000);
    out.resize(symbols_at as usize, 0);
    out.extend_from_slice(b"start\0\0\0");
    put32(&mut out, 0x20);
    put16(&mut out, 1);
    put16(&mut out, 0);
    out.push(2);
    out.push(0);
    put32(&mut out, 4);
    out
}

#[test]
fn test_symbols_relative_to_a_base() {
    let elf = CachedElf::parse(windows_image(0x1_4000_0000).leak(), "fw.exe").unwrap();
    assert!(elf.has_readable_symbols());
    let info = get_symbol_from_elf(&elf, "fw.exe", "START").unwrap();
    assert_eq!(info.address, 0x1_4000_1020);
    assert_eq!(info.section, ".text");
}

#[test]
fn test_symbols_beyond_the_address_space() {
    let edge = u64::MAX - 2 * u64::from(u32::MAX);
    let last = CachedElf::parse(windows_image(edge).leak(), "fw.exe").unwrap();
    assert!(last.has_readable_symbols());
    assert_eq!(get_symbol_from_elf(&last, "fw.exe", "start").unwrap().address, edge + 0x1020);
    let beyond = CachedElf::parse(windows_image(u64::MAX).leak(), "fw.exe").unwrap();
    assert!(!beyond.has_readable_symbols());
    assert!(usual_firmware().has_readable_symbols());
}

#[test]
fn test_lookup_over_records() {
    let symbols = vec![
        symbol(None, 0x10, Some(1)),
        symbol(Some("Foo"), 0x10, Some(0)),
        symbol(Some("fOO"), 0x20, Some(1)),
        symbol(Some("foo_rtt"), 0x30, Some(5)),
        symbol(Some("Rtt"), 0x40, Some(1)),
    ];
    let sections = HashMap::from([(1, ".data".to_string())]);
    let found = find_symbol(&symbols, &sections, "FOO").unwrap();
    assert_eq!(found.name, "fOO");
    assert_eq!(found.section, ".data");
    assert!(find_symbol(&symbols, &sections, "bar").is_none());
    let like = find_like(&symbols, &sections, "Foo");
    assert_eq!(names(&like), vec!["fOO", "foo_rtt"]);
    assert_eq!(like[1].section, "unknown");
    assert_eq!(names(&find_rtt_related(&symbols, &sections)), vec!["foo_rtt"]);
}

#[test]
fn test_section_records() {
    let record = |index: usize, name: Option<&str>| SectionRecord {
        index,
        name: name.map(|n| n.to_string()),
        data: Ok(&[]),
    };
    let sections = vec![record(2, Some(".two")), record(1, None), record(9, Some(".far"))];
    let table = index_sections(&sections);
    assert_eq!(
        table,
        HashMap::from([(2, ".two".to_string()), (9, ".far".to_string())])
    );
    assert_eq!(label_section(&table, Some(2)), ".two");
    assert_eq!(label_section(&table, Some(9)), ".far");
    assert_eq!(label_section(&table, Some(1)), "unknown");
    assert_eq!(label_section(&table, Some(usize::MAX)), "unknown");
    assert_eq!(label_section(&table, None), "unknown");
    let renamed = index_sections(&vec![record(3, Some(".old")), record(3, None)]);
    assert_eq!(label_section(&renamed, Some(3)), "unknown");
    assert!(!has_debug_sections(&sections));
    assert!(has_debug_sections(&vec![record(1, None), record(2, Some(".zdebug_str"))]));
}
