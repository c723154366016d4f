use embedded_debugger::error::DebugError;
use embedded_debugger::parser::dwarf_data::AttrRead;
use embedded_debugger::parser::dwarf_data::AttrValue;
use embedded_debugger::parser::dwarf_parser::checked_get_variable_info;
use embedded_debugger::parser::dwarf_parser::find_section;
use embedded_debugger::parser::dwarf_parser::get_struct_layout;
use embedded_debugger::parser::dwarf_parser::get_struct_member_offset;
use embedded_debugger::parser::dwarf_parser::get_variable_info;
use embedded_debugger::parser::dwarf_parser::is_describable;
use embedded_debugger::parser::dwarf_parser::list_structs;
use embedded_debugger::parser::dwarf_parser::list_unit;
use embedded_debugger::parser::dwarf_parser::load_dwarf_data;
use embedded_debugger::parser::entry::get_attr_u64;
use embedded_debugger::parser::entry::get_integer;
use embedded_debugger::parser::entry::get_member_offset;
use embedded_debugger::parser::entry::get_size;
use embedded_debugger::parser::entry::get_string;
use embedded_debugger::parser::entry::Entry;
use embedded_debugger::parser::entry::EntryTable;
use embedded_debugger::parser::entry::Node;
use embedded_debugger::parser::entry::DW_TAG_ARRAY_TYPE;
use embedded_debugger::parser::entry::DW_TAG_BASE_TYPE;
use embedded_debugger::parser::entry::DW_TAG_CONST_TYPE;
use embedded_debugger::parser::entry::DW_TAG_ENUMERATION_TYPE;
use embedded_debugger::parser::entry::DW_TAG_ENUMERATOR;
use embedded_debugger::parser::entry::DW_TAG_MEMBER;
use embedded_debugger::parser::entry::DW_TAG_POINTER_TYPE;
use embedded_debugger::parser::entry::DW_TAG_STRUCTURE_TYPE;
use embedded_debugger::parser::entry::DW_TAG_SUBRANGE_TYPE;
use embedded_debugger::parser::entry::DW_TAG_TYPEDEF;
use embedded_debugger::parser::entry::DW_TAG_VARIABLE;
use embedded_debugger::parser::expression::checked_resolve_expression;
use embedded_debugger::parser::expression::is_resolvable;
use embedded_debugger::parser::expression::is_well_formed_part;
use embedded_debugger::parser::expression::parse_name_and_index;
use embedded_debugger::parser::expression::resolve_expression;
use embedded_debugger::parser::expression::resolve_in_variable;
use embedded_debugger::parser::layout::collect_structs;
use embedded_debugger::parser::layout::find_layout;
use embedded_debugger::parser::layout::find_member_offset;
use embedded_debugger::parser::type_resolver::find_primitive;
use embedded_debugger::parser::type_resolver::get_array_count;
use embedded_debugger::parser::type_resolver::get_dimension;
use embedded_debugger::parser::type_resolver::parse_enum_variants;
use embedded_debugger::parser::type_resolver::parse_type_entry;
use embedded_debugger::parser::types::PrimitiveType;
use embedded_debugger::parser::types::TypeInfo;
use embedded_debugger::parser::types::TypedMember;
use embedded_debugger::parser::variable::find_variable;
use embedded_debugger::parser::variable::get_variable_address;
use embedded_debugger::parser::variable::VariableInfo;
use embedded_debugger::rtt::elf_parser::CachedElf;
use embedded_debugger::rtt::object_file::SectionRecord;

// -----------------------------------------------------------------------------------------
// Images with debug information
// -----------------------------------------------------------------------------------------

fn put16(out: &mut Vec<u8>, n: u16) {
    out.extend_from_slice(&n.to_le_bytes());
}

fn put32(out: &mut Vec<u8>, n: u32) {
    out.extend_from_slice(&n.to_le_bytes());
}

/// A 32-bit little-endian ARM image with the given sections.
fn image(sections: &[(&str, Vec<u8>)]) -> CachedElf {
    let mut names: Vec<u8> = vec![0];
    let mut body: Vec<u8> = Vec::new();
    let mut headers: Vec<u8> = vec![0; 40];
    for (name, data) in sections {
        let offset = 52 + body.len() as u32;
        for n in [names.len() as u32, 1, 0, 0, offset, data.len() as u32, 0, 0, 1, 0] {
            put32(&mut headers, n);
        }
        names.extend_from_slice(name.as_bytes());
        names.push(0);
        body.extend_from_slice(data);
    }
    let own_name = names.len() as u32;
    names.extend_from_slice(b".shstrtab\0");
    let offset = 52 + body.len() as u32;
    for n in [own_name, 3, 0, 0, offset, names.len() as u32, 0, 0, 1, 0] {
        put32(&mut headers, n);
    }
    body.extend_from_slice(&names);

    let mut out: Vec<u8> = vec![0x7F, b'E', b'L', b'F', 1, 1, 1];
    out.resize(16, 0);
    put16(&mut out, 2);
    put16(&mut out, 0x28);
    put32(&mut out, 1);
    put32(&mut out, 0);
    put32(&mut out, 0);
    put32(&mut out, 52 + body.len() as u32);
    put32(&mut out, 0);
    for n in [52, 32, 0, 40, sections.len() as u16 + 2, sections.len() as u16 + 1] {
        put16(&mut out, n);
    }
    out.extend_from_slice(&body);
    out.extend_from_slice(&headers);
    CachedElf::parse(out.leak(), "fw.elf").unwrap()
}

const STRINGS: &[u8] =
    b"first\0point\0x\0y\0u32\0counter\0word\0table\0mode\0loop\0lost\0ghost\0\xFFodd\0";

fn string(name: &str) -> u32 {
    let bytes = name.as_bytes();
    (0..STRINGS.len())
        .find(|i| STRINGS[*i..].starts_with(bytes) && STRINGS.get(i + bytes.len()) == Some(&0))
        .unwrap() as u32
}

/// Abbreviation codes, in order: unit, structure, member, base type, variable, typedef, pointer,
/// array, constant, enumeration, variable at a number, variable without a place, array with
/// dimensions, dimensions by upper bound, by count, without either and by both bounds, enumeration
/// with enumerators, enumerators of unknown and known sign, member with a type, unit with an
/// indexed name, function.
fn abbreviations() -> Vec<u8> {
    let name = [0x03, 0x0e];
    let size = [0x0b, 0x0b];
    let at = [0x38, 0x0b];
    let encoding = [0x3e, 0x0b];
    let kind = [0x49, 0x13];
    let place = [0x02, 0x18];
    let number = [0x02, 0x0f];
    let lines: Vec<(u8, u8, Vec<[u8; 2]>)> = vec![
        (0x11, 1, vec![]),
        (0x13, 1, vec![name, size]),
        (0x0d, 0, vec![name, at]),
        (0x24, 0, vec![name, size, encoding]),
        (0x34, 0, vec![name, kind, place]),
        (0x16, 0, vec![name, kind]),
        (0x0f, 0, vec![size, kind]),
        (0x01, 0, vec![kind]),
        (0x26, 0, vec![kind]),
        (0x04, 0, vec![name, size]),
        (0x34, 0, vec![name, number]),
        (0x34, 0, vec![name]),
        (0x01, 1, vec![kind]),
        (0x21, 0, vec![[0x2f, 0x0b]]),
        (0x21, 0, vec![[0x37, 0x0f]]),
        (0x21, 0, vec![]),
        (0x21, 0, vec![[0x22, 0x0b], [0x2f, 0x0b]]),
        (0x04, 1, vec![name, size]),
        (0x28, 0, vec![name, [0x1c, 0x0b]]),
        (0x28, 0, vec![name, [0x1c, 0x0d]]),
        (0x0d, 0, vec![name, kind, at]),
        (0x11, 1, vec![[0x03, 0x1a]]),
        (0x2e, 1, vec![]),
    ];
    let mut out: Vec<u8> = Vec::new();
    for (i, (tag, children, attributes)) in lines.iter().enumerate() {
        out.push(i as u8 + 1);
        out.push(*tag);
        out.push(*children);
        for a in attributes {
            out.extend_from_slice(a);
        }
        out.extend_from_slice(&[0, 0]);
    }
    out.push(0);
    out
}

/// The entries of a unit under construction; offsets count from the unit's header.
struct Unit {
    entries: Vec<u8>,
}

impl Unit {
    fn new() -> Unit {
        Unit { entries: vec![1] }
    }

    fn next_offset(&self) -> u32 {
        11 + self.entries.len() as u32
    }

    fn add_entry(&mut self, code: u8, name: Option<&str>, rest: &[u8]) -> u32 {
        let offset = self.next_offset();
        self.entries.push(code);
        if let Some(name) = name {
            put32(&mut self.entries, string(name));
        }
        self.entries.extend_from_slice(rest);
        offset
    }

    fn end_children(&mut self) {
        self.entries.push(0);
    }

    fn base_u32(&mut self) -> u32 {
        self.add_entry(4, Some("u32"), &[4, 0x07])
    }

    fn refer(&mut self, code: u8, name: Option<&str>, before: &[u8], target: u32) -> u32 {
        let mut rest = before.to_vec();
        put32(&mut rest, target);
        self.add_entry(code, name, &rest)
    }

    fn variable(&mut self, name: &str, kind: u32, address: u32) -> u32 {
        let mut rest: Vec<u8> = Vec::new();
        put32(&mut rest, kind);
        rest.extend_from_slice(&[5, 0x03]);
        put32(&mut rest, address);
        self.add_entry(5, Some(name), &rest)
    }

    fn finish(mut self) -> Vec<u8> {
        self.end_children();
        let mut out: Vec<u8> = Vec::new();
        put32(&mut out, 7 + self.entries.len() as u32);
        put16(&mut out, 4);
        put32(&mut out, 0);
        out.push(4);
        out.extend_from_slice(&self.entries);
        out
    }
}

fn debug_image(units: Vec<Vec<u8>>) -> CachedElf {
    image(&[
        (".debug_abbrev", abbreviations()),
        (".debug_info", units.concat()),
        (".debug_str", STRINGS.to_vec()),
    ])
}

fn usual_unit() -> Unit {
    let mut unit = Unit::new();
    let number = unit.base_u32();
    unit.add_entry(2, Some("point"), &[8]);
    unit.add_entry(3, Some("x"), &[4]);
    unit.add_entry(3, Some("y"), &[0]);
    unit.end_children();
    unit.variable("counter", number, 0x2000_0010);
    unit
}

fn is_dwarf_error<T>(r: Result<T, DebugError>, expected: &str) -> bool {
    matches!(r, Err(DebugError::DwarfError(text)) if text == expected)
}

#[test]
fn test_structures_are_listed_over_units() {
    let mut second = Unit::new();
    second.add_entry(2, Some("first"), &[2]);
    second.end_children();
    let elf = debug_image(vec![usual_unit().finish(), second.finish()]);
    let structs = list_structs(&elf).unwrap();
    let listed: Vec<(&str, u64)> = structs.iter().map(|s| (s.name.as_str(), s.size)).collect();
    assert_eq!(listed, vec![("point", 8), ("first", 2)]);
    for s in &structs {
        assert_eq!(get_struct_layout(&elf, &s.name).unwrap().size, s.size);
    }
}

#[test]
fn test_layout_of_a_recorded_structure() {
    let elf = debug_image(vec![usual_unit().finish()]);
    let layout = get_struct_layout(&elf, "point").unwrap();
    assert_eq!(layout.name, "point");
    assert_eq!(layout.size, 8);
    assert_eq!(layout.alignment, 0);
    assert_eq!(layout.members.len(), 2);
    assert_eq!(layout.members[0].name, "y");
    assert_eq!(layout.members[0].offset, 0);
    assert_eq!(layout.members[1].name, "x");
    assert_eq!(layout.members[1].offset, 4);
    assert_eq!(layout.members[1].size, 0);
    assert_eq!(layout.members[1].typename, "unknown");
    assert_eq!(get_struct_member_offset(&elf, "point", "x").unwrap(), 4);
    assert_eq!(get_struct_member_offset(&elf, "point", "y").unwrap(), 0);
    match get_struct_member_offset(&elf, "point", "z") {
        Err(DebugError::MemberNotFound(owner, member)) => {
            assert_eq!((owner.as_str(), member.as_str()), ("point", "z"))
        }
        _ => panic!("expected an error"),
    }
}

#[test]
fn test_layout_of_the_first_and_the_last_entry() {
    let mut unit = Unit::new();
    unit.add_entry(2, Some("first"), &[8]);
    unit.add_entry(3, Some("x"), &[0]);
    unit.add_entry(3, Some("y"), &[4]);
    unit.end_children();
    unit.add_entry(2, Some("point"), &[4]);
    unit.add_entry(3, Some("word"), &[2]);
    unit.end_children();
    let elf = debug_image(vec![unit.finish(), usual_unit().finish()]);
    let names = |layout: &str| -> Vec<String> {
        get_struct_layout(&elf, layout).unwrap().members.into_iter().map(|m| m.name).collect()
    };
    assert_eq!(names("first"), vec!["x", "y"]);
    assert_eq!(names("point"), vec!["word"]);
}

#[test]
fn test_missing_structures() {
    let elf = debug_image(vec![usual_unit().finish()]);
    assert!(matches!(get_struct_layout(&elf, "Point"),
        Err(DebugError::StructNotFound(name)) if name == "Point"));
    assert!(matches!(get_struct_member_offset(&elf, "lost", "x"),
        Err(DebugError::StructNotFound(name)) if name == "lost"));
    assert!(list_structs(&debug_image(vec![])).unwrap().is_empty());
}

#[test]
fn test_missing_sections() {
    assert!(is_dwarf_error(list_structs(&image(&[])), "Section .debug_abbrev not found"));
    let half = image(&[(".debug_abbrev", abbreviations())]);
    assert!(is_dwarf_error(get_struct_layout(&half, "point"), "Section .debug_info not found"));
    assert!(is_describable(&half, "counter"));
    assert!(is_dwarf_error(get_variable_info(&half, "counter"), "Section .debug_info not found"));
    assert!(is_dwarf_error(load_dwarf_data(&half), "Section .debug_info not found"));
    let nameless = image(&[
        (".debug_abbrev", abbreviations()),
        (".debug_info", usual_unit().finish()),
    ]);
    assert!(list_structs(&nameless).unwrap().is_empty());
}

#[test]
fn test_sections_by_name() {
    let record = |index: usize, name: Option<&str>, data: Result<&'static [u8], String>| {
        SectionRecord { index, name: name.map(|n| n.to_string()), data }
    };
    let sections = vec![
        record(1, None, Ok(&[9])),
        record(2, Some(".a"), Ok(&[1, 2])),
        record(3, Some(".a"), Ok(&[3])),
        record(4, Some(".b"), Err("out of bounds".to_string())),
    ];
    assert_eq!(find_section(&sections, ".a").unwrap(), &[1, 2]);
    assert!(is_dwarf_error(find_section(&sections, ".b"), "out of bounds"));
    assert!(is_dwarf_error(find_section(&sections, ".c"), "Section .c not found"));
}

#[test]
fn test_broken_units_are_reported_where_they_are_reached() {
    let mut broken = Unit::new();
    broken.entries.push(99);
    let broken = broken.finish();
    let elf = debug_image(vec![usual_unit().finish(), broken]);
    assert!(matches!(list_structs(&elf), Err(DebugError::DwarfError(_))));
    assert_eq!(get_struct_layout(&elf, "point").unwrap().size, 8);
    assert!(matches!(get_struct_layout(&elf, "lost"), Err(DebugError::DwarfError(_))));
    assert_eq!(get_variable_info(&elf, "counter").unwrap().address, 0x2000_0010);
    let cut = debug_image(vec![usual_unit().finish(), vec![20, 0, 0, 0, 4]]);
    assert_eq!(get_struct_layout(&cut, "point").unwrap().size, 8);
    assert!(matches!(get_struct_layout(&cut, "lost"), Err(DebugError::DwarfError(_))));
}

#[test]
fn test_units_without_abbreviations_are_reported() {
    let mut unit = usual_unit().finish();
    unit[6] = 0xF0;
    let elf = debug_image(vec![unit]);
    assert!(matches!(list_structs(&elf), Err(DebugError::DwarfError(_))));
    assert!(matches!(
        checked_get_variable_info(&elf, "counter"),
        Some(Err(DebugError::DwarfError(_)))
    ));
}

#[test]
fn test_units_without_entries_are_refused_for_variables() {
    let mut out: Vec<u8> = Vec::new();
    put32(&mut out, 7);
    put16(&mut out, 4);
    put32(&mut out, 0);
    out.push(4);
    let elf = debug_image(vec![out]);
    assert!(list_structs(&elf).unwrap().is_empty());
    assert!(matches!(get_variable_info(&elf, "counter"), Err(DebugError::DwarfError(_))));
}

#[test]
fn test_variables() {
    let elf = debug_image(vec![usual_unit().finish()]);
    assert!(is_describable(&elf, "counter"));
    let var = get_variable_info(&elf, "counter").unwrap();
    assert_eq!(var.name, "counter");
    assert_eq!(var.address, 0x2000_0010);
    assert!(matches!(var.type_info, TypeInfo::Primitive(PrimitiveType::U32)));
    assert!(matches!(get_variable_info(&elf, "lost"),
        Err(DebugError::VariableNotFound(name)) if name == "lost"));
    assert!(matches!(checked_get_variable_info(&elf, "lost"),
        Some(Err(DebugError::VariableNotFound(name))) if name == "lost"));
}

#[test]
fn test_types_of_variables() {
    let mut unit = Unit::new();
    let number = unit.base_u32();
    let word = unit.refer(6, Some("word"), &[], number);
    let constant = unit.refer(9, None, &[], word);
    let array = unit.refer(8, None, &[], constant);
    let pointer = unit.refer(7, None, &[4], array);
    let mode = unit.add_entry(10, Some("mode"), &[1]);
    unit.variable("counter", constant, 1);
    unit.variable("table", pointer, 2);
    unit.variable("first", mode, 3);
    unit.variable("ghost", 0xFFFF, 4);
    let elf = debug_image(vec![unit.finish()]);
    let kind = |name: &str| get_variable_info(&elf, name).unwrap().type_info;
    assert_eq!(kind("counter").typename(), "u32");
    assert_eq!(kind("table").typename(), "*[u32; 1]");
    assert_eq!(kind("table").size(), 4);
    assert_eq!(kind("first").typename(), "enum mode");
    assert_eq!(kind("first").size(), 1);
    assert!(is_describable(&elf, "ghost"));
    assert!(matches!(get_variable_info(&elf, "ghost"), Err(DebugError::DwarfError(_))));
}

#[test]
fn test_places_of_variables() {
    let mut unit = Unit::new();
    unit.add_entry(11, Some("counter"), &[0x90, 0x01]);
    unit.add_entry(12, Some("lost"), &[]);
    let mut rest: Vec<u8> = Vec::new();
    put32(&mut rest, 11);
    rest.extend_from_slice(&[2, 0x91, 0x00]);
    unit.add_entry(5, Some("ghost"), &rest);
    let mut short: Vec<u8> = Vec::new();
    put32(&mut short, 11);
    short.extend_from_slice(&[3, 0x03, 0x00, 0x01]);
    unit.add_entry(5, Some("table"), &short);
    let elf = debug_image(vec![unit.finish()]);
    let var = get_variable_info(&elf, "counter").unwrap();
    assert_eq!(var.address, 0x90);
    assert_eq!(var.type_info.typename(), "unknown");
    for name in ["lost", "ghost", "table"] {
        assert!(is_dwarf_error(
            get_variable_info(&elf, name),
            "Cannot determine variable address"
        ));
    }
}

#[test]
fn test_circular_types() {
    let mut unit = Unit::new();
    let first = unit.next_offset();
    unit.refer(9, None, &[], first + 5);
    unit.refer(9, None, &[], first);
    unit.variable("loop", first, 8);
    let number = unit.base_u32();
    unit.variable("counter", number, 4);
    let own = unit.add_entry(2, Some("point"), &[8]);
    let mut rest: Vec<u8> = Vec::new();
    put32(&mut rest, own);
    rest.push(0);
    unit.add_entry(21, Some("x"), &rest);
    unit.end_children();
    unit.variable("ghost", own, 12);
    let elf = debug_image(vec![unit.finish()]);
    for name in ["loop", "ghost"] {
        assert!(!is_describable(&elf, name));
        assert!(checked_get_variable_info(&elf, name).is_none());
        assert!(checked_resolve_expression(&elf, name).is_none());
    }
    assert_eq!(checked_get_variable_info(&elf, "counter").unwrap().unwrap().address, 4);
}

fn typed_member(unit: &mut Unit, name: &str, kind: u32, at: u8) {
    let mut rest: Vec<u8> = Vec::new();
    put32(&mut rest, kind);
    rest.push(at);
    unit.add_entry(21, Some(name), &rest);
}

#[test]
fn test_members_of_variables() {
    let mut unit = Unit::new();
    let number = unit.base_u32();
    let array = unit.refer(13, None, &[], number);
    unit.add_entry(14, None, &[2]);
    unit.end_children();
    let inner = unit.add_entry(2, Some("point"), &[8]);
    typed_member(&mut unit, "x", number, 0);
    typed_member(&mut unit, "y", number, 4);
    unit.end_children();
    let list = unit.next_offset();
    let pointer = list + 6;
    unit.add_entry(2, Some("first"), &[32]);
    let at = unit.refer(7, None, &[4], list);
    assert_eq!(at, pointer);
    typed_member(&mut unit, "table", array, 4);
    typed_member(&mut unit, "lost", inner, 16);
    typed_member(&mut unit, "loop", pointer, 24);
    unit.end_children();
    unit.variable("ghost", list, 0x2000_0000);
    let elf = debug_image(vec![unit.finish()]);

    let var = get_variable_info(&elf, "ghost").unwrap();
    assert_eq!(var.type_info.typename(), "struct first");
    match &var.type_info {
        TypeInfo::Struct { members, size, .. } => {
            assert_eq!(*size, 32);
            let shown: Vec<(String, u64, String)> = members
                .iter()
                .map(|m| (m.name.clone(), m.offset, m.type_info.typename()))
                .collect();
            let expected: Vec<(String, u64, String)> = [
                ("table", 4, "[u32; 3]"),
                ("lost", 16, "struct point"),
                ("loop", 24, "*struct first"),
            ]
            .iter()
            .map(|(n, o, t)| (n.to_string(), *o, t.to_string()))
            .collect();
            assert_eq!(shown, expected);
        }
        _ => panic!("expected a structure"),
    }
    assert_eq!(format!("{:?}", var.clone()), format!("{:?}", var));
    let resolved = resolve_expression(&elf, "ghost.lost").unwrap();
    assert_eq!(format!("{:?}", resolved.clone()), format!("{:?}", resolved));
    let layout = get_struct_layout(&elf, "first").unwrap();
    assert_eq!(layout.members.len(), 3);
    assert_eq!(format!("{:?}", layout.clone()), format!("{:?}", layout));
    let listed = list_structs(&elf).unwrap();
    assert_eq!(format!("{:?}", listed.clone()), format!("{:?}", listed));
    let at = |expr: &str| resolve_expression(&elf, expr).unwrap().address;
    assert_eq!(at("ghost"), 0x2000_0000);
    assert_eq!(at("ghost.table"), 0x2000_0004);
    assert_eq!(at("ghost.table[2]"), 0x2000_000C);
    assert_eq!(at("ghost.lost.y"), 0x2000_0014);
    assert_eq!(resolve_expression(&elf, "ghost.table[2]").unwrap().type_info.typename(), "u32");
    assert!(matches!(resolve_expression(&elf, "ghost.z"),
        Err(DebugError::MemberNotFound(owner, member))
            if owner == "struct first" && member == "z"));
    assert!(is_dwarf_error(
        resolve_expression(&elf, "ghost.loop.table"),
        "Cannot access member 'table' on non-struct type"
    ));
}

#[test]
fn test_dimensions_of_arrays() {
    let mut unit = Unit::new();
    let number = unit.base_u32();
    let mut offsets: Vec<u32> = Vec::new();
    for dimensions in [
        vec![(14u8, vec![9u8])],
        vec![(15, vec![0x80, 0x02])],
        vec![(16, vec![])],
        vec![(17, vec![2, 5])],
        vec![(14, vec![1]), (15, vec![3])],
        vec![(15, vec![0])],
        vec![],
    ] {
        offsets.push(unit.refer(13, None, &[], number));
        for (code, rest) in dimensions {
            unit.add_entry(code, None, &rest);
        }
        unit.end_children();
    }
    let names = ["first", "point", "x", "y", "counter", "word", "table"];
    for (i, name) in names.iter().enumerate() {
        unit.variable(name, offsets[i], 0x100);
    }
    let huge = unit.refer(13, None, &[], number);
    unit.add_entry(15, None, &[0xFF, 0xFF, 0xFF, 0xFF, 0xFF, 0xFF, 0xFF, 0xFF, 0x7F]);
    unit.end_children();
    unit.variable("ghost", huge, 0x100);
    let elf = debug_image(vec![unit.finish()]);
    let shown: Vec<(String, u64)> = names
        .iter()
        .map(|n| get_variable_info(&elf, n).unwrap().type_info)
        .map(|t| (t.typename(), t.size()))
        .collect();
    let counts = [10u64, 256, 1, 4, 6, 0, 1];
    let expected: Vec<(String, u64)> =
        counts.iter().map(|n| (format!("[u32; {}]", n), 4 * n)).collect();
    assert_eq!(shown, expected);
    assert!(checked_get_variable_info(&elf, "ghost").is_none());
}

#[test]
fn test_variants_of_enumerations() {
    let mut unit = Unit::new();
    let mode = unit.add_entry(18, Some("mode"), &[1]);
    unit.add_entry(19, Some("first"), &[200]);
    unit.add_entry(20, Some("lost"), &[0x7F]);
    unit.end_children();
    unit.variable("counter", mode, 0x100);
    let elf = debug_image(vec![unit.finish()]);
    match get_variable_info(&elf, "counter").unwrap().type_info {
        TypeInfo::Enum { name, size, variants } => {
            assert_eq!((name.as_str(), size), ("mode", 1));
            let shown: Vec<(&str, i64)> =
                variants.iter().map(|v| (v.name.as_str(), v.value)).collect();
            assert_eq!(shown, vec![("first", 200), ("lost", -1)]);
        }
        _ => panic!("expected an enumeration"),
    }
}

#[test]
fn test_globals_behind_locals_and_declarations() {
    let mut first = Unit::new();
    let number = first.base_u32();
    first.add_entry(23, None, &[]);
    let mut local: Vec<u8> = Vec::new();
    put32(&mut local, number);
    local.extend_from_slice(&[2, 0x91, 0x7C]);
    first.add_entry(5, Some("counter"), &local);
    first.end_children();
    first.add_entry(12, Some("counter"), &[]);
    first.add_entry(12, Some("ghost"), &[]);
    let mut second = Unit::new();
    let number = second.base_u32();
    second.variable("counter", number, 0x2000_0040);
    second.variable("counter", number, 0x2000_0080);
    let elf = debug_image(vec![first.finish(), second.finish()]);
    let var = get_variable_info(&elf, "counter").unwrap();
    assert_eq!(var.address, 0x2000_0040);
    assert_eq!(var.type_info.typename(), "u32");
    assert!(is_dwarf_error(
        get_variable_info(&elf, "ghost"),
        "Cannot determine variable address"
    ));
}

#[test]
fn test_expressions_that_do_not_start_with_an_address() {
    let mut unit = Unit::new();
    let mut rest: Vec<u8> = Vec::new();
    put32(&mut rest, 11);
    rest.push(11);
    rest.push(0x93);
    rest.extend_from_slice(&[0xFF; 9]);
    rest.push(0x01);
    unit.add_entry(5, Some("ghost"), &rest);
    let mut none: Vec<u8> = Vec::new();
    put32(&mut none, 11);
    none.push(0);
    unit.add_entry(5, Some("lost"), &none);
    let elf = debug_image(vec![unit.finish()]);
    for name in ["ghost", "lost"] {
        assert!(is_dwarf_error(
            get_variable_info(&elf, name),
            "Cannot determine variable address"
        ));
    }
}

#[test]
fn test_units_described_by_indices() {
    let indexed = |index: &[u8]| {
        let mut unit = Unit { entries: vec![22] };
        unit.entries.extend_from_slice(index);
        let number = unit.base_u32();
        unit.variable("counter", number, 0x40);
        unit.finish()
    };
    let near = debug_image(vec![indexed(&[5])]);
    assert_eq!(checked_get_variable_info(&near, "counter").unwrap().unwrap().address, 0x40);
    let far = [0xFF, 0xFF, 0xFF, 0xFF, 0xFF, 0xFF, 0xFF, 0xFF, 0x7F];
    let elf = debug_image(vec![indexed(&far)]);
    assert!(checked_get_variable_info(&elf, "counter").is_none());
    assert!(list_structs(&elf).unwrap().is_empty());
    let mut first = Unit::new();
    first.add_entry(12, Some("counter"), &[]);
    let behind = debug_image(vec![first.finish(), indexed(&far)]);
    assert!(is_dwarf_error(
        get_variable_info(&behind, "counter"),
        "Cannot determine variable address"
    ));
}

#[test]
fn test_expressions_over_an_image() {
    let mut unit = Unit::new();
    let number = unit.base_u32();
    let array = unit.refer(8, None, &[], number);
    unit.variable("table", array, 0x2000_0000);
    unit.variable("counter", number, 0x2000_0100);
    let structure = unit.add_entry(2, Some("point"), &[8]);
    unit.end_children();
    unit.variable("first", structure, 0x2000_0200);
    let elf = debug_image(vec![unit.finish()]);
    assert!(is_resolvable(&elf, "table[3]"));
    let element = resolve_expression(&elf, "table[3]").unwrap();
    assert_eq!(element.expression, "table[3]");
    assert_eq!(element.address, 0x2000_000C);
    assert_eq!(element.type_info.typename(), "u32");
    assert_eq!(resolve_expression(&elf, "table").unwrap().type_info.typename(), "[u32; 1]");
    assert_eq!(resolve_expression(&elf, "counter").unwrap().address, 0x2000_0100);
    assert!(is_dwarf_error(resolve_expression(&elf, "counter[0]"), "'counter' is not an array"));
    assert!(is_dwarf_error(
        resolve_expression(&elf, "counter.x"),
        "Cannot access member 'x' on non-struct type"
    ));
    assert!(matches!(resolve_expression(&elf, "first.x"),
        Err(DebugError::MemberNotFound(owner, member))
            if owner == "struct point" && member == "x"));
    assert!(matches!(resolve_expression(&elf, ""),
        Err(DebugError::VariableNotFound(name)) if name.is_empty()));
    assert!(checked_resolve_expression(&elf, "table[").is_none());
    assert!(checked_resolve_expression(&elf, &format!("table[{}]", usize::MAX)).is_none());
    assert_eq!(checked_resolve_expression(&elf, "table[1]").unwrap().unwrap().address, 0x2000_0004);
}

#[test]
fn test_texts_of_the_string_section() {
    let elf = debug_image(vec![usual_unit().finish()]);
    let dwarf = load_dwarf_data(&elf).unwrap();
    let at = |offset: usize| get_string(&Ok(Some(AttrValue::DebugStrRef(offset))), &dwarf);
    assert_eq!(at(0), Some("first".to_string()));
    assert_eq!(at(2), Some("rst".to_string()));
    assert_eq!(at(5), Some("".to_string()));
    assert_eq!(at(STRINGS.len() - 5), Some("\u{FFFD}odd".to_string()));
    assert_eq!(at(STRINGS.len()), None);
    assert_eq!(at(usize::MAX), None);
    assert_eq!(get_string(&Ok(Some(AttrValue::Udata(0))), &dwarf), None);
    assert_eq!(get_string(&Ok(None), &dwarf), None);
    assert_eq!(get_string(&Err("broken".to_string()), &dwarf), None);
}

// -----------------------------------------------------------------------------------------
// Entries as plain records
// -----------------------------------------------------------------------------------------

fn plain(depth: isize, tag: u16, name: Option<&str>) -> Entry {
    Entry {
        depth,
        tag,
        name: name.map(|n| n.to_string()),
        byte_size: None,
        member_location: None,
        encoding: None,
        count: None,
        lower_bound: None,
        upper_bound: None,
        const_value: None,
        location: Ok(None),
        type_ref: Ok(None),
    }
}

fn member_entry(depth: isize, name: Option<&str>, location: Option<u64>) -> Entry {
    Entry { member_location: location, ..plain(depth, DW_TAG_MEMBER, name) }
}

/// A structure with a nested one, and a structure behind it; depths are relative.
fn point_entries() -> Vec<Entry> {
    vec![
        plain(0, 0x11, None),
        Entry { byte_size: Some(16), ..plain(1, DW_TAG_STRUCTURE_TYPE, Some("point")) },
        member_entry(1, Some("c"), Some(8)),
        member_entry(0, None, Some(2)),
        plain(0, DW_TAG_STRUCTURE_TYPE, None),
        member_entry(1, Some("a"), None),
        Entry { byte_size: Some(4), ..member_entry(-1, Some("b"), Some(8)) },
        plain(0, DW_TAG_BASE_TYPE, Some("u8")),
        plain(-1, DW_TAG_STRUCTURE_TYPE, Some("later")),
        member_entry(1, Some("z"), Some(1)),
    ]
}

#[test]
fn test_attribute_values() {
    let number: AttrRead = Ok(Some(AttrValue::Udata(7)));
    assert_eq!(get_attr_u64(&number), Some(7));
    assert_eq!(get_attr_u64(&Ok(Some(AttrValue::UnitRef(7)))), None);
    assert_eq!(get_attr_u64(&Ok(None)), None);
    assert_eq!(get_attr_u64(&Err("broken".to_string())), None);
    assert_eq!(get_member_offset(&member_entry(0, None, Some(12))), 12);
    assert_eq!(get_member_offset(&member_entry(0, None, None)), 0);
    assert_eq!(get_size(&plain(0, 0, None)), 0);
}

#[test]
fn test_layout_in_a_unit() {
    let table = EntryTable { entries: point_entries(), failure: None };
    let layout = find_layout(&table, "point").unwrap().unwrap();
    let members: Vec<(&str, u64, u64)> =
        layout.members.iter().map(|m| (m.name.as_str(), m.offset, m.size)).collect();
    assert_eq!(members, vec![("a", 0, 0), ("c", 8, 0), ("b", 8, 4)]);
    assert_eq!(layout.size, 16);
    assert!(find_layout(&table, "nothing").is_none());
    assert!(find_layout(&table, "u8").is_none());
    assert_eq!(find_member_offset(Ok(layout), "point", "b").unwrap(), 8);
}

#[test]
fn test_layout_of_a_unit_that_breaks_off() {
    let table = EntryTable { entries: point_entries(), failure: Some("broken".to_string()) };
    assert!(find_layout(&table, "point").unwrap().is_ok());
    assert!(is_dwarf_error(find_layout(&table, "later").unwrap(), "broken"));
    assert!(is_dwarf_error(find_layout(&table, "nothing").unwrap(), "broken"));
    let failed = find_layout(&table, "later").unwrap();
    assert!(is_dwarf_error(find_member_offset(failed, "later", "z"), "broken"));
}

#[test]
fn test_listing_a_unit() {
    let structs = collect_structs(&point_entries());
    let listed: Vec<(&str, u64)> = structs.iter().map(|s| (s.name.as_str(), s.size)).collect();
    assert_eq!(listed, vec![("point", 16), ("later", 0)]);
    let mut all = structs;
    let table = EntryTable { entries: point_entries(), failure: None };
    assert!(list_unit(&table, &mut all).is_ok());
    assert_eq!(all.len(), 4);
    let broken = EntryTable { entries: point_entries(), failure: Some("broken".to_string()) };
    assert!(is_dwarf_error(list_unit(&broken, &mut all), "broken"));
}

#[test]
fn test_primitive_types() {
    let expected = [
        (7, 1, Some(PrimitiveType::U8)),
        (5, 1, Some(PrimitiveType::I8)),
        (7, 2, Some(PrimitiveType::U16)),
        (5, 2, Some(PrimitiveType::I16)),
        (7, 4, Some(PrimitiveType::U32)),
        (5, 4, Some(PrimitiveType::I32)),
        (7, 8, Some(PrimitiveType::U64)),
        (5, 8, Some(PrimitiveType::I64)),
        (4, 4, Some(PrimitiveType::F32)),
        (4, 8, Some(PrimitiveType::F64)),
        (2, 4, Some(PrimitiveType::Bool)),
        (8, 1, Some(PrimitiveType::Char)),
        (6, 2, Some(PrimitiveType::Char)),
        (7, 16, None),
        (4, 2, None),
        (9, 1, None),
    ];
    for (encoding, size, primitive) in expected {
        assert_eq!(find_primitive(Some(encoding), size), primitive);
    }
    assert_eq!(find_primitive(None, 4), None);
}

fn leaf(entry: Entry) -> Node {
    Node { entry, children: vec![], failure: None }
}

fn dimension(count: Option<u64>, lower: Option<u64>, upper: Option<u64>) -> Entry {
    Entry {
        count,
        lower_bound: lower,
        upper_bound: upper,
        ..plain(1, DW_TAG_SUBRANGE_TYPE, None)
    }
}

fn enumerator(name: Option<&str>, value: Option<i64>) -> Entry {
    Entry { const_value: value, ..plain(1, DW_TAG_ENUMERATOR, name) }
}

#[test]
fn test_array_counts() {
    assert_eq!(get_dimension(&dimension(Some(7), None, Some(1))), Some(7));
    assert_eq!(get_dimension(&dimension(None, None, Some(7))), Some(8));
    assert_eq!(get_dimension(&dimension(None, Some(3), Some(7))), Some(5));
    assert_eq!(get_dimension(&dimension(None, Some(8), Some(7))), Some(0));
    assert_eq!(get_dimension(&dimension(None, None, Some(u64::MAX))), None);
    assert_eq!(get_dimension(&dimension(None, None, None)), Some(1));
    assert_eq!(get_array_count(&vec![]), Some(1));
    let two = vec![
        dimension(Some(3), None, None),
        plain(0, DW_TAG_BASE_TYPE, None),
        dimension(None, None, Some(4)),
    ];
    assert_eq!(get_array_count(&two), Some(15));
    let large = vec![dimension(Some(u64::MAX), None, None), dimension(Some(2), None, None)];
    assert_eq!(get_array_count(&large), None);
    let empty = vec![dimension(Some(0), None, None), dimension(None, None, Some(u64::MAX))];
    assert_eq!(get_array_count(&empty), Some(0));
}

#[test]
fn test_enumerators() {
    let children = vec![
        enumerator(Some("A"), Some(-1)),
        enumerator(None, Some(2)),
        enumerator(Some("B"), None),
        plain(0, DW_TAG_MEMBER, Some("C")),
        enumerator(Some("D"), Some(4)),
    ];
    let variants = parse_enum_variants(&children);
    let shown: Vec<(&str, i64)> = variants.iter().map(|v| (v.name.as_str(), v.value)).collect();
    assert_eq!(shown, vec![("A", -1), ("D", 4)]);
    assert_eq!(get_integer(Some(200), Some(-56)), Some(200));
    assert_eq!(get_integer(Some(u64::MAX), Some(-1)), Some(-1));
    assert_eq!(get_integer(None, Some(-3)), Some(-3));
    assert_eq!(get_integer(None, None), None);
}

#[test]
fn test_type_entries() {
    let number = || Ok(TypeInfo::Primitive(PrimitiveType::U32));
    let parse = |node: &Node| parse_type_entry(node, number(), Ok(vec![])).unwrap();
    let shown = |e: Entry| format!("{:?}", parse(&leaf(e)).unwrap());
    let base = || Entry {
        byte_size: Some(2),
        encoding: Some(5),
        ..plain(0, DW_TAG_BASE_TYPE, Some("short"))
    };
    assert_eq!(shown(base()), "Primitive(I16)");
    let odd = Entry { byte_size: Some(3), ..plain(0, DW_TAG_BASE_TYPE, Some("odd")) };
    assert_eq!(shown(odd), "Unknown { size: 3, name: Some(\"odd\") }");
    let pointer = || Entry { byte_size: Some(4), ..plain(0, DW_TAG_POINTER_TYPE, None) };
    assert_eq!(shown(pointer()), "Pointer { target: Primitive(U32), size: 4 }");
    assert_eq!(
        shown(plain(0, DW_TAG_ARRAY_TYPE, None)),
        "Array { element: Primitive(U32), count: 1, size: 4 }"
    );
    assert_eq!(
        shown(plain(0, DW_TAG_STRUCTURE_TYPE, None)),
        "Struct { name: \"<anonymous>\", size: 0, members: [] }"
    );
    assert_eq!(
        shown(plain(0, DW_TAG_ENUMERATION_TYPE, Some("e"))),
        "Enum { name: \"e\", size: 0, variants: [] }"
    );
    assert_eq!(shown(plain(0, DW_TAG_TYPEDEF, Some("word"))), "Primitive(U32)");
    assert_eq!(shown(plain(0, DW_TAG_CONST_TYPE, None)), "Primitive(U32)");
    assert_eq!(shown(plain(0, 0x15, Some("f"))), "Unknown { size: 0, name: Some(\"f\") }");
    let failed = || Err(DebugError::DwarfError("broken".to_string()));
    let pointer = leaf(pointer());
    assert!(is_dwarf_error(parse_type_entry(&pointer, failed(), Ok(vec![])).unwrap(), "broken"));
    assert!(parse_type_entry(&leaf(base()), failed(), Ok(vec![])).unwrap().is_ok());
}

#[test]
fn test_type_entries_with_entries_below() {
    let number = || Ok(TypeInfo::Primitive(PrimitiveType::U32));
    let below = |tag: u16, children: Vec<Entry>, failure: Option<&str>| Node {
        entry: plain(0, tag, None),
        children,
        failure: failure.map(|f| f.to_string()),
    };
    let three = || vec![dimension(Some(3), None, None)];
    let array = below(DW_TAG_ARRAY_TYPE, three(), None);
    let t = parse_type_entry(&array, number(), Ok(vec![])).unwrap().unwrap();
    assert_eq!((t.typename().as_str(), t.size()), ("[u32; 3]", 12));
    let cut = below(DW_TAG_ARRAY_TYPE, three(), Some("cut"));
    assert!(is_dwarf_error(parse_type_entry(&cut, number(), Ok(vec![])).unwrap(), "cut"));
    let wide = below(DW_TAG_ARRAY_TYPE, vec![dimension(Some(1 << 62), None, None)], None);
    assert!(parse_type_entry(&wide, number(), Ok(vec![])).is_none());
    let mode = below(DW_TAG_ENUMERATION_TYPE, vec![enumerator(Some("A"), Some(1))], None);
    assert_eq!(
        format!("{:?}", parse_type_entry(&mode, number(), Ok(vec![])).unwrap().unwrap()),
        "Enum { name: \"<anonymous>\", size: 0, variants: [EnumVariant { name: \"A\", value: 1 }] }"
    );
    let cut = below(DW_TAG_ENUMERATION_TYPE, vec![], Some("cut"));
    assert!(is_dwarf_error(parse_type_entry(&cut, number(), Ok(vec![])).unwrap(), "cut"));
    let structure = below(DW_TAG_STRUCTURE_TYPE, vec![], None);
    let member =
        TypedMember { name: "m".to_string(), offset: 2, type_info: number().unwrap() };
    match parse_type_entry(&structure, number(), Ok(vec![member])).unwrap().unwrap() {
        TypeInfo::Struct { members, .. } => {
            assert_eq!((members[0].name.as_str(), members[0].offset), ("m", 2))
        }
        _ => panic!("expected a structure"),
    }
    let failed = Err(DebugError::DwarfError("broken".to_string()));
    assert!(is_dwarf_error(parse_type_entry(&structure, number(), failed).unwrap(), "broken"));
}

#[test]
fn test_variables_in_a_unit() {
    let entries = vec![
        plain(0, DW_TAG_MEMBER, Some("v")),
        plain(0, DW_TAG_VARIABLE, None),
        plain(0, DW_TAG_VARIABLE, Some("v")),
        plain(0, DW_TAG_VARIABLE, Some("v")),
    ];
    assert_eq!(find_variable(&entries, "v"), 2);
    assert_eq!(find_variable(&entries, "w"), 4);
}

#[test]
fn test_variable_addresses() {
    let lost = "Cannot determine variable address";
    let expression: AttrRead = Ok(Some(AttrValue::Exprloc(vec![3, 0, 0, 0, 0])));
    assert_eq!(get_variable_address(&expression, Some(16)).unwrap(), 16);
    assert!(is_dwarf_error(get_variable_address(&expression, None), lost));
    assert_eq!(get_variable_address(&Ok(Some(AttrValue::Udata(9))), None).unwrap(), 9);
    assert!(is_dwarf_error(get_variable_address(&Ok(Some(AttrValue::Other)), Some(1)), lost));
    assert!(is_dwarf_error(get_variable_address(&Ok(None), None), lost));
    assert!(is_dwarf_error(get_variable_address(&Err("broken".to_string()), None), "broken"));
}

// -----------------------------------------------------------------------------------------
// Expressions over a variable
// -----------------------------------------------------------------------------------------

fn number() -> TypeInfo {
    TypeInfo::Primitive(PrimitiveType::U16)
}

fn array(count: usize) -> TypeInfo {
    TypeInfo::Array { element: Box::new(number()), count, size: 2 * count as u64 }
}

fn record(address: u64) -> VariableInfo {
    let inner = TypeInfo::Struct {
        name: "inner".to_string(),
        size: 4,
        members: vec![TypedMember { name: "n".to_string(), offset: 2, type_info: number() }],
    };
    VariableInfo {
        name: "v".to_string(),
        address,
        type_info: TypeInfo::Struct {
            name: "outer".to_string(),
            size: 32,
            members: vec![
                TypedMember { name: "list".to_string(), offset: 8, type_info: array(4) },
                TypedMember { name: "inner".to_string(), offset: 16, type_info: inner },
                TypedMember { name: "list".to_string(), offset: 24, type_info: number() },
            ],
        },
    }
}

#[test]
fn test_parts_of_expressions() {
    assert_eq!(parse_name_and_index("name[5]"), ("name", Some(5)));
    assert_eq!(parse_name_and_index("name"), ("name", None));
    assert_eq!(parse_name_and_index("name[]"), ("name", None));
    assert_eq!(parse_name_and_index("name[x]"), ("name", None));
    assert_eq!(parse_name_and_index("name[12)"), ("name", Some(12)));
    assert_eq!(parse_name_and_index("[+1]"), ("", Some(1)));
    assert_eq!(parse_name_and_index("é[2]"), ("é", Some(2)));
    assert!(is_well_formed_part("a[1"));
    assert!(!is_well_formed_part("a["));
    assert!(!is_well_formed_part("a[1é"));
    assert!(is_well_formed_part("é"));
}

#[test]
fn test_members_and_elements() {
    let at = |expr: &str| resolve_in_variable(record(0x100), expr).unwrap().unwrap();
    assert_eq!(at("v").address, 0x100);
    assert_eq!(at("v").type_info.typename(), "struct outer");
    assert_eq!(at("v.list").address, 0x108);
    assert_eq!(at("v.list[3]").address, 0x10E);
    assert_eq!(at("v.list[3]").type_info.typename(), "u16");
    assert_eq!(at("v.list[9]").address, 0x11A);
    assert_eq!(at("v.inner.n").address, 0x112);
    assert_eq!(at("v.inner[7].n").address, 0x112);
    assert_eq!(at("v.inner.n").expression, "v.inner.n");
}

#[test]
fn test_expressions_that_do_not_fit_the_type() {
    let fail = |expr: &str| resolve_in_variable(record(0x100), expr).unwrap();
    assert!(is_dwarf_error(fail("v[0]"), "'v' is not an array"));
    assert!(is_dwarf_error(
        fail("v.inner.n.x[1]"),
        "Cannot access member 'x' on non-struct type"
    ));
    assert!(matches!(fail("v.inner.m[2]"), Err(DebugError::MemberNotFound(owner, member))
        if owner == "struct inner" && member == "m"));
    assert!(matches!(fail("v."), Err(DebugError::MemberNotFound(owner, member))
        if owner == "struct outer" && member.is_empty()));
}

#[test]
fn test_expressions_beyond_the_address_space() {
    assert!(resolve_in_variable(record(u64::MAX - 4), "v.list").is_none());
    assert!(resolve_in_variable(record(u64::MAX - 8), "v.list").is_some());
    assert!(resolve_in_variable(record(u64::MAX - 8), "v.list[1]").is_none());
    assert!(resolve_in_variable(record(0), "v.list[").is_none());
    assert!(resolve_in_variable(record(0), "v.lost.x[").unwrap().is_err());
    let list = VariableInfo { name: "v".to_string(), address: 4, type_info: array(2) };
    assert_eq!(resolve_in_variable(list, "v[2]").unwrap().unwrap().address, 8);
}
