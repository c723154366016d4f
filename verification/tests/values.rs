use embedded_debugger::parser::types::EnumVariant;
use embedded_debugger::parser::types::PrimitiveType;
use embedded_debugger::parser::types::TypeInfo;
use embedded_debugger::parser::types::TypedMember;
use embedded_debugger::parser::value::interpret_primitive;
use embedded_debugger::parser::value::interpret_value;
use embedded_debugger::parser::value::is_readable;
use embedded_debugger::parser::value::read_u16_le;
use embedded_debugger::parser::value::read_u32_le;
use embedded_debugger::parser::value::read_u64_le;
use embedded_debugger::parser::value::DecodedValue;

fn shown(data: &[u8], t: &TypeInfo) -> String {
    assert!(is_readable(t, data.len()));
    format!("{:?}", interpret_value(data, t).unwrap())
}

fn primitive(data: &[u8], p: PrimitiveType) -> String {
    let through = shown(data, &TypeInfo::Primitive(p));
    assert_eq!(format!("{:?}", interpret_primitive(data, &p).unwrap()), through);
    through
}

fn unsigned(p: PrimitiveType) -> Box<TypeInfo> {
    Box::new(TypeInfo::Primitive(p))
}

fn member(name: &str, offset: u64, p: PrimitiveType) -> TypedMember {
    TypedMember { name: name.to_string(), offset, type_info: TypeInfo::Primitive(p) }
}

#[test]
fn test_little_endian_numbers() {
    let bytes = [0x78, 0x56, 0x34, 0x12, 0xEF, 0xCD, 0xAB, 0x90, 0xFF];
    assert_eq!(read_u16_le(&bytes), 0x5678);
    assert_eq!(read_u32_le(&bytes), 0x1234_5678);
    assert_eq!(read_u64_le(&bytes), 0x90AB_CDEF_1234_5678);
    assert_eq!(read_u64_le(&[0xFF; 8]), u64::MAX);
}

#[test]
fn test_primitive_values() {
    assert_eq!(primitive(&[200], PrimitiveType::U8), "Integer(200)");
    assert_eq!(primitive(&[200], PrimitiveType::I8), "Integer(-56)");
    assert_eq!(primitive(&[0x7F], PrimitiveType::I8), "Integer(127)");
    assert_eq!(primitive(&[0x34, 0x12], PrimitiveType::U16), "Integer(4660)");
    assert_eq!(primitive(&[0, 0x80], PrimitiveType::I16), "Integer(-32768)");
    assert_eq!(primitive(&[0xFF; 4], PrimitiveType::U32), "Integer(4294967295)");
    assert_eq!(primitive(&[0xFE, 0xFF, 0xFF, 0xFF], PrimitiveType::I32), "Integer(-2)");
    assert_eq!(primitive(&[0xFF; 8], PrimitiveType::U64), "Integer(18446744073709551615)");
    assert_eq!(primitive(&[0xFF; 8], PrimitiveType::I64), "Integer(-1)");
    assert_eq!(primitive(&[0], PrimitiveType::Bool), "Bool(false)");
    assert_eq!(primitive(&[2], PrimitiveType::Bool), "Bool(true)");
    assert_eq!(primitive(b"A", PrimitiveType::Char), "Text(\"A\")");
    assert_eq!(primitive(&[0xE9], PrimitiveType::Char), "Text(\"é\")");
}

#[test]
fn test_floats_keep_their_bits() {
    match interpret_primitive(&1.5f32.to_le_bytes(), &PrimitiveType::F32).unwrap() {
        DecodedValue::Float32 { bits } => assert_eq!(f32::from_bits(bits), 1.5),
        _ => panic!("expected a float"),
    }
    match interpret_primitive(&(-0.25f64).to_le_bytes(), &PrimitiveType::F64).unwrap() {
        DecodedValue::Float64 { bits } => assert_eq!(f64::from_bits(bits), -0.25),
        _ => panic!("expected a float"),
    }
}

#[test]
fn test_pointers() {
    let pointer = |size: u64| TypeInfo::Pointer { target: unsigned(PrimitiveType::U8), size };
    assert_eq!(shown(&[0x00, 0x80, 0x00, 0x20], &pointer(4)), "Text(\"0x20008000\")");
    assert_eq!(shown(&[0xAB, 0, 0, 0], &pointer(4)), "Text(\"0x000000AB\")");
    assert_eq!(
        shown(&[1, 0, 0, 0, 0xEF, 0, 0, 0], &pointer(8)),
        "Text(\"0xEF00000001\")"
    );
    assert_eq!(shown(&[], &pointer(2)), "Text(\"0x00000000\")");
    assert!(!is_readable(&pointer(4), 3));
}

#[test]
fn test_arrays() {
    let array = |count: usize| TypeInfo::Array {
        element: unsigned(PrimitiveType::U16),
        count,
        size: 2 * count as u64,
    };
    assert_eq!(
        shown(&[1, 0, 2, 0, 3, 0], &array(3)),
        "Array([Integer(1), Integer(2), Integer(3)])"
    );
    assert_eq!(shown(&[1, 0, 2, 0, 3], &array(3)), "Array([Integer(1), Integer(2)])");
    assert_eq!(shown(&[], &array(3)), "Array([])");
    assert_eq!(shown(&[1, 0], &array(0)), "Array([])");
    assert!(!is_readable(&array(usize::MAX), 8));
}

#[test]
fn test_structures() {
    let t = TypeInfo::Struct {
        name: "s".to_string(),
        size: 8,
        members: vec![
            member("a", 0, PrimitiveType::U8),
            member("b", 4, PrimitiveType::U32),
            member("a", 1, PrimitiveType::U8),
        ],
    };
    assert_eq!(
        shown(&[7, 9, 0, 0, 5, 0, 0, 0], &t),
        "Object([(\"a\", Integer(9)), (\"b\", Integer(5))])"
    );
    assert_eq!(shown(&[7, 9, 0, 0, 5, 0, 0], &t), "Object([(\"a\", Integer(9))])");
    assert_eq!(shown(&[7], &t), "Object([(\"a\", Integer(7))])");
    let beyond = TypeInfo::Struct {
        name: "s".to_string(),
        size: 8,
        members: vec![member("a", u64::MAX, PrimitiveType::U8)],
    };
    assert!(!is_readable(&beyond, 8));
}

#[test]
fn test_enumerations() {
    let e = |size: u64| TypeInfo::Enum {
        name: "e".to_string(),
        size,
        variants: vec![
            EnumVariant { name: "Zero".to_string(), value: 0 },
            EnumVariant { name: "On".to_string(), value: 0x0102 },
            EnumVariant { name: "Again".to_string(), value: 0x0102 },
        ],
    };
    assert_eq!(
        shown(&[2, 1], &e(2)),
        "Object([(\"variant\", Text(\"On\")), (\"value\", Integer(258))])"
    );
    assert_eq!(shown(&[2], &e(1)), "Integer(2)");
    assert_eq!(shown(&[0xFF; 4], &e(4)), "Integer(4294967295)");
    assert_eq!(
        shown(&[], &e(3)),
        "Object([(\"variant\", Text(\"Zero\")), (\"value\", Integer(0))])"
    );
    assert!(!is_readable(&e(4), 3));
}

#[test]
fn test_unknown_types_are_dumped() {
    let unknown = |size: u64| TypeInfo::Unknown { size, name: None };
    assert_eq!(shown(&[0x0A, 0xFF, 0x07], &unknown(2)), "Text(\"0A FF\")");
    assert_eq!(shown(&[0x0A, 0xFF, 0x07], &unknown(9)), "Text(\"0A FF 07\")");
    assert_eq!(shown(&[0x0A], &unknown(0)), "Text(\"\")");
}

#[test]
fn test_sizes() {
    let sizes: Vec<u64> = [
        PrimitiveType::U8,
        PrimitiveType::I8,
        PrimitiveType::U16,
        PrimitiveType::I16,
        PrimitiveType::U32,
        PrimitiveType::I32,
        PrimitiveType::U64,
        PrimitiveType::I64,
        PrimitiveType::F32,
        PrimitiveType::F64,
        PrimitiveType::Bool,
        PrimitiveType::Char,
    ]
    .iter()
    .map(|p| p.size())
    .collect();
    assert_eq!(sizes, vec![1, 1, 2, 2, 4, 4, 8, 8, 4, 8, 1, 1]);
    assert_eq!(TypeInfo::Primitive(PrimitiveType::U16).size(), 2);
    assert_eq!(TypeInfo::Unknown { size: 3, name: None }.size(), 3);
    let array =
        TypeInfo::Array { element: unsigned(PrimitiveType::U8), count: 4, size: 4 };
    assert_eq!(array.size(), 4);
    assert_eq!(array.clone().size(), 4);
}

#[test]
fn test_type_names() {
    let array =
        TypeInfo::Array { element: unsigned(PrimitiveType::U16), count: 12, size: 24 };
    assert_eq!(array.typename(), "[u16; 12]");
    assert_eq!(array.clone().typename(), "[u16; 12]");
    assert_eq!(TypeInfo::Pointer { target: Box::new(array), size: 4 }.typename(), "*[u16; 12]");
    assert_eq!(TypeInfo::Primitive(PrimitiveType::Bool).typename(), "bool");
    assert_eq!(TypeInfo::Primitive(PrimitiveType::F64).typename(), "f64");
    let s = TypeInfo::Struct { name: "point".to_string(), size: 0, members: vec![] };
    assert_eq!(s.typename(), "struct point");
    let e = TypeInfo::Enum { name: "mode".to_string(), size: 0, variants: vec![] };
    assert_eq!(e.typename(), "enum mode");
    let named = TypeInfo::Unknown { size: 0, name: Some("va_list".to_string()) };
    assert_eq!(named.typename(), "va_list");
    assert_eq!(TypeInfo::Unknown { size: 0, name: None }.typename(), "unknown");
}

#[test]
fn test_copies_of_types() {
    let t = TypeInfo::Struct {
        name: "s".to_string(),
        size: 8,
        members: vec![member("a", 1, PrimitiveType::U8), member("b", 4, PrimitiveType::F32)],
    };
    assert_eq!(format!("{:?}", t.clone()), format!("{:?}", t));
    let e = TypeInfo::Enum {
        name: "e".to_string(),
        size: 1,
        variants: vec![EnumVariant { name: "A".to_string(), value: -1 }],
    };
    assert_eq!(format!("{:?}", e.clone()), format!("{:?}", e));
}
