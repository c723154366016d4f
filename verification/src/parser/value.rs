//! Raw target memory, read as a value of a type.

use crate::error::DebugError;
use crate::parser::types;
use crate::parser::types::EnumVariant;
use crate::parser::types::MemberView;
use crate::parser::types::PrimitiveType;
use crate::parser::types::TypeInfo;
use crate::parser::types::TypeView;
use crate::parser::types::TypedMember;
use crate::parser::types::VariantView;
use crate::text;
use vstd::prelude::*;
use vstd::slice::slice_subrange;

verus! {

// -----------------------------------------------------------------------------------------
// Little-endian numbers
// -----------------------------------------------------------------------------------------

/// The number that the bytes stand for, the least significant byte first.
pub open spec fn le_value(bytes: Seq<u8>) -> nat
    decreases bytes.len(),
{
    if bytes.len() == 0 {
        0
    } else {
        bytes[0] as nat + 256 * le_value(bytes.drop_first())
    }
}

/// The number that `n` stands for in two's complement, where `limit` is one past the largest
/// pattern of its width.
pub open spec fn signed_value(n: nat, limit: nat) -> int {
    if 2 * n < limit {
        n as int
    } else {
        n - limit
    }
}

proof fn lemma_le_value_4(bytes: Seq<u8>)
    requires
        bytes.len() >= 4,
    ensures
        le_value(bytes.take(4)) == bytes[0] + 0x100 * bytes[1] + 0x1_0000 * bytes[2] + 0x100_0000
            * bytes[3],
{
    reveal_with_fuel(le_value, 5);
    let tail = bytes.take(4).drop_first();
    assert(tail[0] == bytes[1]);
    assert(tail.drop_first()[0] == bytes[2]);
    assert(tail.drop_first().drop_first()[0] == bytes[3]);
}

proof fn lemma_le_value_8(bytes: Seq<u8>)
    requires
        bytes.len() >= 8,
    ensures
        le_value(bytes.take(8)) == le_value(bytes.take(4)) + 0x1_0000_0000 * le_value(
            bytes.skip(4).take(4),
        ),
{
    reveal_with_fuel(le_value, 5);
    let all = bytes.take(8);
    let low = bytes.take(4);
    assert(all.drop_first().drop_first().drop_first().drop_first() == bytes.skip(4).take(4));
    assert(low.drop_first().drop_first().drop_first().drop_first() == Seq::<u8>::empty());
    assert(all.drop_first()[0] == low.drop_first()[0]);
    assert(all.drop_first().drop_first()[0] == low.drop_first().drop_first()[0]);
    assert(all.drop_first().drop_first().drop_first()[0]
        == low.drop_first().drop_first().drop_first()[0]);
}

/// The first two bytes as a number.
pub fn read_u16_le(data: &[u8]) -> (n: u16)
    requires
        data@.len() >= 2,
    ensures
        n == le_value(data@.take(2)),
{
    proof {
        reveal_with_fuel(le_value, 3);
        assert(data@.take(2).drop_first()[0] == data@[1]);
    }
    data[0] as u16 + 0x100 * (data[1] as u16)
}

/// The first four bytes as a number.
pub fn read_u32_le(data: &[u8]) -> (n: u32)
    requires
        data@.len() >= 4,
    ensures
        n == le_value(data@.take(4)),
{
    proof {
        lemma_le_value_4(data@);
    }
    data[0] as u32 + 0x100 * (data[1] as u32) + 0x1_0000 * (data[2] as u32) + 0x100_0000 * (
    data[3] as u32)
}

/// The first eight bytes as a number.
pub fn read_u64_le(data: &[u8]) -> (n: u64)
    requires
        data@.len() >= 8,
    ensures
        n == le_value(data@.take(8)),
{
    let low: u32 = read_u32_le(data);
    let rest = slice_subrange(data, 4, data.len());
    let high: u32 = read_u32_le(rest);
    proof {
        lemma_le_value_8(data@);
        assert(rest@.take(4) == data@.skip(4).take(4));
    }
    low as u64 + 0x1_0000_0000 * (high as u64)
}

// -----------------------------------------------------------------------------------------
// Values
// -----------------------------------------------------------------------------------------

/// A value of the target program.
#[derive(Debug)]
pub enum DecodedValue {
    Integer(i128),
    /// A single precision number, by its bit pattern.
    Float32 { bits: u32 },
    /// A double precision number, by its bit pattern.
    Float64 { bits: u64 },
    Bool(bool),
    Text(String),
    Array(Vec<DecodedValue>),
    /// Named values; no name occurs twice.
    Object(Vec<(String, DecodedValue)>),
}

/// A [`DecodedValue`] with its texts as character sequences.
pub enum ValueView {
    Integer(int),
    Float32 { bits: u32 },
    Float64 { bits: u64 },
    Bool(bool),
    Text(Seq<char>),
    Array(Seq<ValueView>),
    Object(Seq<(Seq<char>, ValueView)>),
}

/// The view of a value.
pub open spec fn value_view(v: DecodedValue) -> ValueView
    decreases v,
{
    match v {
        DecodedValue::Integer(n) => ValueView::Integer(n as int),
        DecodedValue::Float32 { bits } => ValueView::Float32 { bits },
        DecodedValue::Float64 { bits } => ValueView::Float64 { bits },
        DecodedValue::Bool(b) => ValueView::Bool(b),
        DecodedValue::Text(t) => ValueView::Text(t@),
        DecodedValue::Array(items) => ValueView::Array(
            Seq::new(
                items@.len(),
                |i: int|
                    if 0 <= i < items@.len() {
                        value_view(items@[i])
                    } else {
                        arbitrary()
                    },
            ),
        ),
        DecodedValue::Object(fields) => ValueView::Object(
            Seq::new(
                fields@.len(),
                |i: int|
                    if 0 <= i < fields@.len() {
                        (fields@[i].0@, value_view(fields@[i].1))
                    } else {
                        arbitrary()
                    },
            ),
        ),
    }
}

impl View for DecodedValue {
    type V = ValueView;

    open spec fn view(&self) -> ValueView {
        value_view(*self)
    }
}

/// The fields with one more: the value of an existing name is replaced, a new name is put last.
pub open spec fn with_field(
    fields: Seq<(Seq<char>, ValueView)>,
    name: Seq<char>,
    value: ValueView,
) -> Seq<(Seq<char>, ValueView)>
    decreases fields.len(),
{
    if fields.len() == 0 {
        seq![(name, value)]
    } else if fields[0].0 == name {
        fields.update(0, (name, value))
    } else {
        seq![fields[0]] + with_field(fields.drop_first(), name, value)
    }
}

/// The value of a primitive type that the bytes hold.
pub open spec fn primitive_value(data: Seq<u8>, p: PrimitiveType) -> ValueView {
    match p {
        PrimitiveType::U8 => ValueView::Integer(data[0] as int),
        PrimitiveType::I8 => ValueView::Integer(signed_value(data[0] as nat, 0x100)),
        PrimitiveType::U16 => ValueView::Integer(le_value(data.take(2)) as int),
        PrimitiveType::I16 => ValueView::Integer(signed_value(le_value(data.take(2)), 0x1_0000)),
        PrimitiveType::U32 => ValueView::Integer(le_value(data.take(4)) as int),
        PrimitiveType::I32 => ValueView::Integer(
            signed_value(le_value(data.take(4)), 0x1_0000_0000),
        ),
        PrimitiveType::U64 => ValueView::Integer(le_value(data.take(8)) as int),
        PrimitiveType::I64 => ValueView::Integer(
            signed_value(le_value(data.take(8)), 0x1_0000_0000_0000_0000),
        ),
        PrimitiveType::F32 => ValueView::Float32 { bits: le_value(data.take(4)) as u32 },
        PrimitiveType::F64 => ValueView::Float64 { bits: le_value(data.take(8)) as u64 },
        PrimitiveType::Bool => ValueView::Bool(data[0] != 0),
        PrimitiveType::Char => ValueView::Text(seq![data[0] as char]),
    }
}

/// The address that the bytes of a pointer of `size` bytes hold: zero unless `size` is 4 or 8.
pub open spec fn pointer_value(data: Seq<u8>, size: u64) -> nat {
    if size == 4 {
        le_value(data.take(4))
    } else if size == 8 {
        le_value(data.take(8))
    } else {
        0
    }
}

/// The number that the bytes of an enumeration of `size` bytes hold: zero unless `size` is 1,
/// 2 or 4.
pub open spec fn enum_value(data: Seq<u8>, size: u64) -> int {
    if size == 1 {
        data[0] as int
    } else if size == 2 {
        le_value(data.take(2)) as int
    } else if size == 4 {
        le_value(data.take(4)) as int
    } else {
        0
    }
}

/// The first variant with the value `value`.
pub open spec fn variant_of(variants: Seq<VariantView>, value: int) -> Option<VariantView>
    decreases variants.len(),
{
    if variants.len() == 0 {
        None
    } else if variants[0].value == value {
        Some(variants[0])
    } else {
        variant_of(variants.drop_first(), value)
    }
}

/// How a number of an enumeration is reported: with its variant's name if it has one.
pub open spec fn enum_view(variants: Seq<VariantView>, value: int) -> ValueView {
    match variant_of(variants, value) {
        Some(variant) => ValueView::Object(
            seq![
                ("variant"@, ValueView::Text(variant.name)),
                ("value"@, ValueView::Integer(value)),
            ],
        ),
        None => ValueView::Integer(value),
    }
}

/// The bytes in upper-case hexadecimal, two digits each, separated by spaces.
pub open spec fn hex_dump(bytes: Seq<u8>) -> Seq<char> {
    text::join_with(bytes.map_values(|b: u8| text::hex_text(b as nat, 2)), ' ')
}

/// The value of type `t` that the bytes hold.
pub open spec fn value_of(data: Seq<u8>, t: TypeView) -> ValueView
    decreases t, 0nat,
{
    match t {
        TypeView::Primitive(p) => primitive_value(data, p),
        TypeView::Pointer { size, .. } => ValueView::Text(
            "0x"@ + text::hex_text(pointer_value(data, size), 8),
        ),
        TypeView::Array { element, count, .. } => ValueView::Array(
            array_items(data, *element, count as nat),
        ),
        TypeView::Struct { members, .. } => ValueView::Object(
            struct_fields(data, members, members.len()),
        ),
        TypeView::Enum { size, variants, .. } => enum_view(variants, enum_value(data, size)),
        TypeView::Unknown { size, .. } => ValueView::Text(
            hex_dump(
                if size < data.len() {
                    data.take(size as int)
                } else {
                    data
                },
            ),
        ),
    }
}

/// The values of the first `count` elements that lie within the bytes.
pub open spec fn array_items(data: Seq<u8>, element: TypeView, count: nat) -> Seq<ValueView>
    decreases element, count,
{
    if count == 0 {
        Seq::empty()
    } else {
        let before = array_items(data, element, (count - 1) as nat);
        let size = types::type_size(element) as int;
        let start = (count - 1) * size;
        if start + size <= data.len() {
            before.push(value_of(data.subrange(start, start + size), element))
        } else {
            before
        }
    }
}

/// The values of the first `count` members that lie within the bytes, by name.
pub open spec fn struct_fields(data: Seq<u8>, members: Seq<MemberView>, count: nat) -> Seq<
    (Seq<char>, ValueView),
>
    decreases members, count,
{
    if count == 0 || count > members.len() {
        Seq::empty()
    } else {
        let before = struct_fields(data, members, (count - 1) as nat);
        let member = members[count - 1];
        let start = member.offset as int;
        let end = start + types::type_size(member.type_info);
        if end <= data.len() {
            with_field(before, member.name, value_of(data.subrange(start, end), member.type_info))
        } else {
            before
        }
    }
}

/// `len` bytes are enough to read a value of type `t`, and every position in them can be
/// computed.
pub open spec fn readable(t: TypeView, len: int) -> bool
    decreases t,
{
    match t {
        TypeView::Primitive(p) => types::primitive_size(p) <= len,
        TypeView::Pointer { size, .. } => (size == 4 || size == 8) ==> size <= len,
        TypeView::Array { element, count, .. } => {
            let size = types::type_size(*element);
            &&& size <= usize::MAX
            &&& count * size <= usize::MAX
            &&& count > 0 && size <= len ==> readable(*element, size as int)
        },
        TypeView::Struct { members, .. } => forall|i: int|
            0 <= i < members.len() ==> {
                let member = #[trigger] members[i];
                let size = types::type_size(member.type_info);
                &&& member.offset + size <= usize::MAX
                &&& member.offset + size <= len ==> readable(member.type_info, size as int)
            },
        TypeView::Enum { size, .. } => (size == 1 || size == 2 || size == 4) ==> size <= len,
        TypeView::Unknown { .. } => true,
    }
}

/// Whether `len` bytes can be read as a value of the type.
pub fn is_readable(type_info: &TypeInfo, len: usize) -> (r: bool)
    ensures
        r == readable(type_info@, len as int),
    decreases type_info,
{
    match type_info {
        TypeInfo::Primitive(p) => p.size() <= len as u64,
        TypeInfo::Pointer { size, .. } => !(*size == 4 || *size == 8) || *size <= len as u64,
        TypeInfo::Array { element, count, .. } => {
            let size: u64 = element.size();
            if size > usize::MAX as u64 {
                return false;
            }
            if count.checked_mul(size as usize).is_none() {
                return false;
            }
            *count == 0 || size > len as u64 || is_readable(element, size as usize)
        },
        TypeInfo::Struct { members, .. } => {
            let mut i: usize = 0;
            while i < members.len()
                invariant
                    i <= members@.len(),
                    type_info matches TypeInfo::Struct { members: m, .. } && m == members,
                    forall|k: int|
                        0 <= k < i ==> {
                            let member = (#[trigger] type_info@->Struct_members[k]);
                            let size = types::type_size(member.type_info);
                            &&& member.offset + size <= usize::MAX
                            &&& member.offset + size <= len ==> readable(
                                member.type_info,
                                size as int,
                            )
                        },
                decreases members@.len() - i,
            {
                let member = &members[i];
                assert(type_info@->Struct_members[i as int] == member@);
                let size: u64 = member.type_info.size();
                match member.offset.checked_add(size) {
                    None => {
                        return false;
                    },
                    Some(end) => {
                        if end > usize::MAX as u64 {
                            return false;
                        }
                        if end <= len as u64 {
                            if !is_readable(&member.type_info, size as usize) {
                                return false;
                            }
                        }
                    },
                }
                i = i + 1;
            }
            true
        },
        TypeInfo::Enum { size, .. } => !(*size == 1 || *size == 2 || *size == 4) || *size
            <= len as u64,
        TypeInfo::Unknown { .. } => true,
    }
}

proof fn lemma_signed(b: u8, h: u16, w: u32, d: u64)
    ensures
        b as i8 == signed_value(b as nat, 0x100),
        h as i16 == signed_value(h as nat, 0x1_0000),
        w as i32 == signed_value(w as nat, 0x1_0000_0000),
        d as i64 == signed_value(d as nat, 0x1_0000_0000_0000_0000),
{
    assert(b as i8 == if b < 0x80 { b as int } else { b - 0x100 }) by (bit_vector);
    assert(h as i16 == if h < 0x8000 { h as int } else { h - 0x1_0000 }) by (bit_vector);
    assert(w as i32 == if w < 0x8000_0000 { w as int } else { w - 0x1_0000_0000 }) by (bit_vector);
    assert(d as i64 == if d < 0x8000_0000_0000_0000 { d as int } else {
        d - 0x1_0000_0000_0000_0000
    }) by (bit_vector);
}

/// Reads a value of a primitive type.
pub fn interpret_primitive(data: &[u8], prim: &PrimitiveType) -> (r: Result<
    DecodedValue,
    DebugError,
>)
    requires
        types::primitive_size(*prim) <= data@.len(),
    ensures
        r matches Ok(value) && value@ == primitive_value(data@, *prim),
{
    let value = match prim {
        PrimitiveType::U8 => DecodedValue::Integer(data[0] as i128),
        PrimitiveType::I8 => {
            let b: u8 = data[0];
            proof {
                lemma_signed(b, 0, 0, 0);
            }
            DecodedValue::Integer((b as i8) as i128)
        },
        PrimitiveType::U16 => DecodedValue::Integer(read_u16_le(data) as i128),
        PrimitiveType::I16 => {
            let h: u16 = read_u16_le(data);
            proof {
                lemma_signed(0, h, 0, 0);
            }
            DecodedValue::Integer((h as i16) as i128)
        },
        PrimitiveType::U32 => DecodedValue::Integer(read_u32_le(data) as i128),
        PrimitiveType::I32 => {
            let w: u32 = read_u32_le(data);
            proof {
                lemma_signed(0, 0, w, 0);
            }
            DecodedValue::Integer((w as i32) as i128)
        },
        PrimitiveType::U64 => DecodedValue::Integer(read_u64_le(data) as i128),
        PrimitiveType::I64 => {
            let d: u64 = read_u64_le(data);
            proof {
                lemma_signed(0, 0, 0, d);
            }
            DecodedValue::Integer((d as i64) as i128)
        },
        PrimitiveType::F32 => DecodedValue::Float32 { bits: read_u32_le(data) },
        PrimitiveType::F64 => DecodedValue::Float64 { bits: read_u64_le(data) },
        PrimitiveType::Bool => DecodedValue::Bool(data[0] != 0),
        PrimitiveType::Char => {
            let mut letter = String::new();
            letter.push(data[0] as char);
            assert(letter@ == seq![data@[0] as char]);
            DecodedValue::Text(letter)
        },
    };
    Ok(value)
}

proof fn lemma_with_field(
    fields: Seq<(Seq<char>, ValueView)>,
    name: Seq<char>,
    value: ValueView,
    at: int,
)
    requires
        0 <= at <= fields.len(),
        forall|i: int| 0 <= i < at ==> (#[trigger] fields[i]).0 != name,
        at < fields.len() ==> fields[at].0 == name,
    ensures
        with_field(fields, name, value) == if at < fields.len() {
            fields.update(at, (name, value))
        } else {
            fields.push((name, value))
        },
    decreases fields.len(),
{
    if fields.len() > 0 && fields[0].0 != name {
        let rest = fields.drop_first();
        assert forall|i: int| 0 <= i < at - 1 implies (#[trigger] rest[i]).0 != name by {
            assert(rest[i] == fields[i + 1]);
        }
        lemma_with_field(rest, name, value, at - 1);
    }
}

/// The views of a sequence of named values.
pub open spec fn field_views(fields: Seq<(String, DecodedValue)>) -> Seq<(Seq<char>, ValueView)> {
    fields.map_values(|f: (String, DecodedValue)| (f.0@, f.1@))
}

fn put_field(fields: &mut Vec<(String, DecodedValue)>, name: String, value: DecodedValue)
    ensures
        field_views(final(fields)@) == with_field(field_views(old(fields)@), name@, value@),
{
    let ghost before = field_views(fields@);
    let mut at: usize = 0;
    while at < fields.len()
        invariant
            at <= fields@.len(),
            before == field_views(fields@),
            fields@ == old(fields)@,
            forall|i: int| 0 <= i < at ==> (#[trigger] before[i]).0 != name@,
        decreases fields@.len() - at,
    {
        assert(before[at as int].0 == fields@[at as int].0@);
        if fields[at].0 == name {
            proof {
                lemma_with_field(before, name@, value@, at as int);
            }
            fields.set(at, (name, value));
            assert(field_views(fields@) == before.update(at as int, (name@, value@)));
            return ;
        }
        at = at + 1;
    }
    proof {
        lemma_with_field(before, name@, value@, at as int);
    }
    fields.push((name, value));
    assert(field_views(fields@) == before.push((name@, value@)));
}

fn find_variant(variants: &Vec<EnumVariant>, value: i128) -> (found: Option<usize>)
    ensures
        match (found, variant_of(variants@.map_values(|v: EnumVariant| v@), value as int)) {
            (Some(i), Some(variant)) => i < variants@.len() && variants@[i as int]@ == variant,
            (None, None) => true,
            _ => false,
        },
{
    let ghost views = variants@.map_values(|v: EnumVariant| v@);
    let mut i: usize = 0;
    assert(views.skip(0) == views);
    while i < variants.len()
        invariant
            i <= variants@.len(),
            views == variants@.map_values(|v: EnumVariant| v@),
            variant_of(views.skip(i as int), value as int) == variant_of(views, value as int),
        decreases variants@.len() - i,
    {
        assert(views.skip(i as int)[0] == variants@[i as int]@);
        assert(views.skip(i as int).drop_first() == views.skip(i + 1));
        if variants[i].value as i128 == value {
            return Some(i);
        }
        i = i + 1;
    }
    None
}

fn dump_hex(data: &[u8], count: usize) -> (dump: String)
    requires
        count <= data@.len(),
    ensures
        dump@ == hex_dump(data@.take(count as int)),
{
    let ghost digits = |b: u8| text::hex_text(b as nat, 2);
    let mut dump = String::new();
    let mut i: usize = 0;
    assert(data@.take(0).map_values(digits).len() == 0);
    while i < count
        invariant
            i <= count <= data@.len(),
            digits == (|b: u8| text::hex_text(b as nat, 2)),
            dump@ == text::join_with(data@.take(i as int).map_values(digits), ' '),
        decreases count - i,
    {
        let ghost parts = data@.take(i as int).map_values(digits);
        let ghost more = data@.take(i + 1).map_values(digits);
        assert(more.drop_last() == parts);
        assert(more.last() == text::hex_text(data@[i as int] as nat, 2));
        if i > 0 {
            dump.push(' ');
        }
        dump.append(text::hex(data[i] as u64, 2).as_str());
        i = i + 1;
    }
    dump
}

/// Reads raw bytes as a value of the type. Parts of an array or a structure that lie beyond
/// the bytes are left out.
pub fn interpret_value(data: &[u8], type_info: &TypeInfo) -> (r: Result<DecodedValue, DebugError>)
    requires
        readable(type_info@, data@.len() as int),
    ensures
        r matches Ok(value) && value@ == value_of(data@, type_info@),
    decreases type_info, 0nat,
{
    match type_info {
        TypeInfo::Primitive(prim) => interpret_primitive(data, prim),
        TypeInfo::Pointer { size, .. } => {
            let address: u64 = if *size == 4 {
                read_u32_le(data) as u64
            } else if *size == 8 {
                read_u64_le(data)
            } else {
                0
            };
            let mut number = "0x".to_owned();
            number.append(text::hex(address, 8).as_str());
            Ok(DecodedValue::Text(number))
        },
        TypeInfo::Array { element, count, .. } => interpret_array(data, element, *count),
        TypeInfo::Struct { members, .. } => {
            let ghost views = type_info@->Struct_members;
            assert(views == members@.map_values(|m: TypedMember| m@));
            assert forall|i: int| 0 <= i < members@.len() implies (#[trigger] members@[i])@
                == views[i] by {}
            interpret_struct(data, members)
        },
        TypeInfo::Enum { size, variants, .. } => {
            let raw: i128 = if *size == 1 {
                data[0] as i128
            } else if *size == 2 {
                read_u16_le(data) as i128
            } else if *size == 4 {
                read_u32_le(data) as i128
            } else {
                0
            };
            match find_variant(variants, raw) {
                Some(i) => {
                    let mut fields: Vec<(String, DecodedValue)> = Vec::new();
                    fields.push(
                        ("variant".to_owned(), DecodedValue::Text(variants[i].name.clone())),
                    );
                    fields.push(("value".to_owned(), DecodedValue::Integer(raw)));
                    let value = DecodedValue::Object(fields);
                    proof {
                        reveal_with_fuel(value_view, 2);
                        assert(value@->Object_0 == enum_view(
                            type_info@->variants,
                            raw as int,
                        )->Object_0);
                    }
                    Ok(value)
                },
                None => Ok(DecodedValue::Integer(raw)),
            }
        },
        TypeInfo::Unknown { size, .. } => {
            let count: usize = if *size < data.len() as u64 {
                *size as usize
            } else {
                data.len()
            };
            assert(data@.take(data@.len() as int) == data@);
            Ok(DecodedValue::Text(dump_hex(data, count)))
        },
    }
}

fn interpret_array(data: &[u8], element: &TypeInfo, count: usize) -> (r: Result<
    DecodedValue,
    DebugError,
>)
    requires
        types::type_size(element@) <= usize::MAX,
        count * types::type_size(element@) <= usize::MAX,
        count > 0 && types::type_size(element@) <= data@.len() ==> readable(
            element@,
            types::type_size(element@) as int,
        ),
    ensures
        r matches Ok(value) && value@ == ValueView::Array(
            array_items(data@, element@, count as nat),
        ),
    decreases element, 1nat,
{
    let size: usize = element.size() as usize;
    let mut values: Vec<DecodedValue> = Vec::new();
    let mut i: usize = 0;
    while i < count
        invariant
            i <= count,
            size == types::type_size(element@),
            count * size <= usize::MAX,
            count > 0 && size <= data@.len() ==> readable(element@, size as int),
            values@.map_values(|v: DecodedValue| v@) == array_items(data@, element@, i as nat),
        decreases count - i,
    {
        proof {
            assert(i * size <= count * size - size) by (nonlinear_arith)
                requires
                    i + 1 <= count,
            ;
        }
        let start: usize = i * size;
        let end: usize = start + size;
        if end <= data.len() {
            let ghost before = values@.map_values(|v: DecodedValue| v@);
            let value = interpret_value(slice_subrange(data, start, end), element)?;
            values.push(value);
            assert(values@.map_values(|v: DecodedValue| v@) == before.push(value@));
        }
        i = i + 1;
    }
    let value = DecodedValue::Array(values);
    assert(value@->Array_0 == values@.map_values(|v: DecodedValue| v@));
    Ok(value)
}

fn interpret_struct(data: &[u8], members: &Vec<TypedMember>) -> (r: Result<
    DecodedValue,
    DebugError,
>)
    requires
        forall|i: int|
            0 <= i < members@.len() ==> {
                let member = (#[trigger] members@[i])@;
                let size = types::type_size(member.type_info);
                &&& member.offset + size <= usize::MAX
                &&& member.offset + size <= data@.len() ==> readable(member.type_info, size as int)
            },
    ensures
        r matches Ok(value) && value@ == ValueView::Object(
            struct_fields(data@, members@.map_values(|m: TypedMember| m@), members@.len()),
        ),
    decreases members, 1nat,
{
    let ghost views = members@.map_values(|m: TypedMember| m@);
    let mut fields: Vec<(String, DecodedValue)> = Vec::new();
    let mut i: usize = 0;
    assert(field_views(fields@) == Seq::<(Seq<char>, ValueView)>::empty());
    while i < members.len()
        invariant
            i <= members@.len(),
            views == members@.map_values(|m: TypedMember| m@),
            forall|k: int|
                0 <= k < members@.len() ==> {
                    let member = (#[trigger] members@[k])@;
                    let size = types::type_size(member.type_info);
                    &&& member.offset + size <= usize::MAX
                    &&& member.offset + size <= data@.len() ==> readable(
                        member.type_info,
                        size as int,
                    )
                },
            field_views(fields@) == struct_fields(data@, views, i as nat),
        decreases members@.len() - i,
    {
        let member = &members[i];
        assert(views[i as int] == member@);
        let start: usize = member.offset as usize;
        let end: usize = start + member.type_info.size() as usize;
        if end <= data.len() {
            let value = interpret_value(slice_subrange(data, start, end), &member.type_info)?;
            put_field(&mut fields, member.name.clone(), value);
        }
        i = i + 1;
    }
    let value = DecodedValue::Object(fields);
    assert(value@->Object_0 == field_views(fields@));
    Ok(value)
}

// -----------------------------------------------------------------------------------------
// Laws
// -----------------------------------------------------------------------------------------

/// Every position within a value of type `t`, and within its parts, can be computed.
pub open spec fn positions_fit(t: TypeView) -> bool
    decreases t,
{
    match t {
        TypeView::Array { element, count, .. } => {
            let size = types::type_size(*element);
            &&& size <= usize::MAX
            &&& count * size <= usize::MAX
            &&& positions_fit(*element)
        },
        TypeView::Struct { members, .. } => forall|i: int|
            0 <= i < members.len() ==> {
                let member = #[trigger] members[i];
                &&& member.offset + types::type_size(member.type_info) <= usize::MAX
                &&& positions_fit(member.type_info)
            },
        _ => true,
    }
}

/// As many bytes as a type is large are enough to read a value of it.
pub proof fn lemma_own_size_is_readable(t: TypeView, len: int)
    requires
        positions_fit(t),
        types::type_size(t) <= len,
    ensures
        readable(t, len),
    decreases t,
{
    match t {
        TypeView::Array { element, count, .. } => {
            lemma_own_size_is_readable(*element, types::type_size(*element) as int);
        },
        TypeView::Struct { members, .. } => {
            assert forall|i: int| 0 <= i < members.len() implies readable(
                (#[trigger] members[i]).type_info,
                types::type_size(members[i].type_info) as int,
            ) by {
                lemma_own_size_is_readable(
                    members[i].type_info,
                    types::type_size(members[i].type_info) as int,
                );
            }
        },
        _ => {},
    }
}

/// Bytes that hold a whole array are read element by element: there is one value for each
/// element, and it is the value of that element's own bytes.
pub proof fn lemma_whole_array(data: Seq<u8>, element: TypeView, count: nat)
    requires
        count * types::type_size(element) <= data.len(),
    ensures
        array_items(data, element, count).len() == count,
        forall|i: int|
            0 <= i < count ==> (#[trigger] array_items(data, element, count)[i]) == value_of(
                data.subrange(
                    i * types::type_size(element),
                    i * types::type_size(element) + types::type_size(element),
                ),
                element,
            ),
    decreases count,
{
    if count > 0 {
        let size = types::type_size(element) as int;
        assert((count - 1) * size + size == count * size) by (nonlinear_arith);
        assert((count - 1) * size <= count * size);
        lemma_whole_array(data, element, (count - 1) as nat);
    }
}

/// A name of `fields` occurs in it only once.
pub open spec fn distinct_names(fields: Seq<(Seq<char>, ValueView)>) -> bool {
    forall|i: int, j: int|
        0 <= i < j < fields.len() ==> (#[trigger] fields[i]).0 != (#[trigger] fields[j]).0
}

/// The position of the first field with that name, or the number of fields.
spec fn field_at(fields: Seq<(Seq<char>, ValueView)>, name: Seq<char>) -> int
    decreases fields.len(),
{
    if fields.len() == 0 || fields[0].0 == name {
        0
    } else {
        1 + field_at(fields.drop_first(), name)
    }
}

proof fn lemma_field_at(fields: Seq<(Seq<char>, ValueView)>, name: Seq<char>)
    ensures
        0 <= field_at(fields, name) <= fields.len(),
        forall|i: int| 0 <= i < field_at(fields, name) ==> (#[trigger] fields[i]).0 != name,
        field_at(fields, name) < fields.len() ==> fields[field_at(fields, name)].0 == name,
    decreases fields.len(),
{
    if fields.len() > 0 && fields[0].0 != name {
        let rest = fields.drop_first();
        lemma_field_at(rest, name);
        assert forall|i: int| 0 <= i < field_at(fields, name) implies (#[trigger] fields[i]).0
            != name by {
            if i > 0 {
                assert(rest[i - 1] == fields[i]);
            }
        }
    }
}

/// The members of a structure are reported under distinct names, whatever its members are
/// called.
pub proof fn lemma_distinct_fields(data: Seq<u8>, members: Seq<MemberView>, count: nat)
    ensures
        distinct_names(struct_fields(data, members, count)),
    decreases count,
{
    if 0 < count <= members.len() {
        lemma_distinct_fields(data, members, (count - 1) as nat);
        let before = struct_fields(data, members, (count - 1) as nat);
        let member = members[count - 1];
        let start = member.offset as int;
        let end = start + types::type_size(member.type_info);
        if end <= data.len() {
            let value = value_of(data.subrange(start, end), member.type_info);
            lemma_field_at(before, member.name);
            lemma_with_field(before, member.name, value, field_at(before, member.name));
        }
    }
}

/// The member lies within `len` bytes of its structure.
pub open spec fn member_fits(member: MemberView, len: int) -> bool {
    member.offset + types::type_size(member.type_info) <= len
}

/// A member that lies within the bytes is reported with the value of its own bytes, unless a
/// later member takes its name.
pub proof fn lemma_member_reported(data: Seq<u8>, members: Seq<MemberView>, i: int, count: nat)
    requires
        0 <= i < count <= members.len(),
        member_fits(members[i], data.len() as int),
        forall|k: int|
            i < k < count && member_fits(#[trigger] members[k], data.len() as int)
                ==> members[k].name != members[i].name,
    ensures
        struct_fields(data, members, count).contains(
            (
                members[i].name,
                value_of(
                    data.subrange(
                        members[i].offset as int,
                        members[i].offset + types::type_size(members[i].type_info),
                    ),
                    members[i].type_info,
                ),
            ),
        ),
    decreases count,
{
    let before = struct_fields(data, members, (count - 1) as nat);
    let fields = struct_fields(data, members, count);
    let last = members[count - 1];
    let start = last.offset as int;
    let end = start + types::type_size(last.type_info);
    let expected = (
        members[i].name,
        value_of(
            data.subrange(
                members[i].offset as int,
                members[i].offset + types::type_size(members[i].type_info),
            ),
            members[i].type_info,
        ),
    );
    if i < count - 1 {
        lemma_member_reported(data, members, i, (count - 1) as nat);
    }
    if end <= data.len() {
        let value = value_of(data.subrange(start, end), last.type_info);
        let at = field_at(before, last.name);
        lemma_field_at(before, last.name);
        lemma_with_field(before, last.name, value, at);
        if i == count - 1 {
            assert(fields[at] == expected);
        } else {
            let j = choose|j: int| 0 <= j < before.len() && before[j] == expected;
            assert(fields[j] == expected);
        }
    }
}

// -----------------------------------------------------------------------------------------
// Which bytes make which value
// -----------------------------------------------------------------------------------------

/// Each byte of a number weighs 256 times as much as the one before it.
pub proof fn lemma_le_value(bytes: Seq<u8>)
    ensures
        bytes.len() == 0 ==> le_value(bytes) == 0,
        bytes.len() == 1 ==> le_value(bytes) == bytes[0],
        bytes.len() == 2 ==> le_value(bytes) == bytes[0] + 0x100 * bytes[1],
        bytes.len() == 4 ==> le_value(bytes) == bytes[0] + 0x100 * bytes[1] + 0x1_0000 * bytes[2]
            + 0x100_0000 * bytes[3],
        bytes.len() == 8 ==> le_value(bytes) == bytes[0] + 0x100 * bytes[1] + 0x1_0000 * bytes[2]
            + 0x100_0000 * bytes[3] + 0x1_0000_0000 * bytes[4] + 0x100_0000_0000 * bytes[5]
            + 0x1_0000_0000_0000 * bytes[6] + 0x100_0000_0000_0000 * bytes[7],
{
    reveal_with_fuel(le_value, 3);
    if bytes.len() == 2 {
        assert(bytes.drop_first()[0] == bytes[1]);
    }
    if bytes.len() == 4 {
        lemma_le_value_4(bytes);
        assert(bytes.take(4) == bytes);
    }
    if bytes.len() == 8 {
        let rest = bytes.skip(4);
        lemma_le_value_8(bytes);
        lemma_le_value_4(bytes);
        lemma_le_value_4(rest);
        assert(bytes.take(8) == bytes);
    }
}

/// The first two bytes as a number, the least significant first.
pub open spec fn two_bytes(data: Seq<u8>) -> int {
    data[0] + 0x100 * data[1]
}

/// The first four bytes as a number, the least significant first.
pub open spec fn four_bytes(data: Seq<u8>) -> int {
    data[0] + 0x100 * data[1] + 0x1_0000 * data[2] + 0x100_0000 * data[3]
}

/// The first eight bytes as a number, the least significant first.
pub open spec fn eight_bytes(data: Seq<u8>) -> int {
    four_bytes(data) + 0x1_0000_0000 * four_bytes(data.skip(4))
}

proof fn lemma_leading_bytes(data: Seq<u8>)
    ensures
        data.len() >= 2 ==> le_value(data.take(2)) == two_bytes(data),
        data.len() >= 4 ==> le_value(data.take(4)) == four_bytes(data),
        data.len() >= 8 ==> le_value(data.take(8)) == eight_bytes(data),
{
    if data.len() >= 2 {
        lemma_le_value(data.take(2));
    }
    if data.len() >= 4 {
        lemma_le_value(data.take(4));
    }
    if data.len() >= 8 {
        lemma_le_value(data.take(8));
        let high = data.skip(4);
        assert(high[0] == data[4] && high[1] == data[5] && high[2] == data[6] && high[3] == data[7]);
    }
}

/// An unsigned number is read with the least significant byte first, from as many bytes as its
/// type is wide.
pub proof fn lemma_unsigned_numbers(data: Seq<u8>)
    ensures
        data.len() >= 1 ==> value_of(data, TypeView::Primitive(PrimitiveType::U8))
            == ValueView::Integer(data[0] as int),
        data.len() >= 2 ==> value_of(data, TypeView::Primitive(PrimitiveType::U16))
            == ValueView::Integer(two_bytes(data)),
        data.len() >= 4 ==> value_of(data, TypeView::Primitive(PrimitiveType::U32))
            == ValueView::Integer(four_bytes(data)),
        data.len() >= 8 ==> value_of(data, TypeView::Primitive(PrimitiveType::U64))
            == ValueView::Integer(eight_bytes(data)),
{
    lemma_leading_bytes(data);
}

/// A signed number is the unsigned one of the same bytes, less the whole range of its width if the
/// highest bit is set.
pub proof fn lemma_signed_numbers(data: Seq<u8>)
    ensures
        data.len() >= 1 ==> value_of(data, TypeView::Primitive(PrimitiveType::I8))
            == ValueView::Integer(
            data[0] - if data[0] >= 0x80 {
                0x100int
            } else {
                0
            },
        ),
        data.len() >= 2 ==> value_of(data, TypeView::Primitive(PrimitiveType::I16))
            == ValueView::Integer(
            two_bytes(data) - if data[1] >= 0x80 {
                0x1_0000int
            } else {
                0
            },
        ),
        data.len() >= 4 ==> value_of(data, TypeView::Primitive(PrimitiveType::I32))
            == ValueView::Integer(
            four_bytes(data) - if data[3] >= 0x80 {
                0x1_0000_0000int
            } else {
                0
            },
        ),
        data.len() >= 8 ==> value_of(data, TypeView::Primitive(PrimitiveType::I64))
            == ValueView::Integer(
            eight_bytes(data) - if data[7] >= 0x80 {
                0x1_0000_0000_0000_0000int
            } else {
                0
            },
        ),
{
    lemma_leading_bytes(data);
    if data.len() >= 8 {
        let high = data.skip(4);
        assert(high[0] == data[4] && high[1] == data[5] && high[2] == data[6] && high[3] == data[7]);
    }
}

/// A floating-point number has the bit pattern that its bytes make, the least significant first. A
/// truth value is true unless its byte is zero, and a character is the one with its byte's code.
pub proof fn lemma_other_primitives(data: Seq<u8>)
    ensures
        data.len() >= 4 ==> (value_of(data, TypeView::Primitive(PrimitiveType::F32)) matches
            ValueView::Float32 { bits } && bits == four_bytes(data)),
        data.len() >= 8 ==> (value_of(data, TypeView::Primitive(PrimitiveType::F64)) matches
            ValueView::Float64 { bits } && bits == eight_bytes(data)),
        data.len() >= 1 ==> value_of(data, TypeView::Primitive(PrimitiveType::Bool))
            == ValueView::Bool(data[0] != 0),
        data.len() >= 1 ==> value_of(data, TypeView::Primitive(PrimitiveType::Char))
            == ValueView::Text(seq![data[0] as char]),
{
    lemma_leading_bytes(data);
}

/// A pointer is reported as `0x` and at least eight hexadecimal digits of the address that its
/// bytes make, the least significant first; one of a width other than four or eight bytes as zero.
pub proof fn lemma_pointers(data: Seq<u8>, target: Box<TypeView>, size: u64)
    ensures
        size == 4 && data.len() >= 4 ==> value_of(data, TypeView::Pointer { target, size })
            == ValueView::Text("0x"@ + text::hex_text(four_bytes(data) as nat, 8)),
        size == 8 && data.len() >= 8 ==> value_of(data, TypeView::Pointer { target, size })
            == ValueView::Text("0x"@ + text::hex_text(eight_bytes(data) as nat, 8)),
        size != 4 && size != 8 ==> value_of(data, TypeView::Pointer { target, size })
            == ValueView::Text("0x"@ + text::hex_text(0, 8)),
{
    lemma_leading_bytes(data);
}

/// The number that the bytes of an enumeration of one, two or four bytes make.
pub open spec fn number_of_width(data: Seq<u8>, size: u64) -> int {
    if size == 1 {
        data[0] as int
    } else if size == 2 {
        two_bytes(data)
    } else {
        four_bytes(data)
    }
}

proof fn lemma_variant_of(variants: Seq<VariantView>, value: int, i: int)
    requires
        0 <= i <= variants.len(),
        i < variants.len() ==> variants[i].value == value,
        forall|k: int| 0 <= k < i ==> (#[trigger] variants[k]).value != value,
    ensures
        variant_of(variants, value) == if i < variants.len() {
            Some(variants[i])
        } else {
            None
        },
    decreases variants.len(),
{
    if i > 0 {
        let rest = variants.drop_first();
        assert(variants[0].value != value);
        assert forall|k: int| 0 <= k < i - 1 implies (#[trigger] rest[k]).value != value by {
            assert(rest[k] == variants[k + 1]);
        }
        lemma_variant_of(rest, value, i - 1);
    }
}

/// An enumeration of one, two or four bytes is read with the least significant byte first, and
/// reported with the name of the first variant that has this number.
pub proof fn lemma_known_variant(
    data: Seq<u8>,
    name: Seq<char>,
    size: u64,
    variants: Seq<VariantView>,
    i: int,
)
    requires
        size == 1 || size == 2 || size == 4,
        size <= data.len(),
        0 <= i < variants.len(),
        variants[i].value == number_of_width(data, size),
        forall|k: int|
            0 <= k < i ==> (#[trigger] variants[k]).value != number_of_width(data, size),
    ensures
        value_of(data, TypeView::Enum { name, size, variants }) matches ValueView::Object(fields)
            && fields.len() == 2 && fields[0] == ("variant"@, ValueView::Text(variants[i].name))
            && fields[1] == ("value"@, ValueView::Integer(number_of_width(data, size))),
{
    lemma_leading_bytes(data);
    lemma_variant_of(variants, number_of_width(data, size), i);
}

/// An enumeration whose number no variant has is reported as that number.
pub proof fn lemma_unknown_variant(
    data: Seq<u8>,
    name: Seq<char>,
    size: u64,
    variants: Seq<VariantView>,
)
    requires
        size == 1 || size == 2 || size == 4,
        size <= data.len(),
        forall|k: int|
            0 <= k < variants.len() ==> (#[trigger] variants[k]).value != number_of_width(
                data,
                size,
            ),
    ensures
        value_of(data, TypeView::Enum { name, size, variants }) == ValueView::Integer(
            number_of_width(data, size),
        ),
{
    lemma_leading_bytes(data);
    lemma_variant_of(variants, number_of_width(data, size), variants.len() as int);
}

/// The bytes of an enumeration of any other width are not looked at: it is reported as zero, with
/// the name of the first variant that is zero.
pub proof fn lemma_enumeration_of_odd_width(
    data: Seq<u8>,
    name: Seq<char>,
    size: u64,
    variants: Seq<VariantView>,
    i: int,
)
    requires
        size != 1 && size != 2 && size != 4,
        0 <= i <= variants.len(),
        i < variants.len() ==> variants[i].value == 0,
        forall|k: int| 0 <= k < i ==> (#[trigger] variants[k]).value != 0,
    ensures
        i == variants.len() ==> value_of(data, TypeView::Enum { name, size, variants })
            == ValueView::Integer(0),
        i < variants.len() ==> (value_of(data, TypeView::Enum { name, size, variants }) matches
            ValueView::Object(fields) && fields.len() == 2 && fields[0] == (
            "variant"@,
            ValueView::Text(variants[i].name),
        ) && fields[1] == ("value"@, ValueView::Integer(0))),
{
    lemma_variant_of(variants, 0, i);
}

proof fn lemma_array_items(data: Seq<u8>, element: TypeView, count: nat)
    ensures
        ({
            let items = array_items(data, element, count);
            let size = types::type_size(element) as int;
            &&& items.len() <= count
            &&& items.len() > 0 ==> items.len() * size <= data.len()
            &&& items.len() < count ==> items.len() * size + size > data.len()
            &&& forall|i: int|
                0 <= i < items.len() ==> (#[trigger] items[i]) == value_of(
                    data.subrange(i * size, i * size + size),
                    element,
                )
        }),
    decreases count,
{
    if count > 0 {
        let less = (count - 1) as nat;
        lemma_array_items(data, element, less);
        let size = types::type_size(element) as int;
        let before = array_items(data, element, less);
        assert(before.len() * size <= less * size) by (nonlinear_arith)
            requires
                before.len() <= less,
                size >= 0,
        ;
        assert(less * size + size == count * size) by (nonlinear_arith)
            requires
                less + 1 == count,
        ;
        if before.len() < less {
            assert(before.len() * size + size <= less * size) by (nonlinear_arith)
                requires
                    before.len() + 1 <= less,
                    size >= 0,
            ;
        }
    }
}

/// An array is read element by element, each from its own bytes, which follow those of the element
/// before it; it ends early only where the bytes do not hold the next element.
pub proof fn lemma_array_value(
    data: Seq<u8>,
    element: Box<TypeView>,
    count: usize,
    size: u64,
    bytes: int,
)
    requires
        types::takes(*element, bytes),
    ensures
        value_of(data, TypeView::Array { element, count, size }) matches ValueView::Array(items) && {
            &&& items.len() <= count
            &&& items.len() > 0 ==> items.len() * bytes <= data.len()
            &&& items.len() < count ==> items.len() * bytes + bytes > data.len()
            &&& forall|i: int|
                0 <= i < items.len() ==> (#[trigger] items[i]) == value_of(
                    data.subrange(i * bytes, i * bytes + bytes),
                    *element,
                )
        },
{
    types::lemma_takes(*element, bytes);
    lemma_array_items(data, *element, count as nat);
}

proof fn lemma_fields_of_fewer(
    data: Seq<u8>,
    members: Seq<MemberView>,
    more: Seq<MemberView>,
    count: nat,
)
    requires
        count <= members.len() <= more.len(),
        forall|i: int| 0 <= i < count ==> members[i] == more[i],
    ensures
        struct_fields(data, members, count) == struct_fields(data, more, count),
    decreases count,
{
    if count > 0 {
        lemma_fields_of_fewer(data, members, more, (count - 1) as nat);
    }
}

/// A structure without members has no fields.
pub proof fn lemma_no_members(data: Seq<u8>, name: Seq<char>, size: u64)
    ensures
        value_of(data, TypeView::Struct { name, size, members: Seq::empty() }) == ValueView::Object(
            Seq::empty(),
        ),
{
}

/// One more member makes no difference if it does not lie within the bytes. If it does, its value,
/// read from its own bytes, is put last under its name, or takes the place of the value that an
/// earlier member of that name has.
pub proof fn lemma_one_more_member(
    data: Seq<u8>,
    name: Seq<char>,
    size: u64,
    members: Seq<MemberView>,
    member: MemberView,
    bytes: int,
)
    requires
        types::takes(member.type_info, bytes),
    ensures
        value_of(data, TypeView::Struct { name, size, members }) is Object,
        ({
            let fields = value_of(data, TypeView::Struct { name, size, members })->Object_0;
            let more = value_of(
                data,
                TypeView::Struct { name, size, members: members.push(member) },
            );
            let value = value_of(
                data.subrange(member.offset as int, member.offset + bytes),
                member.type_info,
            );
            &&& member.offset + bytes > data.len() ==> more == ValueView::Object(fields)
            &&& member.offset + bytes <= data.len() && (forall|i: int|
                0 <= i < fields.len() ==> (#[trigger] fields[i]).0 != member.name) ==> more
                == ValueView::Object(fields.push((member.name, value)))
            &&& forall|i: int|
                member.offset + bytes <= data.len() && 0 <= i < fields.len() && (
                #[trigger] fields[i]).0 == member.name ==> more == ValueView::Object(
                    fields.update(i, (member.name, value)),
                )
        }),
{
    types::lemma_takes(member.type_info, bytes);
    let all = members.push(member);
    let n = members.len();
    let fields = struct_fields(data, members, n);
    let value = value_of(
        data.subrange(member.offset as int, member.offset + bytes),
        member.type_info,
    );
    lemma_fields_of_fewer(data, members, all, n);
    lemma_distinct_fields(data, members, n);
    assert(all[n as int] == member);
    if member.offset + bytes <= data.len() {
        assert(struct_fields(data, all, n + 1) == with_field(fields, member.name, value));
        if forall|i: int| 0 <= i < fields.len() ==> (#[trigger] fields[i]).0 != member.name {
            lemma_with_field(fields, member.name, value, fields.len() as int);
        }
        assert forall|i: int| 0 <= i < fields.len() && (#[trigger] fields[i]).0
            == member.name implies struct_fields(data, all, n + 1) == fields.update(
            i,
            (member.name, value),
        ) by {
            assert forall|k: int| 0 <= k < i implies (#[trigger] fields[k]).0 != member.name by {
                assert(fields[k].0 != fields[i].0);
            }
            lemma_with_field(fields, member.name, value, i);
        }
    }
}

proof fn lemma_two_digits(b: u8)
    ensures
        text::hex_text(b as nat, 2).len() == 2,
{
    reveal_with_fuel(text::hex_text, 3);
}

proof fn lemma_hex_dump(bytes: Seq<u8>)
    ensures
        bytes.len() == 0 ==> hex_dump(bytes).len() == 0,
        bytes.len() > 0 ==> hex_dump(bytes).len() == 3 * bytes.len() - 1,
        forall|i: int|
            0 <= i < bytes.len() ==> text::hex_text(#[trigger] bytes[i] as nat, 2)
                == hex_dump(bytes).subrange(3 * i, 3 * i + 2) && text::hex_text(
                bytes[i] as nat,
                2,
            ).len() == 2 && (i < bytes.len() - 1 ==> hex_dump(bytes)[3 * i + 2] == ' '),
    decreases bytes.len(),
{
    let digits = |b: u8| text::hex_text(b as nat, 2);
    if bytes.len() > 0 {
        let rest = bytes.drop_last();
        let last = bytes.last();
        lemma_hex_dump(rest);
        lemma_two_digits(last);
        let dump = hex_dump(bytes);
        let before = hex_dump(rest);
        assert(bytes.map_values(digits).drop_last() == rest.map_values(digits));
        let two = text::hex_text(last as nat, 2);
        if rest.len() > 0 {
            assert(dump == before.push(' ') + two);
        } else {
            assert(dump == two);
        }
        assert forall|i: int| 0 <= i < bytes.len() implies text::hex_text(
            #[trigger] bytes[i] as nat,
            2,
        ) == dump.subrange(3 * i, 3 * i + 2) && text::hex_text(bytes[i] as nat, 2).len() == 2 && (i
            < bytes.len() - 1 ==> dump[3 * i + 2] == ' ') by {
            if i < rest.len() {
                assert(rest[i] == bytes[i]);
                assert(dump.subrange(3 * i, 3 * i + 2) == before.subrange(3 * i, 3 * i + 2));
                if i < rest.len() - 1 {
                    assert(dump[3 * i + 2] == before[3 * i + 2]);
                }
            } else {
                assert(dump.subrange(3 * i, 3 * i + 2) == two);
            }
        }
    }
}

/// Bytes of an unknown type are dumped one by one, as many as the type takes or as there are: two
/// hexadecimal digits for each, and a space between each two.
pub proof fn lemma_unknown_value(data: Seq<u8>, size: u64, name: Option<Seq<char>>, n: int)
    requires
        n == if size < data.len() {
            size as int
        } else {
            data.len() as int
        },
    ensures
        value_of(data, TypeView::Unknown { size, name }) matches ValueView::Text(dump) && {
            &&& n == 0 ==> dump.len() == 0
            &&& n > 0 ==> dump.len() == 3 * n - 1
            &&& forall|i: int|
                0 <= i < n ==> dump.subrange(3 * i, 3 * i + 2) == text::hex_text(
                    #[trigger] data[i] as nat,
                    2,
                ) && (i < n - 1 ==> dump[3 * i + 2] == ' ')
        },
{
    let bytes = data.take(n);
    assert(size >= data.len() ==> bytes == data);
    lemma_hex_dump(bytes);
    let dump = hex_dump(bytes);
    assert forall|i: int| 0 <= i < n implies dump.subrange(3 * i, 3 * i + 2) == text::hex_text(
        #[trigger] data[i] as nat,
        2,
    ) && (i < n - 1 ==> dump[3 * i + 2] == ' ') by {
        assert(bytes[i] == data[i]);
    }
}

/// A value without parts can be read exactly if all its bytes are there; a pointer or enumeration
/// of a width that is not looked at, and an unknown type, from any bytes.
pub proof fn lemma_readable_values(t: TypeView, len: int, bytes: int)
    requires
        len >= 0,
        types::takes(t, bytes),
    ensures
        t matches TypeView::Primitive(p) ==> (readable(t, len) <==> bytes <= len),
        t matches TypeView::Pointer { size, .. } ==> (readable(t, len) <==> size <= len || size != 4
            && size != 8),
        t matches TypeView::Enum { size, .. } ==> (readable(t, len) <==> size <= len || size != 1
            && size != 2 && size != 4),
        t is Unknown ==> readable(t, len),
{
    types::lemma_takes(t, bytes);
}

/// An array or a structure can be read from any number of bytes, if every position within it can
/// be computed: parts that lie beyond the bytes are left out.
pub proof fn lemma_readable_parts(t: TypeView, len: int)
    requires
        t is Array || t is Struct,
        positions_fit(t),
    ensures
        readable(t, len),
{
    match t {
        TypeView::Array { element, count, .. } => {
            lemma_own_size_is_readable(*element, types::type_size(*element) as int);
        },
        TypeView::Struct { members, .. } => {
            assert forall|i: int| 0 <= i < members.len() implies readable(
                (#[trigger] members[i]).type_info,
                types::type_size(members[i].type_info) as int,
            ) by {
                lemma_own_size_is_readable(
                    members[i].type_info,
                    types::type_size(members[i].type_info) as int,
                );
            }
        },
        _ => {},
    }
}

/// Every position within a value can be computed exactly if the end of each element and member is
/// in range, and so within each of them.
pub proof fn lemma_positions_fit(t: TypeView)
    ensures
        t matches TypeView::Array { element, count, .. } ==> (positions_fit(t) <==> types::type_size(
            *element,
        ) <= usize::MAX && count * types::type_size(*element) <= usize::MAX && positions_fit(
            *element,
        )),
        t matches TypeView::Struct { members, .. } ==> (positions_fit(t) <==> forall|i: int|
            0 <= i < members.len() ==> (#[trigger] members[i]).offset + types::type_size(
                members[i].type_info,
            ) <= usize::MAX && positions_fit(members[i].type_info)),
        !(t is Array) && !(t is Struct) ==> positions_fit(t),
{
}

/// The view of a value has its kind and its parts.
pub proof fn lemma_value_view(v: DecodedValue)
    ensures
        match v {
            DecodedValue::Integer(n) => v@ == ValueView::Integer(n as int),
            DecodedValue::Float32 { bits } => v@ == (ValueView::Float32 { bits }),
            DecodedValue::Float64 { bits } => v@ == (ValueView::Float64 { bits }),
            DecodedValue::Bool(b) => v@ == ValueView::Bool(b),
            DecodedValue::Text(t) => v@ == ValueView::Text(t@),
            DecodedValue::Array(items) => v@ matches ValueView::Array(shown) && shown.len()
                == items@.len() && forall|i: int|
                0 <= i < items@.len() ==> (#[trigger] shown[i]) == items@[i]@,
            DecodedValue::Object(fields) => v@ matches ValueView::Object(shown) && shown.len()
                == fields@.len() && forall|i: int|
                0 <= i < fields@.len() ==> (#[trigger] shown[i]) == (fields@[i].0@, fields@[i].1@),
        },
{
    reveal_with_fuel(value_view, 2);
}

} // verus!
