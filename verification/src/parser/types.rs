//! The types of the target program, as its debug information describes them.

use crate::rtt::object_file;
use crate::text::decimal;
use crate::text;
use vstd::prelude::*;

verus! {

/// A type without parts.
#[derive(Debug, Clone, Copy, PartialEq, Eq, Structural)]
pub enum PrimitiveType {
    U8,
    I8,
    U16,
    I16,
    U32,
    I32,
    U64,
    I64,
    F32,
    F64,
    Bool,
    Char,
}

/// The number of bytes that a value of a primitive type takes.
pub open spec fn primitive_size(p: PrimitiveType) -> u64 {
    match p {
        PrimitiveType::U8 | PrimitiveType::I8 | PrimitiveType::Bool | PrimitiveType::Char => 1,
        PrimitiveType::U16 | PrimitiveType::I16 => 2,
        PrimitiveType::U32 | PrimitiveType::I32 | PrimitiveType::F32 => 4,
        PrimitiveType::U64 | PrimitiveType::I64 | PrimitiveType::F64 => 8,
    }
}

/// The name of a primitive type, in lower case.
pub open spec fn primitive_text(p: PrimitiveType) -> Seq<char> {
    match p {
        PrimitiveType::U8 => "u8"@,
        PrimitiveType::I8 => "i8"@,
        PrimitiveType::U16 => "u16"@,
        PrimitiveType::I16 => "i16"@,
        PrimitiveType::U32 => "u32"@,
        PrimitiveType::I32 => "i32"@,
        PrimitiveType::U64 => "u64"@,
        PrimitiveType::I64 => "i64"@,
        PrimitiveType::F32 => "f32"@,
        PrimitiveType::F64 => "f64"@,
        PrimitiveType::Bool => "bool"@,
        PrimitiveType::Char => "char"@,
    }
}

impl PrimitiveType {
    /// The number of bytes that a value takes.
    pub fn size(&self) -> (bytes: u64)
        ensures
            bytes == primitive_size(*self),
    {
        match self {
            PrimitiveType::U8 | PrimitiveType::I8 | PrimitiveType::Bool | PrimitiveType::Char => 1,
            PrimitiveType::U16 | PrimitiveType::I16 => 2,
            PrimitiveType::U32 | PrimitiveType::I32 | PrimitiveType::F32 => 4,
            PrimitiveType::U64 | PrimitiveType::I64 | PrimitiveType::F64 => 8,
        }
    }

    fn name(&self) -> (text: &'static str)
        ensures
            text@ == primitive_text(*self),
    {
        match self {
            PrimitiveType::U8 => "u8",
            PrimitiveType::I8 => "i8",
            PrimitiveType::U16 => "u16",
            PrimitiveType::I16 => "i16",
            PrimitiveType::U32 => "u32",
            PrimitiveType::I32 => "i32",
            PrimitiveType::U64 => "u64",
            PrimitiveType::I64 => "i64",
            PrimitiveType::F32 => "f32",
            PrimitiveType::F64 => "f64",
            PrimitiveType::Bool => "bool",
            PrimitiveType::Char => "char",
        }
    }
}

/// A type of the target program.
#[derive(Debug)]
pub enum TypeInfo {
    Primitive(PrimitiveType),
    Pointer { target: Box<TypeInfo>, size: u64 },
    Array { element: Box<TypeInfo>, count: usize, size: u64 },
    Struct { name: String, size: u64, members: Vec<TypedMember> },
    Enum { name: String, size: u64, variants: Vec<EnumVariant> },
    Unknown { size: u64, name: Option<String> },
}

/// A member of a structure, with its type.
#[derive(Debug)]
pub struct TypedMember {
    pub name: String,
    pub offset: u64,
    pub type_info: TypeInfo,
}

/// A named value of an enumeration.
#[derive(Debug)]
pub struct EnumVariant {
    pub name: String,
    pub value: i64,
}

/// A [`TypeInfo`] with its names as character sequences.
pub enum TypeView {
    Primitive(PrimitiveType),
    Pointer { target: Box<TypeView>, size: u64 },
    Array { element: Box<TypeView>, count: usize, size: u64 },
    Struct { name: Seq<char>, size: u64, members: Seq<MemberView> },
    Enum { name: Seq<char>, size: u64, variants: Seq<VariantView> },
    Unknown { size: u64, name: Option<Seq<char>> },
}

/// A [`TypedMember`] with its name as a character sequence.
pub struct MemberView {
    pub name: Seq<char>,
    pub offset: u64,
    pub type_info: TypeView,
}

/// An [`EnumVariant`] with its name as a character sequence.
pub struct VariantView {
    pub name: Seq<char>,
    pub value: i64,
}

/// The view of a type.
pub open spec fn type_view(t: TypeInfo) -> TypeView
    decreases t,
{
    match t {
        TypeInfo::Primitive(p) => TypeView::Primitive(p),
        TypeInfo::Pointer { target, size } => TypeView::Pointer {
            target: Box::new(type_view(*target)),
            size,
        },
        TypeInfo::Array { element, count, size } => TypeView::Array {
            element: Box::new(type_view(*element)),
            count,
            size,
        },
        TypeInfo::Struct { name, size, members } => TypeView::Struct {
            name: name@,
            size,
            members: Seq::new(
                members@.len(),
                |i: int|
                    if 0 <= i < members@.len() {
                        member_view(members@[i])
                    } else {
                        arbitrary()
                    },
            ),
        },
        TypeInfo::Enum { name, size, variants } => TypeView::Enum {
            name: name@,
            size,
            variants: variants@.map_values(|v: EnumVariant| v@),
        },
        TypeInfo::Unknown { size, name } => TypeView::Unknown { size, name: object_file::option_text(name) },
    }
}

/// The view of a member.
pub open spec fn member_view(m: TypedMember) -> MemberView
    decreases m,
{
    MemberView { name: m.name@, offset: m.offset, type_info: type_view(m.type_info) }
}

impl View for TypeInfo {
    type V = TypeView;

    open spec fn view(&self) -> TypeView {
        type_view(*self)
    }
}

impl View for TypedMember {
    type V = MemberView;

    open spec fn view(&self) -> MemberView {
        member_view(*self)
    }
}

impl View for EnumVariant {
    type V = VariantView;

    open spec fn view(&self) -> VariantView {
        VariantView { name: self.name@, value: self.value }
    }
}

impl Clone for EnumVariant {
    fn clone(&self) -> (r: EnumVariant)
        ensures
            r@ == self@,
    {
        EnumVariant { name: self.name.clone(), value: self.value }
    }
}

impl Clone for TypeInfo {
    fn clone(&self) -> (r: TypeInfo)
        ensures
            r@ == self@,
    {
        copy_type(self)
    }
}

impl Clone for TypedMember {
    fn clone(&self) -> (r: TypedMember)
        ensures
            r@ == self@,
    {
        TypedMember {
            name: self.name.clone(),
            offset: self.offset,
            type_info: copy_type(&self.type_info),
        }
    }
}

fn copy_type(t: &TypeInfo) -> (r: TypeInfo)
    ensures
        r@ == t@,
    decreases t,
{
    match t {
        TypeInfo::Primitive(p) => TypeInfo::Primitive(*p),
        TypeInfo::Pointer { target, size } => TypeInfo::Pointer {
            target: Box::new(copy_type(target)),
            size: *size,
        },
        TypeInfo::Array { element, count, size } => TypeInfo::Array {
            element: Box::new(copy_type(element)),
            count: *count,
            size: *size,
        },
        TypeInfo::Struct { name, size, members } => {
            let mut copies: Vec<TypedMember> = Vec::new();
            let mut i: usize = 0;
            while i < members.len()
                invariant
                    i <= members@.len(),
                    copies@.len() == i,
                    t matches TypeInfo::Struct { members: m, .. } && m == members,
                    forall|k: int| 0 <= k < i ==> (#[trigger] copies@[k])@ == members@[k]@,
                decreases members@.len() - i,
            {
                let member = &members[i];
                copies.push(
                    TypedMember {
                        name: member.name.clone(),
                        offset: member.offset,
                        type_info: copy_type(&member.type_info),
                    },
                );
                i = i + 1;
            }
            let r = TypeInfo::Struct { name: name.clone(), size: *size, members: copies };
            assert(r@->Struct_members == t@->Struct_members);
            r
        },
        TypeInfo::Enum { name, size, variants } => {
            let mut copies: Vec<EnumVariant> = Vec::new();
            let mut i: usize = 0;
            while i < variants.len()
                invariant
                    i <= variants@.len(),
                    copies@.len() == i,
                    forall|k: int| 0 <= k < i ==> (#[trigger] copies@[k])@ == variants@[k]@,
                decreases variants@.len() - i,
            {
                copies.push(variants[i].clone());
                i = i + 1;
            }
            let r = TypeInfo::Enum { name: name.clone(), size: *size, variants: copies };
            assert(r@->variants == t@->variants);
            r
        },
        TypeInfo::Unknown { size, name } => TypeInfo::Unknown {
            size: *size,
            name: match name {
                Some(text) => Some(text.clone()),
                None => None,
            },
        },
    }
}

/// The number of bytes that a value of the type takes.
pub open spec fn type_size(t: TypeView) -> u64 {
    match t {
        TypeView::Primitive(p) => primitive_size(p),
        TypeView::Pointer { size, .. } => size,
        TypeView::Array { size, .. } => size,
        TypeView::Struct { size, .. } => size,
        TypeView::Enum { size, .. } => size,
        TypeView::Unknown { size, .. } => size,
    }
}

/// How a type is written: `u8`, `*u8`, `[u8; 4]`, `struct s`, `enum e`, or the recorded name.
pub open spec fn type_text(t: TypeView) -> Seq<char>
    decreases t,
{
    match t {
        TypeView::Primitive(p) => primitive_text(p),
        TypeView::Pointer { target, .. } => "*"@ + type_text(*target),
        TypeView::Array { element, count, .. } => "["@ + type_text(*element) + "; "@ + text::decimal_text(
            count as nat,
        ) + "]"@,
        TypeView::Struct { name, .. } => "struct "@ + name,
        TypeView::Enum { name, .. } => "enum "@ + name,
        TypeView::Unknown { name, .. } => match name {
            Some(text) => text,
            None => "unknown"@,
        },
    }
}

impl TypeInfo {
    /// The number of bytes that a value of the type takes.
    pub fn size(&self) -> (bytes: u64)
        ensures
            bytes == type_size(self@),
    {
        match self {
            TypeInfo::Primitive(p) => p.size(),
            TypeInfo::Pointer { size, .. } => *size,
            TypeInfo::Array { size, .. } => *size,
            TypeInfo::Struct { size, .. } => *size,
            TypeInfo::Enum { size, .. } => *size,
            TypeInfo::Unknown { size, .. } => *size,
        }
    }

    /// How the type is written.
    pub fn typename(&self) -> (text: String)
        ensures
            text@ == type_text(self@),
        decreases self,
    {
        match self {
            TypeInfo::Primitive(p) => p.name().to_owned(),
            TypeInfo::Pointer { target, .. } => {
                let mut text = "*".to_owned();
                text.append(target.typename().as_str());
                text
            },
            TypeInfo::Array { element, count, .. } => {
                let mut text = "[".to_owned();
                text.append(element.typename().as_str());
                text.append("; ");
                text.append(decimal(*count as u64).as_str());
                text.append("]");
                text
            },
            TypeInfo::Struct { name, .. } => {
                let mut text = "struct ".to_owned();
                text.append(name.as_str());
                text
            },
            TypeInfo::Enum { name, .. } => {
                let mut text = "enum ".to_owned();
                text.append(name.as_str());
                text
            },
            TypeInfo::Unknown { name, .. } => match name {
                Some(text) => text.clone(),
                None => "unknown".to_owned(),
            },
        }
    }
}

// -----------------------------------------------------------------------------------------
// Laws
// -----------------------------------------------------------------------------------------

/// A value of the type takes that many bytes: those that the name of a primitive type says in bits,
/// one for a truth value or a character, and those that any other type records.
pub open spec fn takes(t: TypeView, bytes: int) -> bool {
    match t {
        TypeView::Primitive(PrimitiveType::U8) => bytes == 1,
        TypeView::Primitive(PrimitiveType::I8) => bytes == 1,
        TypeView::Primitive(PrimitiveType::U16) => bytes == 2,
        TypeView::Primitive(PrimitiveType::I16) => bytes == 2,
        TypeView::Primitive(PrimitiveType::U32) => bytes == 4,
        TypeView::Primitive(PrimitiveType::I32) => bytes == 4,
        TypeView::Primitive(PrimitiveType::U64) => bytes == 8,
        TypeView::Primitive(PrimitiveType::I64) => bytes == 8,
        TypeView::Primitive(PrimitiveType::F32) => bytes == 4,
        TypeView::Primitive(PrimitiveType::F64) => bytes == 8,
        TypeView::Primitive(PrimitiveType::Bool) => bytes == 1,
        TypeView::Primitive(PrimitiveType::Char) => bytes == 1,
        TypeView::Pointer { target, size } => bytes == size,
        TypeView::Array { element, count, size } => bytes == size,
        TypeView::Struct { name, size, members } => bytes == size,
        TypeView::Enum { name, size, variants } => bytes == size,
        TypeView::Unknown { size, name } => bytes == size,
    }
}

/// The size of a type is the number of bytes that a value of it takes.
pub proof fn lemma_takes(t: TypeView, bytes: int)
    ensures
        type_size(t) == bytes <==> takes(t, bytes),
{
}

/// A value of a primitive type takes as many bytes as the type's name says in bits; a truth value
/// and a character take one.
pub proof fn lemma_primitive_bytes(p: PrimitiveType)
    ensures
        type_size(TypeView::Primitive(p)) == 1 <==> p == PrimitiveType::U8 || p == PrimitiveType::I8
            || p == PrimitiveType::Bool || p == PrimitiveType::Char,
        type_size(TypeView::Primitive(p)) == 2 <==> p == PrimitiveType::U16 || p
            == PrimitiveType::I16,
        type_size(TypeView::Primitive(p)) == 4 <==> p == PrimitiveType::U32 || p
            == PrimitiveType::I32 || p == PrimitiveType::F32,
        type_size(TypeView::Primitive(p)) == 8 <==> p == PrimitiveType::U64 || p
            == PrimitiveType::I64 || p == PrimitiveType::F64,
        type_size(TypeView::Primitive(p)) == primitive_size(p),
{
}

/// A value of any other type takes as many bytes as the type records.
pub proof fn lemma_recorded_bytes(
    size: u64,
    inner: Box<TypeView>,
    count: usize,
    name: Seq<char>,
    members: Seq<MemberView>,
    variants: Seq<VariantView>,
    known: Option<Seq<char>>,
)
    ensures
        type_size(TypeView::Pointer { target: inner, size }) == size,
        type_size(TypeView::Array { element: inner, count, size }) == size,
        type_size(TypeView::Struct { name, size, members }) == size,
        type_size(TypeView::Enum { name, size, variants }) == size,
        type_size(TypeView::Unknown { size, name: known }) == size,
{
}

/// Primitive types are written with the letter of their kind and the number of their bits.
pub proof fn lemma_primitive_names()
    ensures
        type_text(TypeView::Primitive(PrimitiveType::U8)) == "u8"@,
        type_text(TypeView::Primitive(PrimitiveType::I8)) == "i8"@,
        type_text(TypeView::Primitive(PrimitiveType::U16)) == "u16"@,
        type_text(TypeView::Primitive(PrimitiveType::I16)) == "i16"@,
        type_text(TypeView::Primitive(PrimitiveType::U32)) == "u32"@,
        type_text(TypeView::Primitive(PrimitiveType::I32)) == "i32"@,
        type_text(TypeView::Primitive(PrimitiveType::U64)) == "u64"@,
        type_text(TypeView::Primitive(PrimitiveType::I64)) == "i64"@,
        type_text(TypeView::Primitive(PrimitiveType::F32)) == "f32"@,
        type_text(TypeView::Primitive(PrimitiveType::F64)) == "f64"@,
        type_text(TypeView::Primitive(PrimitiveType::Bool)) == "bool"@,
        type_text(TypeView::Primitive(PrimitiveType::Char)) == "char"@,
{
}

/// A pointer is written with a star in front of its target, an array with its element and its
/// count in brackets, structures and enumerations with their kind in front of their name.
pub proof fn lemma_type_names(
    size: u64,
    inner: Box<TypeView>,
    count: usize,
    name: Seq<char>,
    members: Seq<MemberView>,
    variants: Seq<VariantView>,
)
    ensures
        type_text(TypeView::Pointer { target: inner, size }) == "*"@ + type_text(*inner),
        type_text(TypeView::Array { element: inner, count, size }) == "["@ + type_text(*inner)
            + "; "@ + text::decimal_text(count as nat) + "]"@,
        type_text(TypeView::Struct { name, size, members }) == "struct "@ + name,
        type_text(TypeView::Enum { name, size, variants }) == "enum "@ + name,
        type_text(TypeView::Unknown { size, name: Some(name) }) == name,
        type_text(TypeView::Unknown { size, name: None }) == "unknown"@,
{
}

/// The view of a type has the kind, the sizes and the parts of the type.
pub proof fn lemma_type_view(t: TypeInfo)
    ensures
        match t {
            TypeInfo::Primitive(p) => t@ == TypeView::Primitive(p),
            TypeInfo::Pointer { target, size } => t@ matches TypeView::Pointer {
                target: shown,
                size: bytes,
            } && *shown == target@ && bytes == size,
            TypeInfo::Array { element, count, size } => t@ matches TypeView::Array {
                element: shown,
                count: n,
                size: bytes,
            } && *shown == element@ && n == count && bytes == size,
            TypeInfo::Struct { name, size, members } => t@ matches TypeView::Struct {
                name: text,
                size: bytes,
                members: shown,
            } && text == name@ && bytes == size && shown.len() == members@.len() && forall|i: int|
                0 <= i < members@.len() ==> (#[trigger] shown[i]).name == members@[i].name@
                    && shown[i].offset == members@[i].offset && shown[i].type_info
                    == members@[i].type_info@,
            TypeInfo::Enum { name, size, variants } => t@ matches TypeView::Enum {
                name: text,
                size: bytes,
                variants: shown,
            } && text == name@ && bytes == size && shown.len() == variants@.len() && forall|i: int|
                0 <= i < variants@.len() ==> (#[trigger] shown[i]).name == variants@[i].name@
                    && shown[i].value == variants@[i].value,
            TypeInfo::Unknown { size, name } => t@ matches TypeView::Unknown {
                size: bytes,
                name: shown,
            } && bytes == size && (name matches Some(text) ==> shown == Some(text@)) && (name is None
                ==> shown is None),
        },
{
    reveal_with_fuel(type_view, 2);
}

/// The view of a member has its name, its offset and its type; that of a variant has its name and
/// its value.
pub proof fn lemma_part_views(m: TypedMember, v: EnumVariant)
    ensures
        m@.name == m.name@,
        m@.offset == m.offset,
        m@.type_info == m.type_info@,
        v@.name == v.name@,
        v@.value == v.value,
{
}

} // verus!
