//! From type entries to types.
//!
//! A type entry may refer to another one: a pointer to its target, an array to its element, a
//! qualified or renamed type to what it stands for, a structure to the types of its members.
//! Such references are followed to their ends.
//!
//! What a pointer points to is described without its members. Structures may well point back to
//! themselves, no expression leads through a pointer, and no value is read through one.

use crate::error;
use crate::error::DebugError;
use crate::error::ErrorView;
use crate::parser::dwarf_data;
use crate::parser::dwarf_data::AttrRead;
use crate::parser::dwarf_data::AttrReadView;
use crate::parser::dwarf_data::AttrValue;
use crate::parser::dwarf_data::AttrView;
use crate::parser::dwarf_data::DwarfData;
use crate::parser::dwarf_data::UnitEntries;
use crate::parser::dwarf_data::UnitView;
use crate::parser::entry;
use crate::parser::entry::Entry;
use crate::parser::entry::EntryView;
use crate::parser::entry::Node;
use crate::parser::entry::NodeView;
use crate::parser::types;
use crate::parser::types::EnumVariant;
use crate::parser::types::MemberView;
use crate::parser::types::PrimitiveType;
use crate::parser::types::TypeInfo;
use crate::parser::types::TypeView;
use crate::parser::types::TypedMember;
use crate::parser::types::VariantView;
use crate::rtt::object_file;
use vstd::prelude::*;

verus! {

// -----------------------------------------------------------------------------------------
// One entry
// -----------------------------------------------------------------------------------------

/// The primitive type with that encoding and size, if there is one.
pub open spec fn primitive_of(encoding: Option<u8>, size: u64) -> Option<PrimitiveType> {
    match encoding {
        Some(code) => if code == entry::DW_ATE_BOOLEAN {
            Some(PrimitiveType::Bool)
        } else if code == entry::DW_ATE_UNSIGNED_CHAR || code == entry::DW_ATE_SIGNED_CHAR {
            Some(PrimitiveType::Char)
        } else if code == entry::DW_ATE_UNSIGNED && size == 1 {
            Some(PrimitiveType::U8)
        } else if code == entry::DW_ATE_UNSIGNED && size == 2 {
            Some(PrimitiveType::U16)
        } else if code == entry::DW_ATE_UNSIGNED && size == 4 {
            Some(PrimitiveType::U32)
        } else if code == entry::DW_ATE_UNSIGNED && size == 8 {
            Some(PrimitiveType::U64)
        } else if code == entry::DW_ATE_SIGNED && size == 1 {
            Some(PrimitiveType::I8)
        } else if code == entry::DW_ATE_SIGNED && size == 2 {
            Some(PrimitiveType::I16)
        } else if code == entry::DW_ATE_SIGNED && size == 4 {
            Some(PrimitiveType::I32)
        } else if code == entry::DW_ATE_SIGNED && size == 8 {
            Some(PrimitiveType::I64)
        } else if code == entry::DW_ATE_FLOAT && size == 4 {
            Some(PrimitiveType::F32)
        } else if code == entry::DW_ATE_FLOAT && size == 8 {
            Some(PrimitiveType::F64)
        } else {
            None
        },
        None => None,
    }
}

/// The primitive type with that encoding and size, if there is one.
pub fn find_primitive(encoding: Option<u8>, size: u64) -> (found: Option<PrimitiveType>)
    ensures
        found == primitive_of(encoding, size),
{
    let code: u8 = match encoding {
        Some(code) => code,
        None => {
            return None;
        },
    };
    match (code, size) {
        (entry::DW_ATE_UNSIGNED, 1) => Some(PrimitiveType::U8),
        (entry::DW_ATE_SIGNED, 1) => Some(PrimitiveType::I8),
        (entry::DW_ATE_UNSIGNED, 2) => Some(PrimitiveType::U16),
        (entry::DW_ATE_SIGNED, 2) => Some(PrimitiveType::I16),
        (entry::DW_ATE_UNSIGNED, 4) => Some(PrimitiveType::U32),
        (entry::DW_ATE_SIGNED, 4) => Some(PrimitiveType::I32),
        (entry::DW_ATE_UNSIGNED, 8) => Some(PrimitiveType::U64),
        (entry::DW_ATE_SIGNED, 8) => Some(PrimitiveType::I64),
        (entry::DW_ATE_FLOAT, 4) => Some(PrimitiveType::F32),
        (entry::DW_ATE_FLOAT, 8) => Some(PrimitiveType::F64),
        (entry::DW_ATE_BOOLEAN, _) => Some(PrimitiveType::Bool),
        (entry::DW_ATE_UNSIGNED_CHAR, _) => Some(PrimitiveType::Char),
        (entry::DW_ATE_SIGNED_CHAR, _) => Some(PrimitiveType::Char),
        _ => None,
    }
}

/// The type of which nothing is known.
pub open spec fn unknown_type() -> TypeView {
    TypeView::Unknown { size: 0, name: None }
}

/// Whether entries with that tag stand for, or are made of, the type that they refer to.
pub open spec fn refers(tag: u16) -> bool {
    tag == entry::DW_TAG_POINTER_TYPE || tag == entry::DW_TAG_ARRAY_TYPE || tag
        == entry::DW_TAG_TYPEDEF || tag == entry::DW_TAG_CONST_TYPE || tag
        == entry::DW_TAG_VOLATILE_TYPE
}

/// The name of a structure or an enumeration.
pub open spec fn given_name(name: Option<Seq<char>>) -> Seq<char> {
    match name {
        Some(text) => text,
        None => "<anonymous>"@,
    }
}

/// How many elements an array dimension has: the number that it records, or the distance of its
/// bounds, the lower of which is zero unless it is recorded. A dimension that records neither a
/// number nor an upper bound counts as one element.
pub open spec fn dimension_of(e: EntryView) -> nat {
    match (e.count, e.upper_bound) {
        (Some(n), _) => n as nat,
        (None, Some(last)) => {
            let first = match e.lower_bound {
                Some(first) => first,
                None => 0,
            };
            if first <= last {
                (last - first + 1) as nat
            } else {
                0
            }
        },
        (None, None) => 1,
    }
}

/// How many elements an array has whose dimensions stand among the entries: their product, one
/// if there are none; `None` if it is more than can be counted.
pub open spec fn count_of(children: Seq<EntryView>) -> Option<usize>
    decreases children.len(),
{
    if children.len() == 0 {
        Some(1)
    } else {
        match count_of(children.drop_last()) {
            Some(n) => if children.last().tag != entry::DW_TAG_SUBRANGE_TYPE {
                Some(n)
            } else if n * dimension_of(children.last()) <= usize::MAX {
                Some((n * dimension_of(children.last())) as usize)
            } else {
                None
            },
            None => None,
        }
    }
}

/// The entry of an enumerator with a name and a value.
pub open spec fn is_enumerator(e: EntryView) -> bool {
    e.tag == entry::DW_TAG_ENUMERATOR && e.name is Some && e.const_value is Some
}

/// The variants that the enumerators among the entries make, in order.
pub open spec fn variants_of(children: Seq<EntryView>) -> Seq<VariantView> {
    children.filter(|e: EntryView| is_enumerator(e)).map_values(
        |e: EntryView| VariantView { name: e.name->0, value: e.const_value->0 },
    )
}

/// The type that an entry describes, where `inner` is the type that it refers to and `members`
/// are those that it is made of; `None` for an array that is larger than can be counted.
pub open spec fn described_type(
    node: NodeView,
    inner: Result<TypeView, ErrorView>,
    members: Result<Seq<MemberView>, ErrorView>,
) -> Option<Result<TypeView, ErrorView>> {
    let e = node.entry;
    let size = entry::recorded_size(e);
    if e.tag == entry::DW_TAG_BASE_TYPE {
        match primitive_of(e.encoding, size) {
            Some(p) => Some(Ok(TypeView::Primitive(p))),
            None => Some(Ok(TypeView::Unknown { size, name: e.name })),
        }
    } else if e.tag == entry::DW_TAG_POINTER_TYPE {
        match inner {
            Ok(target) => Some(Ok(TypeView::Pointer { target: Box::new(target), size })),
            Err(error) => Some(Err(error)),
        }
    } else if e.tag == entry::DW_TAG_ARRAY_TYPE {
        match (inner, node.failure) {
            (Err(error), _) => Some(Err(error)),
            (Ok(_), Some(message)) => Some(Err(ErrorView::DwarfError(message))),
            (Ok(element), None) => match count_of(node.children) {
                Some(count) => if types::type_size(element) * count <= u64::MAX {
                    Some(
                        Ok(
                            TypeView::Array {
                                element: Box::new(element),
                                count,
                                size: (types::type_size(element) * count) as u64,
                            },
                        ),
                    )
                } else {
                    None
                },
                None => None,
            },
        }
    } else if e.tag == entry::DW_TAG_STRUCTURE_TYPE {
        match members {
            Ok(members) => Some(Ok(TypeView::Struct { name: given_name(e.name), size, members })),
            Err(error) => Some(Err(error)),
        }
    } else if e.tag == entry::DW_TAG_ENUMERATION_TYPE {
        match node.failure {
            Some(message) => Some(Err(ErrorView::DwarfError(message))),
            None => Some(
                Ok(
                    TypeView::Enum {
                        name: given_name(e.name),
                        size,
                        variants: variants_of(node.children),
                    },
                ),
            ),
        }
    } else if refers(e.tag) {
        Some(inner)
    } else {
        Some(Ok(TypeView::Unknown { size, name: e.name }))
    }
}

fn name_or_anonymous(name: &Option<String>) -> (text: String)
    ensures
        text@ == given_name(object_file::option_text(*name)),
{
    match name {
        Some(text) => text.clone(),
        None => "<anonymous>".to_owned(),
    }
}

fn copy_name(name: &Option<String>) -> (copy: Option<String>)
    ensures
        object_file::option_text(copy) == object_file::option_text(*name),
{
    match name {
        Some(text) => Some(text.clone()),
        None => None,
    }
}

/// How many elements an array dimension has; `None` if it is more than can be counted.
pub fn get_dimension(e: &Entry) -> (n: Option<u64>)
    ensures
        match n {
            Some(n) => n == dimension_of(e@),
            None => dimension_of(e@) > u64::MAX,
        },
{
    match e.count {
        Some(n) => Some(n),
        None => match e.upper_bound {
            Some(last) => {
                let first: u64 = match e.lower_bound {
                    Some(first) => first,
                    None => 0,
                };
                if first <= last {
                    (last - first).checked_add(1)
                } else {
                    Some(0)
                }
            },
            None => Some(1),
        },
    }
}

/// How many elements an array has, from the entries below its own; `None` if it is more than
/// can be counted.
pub fn get_array_count(children: &Vec<Entry>) -> (count: Option<usize>)
    ensures
        count == count_of(entry::entry_views(children@)),
{
    let ghost views = entry::entry_views(children@);
    let mut count: usize = 1;
    let mut i: usize = 0;
    assert(views.take(0) == Seq::<EntryView>::empty());
    while i < children.len()
        invariant
            i <= children@.len(),
            views == entry::entry_views(children@),
            count_of(views.take(i as int)) == Some(count),
        decreases children@.len() - i,
    {
        assert(views.take(i + 1).drop_last() == views.take(i as int));
        assert(views.take(i + 1).last() == children@[i as int]@);
        proof {
            lemma_count_prefix(views, i + 1);
        }
        if children[i].tag == entry::DW_TAG_SUBRANGE_TYPE {
            let ghost n = dimension_of(children@[i as int]@);
            let dimension: u64 = match get_dimension(&children[i]) {
                Some(n) => n,
                None => {
                    if count == 0 {
                        0
                    } else {
                        assert(count * n > usize::MAX) by (nonlinear_arith)
                            requires
                                count >= 1,
                                n > usize::MAX,
                        ;
                        return None;
                    }
                },
            };
            if count == 0 {
                assert(count * n == 0) by (nonlinear_arith)
                    requires
                        count == 0,
                ;
            } else {
                if dimension > usize::MAX as u64 {
                    assert(count * n > usize::MAX) by (nonlinear_arith)
                        requires
                            count >= 1,
                            n > usize::MAX,
                    ;
                    return None;
                }
                match count.checked_mul(dimension as usize) {
                    Some(product) => {
                        count = product;
                    },
                    None => {
                        return None;
                    },
                }
            }
        }
        i = i + 1;
    }
    assert(views.take(i as int) == views);
    Some(count)
}

proof fn lemma_count_prefix(children: Seq<EntryView>, n: int)
    requires
        0 <= n <= children.len(),
    ensures
        count_of(children.take(n)) is None ==> count_of(children) is None,
    decreases children.len() - n,
{
    if n < children.len() {
        lemma_count_prefix(children, n + 1);
        assert(children.take(n + 1).drop_last() == children.take(n));
    } else {
        assert(children.take(n) == children);
    }
}

/// The variants of an enumeration, from the entries below its own.
pub fn parse_enum_variants(children: &Vec<Entry>) -> (variants: Vec<EnumVariant>)
    ensures
        variants@.map_values(|v: EnumVariant| v@) == variants_of(entry::entry_views(children@)),
{
    let ghost views = entry::entry_views(children@);
    let mut variants: Vec<EnumVariant> = Vec::new();
    let mut i: usize = 0;
    proof {
        reveal(Seq::filter);
        assert(views.take(0) == Seq::<EntryView>::empty());
        assert(variants@.map_values(|v: EnumVariant| v@) == variants_of(views.take(0)));
    }
    while i < children.len()
        invariant
            i <= children@.len(),
            views == entry::entry_views(children@),
            variants@.map_values(|v: EnumVariant| v@) == variants_of(views.take(i as int)),
        decreases children@.len() - i,
    {
        let child = &children[i];
        let ghost before = variants@.map_values(|v: EnumVariant| v@);
        proof {
            reveal(Seq::filter);
            assert(views.take(i + 1).drop_last() == views.take(i as int));
            assert(views.take(i + 1).last() == child@);
        }
        if child.tag == entry::DW_TAG_ENUMERATOR {
            if let Some(name) = &child.name {
                if let Some(value) = child.const_value {
                    let variant = EnumVariant { name: name.clone(), value };
                    variants.push(variant);
                    assert(variants@.map_values(|v: EnumVariant| v@) == before.push(variant@));
                    assert(variants_of(views.take(i + 1)) == before.push(variant@));
                }
            }
        }
        i = i + 1;
    }
    assert(views.take(i as int) == views);
    variants
}

/// Whether entries with that tag stand for, or are made of, the type that they refer to.
pub fn is_referring(tag: u16) -> (r: bool)
    ensures
        r == refers(tag),
{
    tag == entry::DW_TAG_POINTER_TYPE || tag == entry::DW_TAG_ARRAY_TYPE || tag
        == entry::DW_TAG_TYPEDEF || tag == entry::DW_TAG_CONST_TYPE || tag
        == entry::DW_TAG_VOLATILE_TYPE
}

/// The views of a list of members.
pub open spec fn typed_views(members: Seq<TypedMember>) -> Seq<MemberView> {
    members.map_values(|m: TypedMember| m@)
}

/// A list of members with both sides viewed.
pub open spec fn members_outcome(r: Result<Vec<TypedMember>, DebugError>) -> Result<
    Seq<MemberView>,
    ErrorView,
> {
    match r {
        Ok(members) => Ok(typed_views(members@)),
        Err(error) => Err(error@),
    }
}

/// A type with both sides viewed.
pub open spec fn type_outcome(r: Option<Result<TypeInfo, DebugError>>) -> Option<
    Result<TypeView, ErrorView>,
> {
    match r {
        Some(result) => Some(error::outcome(result)),
        None => None,
    }
}

/// The type that an entry describes, where `inner` is the type that it refers to and `members`
/// are those that it is made of; `None` for an array that is larger than can be counted.
pub fn parse_type_entry(
    node: &Node,
    inner: Result<TypeInfo, DebugError>,
    members: Result<Vec<TypedMember>, DebugError>,
) -> (r: Option<Result<TypeInfo, DebugError>>)
    ensures
        type_outcome(r) == described_type(node@, error::outcome(inner), members_outcome(members)),
{
    let e = &node.entry;
    let size: u64 = entry::get_size(e);
    match e.tag {
        entry::DW_TAG_BASE_TYPE => match find_primitive(e.encoding, size) {
            Some(p) => Some(Ok(TypeInfo::Primitive(p))),
            None => Some(Ok(TypeInfo::Unknown { size, name: copy_name(&e.name) })),
        },
        entry::DW_TAG_POINTER_TYPE => match inner {
            Ok(target) => Some(Ok(TypeInfo::Pointer { target: Box::new(target), size })),
            Err(error) => Some(Err(error)),
        },
        entry::DW_TAG_ARRAY_TYPE => match inner {
            Ok(element) => {
                if let Some(message) = &node.failure {
                    return Some(Err(DebugError::DwarfError(message.clone())));
                }
                let count: usize = match get_array_count(&node.children) {
                    Some(count) => count,
                    None => {
                        return None;
                    },
                };
                match element.size().checked_mul(count as u64) {
                    Some(total) => Some(
                        Ok(TypeInfo::Array { element: Box::new(element), count, size: total }),
                    ),
                    None => None,
                }
            },
            Err(error) => Some(Err(error)),
        },
        entry::DW_TAG_STRUCTURE_TYPE => match members {
            Ok(members) => {
                let t = TypeInfo::Struct { name: name_or_anonymous(&e.name), size, members };
                assert(t@->Struct_members == typed_views(members@));
                Some(Ok(t))
            },
            Err(error) => Some(Err(error)),
        },
        entry::DW_TAG_ENUMERATION_TYPE => {
            if let Some(message) = &node.failure {
                return Some(Err(DebugError::DwarfError(message.clone())));
            }
            let variants = parse_enum_variants(&node.children);
            Some(Ok(TypeInfo::Enum { name: name_or_anonymous(&e.name), size, variants }))
        },
        entry::DW_TAG_TYPEDEF | entry::DW_TAG_CONST_TYPE | entry::DW_TAG_VOLATILE_TYPE => Some(
            inner,
        ),
        _ => Some(Ok(TypeInfo::Unknown { size, name: copy_name(&e.name) })),
    }
}

// -----------------------------------------------------------------------------------------
// What a reference leads to
// -----------------------------------------------------------------------------------------

/// What a reference leads to: nothing more to follow, or an entry with those below it.
pub enum StepView {
    Known(Result<TypeView, ErrorView>),
    Node(NodeView),
}

/// What stands at an offset of the unit.
pub open spec fn step_at(unit: UnitView, strings: Seq<u8>, offset: usize) -> StepView {
    match unit.entries_at[offset] {
        Err(message) => StepView::Known(Err(ErrorView::DwarfError(message))),
        Ok(walk) => if walk.entries.len() > 0 {
            StepView::Node(entry::node_of(walk, strings))
        } else {
            match walk.failure {
                Some(message) => StepView::Known(Err(ErrorView::DwarfError(message))),
                None => StepView::Known(Ok(unknown_type())),
            }
        },
    }
}

/// What a type attribute leads to. An attribute that is absent or of another form leads to the
/// unknown type.
pub open spec fn step_of(unit: UnitView, strings: Seq<u8>, read: AttrReadView) -> StepView {
    match read {
        Err(message) => StepView::Known(Err(ErrorView::DwarfError(message))),
        Ok(Some(AttrView::UnitRef(offset))) => step_at(unit, strings, offset),
        _ => StepView::Known(Ok(unknown_type())),
    }
}

/// The named members among the entries, in order.
pub open spec fn named_members(children: Seq<EntryView>) -> Seq<EntryView> {
    children.filter(|e: EntryView| entry::is_named_member(e))
}

/// Whether a structure's members are followed from here: everywhere but behind a pointer.
pub open spec fn with_members(node: NodeView, deep: bool) -> bool {
    deep && node.entry.tag == entry::DW_TAG_STRUCTURE_TYPE
}

/// Whether members are followed in the type that an entry refers to.
pub open spec fn deep_below(node: NodeView, deep: bool) -> bool {
    deep && node.entry.tag != entry::DW_TAG_POINTER_TYPE
}

/// The member with its type.
pub open spec fn member_of(e: EntryView, t: TypeView) -> MemberView {
    MemberView { name: e.name->0, offset: entry::member_offset(e), type_info: t }
}

/// The type that an attribute leads to over at most `limit` entries, with or without the members
/// of structures; `None` if there are more.
pub open spec fn followed(
    unit: UnitView,
    strings: Seq<u8>,
    read: AttrReadView,
    deep: bool,
    limit: nat,
) -> Option<Result<TypeView, ErrorView>>
    decreases limit, 0nat,
{
    match step_of(unit, strings, read) {
        StepView::Known(t) => Some(t),
        StepView::Node(node) => {
            let inner = if !refers(node.entry.tag) {
                Some(Ok(unknown_type()))
            } else if limit == 0 {
                None
            } else {
                followed(
                    unit,
                    strings,
                    node.entry.type_ref,
                    deep_below(node, deep),
                    (limit - 1) as nat,
                )
            };
            let members = if !with_members(node, deep) {
                Some(Ok(Seq::empty()))
            } else if node.failure is Some {
                Some(Err(ErrorView::DwarfError(node.failure->0)))
            } else if limit == 0 {
                None
            } else {
                followed_members(
                    unit,
                    strings,
                    named_members(node.children),
                    (limit - 1) as nat,
                )
            };
            match (inner, members) {
                (Some(inner), Some(members)) => described_type(node, inner, members),
                _ => None,
            }
        },
    }
}

/// The members with their types, each over at most `limit` entries; `None` if there are more.
/// The first type that cannot be read is the error of all.
pub open spec fn followed_members(
    unit: UnitView,
    strings: Seq<u8>,
    members: Seq<EntryView>,
    limit: nat,
) -> Option<Result<Seq<MemberView>, ErrorView>>
    decreases limit, members.len() + 1,
{
    if members.len() == 0 {
        Some(Ok(Seq::empty()))
    } else {
        match followed_members(unit, strings, members.drop_last(), limit) {
            Some(Ok(before)) => match followed(
                unit,
                strings,
                members.last().type_ref,
                true,
                limit,
            ) {
                Some(Ok(t)) => Some(Ok(before.push(member_of(members.last(), t)))),
                Some(Err(error)) => Some(Err(error)),
                None => None,
            },
            stopped => stopped,
        }
    }
}

/// The references end.
pub open spec fn ends(unit: UnitView, strings: Seq<u8>, read: AttrReadView, deep: bool) -> bool {
    exists|limit: nat| followed(unit, strings, read, deep, limit) is Some
}

/// The type that an attribute leads to, with or without the members of structures; `None` if the
/// references run in a circle, or for an array that is larger than can be counted.
pub open spec fn resolved_type(
    unit: UnitView,
    strings: Seq<u8>,
    read: AttrReadView,
    deep: bool,
) -> Option<Result<TypeView, ErrorView>> {
    if ends(unit, strings, read, deep) {
        followed(
            unit,
            strings,
            read,
            deep,
            choose|limit: nat| followed(unit, strings, read, deep, limit) is Some,
        )
    } else {
        None
    }
}

/// The type that an attribute leads to; `None` if the references run in a circle, or for an
/// array that is larger than can be counted.
pub open spec fn type_of(unit: UnitView, strings: Seq<u8>, read: AttrReadView) -> Option<
    Result<TypeView, ErrorView>,
> {
    resolved_type(unit, strings, read, true)
}

/// The members with their types, in order. The first type that cannot be read is the error of
/// all; `None` if a type before that is not defined.
pub open spec fn member_list(unit: UnitView, strings: Seq<u8>, members: Seq<EntryView>) -> Option<
    Result<Seq<MemberView>, ErrorView>,
>
    decreases members.len(),
{
    if members.len() == 0 {
        Some(Ok(Seq::empty()))
    } else {
        match member_list(unit, strings, members.drop_last()) {
            Some(Ok(before)) => match type_of(unit, strings, members.last().type_ref) {
                Some(Ok(t)) => Some(Ok(before.push(member_of(members.last(), t)))),
                Some(Err(error)) => Some(Err(error)),
                None => None,
            },
            stopped => stopped,
        }
    }
}

/// The members of the structure that an entry describes: the named member entries directly below
/// it, in order, each with its offset and the type that its type attribute leads to.
pub open spec fn node_members(unit: UnitView, strings: Seq<u8>, node: NodeView) -> Option<
    Result<Seq<MemberView>, ErrorView>,
> {
    match node.failure {
        Some(message) => Some(Err(ErrorView::DwarfError(message))),
        None => member_list(unit, strings, named_members(node.children)),
    }
}

/// The type that an entry describes, once the references in it are followed.
pub open spec fn node_type(unit: UnitView, strings: Seq<u8>, node: NodeView, deep: bool) -> Option<
    Result<TypeView, ErrorView>,
> {
    let inner = if refers(node.entry.tag) {
        resolved_type(unit, strings, node.entry.type_ref, deep_below(node, deep))
    } else {
        Some(Ok(unknown_type()))
    };
    let members = if with_members(node, deep) {
        node_members(unit, strings, node)
    } else {
        Some(Ok(Seq::empty()))
    };
    match (inner, members) {
        (Some(inner), Some(members)) => described_type(node, inner, members),
        _ => None,
    }
}

proof fn lemma_followed_more(
    unit: UnitView,
    strings: Seq<u8>,
    read: AttrReadView,
    deep: bool,
    limit: nat,
    more: nat,
)
    requires
        limit <= more,
        followed(unit, strings, read, deep, limit) is Some,
    ensures
        followed(unit, strings, read, deep, more) == followed(unit, strings, read, deep, limit),
    decreases limit, 0nat,
{
    if let StepView::Node(node) = step_of(unit, strings, read) {
        if limit > 0 {
            if refers(node.entry.tag) {
                lemma_followed_more(
                    unit,
                    strings,
                    node.entry.type_ref,
                    deep_below(node, deep),
                    (limit - 1) as nat,
                    (more - 1) as nat,
                );
            }
            if with_members(node, deep) && node.failure is None {
                lemma_members_more(
                    unit,
                    strings,
                    named_members(node.children),
                    (limit - 1) as nat,
                    (more - 1) as nat,
                );
            }
        }
    }
}

proof fn lemma_members_more(
    unit: UnitView,
    strings: Seq<u8>,
    members: Seq<EntryView>,
    limit: nat,
    more: nat,
)
    requires
        limit <= more,
        followed_members(unit, strings, members, limit) is Some,
    ensures
        followed_members(unit, strings, members, more) == followed_members(
            unit,
            strings,
            members,
            limit,
        ),
    decreases limit, members.len() + 1,
{
    if members.len() > 0 {
        lemma_members_more(unit, strings, members.drop_last(), limit, more);
        if followed_members(unit, strings, members.drop_last(), limit)->0 is Ok {
            lemma_followed_more(unit, strings, members.last().type_ref, true, limit, more);
        }
    }
}

/// However far references are followed, if their ends are reached the type is the same.
pub proof fn lemma_resolved_type(
    unit: UnitView,
    strings: Seq<u8>,
    read: AttrReadView,
    deep: bool,
    limit: nat,
)
    requires
        followed(unit, strings, read, deep, limit) is Some,
    ensures
        resolved_type(unit, strings, read, deep) == followed(unit, strings, read, deep, limit),
{
    let chosen = choose|limit: nat| followed(unit, strings, read, deep, limit) is Some;
    if chosen <= limit {
        lemma_followed_more(unit, strings, read, deep, chosen, limit);
    } else {
        lemma_followed_more(unit, strings, read, deep, limit, chosen);
    }
}

proof fn lemma_members_within(
    unit: UnitView,
    strings: Seq<u8>,
    members: Seq<EntryView>,
    limit: nat,
)
    requires
        followed_members(unit, strings, members, limit) is Some,
    ensures
        member_list(unit, strings, members) == followed_members(unit, strings, members, limit),
    decreases members.len(),
{
    if members.len() > 0 {
        lemma_members_within(unit, strings, members.drop_last(), limit);
        if followed_members(unit, strings, members.drop_last(), limit)->0 is Ok {
            lemma_resolved_type(unit, strings, members.last().type_ref, true, limit);
        }
    }
}

proof fn lemma_members_limit(unit: UnitView, strings: Seq<u8>, members: Seq<EntryView>) -> (limit:
    nat)
    requires
        member_list(unit, strings, members) is Some,
    ensures
        followed_members(unit, strings, members, limit) is Some,
    decreases members.len(),
{
    if members.len() == 0 {
        0
    } else {
        let before = lemma_members_limit(unit, strings, members.drop_last());
        lemma_members_within(unit, strings, members.drop_last(), before);
        if member_list(unit, strings, members.drop_last())->0 is Ok {
            let read = members.last().type_ref;
            let last = choose|limit: nat| followed(unit, strings, read, true, limit) is Some;
            let limit = if before <= last {
                last
            } else {
                before
            };
            lemma_members_more(unit, strings, members.drop_last(), before, limit);
            lemma_followed_more(unit, strings, read, true, last, limit);
            limit
        } else {
            before
        }
    }
}

/// The type that an attribute leads to is the one that the entry there describes, made of the
/// types that the entry refers to.
pub proof fn lemma_type_step(unit: UnitView, strings: Seq<u8>, read: AttrReadView, deep: bool)
    ensures
        resolved_type(unit, strings, read, deep) == match step_of(unit, strings, read) {
            StepView::Known(t) => Some(t),
            StepView::Node(node) => node_type(unit, strings, node, deep),
        },
{
    match step_of(unit, strings, read) {
        StepView::Known(t) => {
            lemma_resolved_type(unit, strings, read, deep, 0);
        },
        StepView::Node(node) => {
            let members = named_members(node.children);
            let lists = with_members(node, deep) && node.failure is None;
            let inner = node.entry.type_ref;
            let below = deep_below(node, deep);
            if ends(unit, strings, read, deep) {
                let limit = choose|limit: nat| followed(unit, strings, read, deep, limit) is Some;
                if refers(node.entry.tag) {
                    lemma_resolved_type(unit, strings, inner, below, (limit - 1) as nat);
                }
                if lists {
                    lemma_members_within(unit, strings, members, (limit - 1) as nat);
                }
            } else if node_type(unit, strings, node, deep) is Some {
                let first: nat = if refers(node.entry.tag) {
                    choose|limit: nat| followed(unit, strings, inner, below, limit) is Some
                } else {
                    0
                };
                let second: nat = if lists {
                    lemma_members_limit(unit, strings, members)
                } else {
                    0
                };
                let limit = if first <= second {
                    second
                } else {
                    first
                };
                if refers(node.entry.tag) {
                    lemma_followed_more(unit, strings, inner, below, first, limit);
                    lemma_resolved_type(unit, strings, inner, below, limit);
                }
                if lists {
                    lemma_members_more(unit, strings, members, second, limit);
                    lemma_members_within(unit, strings, members, limit);
                }
                assert(followed(unit, strings, read, deep, limit + 1) is Some);
            }
        },
    }
}

// -----------------------------------------------------------------------------------------
// Circles
// -----------------------------------------------------------------------------------------

/// References that end are `length` entries deep.
spec fn is_length(
    unit: UnitView,
    strings: Seq<u8>,
    read: AttrReadView,
    deep: bool,
    length: nat,
) -> bool {
    followed(unit, strings, read, deep, length) is Some && (length > 0 ==> followed(
        unit,
        strings,
        read,
        deep,
        (length - 1) as nat,
    ) is None)
}

/// How many entries deep references that end are.
spec fn length_of(unit: UnitView, strings: Seq<u8>, read: AttrReadView, deep: bool) -> nat {
    choose|length: nat| is_length(unit, strings, read, deep, length)
}

proof fn lemma_length(
    unit: UnitView,
    strings: Seq<u8>,
    read: AttrReadView,
    deep: bool,
    limit: nat,
)
    requires
        followed(unit, strings, read, deep, limit) is Some,
    ensures
        length_of(unit, strings, read, deep) <= limit,
        is_length(unit, strings, read, deep, length_of(unit, strings, read, deep)),
    decreases limit,
{
    if limit > 0 && followed(unit, strings, read, deep, (limit - 1) as nat) is Some {
        lemma_length(unit, strings, read, deep, (limit - 1) as nat);
    } else {
        let least = length_of(unit, strings, read, deep);
        assert(is_length(unit, strings, read, deep, limit));
        if least > limit {
            lemma_followed_more(unit, strings, read, deep, limit, (least - 1) as nat);
        }
    }
}

/// If the references at `outer` end, then so do those at `inner`, which are less deep.
spec fn is_above(
    unit: UnitView,
    strings: Seq<u8>,
    outer: AttrReadView,
    outer_deep: bool,
    inner: AttrReadView,
    inner_deep: bool,
) -> bool {
    ends(unit, strings, outer, outer_deep) ==> ends(unit, strings, inner, inner_deep) && length_of(
        unit,
        strings,
        inner,
        inner_deep,
    ) < length_of(unit, strings, outer, outer_deep)
}

proof fn lemma_inner_is_below(
    unit: UnitView,
    strings: Seq<u8>,
    read: AttrReadView,
    deep: bool,
    node: NodeView,
)
    requires
        step_of(unit, strings, read) == StepView::Node(node),
        refers(node.entry.tag),
    ensures
        is_above(unit, strings, read, deep, node.entry.type_ref, deep_below(node, deep)),
{
    if ends(unit, strings, read, deep) {
        let limit = choose|limit: nat| followed(unit, strings, read, deep, limit) is Some;
        lemma_length(unit, strings, read, deep, limit);
        let least = length_of(unit, strings, read, deep);
        lemma_length(
            unit,
            strings,
            node.entry.type_ref,
            deep_below(node, deep),
            (least - 1) as nat,
        );
    }
}

proof fn lemma_members_prefix(
    unit: UnitView,
    strings: Seq<u8>,
    members: Seq<EntryView>,
    limit: nat,
    n: int,
)
    requires
        0 <= n <= members.len(),
        followed_members(unit, strings, members, limit) is Some,
    ensures
        followed_members(unit, strings, members.take(n), limit) is Some,
    decreases members.len() - n,
{
    if n < members.len() {
        lemma_members_prefix(unit, strings, members, limit, n + 1);
        assert(members.take(n + 1).drop_last() == members.take(n));
    } else {
        assert(members.take(n) == members);
    }
}

proof fn lemma_member_is_below(
    unit: UnitView,
    strings: Seq<u8>,
    read: AttrReadView,
    node: NodeView,
    n: int,
)
    requires
        step_of(unit, strings, read) == StepView::Node(node),
        with_members(node, true),
        node.failure is None,
        0 <= n < named_members(node.children).len(),
        member_list(unit, strings, named_members(node.children).take(n)) matches Some(Ok(_)),
    ensures
        is_above(unit, strings, read, true, named_members(node.children)[n].type_ref, true),
{
    if ends(unit, strings, read, true) {
        let members = named_members(node.children);
        let limit = choose|limit: nat| followed(unit, strings, read, true, limit) is Some;
        lemma_length(unit, strings, read, true, limit);
        let least = (length_of(unit, strings, read, true) - 1) as nat;
        lemma_members_prefix(unit, strings, members, least, n);
        lemma_members_prefix(unit, strings, members, least, n + 1);
        lemma_members_within(unit, strings, members.take(n), least);
        assert(members.take(n + 1).drop_last() == members.take(n));
        lemma_length(unit, strings, members[n].type_ref, true, least);
    }
}

proof fn lemma_list_prefix(unit: UnitView, strings: Seq<u8>, members: Seq<EntryView>, n: int)
    requires
        0 <= n <= members.len(),
        !(member_list(unit, strings, members.take(n)) matches Some(Ok(_))),
    ensures
        member_list(unit, strings, members) == member_list(unit, strings, members.take(n)),
    decreases members.len() - n,
{
    if n < members.len() {
        assert(members.take(n + 1).drop_last() == members.take(n));
        lemma_list_prefix(unit, strings, members, n + 1);
    } else {
        assert(members.take(n) == members);
    }
}

/// The attribute that refers to an offset of the unit.
pub open spec fn reference_to(offset: usize) -> AttrReadView {
    Ok(Some(AttrView::UnitRef(offset)))
}

/// Every offset on the path stands above what the attribute leads to.
spec fn path_above(
    unit: UnitView,
    strings: Seq<u8>,
    path: Seq<(usize, bool)>,
    read: AttrReadView,
    deep: bool,
) -> bool {
    forall|k: int|
        0 <= k < path.len() ==> is_above(
            unit,
            strings,
            reference_to((#[trigger] path[k]).0),
            path[k].1,
            read,
            deep,
        )
}

proof fn lemma_path_above(
    unit: UnitView,
    strings: Seq<u8>,
    path: Seq<(usize, bool)>,
    offset: usize,
    deep: bool,
    read: AttrReadView,
    read_deep: bool,
)
    requires
        path_above(unit, strings, path, reference_to(offset), deep),
        is_above(unit, strings, reference_to(offset), deep, read, read_deep),
    ensures
        path_above(unit, strings, path.push((offset, deep)), read, read_deep),
{
    let longer = path.push((offset, deep));
    assert forall|k: int| 0 <= k < longer.len() implies is_above(
        unit,
        strings,
        reference_to((#[trigger] longer[k]).0),
        longer[k].1,
        read,
        read_deep,
    ) by {
        if k < path.len() {
            assert(longer[k] == path[k]);
        }
    }
}

fn is_on_path(path: &Vec<(usize, bool)>, offset: usize, deep: bool) -> (r: bool)
    ensures
        r == path@.contains((offset, deep)),
{
    let mut i: usize = 0;
    while i < path.len()
        invariant
            i <= path@.len(),
            forall|k: int| 0 <= k < i ==> path@[k] != (offset, deep),
        decreases path@.len() - i,
    {
        if path[i].0 == offset && path[i].1 == deep {
            assert(path@[i as int] == (offset, deep));
            return true;
        }
        i = i + 1;
    }
    false
}

// -----------------------------------------------------------------------------------------
// Following references
// -----------------------------------------------------------------------------------------

/// What a reference leads to.
enum Step {
    Known(Result<TypeInfo, DebugError>),
    Node(Node),
}

impl View for Step {
    type V = StepView;

    closed spec fn view(&self) -> StepView {
        match self {
            Step::Known(r) => StepView::Known(error::outcome(*r)),
            Step::Node(node) => StepView::Node(node@),
        }
    }
}

fn read_step(unit: &UnitEntries, dwarf: &DwarfData, offset: usize) -> (step: Step)
    ensures
        step@ == step_at(
            dwarf_data::unit_of(*unit),
            dwarf_data::sections_of(*dwarf).strings,
            offset,
        ),
{
    let mut cursor = match unit.entries_at_offset(offset) {
        Ok(cursor) => cursor,
        Err(message) => {
            return Step::Known(Err(DebugError::DwarfError(message)));
        },
    };
    let ghost walk = dwarf_data::entries_ahead(cursor);
    match cursor.next_dfs() {
        Ok(Some((depth, tag))) => {
            assert(seq![walk.entries[0]] + walk.entries.drop_first() == walk.entries);
            Step::Node(entry::read_node(cursor, depth, tag, dwarf))
        },
        Ok(None) => Step::Known(Ok(TypeInfo::Unknown { size: 0, name: None })),
        Err(message) => Step::Known(Err(DebugError::DwarfError(message))),
    }
}

/// The type that a type attribute leads to; `None` where it is not defined. The path holds the
/// offsets that led here.
fn follow(
    unit: &UnitEntries,
    dwarf: &DwarfData,
    read: &AttrRead,
    deep: bool,
    path: &mut Vec<(usize, bool)>,
) -> (r: Option<Result<TypeInfo, DebugError>>)
    requires
        path_above(
            dwarf_data::unit_of(*unit),
            dwarf_data::sections_of(*dwarf).strings,
            old(path)@,
            dwarf_data::read_view(*read),
            deep,
        ),
    ensures
        final(path)@ == old(path)@,
        type_outcome(r) == resolved_type(
            dwarf_data::unit_of(*unit),
            dwarf_data::sections_of(*dwarf).strings,
            dwarf_data::read_view(*read),
            deep,
        ),
    decreases usize::MAX - old(path)@.len(), 1nat,
{
    proof {
        lemma_type_step(
            dwarf_data::unit_of(*unit),
            dwarf_data::sections_of(*dwarf).strings,
            dwarf_data::read_view(*read),
            deep,
        );
    }
    match read {
        Err(message) => Some(Err(DebugError::DwarfError(message.clone()))),
        Ok(Some(AttrValue::UnitRef(offset))) => resolve_type_at_offset(
            unit,
            dwarf,
            *offset,
            deep,
            path,
        ),
        _ => Some(Ok(TypeInfo::Unknown { size: 0, name: None })),
    }
}

fn resolve_type_at_offset(
    unit: &UnitEntries,
    dwarf: &DwarfData,
    offset: usize,
    deep: bool,
    path: &mut Vec<(usize, bool)>,
) -> (r: Option<Result<TypeInfo, DebugError>>)
    requires
        path_above(
            dwarf_data::unit_of(*unit),
            dwarf_data::sections_of(*dwarf).strings,
            old(path)@,
            reference_to(offset),
            deep,
        ),
    ensures
        final(path)@ == old(path)@,
        type_outcome(r) == resolved_type(
            dwarf_data::unit_of(*unit),
            dwarf_data::sections_of(*dwarf).strings,
            reference_to(offset),
            deep,
        ),
    decreases usize::MAX - old(path)@.len(), 0nat,
{
    let ghost view = dwarf_data::unit_of(*unit);
    let ghost strings = dwarf_data::sections_of(*dwarf).strings;
    let ghost before = path@;
    proof {
        lemma_type_step(view, strings, reference_to(offset), deep);
    }
    if is_on_path(path, offset, deep) {
        proof {
            let k = choose|k: int| 0 <= k < before.len() && before[k] == (offset, deep);
            assert(is_above(
                view,
                strings,
                reference_to(before[k].0),
                before[k].1,
                reference_to(offset),
                deep,
            ));
        }
        return None;
    }
    let node = match read_step(unit, dwarf, offset) {
        Step::Known(r) => {
            return Some(r);
        },
        Step::Node(node) => node,
    };
    path.push((offset, deep));
    assert(path@.len() == path.len());
    let inner = if is_referring(node.entry.tag) {
        let below: bool = deep && node.entry.tag != entry::DW_TAG_POINTER_TYPE;
        proof {
            lemma_inner_is_below(view, strings, reference_to(offset), deep, node@);
            lemma_path_above(
                view,
                strings,
                before,
                offset,
                deep,
                node@.entry.type_ref,
                deep_below(node@, deep),
            );
        }
        follow(unit, dwarf, &node.entry.type_ref, below, path)
    } else {
        Some(Ok(TypeInfo::Unknown { size: 0, name: None }))
    };
    let members = if deep && node.entry.tag == entry::DW_TAG_STRUCTURE_TYPE {
        parse_struct_members(unit, dwarf, &node, offset, path)
    } else {
        let none: Vec<TypedMember> = Vec::new();
        assert(typed_views(none@) == Seq::<MemberView>::empty());
        Some(Ok(none))
    };
    path.pop();
    assert(path@ == before);
    match (inner, members) {
        (Some(inner), Some(members)) => parse_type_entry(&node, inner, members),
        _ => None,
    }
}

/// The members of the structure that an entry describes, with their types; `None` where they
/// are not defined. The path holds the offsets that led here, the entry's own last.
fn parse_struct_members(
    unit: &UnitEntries,
    dwarf: &DwarfData,
    node: &Node,
    offset: usize,
    path: &mut Vec<(usize, bool)>,
) -> (r: Option<Result<Vec<TypedMember>, DebugError>>)
    requires
        step_at(
            dwarf_data::unit_of(*unit),
            dwarf_data::sections_of(*dwarf).strings,
            offset,
        ) == StepView::Node(node@),
        with_members(node@, true),
        old(path)@.len() > 0,
        old(path)@.last() == (offset, true),
        path_above(
            dwarf_data::unit_of(*unit),
            dwarf_data::sections_of(*dwarf).strings,
            old(path)@.drop_last(),
            reference_to(offset),
            true,
        ),
    ensures
        final(path)@ == old(path)@,
        match r {
            Some(members) => node_members(
                dwarf_data::unit_of(*unit),
                dwarf_data::sections_of(*dwarf).strings,
                node@,
            ) == Some(members_outcome(members)),
            None => node_members(
                dwarf_data::unit_of(*unit),
                dwarf_data::sections_of(*dwarf).strings,
                node@,
            ) is None,
        },
    decreases usize::MAX - old(path)@.len(), 2nat,
{
    let ghost view = dwarf_data::unit_of(*unit);
    let ghost strings = dwarf_data::sections_of(*dwarf).strings;
    let ghost start = path@;
    let ghost children = entry::entry_views(node.children@);
    let ghost all = named_members(children);
    if let Some(message) = &node.failure {
        return Some(Err(DebugError::DwarfError(message.clone())));
    }
    let mut members: Vec<TypedMember> = Vec::new();
    let mut i: usize = 0;
    proof {
        reveal(Seq::filter);
        assert(children.take(0) == Seq::<EntryView>::empty());
        assert(typed_views(members@) == Seq::<MemberView>::empty());
        assert(all.take(0) == Seq::<EntryView>::empty());
        assert(start.drop_last().push((offset, true)) == start);
    }
    while i < node.children.len()
        invariant
            i <= node.children@.len(),
            view == dwarf_data::unit_of(*unit),
            strings == dwarf_data::sections_of(*dwarf).strings,
            start == old(path)@,
            path@ == start,
            start.len() > 0,
            start.drop_last().push((offset, true)) == start,
            children == entry::entry_views(node.children@),
            all == named_members(children),
            step_at(view, strings, offset) == StepView::Node(node@),
            with_members(node@, true),
            node@.failure is None,
            path_above(view, strings, start.drop_last(), reference_to(offset), true),
            members@.len() <= all.len(),
            named_members(children.take(i as int)) == all.take(members@.len() as int),
            member_list(view, strings, all.take(members@.len() as int)) == Some(
                Ok::<Seq<MemberView>, ErrorView>(typed_views(members@)),
            ),
        decreases node.children@.len() - i,
    {
        let child = &node.children[i];
        let ghost n = members@.len() as int;
        let ghost before = typed_views(members@);
        proof {
            reveal(Seq::filter);
            assert(children.take(i + 1).drop_last() == children.take(i as int));
            assert(children.take(i + 1).last() == child@);
            lemma_filter_prefix(children, i + 1);
        }
        if child.tag == entry::DW_TAG_MEMBER {
            if let Some(name) = &child.name {
                proof {
                    assert(named_members(children.take(i + 1)) == all.take(n).push(child@));
                    assert(all.take(n + 1) == all.take(n).push(child@));
                    assert(all[n] == all.take(n + 1)[n]);
                    assert(all.take(n + 1).drop_last() == all.take(n));
                    lemma_member_is_below(view, strings, reference_to(offset), node@, n);
                    lemma_path_above(
                        view,
                        strings,
                        start.drop_last(),
                        offset,
                        true,
                        child@.type_ref,
                        true,
                    );
                }
                match follow(unit, dwarf, &child.type_ref, true, path) {
                    Some(Ok(type_info)) => {
                        let member = TypedMember {
                            name: name.clone(),
                            offset: entry::get_member_offset(child),
                            type_info,
                        };
                        members.push(member);
                        assert(typed_views(members@) == before.push(member@));
                        assert(member@ == member_of(child@, type_info@));
                    },
                    Some(Err(error)) => {
                        proof {
                            lemma_list_prefix(view, strings, all, n + 1);
                        }
                        return Some(Err(error));
                    },
                    None => {
                        proof {
                            lemma_list_prefix(view, strings, all, n + 1);
                        }
                        return None;
                    },
                }
            }
        }
        i = i + 1;
    }
    assert(children.take(i as int) == children);
    assert(all.take(members@.len() as int) == all);
    Some(Ok(members))
}

proof fn lemma_filter_prefix(children: Seq<EntryView>, n: int)
    requires
        0 <= n <= children.len(),
    ensures
        named_members(children.take(n)).len() <= named_members(children).len(),
        named_members(children.take(n)) == named_members(children).take(
            named_members(children.take(n)).len() as int,
        ),
    decreases children.len() - n,
{
    reveal(Seq::filter);
    if n < children.len() {
        lemma_filter_prefix(children, n + 1);
        assert(children.take(n + 1).drop_last() == children.take(n));
        let here = named_members(children.take(n));
        let next = named_members(children.take(n + 1));
        assert(next == here || next == here.push(children[n]));
        assert(here == next.take(here.len() as int));
        assert(next.take(here.len() as int) == named_members(children).take(here.len() as int));
    } else {
        assert(children.take(n) == children);
        assert(named_members(children).take(named_members(children).len() as int)
            == named_members(children));
    }
}

/// The type that an entry's type attribute leads to; `None` if the references run in a circle,
/// or for an array that is larger than can be counted.
pub(crate) fn resolve_type_from_entry(unit: &UnitEntries, dwarf: &DwarfData, read: &AttrRead) -> (r:
    Option<Result<TypeInfo, DebugError>>)
    ensures
        type_outcome(r) == type_of(
            dwarf_data::unit_of(*unit),
            dwarf_data::sections_of(*dwarf).strings,
            dwarf_data::read_view(*read),
        ),
{
    let mut path: Vec<(usize, bool)> = Vec::new();
    follow(unit, dwarf, read, true, &mut path)
}

} // verus!
