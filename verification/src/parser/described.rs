//! Which types the entries of the debug information describe.

use crate::error::DebugError;
use crate::error::ErrorView;
use crate::listing;
use crate::parser::dwarf_data::AttrReadView;
use crate::parser::dwarf_data::AttrView;
use crate::parser::dwarf_data::UnitView;
use crate::parser::entry;
use crate::parser::entry::EntryView;
use crate::parser::entry::NodeView;
use crate::parser::type_resolver;
use crate::parser::types;
use crate::parser::types::MemberView;
use crate::parser::types::PrimitiveType;
use crate::parser::types::TypeInfo;
use crate::parser::types::TypeView;
use crate::parser::types::TypedMember;
use crate::parser::types::VariantView;
use vstd::prelude::*;

verus! {

/// The type attribute refers to an entry of the unit, which makes the node together with the
/// entries below it.
pub open spec fn leads_to(
    unit: UnitView,
    strings: Seq<u8>,
    read: AttrReadView,
    node: NodeView,
) -> bool {
    read is Ok && read->Ok_0 is Some && read->Ok_0->0 is UnitRef && {
        let walk = unit.entries_at[read->Ok_0->0->UnitRef_0];
        walk is Ok && walk->Ok_0.entries.len() > 0 && node == entry::node_of(walk->Ok_0, strings)
    }
}

proof fn lemma_leads_to(
    unit: UnitView,
    strings: Seq<u8>,
    read: AttrReadView,
    node: NodeView,
    deep: bool,
)
    requires
        leads_to(unit, strings, read, node),
    ensures
        type_resolver::resolved_type(unit, strings, read, deep) == type_resolver::node_type(
            unit,
            strings,
            node,
            deep,
        ),
{
    type_resolver::lemma_type_step(unit, strings, read, deep);
}

/// A type attribute that is absent or does not refer to an entry of the unit, or refers to where
/// the unit has no entry, leads to a type of which nothing is known. One that cannot be read, or
/// refers to where the unit cannot be read, is refused for that reason.
pub proof fn lemma_no_entry(unit: UnitView, strings: Seq<u8>, read: AttrReadView, deep: bool)
    ensures
        ({
            let unknown = Some(
                Ok::<TypeView, ErrorView>(TypeView::Unknown { size: 0, name: None }),
            );
            let t = type_resolver::resolved_type(unit, strings, read, deep);
            match read {
                Err(message) => t == Some(
                    Err::<TypeView, ErrorView>(ErrorView::DwarfError(message)),
                ),
                Ok(Some(AttrView::UnitRef(offset))) => match unit.entries_at[offset] {
                    Err(message) => t == Some(
                        Err::<TypeView, ErrorView>(ErrorView::DwarfError(message)),
                    ),
                    Ok(walk) => walk.entries.len() == 0 ==> t == match walk.failure {
                        Some(message) => Some(Err(ErrorView::DwarfError(message))),
                        None => unknown,
                    },
                },
                _ => t == unknown,
            }
        }),
{
    type_resolver::lemma_type_step(unit, strings, read, deep);
}

/// The size that an entry records, zero if it records none.
pub open spec fn size_of(e: EntryView) -> u64 {
    if e.byte_size is Some {
        e.byte_size->0
    } else {
        0
    }
}

/// The name that an entry records, or `<anonymous>`.
pub open spec fn name_of(e: EntryView) -> Seq<char> {
    if e.name is Some {
        e.name->0
    } else {
        "<anonymous>"@
    }
}

/// The encoding and the number of bytes make the primitive type.
pub open spec fn makes(encoding: Option<u8>, size: u64, p: PrimitiveType) -> bool {
    match p {
        PrimitiveType::U8 => encoding == Some(7u8) && size == 1,
        PrimitiveType::U16 => encoding == Some(7u8) && size == 2,
        PrimitiveType::U32 => encoding == Some(7u8) && size == 4,
        PrimitiveType::U64 => encoding == Some(7u8) && size == 8,
        PrimitiveType::I8 => encoding == Some(5u8) && size == 1,
        PrimitiveType::I16 => encoding == Some(5u8) && size == 2,
        PrimitiveType::I32 => encoding == Some(5u8) && size == 4,
        PrimitiveType::I64 => encoding == Some(5u8) && size == 8,
        PrimitiveType::F32 => encoding == Some(4u8) && size == 4,
        PrimitiveType::F64 => encoding == Some(4u8) && size == 8,
        PrimitiveType::Bool => encoding == Some(2u8),
        PrimitiveType::Char => encoding == Some(6u8) || encoding == Some(8u8),
    }
}

/// An encoding and a number of bytes make the primitive type that DWARF means by them.
pub proof fn lemma_primitive_of(encoding: Option<u8>, size: u64, p: PrimitiveType)
    ensures
        type_resolver::primitive_of(encoding, size) == Some(p) <==> makes(encoding, size, p),
{
}

/// A base type is the primitive type that its encoding and its size make; if they make none, only
/// its size and its name are known.
pub proof fn lemma_base_type(
    unit: UnitView,
    strings: Seq<u8>,
    read: AttrReadView,
    node: NodeView,
    deep: bool,
    p: PrimitiveType,
)
    requires
        leads_to(unit, strings, read, node),
        node.entry.tag == 0x24,
    ensures
        makes(node.entry.encoding, size_of(node.entry), p) ==> type_resolver::resolved_type(
            unit,
            strings,
            read,
            deep,
        ) == Some(Ok::<TypeView, ErrorView>(TypeView::Primitive(p))),
        (forall|other: PrimitiveType|
            !#[trigger] makes(node.entry.encoding, size_of(node.entry), other))
            ==> type_resolver::resolved_type(unit, strings, read, deep) == Some(
            Ok::<TypeView, ErrorView>(
                TypeView::Unknown { size: size_of(node.entry), name: node.entry.name },
            ),
        ),
{
    lemma_leads_to(unit, strings, read, node, deep);
    lemma_primitive_of(node.entry.encoding, size_of(node.entry), p);
    if let Some(found) = type_resolver::primitive_of(node.entry.encoding, size_of(node.entry)) {
        lemma_primitive_of(node.entry.encoding, size_of(node.entry), found);
    }
}

/// A pointer has the size that its entry records, and as its target the type that its type
/// attribute leads to, without the members of structures.
pub proof fn lemma_pointer_type(
    unit: UnitView,
    strings: Seq<u8>,
    read: AttrReadView,
    node: NodeView,
    deep: bool,
)
    requires
        leads_to(unit, strings, read, node),
        node.entry.tag == 0x0f,
    ensures
        ({
            let t = type_resolver::resolved_type(unit, strings, read, deep);
            match type_resolver::resolved_type(unit, strings, node.entry.type_ref, false) {
                Some(Ok(target)) => t == Some(
                    Ok::<TypeView, ErrorView>(
                        TypeView::Pointer {
                            target: Box::new(target),
                            size: size_of(node.entry),
                        },
                    ),
                ),
                other => t == other,
            }
        }),
{
    lemma_leads_to(unit, strings, read, node, deep);
}

/// A renamed, constant or volatile type is the type that its type attribute leads to.
pub proof fn lemma_renamed_type(
    unit: UnitView,
    strings: Seq<u8>,
    read: AttrReadView,
    node: NodeView,
    deep: bool,
)
    requires
        leads_to(unit, strings, read, node),
        node.entry.tag == 0x16 || node.entry.tag == 0x26 || node.entry.tag == 0x35,
    ensures
        type_resolver::resolved_type(unit, strings, read, deep) == type_resolver::resolved_type(
            unit,
            strings,
            node.entry.type_ref,
            deep,
        ),
{
    lemma_leads_to(unit, strings, read, node, deep);
}

/// An array has as its element the type that its type attribute leads to, as many of them as its
/// dimensions make, and takes as many bytes as these together.
pub proof fn lemma_array_of(
    unit: UnitView,
    strings: Seq<u8>,
    read: AttrReadView,
    node: NodeView,
    deep: bool,
    element: TypeView,
    bytes: int,
)
    requires
        leads_to(unit, strings, read, node),
        node.entry.tag == 0x01,
        types::takes(element, bytes),
        type_resolver::resolved_type(unit, strings, node.entry.type_ref, deep) == Some(
            Ok::<TypeView, ErrorView>(element),
        ),
    ensures
        ({
            let t = type_resolver::resolved_type(unit, strings, read, deep);
            let count = type_resolver::count_of(node.children);
            &&& node.failure is Some ==> t == Some(
                Err::<TypeView, ErrorView>(ErrorView::DwarfError(node.failure->0)),
            )
            &&& node.failure is None && count is Some && bytes * count->0 <= u64::MAX ==> t == Some(
                Ok::<TypeView, ErrorView>(
                    TypeView::Array {
                        element: Box::new(element),
                        count: count->0,
                        size: (bytes * count->0) as u64,
                    },
                ),
            )
        }),
{
    lemma_leads_to(unit, strings, read, node, deep);
    types::lemma_takes(element, bytes);
}

/// An array whose element cannot be told cannot be told either, for the same reason.
pub proof fn lemma_array_of_untold(
    unit: UnitView,
    strings: Seq<u8>,
    read: AttrReadView,
    node: NodeView,
    deep: bool,
)
    requires
        leads_to(unit, strings, read, node),
        node.entry.tag == 0x01,
        !(type_resolver::resolved_type(
            unit,
            strings,
            node.entry.type_ref,
            deep,
        ) matches Some(Ok(_))),
    ensures
        type_resolver::resolved_type(unit, strings, read, deep) == type_resolver::resolved_type(
            unit,
            strings,
            node.entry.type_ref,
            deep,
        ),
{
    lemma_leads_to(unit, strings, read, node, deep);
}

/// How many elements a dimension has: the count that it records; or else the distance of its
/// bounds, both of which belong to it, the lower one zero unless recorded; or else one.
pub open spec fn elements_of(e: EntryView) -> int {
    if e.count is Some {
        e.count->0 as int
    } else if e.upper_bound is None {
        1
    } else if e.lower_bound is None {
        e.upper_bound->0 + 1
    } else if e.lower_bound->0 > e.upper_bound->0 {
        0
    } else {
        e.upper_bound->0 - e.lower_bound->0 + 1
    }
}

/// Without dimensions an array has one element. Each dimension multiplies their number by its own,
/// as long as the number is in range; other entries make no difference.
pub proof fn lemma_count_of(children: Seq<EntryView>, e: EntryView)
    ensures
        type_resolver::count_of(Seq::empty()) == Some(1usize),
        e.tag != 0x21 ==> type_resolver::count_of(children.push(e)) == type_resolver::count_of(
            children,
        ),
        e.tag == 0x21 ==> match type_resolver::count_of(children) {
            None => type_resolver::count_of(children.push(e)) is None,
            Some(n) => if n * elements_of(e) <= usize::MAX {
                type_resolver::count_of(children.push(e)) == Some((n * elements_of(e)) as usize)
            } else {
                type_resolver::count_of(children.push(e)) is None
            },
        },
{
    assert(children.push(e).drop_last() == children);
    assert(elements_of(e) == type_resolver::dimension_of(e));
}

/// A dimension has as many elements as it records or as its bounds are apart.
pub proof fn lemma_dimension_of(e: EntryView)
    ensures
        type_resolver::dimension_of(e) == elements_of(e),
{
}

/// A structure has the name and the size that its entry records, and the named members directly
/// below it; the structure that a pointer points to is described without them.
pub proof fn lemma_structure_of(
    unit: UnitView,
    strings: Seq<u8>,
    read: AttrReadView,
    node: NodeView,
    deep: bool,
)
    requires
        leads_to(unit, strings, read, node),
        node.entry.tag == 0x13,
    ensures
        ({
            let t = type_resolver::resolved_type(unit, strings, read, deep);
            let members = if !deep {
                Some(Ok::<Seq<MemberView>, ErrorView>(Seq::empty()))
            } else if node.failure is Some {
                Some(Err(ErrorView::DwarfError(node.failure->0)))
            } else {
                type_resolver::member_list(
                    unit,
                    strings,
                    type_resolver::named_members(node.children),
                )
            };
            match members {
                None => t is None,
                Some(Err(error)) => t == Some(Err::<TypeView, ErrorView>(error)),
                Some(Ok(members)) => t == Some(
                    Ok::<TypeView, ErrorView>(
                        TypeView::Struct {
                            name: name_of(node.entry),
                            size: size_of(node.entry),
                            members,
                        },
                    ),
                ),
            }
        }),
{
    lemma_leads_to(unit, strings, read, node, deep);
}

/// The named members among entries are the member entries that have a name, in order.
pub proof fn lemma_named_members(children: Seq<EntryView>)
    ensures
        listing::lists(
            type_resolver::named_members(children),
            children.len() as int,
            |i: int| children[i].tag == 0x0d && children[i].name is Some,
            |i: int, e: EntryView| e == children[i],
        ),
{
    let wanted = |e: EntryView| entry::is_named_member(e);
    let made = |e: EntryView| e;
    let picked = |i: int| wanted(children[i]);
    let shown = |i: int, e: EntryView| e == made(children[i]);
    listing::lemma_filter_lists(children, wanted, made);
    assert(children.filter(wanted).map_values(made) == type_resolver::named_members(children));
    listing::lemma_lists_too(
        type_resolver::named_members(children),
        children.len() as int,
        picked,
        shown,
        |i: int| children[i].tag == 0x0d && children[i].name is Some,
        |i: int, e: EntryView| e == children[i],
    );
}

/// Each member of a structure has the name that its entry records, the offset that it records or
/// zero, and the type that its type attribute leads to; the first member whose type cannot be told
/// keeps the structure from being told.
pub proof fn lemma_member_list(unit: UnitView, strings: Seq<u8>, members: Seq<EntryView>, e: EntryView)
    ensures
        type_resolver::member_list(unit, strings, Seq::empty()) == Some(
            Ok::<Seq<MemberView>, ErrorView>(Seq::empty()),
        ),
        ({
            let before = type_resolver::member_list(unit, strings, members);
            let all = type_resolver::member_list(unit, strings, members.push(e));
            match before {
                Some(Ok(list)) => match type_resolver::resolved_type(
                    unit,
                    strings,
                    e.type_ref,
                    true,
                ) {
                    Some(Ok(type_info)) => all == Some(
                        Ok::<Seq<MemberView>, ErrorView>(
                            list.push(
                                MemberView {
                                    name: e.name->0,
                                    offset: if e.member_location is Some {
                                        e.member_location->0
                                    } else {
                                        0
                                    },
                                    type_info,
                                },
                            ),
                        ),
                    ),
                    Some(Err(error)) => all == Some(Err::<Seq<MemberView>, ErrorView>(error)),
                    None => all is None,
                },
                stopped => all == stopped,
            }
        }),
{
    assert(members.push(e).drop_last() == members);
}

/// An enumeration has the name and the size that its entry records, and the variants directly
/// below it.
pub proof fn lemma_enumeration_of(
    unit: UnitView,
    strings: Seq<u8>,
    read: AttrReadView,
    node: NodeView,
    deep: bool,
)
    requires
        leads_to(unit, strings, read, node),
        node.entry.tag == 0x04,
    ensures
        type_resolver::resolved_type(unit, strings, read, deep) == if node.failure is Some {
            Some(Err::<TypeView, ErrorView>(ErrorView::DwarfError(node.failure->0)))
        } else {
            Some(
                Ok(
                    TypeView::Enum {
                        name: name_of(node.entry),
                        size: size_of(node.entry),
                        variants: type_resolver::variants_of(node.children),
                    },
                ),
            )
        },
{
    lemma_leads_to(unit, strings, read, node, deep);
}

/// The variants are the enumerators that have a name and a value, in order, with both.
pub proof fn lemma_variants(children: Seq<EntryView>)
    ensures
        listing::lists(
            type_resolver::variants_of(children),
            children.len() as int,
            |i: int|
                children[i].tag == 0x28 && children[i].name is Some && children[i].const_value
                    is Some,
            |i: int, v: VariantView|
                children[i].name == Some(v.name) && children[i].const_value == Some(v.value),
        ),
{
    let wanted = |e: EntryView| type_resolver::is_enumerator(e);
    let made = |e: EntryView| VariantView { name: e.name->0, value: e.const_value->0 };
    let picked = |i: int| wanted(children[i]);
    let shown = |i: int, v: VariantView| v == made(children[i]);
    listing::lemma_filter_lists(children, wanted, made);
    assert(children.filter(wanted).map_values(made) == type_resolver::variants_of(children));
    listing::lemma_lists_too(
        type_resolver::variants_of(children),
        children.len() as int,
        picked,
        shown,
        |i: int|
            children[i].tag == 0x28 && children[i].name is Some && children[i].const_value is Some,
        |i: int, v: VariantView|
            children[i].name == Some(v.name) && children[i].const_value == Some(v.value),
    );
}

/// Of a type of any other kind only the size and the name are known.
pub proof fn lemma_other_type(
    unit: UnitView,
    strings: Seq<u8>,
    read: AttrReadView,
    node: NodeView,
    deep: bool,
)
    requires
        leads_to(unit, strings, read, node),
        node.entry.tag != 0x01 && node.entry.tag != 0x04 && node.entry.tag != 0x0f && node.entry.tag
            != 0x13 && node.entry.tag != 0x16 && node.entry.tag != 0x24 && node.entry.tag != 0x26
            && node.entry.tag != 0x35,
    ensures
        type_resolver::resolved_type(unit, strings, read, deep) == Some(
            Ok::<TypeView, ErrorView>(
                TypeView::Unknown { size: size_of(node.entry), name: node.entry.name },
            ),
        ),
{
    lemma_leads_to(unit, strings, read, node, deep);
}

/// The type of a variable is described with the members of structures.
pub proof fn lemma_type_of_variable(unit: UnitView, strings: Seq<u8>, read: AttrReadView)
    ensures
        type_resolver::type_of(unit, strings, read) == type_resolver::resolved_type(
            unit,
            strings,
            read,
            true,
        ),
{
}

/// What an entry describes follows from its kind: a base type from its encoding and size, a
/// pointer, an array or a renamed type from the type that it refers to, a structure from its
/// members, an enumeration from the entries below it.
pub proof fn lemma_described_type(
    node: NodeView,
    inner: Result<TypeView, ErrorView>,
    members: Result<Seq<MemberView>, ErrorView>,
)
    ensures
        ({
            let t = type_resolver::described_type(node, inner, members);
            let tag = node.entry.tag;
            let size = size_of(node.entry);
            &&& tag == 0x24 ==> t == Some(
                Ok::<TypeView, ErrorView>(
                    match type_resolver::primitive_of(node.entry.encoding, size) {
                        Some(p) => TypeView::Primitive(p),
                        None => TypeView::Unknown { size, name: node.entry.name },
                    },
                ),
            )
            &&& tag == 0x0f && inner is Ok ==> t == Some(
                Ok::<TypeView, ErrorView>(
                    TypeView::Pointer { target: Box::new(inner->Ok_0), size },
                ),
            )
            &&& (tag == 0x0f || tag == 0x01) && inner is Err ==> t == Some(inner)
            &&& (tag == 0x16 || tag == 0x26 || tag == 0x35) ==> t == Some(inner)
            &&& (tag == 0x04 || tag == 0x01 && inner is Ok) && node.failure is Some ==> t == Some(
                Err::<TypeView, ErrorView>(ErrorView::DwarfError(node.failure->0)),
            )
            &&& tag == 0x13 && members is Ok ==> t == Some(
                Ok::<TypeView, ErrorView>(
                    TypeView::Struct {
                        name: name_of(node.entry),
                        size,
                        members: members->Ok_0,
                    },
                ),
            )
            &&& tag == 0x13 && members is Err ==> t == Some(
                Err::<TypeView, ErrorView>(members->Err_0),
            )
            &&& tag == 0x04 && node.failure is None ==> t == Some(
                Ok::<TypeView, ErrorView>(
                    TypeView::Enum {
                        name: name_of(node.entry),
                        size,
                        variants: type_resolver::variants_of(node.children),
                    },
                ),
            )
            &&& tag != 0x01 && tag != 0x04 && tag != 0x0f && tag != 0x13 && tag != 0x16 && tag
                != 0x24 && tag != 0x26 && tag != 0x35 ==> t == Some(
                Ok::<TypeView, ErrorView>(TypeView::Unknown { size, name: node.entry.name }),
            )
        }),
{
}

/// An array of as many elements as its dimensions make takes as many bytes as these together; one
/// that is larger than can be counted is not described.
pub proof fn lemma_described_array(
    node: NodeView,
    element: TypeView,
    members: Result<Seq<MemberView>, ErrorView>,
    bytes: int,
)
    requires
        node.entry.tag == 0x01,
        node.failure is None,
        types::takes(element, bytes),
    ensures
        ({
            let t = type_resolver::described_type(node, Ok(element), members);
            match type_resolver::count_of(node.children) {
                Some(count) => if bytes * count <= u64::MAX {
                    t == Some(
                        Ok::<TypeView, ErrorView>(
                            TypeView::Array {
                                element: Box::new(element),
                                count,
                                size: (bytes * count) as u64,
                            },
                        ),
                    )
                } else {
                    t is None
                },
                None => t is None,
            }
        }),
{
    types::lemma_takes(element, bytes);
}

/// Pointers, arrays and renamed, constant or volatile types refer to another type.
pub proof fn lemma_refers(tag: u16)
    ensures
        type_resolver::refers(tag) <==> tag == 0x01 || tag == 0x0f || tag == 0x16 || tag == 0x26
            || tag == 0x35,
{
}

/// References that run in a circle describe no type: each entry refers to the next, and the last
/// one to the first.
pub proof fn lemma_circle(
    unit: UnitView,
    strings: Seq<u8>,
    reads: Seq<AttrReadView>,
    nodes: Seq<NodeView>,
    i: int,
    deep: bool,
)
    requires
        nodes.len() == reads.len(),
        forall|k: int|
            0 <= k < reads.len() ==> leads_to(unit, strings, #[trigger] reads[k], nodes[k]),
        forall|k: int|
            0 <= k < nodes.len() ==> {
                let tag = (#[trigger] nodes[k]).entry.tag;
                tag == 0x01 || tag == 0x0f || tag == 0x16 || tag == 0x26 || tag == 0x35
            },
        forall|k: int|
            0 <= k < nodes.len() - 1 ==> (#[trigger] nodes[k]).entry.type_ref == reads[k + 1],
        0 <= i < reads.len(),
        nodes[nodes.len() - 1].entry.type_ref == reads[0],
    ensures
        type_resolver::resolved_type(unit, strings, reads[i], deep) is None,
{
    if type_resolver::ends(unit, strings, reads[i], deep) {
        let limit = choose|limit: nat|
            type_resolver::followed(unit, strings, reads[i], deep, limit) is Some;
        lemma_circle_within(unit, strings, reads, nodes, i, deep, limit);
    }
}

proof fn lemma_circle_within(
    unit: UnitView,
    strings: Seq<u8>,
    reads: Seq<AttrReadView>,
    nodes: Seq<NodeView>,
    i: int,
    deep: bool,
    limit: nat,
)
    requires
        nodes.len() == reads.len(),
        forall|k: int|
            0 <= k < reads.len() ==> leads_to(unit, strings, #[trigger] reads[k], nodes[k]),
        forall|k: int|
            0 <= k < nodes.len() ==> {
                let tag = (#[trigger] nodes[k]).entry.tag;
                tag == 0x01 || tag == 0x0f || tag == 0x16 || tag == 0x26 || tag == 0x35
            },
        forall|k: int|
            0 <= k < nodes.len() - 1 ==> (#[trigger] nodes[k]).entry.type_ref == reads[k + 1],
        0 <= i < reads.len(),
        nodes[nodes.len() - 1].entry.type_ref == reads[0],
    ensures
        type_resolver::followed(unit, strings, reads[i], deep, limit) is None,
    decreases limit,
{
    assert(leads_to(unit, strings, reads[i], nodes[i]));
    let tag = nodes[i].entry.tag;
    assert(tag == 0x01 || tag == 0x0f || tag == 0x16 || tag == 0x26 || tag == 0x35);
    if limit > 0 {
        let next: int = if i == reads.len() - 1 {
            0
        } else {
            i + 1
        };
        let below = type_resolver::deep_below(nodes[i], deep);
        lemma_circle_within(unit, strings, reads, nodes, next, below, (limit - 1) as nat);
        assert(nodes[i].entry.type_ref == reads[next]);
    }
}

/// The views of types and members are theirs, or those of the errors.
pub proof fn lemma_outcome_views(
    r: Option<Result<TypeInfo, DebugError>>,
    m: Result<Vec<TypedMember>, DebugError>,
    members: Seq<TypedMember>,
)
    ensures
        r is None ==> type_resolver::type_outcome(r) is None,
        r matches Some(Ok(t)) ==> type_resolver::type_outcome(r) == Some(
            Ok::<TypeView, ErrorView>(t@),
        ),
        r matches Some(Err(error)) ==> type_resolver::type_outcome(r) == Some(
            Err::<TypeView, ErrorView>(error@),
        ),
        m matches Ok(list) ==> type_resolver::members_outcome(m) == Ok::<
            Seq<MemberView>,
            ErrorView,
        >(type_resolver::typed_views(list@)),
        m matches Err(error) ==> type_resolver::members_outcome(m) == Err::<
            Seq<MemberView>,
            ErrorView,
        >(error@),
        type_resolver::typed_views(members).len() == members.len(),
        forall|i: int|
            0 <= i < members.len() ==> #[trigger] type_resolver::typed_views(members)[i]
                == members[i]@,
{
}

} // verus!
