//! What holds of debug information lookups together.

use crate::error::ErrorView;
use crate::parser::dwarf_data;
use crate::parser::dwarf_data::AttrReadView;
use crate::parser::dwarf_data::SectionsView;
use crate::parser::dwarf_data::UnitView;
use crate::parser::dwarf_data::UnitsView;
use crate::parser::dwarf_parser;
use crate::parser::entry;
use crate::parser::entry::EntryView;
use crate::parser::entry::NodeView;
use crate::parser::expression;
use crate::parser::layout;
use crate::parser::layout::FieldView;
use crate::parser::layout::StructInfoView;
use crate::parser::type_resolver;
use crate::parser::types;
use crate::parser::types::MemberView;
use crate::parser::types::PrimitiveType;
use crate::parser::types::TypeView;
use crate::parser::variable;
use crate::parser::variable::VariableView;
use crate::rtt::object_file::SectionView;
use crate::text;
use vstd::prelude::*;

verus! {

// -----------------------------------------------------------------------------------------
// Structures
// -----------------------------------------------------------------------------------------

/// A layout that is reported carries the name that was asked for, and its members stand by
/// ascending offset.
pub proof fn lemma_layout_ordered(sections: Seq<SectionView>, name: Seq<char>)
    ensures
        dwarf_parser::layout_outcome(sections, name) matches Ok(found) ==> found.name == name
            && found.alignment == 0 && layout::ascending(found.members),
{
    if let Ok(debug) = dwarf_parser::debug_sections_of(sections) {
        lemma_layout_among_ordered(debug, dwarf_data::units_in(debug.info), name);
    }
}

proof fn lemma_layout_among_ordered(sections: SectionsView, units: UnitsView, name: Seq<char>)
    ensures
        dwarf_parser::layout_among(sections, units, name) matches Ok(found) ==> found.name == name
            && found.alignment == 0 && layout::ascending(found.members),
    decreases units.offsets.len(),
{
    if units.offsets.len() > 0 {
        if let Ok(unit) = dwarf_data::opened_unit(
            sections.abbrev,
            sections.info,
            units.offsets[0],
        ) {
            let table = entry::table_of(unit.entries, sections.strings);
            let at = layout::struct_at(table.entries, name);
            if at < table.entries.len() {
                let rest = table.entries.skip(at + 1);
                let run = entry::run_below(rest, 0);
                layout::lemma_by_offset(layout::fields_of(rest.take(run)), 0);
            }
            lemma_layout_among_ordered(sections, dwarf_parser::later_units(units), name);
        }
    }
}

proof fn lemma_struct_at(entries: Seq<EntryView>, name: Seq<char>)
    ensures
        0 <= layout::struct_at(entries, name) <= entries.len(),
        layout::struct_at(entries, name) < entries.len() ==> layout::is_struct(
            entries[layout::struct_at(entries, name)],
            name,
        ),
        layout::struct_at(entries, name) == entries.len() ==> forall|i: int|
            0 <= i < entries.len() ==> !layout::is_struct(#[trigger] entries[i], name),
    decreases entries.len(),
{
    if entries.len() > 0 && !layout::is_struct(entries[0], name) {
        let rest = entries.drop_first();
        lemma_struct_at(rest, name);
        if layout::struct_at(entries, name) == entries.len() {
            assert forall|i: int| 0 <= i < entries.len() implies !layout::is_struct(
                #[trigger] entries[i],
                name,
            ) by {
                if i > 0 {
                    assert(rest[i - 1] == entries[i]);
                }
            }
        }
    }
}

/// The listing names that structure.
pub open spec fn lists(structs: Seq<StructInfoView>, name: Seq<char>) -> bool {
    exists|i: int| 0 <= i < structs.len() && (#[trigger] structs[i]).name == name
}

proof fn lemma_structs_in(entries: Seq<EntryView>, name: Seq<char>)
    ensures
        lists(layout::structs_in(entries), name) <==> layout::struct_at(entries, name)
            < entries.len(),
{
    let picked = |e: EntryView| layout::is_named_struct(e);
    let kept = entries.filter(picked);
    let listed = layout::structs_in(entries);
    lemma_struct_at(entries, name);
    if lists(listed, name) {
        let i = choose|i: int| 0 <= i < listed.len() && (#[trigger] listed[i]).name == name;
        entries.lemma_filter_pred(picked, i);
        assert(picked(kept[i]));
        assert(kept.contains(kept[i]));
        entries.lemma_filter_contains_rev(picked, kept[i]);
        let k = choose|k: int| 0 <= k < entries.len() && entries[k] == kept[i];
        assert(layout::is_struct(entries[k], name));
    }
    let at = layout::struct_at(entries, name);
    if at < entries.len() {
        assert(picked(entries[at]));
        entries.lemma_filter_contains(picked, at);
        let k = choose|k: int| 0 <= k < kept.len() && kept[k] == entries[at];
        assert(listed[k].name == name);
    }
}

proof fn lemma_listed_among(sections: SectionsView, units: UnitsView, name: Seq<char>)
    requires
        dwarf_parser::structs_among(sections, units) is Ok,
    ensures
        dwarf_parser::layout_among(sections, units, name) is Ok <==> lists(
            dwarf_parser::structs_among(sections, units)->Ok_0,
            name,
        ),
    decreases units.offsets.len(),
{
    if units.offsets.len() > 0 {
        let unit = dwarf_data::opened_unit(
            sections.abbrev,
            sections.info,
            units.offsets[0],
        )->Ok_0;
        let table = entry::table_of(unit.entries, sections.strings);
        let here = layout::structs_in(table.entries);
        let more = dwarf_parser::structs_among(sections, dwarf_parser::later_units(units))->Ok_0;
        let all = here + more;
        lemma_listed_among(sections, dwarf_parser::later_units(units), name);
        lemma_structs_in(table.entries, name);
        lemma_struct_at(table.entries, name);
        if lists(here, name) {
            let i = choose|i: int| 0 <= i < here.len() && (#[trigger] here[i]).name == name;
            assert(all[i].name == name);
        }
        if lists(more, name) {
            let i = choose|i: int| 0 <= i < more.len() && (#[trigger] more[i]).name == name;
            assert(all[here.len() + i].name == name);
        }
        if lists(all, name) {
            let i = choose|i: int| 0 <= i < all.len() && (#[trigger] all[i]).name == name;
            if i < here.len() {
                assert(here[i].name == name);
            } else {
                assert(more[i - here.len()].name == name);
            }
        }
    }
}

/// Where the structures of an image can be listed, a structure has a layout exactly if the
/// listing names it.
pub proof fn lemma_listed_has_layout(sections: Seq<SectionView>, name: Seq<char>)
    requires
        dwarf_parser::structs_outcome(sections) is Ok,
    ensures
        dwarf_parser::layout_outcome(sections, name) is Ok <==> lists(
            dwarf_parser::structs_outcome(sections)->Ok_0,
            name,
        ),
{
    let debug = dwarf_parser::debug_sections_of(sections)->Ok_0;
    lemma_listed_among(debug, dwarf_data::units_in(debug.info), name);
}

proof fn lemma_field_named(members: Seq<FieldView>, name: Seq<char>)
    ensures
        match layout::field_named(members, name) {
            Some(member) => members.contains(member) && member.name == name,
            None => forall|i: int| 0 <= i < members.len() ==> (#[trigger] members[i]).name != name,
        },
    decreases members.len(),
{
    if members.len() > 0 && members[0].name != name {
        let rest = members.drop_first();
        lemma_field_named(rest, name);
        match layout::field_named(rest, name) {
            Some(member) => {
                let i = choose|i: int| 0 <= i < rest.len() && rest[i] == member;
                assert(members[i + 1] == member);
            },
            None => {
                assert forall|i: int| 0 <= i < members.len() implies (#[trigger] members[i]).name
                    != name by {
                    if i > 0 {
                        assert(rest[i - 1] == members[i]);
                    }
                }
            },
        }
    }
}

/// An offset that is reported for a member is that of a member of the structure's layout with
/// that name; that there is no such member is reported exactly if the layout has none.
pub proof fn lemma_member_offset(
    sections: Seq<SectionView>,
    struct_name: Seq<char>,
    member_name: Seq<char>,
)
    requires
        dwarf_parser::layout_outcome(sections, struct_name) is Ok,
    ensures
        match layout::offset_outcome(
            dwarf_parser::layout_outcome(sections, struct_name),
            struct_name,
            member_name,
        ) {
            Ok(offset) => exists|member: FieldView| #[trigger]
                dwarf_parser::layout_outcome(sections, struct_name)->Ok_0.members.contains(member)
                    && member.name == member_name && member.offset == offset,
            Err(_) => forall|i: int|
                0 <= i < dwarf_parser::layout_outcome(sections, struct_name)->Ok_0.members.len()
                    ==> (#[trigger] dwarf_parser::layout_outcome(
                    sections,
                    struct_name,
                )->Ok_0.members[i]).name != member_name,
        },
{
    lemma_field_named(
        dwarf_parser::layout_outcome(sections, struct_name)->Ok_0.members,
        member_name,
    );
}

// -----------------------------------------------------------------------------------------
// Types
// -----------------------------------------------------------------------------------------

/// A renamed, constant or volatile type is the type that it stands for.
pub proof fn lemma_transparent_type(
    unit: UnitView,
    strings: Seq<u8>,
    read: AttrReadView,
    node: NodeView,
)
    requires
        type_resolver::step_of(unit, strings, read) == type_resolver::StepView::Node(node),
        node.entry.tag == entry::DW_TAG_TYPEDEF || node.entry.tag == entry::DW_TAG_CONST_TYPE
            || node.entry.tag == entry::DW_TAG_VOLATILE_TYPE,
    ensures
        type_resolver::type_of(unit, strings, read) == type_resolver::type_of(
            unit,
            strings,
            node.entry.type_ref,
        ),
{
    type_resolver::lemma_type_step(unit, strings, read, true);
}

/// The members of a structure are its named member entries, in order: each has the name and the
/// offset of its entry, and the type that the entry's type attribute leads to.
pub proof fn lemma_member_types(unit: UnitView, strings: Seq<u8>, members: Seq<EntryView>)
    ensures
        type_resolver::member_list(unit, strings, members) matches Some(Ok(list)) ==> list.len()
            == members.len() && forall|i: int|
            0 <= i < members.len() ==> (#[trigger] list[i]).name == members[i].name->0
                && list[i].offset == entry::member_offset(members[i]) && type_resolver::type_of(
                unit,
                strings,
                members[i].type_ref,
            ) == Some(Ok::<TypeView, ErrorView>(list[i].type_info)),
    decreases members.len(),
{
    if members.len() > 0 {
        lemma_member_types(unit, strings, members.drop_last());
    }
}

/// A structure has the members that the entries directly below its own record.
pub proof fn lemma_structure_type(
    unit: UnitView,
    strings: Seq<u8>,
    read: AttrReadView,
    node: NodeView,
    members: Seq<MemberView>,
)
    requires
        type_resolver::step_of(unit, strings, read) == type_resolver::StepView::Node(node),
        node.entry.tag == entry::DW_TAG_STRUCTURE_TYPE,
        node.failure is None,
        type_resolver::member_list(
            unit,
            strings,
            type_resolver::named_members(node.children),
        ) == Some(Ok::<Seq<MemberView>, ErrorView>(members)),
    ensures
        type_resolver::type_of(unit, strings, read) == Some(
            Ok::<TypeView, ErrorView>(
                TypeView::Struct {
                    name: type_resolver::given_name(node.entry.name),
                    size: entry::recorded_size(node.entry),
                    members,
                },
            ),
        ),
{
    type_resolver::lemma_type_step(unit, strings, read, true);
}

/// An array has as many elements as its dimensions record, and takes as many bytes as they do.
pub proof fn lemma_array_type(
    unit: UnitView,
    strings: Seq<u8>,
    read: AttrReadView,
    node: NodeView,
    element: TypeView,
    count: usize,
)
    requires
        type_resolver::step_of(unit, strings, read) == type_resolver::StepView::Node(node),
        node.entry.tag == entry::DW_TAG_ARRAY_TYPE,
        node.failure is None,
        type_resolver::type_of(unit, strings, node.entry.type_ref) == Some(
            Ok::<TypeView, ErrorView>(element),
        ),
        type_resolver::count_of(node.children) == Some(count),
        types::type_size(element) * count <= u64::MAX,
    ensures
        type_resolver::type_of(unit, strings, read) matches Some(Ok(t)) && t == (TypeView::Array {
            element: Box::new(element),
            count,
            size: (types::type_size(element) * count) as u64,
        }),
{
    type_resolver::lemma_type_step(unit, strings, read, true);
}

/// An enumeration has the variants that the entries directly below its own record.
pub proof fn lemma_enumeration_type(
    unit: UnitView,
    strings: Seq<u8>,
    read: AttrReadView,
    node: NodeView,
)
    requires
        type_resolver::step_of(unit, strings, read) == type_resolver::StepView::Node(node),
        node.entry.tag == entry::DW_TAG_ENUMERATION_TYPE,
        node.failure is None,
    ensures
        type_resolver::type_of(unit, strings, read) matches Some(Ok(t)) && t == (TypeView::Enum {
            name: type_resolver::given_name(node.entry.name),
            size: entry::recorded_size(node.entry),
            variants: type_resolver::variants_of(node.children),
        }),
{
    type_resolver::lemma_type_step(unit, strings, read, true);
}

/// A primitive integer or floating-point type takes as many bytes as its entry records.
pub proof fn lemma_primitive_size(encoding: u8, size: u64)
    ensures
        type_resolver::primitive_of(Some(encoding), size) matches Some(p) ==> p
            == PrimitiveType::Bool || p == PrimitiveType::Char || types::primitive_size(p) == size,
{
}

// -----------------------------------------------------------------------------------------
// Variables and expressions
// -----------------------------------------------------------------------------------------

/// A variable that is reported carries the name that was asked for.
pub proof fn lemma_variable_name(sections: Seq<SectionView>, name: Seq<char>)
    ensures
        dwarf_parser::variable_outcome(sections, name) matches Some(Ok(found)) ==> found.name
            == name,
{
    if let Ok(debug) = dwarf_parser::debug_sections_of(sections) {
        lemma_variable_among_name(debug, dwarf_data::units_in(debug.info), name, None);
    }
}

proof fn lemma_variable_among_name(
    sections: SectionsView,
    units: UnitsView,
    name: Seq<char>,
    met: Option<ErrorView>,
)
    ensures
        dwarf_parser::variable_among(sections, units, name, met) matches Some(Ok(found))
            ==> found.name == name,
    decreases units.offsets.len(),
{
    if units.offsets.len() > 0 {
        if let Ok(unit) = dwarf_data::opened_unit(
            sections.abbrev,
            sections.info,
            units.offsets[0],
        ) {
            let table = entry::table_of(unit.entries, sections.strings);
            let now = match met {
                Some(error) => Some(error),
                None => variable::address_error(table.entries, name, unit.address_size),
            };
            lemma_variable_among_name(sections, dwarf_parser::later_units(units), name, now);
        }
    }
}

/// A local variable or a declaration with the name in front of a global or static one makes no
/// difference: what was met so far does not change which variable is found.
pub proof fn lemma_met_is_no_matter(
    sections: SectionsView,
    units: UnitsView,
    name: Seq<char>,
    met: Option<ErrorView>,
    other: Option<ErrorView>,
    found: VariableView,
)
    requires
        dwarf_parser::variable_among(sections, units, name, met) == Some(
            Ok::<VariableView, ErrorView>(found),
        ),
    ensures
        dwarf_parser::variable_among(sections, units, name, other) == Some(
            Ok::<VariableView, ErrorView>(found),
        ),
    decreases units.offsets.len(),
{
    let unit = dwarf_data::opened_unit(sections.abbrev, sections.info, units.offsets[0])->Ok_0;
    let table = entry::table_of(unit.entries, sections.strings);
    let error = variable::address_error(table.entries, name, unit.address_size);
    let now = match met {
        Some(error) => Some(error),
        None => error,
    };
    let other_now = match other {
        Some(error) => Some(error),
        None => error,
    };
    if variable::static_at(table.entries, name, unit.address_size) >= table.entries.len() {
        lemma_met_is_no_matter(
            sections,
            dwarf_parser::later_units(units),
            name,
            now,
            other_now,
            found,
        );
    }
}

/// `name.member` over an image stands for the member of the variable with that name: it lies at
/// the member's offset in the variable and has the member's type.
pub proof fn lemma_member_expression(
    sections: Seq<SectionView>,
    var: VariableView,
    members: Seq<MemberView>,
    name: Seq<char>,
    member: MemberView,
)
    requires
        !name.contains('.'),
        !name.contains('['),
        !member.name.contains('.'),
        !member.name.contains('['),
        dwarf_parser::variable_outcome(sections, name) == Some(Ok::<VariableView, ErrorView>(var)),
        var.type_info matches TypeView::Struct { members: m, .. } && m == members,
        expression::member_named(members, member.name) == Some(member),
        var.address + member.offset <= u64::MAX,
    ensures
        expression::expression_outcome(sections, name.push('.') + member.name) matches Some(Ok(r))
            && r.expression == name.push('.') + member.name && r.address == var.address
            + member.offset && r.type_info == member.type_info,
{
    expression::lemma_member(var, members, name, member);
    lemma_first_part(name, member.name);
}

/// `name.member[index]` over an image stands for the element of the member array with that
/// index.
pub proof fn lemma_member_element_expression(
    sections: Seq<SectionView>,
    var: VariableView,
    members: Seq<MemberView>,
    name: Seq<char>,
    member: MemberView,
    element: TypeView,
    part: Seq<char>,
)
    requires
        !name.contains('.'),
        !name.contains('['),
        !part.contains('.'),
        expression::well_formed_part(part),
        expression::part_name(part) == member.name,
        expression::part_index(part) is Some,
        dwarf_parser::variable_outcome(sections, name) == Some(Ok::<VariableView, ErrorView>(var)),
        var.type_info matches TypeView::Struct { members: m, .. } && m == members,
        expression::member_named(members, member.name) == Some(member),
        member.type_info matches TypeView::Array { element: e, .. } && *e == element,
        var.address + member.offset + expression::part_index(part)->0 * types::type_size(element)
            <= u64::MAX,
    ensures
        expression::expression_outcome(sections, name.push('.') + part) matches Some(Ok(r))
            && r.address == var.address + member.offset + expression::part_index(part)->0
            * types::type_size(element) && r.type_info == element,
{
    expression::lemma_member_element(var, members, name, member, element, part);
    lemma_first_part(name, part);
}

proof fn lemma_first_part(name: Seq<char>, rest: Seq<char>)
    requires
        !name.contains('.'),
        !name.contains('['),
    ensures
        text::split_on(name.push('.') + rest, '.')[0] == name,
        expression::well_formed_part(name),
        expression::part_name(name) == name,
{
    text::lemma_split_join(name, rest, '.');
    text::lemma_split_absent(name, '.');
    text::lemma_first_at(name, '[');
    if text::first_at(name, '[') < name.len() {
        assert(name[text::first_at(name, '[')] == '[');
    }
    assert(name.take(name.len() as int) == name);
}

/// An expression that is a bare name stands for the variable with that name: its address and
/// its type, or the error of looking it up.
pub proof fn lemma_bare_expression(sections: Seq<SectionView>, name: Seq<char>)
    requires
        !name.contains('.'),
        !name.contains('['),
    ensures
        expression::expression_outcome(sections, name) == match dwarf_parser::variable_outcome(
            sections,
            name,
        ) {
            None => None,
            Some(Err(error)) => Some(Err(error)),
            Some(Ok(var)) => Some(
                Ok(
                    expression::ResolvedView {
                        expression: name,
                        address: var.address,
                        type_info: var.type_info,
                    },
                ),
            ),
        },
{
    text::lemma_split_absent(name, '.');
    text::lemma_first_at(name, '[');
    if text::first_at(name, '[') < name.len() {
        assert(name[text::first_at(name, '[')] == '[');
    }
    assert(name.take(name.len() as int) == name);
    if let Some(Ok(var)) = dwarf_parser::variable_outcome(sections, name) {
        expression::lemma_bare_name(var, name);
    }
}

} // verus!
