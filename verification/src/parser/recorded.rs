//! What lookups make of the entries and attributes that the debug information records.

use crate::error::ErrorView;
use crate::listing;
use crate::parser::dwarf_data;
use crate::parser::dwarf_data::AttrRead;
use crate::parser::dwarf_data::AttrReadView;
use crate::parser::dwarf_data::AttrValue;
use crate::parser::dwarf_data::AttrView;
use crate::parser::dwarf_data::EntriesView;
use crate::parser::dwarf_data::RawEntryView;
use crate::parser::dwarf_data::SectionsView;
use crate::parser::dwarf_data::UnitView;
use crate::parser::dwarf_data::UnitsView;
use crate::parser::dwarf_parser;
use crate::parser::entry;
use crate::parser::entry::Entry;
use crate::parser::entry::EntryTable;
use crate::parser::entry::EntryView;
use crate::parser::entry::Node;
use crate::parser::layout;
use crate::parser::layout::FieldView;
use crate::parser::layout::StructInfo;
use crate::parser::layout::StructInfoView;
use crate::parser::layout::StructLayout;
use crate::parser::layout::StructMember;
use crate::parser::type_resolver;
use crate::parser::value;
use crate::parser::variable;
use crate::parser::variable::VariableInfo;
use crate::parser::variable::VariableView;
use crate::rtt::object_file;
use crate::rtt::object_file::SectionView;
use vstd::prelude::*;

verus! {

// -----------------------------------------------------------------------------------------
// Attributes
// -----------------------------------------------------------------------------------------

/// The bytes stand in the string section at that offset, and the next byte is the first zero.
pub open spec fn is_string_at(strings: Seq<u8>, offset: int, bytes: Seq<u8>) -> bool {
    &&& offset + bytes.len() < strings.len()
    &&& strings[offset + bytes.len()] == 0
    &&& forall|i: int|
        0 <= i < bytes.len() ==> #[trigger] bytes[i] == strings[offset + i] && bytes[i] != 0
}

proof fn lemma_zero_at(bytes: Seq<u8>)
    ensures
        0 <= dwarf_data::zero_at(bytes) <= bytes.len(),
        forall|i: int| 0 <= i < dwarf_data::zero_at(bytes) ==> #[trigger] bytes[i] != 0,
        dwarf_data::zero_at(bytes) < bytes.len() ==> bytes[dwarf_data::zero_at(bytes)] == 0,
    decreases bytes.len(),
{
    if bytes.len() > 0 && bytes[0] != 0 {
        let rest = bytes.drop_first();
        lemma_zero_at(rest);
        assert forall|i: int| 0 <= i < dwarf_data::zero_at(bytes) implies #[trigger] bytes[i]
            != 0 by {
            if i > 0 {
                assert(rest[i - 1] == bytes[i]);
            }
        }
    }
}

/// A string reaches from its offset up to the first zero behind it.
pub proof fn lemma_zero_terminated(strings: Seq<u8>, offset: usize, bytes: Seq<u8>)
    ensures
        dwarf_data::zero_terminated(strings, offset) == Some(bytes) <==> is_string_at(
            strings,
            offset as int,
            bytes,
        ),
{
    if offset <= strings.len() {
        let tail = strings.skip(offset as int);
        let at = dwarf_data::zero_at(tail);
        lemma_zero_at(tail);
        assert forall|i: int| 0 <= i < tail.len() implies #[trigger] tail[i] == strings[offset
            + i] by {}
        if dwarf_data::zero_terminated(strings, offset) == Some(bytes) {
            assert forall|i: int| 0 <= i < bytes.len() implies #[trigger] bytes[i] == strings[offset
                + i] && bytes[i] != 0 by {
                assert(tail[i] != 0);
            }
            assert(tail[at] == 0);
        }
        if is_string_at(strings, offset as int, bytes) {
            let n = bytes.len() as int;
            assert(tail[n] == 0);
            if at < n {
                assert(bytes[at] == strings[offset + at]);
                assert(tail[at] == 0);
            }
            if at > n {
                assert(tail[n] != 0);
            }
            assert(strings.subrange(offset as int, offset + at) == bytes);
        }
    }
}

/// The entry's name attribute refers to that name in the string section.
pub open spec fn is_called(raw: RawEntryView, strings: Seq<u8>, name: Seq<char>) -> bool {
    exists|offset: usize, bytes: Seq<u8>|
        raw.attrs[0x03] == Ok::<Option<AttrView>, Seq<char>>(
            Some(AttrView::DebugStrRef(offset)),
        ) && #[trigger] is_string_at(strings, offset as int, bytes) && name
            == dwarf_data::lossy_text(bytes)
}

/// An entry's name is the text that its name attribute refers to in the string section, and an
/// entry whose name attribute refers to no text has no name.
pub proof fn lemma_entry_name(raw: RawEntryView, strings: Seq<u8>)
    ensures
        forall|name: Seq<char>|
            #![trigger is_called(raw, strings, name)]
            entry::entry_of(raw, strings).name == Some(name) <==> is_called(raw, strings, name),
{
    let e = entry::entry_of(raw, strings);
    assert forall|name: Seq<char>| #![trigger is_called(raw, strings, name)] e.name == Some(
        name,
    ) <==> is_called(raw, strings, name) by {
        if e.name == Some(name) {
            let offset = raw.attrs[0x03]->Ok_0->0->DebugStrRef_0;
            let bytes = dwarf_data::zero_terminated(strings, offset)->0;
            lemma_zero_terminated(strings, offset, bytes);
            assert(is_string_at(strings, offset as int, bytes));
        }
        if is_called(raw, strings, name) {
            let (offset, bytes) = choose|offset: usize, bytes: Seq<u8>|
                raw.attrs[0x03] == Ok::<Option<AttrView>, Seq<char>>(
                    Some(AttrView::DebugStrRef(offset)),
                ) && #[trigger] is_string_at(strings, offset as int, bytes) && name
                    == dwarf_data::lossy_text(bytes);
            lemma_zero_terminated(strings, offset, bytes);
        }
    }
}

/// The number that an attribute holds, zero if it holds none.
pub open spec fn number_or_zero(read: AttrReadView) -> u64 {
    match read {
        Ok(Some(AttrView::Udata(n))) => n,
        _ => 0,
    }
}

/// The attribute holds a number.
pub open spec fn holds_number(read: AttrReadView) -> bool {
    read is Ok && read->Ok_0 is Some && read->Ok_0->0 is Udata
}

/// The attribute holds an encoding.
pub open spec fn holds_encoding(read: AttrReadView) -> bool {
    read is Ok && read->Ok_0 is Some && read->Ok_0->0 is Encoding
}

/// What is used of an entry is what its attributes hold: the size in bytes, the place of a member,
/// the encoding of a base type, the bounds and the count of an array dimension, the value of an
/// enumerator, the place of a variable and the reference to its type.
pub proof fn lemma_entry_attributes(raw: RawEntryView, strings: Seq<u8>)
    ensures
        ({
            let e = entry::entry_of(raw, strings);
            &&& e.depth == raw.depth
            &&& e.tag == raw.tag
            &&& e.byte_size is Some <==> holds_number(raw.attrs[0x0b])
            &&& entry::recorded_size(e) == number_or_zero(raw.attrs[0x0b])
            &&& e.member_location is Some <==> holds_number(raw.attrs[0x38])
            &&& entry::member_offset(e) == number_or_zero(raw.attrs[0x38])
            &&& e.encoding is Some ==> raw.attrs[0x3e] == Ok::<Option<AttrView>, Seq<char>>(
                Some(AttrView::Encoding(e.encoding->0)),
            )
            &&& holds_encoding(raw.attrs[0x3e]) ==> e.encoding is Some
            &&& e.count == raw.unsigned[0x37]
            &&& e.lower_bound == raw.unsigned[0x22]
            &&& e.upper_bound == raw.unsigned[0x2f]
            &&& raw.unsigned[0x1c] is Some && raw.unsigned[0x1c]->0 <= i64::MAX ==> e.const_value
                == Some(raw.unsigned[0x1c]->0 as i64)
            &&& raw.unsigned[0x1c] is None || raw.unsigned[0x1c]->0 > i64::MAX ==> e.const_value
                == raw.signed[0x1c]
            &&& e.location == raw.attrs[0x02]
            &&& e.type_ref == raw.attrs[0x49]
        }),
{
}

/// The size and the place that are used of an entry are those that it records, or zero.
pub proof fn lemma_recorded_numbers(e: EntryView)
    ensures
        e.byte_size matches Some(n) ==> entry::recorded_size(e) == n,
        e.byte_size is None ==> entry::recorded_size(e) == 0,
        e.member_location matches Some(n) ==> entry::member_offset(e) == n,
        e.member_location is None ==> entry::member_offset(e) == 0,
{
}

/// A table has one entry for each that a walk meets, in order, and the failure that ends the walk.
pub proof fn lemma_table(walk: EntriesView, strings: Seq<u8>)
    ensures
        entry::table_of(walk, strings).failure == walk.failure,
        entry::table_of(walk, strings).entries.len() == walk.entries.len(),
        forall|i: int|
            0 <= i < walk.entries.len() ==> #[trigger] entry::table_of(walk, strings).entries[i]
                == entry::entry_of(walk.entries[i], strings),
{
}

/// The view of an attribute read is the attribute's value, nothing or the error, as the read is;
/// the view of an optional text is the text, if there is one.
pub proof fn lemma_read_views(read: AttrRead, value: AttrValue, optional: Option<String>)
    ensures
        read matches Ok(Some(found)) ==> dwarf_data::read_view(read) == Ok::<
            Option<AttrView>,
            Seq<char>,
        >(Some(found@)),
        read matches Ok(None) ==> dwarf_data::read_view(read) == Ok::<Option<AttrView>, Seq<char>>(
            None,
        ),
        read matches Err(text) ==> dwarf_data::read_view(read) == Err::<
            Option<AttrView>,
            Seq<char>,
        >(text@),
        match value {
            AttrValue::DebugStrRef(offset) => value@ == AttrView::DebugStrRef(offset),
            AttrValue::Udata(n) => value@ == AttrView::Udata(n),
            AttrValue::Exprloc(bytes) => value@ == AttrView::Exprloc(bytes@),
            AttrValue::UnitRef(offset) => value@ == AttrView::UnitRef(offset),
            AttrValue::Encoding(code) => value@ == AttrView::Encoding(code),
            AttrValue::Other => value@ == AttrView::Other,
        },
        optional matches Some(text) ==> object_file::option_text(optional) == Some(text@),
        optional is None ==> object_file::option_text(optional) is None,
{
}

/// The views of entries, tables and nodes have what these hold.
pub proof fn lemma_entry_views(e: Entry, table: EntryTable, node: Node)
    ensures
        e@.depth == e.depth,
        e@.tag == e.tag,
        e@.name == object_file::option_text(e.name),
        e@.byte_size == e.byte_size,
        e@.member_location == e.member_location,
        e@.encoding == e.encoding,
        e@.count == e.count,
        e@.lower_bound == e.lower_bound,
        e@.upper_bound == e.upper_bound,
        e@.const_value == e.const_value,
        e@.location == dwarf_data::read_view(e.location),
        e@.type_ref == dwarf_data::read_view(e.type_ref),
        table@.failure == object_file::option_text(table.failure),
        table@.entries.len() == table.entries@.len(),
        forall|i: int|
            0 <= i < table.entries@.len() ==> #[trigger] table@.entries[i] == table.entries@[i]@,
        node@.entry == node.entry@,
        node@.failure == object_file::option_text(node.failure),
        node@.children.len() == node.children@.len(),
        forall|i: int|
            0 <= i < node.children@.len() ==> #[trigger] node@.children[i] == node.children@[i]@,
{
}

// -----------------------------------------------------------------------------------------
// The tree that entries make
// -----------------------------------------------------------------------------------------

/// How much deeper the entry at `i` stands than the one at `from` in front of it.
pub open spec fn depth_below(entries: Seq<RawEntryView>, from: int, i: int) -> int
    decreases i - from,
{
    if i <= from {
        0
    } else {
        depth_below(entries, from, i - 1) + entries[i].depth
    }
}

/// The entry at `i` stands below the one at `from`: it is deeper, and so is every entry between
/// them.
pub open spec fn is_below(entries: Seq<RawEntryView>, from: int, i: int) -> bool {
    from < i < entries.len() && forall|k: int|
        from < k <= i ==> #[trigger] depth_below(entries, from, k) > 0
}

/// The entry at `i` stands directly below the one at `from`.
pub open spec fn is_child(entries: Seq<RawEntryView>, from: int, i: int) -> bool {
    is_below(entries, from, i) && depth_below(entries, from, i) == 1
}

proof fn lemma_run_from(walk: EntriesView, strings: Seq<u8>, from: int, at: int)
    requires
        0 <= from < at <= walk.entries.len(),
        forall|k: int| from < k < at ==> #[trigger] depth_below(walk.entries, from, k) > 0,
    ensures
        ({
            let rest = entry::table_of(walk, strings).entries.skip(at);
            let run = entry::run_below(rest, depth_below(walk.entries, from, at - 1));
            &&& 0 <= run <= rest.len()
            &&& forall|i: int|
                at <= i < walk.entries.len() ==> (#[trigger] is_below(walk.entries, from, i) <==> i
                    < at + run)
        }),
    decreases walk.entries.len() - at,
{
    let entries = walk.entries;
    let rest = entry::table_of(walk, strings).entries.skip(at);
    let level = depth_below(entries, from, at - 1);
    if at < entries.len() {
        assert(rest[0].depth == entries[at].depth);
        assert(depth_below(entries, from, at) == level + entries[at].depth);
        if level + entries[at].depth > 0 {
            assert(rest.drop_first() == entry::table_of(walk, strings).entries.skip(at + 1));
            assert forall|k: int| from < k < at + 1 implies #[trigger] depth_below(
                entries,
                from,
                k,
            ) > 0 by {}
            lemma_run_from(walk, strings, from, at + 1);
            assert(is_below(entries, from, at));
        } else {
            assert forall|i: int| at <= i < entries.len() implies !#[trigger] is_below(
                entries,
                from,
                i,
            ) by {
                assert(!(depth_below(entries, from, at) > 0));
            }
        }
    }
}

/// The entries below an entry are those that follow it before the first that is not deeper.
pub proof fn lemma_entries_below(walk: EntriesView, strings: Seq<u8>, from: int)
    requires
        0 <= from < walk.entries.len(),
    ensures
        ({
            let rest = entry::table_of(walk, strings).entries.skip(from + 1);
            let run = entry::run_below(rest, 0);
            &&& 0 <= run <= rest.len()
            &&& forall|i: int|
                0 <= i < walk.entries.len() ==> (#[trigger] is_below(walk.entries, from, i) <==> from
                    < i <= from + run)
        }),
{
    lemma_run_from(walk, strings, from, from + 1);
}

proof fn lemma_children_from(walk: EntriesView, strings: Seq<u8>, from: int, at: int) -> (positions:
    Seq<int>)
    requires
        0 <= from < at <= walk.entries.len(),
        forall|k: int| from < k < at ==> #[trigger] depth_below(walk.entries, from, k) > 0,
    ensures
        listing::is_listing(
            positions,
            entry::children_of(
                entry::table_of(walk, strings).entries.skip(at),
                depth_below(walk.entries, from, at - 1),
            ),
            walk.entries.len() as int,
            |i: int| at <= i && is_child(walk.entries, from, i),
            |i: int, e: EntryView| e == entry::entry_of(walk.entries[i], strings),
        ),
    decreases walk.entries.len() - at,
{
    let entries = walk.entries;
    let rest = entry::table_of(walk, strings).entries.skip(at);
    let level = depth_below(entries, from, at - 1);
    let picked = |i: int| at <= i && is_child(entries, from, i);
    let shown = |i: int, e: EntryView| e == entry::entry_of(entries[i], strings);
    let children = entry::children_of(rest, level);
    if at < entries.len() {
        assert(rest[0] == entry::entry_of(entries[at], strings));
        assert(depth_below(entries, from, at) == level + entries[at].depth);
    }
    if at < entries.len() && level + entries[at].depth > 0 {
        assert(rest.drop_first() == entry::table_of(walk, strings).entries.skip(at + 1));
        assert forall|k: int| from < k < at + 1 implies #[trigger] depth_below(entries, from, k)
            > 0 by {}
        let later = lemma_children_from(walk, strings, from, at + 1);
        let more = entry::children_of(rest.drop_first(), level + entries[at].depth);
        let picked_later = |i: int| at + 1 <= i && is_child(entries, from, i);
        assert(listing::is_listing(later, more, entries.len() as int, picked_later, shown));
        assert(is_below(entries, from, at));
        let positions = if level + entries[at].depth == 1 {
            seq![at] + later
        } else {
            later
        };
        let skipped: int = if level + entries[at].depth == 1 {
            1
        } else {
            0
        };
        assert forall|k: int| 0 <= k < positions.len() implies 0 <= #[trigger] positions[k]
            < entries.len() && picked(positions[k]) && shown(positions[k], children[k]) by {
            if k >= skipped {
                assert(positions[k] == later[k - skipped]);
                assert(picked_later(later[k - skipped]) && shown(
                    later[k - skipped],
                    more[k - skipped],
                ));
                assert(children[k] == more[k - skipped]);
            }
        }
        assert forall|j: int, k: int| 0 <= j < k < positions.len() implies #[trigger] positions[j]
            < #[trigger] positions[k] by {
            assert(positions[k] == later[k - skipped]);
            assert(picked_later(later[k - skipped]));
            if j >= skipped {
                assert(positions[j] == later[j - skipped]);
                assert(later[j - skipped] < later[k - skipped]);
            }
        }
        assert forall|i: int| 0 <= i < entries.len() && #[trigger] picked(
            i,
        ) implies positions.contains(i) by {
            if i == at {
                assert(positions[0] == at);
            } else {
                assert(picked_later(i));
                let k = choose|k: int| 0 <= k < later.len() && later[k] == i;
                assert(positions[k + skipped] == i);
            }
        }
        positions
    } else {
        assert forall|i: int| 0 <= i < entries.len() implies !#[trigger] picked(i) by {
            if at <= i {
                assert(!(depth_below(entries, from, at) > 0));
            }
        }
        Seq::empty()
    }
}

/// A node is the first entry of a walk with the entries directly below it, in order. It has the
/// walk's failure if the walk fails before it comes to an entry that is not below the first.
pub proof fn lemma_node(walk: EntriesView, strings: Seq<u8>)
    requires
        walk.entries.len() > 0,
    ensures
        ({
            let node = entry::node_of(walk, strings);
            &&& node.entry == entry::entry_of(walk.entries[0], strings)
            &&& listing::lists(
                node.children,
                walk.entries.len() as int,
                |i: int| is_child(walk.entries, 0, i),
                |i: int, e: EntryView| e == entry::entry_of(walk.entries[i], strings),
            )
            &&& (forall|i: int|
                0 < i < walk.entries.len() ==> #[trigger] is_below(walk.entries, 0, i))
                ==> node.failure == walk.failure
            &&& forall|i: int|
                0 < i < walk.entries.len() && !#[trigger] is_below(walk.entries, 0, i)
                    ==> node.failure is None
        }),
{
    let entries = walk.entries;
    let node = entry::node_of(walk, strings);
    let table = entry::table_of(walk, strings);
    let rest = table.entries.drop_first();
    assert(rest == table.entries.skip(1));
    let at = lemma_children_from(walk, strings, 0, 1);
    let picked = |i: int| 1 <= i && is_child(entries, 0, i);
    let shown = |i: int, e: EntryView| e == entry::entry_of(entries[i], strings);
    let also_picked = |i: int| is_child(entries, 0, i);
    assert(listing::is_listing(at, node.children, entries.len() as int, picked, shown));
    assert forall|i: int| 0 <= i < entries.len() implies #[trigger] picked(i) == also_picked(i) by {}
    listing::lemma_lists_too(
        node.children,
        entries.len() as int,
        picked,
        shown,
        also_picked,
        shown,
    );
    lemma_entries_below(walk, strings, 0);
    let run = entry::run_below(rest, 0);
    if forall|i: int| 0 < i < entries.len() ==> #[trigger] is_below(entries, 0, i) {
        if run < rest.len() {
            assert(is_below(entries, 0, run + 1));
        }
    }
}

// -----------------------------------------------------------------------------------------
// Sections
// -----------------------------------------------------------------------------------------

/// The section at `i` is the first with that name.
pub open spec fn is_first_section(sections: Seq<SectionView>, i: int, name: Seq<char>) -> bool {
    0 <= i < sections.len() && sections[i].name == Some(name) && forall|k: int|
        0 <= k < i ==> (#[trigger] sections[k]).name != Some(name)
}

/// A section's bytes are those of the first section with its name, or the reason why these cannot
/// be reached.
pub proof fn lemma_section_found(sections: Seq<SectionView>, i: int, name: Seq<char>)
    requires
        is_first_section(sections, i, name),
    ensures
        dwarf_parser::section_data(sections, name) == match sections[i].data {
            Ok(bytes) => Ok::<Seq<u8>, ErrorView>(bytes),
            Err(message) => Err(ErrorView::DwarfError(message)),
        },
    decreases sections.len(),
{
    if i > 0 {
        let rest = sections.drop_first();
        assert(sections[0].name != Some(name));
        assert forall|k: int| 0 <= k < i - 1 implies (#[trigger] rest[k]).name != Some(name) by {
            assert(rest[k] == sections[k + 1]);
        }
        lemma_section_found(rest, i - 1, name);
    }
}

/// A section that the image does not have is reported missing by its name.
pub proof fn lemma_section_missing(sections: Seq<SectionView>, name: Seq<char>)
    requires
        forall|k: int| 0 <= k < sections.len() ==> (#[trigger] sections[k]).name != Some(name),
    ensures
        dwarf_parser::section_data(sections, name) == Err::<Seq<u8>, ErrorView>(
            ErrorView::DwarfError("Section "@ + name + " not found"@),
        ),
    decreases sections.len(),
{
    if sections.len() > 0 {
        let rest = sections.drop_first();
        assert(sections[0].name != Some(name));
        assert forall|k: int| 0 <= k < rest.len() implies (#[trigger] rest[k]).name != Some(
            name,
        ) by {
            assert(rest[k] == sections[k + 1]);
        }
        lemma_section_missing(rest, name);
    }
}

/// Debug information is read from the sections `.debug_abbrev` and `.debug_info`, without which
/// there is none, and from `.debug_str` and `.debug_line`, which count as empty if they are missing
/// or unreadable.
pub proof fn lemma_debug_sections(sections: Seq<SectionView>)
    ensures
        match dwarf_parser::debug_sections_of(sections) {
            Ok(found) => {
                let strings = dwarf_parser::section_data(sections, ".debug_str"@);
                let line = dwarf_parser::section_data(sections, ".debug_line"@);
                &&& dwarf_parser::section_data(sections, ".debug_abbrev"@) == Ok::<
                    Seq<u8>,
                    ErrorView,
                >(found.abbrev)
                &&& dwarf_parser::section_data(sections, ".debug_info"@) == Ok::<
                    Seq<u8>,
                    ErrorView,
                >(found.info)
                &&& strings is Ok ==> found.strings == strings->Ok_0
                &&& strings is Err ==> found.strings.len() == 0
                &&& line is Ok ==> found.line == line->Ok_0
                &&& line is Err ==> found.line.len() == 0
            },
            Err(error) => {
                let abbrev = dwarf_parser::section_data(sections, ".debug_abbrev"@);
                let info = dwarf_parser::section_data(sections, ".debug_info"@);
                abbrev == Err::<Seq<u8>, ErrorView>(error) || abbrev is Ok && info == Err::<
                    Seq<u8>,
                    ErrorView,
                >(error)
            },
        },
{
}

/// Layouts, listings and variables are looked up among the units of the image's unit section; an
/// image without debug information is refused for the same reason by each lookup.
pub proof fn lemma_lookups(sections: Seq<SectionView>, name: Seq<char>)
    ensures
        dwarf_parser::debug_sections_of(sections) matches Ok(found) ==> {
            let units = dwarf_data::units_in(found.info);
            &&& dwarf_parser::layout_outcome(sections, name) == dwarf_parser::layout_among(
                found,
                units,
                name,
            )
            &&& dwarf_parser::structs_outcome(sections) == dwarf_parser::structs_among(found, units)
            &&& dwarf_parser::variable_outcome(sections, name) == dwarf_parser::variable_among(
                found,
                units,
                name,
                None,
            )
        },
        dwarf_parser::debug_sections_of(sections) matches Err(error) ==> {
            &&& dwarf_parser::layout_outcome(sections, name) is Err
            &&& dwarf_parser::layout_outcome(sections, name)->Err_0 == error
            &&& dwarf_parser::structs_outcome(sections) is Err
            &&& dwarf_parser::structs_outcome(sections)->Err_0 == error
            &&& dwarf_parser::variable_outcome(sections, name) == Some(
                Err::<VariableView, ErrorView>(error),
            )
        },
{
}

// -----------------------------------------------------------------------------------------
// Structures
// -----------------------------------------------------------------------------------------

/// The entry describes a structure with that name.
pub open spec fn is_struct_called(raw: RawEntryView, strings: Seq<u8>, name: Seq<char>) -> bool {
    raw.tag == 0x13 && is_called(raw, strings, name)
}

/// The entry has a name.
pub open spec fn has_name(raw: RawEntryView, strings: Seq<u8>) -> bool {
    exists|name: Seq<char>| is_called(raw, strings, name)
}

/// The unit at that offset can be read to its end and describes no structure with that name.
pub open spec fn is_without_struct(debug: SectionsView, offset: usize, name: Seq<char>) -> bool {
    dwarf_data::opened_unit(debug.abbrev, debug.info, offset) is Ok && {
        let walk = dwarf_data::opened_unit(debug.abbrev, debug.info, offset)->Ok_0.entries;
        walk.failure is None && forall|i: int|
            0 <= i < walk.entries.len() ==> !is_struct_called(
                #[trigger] walk.entries[i],
                debug.strings,
                name,
            )
    }
}

/// What is reported of the member that the entry describes: its name, and the offset and the size
/// that its attributes hold, zero where they hold none.
pub open spec fn is_field_of(raw: RawEntryView, strings: Seq<u8>, field: FieldView) -> bool {
    &&& is_called(raw, strings, field.name)
    &&& field.offset == number_or_zero(raw.attrs[0x38])
    &&& field.size == number_or_zero(raw.attrs[0x0b])
    &&& field.typename == "unknown"@
}

/// The fields of the members with a name below the entry at `from`, in the order of their entries.
pub open spec fn are_fields_below(
    fields: Seq<FieldView>,
    entries: Seq<RawEntryView>,
    strings: Seq<u8>,
    from: int,
) -> bool {
    listing::lists(
        fields,
        entries.len() as int,
        |i: int| is_below(entries, from, i) && entries[i].tag == 0x0d && has_name(entries[i], strings),
        |i: int, field: FieldView| is_field_of(entries[i], strings, field),
    )
}

/// The fields at one offset, in order.
pub open spec fn standing_at(fields: Seq<FieldView>, offset: u64) -> Seq<FieldView> {
    fields.filter(|field: FieldView| field.offset == offset)
}

/// The members are the fields by ascending offset: none is missing or added, and those at the same
/// offset keep their order.
pub open spec fn is_by_offset(members: Seq<FieldView>, fields: Seq<FieldView>) -> bool {
    &&& members.to_multiset() == fields.to_multiset()
    &&& forall|i: int, j: int|
        0 <= i < j < members.len() ==> (#[trigger] members[i]).offset <= (
        #[trigger] members[j]).offset
    &&& forall|offset: u64| #[trigger] standing_at(members, offset) == standing_at(fields, offset)
}

proof fn lemma_at_offset(members: Seq<FieldView>, offset: u64)
    ensures
        layout::at_offset(members, offset) == standing_at(members, offset),
    decreases members.len(),
{
    reveal(Seq::filter);
    if members.len() > 0 {
        lemma_at_offset(members.drop_last(), offset);
    }
}

/// Ordering fields by offset keeps every field, makes the offsets ascend, and does not rearrange
/// fields at the same offset.
pub proof fn lemma_fields_by_offset(fields: Seq<FieldView>)
    ensures
        is_by_offset(layout::by_offset(fields), fields),
{
    let members = layout::by_offset(fields);
    layout::lemma_by_offset(fields, 0);
    assert forall|offset: u64| #[trigger] standing_at(members, offset) == standing_at(
        fields,
        offset,
    ) by {
        layout::lemma_by_offset(fields, offset);
        lemma_at_offset(members, offset);
        lemma_at_offset(fields, offset);
    }
    assert forall|i: int, j: int| 0 <= i < j < members.len() implies (#[trigger] members[i]).offset
        <= (#[trigger] members[j]).offset by {
        assert(layout::ascending(members));
    }
}

proof fn lemma_fields_below(walk: EntriesView, strings: Seq<u8>, from: int)
    requires
        0 <= from < walk.entries.len(),
    ensures
        ({
            let rest = entry::table_of(walk, strings).entries.skip(from + 1);
            are_fields_below(
                layout::fields_of(rest.take(entry::run_below(rest, 0))),
                walk.entries,
                strings,
                from,
            )
        }),
{
    let entries = walk.entries;
    let rest = entry::table_of(walk, strings).entries.skip(from + 1);
    let run = entry::run_below(rest, 0);
    lemma_entries_below(walk, strings, from);
    let items = rest.take(run);
    let wanted = |e: EntryView| entry::is_named_member(e);
    let made = |e: EntryView| layout::field_of(e);
    let picked = |i: int| wanted(items[i]);
    let shown = |i: int, field: FieldView| field == made(items[i]);
    let also_picked = |i: int|
        is_below(entries, from, i) && entries[i].tag == 0x0d && has_name(entries[i], strings);
    let also_shown = |i: int, field: FieldView| is_field_of(entries[i], strings, field);
    listing::lemma_filter_lists(items, wanted, made);
    assert forall|i: int| 0 <= i < run implies #[trigger] items[i] == entry::entry_of(
        entries[from + 1 + i],
        strings,
    ) by {}
    assert forall|i: int| 0 <= i < run && #[trigger] picked(i) implies also_picked(
        from + 1 + i,
    ) by {
        let raw = entries[from + 1 + i];
        lemma_entry_name(raw, strings);
        assert(is_called(raw, strings, items[i].name->0));
        assert(is_below(entries, from, from + 1 + i));
    }
    assert forall|i: int| 0 <= i < entries.len() && #[trigger] also_picked(i) implies from + 1 <= i
        < from + 1 + run && picked(i - (from + 1)) by {
        lemma_entry_name(entries[i], strings);
        let name = choose|name: Seq<char>| is_called(entries[i], strings, name);
        assert(entry::entry_of(entries[i], strings).name == Some(name));
        assert(items[i - (from + 1)] == entry::entry_of(entries[i], strings));
    }
    assert forall|i: int, field: FieldView|
        0 <= i < run && picked(i) && #[trigger] shown(i, field) implies also_shown(
        from + 1 + i,
        field,
    ) by {
        let raw = entries[from + 1 + i];
        lemma_entry_name(raw, strings);
        lemma_entry_attributes(raw, strings);
        assert(is_called(raw, strings, items[i].name->0));
    }
    listing::lemma_lists_stretch(
        layout::fields_of(items),
        run,
        picked,
        shown,
        from + 1,
        entries.len() as int,
        also_picked,
        also_shown,
    );
}

proof fn lemma_struct_position(walk: EntriesView, strings: Seq<u8>, name: Seq<char>, at: int)
    requires
        0 <= at <= walk.entries.len(),
        at < walk.entries.len() ==> is_struct_called(walk.entries[at], strings, name),
        forall|i: int|
            0 <= i < at ==> !is_struct_called(#[trigger] walk.entries[i], strings, name),
    ensures
        layout::struct_at(entry::table_of(walk, strings).entries, name) == at,
{
    let views = entry::table_of(walk, strings).entries;
    assert forall|i: int| 0 <= i < walk.entries.len() implies (layout::is_struct(
        #[trigger] views[i],
        name,
    ) <==> is_struct_called(walk.entries[i], strings, name)) by {
        lemma_entry_name(walk.entries[i], strings);
        assert(views[i] == entry::entry_of(walk.entries[i], strings));
        assert(is_called(walk.entries[i], strings, name) || !is_called(
            walk.entries[i],
            strings,
            name,
        ));
    }
    layout::lemma_struct_at(views, name, at);
}

/// The first structure with a name is reported under that name with the size that its entry
/// records, and with every named member below it: each with the offset and the size that the
/// member's own entry records, by ascending offset.
pub proof fn lemma_layout_found(
    debug: SectionsView,
    units: UnitsView,
    name: Seq<char>,
    k: int,
    at: int,
)
    requires
        0 <= k < units.offsets.len(),
        forall|j: int| 0 <= j < k ==> is_without_struct(debug, #[trigger] units.offsets[j], name),
        dwarf_data::opened_unit(debug.abbrev, debug.info, units.offsets[k]) is Ok,
        ({
            let walk = dwarf_data::opened_unit(
                debug.abbrev,
                debug.info,
                units.offsets[k],
            )->Ok_0.entries;
            &&& 0 <= at < walk.entries.len()
            &&& is_struct_called(walk.entries[at], debug.strings, name)
            &&& forall|i: int|
                0 <= i < at ==> !is_struct_called(#[trigger] walk.entries[i], debug.strings, name)
            &&& walk.failure is None || exists|i: int|
                at < i < walk.entries.len() && !#[trigger] is_below(walk.entries, at, i)
        }),
    ensures
        ({
            let walk = dwarf_data::opened_unit(
                debug.abbrev,
                debug.info,
                units.offsets[k],
            )->Ok_0.entries;
            dwarf_parser::layout_among(debug, units, name) matches Ok(found) && {
                &&& found.name == name
                &&& found.size == number_or_zero(walk.entries[at].attrs[0x0b])
                &&& found.alignment == 0
                &&& exists|fields: Seq<FieldView>| #[trigger]
                    are_fields_below(fields, walk.entries, debug.strings, at) && is_by_offset(
                        found.members,
                        fields,
                    )
            }
        }),
    decreases k,
{
    let unit = dwarf_data::opened_unit(debug.abbrev, debug.info, units.offsets[0])->Ok_0;
    let walk = unit.entries;
    if k > 0 {
        let later = dwarf_parser::later_units(units);
        assert(is_without_struct(debug, units.offsets[0], name));
        lemma_struct_position(walk, debug.strings, name, walk.entries.len() as int);
        assert forall|j: int| 0 <= j < k - 1 implies is_without_struct(
            debug,
            #[trigger] later.offsets[j],
            name,
        ) by {
            assert(later.offsets[j] == units.offsets[j + 1]);
        }
        assert(later.offsets[k - 1] == units.offsets[k]);
        lemma_layout_found(debug, later, name, k - 1, at);
    } else {
        lemma_struct_position(walk, debug.strings, name, at);
        let table = entry::table_of(walk, debug.strings);
        let rest = table.entries.skip(at + 1);
        let run = entry::run_below(rest, 0);
        let fields = layout::fields_of(rest.take(run));
        lemma_entries_below(walk, debug.strings, at);
        lemma_fields_below(walk, debug.strings, at);
        lemma_fields_by_offset(fields);
        lemma_entry_attributes(walk.entries[at], debug.strings);
        if walk.failure is Some {
            let i = choose|i: int|
                at < i < walk.entries.len() && !#[trigger] is_below(walk.entries, at, i);
            assert(run < rest.len());
        }
        assert(are_fields_below(fields, walk.entries, debug.strings, at));
    }
}

/// A layout that is reported is that of an entry that describes a structure with that name: it has
/// the size that the entry records, and the named members below the entry, each with the offset and
/// the size that its own entry records.
pub proof fn lemma_reported_layout(debug: SectionsView, units: UnitsView, name: Seq<char>)
    ensures
        dwarf_parser::layout_among(debug, units, name) matches Ok(found) ==> found.name == name
            && exists|k: int, at: int, fields: Seq<FieldView>|
            0 <= k < units.offsets.len() && 0 <= at < unit_at(
                debug,
                units.offsets[k],
            ).entries.entries.len() && is_struct_called(
                unit_at(debug, units.offsets[k]).entries.entries[at],
                debug.strings,
                name,
            ) && found.size == number_or_zero(
                unit_at(debug, units.offsets[k]).entries.entries[at].attrs[0x0b],
            ) && #[trigger] are_fields_below(
                fields,
                unit_at(debug, units.offsets[k]).entries.entries,
                debug.strings,
                at,
            ) && is_by_offset(found.members, fields),
    decreases units.offsets.len(),
{
    if let Ok(found) = dwarf_parser::layout_among(debug, units, name) {
        let walk = unit_at(debug, units.offsets[0]).entries;
        let at = lemma_some_struct_position(walk, debug.strings, name);
        if at < walk.entries.len() {
            let rest = entry::table_of(walk, debug.strings).entries.skip(at + 1);
            let fields = layout::fields_of(rest.take(entry::run_below(rest, 0)));
            lemma_fields_below(walk, debug.strings, at);
            lemma_fields_by_offset(fields);
            lemma_entry_attributes(walk.entries[at], debug.strings);
            assert(are_fields_below(
                fields,
                unit_at(debug, units.offsets[0]).entries.entries,
                debug.strings,
                at,
            ));
        } else {
            let later = dwarf_parser::later_units(units);
            lemma_later_units(units);
            lemma_reported_layout(debug, later, name);
            let (k, at, fields) = choose|k: int, at: int, fields: Seq<FieldView>|
                0 <= k < later.offsets.len() && 0 <= at < unit_at(
                    debug,
                    later.offsets[k],
                ).entries.entries.len() && is_struct_called(
                    unit_at(debug, later.offsets[k]).entries.entries[at],
                    debug.strings,
                    name,
                ) && found.size == number_or_zero(
                    unit_at(debug, later.offsets[k]).entries.entries[at].attrs[0x0b],
                ) && #[trigger] are_fields_below(
                    fields,
                    unit_at(debug, later.offsets[k]).entries.entries,
                    debug.strings,
                    at,
                ) && is_by_offset(found.members, fields);
            assert(later.offsets[k] == units.offsets[k + 1]);
            assert(are_fields_below(
                fields,
                unit_at(debug, units.offsets[k + 1]).entries.entries,
                debug.strings,
                at,
            ));
        }
    }
}

/// A structure that no unit describes is not found, if every unit can be read.
pub proof fn lemma_layout_missing(debug: SectionsView, units: UnitsView, name: Seq<char>)
    requires
        forall|j: int|
            0 <= j < units.offsets.len() ==> is_without_struct(
                debug,
                #[trigger] units.offsets[j],
                name,
            ),
    ensures
        dwarf_parser::layout_among(debug, units, name) is Err,
        dwarf_parser::layout_among(debug, units, name)->Err_0 == match units.failure {
            Some(message) => ErrorView::DwarfError(message),
            None => ErrorView::StructNotFound(name),
        },
    decreases units.offsets.len(),
{
    if units.offsets.len() > 0 {
        let later = dwarf_parser::later_units(units);
        assert(is_without_struct(debug, units.offsets[0], name));
        let walk = dwarf_data::opened_unit(
            debug.abbrev,
            debug.info,
            units.offsets[0],
        )->Ok_0.entries;
        lemma_struct_position(walk, debug.strings, name, walk.entries.len() as int);
        assert forall|j: int| 0 <= j < later.offsets.len() implies is_without_struct(
            debug,
            #[trigger] later.offsets[j],
            name,
        ) by {
            assert(later.offsets[j] == units.offsets[j + 1]);
        }
        lemma_layout_missing(debug, later, name);
    }
}

/// The search for a structure ends with the reason of the first unit that cannot be opened, or
/// cannot be read on before the structure, or the end of its members, is reached.
pub proof fn lemma_layout_unreadable(
    debug: SectionsView,
    units: UnitsView,
    name: Seq<char>,
    k: int,
    message: Seq<char>,
)
    requires
        0 <= k < units.offsets.len(),
        forall|j: int| 0 <= j < k ==> is_without_struct(debug, #[trigger] units.offsets[j], name),
        match dwarf_data::opened_unit(debug.abbrev, debug.info, units.offsets[k]) {
            Err(text) => text == message,
            Ok(unit) => unit.entries.failure == Some(message) && forall|at: int, i: int|
                0 <= at < i < unit.entries.entries.len() && is_struct_called(
                    #[trigger] unit.entries.entries[at],
                    debug.strings,
                    name,
                ) ==> #[trigger] is_below(unit.entries.entries, at, i),
        },
    ensures
        dwarf_parser::layout_among(debug, units, name) is Err,
        dwarf_parser::layout_among(debug, units, name)->Err_0 == ErrorView::DwarfError(message),
    decreases k,
{
    if k > 0 {
        let later = dwarf_parser::later_units(units);
        assert(is_without_struct(debug, units.offsets[0], name));
        let walk = dwarf_data::opened_unit(
            debug.abbrev,
            debug.info,
            units.offsets[0],
        )->Ok_0.entries;
        lemma_struct_position(walk, debug.strings, name, walk.entries.len() as int);
        assert forall|j: int| 0 <= j < k - 1 implies is_without_struct(
            debug,
            #[trigger] later.offsets[j],
            name,
        ) by {
            assert(later.offsets[j] == units.offsets[j + 1]);
        }
        assert(later.offsets[k - 1] == units.offsets[k]);
        lemma_layout_unreadable(debug, later, name, k - 1, message);
    } else if let Ok(unit) = dwarf_data::opened_unit(debug.abbrev, debug.info, units.offsets[0]) {
        let walk = unit.entries;
        let at = lemma_some_struct_position(walk, debug.strings, name);
        if at < walk.entries.len() {
            lemma_entries_below(walk, debug.strings, at);
            let rest = entry::table_of(walk, debug.strings).entries.skip(at + 1);
            let run = entry::run_below(rest, 0);
            if run < rest.len() {
                assert(is_struct_called(walk.entries[at], debug.strings, name));
                assert(is_below(walk.entries, at, at + run + 1));
            }
        }
    }
}

proof fn lemma_some_struct_position(walk: EntriesView, strings: Seq<u8>, name: Seq<char>) -> (at:
    int)
    ensures
        layout::struct_at(entry::table_of(walk, strings).entries, name) == at,
        0 <= at <= walk.entries.len(),
        at < walk.entries.len() ==> is_struct_called(walk.entries[at], strings, name),
{
    let at = lemma_first_struct(walk, strings, name, 0);
    lemma_struct_position(walk, strings, name, at);
    at
}

proof fn lemma_first_struct(walk: EntriesView, strings: Seq<u8>, name: Seq<char>, from: int) -> (at:
    int)
    requires
        0 <= from <= walk.entries.len(),
        forall|i: int|
            0 <= i < from ==> !is_struct_called(#[trigger] walk.entries[i], strings, name),
    ensures
        0 <= at <= walk.entries.len(),
        at < walk.entries.len() ==> is_struct_called(walk.entries[at], strings, name),
        forall|i: int|
            0 <= i < at ==> !is_struct_called(#[trigger] walk.entries[i], strings, name),
    decreases walk.entries.len() - from,
{
    if from == walk.entries.len() || is_struct_called(walk.entries[from], strings, name) {
        from
    } else {
        lemma_first_struct(walk, strings, name, from + 1)
    }
}

/// A member's offset is that of the first member of the layout with that name; a name that no
/// member has is reported with the structure's.
pub proof fn lemma_offset_of_member(
    layout_found: layout::LayoutView,
    struct_name: Seq<char>,
    member_name: Seq<char>,
    i: int,
)
    requires
        0 <= i <= layout_found.members.len(),
        i < layout_found.members.len() ==> layout_found.members[i].name == member_name,
        forall|k: int| 0 <= k < i ==> (#[trigger] layout_found.members[k]).name != member_name,
    ensures
        i < layout_found.members.len() ==> layout::offset_outcome(
            Ok(layout_found),
            struct_name,
            member_name,
        ) == Ok::<u64, ErrorView>(layout_found.members[i].offset),
        i == layout_found.members.len() ==> layout::offset_outcome(
            Ok(layout_found),
            struct_name,
            member_name,
        ) == Err::<u64, ErrorView>(ErrorView::MemberNotFound(struct_name, member_name)),
{
    lemma_field_position(layout_found.members, member_name, i);
}

/// Without a layout, no member has an offset, for the same reason.
pub proof fn lemma_offset_without_layout(
    error: ErrorView,
    struct_name: Seq<char>,
    member_name: Seq<char>,
)
    ensures
        layout::offset_outcome(Err(error), struct_name, member_name) == Err::<u64, ErrorView>(error),
{
}

proof fn lemma_field_position(members: Seq<FieldView>, name: Seq<char>, i: int)
    requires
        0 <= i <= members.len(),
        i < members.len() ==> members[i].name == name,
        forall|k: int| 0 <= k < i ==> (#[trigger] members[k]).name != name,
    ensures
        layout::field_named(members, name) == if i < members.len() {
            Some(members[i])
        } else {
            None
        },
    decreases members.len(),
{
    if i > 0 {
        let rest = members.drop_first();
        assert(members[0].name != name);
        assert forall|k: int| 0 <= k < i - 1 implies (#[trigger] rest[k]).name != name by {
            assert(rest[k] == members[k + 1]);
        }
        lemma_field_position(rest, name, i - 1);
    }
}

/// The structures of a unit that have a name, in the order of their entries, each with the size
/// that its entry records.
pub open spec fn are_structs_of(
    structs: Seq<StructInfoView>,
    entries: Seq<RawEntryView>,
    strings: Seq<u8>,
) -> bool {
    listing::lists(
        structs,
        entries.len() as int,
        |i: int| entries[i].tag == 0x13 && has_name(entries[i], strings),
        |i: int, info: StructInfoView|
            is_called(entries[i], strings, info.name) && info.size == number_or_zero(
                entries[i].attrs[0x0b],
            ),
    )
}

/// The structures of a unit are listed in the order of their entries.
pub proof fn lemma_structs_of_unit(walk: EntriesView, strings: Seq<u8>)
    ensures
        are_structs_of(
            layout::structs_in(entry::table_of(walk, strings).entries),
            walk.entries,
            strings,
        ),
{
    let entries = walk.entries;
    let items = entry::table_of(walk, strings).entries;
    let wanted = |e: EntryView| layout::is_named_struct(e);
    let made = |e: EntryView|
        StructInfoView { name: e.name->0, size: entry::recorded_size(e) };
    let picked = |i: int| wanted(items[i]);
    let shown = |i: int, info: StructInfoView| info == made(items[i]);
    let also_picked = |i: int| entries[i].tag == 0x13 && has_name(entries[i], strings);
    let also_shown = |i: int, info: StructInfoView|
        is_called(entries[i], strings, info.name) && info.size == number_or_zero(
            entries[i].attrs[0x0b],
        );
    listing::lemma_filter_lists(items, wanted, made);
    assert(layout::structs_in(items) == items.filter(wanted).map_values(made));
    assert forall|i: int| 0 <= i < entries.len() implies #[trigger] picked(i) == also_picked(i) by {
        lemma_entry_name(entries[i], strings);
        if also_picked(i) {
            let name = choose|name: Seq<char>| is_called(entries[i], strings, name);
            assert(items[i].name == Some(name));
        }
        if picked(i) {
            assert(is_called(entries[i], strings, items[i].name->0));
        }
    }
    assert forall|i: int, info: StructInfoView|
        0 <= i < entries.len() && picked(i) && #[trigger] shown(i, info) implies also_shown(
        i,
        info,
    ) by {
        lemma_entry_name(entries[i], strings);
        lemma_entry_attributes(entries[i], strings);
        assert(is_called(entries[i], strings, items[i].name->0));
    }
    listing::lemma_lists_too(
        layout::structs_in(items),
        entries.len() as int,
        picked,
        shown,
        also_picked,
        also_shown,
    );
}

/// The listing of an image holds the structures of each unit, one unit after the other.
pub proof fn lemma_structs_listed(debug: SectionsView, units: UnitsView) -> (parts: Seq<
    Seq<StructInfoView>,
>)
    requires
        units.failure is None,
        forall|j: int|
            0 <= j < units.offsets.len() ==> dwarf_data::opened_unit(
                debug.abbrev,
                debug.info,
                #[trigger] units.offsets[j],
            ) is Ok && dwarf_data::opened_unit(
                debug.abbrev,
                debug.info,
                units.offsets[j],
            )->Ok_0.entries.failure is None,
    ensures
        parts.len() == units.offsets.len(),
        forall|j: int|
            0 <= j < parts.len() ==> are_structs_of(
                #[trigger] parts[j],
                dwarf_data::opened_unit(
                    debug.abbrev,
                    debug.info,
                    units.offsets[j],
                )->Ok_0.entries.entries,
                debug.strings,
            ),
        dwarf_parser::structs_among(debug, units) == Ok::<Seq<StructInfoView>, ErrorView>(
            parts.flatten(),
        ),
    decreases units.offsets.len(),
{
    if units.offsets.len() == 0 {
        assert(Seq::<Seq<StructInfoView>>::empty().flatten() == Seq::<StructInfoView>::empty());
        Seq::empty()
    } else {
        let later = dwarf_parser::later_units(units);
        assert forall|j: int| 0 <= j < later.offsets.len() implies dwarf_data::opened_unit(
            debug.abbrev,
            debug.info,
            #[trigger] later.offsets[j],
        ) is Ok && dwarf_data::opened_unit(
            debug.abbrev,
            debug.info,
            later.offsets[j],
        )->Ok_0.entries.failure is None by {
            assert(later.offsets[j] == units.offsets[j + 1]);
        }
        let walk = dwarf_data::opened_unit(
            debug.abbrev,
            debug.info,
            units.offsets[0],
        )->Ok_0.entries;
        let here = layout::structs_in(entry::table_of(walk, debug.strings).entries);
        let more = lemma_structs_listed(debug, later);
        lemma_structs_of_unit(walk, debug.strings);
        let parts = seq![here] + more;
        assert(parts.drop_first() == more);
        assert forall|j: int| 0 <= j < parts.len() implies are_structs_of(
            #[trigger] parts[j],
            dwarf_data::opened_unit(
                debug.abbrev,
                debug.info,
                units.offsets[j],
            )->Ok_0.entries.entries,
            debug.strings,
        ) by {
            if j > 0 {
                assert(parts[j] == more[j - 1]);
                assert(later.offsets[j - 1] == units.offsets[j]);
            }
        }
        parts
    }
}

/// An image with a unit that cannot be read is not listed; the reason is that of the first such
/// unit, or of the walk over the units if all units can be read.
pub proof fn lemma_structs_unreadable(
    debug: SectionsView,
    units: UnitsView,
    k: int,
    message: Seq<char>,
)
    requires
        0 <= k <= units.offsets.len(),
        forall|j: int|
            0 <= j < k ==> dwarf_data::opened_unit(
                debug.abbrev,
                debug.info,
                #[trigger] units.offsets[j],
            ) is Ok && dwarf_data::opened_unit(
                debug.abbrev,
                debug.info,
                units.offsets[j],
            )->Ok_0.entries.failure is None,
        k < units.offsets.len() ==> match dwarf_data::opened_unit(
            debug.abbrev,
            debug.info,
            units.offsets[k],
        ) {
            Err(text) => text == message,
            Ok(unit) => unit.entries.failure == Some(message),
        },
        k == units.offsets.len() ==> units.failure == Some(message),
    ensures
        dwarf_parser::structs_among(debug, units) == Err::<Seq<StructInfoView>, ErrorView>(
            ErrorView::DwarfError(message),
        ),
    decreases k,
{
    if k > 0 {
        let later = dwarf_parser::later_units(units);
        assert(dwarf_data::opened_unit(debug.abbrev, debug.info, units.offsets[0]) is Ok);
        assert forall|j: int| 0 <= j < k - 1 implies dwarf_data::opened_unit(
            debug.abbrev,
            debug.info,
            #[trigger] later.offsets[j],
        ) is Ok && dwarf_data::opened_unit(
            debug.abbrev,
            debug.info,
            later.offsets[j],
        )->Ok_0.entries.failure is None by {
            assert(later.offsets[j] == units.offsets[j + 1]);
        }
        if k < units.offsets.len() {
            assert(later.offsets[k - 1] == units.offsets[k]);
        }
        lemma_structs_unreadable(debug, later, k - 1, message);
    }
}

/// The views of layouts, members and listed structures have what these hold.
pub proof fn lemma_layout_views(found: StructLayout, member: StructMember, info: StructInfo)
    ensures
        found@.name == found.name@,
        found@.size == found.size,
        found@.alignment == found.alignment,
        found@.members.len() == found.members@.len(),
        forall|i: int|
            0 <= i < found.members@.len() ==> #[trigger] found@.members[i] == found.members@[i]@,
        member@.name == member.name@,
        member@.offset == member.offset,
        member@.size == member.size,
        member@.typename == member.typename@,
        info@.name == info.name@,
        info@.size == info.size,
{
}

/// The views of a listing have the view of each structure, in order.
pub proof fn lemma_listing_views(structs: Seq<StructInfo>)
    ensures
        layout::struct_views(structs).len() == structs.len(),
        forall|i: int|
            0 <= i < structs.len() ==> #[trigger] layout::struct_views(structs)[i] == structs[i]@,
{
}

// -----------------------------------------------------------------------------------------
// Variables
// -----------------------------------------------------------------------------------------

/// The expression starts with the operation that pushes an address, and this is the address: the
/// number that the bytes behind the operation make, the least significant first.
pub open spec fn pushes_address(expression: Seq<u8>, address_size: u8, address: u64) -> bool {
    &&& expression.len() > address_size
    &&& expression[0] == 0x03
    &&& {
        ||| address_size == 1 && address == expression[1]
        ||| address_size == 2 && address == expression[1] + 0x100 * expression[2]
        ||| address_size == 4 && address == value::four_bytes(expression.skip(1))
        ||| address_size == 8 && address == value::eight_bytes(expression.skip(1))
    }
}

/// The entry's location attribute gives that address: as a number, or by an expression that starts
/// by pushing it.
pub open spec fn stands_at(raw: RawEntryView, address_size: u8, address: u64) -> bool {
    match raw.attrs[0x02] {
        Ok(Some(AttrView::Udata(n))) => address == n,
        Ok(Some(AttrView::Exprloc(expression))) => pushes_address(
            expression,
            address_size,
            address,
        ),
        _ => false,
    }
}

proof fn lemma_leading_address(expression: Seq<u8>, address_size: u8)
    ensures
        dwarf_data::leading_address(expression, address_size) matches Some(address)
            ==> pushes_address(expression, address_size, address),
        dwarf_data::leading_address(expression, address_size) is None ==> forall|address: u64|
            !#[trigger] pushes_address(expression, address_size, address),
{
    if expression.len() > address_size {
        let bytes = expression.subrange(1, 1 + address_size as int);
        let tail = expression.skip(1);
        value::lemma_le_value(bytes);
        assert forall|i: int| 0 <= i < bytes.len() implies #[trigger] bytes[i] == tail[i]
            && bytes[i] == expression[i + 1] by {}
        if address_size == 4 {
            assert(bytes[0] == tail[0] && bytes[1] == tail[1] && bytes[2] == tail[2] && bytes[3]
                == tail[3]);
        }
        if address_size == 8 {
            let high = tail.skip(4);
            assert(bytes[0] == tail[0] && bytes[1] == tail[1] && bytes[2] == tail[2] && bytes[3]
                == tail[3]);
            assert(high[0] == tail[4] && high[1] == tail[5] && high[2] == tail[6] && high[3]
                == tail[7]);
            assert(bytes[4] == tail[4] && bytes[5] == tail[5] && bytes[6] == tail[6] && bytes[7]
                == tail[7]);
        }
    }
}

/// Why an entry's location attribute gives no address: it cannot be read, or it is missing or of a
/// form that gives none.
pub open spec fn address_refusal(location: AttrReadView) -> ErrorView {
    match location {
        Err(message) => ErrorView::DwarfError(message),
        Ok(_) => ErrorView::DwarfError("Cannot determine variable address"@),
    }
}

/// A variable stands exactly at the address that its location attribute gives, bit for bit, and one
/// whose location attribute gives none is refused.
pub proof fn lemma_address(raw: RawEntryView, strings: Seq<u8>, address_size: u8)
    ensures
        ({
            let r = variable::address_of(entry::entry_of(raw, strings), address_size);
            &&& r is Ok ==> stands_at(raw, address_size, r->Ok_0)
            &&& r is Err ==> r->Err_0 == address_refusal(raw.attrs[0x02])
            &&& forall|address: u64| #[trigger]
                stands_at(raw, address_size, address) ==> r == Ok::<u64, ErrorView>(address)
        }),
{
    if let Ok(Some(AttrView::Exprloc(expression))) = raw.attrs[0x02] {
        lemma_leading_address(expression, address_size);
    }
}

/// The address that a location attribute gives is the number that it is, or the address that its
/// expression starts with; any other attribute gives none.
pub proof fn lemma_address_given(location: AttrReadView, leading: Option<u64>)
    ensures
        match location {
            Ok(Some(AttrView::Udata(n))) => variable::address_given(location, leading) == Ok::<
                u64,
                ErrorView,
            >(n),
            Ok(Some(AttrView::Exprloc(_))) if leading is Some => variable::address_given(
                location,
                leading,
            ) == Ok::<u64, ErrorView>(leading->0),
            _ => variable::address_given(location, leading) == Err::<u64, ErrorView>(
                address_refusal(location),
            ),
        },
{
}

/// The entry describes a variable with that name.
pub open spec fn is_variable_called(raw: RawEntryView, strings: Seq<u8>, name: Seq<char>) -> bool {
    raw.tag == 0x34 && is_called(raw, strings, name)
}

/// The entry describes a variable with that name that stands at a fixed address.
pub open spec fn is_global(
    raw: RawEntryView,
    strings: Seq<u8>,
    address_size: u8,
    name: Seq<char>,
) -> bool {
    is_variable_called(raw, strings, name) && exists|address: u64|
        stands_at(raw, address_size, address)
}

/// The unit at an offset of the unit section.
pub open spec fn unit_at(debug: SectionsView, offset: usize) -> UnitView {
    dwarf_data::opened_unit(debug.abbrev, debug.info, offset)->Ok_0
}

/// The unit at that offset can be opened and its own description can be read.
pub open spec fn is_loaded(debug: SectionsView, offset: usize) -> bool {
    &&& dwarf_data::opened_unit(debug.abbrev, debug.info, offset) is Ok
    &&& dwarf_data::root_fits(unit_at(debug, offset))
    &&& dwarf_data::unit_refusal(debug.abbrev, debug.info, debug.strings, debug.line, offset) is None
}

/// No entry of the unit describes a variable with that name at a fixed address.
pub open spec fn is_without_global(debug: SectionsView, offset: usize, name: Seq<char>) -> bool {
    forall|i: int|
        0 <= i < unit_at(debug, offset).entries.entries.len() ==> !is_global(
            #[trigger] unit_at(debug, offset).entries.entries[i],
            debug.strings,
            unit_at(debug, offset).address_size,
            name,
        )
}

/// No entry of the unit describes a variable with that name.
pub open spec fn is_without_variable(debug: SectionsView, offset: usize, name: Seq<char>) -> bool {
    forall|i: int|
        0 <= i < unit_at(debug, offset).entries.entries.len() ==> !is_variable_called(
            #[trigger] unit_at(debug, offset).entries.entries[i],
            debug.strings,
            name,
        )
}

/// The unit at that offset can be read to its end and holds no variable with that name at a fixed
/// address.
pub open spec fn is_passed_over(debug: SectionsView, offset: usize, name: Seq<char>) -> bool {
    is_loaded(debug, offset) && is_without_global(debug, offset, name) && unit_at(
        debug,
        offset,
    ).entries.failure is None
}

/// The attributes of a unit's first entry count as readable exactly if eight times each index by
/// which one of them is given is in range.
pub proof fn lemma_root_fits(unit: UnitView)
    ensures
        unit.entries.entries.len() == 0 ==> dwarf_data::root_fits(unit),
        unit.entries.entries.len() > 0 ==> (dwarf_data::root_fits(unit) <==> forall|i: int|
            0 <= i < unit.entries.entries[0].indices.len() && (
            #[trigger] unit.entries.entries[0].indices[i]) is Some
                ==> unit.entries.entries[0].indices[i]->0 * 8 <= u64::MAX),
{
}

proof fn lemma_is_static(raw: RawEntryView, strings: Seq<u8>, address_size: u8, name: Seq<char>)
    ensures
        variable::is_static(entry::entry_of(raw, strings), name, address_size) <==> is_global(
            raw,
            strings,
            address_size,
            name,
        ),
        variable::is_variable(entry::entry_of(raw, strings), name) <==> is_variable_called(
            raw,
            strings,
            name,
        ),
{
    lemma_entry_name(raw, strings);
    lemma_address(raw, strings, address_size);
    assert(is_called(raw, strings, name) || !is_called(raw, strings, name));
    let r = variable::address_of(entry::entry_of(raw, strings), address_size);
    if r is Ok {
        assert(stands_at(raw, address_size, r->Ok_0));
    }
}

proof fn lemma_static_position(
    walk: EntriesView,
    strings: Seq<u8>,
    address_size: u8,
    name: Seq<char>,
    at: int,
)
    requires
        0 <= at <= walk.entries.len(),
        at < walk.entries.len() ==> is_global(walk.entries[at], strings, address_size, name),
        forall|i: int|
            0 <= i < at ==> !is_global(#[trigger] walk.entries[i], strings, address_size, name),
    ensures
        variable::static_at(entry::table_of(walk, strings).entries, name, address_size) == at,
{
    let views = entry::table_of(walk, strings).entries;
    assert forall|i: int| 0 <= i < at implies !variable::is_static(
        #[trigger] views[i],
        name,
        address_size,
    ) by {
        lemma_is_static(walk.entries[i], strings, address_size, name);
    }
    if at < walk.entries.len() {
        lemma_is_static(walk.entries[at], strings, address_size, name);
    }
    dwarf_parser::lemma_static_at(views, name, address_size, at);
}

proof fn lemma_variable_position(
    walk: EntriesView,
    strings: Seq<u8>,
    address_size: u8,
    name: Seq<char>,
    at: int,
)
    requires
        0 <= at <= walk.entries.len(),
        at < walk.entries.len() ==> is_variable_called(walk.entries[at], strings, name),
        forall|i: int|
            0 <= i < at ==> !is_variable_called(#[trigger] walk.entries[i], strings, name),
    ensures
        at == walk.entries.len() ==> variable::address_error(
            entry::table_of(walk, strings).entries,
            name,
            address_size,
        ) is None,
        at < walk.entries.len() && !is_global(walk.entries[at], strings, address_size, name)
            ==> variable::address_error(
            entry::table_of(walk, strings).entries,
            name,
            address_size,
        ) == Some(address_refusal(walk.entries[at].attrs[0x02])),
{
    let views = entry::table_of(walk, strings).entries;
    assert forall|i: int| 0 <= i < at implies !variable::is_variable(#[trigger] views[i], name) by {
        lemma_is_static(walk.entries[i], strings, address_size, name);
    }
    if at < walk.entries.len() {
        lemma_is_static(walk.entries[at], strings, address_size, name);
        lemma_address(walk.entries[at], strings, address_size);
    }
    variable::lemma_variable_at(views, name, at);
}

proof fn lemma_later_units(units: UnitsView)
    requires
        units.offsets.len() > 0,
    ensures
        dwarf_parser::later_units(units).failure == units.failure,
        dwarf_parser::later_units(units).offsets.len() == units.offsets.len() - 1,
        forall|j: int|
            0 <= j < units.offsets.len() - 1 ==> #[trigger] dwarf_parser::later_units(
                units,
            ).offsets[j] == units.offsets[j + 1],
{
}

/// The first variable with a name that stands at a fixed address is reported under that name: at
/// exactly the address that its location attribute gives, and with the type that its type
/// attribute leads to. Local variables and declarations in front of it are passed over.
pub proof fn lemma_variable_found(
    debug: SectionsView,
    units: UnitsView,
    name: Seq<char>,
    met: Option<ErrorView>,
    k: int,
    at: int,
    address: u64,
)
    requires
        0 <= k < units.offsets.len(),
        forall|j: int| 0 <= j < k ==> is_passed_over(debug, #[trigger] units.offsets[j], name),
        is_loaded(debug, units.offsets[k]),
        ({
            let unit = unit_at(debug, units.offsets[k]);
            let entries = unit.entries.entries;
            &&& 0 <= at < entries.len()
            &&& is_variable_called(entries[at], debug.strings, name)
            &&& stands_at(entries[at], unit.address_size, address)
            &&& forall|i: int|
                0 <= i < at ==> !is_global(
                    #[trigger] entries[i],
                    debug.strings,
                    unit.address_size,
                    name,
                )
        }),
    ensures
        ({
            let unit = unit_at(debug, units.offsets[k]);
            let found = dwarf_parser::variable_among(debug, units, name, met);
            match type_resolver::type_of(
                unit,
                debug.strings,
                unit.entries.entries[at].attrs[0x49],
            ) {
                None => found is None,
                Some(Err(error)) => found == Some(Err::<VariableView, ErrorView>(error)),
                Some(Ok(type_info)) => found == Some(
                    Ok::<VariableView, ErrorView>(VariableView { name, address, type_info }),
                ),
            }
        }),
    decreases k,
{
    let unit = unit_at(debug, units.offsets[0]);
    let walk = unit.entries;
    if k > 0 {
        let later = dwarf_parser::later_units(units);
        lemma_later_units(units);
        assert(is_passed_over(debug, units.offsets[0], name));
        lemma_static_position(
            walk,
            debug.strings,
            unit.address_size,
            name,
            walk.entries.len() as int,
        );
        let now = match met {
            Some(error) => Some(error),
            None => variable::address_error(
                entry::table_of(walk, debug.strings).entries,
                name,
                unit.address_size,
            ),
        };
        assert forall|j: int| 0 <= j < k - 1 implies is_passed_over(
            debug,
            #[trigger] later.offsets[j],
            name,
        ) by {
            assert(later.offsets[j] == units.offsets[j + 1]);
        }
        assert(later.offsets[k - 1] == units.offsets[k]);
        lemma_variable_found(debug, later, name, now, k - 1, at, address);
    } else {
        lemma_static_position(walk, debug.strings, unit.address_size, name, at);
        lemma_address(walk.entries[at], debug.strings, unit.address_size);
        lemma_entry_attributes(walk.entries[at], debug.strings);
    }
}

/// The search for a variable comes to an end at the unit `k`, or behind the last one, without one
/// that stands at a fixed address.
pub open spec fn ends_at(
    debug: SectionsView,
    units: UnitsView,
    name: Seq<char>,
    k: int,
) -> bool {
    &&& 0 <= k <= units.offsets.len()
    &&& forall|j: int| 0 <= j < k ==> is_passed_over(debug, #[trigger] units.offsets[j], name)
    &&& k < units.offsets.len() && is_loaded(debug, units.offsets[k]) ==> is_without_global(
        debug,
        units.offsets[k],
        name,
    ) && unit_at(debug, units.offsets[k]).entries.failure is Some
}

/// What ends a search that [`ends_at`] the unit `k`; nothing is reported where a unit's own
/// description is given by an index that is out of range.
pub open spec fn ending(
    debug: SectionsView,
    units: UnitsView,
    name: Seq<char>,
    k: int,
) -> Option<ErrorView> {
    if k == units.offsets.len() {
        match units.failure {
            Some(message) => Some(ErrorView::DwarfError(message)),
            None => Some(ErrorView::VariableNotFound(name)),
        }
    } else {
        let offset = units.offsets[k];
        match dwarf_data::opened_unit(debug.abbrev, debug.info, offset) {
            Err(message) => Some(ErrorView::DwarfError(message)),
            Ok(unit) => if !dwarf_data::root_fits(unit) {
                None
            } else {
                match dwarf_data::unit_refusal(
                    debug.abbrev,
                    debug.info,
                    debug.strings,
                    debug.line,
                    offset,
                ) {
                    Some(message) => Some(ErrorView::DwarfError(message)),
                    None => Some(ErrorView::DwarfError(unit.entries.failure->0)),
                }
            },
        }
    }
}

proof fn lemma_step_of_search(debug: SectionsView, units: UnitsView, name: Seq<char>, k: int)
    requires
        ends_at(debug, units, name, k),
        k > 0,
    ensures
        ends_at(debug, dwarf_parser::later_units(units), name, k - 1),
        ending(debug, dwarf_parser::later_units(units), name, k - 1) == ending(
            debug,
            units,
            name,
            k,
        ),
        is_passed_over(debug, units.offsets[0], name),
        variable::static_at(
            entry::table_of(unit_at(debug, units.offsets[0]).entries, debug.strings).entries,
            name,
            unit_at(debug, units.offsets[0]).address_size,
        ) == unit_at(debug, units.offsets[0]).entries.entries.len(),
{
    let later = dwarf_parser::later_units(units);
    let unit = unit_at(debug, units.offsets[0]);
    lemma_later_units(units);
    assert(is_passed_over(debug, units.offsets[0], name));
    assert forall|j: int| 0 <= j < k - 1 implies is_passed_over(
        debug,
        #[trigger] later.offsets[j],
        name,
    ) by {
        assert(later.offsets[j] == units.offsets[j + 1]);
    }
    if k < units.offsets.len() {
        assert(later.offsets[k - 1] == units.offsets[k]);
    }
    lemma_static_position(
        unit.entries,
        debug.strings,
        unit.address_size,
        name,
        unit.entries.entries.len() as int,
    );
}

/// What was met first is reported if nothing better is found.
pub proof fn lemma_met_is_reported(
    debug: SectionsView,
    units: UnitsView,
    name: Seq<char>,
    met: ErrorView,
    k: int,
)
    requires
        ends_at(debug, units, name, k),
    ensures
        dwarf_parser::variable_among(debug, units, name, Some(met)) == Some(
            Err::<VariableView, ErrorView>(met),
        ),
    decreases k,
{
    if k > 0 {
        lemma_step_of_search(debug, units, name, k);
        lemma_met_is_reported(debug, dwarf_parser::later_units(units), name, met, k - 1);
    } else if units.offsets.len() > 0 && is_loaded(debug, units.offsets[0]) {
        let unit = unit_at(debug, units.offsets[0]);
        lemma_static_position(
            unit.entries,
            debug.strings,
            unit.address_size,
            name,
            unit.entries.entries.len() as int,
        );
    }
}

/// A variable that no unit describes is not found; a unit that cannot be read is reported instead.
pub proof fn lemma_variable_missing(
    debug: SectionsView,
    units: UnitsView,
    name: Seq<char>,
    k: int,
)
    requires
        ends_at(debug, units, name, k),
        forall|j: int|
            0 <= j <= k && j < units.offsets.len() && is_loaded(debug, units.offsets[j])
                ==> is_without_variable(debug, #[trigger] units.offsets[j], name),
    ensures
        dwarf_parser::variable_among(debug, units, name, None) == match ending(
            debug,
            units,
            name,
            k,
        ) {
            Some(error) => Some(Err::<VariableView, ErrorView>(error)),
            None => None,
        },
    decreases k,
{
    if units.offsets.len() > 0 && is_loaded(debug, units.offsets[0]) {
        let unit = unit_at(debug, units.offsets[0]);
        assert(is_without_variable(debug, units.offsets[0], name));
        lemma_variable_position(
            unit.entries,
            debug.strings,
            unit.address_size,
            name,
            unit.entries.entries.len() as int,
        );
        lemma_static_position(
            unit.entries,
            debug.strings,
            unit.address_size,
            name,
            unit.entries.entries.len() as int,
        );
    }
    if k > 0 {
        let later = dwarf_parser::later_units(units);
        lemma_step_of_search(debug, units, name, k);
        lemma_later_units(units);
        assert forall|j: int|
            0 <= j <= k - 1 && j < later.offsets.len() && is_loaded(
                debug,
                later.offsets[j],
            ) implies is_without_variable(debug, #[trigger] later.offsets[j], name) by {
            assert(later.offsets[j] == units.offsets[j + 1]);
        }
        lemma_variable_missing(debug, later, name, k - 1);
    }
}

/// A variable of which no entry gives an address is refused with the reason of the first entry
/// that describes it.
pub proof fn lemma_variable_without_address(
    debug: SectionsView,
    units: UnitsView,
    name: Seq<char>,
    k: int,
    u: int,
    at: int,
)
    requires
        ends_at(debug, units, name, k),
        0 <= u <= k,
        u < units.offsets.len(),
        is_loaded(debug, units.offsets[u]),
        forall|j: int| 0 <= j < u ==> is_without_variable(debug, #[trigger] units.offsets[j], name),
        0 <= at < unit_at(debug, units.offsets[u]).entries.entries.len(),
        is_variable_called(
            unit_at(debug, units.offsets[u]).entries.entries[at],
            debug.strings,
            name,
        ),
        forall|i: int|
            0 <= i < at ==> !is_variable_called(
                #[trigger] unit_at(debug, units.offsets[u]).entries.entries[i],
                debug.strings,
                name,
            ),
    ensures
        dwarf_parser::variable_among(debug, units, name, None) == Some(
            Err::<VariableView, ErrorView>(
                address_refusal(
                    unit_at(debug, units.offsets[u]).entries.entries[at].attrs[0x02],
                ),
            ),
        ),
    decreases u,
{
    let later = dwarf_parser::later_units(units);
    let unit = unit_at(debug, units.offsets[0]);
    lemma_later_units(units);
    if k > 0 {
        lemma_step_of_search(debug, units, name, k);
    } else {
        lemma_static_position(
            unit.entries,
            debug.strings,
            unit.address_size,
            name,
            unit.entries.entries.len() as int,
        );
    }
    if u > 0 {
        assert(is_without_variable(debug, units.offsets[0], name));
        lemma_variable_position(
            unit.entries,
            debug.strings,
            unit.address_size,
            name,
            unit.entries.entries.len() as int,
        );
        assert forall|j: int| 0 <= j < u - 1 implies is_without_variable(
            debug,
            #[trigger] later.offsets[j],
            name,
        ) by {
            assert(later.offsets[j] == units.offsets[j + 1]);
        }
        assert(later.offsets[u - 1] == units.offsets[u]);
        lemma_variable_without_address(debug, later, name, k - 1, u - 1, at);
    } else {
        assert(!is_global(
            unit.entries.entries[at],
            debug.strings,
            unit.address_size,
            name,
        ));
        lemma_variable_position(unit.entries, debug.strings, unit.address_size, name, at);
        if k > 0 {
            lemma_met_is_reported(
                debug,
                later,
                name,
                address_refusal(unit.entries.entries[at].attrs[0x02]),
                k - 1,
            );
        }
    }
}

/// A variable that is reported is described by an entry: it carries the entry's name, and stands at
/// exactly the address that the entry's location attribute gives.
pub proof fn lemma_reported_variable(
    debug: SectionsView,
    units: UnitsView,
    name: Seq<char>,
    met: Option<ErrorView>,
)
    ensures
        dwarf_parser::variable_among(debug, units, name, met) matches Some(Ok(found))
            ==> found.name == name && exists|k: int, at: int|
            0 <= k < units.offsets.len() && 0 <= at < unit_at(
                debug,
                units.offsets[k],
            ).entries.entries.len() && is_variable_called(
                #[trigger] unit_at(debug, units.offsets[k]).entries.entries[at],
                debug.strings,
                name,
            ) && stands_at(
                unit_at(debug, units.offsets[k]).entries.entries[at],
                unit_at(debug, units.offsets[k]).address_size,
                found.address,
            ),
    decreases units.offsets.len(),
{
    if let Some(Ok(found)) = dwarf_parser::variable_among(debug, units, name, met) {
        let unit = unit_at(debug, units.offsets[0]);
        let walk = unit.entries;
        let views = entry::table_of(walk, debug.strings).entries;
        let at = variable::static_at(views, name, unit.address_size);
        lemma_static_within(views, name, unit.address_size);
        if at < views.len() {
            lemma_is_static(walk.entries[at], debug.strings, unit.address_size, name);
            lemma_address(walk.entries[at], debug.strings, unit.address_size);
            assert(is_variable_called(
                unit_at(debug, units.offsets[0]).entries.entries[at],
                debug.strings,
                name,
            ));
        } else {
            let later = dwarf_parser::later_units(units);
            let now = match met {
                Some(error) => Some(error),
                None => variable::address_error(views, name, unit.address_size),
            };
            lemma_later_units(units);
            lemma_reported_variable(debug, later, name, now);
            let (k, at) = choose|k: int, at: int|
                0 <= k < later.offsets.len() && 0 <= at < unit_at(
                    debug,
                    later.offsets[k],
                ).entries.entries.len() && is_variable_called(
                    #[trigger] unit_at(debug, later.offsets[k]).entries.entries[at],
                    debug.strings,
                    name,
                ) && stands_at(
                    unit_at(debug, later.offsets[k]).entries.entries[at],
                    unit_at(debug, later.offsets[k]).address_size,
                    found.address,
                );
            assert(later.offsets[k] == units.offsets[k + 1]);
            assert(is_variable_called(
                unit_at(debug, units.offsets[k + 1]).entries.entries[at],
                debug.strings,
                name,
            ));
        }
    }
}

proof fn lemma_static_within(entries: Seq<EntryView>, name: Seq<char>, address_size: u8)
    ensures
        0 <= variable::static_at(entries, name, address_size) <= entries.len(),
        variable::static_at(entries, name, address_size) < entries.len() ==> variable::is_static(
            entries[variable::static_at(entries, name, address_size)],
            name,
            address_size,
        ),
    decreases entries.len(),
{
    if entries.len() > 0 && !variable::is_static(entries[0], name, address_size) {
        lemma_static_within(entries.drop_first(), name, address_size);
    }
}

/// The view of a variable has its name, its address and its type.
pub proof fn lemma_variable_view(var: VariableInfo)
    ensures
        var@.name == var.name@,
        var@.address == var.address,
        var@.type_info == var.type_info@,
{
}

} // verus!
