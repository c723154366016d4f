//! The structures and variables that an image's debug information describes.

use crate::error;
use crate::error::DebugError;
use crate::error::ErrorView;
use crate::parser::dwarf_data;
use crate::parser::dwarf_data::AttrRead;
use crate::parser::dwarf_data::AttrValue;
use crate::parser::dwarf_data::DebugSections;
use crate::parser::dwarf_data::DwarfData;
use crate::parser::dwarf_data::SectionsView;
use crate::parser::dwarf_data::UnitEntries;
use crate::parser::dwarf_data::UnitView;
use crate::parser::dwarf_data::UnitsView;
use crate::parser::dwarf_data::DW_OP_ADDR;
use crate::parser::entry;
use crate::parser::entry::Entry;
use crate::parser::entry::EntryTable;
use crate::parser::entry::EntryView;
use crate::parser::layout;
use crate::parser::layout::LayoutView;
use crate::parser::layout::StructInfo;
use crate::parser::layout::StructInfoView;
use crate::parser::layout::StructLayout;
use crate::parser::type_resolver;
use crate::parser::variable;
use crate::parser::variable::VariableInfo;
use crate::parser::variable::VariableView;
use crate::rtt::elf_parser::CachedElf;
use crate::rtt::object_file;
use crate::rtt::object_file::SectionRecord;
use crate::rtt::object_file::SectionView;
use crate::text::same_text;
use vstd::prelude::*;

verus! {

// -----------------------------------------------------------------------------------------
// Sections
// -----------------------------------------------------------------------------------------

/// The bytes of the first section with the given name.
pub open spec fn section_data(sections: Seq<SectionView>, name: Seq<char>) -> Result<
    Seq<u8>,
    ErrorView,
>
    decreases sections.len(),
{
    if sections.len() == 0 {
        Err(ErrorView::DwarfError("Section "@ + name + " not found"@))
    } else if sections[0].name == Some(name) {
        match sections[0].data {
            Ok(bytes) => Ok(bytes),
            Err(message) => Err(ErrorView::DwarfError(message)),
        }
    } else {
        section_data(sections.drop_first(), name)
    }
}

/// The bytes of a section, none if the section is missing or unreadable.
pub open spec fn bytes_or_none(data: Result<Seq<u8>, ErrorView>) -> Seq<u8> {
    match data {
        Ok(bytes) => bytes,
        Err(_) => Seq::empty(),
    }
}

/// The sections that debug information is read from. The abbreviation and unit sections are
/// indispensable; without the other two there are no texts and no line numbers.
pub open spec fn debug_sections_of(sections: Seq<SectionView>) -> Result<SectionsView, ErrorView> {
    match section_data(sections, ".debug_abbrev"@) {
        Err(error) => Err(error),
        Ok(abbrev) => match section_data(sections, ".debug_info"@) {
            Err(error) => Err(error),
            Ok(info) => Ok(
                SectionsView {
                    abbrev,
                    info,
                    strings: bytes_or_none(section_data(sections, ".debug_str"@)),
                    line: bytes_or_none(section_data(sections, ".debug_line"@)),
                },
            ),
        },
    }
}

/// The bytes of the first section with the given name.
pub fn find_section(sections: &Vec<SectionRecord>, name: &str) -> (r: Result<
    &'static [u8],
    DebugError,
>)
    ensures
        match (r, section_data(object_file::section_views(sections@), name@)) {
            (Ok(bytes), Ok(expected)) => bytes@ == expected,
            (Err(error), Err(expected)) => error@ == expected,
            _ => false,
        },
{
    let ghost views = object_file::section_views(sections@);
    let mut i: usize = 0;
    assert(views.skip(0) == views);
    while i < sections.len()
        invariant
            i <= sections@.len(),
            views == object_file::section_views(sections@),
            section_data(views.skip(i as int), name@) == section_data(views, name@),
        decreases sections@.len() - i,
    {
        let section = &sections[i];
        assert(views.skip(i as int)[0] == section@);
        assert(views.skip(i as int).drop_first() == views.skip(i + 1));
        if let Some(section_name) = &section.name {
            if same_text(section_name.as_str(), name) {
                return match &section.data {
                    Ok(bytes) => Ok(*bytes),
                    Err(message) => Err(DebugError::DwarfError(message.clone())),
                };
            }
        }
        i = i + 1;
    }
    let mut message = "Section ".to_owned();
    message.append(name);
    message.append(" not found");
    Err(DebugError::DwarfError(message))
}

fn bytes_or_empty(data: Result<&'static [u8], DebugError>) -> (bytes: &'static [u8])
    ensures
        data matches Ok(b) ==> bytes == b,
        data is Err ==> bytes@ == Seq::<u8>::empty(),
{
    match data {
        Ok(bytes) => bytes,
        Err(_) => {
            let empty: &'static [u8] = &[];
            empty
        },
    }
}

/// The sections that debug information is read from.
pub fn debug_sections(sections: &Vec<SectionRecord>) -> (r: Result<DebugSections, DebugError>)
    ensures
        error::outcome(r) == debug_sections_of(object_file::section_views(sections@)),
{
    let abbrev = match find_section(sections, ".debug_abbrev") {
        Ok(bytes) => bytes,
        Err(error) => {
            return Err(error);
        },
    };
    let info = match find_section(sections, ".debug_info") {
        Ok(bytes) => bytes,
        Err(error) => {
            return Err(error);
        },
    };
    let strings = bytes_or_empty(find_section(sections, ".debug_str"));
    let line = bytes_or_empty(find_section(sections, ".debug_line"));
    Ok(DebugSections { abbrev, info, strings, line })
}

/// Prepares the image's debug information for reading.
pub fn load_dwarf_data(cached: &CachedElf) -> (r: Result<DwarfData, DebugError>)
    ensures
        match (r, debug_sections_of(cached.image().sections)) {
            (Ok(dwarf), Ok(sections)) => dwarf_data::sections_of(dwarf) == sections,
            (Err(error), Err(expected)) => error@ == expected,
            _ => false,
        },
{
    match debug_sections(&cached.file().sections()) {
        Ok(sections) => Ok(dwarf_data::load_sections(&sections)),
        Err(error) => Err(error),
    }
}

// -----------------------------------------------------------------------------------------
// Structures
// -----------------------------------------------------------------------------------------

/// The units behind the first.
pub open spec fn later_units(units: UnitsView) -> UnitsView {
    UnitsView { offsets: units.offsets.drop_first(), failure: units.failure }
}

/// The layout of the structure with that name: what the first unit that tells anything about
/// it tells.
pub open spec fn layout_among(sections: SectionsView, units: UnitsView, name: Seq<char>) -> Result<
    LayoutView,
    ErrorView,
>
    decreases units.offsets.len(),
{
    if units.offsets.len() == 0 {
        match units.failure {
            Some(message) => Err(ErrorView::DwarfError(message)),
            None => Err(ErrorView::StructNotFound(name)),
        }
    } else {
        match dwarf_data::opened_unit(sections.abbrev, sections.info, units.offsets[0]) {
            Err(message) => Err(ErrorView::DwarfError(message)),
            Ok(unit) => match layout::layout_in(
                entry::table_of(unit.entries, sections.strings),
                name,
            ) {
                Some(found) => found,
                None => layout_among(sections, later_units(units), name),
            },
        }
    }
}

/// What [`get_struct_layout`] reports.
pub open spec fn layout_outcome(sections: Seq<SectionView>, name: Seq<char>) -> Result<
    LayoutView,
    ErrorView,
> {
    match debug_sections_of(sections) {
        Err(error) => Err(error),
        Ok(debug) => layout_among(debug, dwarf_data::units_in(debug.info), name),
    }
}

/// The layout of the structure with that name, from the first unit that describes it.
pub fn get_struct_layout(cached: &CachedElf, struct_name: &str) -> (r: Result<
    StructLayout,
    DebugError,
>)
    ensures
        error::outcome(r) == layout_outcome(cached.image().sections, struct_name@),
{
    let dwarf = match load_dwarf_data(cached) {
        Ok(dwarf) => dwarf,
        Err(error) => {
            return Err(error);
        },
    };
    let ghost sections = dwarf_data::sections_of(dwarf);
    let ghost expected = layout_outcome(cached.image().sections, struct_name@);
    let mut units = dwarf.units();
    loop
        invariant
            expected == layout_outcome(cached.image().sections, struct_name@),
            sections == dwarf_data::sections_of(dwarf),
            expected == layout_among(sections, dwarf_data::units_ahead(units), struct_name@),
        decreases dwarf_data::units_ahead(units).offsets.len(),
    {
        let offset: usize = match units.next() {
            Err(message) => {
                return Err(DebugError::DwarfError(message));
            },
            Ok(None) => {
                return Err(DebugError::StructNotFound(struct_name.to_owned()));
            },
            Ok(Some(offset)) => offset,
        };
        match dwarf.open_unit(offset) {
            Err(message) => {
                return Err(DebugError::DwarfError(message));
            },
            Ok(unit) => {
                let table = entry::read_table(unit.entries(), &dwarf);
                if let Some(found) = layout::find_layout(&table, struct_name) {
                    return found;
                }
            },
        }
    }
}

/// Where the member of that name stands in the structure of that name.
pub fn get_struct_member_offset(cached: &CachedElf, struct_name: &str, member_name: &str) -> (r:
    Result<u64, DebugError>)
    ensures
        error::outcome(r) == layout::offset_outcome(
            layout_outcome(cached.image().sections, struct_name@),
            struct_name@,
            member_name@,
        ),
{
    layout::find_member_offset(get_struct_layout(cached, struct_name), struct_name, member_name)
}

/// The named structures of every unit, in order; an error if any of it cannot be read.
pub open spec fn structs_among(sections: SectionsView, units: UnitsView) -> Result<
    Seq<StructInfoView>,
    ErrorView,
>
    decreases units.offsets.len(),
{
    if units.offsets.len() == 0 {
        match units.failure {
            Some(message) => Err(ErrorView::DwarfError(message)),
            None => Ok(Seq::empty()),
        }
    } else {
        match dwarf_data::opened_unit(sections.abbrev, sections.info, units.offsets[0]) {
            Err(message) => Err(ErrorView::DwarfError(message)),
            Ok(unit) => match unit.entries.failure {
                Some(message) => Err(ErrorView::DwarfError(message)),
                None => match structs_among(sections, later_units(units)) {
                    Err(error) => Err(error),
                    Ok(more) => Ok(
                        layout::structs_in(
                            entry::table_of(unit.entries, sections.strings).entries,
                        ) + more,
                    ),
                },
            },
        }
    }
}

/// What [`list_structs`] reports.
pub open spec fn structs_outcome(sections: Seq<SectionView>) -> Result<
    Seq<StructInfoView>,
    ErrorView,
> {
    match debug_sections_of(sections) {
        Err(error) => Err(error),
        Ok(debug) => structs_among(debug, dwarf_data::units_in(debug.info)),
    }
}

/// Adds the named structures of one unit to a listing, unless the unit cannot be read.
pub fn list_unit(table: &EntryTable, structs: &mut Vec<StructInfo>) -> (r: Result<(), DebugError>)
    ensures
        match table@.failure {
            Some(message) => final(structs)@ == old(structs)@ && (r matches Err(error) && error@
                == ErrorView::DwarfError(message)),
            None => r is Ok && layout::struct_views(final(structs)@) == layout::struct_views(
                old(structs)@,
            ) + layout::structs_in(table@.entries),
        },
{
    match &table.failure {
        Some(message) => Err(DebugError::DwarfError(message.clone())),
        None => {
            let ghost before = structs@;
            let mut found = layout::collect_structs(&table.entries);
            let ghost added = found@;
            structs.append(&mut found);
            assert(layout::struct_views(before + added) == layout::struct_views(before)
                + layout::struct_views(added));
            Ok(())
        },
    }
}

/// The structures that the image's debug information names, in order.
pub fn list_structs(cached: &CachedElf) -> (r: Result<Vec<StructInfo>, DebugError>)
    ensures
        match (r, structs_outcome(cached.image().sections)) {
            (Ok(structs), Ok(expected)) => layout::struct_views(structs@) == expected,
            (Err(error), Err(expected)) => error@ == expected,
            _ => false,
        },
{
    let dwarf = match load_dwarf_data(cached) {
        Ok(dwarf) => dwarf,
        Err(error) => {
            return Err(error);
        },
    };
    let ghost sections = dwarf_data::sections_of(dwarf);
    let mut structs: Vec<StructInfo> = Vec::new();
    let mut units = dwarf.units();
    proof {
        let first = structs_among(sections, dwarf_data::units_ahead(units));
        if first is Ok {
            assert(layout::struct_views(structs@) + first->Ok_0 == first->Ok_0);
        }
    }
    loop
        invariant
            sections == dwarf_data::sections_of(dwarf),
            structs_outcome(cached.image().sections) == (match structs_among(
                sections,
                dwarf_data::units_ahead(units),
            ) {
                Ok(more) => Ok::<Seq<StructInfoView>, ErrorView>(
                    layout::struct_views(structs@) + more,
                ),
                Err(error) => Err(error),
            }),
        decreases dwarf_data::units_ahead(units).offsets.len(),
    {
        let ghost ahead = dwarf_data::units_ahead(units);
        let offset: usize = match units.next() {
            Err(message) => {
                return Err(DebugError::DwarfError(message));
            },
            Ok(None) => {
                assert(layout::struct_views(structs@) + Seq::<StructInfoView>::empty()
                    == layout::struct_views(structs@));
                return Ok(structs);
            },
            Ok(Some(offset)) => offset,
        };
        match dwarf.open_unit(offset) {
            Err(message) => {
                return Err(DebugError::DwarfError(message));
            },
            Ok(unit) => {
                let ghost before = layout::struct_views(structs@);
                let table = entry::read_table(unit.entries(), &dwarf);
                if let Err(error) = list_unit(&table, &mut structs) {
                    return Err(error);
                }
                proof {
                    if let Ok(more) = structs_among(sections, later_units(ahead)) {
                        assert(layout::struct_views(structs@) + more == before + (
                        layout::structs_in(table@.entries) + more));
                    }
                }
            },
        }
    }
}

// -----------------------------------------------------------------------------------------
// Variables
// -----------------------------------------------------------------------------------------

/// What a unit tells about a variable, given the variable's entry; `None` if the variable's type
/// is not defined: its references run in a circle, or an array is larger than can be counted.
pub open spec fn variable_of(
    unit: UnitView,
    strings: Seq<u8>,
    e: EntryView,
    name: Seq<char>,
) -> Option<Result<VariableView, ErrorView>> {
    match variable::address_of(e, unit.address_size) {
        Err(error) => Some(Err(error)),
        Ok(address) => match type_resolver::type_of(unit, strings, e.type_ref) {
            None => None,
            Some(Err(error)) => Some(Err(error)),
            Some(Ok(type_info)) => Some(Ok(VariableView { name, address, type_info })),
        },
    }
}

/// The first error that was met, if any, and otherwise the other one.
pub open spec fn first_error(met: Option<ErrorView>, other: ErrorView) -> ErrorView {
    match met {
        Some(error) => error,
        None => other,
    }
}

/// The variable with that name: the first that stands at a fixed address. Without one, `met` is
/// reported, which is why the first variable with that name met so far does not, or else what
/// ends the search. `None` if the variable's type is not defined, or if a unit comes first whose
/// own description is given by an index whose position cannot be computed.
pub open spec fn variable_among(
    sections: SectionsView,
    units: UnitsView,
    name: Seq<char>,
    met: Option<ErrorView>,
) -> Option<Result<VariableView, ErrorView>>
    decreases units.offsets.len(), 1nat,
{
    if units.offsets.len() == 0 {
        match units.failure {
            Some(message) => Some(Err(first_error(met, ErrorView::DwarfError(message)))),
            None => Some(Err(first_error(met, ErrorView::VariableNotFound(name)))),
        }
    } else {
        let offset = units.offsets[0];
        match dwarf_data::opened_unit(sections.abbrev, sections.info, offset) {
            Err(message) => Some(Err(first_error(met, ErrorView::DwarfError(message)))),
            Ok(unit) => if !dwarf_data::root_fits(unit) {
                match met {
                    Some(error) => Some(Err(error)),
                    None => None,
                }
            } else {
                match dwarf_data::unit_refusal(
                    sections.abbrev,
                    sections.info,
                    sections.strings,
                    sections.line,
                    offset,
                ) {
                    Some(message) => Some(Err(first_error(met, ErrorView::DwarfError(message)))),
                    None => variable_from(sections, units, unit, name, met),
                }
            },
        }
    }
}

/// What [`variable_among`] comes to from a unit that can be read.
pub open spec fn variable_from(
    sections: SectionsView,
    units: UnitsView,
    unit: UnitView,
    name: Seq<char>,
    met: Option<ErrorView>,
) -> Option<Result<VariableView, ErrorView>>
    decreases units.offsets.len(), 0nat,
    when units.offsets.len() > 0
{
    let table = entry::table_of(unit.entries, sections.strings);
    let at = variable::static_at(table.entries, name, unit.address_size);
    if at < table.entries.len() {
        variable_of(unit, sections.strings, table.entries[at], name)
    } else {
        let now = match met {
            Some(error) => Some(error),
            None => variable::address_error(table.entries, name, unit.address_size),
        };
        match table.failure {
            Some(message) => Some(Err(first_error(now, ErrorView::DwarfError(message)))),
            None => variable_among(sections, later_units(units), name, now),
        }
    }
}

/// What [`get_variable_info`] reports; `None` as in [`variable_among`].
pub open spec fn variable_outcome(sections: Seq<SectionView>, name: Seq<char>) -> Option<
    Result<VariableView, ErrorView>,
> {
    match debug_sections_of(sections) {
        Err(error) => Some(Err(error)),
        Ok(debug) => variable_among(debug, dwarf_data::units_in(debug.info), name, None),
    }
}

/// Where the expression of a location attribute says that a variable stands.
fn locate(unit: &UnitEntries, location: &AttrRead) -> (r: Result<u64, DebugError>)
    ensures
        error::outcome(r) == variable::address_given(
            dwarf_data::read_view(*location),
            variable::leading_of(
                dwarf_data::read_view(*location),
                dwarf_data::unit_of(*unit).address_size,
            ),
        ),
{
    let leading: Option<u64> = match location {
        Ok(Some(AttrValue::Exprloc(expression))) => {
            if expression.len() > 0 && expression[0] == DW_OP_ADDR {
                unit.first_address(expression.as_slice())
            } else {
                None
            }
        },
        _ => None,
    };
    variable::get_variable_address(location, leading)
}

pub(crate) proof fn lemma_static_at(entries: Seq<EntryView>, name: Seq<char>, address_size: u8, at: int)
    requires
        0 <= at <= entries.len(),
        forall|i: int|
            0 <= i < at ==> !variable::is_static(#[trigger] entries[i], name, address_size),
        at < entries.len() ==> variable::is_static(entries[at], name, address_size),
    ensures
        variable::static_at(entries, name, address_size) == at,
    decreases entries.len(),
{
    if at > 0 {
        let rest = entries.drop_first();
        assert(!variable::is_static(entries[0], name, address_size));
        assert forall|i: int| 0 <= i < at - 1 implies !variable::is_static(
            #[trigger] rest[i],
            name,
            address_size,
        ) by {
            assert(rest[i] == entries[i + 1]);
        }
        lemma_static_at(rest, name, address_size, at - 1);
    }
}

fn find_static(unit: &UnitEntries, entries: &Vec<Entry>, name: &str) -> (at: usize)
    ensures
        at <= entries@.len(),
        at == variable::static_at(
            entry::entry_views(entries@),
            name@,
            dwarf_data::unit_of(*unit).address_size,
        ),
{
    let ghost views = entry::entry_views(entries@);
    let ghost size = dwarf_data::unit_of(*unit).address_size;
    let mut at: usize = 0;
    while at < entries.len()
        invariant
            at <= entries@.len(),
            views == entry::entry_views(entries@),
            size == dwarf_data::unit_of(*unit).address_size,
            forall|i: int| 0 <= i < at ==> !variable::is_static(#[trigger] views[i], name@, size),
        decreases entries@.len() - at,
    {
        assert(views[at as int] == entries@[at as int]@);
        if entries[at].tag == entry::DW_TAG_VARIABLE {
            if let Some(text) = &entries[at].name {
                if same_text(text.as_str(), name) {
                    if locate(unit, &entries[at].location).is_ok() {
                        proof {
                            lemma_static_at(views, name@, size, at as int);
                        }
                        return at;
                    }
                }
            }
        }
        at = at + 1;
    }
    proof {
        lemma_static_at(views, name@, size, at as int);
    }
    at
}

fn find_address_error(unit: &UnitEntries, entries: &Vec<Entry>, name: &str) -> (found: Option<
    DebugError,
>)
    ensures
        error_view(found) == variable::address_error(
            entry::entry_views(entries@),
            name@,
            dwarf_data::unit_of(*unit).address_size,
        ),
{
    let at: usize = variable::find_variable(entries, name);
    if at < entries.len() {
        assert(entry::entry_views(entries@)[at as int] == entries@[at as int]@);
        match locate(unit, &entries[at].location) {
            Ok(_) => None,
            Err(error) => Some(error),
        }
    } else {
        None
    }
}

/// Whether the walk over a unit's entries starts with one whose indices all have positions that
/// can be computed.
fn has_fitting_root(unit: &UnitEntries) -> (r: bool)
    ensures
        r == dwarf_data::root_fits(dwarf_data::unit_of(*unit)),
{
    let mut cursor = unit.entries();
    if let Ok(Some(_)) = cursor.next_dfs() {
        let ghost indices = dwarf_data::current_entry(cursor)->0.indices;
        let mut attrs = cursor.attrs();
        let ghost mut n: int = 0;
        assert(indices.skip(0) == indices);
        loop
            invariant
                0 <= n <= indices.len(),
                dwarf_data::unit_of(*unit).entries.entries.len() > 0,
                indices == dwarf_data::unit_of(*unit).entries.entries[0].indices,
                dwarf_data::indices_ahead(attrs) == indices.skip(n),
                forall|i: int|
                    0 <= i < n ==> ((#[trigger] indices[i]) matches Some(index) ==> index * 8
                        <= u64::MAX),
            decreases indices.len() - n,
        {
            match attrs.next() {
                Some(index) => {
                    assert(indices.skip(n)[0] == indices[n]);
                    assert(indices.skip(n).drop_first() == indices.skip(n + 1));
                    if let Some(index) = index {
                        if (index as u64).checked_mul(8).is_none() {
                            return false;
                        }
                    }
                    proof {
                        n = n + 1;
                    }
                },
                None => {
                    return true;
                },
            }
        }
    }
    true
}

spec fn error_view(error: Option<DebugError>) -> Option<ErrorView> {
    match error {
        Some(error) => Some(error@),
        None => None,
    }
}

fn first_or(met: Option<DebugError>, other: DebugError) -> (error: DebugError)
    ensures
        error@ == first_error(error_view(met), other@),
{
    match met {
        Some(error) => error,
        None => other,
    }
}

spec fn lookup_outcome(r: Option<Result<VariableInfo, DebugError>>) -> Option<
    Result<VariableView, ErrorView>,
> {
    match r {
        Some(result) => Some(error::outcome(result)),
        None => None,
    }
}

fn describe_variable(unit: &UnitEntries, dwarf: &DwarfData, e: &Entry, name: &str) -> (r: Option<
    Result<VariableInfo, DebugError>,
>)
    ensures
        lookup_outcome(r) == variable_of(
            dwarf_data::unit_of(*unit),
            dwarf_data::sections_of(*dwarf).strings,
            e@,
            name@,
        ),
{
    let address: u64 = match locate(unit, &e.location) {
        Ok(address) => address,
        Err(error) => {
            return Some(Err(error));
        },
    };
    match type_resolver::resolve_type_from_entry(unit, dwarf, &e.type_ref) {
        Some(Ok(type_info)) => Some(
            Ok(VariableInfo { name: name.to_owned(), address, type_info }),
        ),
        Some(Err(error)) => Some(Err(error)),
        None => None,
    }
}

fn search_variable(dwarf: &DwarfData, var_name: &str) -> (r: Option<
    Result<VariableInfo, DebugError>,
>)
    ensures
        lookup_outcome(r) == variable_among(
            dwarf_data::sections_of(*dwarf),
            dwarf_data::units_in(dwarf_data::sections_of(*dwarf).info),
            var_name@,
            None,
        ),
{
    let ghost sections = dwarf_data::sections_of(*dwarf);
    let ghost expected = variable_among(
        sections,
        dwarf_data::units_in(sections.info),
        var_name@,
        None,
    );
    let mut met: Option<DebugError> = None;
    let mut units = dwarf.units();
    loop
        invariant
            sections == dwarf_data::sections_of(*dwarf),
            expected == variable_among(
                sections,
                dwarf_data::units_in(sections.info),
                var_name@,
                None,
            ),
            expected == variable_among(
                sections,
                dwarf_data::units_ahead(units),
                var_name@,
                error_view(met),
            ),
        decreases dwarf_data::units_ahead(units).offsets.len(),
    {
        let offset: usize = match units.next() {
            Err(message) => {
                return Some(Err(first_or(met, DebugError::DwarfError(message))));
            },
            Ok(None) => {
                return Some(
                    Err(first_or(met, DebugError::VariableNotFound(var_name.to_owned()))),
                );
            },
            Ok(Some(offset)) => offset,
        };
        match dwarf.open_unit(offset) {
            Err(message) => {
                return Some(Err(first_or(met, DebugError::DwarfError(message))));
            },
            Ok(unit) => {
                if !has_fitting_root(&unit) {
                    return match met {
                        Some(error) => Some(Err(error)),
                        None => None,
                    };
                }
            },
        }
        match dwarf.load_unit(offset) {
            Err(message) => {
                return Some(Err(first_or(met, DebugError::DwarfError(message))));
            },
            Ok(unit) => {
                let table = entry::read_table(unit.entries(), dwarf);
                let at: usize = find_static(&unit, &table.entries, var_name);
                if at < table.entries.len() {
                    assert(table@.entries[at as int] == table.entries@[at as int]@);
                    return describe_variable(&unit, dwarf, &table.entries[at], var_name);
                }
                if met.is_none() {
                    met = find_address_error(&unit, &table.entries, var_name);
                }
                if let Some(message) = table.failure {
                    return Some(Err(first_or(met, DebugError::DwarfError(message))));
                }
            },
        }
    }
}

fn look_up_variable(cached: &CachedElf, var_name: &str) -> (r: Option<
    Result<VariableInfo, DebugError>,
>)
    ensures
        lookup_outcome(r) == variable_outcome(cached.image().sections, var_name@),
{
    match load_dwarf_data(cached) {
        Ok(dwarf) => search_variable(&dwarf, var_name),
        Err(error) => Some(Err(error)),
    }
}

/// The global or static variable with that name: the first that stands at a fixed address.
pub fn get_variable_info(cached: &CachedElf, var_name: &str) -> (r: Result<
    VariableInfo,
    DebugError,
>)
    requires
        variable_outcome(cached.image().sections, var_name@) is Some,
    ensures
        variable_outcome(cached.image().sections, var_name@) == Some(error::outcome(r)),
{
    look_up_variable(cached, var_name).unwrap()
}

/// Whether [`get_variable_info`] can be asked for the variable with that name.
pub fn is_describable(cached: &CachedElf, var_name: &str) -> (r: bool)
    ensures
        r == variable_outcome(cached.image().sections, var_name@) is Some,
{
    look_up_variable(cached, var_name).is_some()
}

/// The global or static variable with that name: the first that stands at a fixed address.
/// `None` if its type is not defined, or if a unit comes first whose own description is given by
/// an index whose position cannot be computed.
pub fn checked_get_variable_info(cached: &CachedElf, var_name: &str) -> (r: Option<
    Result<VariableInfo, DebugError>,
>)
    ensures
        match (r, variable_outcome(cached.image().sections, var_name@)) {
            (Some(found), Some(expected)) => error::outcome(found) == expected,
            (None, None) => true,
            _ => false,
        },
{
    if is_describable(cached, var_name) {
        Some(get_variable_info(cached, var_name))
    } else {
        None
    }
}

} // verus!
