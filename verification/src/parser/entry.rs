//! Debugging information entries as plain records, and the tables that a unit's entries make.

use crate::parser::dwarf_data;
use crate::parser::dwarf_data::AttrRead;
use crate::parser::dwarf_data::AttrReadView;
use crate::parser::dwarf_data::AttrValue;
use crate::parser::dwarf_data::AttrView;
use crate::parser::dwarf_data::DwarfData;
use crate::parser::dwarf_data::EntriesView;
use crate::parser::dwarf_data::EntryCursor;
use crate::parser::dwarf_data::RawEntryView;
use crate::rtt::object_file;
use vstd::prelude::*;

verus! {

pub const DW_TAG_ARRAY_TYPE: u16 = 0x01;

pub const DW_TAG_ENUMERATION_TYPE: u16 = 0x04;

pub const DW_TAG_MEMBER: u16 = 0x0d;

pub const DW_TAG_POINTER_TYPE: u16 = 0x0f;

pub const DW_TAG_STRUCTURE_TYPE: u16 = 0x13;

pub const DW_TAG_TYPEDEF: u16 = 0x16;

pub const DW_TAG_SUBRANGE_TYPE: u16 = 0x21;

pub const DW_TAG_BASE_TYPE: u16 = 0x24;

pub const DW_TAG_CONST_TYPE: u16 = 0x26;

pub const DW_TAG_ENUMERATOR: u16 = 0x28;

pub const DW_TAG_VARIABLE: u16 = 0x34;

pub const DW_TAG_VOLATILE_TYPE: u16 = 0x35;

pub const DW_AT_LOCATION: u16 = 0x02;

pub const DW_AT_NAME: u16 = 0x03;

pub const DW_AT_BYTE_SIZE: u16 = 0x0b;

pub const DW_AT_CONST_VALUE: u16 = 0x1c;

pub const DW_AT_LOWER_BOUND: u16 = 0x22;

pub const DW_AT_UPPER_BOUND: u16 = 0x2f;

pub const DW_AT_COUNT: u16 = 0x37;

pub const DW_AT_DATA_MEMBER_LOCATION: u16 = 0x38;

pub const DW_AT_ENCODING: u16 = 0x3e;

pub const DW_AT_TYPE: u16 = 0x49;

pub const DW_ATE_BOOLEAN: u8 = 0x02;

pub const DW_ATE_FLOAT: u8 = 0x04;

pub const DW_ATE_SIGNED: u8 = 0x05;

pub const DW_ATE_SIGNED_CHAR: u8 = 0x06;

pub const DW_ATE_UNSIGNED: u8 = 0x07;

pub const DW_ATE_UNSIGNED_CHAR: u8 = 0x08;

/// What is used of an entry.
#[derive(Debug)]
pub struct Entry {
    /// How much deeper the entry stands in the tree than the one before it.
    pub depth: isize,
    pub tag: u16,
    pub name: Option<String>,
    pub byte_size: Option<u64>,
    /// Where a member stands in its structure.
    pub member_location: Option<u64>,
    /// How a base type is encoded.
    pub encoding: Option<u8>,
    /// How many elements an array dimension has.
    pub count: Option<u64>,
    /// The first index of an array dimension.
    pub lower_bound: Option<u64>,
    /// The last index of an array dimension.
    pub upper_bound: Option<u64>,
    /// The value of an enumerator.
    pub const_value: Option<i64>,
    /// Where a variable stands.
    pub location: AttrRead,
    /// Which entry describes the type.
    pub type_ref: AttrRead,
}

/// An [`Entry`] with its contents viewed.
pub struct EntryView {
    pub depth: isize,
    pub tag: u16,
    pub name: Option<Seq<char>>,
    pub byte_size: Option<u64>,
    pub member_location: Option<u64>,
    pub encoding: Option<u8>,
    pub count: Option<u64>,
    pub lower_bound: Option<u64>,
    pub upper_bound: Option<u64>,
    pub const_value: Option<i64>,
    pub location: AttrReadView,
    pub type_ref: AttrReadView,
}

impl View for Entry {
    type V = EntryView;

    open spec fn view(&self) -> EntryView {
        EntryView {
            depth: self.depth,
            tag: self.tag,
            name: object_file::option_text(self.name),
            byte_size: self.byte_size,
            member_location: self.member_location,
            encoding: self.encoding,
            count: self.count,
            lower_bound: self.lower_bound,
            upper_bound: self.upper_bound,
            const_value: self.const_value,
            location: dwarf_data::read_view(self.location),
            type_ref: dwarf_data::read_view(self.type_ref),
        }
    }
}

/// The views of a sequence of entries.
pub open spec fn entry_views(entries: Seq<Entry>) -> Seq<EntryView> {
    entries.map_values(|e: Entry| e@)
}

/// The entries of a unit, up to the end or up to where the unit cannot be read on.
#[derive(Debug)]
pub struct EntryTable {
    pub entries: Vec<Entry>,
    /// Why the unit cannot be read beyond the last entry, if it cannot.
    pub failure: Option<String>,
}

/// An [`EntryTable`] with its contents viewed.
pub struct TableView {
    pub entries: Seq<EntryView>,
    pub failure: Option<Seq<char>>,
}

impl View for EntryTable {
    type V = TableView;

    open spec fn view(&self) -> TableView {
        TableView {
            entries: entry_views(self.entries@),
            failure: object_file::option_text(self.failure),
        }
    }
}

/// The text that an attribute refers to in the string section; `None` for an attribute that is
/// absent, unreadable or of another form, and where the string section holds no such text.
pub open spec fn string_of(read: AttrReadView, strings: Seq<u8>) -> Option<Seq<char>> {
    match read {
        Ok(Some(AttrView::DebugStrRef(offset))) => match dwarf_data::zero_terminated(
            strings,
            offset,
        ) {
            Some(bytes) => Some(dwarf_data::lossy_text(bytes)),
            None => None,
        },
        _ => None,
    }
}

/// The number that an attribute holds; `None` if it is absent, unreadable or of another form.
pub open spec fn number_of(read: AttrReadView) -> Option<u64> {
    match read {
        Ok(Some(AttrView::Udata(n))) => Some(n),
        _ => None,
    }
}

/// The encoding that an attribute holds; `None` if it is absent, unreadable or of another form.
pub open spec fn encoding_of(read: AttrReadView) -> Option<u8> {
    match read {
        Ok(Some(AttrView::Encoding(code))) => Some(code),
        _ => None,
    }
}

/// The number that an attribute of unknown sign holds: what it is without a sign, if that is in
/// range, and otherwise what it is with a sign.
pub open spec fn integer_of(unsigned: Option<u64>, signed: Option<i64>) -> Option<i64> {
    match unsigned {
        Some(n) if n <= i64::MAX => Some(n as i64),
        _ => signed,
    }
}

/// What is used of an entry as it is recorded, with texts from the string section.
pub open spec fn entry_of(raw: RawEntryView, strings: Seq<u8>) -> EntryView {
    EntryView {
        depth: raw.depth,
        tag: raw.tag,
        name: string_of(raw.attrs[DW_AT_NAME], strings),
        byte_size: number_of(raw.attrs[DW_AT_BYTE_SIZE]),
        member_location: number_of(raw.attrs[DW_AT_DATA_MEMBER_LOCATION]),
        encoding: encoding_of(raw.attrs[DW_AT_ENCODING]),
        count: raw.unsigned[DW_AT_COUNT],
        lower_bound: raw.unsigned[DW_AT_LOWER_BOUND],
        upper_bound: raw.unsigned[DW_AT_UPPER_BOUND],
        const_value: integer_of(raw.unsigned[DW_AT_CONST_VALUE], raw.signed[DW_AT_CONST_VALUE]),
        location: raw.attrs[DW_AT_LOCATION],
        type_ref: raw.attrs[DW_AT_TYPE],
    }
}

/// The table that a walk over entries makes.
pub open spec fn table_of(walk: EntriesView, strings: Seq<u8>) -> TableView {
    TableView {
        entries: walk.entries.map_values(|raw: RawEntryView| entry_of(raw, strings)),
        failure: walk.failure,
    }
}

/// The text that an attribute refers to in the string section.
pub fn get_string(read: &AttrRead, dwarf: &DwarfData) -> (found: Option<String>)
    ensures
        object_file::option_text(found) == string_of(
            dwarf_data::read_view(*read),
            dwarf_data::sections_of(*dwarf).strings,
        ),
        found matches Some(decoded) ==> {
            let bytes = dwarf_data::zero_terminated(
                dwarf_data::sections_of(*dwarf).strings,
                dwarf_data::read_view(*read)->Ok_0->0->DebugStrRef_0,
            )->0;
            vstd::utf8::valid_utf8(bytes) ==> decoded@ == vstd::utf8::decode_utf8(bytes)
        },
{
    match read {
        Ok(Some(AttrValue::DebugStrRef(offset))) => match dwarf.get_str(*offset) {
            Some(bytes) => Some(dwarf_data::to_string_lossy(bytes)),
            None => None,
        },
        _ => None,
    }
}

/// The number that an attribute holds.
pub fn get_attr_u64(read: &AttrRead) -> (found: Option<u64>)
    ensures
        found == number_of(dwarf_data::read_view(*read)),
{
    match read {
        Ok(Some(AttrValue::Udata(n))) => Some(*n),
        _ => None,
    }
}

fn get_encoding(read: &AttrRead) -> (found: Option<u8>)
    ensures
        found == encoding_of(dwarf_data::read_view(*read)),
{
    match read {
        Ok(Some(AttrValue::Encoding(code))) => Some(*code),
        _ => None,
    }
}

/// The number that an attribute of unknown sign holds.
pub fn get_integer(unsigned: Option<u64>, signed: Option<i64>) -> (found: Option<i64>)
    ensures
        found == integer_of(unsigned, signed),
{
    match unsigned {
        Some(n) => {
            if n <= i64::MAX as u64 {
                Some(n as i64)
            } else {
                signed
            }
        },
        None => signed,
    }
}

/// The entry of a member with a name.
pub open spec fn is_named_member(entry: EntryView) -> bool {
    entry.tag == DW_TAG_MEMBER && entry.name is Some
}

/// Where a member stands in its structure: at the start unless its entry says otherwise.
pub open spec fn member_offset(entry: EntryView) -> u64 {
    match entry.member_location {
        Some(offset) => offset,
        None => 0,
    }
}

/// Where a member stands in its structure.
pub fn get_member_offset(entry: &Entry) -> (offset: u64)
    ensures
        offset == member_offset(entry@),
{
    match entry.member_location {
        Some(offset) => offset,
        None => 0,
    }
}

/// The size that an entry records, zero if it records none.
pub open spec fn recorded_size(entry: EntryView) -> u64 {
    match entry.byte_size {
        Some(size) => size,
        None => 0,
    }
}

/// The size that an entry records, zero if it records none.
pub fn get_size(entry: &Entry) -> (size: u64)
    ensures
        size == recorded_size(entry@),
{
    match entry.byte_size {
        Some(size) => size,
        None => 0,
    }
}

/// Takes over the entry that the walk stands at.
pub(crate) fn read_entry(cursor: &EntryCursor<'_>, depth: isize, tag: u16, dwarf: &DwarfData) -> (entry:
    Entry)
    requires
        dwarf_data::current_entry(*cursor) matches Some(raw) && raw.depth == depth && raw.tag
            == tag,
    ensures
        entry@ == entry_of(
            dwarf_data::current_entry(*cursor)->0,
            dwarf_data::sections_of(*dwarf).strings,
        ),
{
    Entry {
        depth,
        tag,
        name: get_string(&cursor.attr(DW_AT_NAME), dwarf),
        byte_size: get_attr_u64(&cursor.attr(DW_AT_BYTE_SIZE)),
        member_location: get_attr_u64(&cursor.attr(DW_AT_DATA_MEMBER_LOCATION)),
        encoding: get_encoding(&cursor.attr(DW_AT_ENCODING)),
        count: cursor.udata_value(DW_AT_COUNT),
        lower_bound: cursor.udata_value(DW_AT_LOWER_BOUND),
        upper_bound: cursor.udata_value(DW_AT_UPPER_BOUND),
        const_value: get_integer(
            cursor.udata_value(DW_AT_CONST_VALUE),
            cursor.sdata_value(DW_AT_CONST_VALUE),
        ),
        location: cursor.attr(DW_AT_LOCATION),
        type_ref: cursor.attr(DW_AT_TYPE),
    }
}

/// Walks to the end, or to a failure, and takes over every entry on the way.
pub(crate) fn read_table(start: EntryCursor<'_>, dwarf: &DwarfData) -> (table: EntryTable)
    ensures
        table@ == table_of(
            dwarf_data::entries_ahead(start),
            dwarf_data::sections_of(*dwarf).strings,
        ),
{
    let ghost walk = dwarf_data::entries_ahead(start);
    let ghost strings = dwarf_data::sections_of(*dwarf).strings;
    let ghost full = table_of(walk, strings);
    let mut cursor = start;
    let mut entries: Vec<Entry> = Vec::new();
    assert(walk.entries.skip(0) == walk.entries);
    loop
        invariant
            walk == dwarf_data::entries_ahead(start),
            strings == dwarf_data::sections_of(*dwarf).strings,
            full == table_of(walk, strings),
            entries@.len() <= walk.entries.len(),
            dwarf_data::entries_ahead(cursor).entries == walk.entries.skip(entries@.len() as int),
            dwarf_data::entries_ahead(cursor).failure == walk.failure,
            entry_views(entries@) == full.entries.take(entries@.len() as int),
        decreases walk.entries.len() - entries@.len(),
    {
        match cursor.next_dfs() {
            Ok(Some((depth, tag))) => {
                let ghost before = entries@;
                let entry = read_entry(&cursor, depth, tag, dwarf);
                entries.push(entry);
                assert(entry_views(entries@) == entry_views(before).push(entry@));
                assert(walk.entries.skip(before.len() as int).drop_first() == walk.entries.skip(
                    entries@.len() as int,
                ));
                assert(entry_views(entries@) == full.entries.take(entries@.len() as int));
            },
            Ok(None) => {
                assert(entry_views(entries@) == full.entries);
                return EntryTable { entries, failure: None };
            },
            Err(text) => {
                assert(entry_views(entries@) == full.entries);
                return EntryTable { entries, failure: Some(text) };
            },
        }
    }
}

// -----------------------------------------------------------------------------------------
// Entries below an entry
// -----------------------------------------------------------------------------------------

/// How many of the entries stand below an entry that they follow, where `level` is how far below
/// it the walk is already: those before the first that is not below it.
pub open spec fn run_below(entries: Seq<EntryView>, level: int) -> int
    decreases entries.len(),
{
    if entries.len() == 0 || level + entries[0].depth <= 0 {
        0
    } else {
        1 + run_below(entries.drop_first(), level + entries[0].depth)
    }
}

/// The entries that stand directly below an entry that they follow, where `level` is how far
/// below it the walk is already.
pub open spec fn children_of(entries: Seq<EntryView>, level: int) -> Seq<EntryView>
    decreases entries.len(),
{
    if entries.len() == 0 || level + entries[0].depth <= 0 {
        Seq::empty()
    } else {
        let next = level + entries[0].depth;
        let more = children_of(entries.drop_first(), next);
        if next == 1 {
            seq![entries[0]] + more
        } else {
            more
        }
    }
}

/// An entry with those directly below it.
#[derive(Debug)]
pub struct Node {
    pub entry: Entry,
    pub children: Vec<Entry>,
    /// Why the entries below it cannot be read to their end, if they cannot.
    pub failure: Option<String>,
}

/// A [`Node`] with its contents viewed.
pub struct NodeView {
    pub entry: EntryView,
    pub children: Seq<EntryView>,
    pub failure: Option<Seq<char>>,
}

impl View for Node {
    type V = NodeView;

    open spec fn view(&self) -> NodeView {
        NodeView {
            entry: self.entry@,
            children: entry_views(self.children@),
            failure: object_file::option_text(self.failure),
        }
    }
}

/// The first entry of a walk, with those directly below it.
pub open spec fn node_of(walk: EntriesView, strings: Seq<u8>) -> NodeView {
    let table = table_of(walk, strings);
    let rest = table.entries.drop_first();
    NodeView {
        entry: table.entries[0],
        children: children_of(rest, 0),
        failure: if run_below(rest, 0) == rest.len() {
            table.failure
        } else {
            None
        },
    }
}

/// Takes over the entry that the walk stands at, with those directly below it.
pub(crate) fn read_node(start: EntryCursor<'_>, depth: isize, tag: u16, dwarf: &DwarfData) -> (node:
    Node)
    requires
        dwarf_data::current_entry(start) matches Some(raw) && raw.depth == depth && raw.tag == tag,
        dwarf_data::entries_ahead(start).entries.len() <= usize::MAX,
    ensures
        node@ == node_of(
            EntriesView {
                entries: seq![dwarf_data::current_entry(start)->0]
                    + dwarf_data::entries_ahead(start).entries,
                failure: dwarf_data::entries_ahead(start).failure,
            },
            dwarf_data::sections_of(*dwarf).strings,
        ),
{
    let ghost strings = dwarf_data::sections_of(*dwarf).strings;
    let ghost ahead = dwarf_data::entries_ahead(start);
    let ghost walk = EntriesView {
        entries: seq![dwarf_data::current_entry(start)->0] + ahead.entries,
        failure: ahead.failure,
    };
    let ghost rest = table_of(ahead, strings).entries;
    assert(table_of(walk, strings).entries.drop_first() == rest);
    let entry = read_entry(&start, depth, tag, dwarf);
    assert(table_of(walk, strings).entries[0] == entry@);
    let mut cursor = start;
    let mut children: Vec<Entry> = Vec::new();
    let mut level: i128 = 0;
    let ghost mut n: int = 0;
    assert(ahead.entries.skip(0) == ahead.entries);
    assert(rest.skip(0) == rest);
    assert(entry_views(children@) + children_of(rest, 0) == children_of(rest, 0));
    loop
        invariant
            strings == dwarf_data::sections_of(*dwarf).strings,
            ahead == dwarf_data::entries_ahead(start),
            walk == (EntriesView {
                entries: seq![dwarf_data::current_entry(start)->0] + ahead.entries,
                failure: ahead.failure,
            }),
            rest == table_of(ahead, strings).entries,
            table_of(walk, strings).entries.drop_first() == rest,
            table_of(walk, strings).entries[0] == entry@,
            0 <= n <= rest.len(),
            dwarf_data::entries_ahead(cursor).entries == ahead.entries.skip(n),
            dwarf_data::entries_ahead(cursor).failure == ahead.failure,
            run_below(rest, 0) == n + run_below(rest.skip(n), level as int),
            entry_views(children@) + children_of(rest.skip(n), level as int) == children_of(
                rest,
                0,
            ),
            rest.len() <= usize::MAX,
            0 <= level <= n * 0x7FFF_FFFF_FFFF_FFFF,
        decreases rest.len() - n,
    {
        match cursor.next_dfs() {
            Ok(Some((depth, tag))) => {
                let ghost here = rest.skip(n);
                let ghost before = entry_views(children@);
                assert(here[0] == entry_of(ahead.entries[n], strings));
                assert(here.drop_first() == rest.skip(n + 1));
                assert(ahead.entries.skip(n).drop_first() == ahead.entries.skip(n + 1));
                proof {
                    assert(n * 0x7FFF_FFFF_FFFF_FFFF + 0x7FFF_FFFF_FFFF_FFFF
                        <= 0x1_0000_0000_0000_0000 * 0x7FFF_FFFF_FFFF_FFFF) by (nonlinear_arith)
                        requires
                            n + 1 <= 0x1_0000_0000_0000_0000,
                    ;
                }
                level = level + depth as i128;
                if level <= 0 {
                    assert(before + Seq::<EntryView>::empty() == before);
                    return Node { entry, children, failure: None };
                }
                if level == 1 {
                    let child = read_entry(&cursor, depth, tag, dwarf);
                    children.push(child);
                    assert(entry_views(children@) == before.push(child@));
                    assert(before.push(child@) + children_of(rest.skip(n + 1), 1) == before + (
                    seq![child@] + children_of(rest.skip(n + 1), 1)));
                }
                proof {
                    n = n + 1;
                }
            },
            Ok(None) => {
                return Node { entry, children, failure: None };
            },
            Err(text) => {
                return Node { entry, children, failure: Some(text) };
            },
        }
    }
}

} // verus!
