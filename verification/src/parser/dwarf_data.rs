//! DWARF sections, read with the `gimli` crate.
//!
//! The crate hands out borrowed views of the section bytes. Here each of its types that is
//! needed is kept behind a type of its own, and everything that is read through it comes out
//! as plain values: unit offsets, tags, depths, attribute values and texts.

use crate::parser::value;
use gimli::LittleEndian;
use std::sync::Arc;
use vstd::prelude::*;

verus! {

/// The bytes of the sections that debug information is read from.
pub struct DebugSections {
    pub abbrev: &'static [u8],
    pub info: &'static [u8],
    pub strings: &'static [u8],
    pub line: &'static [u8],
}

/// The [`DebugSections`] as sequences.
pub struct SectionsView {
    pub abbrev: Seq<u8>,
    pub info: Seq<u8>,
    pub strings: Seq<u8>,
    pub line: Seq<u8>,
}

impl View for DebugSections {
    type V = SectionsView;

    open spec fn view(&self) -> SectionsView {
        SectionsView {
            abbrev: self.abbrev@,
            info: self.info@,
            strings: self.strings@,
            line: self.line@,
        }
    }
}

/// An attribute value, as far as it is used.
#[derive(Debug)]
pub enum AttrValue {
    /// An offset into the string section.
    DebugStrRef(usize),
    /// An unsigned number.
    Udata(u64),
    /// The bytes of a location expression.
    Exprloc(Vec<u8>),
    /// The offset of another entry of the same unit.
    UnitRef(usize),
    /// How a base type is encoded.
    Encoding(u8),
    /// Anything else.
    Other,
}

/// An [`AttrValue`] with its bytes as a sequence.
pub enum AttrView {
    DebugStrRef(usize),
    Udata(u64),
    Exprloc(Seq<u8>),
    UnitRef(usize),
    Encoding(u8),
    Other,
}

impl View for AttrValue {
    type V = AttrView;

    open spec fn view(&self) -> AttrView {
        match self {
            AttrValue::DebugStrRef(offset) => AttrView::DebugStrRef(*offset),
            AttrValue::Udata(n) => AttrView::Udata(*n),
            AttrValue::Exprloc(bytes) => AttrView::Exprloc(bytes@),
            AttrValue::UnitRef(offset) => AttrView::UnitRef(*offset),
            AttrValue::Encoding(code) => AttrView::Encoding(*code),
            AttrValue::Other => AttrView::Other,
        }
    }
}

/// What asking an entry for an attribute gives: the value, nothing, or the text of an error.
pub type AttrRead = Result<Option<AttrValue>, String>;

/// An [`AttrRead`] with its contents viewed.
pub type AttrReadView = Result<Option<AttrView>, Seq<char>>;

/// The view of an attribute read.
pub open spec fn read_view(read: AttrRead) -> AttrReadView {
    match read {
        Ok(Some(value)) => Ok(Some(value@)),
        Ok(None) => Ok(None),
        Err(text) => Err(text@),
    }
}

/// An entry as it is recorded.
pub struct RawEntryView {
    /// How much deeper the entry stands in the tree than the one before it.
    pub depth: isize,
    pub tag: u16,
    /// What each attribute name gives.
    pub attrs: Map<u16, AttrReadView>,
    /// The unsigned number that each attribute name gives, if it gives one.
    pub unsigned: Map<u16, Option<u64>>,
    /// The signed number that each attribute name gives, if it gives one.
    pub signed: Map<u16, Option<i64>>,
    /// For each attribute that can be read, in order, the index into the table of strings or
    /// addresses by which it is given, if it is given so.
    pub indices: Seq<Option<usize>>,
}

/// What a walk over entries meets: the entries up to the end, or up to a failure.
pub struct EntriesView {
    pub entries: Seq<RawEntryView>,
    pub failure: Option<Seq<char>>,
}

/// What a walk over units meets: their offsets up to the end, or up to a failure.
pub struct UnitsView {
    pub offsets: Seq<usize>,
    pub failure: Option<Seq<char>>,
}

/// A unit: its entries from the start, those from each offset, and the size of an address.
pub struct UnitView {
    pub entries: EntriesView,
    pub entries_at: Map<usize, Result<EntriesView, Seq<char>>>,
    pub address_size: u8,
}

/// The sections of an image as `gimli::Dwarf` holds them.
#[verifier::external_body]
pub struct DwarfData {
    dwarf: gimli::Dwarf<gimli::EndianSlice<'static, LittleEndian>>,
}

/// A walk over the units of an image: `gimli::DebugInfoUnitHeadersIter`.
#[verifier::external_body]
pub struct UnitCursor {
    units: gimli::DebugInfoUnitHeadersIter<gimli::EndianSlice<'static, LittleEndian>>,
}

/// The entries of a unit: a `gimli::UnitHeader` with its abbreviations.
#[verifier::external_body]
pub struct UnitEntries {
    header: gimli::UnitHeader<gimli::EndianSlice<'static, LittleEndian>>,
    abbreviations: Arc<gimli::Abbreviations>,
}

/// A walk over entries of a unit: `gimli::EntriesCursor`.
#[verifier::external_body]
pub struct EntryCursor<'a> {
    cursor: gimli::EntriesCursor<'a, 'a, gimli::EndianSlice<'static, LittleEndian>>,
}

/// A walk over the attributes of an entry: `gimli::AttrsIter`.
#[verifier::external_body]
pub struct AttrCursor<'a> {
    attrs: gimli::AttrsIter<'a, 'a, 'a, gimli::EndianSlice<'static, LittleEndian>>,
}

/// The sections that a [`DwarfData`] was made of.
pub uninterp spec fn sections_of(data: DwarfData) -> SectionsView;

/// What the rest of a walk over units meets.
pub uninterp spec fn units_ahead(cursor: UnitCursor) -> UnitsView;

/// What a unit holds.
pub uninterp spec fn unit_of(unit: UnitEntries) -> UnitView;

/// What the rest of a walk over entries meets.
pub uninterp spec fn entries_ahead(cursor: EntryCursor<'_>) -> EntriesView;

/// The entry that a walk stands at.
pub uninterp spec fn current_entry(cursor: EntryCursor<'_>) -> Option<RawEntryView>;

/// The indices of the attributes that the rest of a walk over attributes meets.
pub uninterp spec fn indices_ahead(cursor: AttrCursor<'_>) -> Seq<Option<usize>>;

/// The units that `gimli::Dwarf::units` finds in the bytes of the unit section.
pub uninterp spec fn units_in(info: Seq<u8>) -> UnitsView;

/// The unit that `gimli::UnitHeader::abbreviations` opens at an offset of the unit section, or
/// the text of the error.
pub uninterp spec fn opened_unit(abbrev: Seq<u8>, info: Seq<u8>, offset: usize) -> Result<
    UnitView,
    Seq<char>,
>;

/// The text of the error with which `gimli::Dwarf::unit` refuses the unit at an offset.
pub uninterp spec fn unit_refusal(
    abbrev: Seq<u8>,
    info: Seq<u8>,
    strings: Seq<u8>,
    line: Seq<u8>,
    offset: usize,
) -> Option<Seq<char>>;

/// The text that `String::from_utf8_lossy` makes of bytes.
pub uninterp spec fn lossy_text(bytes: Seq<u8>) -> Seq<char>;

/// The number of bytes before the first zero, or the number of bytes if none is zero.
pub open spec fn zero_at(bytes: Seq<u8>) -> int
    decreases bytes.len(),
{
    if bytes.len() == 0 || bytes[0] == 0 {
        0
    } else {
        1 + zero_at(bytes.drop_first())
    }
}

/// The bytes from an offset up to the first zero; `None` if the offset lies beyond the bytes
/// or no zero follows it.
pub open spec fn zero_terminated(bytes: Seq<u8>, offset: usize) -> Option<Seq<u8>> {
    if offset <= bytes.len() && zero_at(bytes.skip(offset as int)) < bytes.len() - offset {
        Some(bytes.subrange(offset as int, offset + zero_at(bytes.skip(offset as int))))
    } else {
        None
    }
}

/// The operation code for "push this address".
pub const DW_OP_ADDR: u8 = 0x03;

/// The address that a location expression starts with, if it starts with one.
pub open spec fn leading_address(expression: Seq<u8>, address_size: u8) -> Option<u64> {
    if expression.len() > address_size && expression[0] == DW_OP_ADDR && (address_size == 1
        || address_size == 2 || address_size == 4 || address_size == 8) {
        Some(value::le_value(expression.subrange(1, 1 + address_size as int)) as u64)
    } else {
        None
    }
}

/// The position of every index within its table, at up to eight bytes each, can be computed.
pub open spec fn indices_fit(indices: Seq<Option<usize>>) -> bool {
    forall|i: int|
        0 <= i < indices.len() ==> ((#[trigger] indices[i]) matches Some(index) ==> index * 8
            <= u64::MAX)
}

/// The unit's first entry gives its attributes by no index whose position cannot be computed.
pub open spec fn root_fits(unit: UnitView) -> bool {
    unit.entries.entries.len() > 0 ==> indices_fit(unit.entries.entries[0].indices)
}

/// `gimli::Dwarf::load`: the given bytes become the abbreviation, unit, string and line
/// sections. Every other section is handed over empty, as the crate asks for sections that an
/// image does not have.
#[verifier::external_body]
pub(crate) fn load_sections(sections: &DebugSections) -> (data: DwarfData)
    ensures
        sections_of(data) == sections@,
{
    let dwarf = gimli::Dwarf::load(|id| Ok::<_, gimli::Error>(gimli::EndianSlice::new(match id {
        gimli::SectionId::DebugAbbrev => sections.abbrev,
        gimli::SectionId::DebugInfo => sections.info,
        gimli::SectionId::DebugStr => sections.strings,
        gimli::SectionId::DebugLine => sections.line,
        _ => &[],
    }, LittleEndian))).unwrap();
    DwarfData { dwarf }
}

/// `gimli::EndianSlice::to_string_lossy`: the text depends on the bytes alone; bytes that are
/// UTF-8 are decoded as such.
#[verifier::external_body]
pub(crate) fn to_string_lossy(bytes: &[u8]) -> (decoded: String)
    ensures
        decoded@ == lossy_text(bytes@),
        vstd::utf8::valid_utf8(bytes@) ==> decoded@ == vstd::utf8::decode_utf8(bytes@),
{
    gimli::EndianSlice::new(bytes, LittleEndian).to_string_lossy().into_owned()
}

impl DwarfData {
    /// `gimli::Dwarf::units`: a walk over the units, which depend on the unit section alone.
    #[verifier::external_body]
    pub(crate) fn units(&self) -> (cursor: UnitCursor)
        ensures
            units_ahead(cursor) == units_in(sections_of(*self).info),
    {
        UnitCursor { units: self.dwarf.units() }
    }

    /// `gimli::UnitHeader::abbreviations`, for the header that
    /// `gimli::DebugInfo::header_from_offset` reads at an offset of the unit section: the unit,
    /// or the text of the error, depends on the abbreviation and unit sections and the offset.
    #[verifier::external_body]
    pub(crate) fn open_unit(&self, offset: usize) -> (r: Result<UnitEntries, String>)
        ensures
            match r {
                Ok(unit) => opened_unit(
                    sections_of(*self).abbrev,
                    sections_of(*self).info,
                    offset,
                ) == Ok::<UnitView, Seq<char>>(unit_of(unit)),
                Err(text) => opened_unit(
                    sections_of(*self).abbrev,
                    sections_of(*self).info,
                    offset,
                ) == Err::<UnitView, Seq<char>>(text@),
            },
    {
        let position = gimli::DebugInfoOffset(offset);
        self.dwarf.debug_info.header_from_offset(position).and_then(|header| {
            let abbreviations = Arc::new(header.abbreviations(&self.dwarf.debug_abbrev)?);
            Ok(UnitEntries { header, abbreviations })
        }).map_err(|e| e.to_string())
    }

    /// `gimli::Dwarf::unit`, for the header that `gimli::DebugInfo::header_from_offset` reads
    /// at an offset of the unit section: whether it refuses the unit, and with which text,
    /// depends on the sections and the offset. A unit that it accepts is the one that its
    /// header and abbreviations describe. It looks up the name, the directory and the address
    /// of the first entry, and multiplies an index by which they are given unchecked.
    #[verifier::external_body]
    pub(crate) fn load_unit(&self, offset: usize) -> (r: Result<UnitEntries, String>)
        requires
            opened_unit(sections_of(*self).abbrev, sections_of(*self).info, offset) matches Ok(unit)
                && root_fits(unit),
        ensures
            ({
                let s = sections_of(*self);
                let refusal = unit_refusal(s.abbrev, s.info, s.strings, s.line, offset);
                match r {
                    Ok(unit) => refusal is None && opened_unit(s.abbrev, s.info, offset) == Ok::<
                        UnitView,
                        Seq<char>,
                    >(unit_of(unit)),
                    Err(text) => refusal == Some(text@),
                }
            }),
    {
        let position = gimli::DebugInfoOffset(offset);
        self.dwarf.debug_info.header_from_offset(position).and_then(|header| {
            let unit = self.dwarf.unit(header)?;
            Ok(UnitEntries { header: unit.header, abbreviations: unit.abbreviations })
        }).map_err(|e| e.to_string())
    }

    /// `gimli::DebugStr::get_str`: the bytes of the string section from the offset up to the
    /// first zero.
    #[verifier::external_body]
    pub(crate) fn get_str(&self, offset: usize) -> (bytes: Option<&'static [u8]>)
        ensures
            match bytes {
                Some(b) => zero_terminated(sections_of(*self).strings, offset) == Some(b@),
                None => zero_terminated(sections_of(*self).strings, offset) is None,
            },
    {
        self.dwarf.debug_str.get_str(gimli::DebugStrOffset(offset)).ok().map(|s| s.slice())
    }
}

impl UnitCursor {
    /// `gimli::DebugInfoUnitHeadersIter::next`: the offset of the next unit, `None` at the end,
    /// or the text of the error at which the walk ends.
    #[verifier::external_body]
    pub(crate) fn next(&mut self) -> (r: Result<Option<usize>, String>)
        ensures
            ({
                let before = units_ahead(*old(self));
                match r {
                    Ok(Some(offset)) => before.offsets.len() > 0 && offset == before.offsets[0]
                        && units_ahead(*final(self)) == (UnitsView {
                        offsets: before.offsets.drop_first(),
                        failure: before.failure,
                    }),
                    Ok(None) => before.offsets.len() == 0 && before.failure is None,
                    Err(text) => before.offsets.len() == 0 && before.failure == Some(text@),
                }
            }),
    {
        self.units.next().map_err(|e| e.to_string()).map(
            |header| header.map(|h| h.offset().as_debug_info_offset().unwrap().0),
        )
    }
}

impl UnitEntries {
    /// `gimli::UnitHeader::entries`: a walk over every entry of the unit.
    #[verifier::external_body]
    pub(crate) fn entries(&self) -> (cursor: EntryCursor<'_>)
        ensures
            entries_ahead(cursor) == unit_of(*self).entries,
    {
        EntryCursor { cursor: self.header.entries(&self.abbreviations) }
    }

    /// `gimli::UnitHeader::entries_at_offset`: a walk that starts at an offset of the unit, or
    /// the text of the error if the offset lies outside the unit. Each entry takes at least one
    /// byte of the unit, so there are no more than a slice can hold.
    #[verifier::external_body]
    pub(crate) fn entries_at_offset(&self, offset: usize) -> (r: Result<EntryCursor<'_>, String>)
        ensures
            match r {
                Ok(cursor) => unit_of(*self).entries_at[offset] == Ok::<EntriesView, Seq<char>>(
                    entries_ahead(cursor),
                ) && entries_ahead(cursor).entries.len() <= usize::MAX,
                Err(text) => unit_of(*self).entries_at[offset] == Err::<EntriesView, Seq<char>>(
                    text@,
                ),
            },
    {
        self.header.entries_at_offset(&self.abbreviations, gimli::UnitOffset(offset)).map(
            |cursor| EntryCursor { cursor },
        ).map_err(|e| e.to_string())
    }

    /// `gimli::Expression::operations` and `gimli::OperationIter::next`, for an expression that
    /// starts with the operation that pushes an address: the address, if as many bytes follow
    /// as the unit's addresses are long. Other operations are not handed over: reading some of
    /// them multiplies a size unchecked.
    #[verifier::external_body]
    pub(crate) fn first_address(&self, expression: &[u8]) -> (address: Option<u64>)
        requires
            expression@.len() > 0 && expression@[0] == DW_OP_ADDR,
        ensures
            address == leading_address(expression@, unit_of(*self).address_size),
    {
        let expression = gimli::Expression(gimli::EndianSlice::new(expression, LittleEndian));
        match expression.operations(self.header.encoding()).next() {
            Ok(Some(gimli::Operation::Address { address })) => Some(address),
            _ => None,
        }
    }
}

impl<'a> EntryCursor<'a> {
    /// `gimli::EntriesCursor::next_dfs`: the depth and the tag of the next entry, `None` at the
    /// end, or the text of the error at which the walk ends.
    #[verifier::external_body]
    pub(crate) fn next_dfs(&mut self) -> (r: Result<Option<(isize, u16)>, String>)
        ensures
            ({
                let before = entries_ahead(*old(self));
                match r {
                    Ok(Some((depth, tag))) => {
                        &&& before.entries.len() > 0
                        &&& before.entries[0].depth == depth
                        &&& before.entries[0].tag == tag
                        &&& current_entry(*final(self)) == Some(before.entries[0])
                        &&& entries_ahead(*final(self)) == (EntriesView {
                            entries: before.entries.drop_first(),
                            failure: before.failure,
                        })
                    },
                    Ok(None) => before.entries.len() == 0 && before.failure is None,
                    Err(text) => before.entries.len() == 0 && before.failure == Some(text@),
                }
            }),
    {
        self.cursor.next_dfs().map_err(|e| e.to_string()).map(
            |step| step.map(|(depth, entry)| (depth, entry.tag().0)),
        )
    }

    /// `gimli::DebuggingInformationEntry::attr`, on the entry that the walk stands at: the first
    /// attribute with that name.
    #[verifier::external_body]
    pub(crate) fn attr(&self, name: u16) -> (r: AttrRead)
        requires
            current_entry(*self) is Some,
        ensures
            read_view(r) == current_entry(*self)->0.attrs[name],
    {
        let attr = self.cursor.current().unwrap().attr(gimli::DwAt(name));
        attr.map_err(|e| e.to_string()).map(|a| a.map(|a| match a.value() {
            gimli::AttributeValue::DebugStrRef(offset) => AttrValue::DebugStrRef(offset.0),
            gimli::AttributeValue::Udata(n) => AttrValue::Udata(n),
            gimli::AttributeValue::Exprloc(e) => AttrValue::Exprloc(e.0.slice().to_vec()),
            gimli::AttributeValue::UnitRef(offset) => AttrValue::UnitRef(offset.0),
            gimli::AttributeValue::Encoding(code) => AttrValue::Encoding(code.0),
            _ => AttrValue::Other,
        }))
    }

    /// `gimli::Attribute::udata_value`, for the attribute that
    /// `gimli::DebuggingInformationEntry::attr` finds on the entry that the walk stands at: the
    /// unsigned number that it is, whatever its form.
    #[verifier::external_body]
    pub(crate) fn udata_value(&self, name: u16) -> (n: Option<u64>)
        requires
            current_entry(*self) is Some,
        ensures
            n == current_entry(*self)->0.unsigned[name],
    {
        let attr = self.cursor.current().unwrap().attr(gimli::DwAt(name));
        attr.ok().flatten().and_then(|a| a.udata_value())
    }

    /// `gimli::Attribute::sdata_value`, for the attribute that
    /// `gimli::DebuggingInformationEntry::attr` finds on the entry that the walk stands at: the
    /// signed number that it is, whatever its form.
    #[verifier::external_body]
    pub(crate) fn sdata_value(&self, name: u16) -> (n: Option<i64>)
        requires
            current_entry(*self) is Some,
        ensures
            n == current_entry(*self)->0.signed[name],
    {
        let attr = self.cursor.current().unwrap().attr(gimli::DwAt(name));
        attr.ok().flatten().and_then(|a| a.sdata_value())
    }

    /// `gimli::DebuggingInformationEntry::attrs`: a walk over the attributes of the entry that
    /// this walk stands at.
    #[verifier::external_body]
    pub(crate) fn attrs(&self) -> (attrs: AttrCursor<'_>)
        requires
            current_entry(*self) is Some,
        ensures
            indices_ahead(attrs) == current_entry(*self)->0.indices,
    {
        AttrCursor { attrs: self.cursor.current().unwrap().attrs() }
    }
}

impl<'a> AttrCursor<'a> {
    /// `gimli::AttrsIter::next`: the index by which the next attribute is given, if it is given
    /// by one; no attribute follows at the end and behind one that cannot be read.
    #[verifier::external_body]
    pub(crate) fn next(&mut self) -> (r: Option<Option<usize>>)
        ensures
            match r {
                Some(index) => indices_ahead(*old(self)).len() > 0 && index == indices_ahead(
                    *old(self),
                )[0] && indices_ahead(*final(self)) == indices_ahead(*old(self)).drop_first(),
                None => indices_ahead(*old(self)).len() == 0,
            },
    {
        self.attrs.next().ok().flatten().map(|a| match a.value() {
            gimli::AttributeValue::DebugStrOffsetsIndex(index) => Some(index.0),
            gimli::AttributeValue::DebugAddrIndex(index) => Some(index.0),
            _ => None,
        })
    }
}

} // verus!
