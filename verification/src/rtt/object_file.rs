//! Object files, read with the `object` crate.
//!
//! The crate hands out borrowed views of the image bytes. Everything that symbol and section
//! lookup works on is taken over as plain records here.

use object::Object;
use object::ObjectSection;
use object::ObjectSymbol;
use vstd::prelude::*;

verus! {

/// A section as the image records it.
pub struct SectionRecord {
    /// The number by which symbols refer to the section.
    pub index: usize,
    /// The name, if it can be read as text.
    pub name: Option<String>,
    /// The bytes of the section, or why they cannot be reached.
    pub data: Result<&'static [u8], String>,
}

/// A [`SectionRecord`] with its contents as sequences.
pub struct SectionView {
    pub index: usize,
    pub name: Option<Seq<char>>,
    pub data: Result<Seq<u8>, Seq<char>>,
}

impl View for SectionRecord {
    type V = SectionView;

    open spec fn view(&self) -> SectionView {
        SectionView {
            index: self.index,
            name: option_text(self.name),
            data: match self.data {
                Ok(bytes) => Ok(bytes@),
                Err(text) => Err(text@),
            },
        }
    }
}

/// A symbol table entry.
pub struct SymbolRecord {
    /// The name, if it can be read as text.
    pub name: Option<String>,
    pub address: u64,
    pub size: u64,
    /// The index of the section that the symbol belongs to, if it belongs to one.
    pub section: Option<usize>,
}

/// A [`SymbolRecord`] with its name as a character sequence.
pub struct SymbolView {
    pub name: Option<Seq<char>>,
    pub address: u64,
    pub size: u64,
    pub section: Option<usize>,
}

impl View for SymbolRecord {
    type V = SymbolView;

    open spec fn view(&self) -> SymbolView {
        SymbolView {
            name: option_text(self.name),
            address: self.address,
            size: self.size,
            section: self.section,
        }
    }
}

/// The text of an optional string.
pub open spec fn option_text(text: Option<String>) -> Option<Seq<char>> {
    match text {
        Some(s) => Some(s@),
        None => None,
    }
}

/// The symbols of a sequence of records.
pub open spec fn symbol_views(records: Seq<SymbolRecord>) -> Seq<SymbolView> {
    records.map_values(|r: SymbolRecord| r@)
}

/// The sections of a sequence of records.
pub open spec fn section_views(records: Seq<SectionRecord>) -> Seq<SectionView> {
    records.map_values(|r: SectionRecord| r@)
}

/// No two sections have the same index.
pub open spec fn distinct_indices(sections: Seq<SectionView>) -> bool {
    forall|i: int, j: int|
        0 <= i < j < sections.len() ==> (#[trigger] sections[i]).index != (
        #[trigger] sections[j]).index
}

/// What an image holds, as far as lookup is concerned.
pub struct ImageView {
    /// The address that the addresses of some formats are relative to.
    pub base: u64,
    /// The address at which execution starts.
    pub entry: u64,
    pub sections: Seq<SectionView>,
    /// The entries of the symbol table.
    pub symbols: Seq<SymbolView>,
    /// The entries of the dynamic symbol table.
    pub dynamic_symbols: Seq<SymbolView>,
}

/// Every symbol's address can be computed: the base leaves room for two numbers of 32 bits.
pub open spec fn addresses_fit(image: ImageView) -> bool {
    image.base + 2 * u32::MAX <= u64::MAX
}

/// A parsed image: the sections and symbols that `object::File` found in it.
#[verifier::external_body]
pub struct ObjectFile<'data> {
    file: object::File<'data>,
}

/// What a parsed image holds.
pub uninterp spec fn image_of(file: ObjectFile<'_>) -> ImageView;

/// What `object::File::parse` finds in the bytes of an image, or the text of its error.
pub uninterp spec fn parsed_image(data: Seq<u8>) -> Result<ImageView, Seq<char>>;

/// `object::File::parse`: whether the bytes can be read as an object file, what that file
/// holds, and the text of the error otherwise depend on the bytes alone.
#[verifier::external_body]
pub(crate) fn parse_object<'data>(data: &'data [u8]) -> (r: Result<ObjectFile<'data>, String>)
    ensures
        match r {
            Ok(file) => parsed_image(data@) == Ok::<ImageView, Seq<char>>(image_of(file)),
            Err(text) => parsed_image(data@) == Err::<ImageView, Seq<char>>(text@),
        },
{
    object::File::parse(data).map(|file| ObjectFile { file }).map_err(|e| e.to_string())
}

impl ObjectFile<'static> {
    /// `object::Object::relative_address_base`: the address that relative addresses start from.
    #[verifier::external_body]
    pub(crate) fn base(&self) -> (address: u64)
        ensures
            address == image_of(*self).base,
    {
        self.file.relative_address_base()
    }

    /// `object::Object::entry`: the entry point of the image.
    #[verifier::external_body]
    pub(crate) fn entry(&self) -> (address: u64)
        ensures
            address == image_of(*self).entry,
    {
        self.file.entry()
    }

    /// `object::Object::sections`: every section but the null section, in the order of the
    /// section table, with its index, its name where it is text, and its bytes or the text of
    /// the error. Sections are numbered as they come, so that no two have the same index.
    #[verifier::external_body]
    pub(crate) fn sections(&self) -> (records: Vec<SectionRecord>)
        ensures
            section_views(records@) == image_of(*self).sections,
            distinct_indices(section_views(records@)),
    {
        self.file.sections().map(|s| SectionRecord {
            index: s.index().0,
            name: s.name().ok().map(|n| n.to_string()),
            data: s.data().map_err(|e| e.to_string()),
        }).collect()
    }

    /// `object::Object::symbols`: every entry of the symbol table but the null symbol, in
    /// order. In some formats an address is the sum of the base and two numbers of 32 bits, which
    /// is computed unchecked.
    #[verifier::external_body]
    pub(crate) fn symbols(&self) -> (records: Vec<SymbolRecord>)
        requires
            addresses_fit(image_of(*self)),
        ensures
            symbol_views(records@) == image_of(*self).symbols,
    {
        self.file.symbols().map(|s| SymbolRecord {
            name: s.name().ok().map(|n| n.to_string()),
            address: s.address(),
            size: s.size(),
            section: s.section_index().map(|i| i.0),
        }).collect()
    }

    /// `object::Object::dynamic_symbols`: every entry of the dynamic symbol table but the null
    /// symbol, in order.
    #[verifier::external_body]
    pub(crate) fn dynamic_symbols(&self) -> (records: Vec<SymbolRecord>)
        ensures
            symbol_views(records@) == image_of(*self).dynamic_symbols,
    {
        self.file.dynamic_symbols().map(|s| SymbolRecord {
            name: s.name().ok().map(|n| n.to_string()),
            address: s.address(),
            size: s.size(),
            section: s.section_index().map(|i| i.0),
        }).collect()
    }
}

} // verus!
