//! Symbols of an ELF image, and the RTT control block among them.
//!
//! Symbols are merged from the symbol table and the dynamic symbol table, in that order, so
//! that images with either of them can be queried. Entries that stand for nothing in the
//! image (no section, or address zero) are never reported.

use crate::error::DebugError;
use crate::error::ErrorView;
use crate::error;
use crate::rtt::object_file::ImageView;
use crate::rtt::object_file::ObjectFile;
use crate::rtt::object_file::SectionRecord;
use crate::rtt::object_file::SectionView;
use crate::rtt::object_file::SymbolRecord;
use crate::rtt::object_file::SymbolView;
use crate::rtt::object_file::parse_object;
use crate::rtt::object_file;
use crate::text::contains;
use crate::text::contains_ignore_ascii_case;
use crate::text::eq_ignore_ascii_case;
use crate::text::hex;
use crate::text;
use std::collections::HashMap;
use vstd::prelude::*;

verus! {

/// The symbol that SEGGER's implementation gives to the RTT control block.
pub const RTT_SYMBOL_NAME: &'static str = "_SEGGER_RTT";

/// The section index that marks a symbol as not defined in the image.
pub const SHN_UNDEF: usize = 0;

/// The first address at which a control block is accepted.
pub const RAM_START: u64 = 0x20000000;

/// The last address at which a control block is accepted.
pub const RAM_END: u64 = 0x2FFFFFFF;

// -----------------------------------------------------------------------------------------
// Section names
// -----------------------------------------------------------------------------------------

/// The names of the sections by section index: a section without a readable name has none, and
/// the last section with an index counts.
pub open spec fn section_table(sections: Seq<SectionView>) -> Map<usize, Seq<char>>
    decreases sections.len(),
{
    if sections.len() == 0 {
        Map::empty()
    } else {
        let before = section_table(sections.drop_last());
        match sections.last().name {
            Some(name) => before.insert(sections.last().index, name),
            None => before.remove(sections.last().index),
        }
    }
}

/// The texts of a table of section names.
pub open spec fn name_table(names: Map<usize, String>) -> Map<usize, Seq<char>> {
    names.map_values(|name: String| name@)
}

/// What is reported as the section of a symbol: the name at its section index, or `unknown`.
pub open spec fn section_label(names: Map<usize, Seq<char>>, index: Option<usize>) -> Seq<char> {
    match index {
        Some(i) if names.dom().contains(i) => names[i],
        _ => "unknown"@,
    }
}

/// Builds the table of section names, so that each symbol finds its section in one step.
pub fn index_sections(sections: &Vec<SectionRecord>) -> (names: HashMap<usize, String>)
    ensures
        name_table(names@) == section_table(object_file::section_views(sections@)),
{
    broadcast use vstd::std_specs::hash::group_hash_axioms;

    let ghost views = object_file::section_views(sections@);
    let mut names: HashMap<usize, String> = HashMap::new();
    let mut j: usize = 0;
    assert(views.take(0) == Seq::<SectionView>::empty());
    assert(name_table(names@) == Map::<usize, Seq<char>>::empty());
    while j < sections.len()
        invariant
            j <= sections@.len(),
            views == object_file::section_views(sections@),
            name_table(names@) == section_table(views.take(j as int)),
        decreases sections@.len() - j,
    {
        let section = &sections[j];
        let ghost before = names@;
        assert(views.take(j + 1).drop_last() == views.take(j as int));
        assert(views.take(j + 1).last() == section@);
        match &section.name {
            Some(name) => {
                names.insert(section.index, name.clone());
                assert(name_table(names@) == name_table(before).insert(section.index, name@));
            },
            None => {
                names.remove(&section.index);
                assert(name_table(names@) == name_table(before).remove(section.index));
            },
        }
        j = j + 1;
    }
    assert(views.take(j as int) == views);
    names
}

/// The name at a section index, or `unknown`.
pub fn label_section<'a>(names: &'a HashMap<usize, String>, index: Option<usize>) -> (label: &'a str)
    ensures
        label@ == section_label(name_table(names@), index),
{
    broadcast use vstd::std_specs::hash::group_hash_axioms;

    match index {
        Some(i) => match names.get(&i) {
            Some(name) => name.as_str(),
            None => "unknown",
        },
        None => "unknown",
    }
}

/// The error for bytes that are not an object file.
pub(crate) fn parse_failure(elf_path: &str, text: String) -> (error: DebugError)
    ensures
        error@ == ErrorView::RttError("Failed to parse ELF file "@ + elf_path@ + ": "@ + text@),
{
    let mut message = "Failed to parse ELF file ".to_owned();
    message.append(elf_path);
    message.append(": ");
    message.append(text.as_str());
    DebugError::RttError(message)
}

/// A parsed image together with its table of section names.
pub struct CachedElf {
    file: ObjectFile<'static>,
    section_names: HashMap<usize, String>,
}

impl CachedElf {
    /// What the image holds.
    pub closed spec fn image(&self) -> ImageView {
        object_file::image_of(self.file)
    }

    #[verifier::type_invariant]
    spec fn names_indexed(&self) -> bool {
        &&& name_table(self.section_names@) == section_table(
            object_file::image_of(self.file).sections,
        )
        &&& object_file::distinct_indices(object_file::image_of(self.file).sections)
    }

    /// Parses the bytes of an image. `elf_path` is what the message calls the image if the
    /// bytes are not an object file.
    pub fn parse(data: &'static [u8], elf_path: &str) -> (r: Result<CachedElf, DebugError>)
        ensures
            match (r, object_file::parsed_image(data@)) {
                (Ok(elf), Ok(image)) => elf.image() == image,
                (Err(error), Err(text)) => error@ == ErrorView::RttError(
                    "Failed to parse ELF file "@ + elf_path@ + ": "@ + text,
                ),
                _ => false,
            },
    {
        match parse_object(data) {
            Ok(file) => {
                let section_names = index_sections(&file.sections());
                Ok(CachedElf { file, section_names })
            },
            Err(text) => Err(parse_failure(elf_path, text)),
        }
    }

    /// The parsed image, for callers that need its sections themselves.
    pub fn file(&self) -> (file: &ObjectFile<'static>)
        ensures
            object_file::image_of(*file) == self.image(),
    {
        &self.file
    }

    /// Whether the symbols of the image can be read: every address can be computed.
    pub fn has_readable_symbols(&self) -> (r: bool)
        ensures
            r == object_file::addresses_fit(self.image()),
    {
        self.file.base() <= u64::MAX - 2 * (u32::MAX as u64)
    }

    /// The name of a symbol's section, or `unknown`.
    pub fn section_name(&self, index: Option<usize>) -> (label: &str)
        ensures
            label@ == section_label(section_table(self.image().sections), index),
            forall|i: int|
                0 <= i < self.image().sections.len() && (
                #[trigger] self.image().sections[i]).name is Some && index == Some(
                    self.image().sections[i].index,
                ) ==> label@ == self.image().sections[i].name->0,
    {
        proof {
            use_type_invariant(self);
            let sections = self.image().sections;
            assert forall|i: int|
                0 <= i < sections.len() && (#[trigger] sections[i]).name is Some && index == Some(
                    sections[i].index,
                ) implies section_label(section_table(sections), index) == sections[i].name->0 by {
                lemma_section_label(sections, i);
            }
        }
        label_section(&self.section_names, index)
    }
}

// -----------------------------------------------------------------------------------------
// Symbols
// -----------------------------------------------------------------------------------------

/// A symbol of the image.
#[derive(Debug)]
pub struct SymbolInfo {
    pub name: String,
    pub address: u64,
    pub size: u64,
    /// The name of the section that the symbol belongs to, or `unknown`.
    pub section: String,
}

/// A [`SymbolInfo`] with its texts as character sequences.
pub struct SymbolInfoView {
    pub name: Seq<char>,
    pub address: u64,
    pub size: u64,
    pub section: Seq<char>,
}

impl View for SymbolInfo {
    type V = SymbolInfoView;

    open spec fn view(&self) -> SymbolInfoView {
        SymbolInfoView {
            name: self.name@,
            address: self.address,
            size: self.size,
            section: self.section@,
        }
    }
}

/// The views of a sequence of symbols.
pub open spec fn info_views(infos: Seq<SymbolInfo>) -> Seq<SymbolInfoView> {
    infos.map_values(|info: SymbolInfo| info@)
}

/// A symbol that stands for something in the image: it has an address and a section.
pub open spec fn defined(symbol: SymbolView) -> bool {
    symbol.address != 0 && symbol.section is Some && symbol.section->0 != SHN_UNDEF
}

/// Every symbol of an image: the symbol table, then the dynamic symbol table.
pub open spec fn all_symbols(image: ImageView) -> Seq<SymbolView> {
    image.symbols + image.dynamic_symbols
}

/// What is reported of a symbol.
pub open spec fn described(
    symbol: SymbolView,
    names: Map<usize, Seq<char>>,
) -> SymbolInfoView {
    SymbolInfoView {
        name: symbol.name->0,
        address: symbol.address,
        size: symbol.size,
        section: section_label(names, symbol.section),
    }
}

/// A defined symbol whose name is `wanted` up to the case of ASCII letters.
pub open spec fn is_named(symbol: SymbolView, wanted: Seq<char>) -> bool {
    symbol.name is Some && text::lower(symbol.name->0) == text::lower(wanted) && defined(symbol)
}

/// A defined symbol whose name holds `pattern` up to the case of ASCII letters.
pub open spec fn is_like(symbol: SymbolView, pattern: Seq<char>) -> bool {
    symbol.name is Some && text::occurs_in(text::lower(symbol.name->0), text::lower(pattern)) && defined(symbol)
}

/// A defined symbol whose name holds `RTT` or `rtt`.
pub open spec fn is_rtt_related(symbol: SymbolView) -> bool {
    symbol.name is Some && (text::occurs_in(symbol.name->0, "RTT"@) || text::occurs_in(
        symbol.name->0,
        "rtt"@,
    )) && defined(symbol)
}

/// The first symbol that [`is_named`] `wanted`.
pub open spec fn first_named(symbols: Seq<SymbolView>, wanted: Seq<char>) -> Option<SymbolView>
    decreases symbols.len(),
{
    if symbols.len() == 0 {
        None
    } else if is_named(symbols[0], wanted) {
        Some(symbols[0])
    } else {
        first_named(symbols.drop_first(), wanted)
    }
}

/// The symbols that [`is_like`] picks, in order, as they are reported.
pub open spec fn all_like(
    symbols: Seq<SymbolView>,
    names: Map<usize, Seq<char>>,
    pattern: Seq<char>,
) -> Seq<SymbolInfoView> {
    symbols.filter(|s: SymbolView| is_like(s, pattern)).map_values(
        |s: SymbolView| described(s, names),
    )
}

/// The symbols that [`is_rtt_related`] picks, in order, as they are reported.
pub open spec fn all_rtt_related(
    symbols: Seq<SymbolView>,
    names: Map<usize, Seq<char>>,
) -> Seq<SymbolInfoView> {
    symbols.filter(|s: SymbolView| is_rtt_related(s)).map_values(
        |s: SymbolView| described(s, names),
    )
}

/// Whether a symbol stands for nothing in the image: an import slot or a placeholder.
pub fn is_undefined(symbol: &SymbolRecord) -> (r: bool)
    ensures
        r == !defined(symbol@),
{
    if symbol.address == 0 {
        return true;
    }
    match symbol.section {
        None => true,
        Some(index) => index == SHN_UNDEF,
    }
}

fn describe(name: &String, symbol: &SymbolRecord, names: &HashMap<usize, String>) -> (info: SymbolInfo)
    requires
        symbol@.name == Some(name@),
    ensures
        info@ == described(symbol@, name_table(names@)),
{
    SymbolInfo {
        name: name.clone(),
        address: symbol.address,
        size: symbol.size,
        section: label_section(names, symbol.section).to_owned(),
    }
}

/// Every symbol of an image: the symbol table, then the dynamic symbol table.
pub fn collect_all_symbols(cached: &CachedElf) -> (symbols: Vec<SymbolRecord>)
    requires
        object_file::addresses_fit(cached.image()),
    ensures
        object_file::symbol_views(symbols@) == all_symbols(cached.image()),
{
    let mut symbols = cached.file().symbols();
    let mut dynamic_symbols = cached.file().dynamic_symbols();
    let ghost first = symbols@;
    let ghost second = dynamic_symbols@;
    symbols.append(&mut dynamic_symbols);
    assert(object_file::symbol_views(first + second) == object_file::symbol_views(first) + object_file::symbol_views(second));
    symbols
}

/// The first defined symbol with the given name, up to the case of ASCII letters.
pub fn find_symbol(
    symbols: &Vec<SymbolRecord>,
    names: &HashMap<usize, String>,
    symbol_name: &str,
) -> (found: Option<SymbolInfo>)
    ensures
        match (found, first_named(object_file::symbol_views(symbols@), symbol_name@)) {
            (Some(info), Some(symbol)) => info@ == described(symbol, name_table(names@)),
            (None, None) => true,
            _ => false,
        },
{
    let ghost views = object_file::symbol_views(symbols@);
    let mut i: usize = 0;
    assert(views.skip(0) == views);
    while i < symbols.len()
        invariant
            i <= symbols@.len(),
            views == object_file::symbol_views(symbols@),
            first_named(views.skip(i as int), symbol_name@) == first_named(views, symbol_name@),
        decreases symbols@.len() - i,
    {
        let symbol = &symbols[i];
        assert(views.skip(i as int)[0] == symbol@);
        assert(views.skip(i as int).drop_first() == views.skip(i + 1));
        if let Some(name) = &symbol.name {
            if eq_ignore_ascii_case(name.as_str(), symbol_name) {
                if !is_undefined(symbol) {
                    return Some(describe(name, symbol, names));
                }
            }
        }
        i = i + 1;
    }
    None
}

/// Every defined symbol whose name holds the pattern, up to the case of ASCII letters.
pub fn find_like(
    symbols: &Vec<SymbolRecord>,
    names: &HashMap<usize, String>,
    pattern: &str,
) -> (found: Vec<SymbolInfo>)
    ensures
        info_views(found@) == all_like(object_file::symbol_views(symbols@), name_table(names@), pattern@),
{
    let ghost views = object_file::symbol_views(symbols@);
    let ghost table = name_table(names@);
    let ghost picked = |s: SymbolView| is_like(s, pattern@);
    let mut found: Vec<SymbolInfo> = Vec::new();
    let mut i: usize = 0;
    while i < symbols.len()
        invariant
            i <= symbols@.len(),
            views == object_file::symbol_views(symbols@),
            table == name_table(names@),
            picked == (|s: SymbolView| is_like(s, pattern@)),
            info_views(found@) == views.take(i as int).filter(picked).map_values(
                |s: SymbolView| described(s, table),
            ),
        decreases symbols@.len() - i,
    {
        let symbol = &symbols[i];
        let ghost before = found@;
        proof {
            reveal(Seq::filter);
            assert(views.take(i + 1).drop_last() == views.take(i as int));
            assert(views.take(i + 1).last() == symbol@);
        }
        if let Some(name) = &symbol.name {
            if !is_undefined(symbol) {
                if contains_ignore_ascii_case(name.as_str(), pattern) {
                    found.push(describe(name, symbol, names));
                    assert(info_views(found@) == info_views(before).push(
                        described(symbol@, table),
                    ));
                }
            }
        }
        assert(picked(symbol@) == is_like(symbol@, pattern@));
        i = i + 1;
    }
    assert(views.take(i as int) == views);
    found
}

/// Every defined symbol whose name holds `RTT` or `rtt`.
pub fn find_rtt_related(
    symbols: &Vec<SymbolRecord>,
    names: &HashMap<usize, String>,
) -> (found: Vec<SymbolInfo>)
    ensures
        info_views(found@) == all_rtt_related(object_file::symbol_views(symbols@), name_table(names@)),
{
    let ghost views = object_file::symbol_views(symbols@);
    let ghost table = name_table(names@);
    let ghost picked = |s: SymbolView| is_rtt_related(s);
    let mut found: Vec<SymbolInfo> = Vec::new();
    let mut i: usize = 0;
    while i < symbols.len()
        invariant
            i <= symbols@.len(),
            views == object_file::symbol_views(symbols@),
            table == name_table(names@),
            picked == (|s: SymbolView| is_rtt_related(s)),
            info_views(found@) == views.take(i as int).filter(picked).map_values(
                |s: SymbolView| described(s, table),
            ),
        decreases symbols@.len() - i,
    {
        let symbol = &symbols[i];
        let ghost before = found@;
        proof {
            reveal(Seq::filter);
            assert(views.take(i + 1).drop_last() == views.take(i as int));
            assert(views.take(i + 1).last() == symbol@);
        }
        if let Some(name) = &symbol.name {
            if !is_undefined(symbol) {
                if contains(name.as_str(), "RTT") || contains(name.as_str(), "rtt") {
                    found.push(describe(name, symbol, names));
                    assert(info_views(found@) == info_views(before).push(
                        described(symbol@, table),
                    ));
                }
            }
        }
        assert(picked(symbol@) == is_rtt_related(symbol@));
        i = i + 1;
    }
    assert(views.take(i as int) == views);
    found
}

/// What [`get_symbol_from_elf`] reports: the first symbol of that name, or a message with the
/// name and the image.
pub open spec fn symbol_outcome(
    image: ImageView,
    elf_path: Seq<char>,
    symbol_name: Seq<char>,
) -> Result<SymbolInfoView, ErrorView> {
    match first_named(all_symbols(image), symbol_name) {
        Some(symbol) => Ok(described(symbol, section_table(image.sections))),
        None => Err(
            ErrorView::SymbolNotFound(
                "Symbol '"@ + symbol_name + "' not found in ELF file "@ + elf_path,
            ),
        ),
    }
}

/// The symbol of the image with the given name, up to the case of ASCII letters. The symbol
/// table is searched before the dynamic symbol table, and undefined symbols are passed over.
/// `elf_path` is what the message calls the image.
pub fn get_symbol_from_elf(cached: &CachedElf, elf_path: &str, symbol_name: &str) -> (r: Result<
    SymbolInfo,
    DebugError,
>)
    requires
        object_file::addresses_fit(cached.image()),
    ensures
        error::outcome(r) == symbol_outcome(cached.image(), elf_path@, symbol_name@),
{
    proof {
        use_type_invariant(cached);
    }
    let symbols = collect_all_symbols(cached);
    match find_symbol(&symbols, &cached.section_names, symbol_name) {
        Some(info) => Ok(info),
        None => {
            let mut message = "Symbol '".to_owned();
            message.append(symbol_name);
            message.append("' not found in ELF file ");
            message.append(elf_path);
            Err(DebugError::SymbolNotFound(message))
        },
    }
}

/// A list of symbols with both sides viewed.
pub open spec fn list_outcome(r: Result<Vec<SymbolInfo>, DebugError>) -> Result<
    Seq<SymbolInfoView>,
    ErrorView,
> {
    match r {
        Ok(infos) => Ok(info_views(infos@)),
        Err(error) => Err(error@),
    }
}

/// What [`find_symbols_by_pattern`] reports: the symbols like the pattern, or, if there are
/// none, a message with the pattern and the image.
pub open spec fn pattern_outcome(
    image: ImageView,
    elf_path: Seq<char>,
    pattern: Seq<char>,
) -> Result<Seq<SymbolInfoView>, ErrorView> {
    let found = all_like(all_symbols(image), section_table(image.sections), pattern);
    if found.len() > 0 {
        Ok(found)
    } else {
        Err(
            ErrorView::SymbolNotFound(
                "No symbols matching '"@ + pattern + "' found in ELF file "@ + elf_path,
            ),
        )
    }
}

/// Every defined symbol of the image whose name holds the pattern, up to the case of ASCII
/// letters. `elf_path` is what the message calls the image.
pub fn find_symbols_by_pattern(cached: &CachedElf, elf_path: &str, pattern: &str) -> (r: Result<
    Vec<SymbolInfo>,
    DebugError,
>)
    requires
        object_file::addresses_fit(cached.image()),
    ensures
        list_outcome(r) == pattern_outcome(cached.image(), elf_path@, pattern@),
{
    proof {
        use_type_invariant(cached);
    }
    let symbols = collect_all_symbols(cached);
    let results = find_like(&symbols, &cached.section_names, pattern);
    if results.len() == 0 {
        let mut message = "No symbols matching '".to_owned();
        message.append(pattern);
        message.append("' found in ELF file ");
        message.append(elf_path);
        return Err(DebugError::SymbolNotFound(message));
    }
    Ok(results)
}

/// An overview of an image.
#[derive(Debug)]
pub struct ElfDebugInfo {
    pub entry_point: u64,
    /// The number of entries in both symbol tables, undefined ones included.
    pub symbol_count: usize,
    /// Whether any section looks like debug information.
    pub has_debug_info: bool,
    pub rtt_related_symbols: Vec<SymbolInfo>,
}

/// A section whose name holds `debug`.
pub open spec fn is_debug_section(section: SectionView) -> bool {
    section.name is Some && text::occurs_in(section.name->0, "debug"@)
}

/// Whether any section looks like debug information.
pub fn has_debug_sections(sections: &Vec<SectionRecord>) -> (r: bool)
    ensures
        r == exists|i: int|
            0 <= i < sections@.len() && is_debug_section(#[trigger] object_file::section_views(sections@)[i]),
{
    let ghost views = object_file::section_views(sections@);
    let mut i: usize = 0;
    while i < sections.len()
        invariant
            i <= sections@.len(),
            views == object_file::section_views(sections@),
            forall|k: int| 0 <= k < i ==> !is_debug_section(#[trigger] views[k]),
        decreases sections@.len() - i,
    {
        assert(views[i as int] == sections@[i as int]@);
        if let Some(name) = &sections[i].name {
            if contains(name.as_str(), "debug") {
                return true;
            }
        }
        i = i + 1;
    }
    false
}

/// The overview of an image: the address at which it starts, the number of entries in both symbol
/// tables, whether any section looks like debug information, and the symbols that have to do with
/// RTT.
pub open spec fn is_overview(info: ElfDebugInfo, image: ImageView) -> bool {
    &&& info.entry_point == image.entry
    &&& info.symbol_count == all_symbols(image).len()
    &&& info.has_debug_info <==> exists|i: int|
        0 <= i < image.sections.len() && is_debug_section(#[trigger] image.sections[i])
    &&& info_views(info.rtt_related_symbols@) == all_rtt_related(
        all_symbols(image),
        section_table(image.sections),
    )
}

/// An overview of the image: where it starts, how many symbols it lists, whether it carries
/// debug information, and which of its symbols have to do with RTT.
pub fn get_elf_debug_info(cached: &CachedElf) -> (r: Result<ElfDebugInfo, DebugError>)
    requires
        object_file::addresses_fit(cached.image()),
    ensures
        r matches Ok(info) && {
            let image = cached.image();
            &&& info.entry_point == image.entry
            &&& info.symbol_count == image.symbols.len() + image.dynamic_symbols.len()
            &&& info.has_debug_info == exists|i: int|
                0 <= i < image.sections.len() && is_debug_section(#[trigger] image.sections[i])
            &&& info_views(info.rtt_related_symbols@) == all_rtt_related(
                all_symbols(image),
                section_table(image.sections),
            )
            &&& is_overview(info, image)
        },
{
    proof {
        use_type_invariant(cached);
    }
    let symbols = collect_all_symbols(cached);
    let rtt_related_symbols = find_rtt_related(&symbols, &cached.section_names);
    let sections = cached.file().sections();
    let info = ElfDebugInfo {
        entry_point: cached.file().entry(),
        symbol_count: symbols.len(),
        has_debug_info: has_debug_sections(&sections),
        rtt_related_symbols,
    };
    assert(object_file::symbol_views(symbols@).len() == symbols@.len());
    assert(object_file::section_views(sections@).len() == sections@.len());
    Ok(info)
}

// -----------------------------------------------------------------------------------------
// The RTT control block
// -----------------------------------------------------------------------------------------

/// Whether a control block can stand at this address: target RAM lies there.
pub fn is_valid_rtt_address(address: u64) -> (r: bool)
    ensures
        r == (RAM_START <= address <= RAM_END),
{
    RAM_START <= address && address <= RAM_END
}

/// The address of the control block, once its symbol was looked up.
pub open spec fn rtt_outcome(symbol: Result<SymbolInfoView, ErrorView>) -> Result<u64, ErrorView> {
    match symbol {
        Ok(info) => if RAM_START <= info.address <= RAM_END {
            Ok(info.address)
        } else {
            Err(
                ErrorView::RttError(
                    "RTT symbol found at invalid address 0x"@ + text::hex_text(info.address as nat, 8),
                ),
            )
        },
        Err(error) => Err(error),
    }
}

/// Accepts the control block's symbol if its address lies in target RAM.
pub fn check_rtt_symbol(symbol: Result<SymbolInfo, DebugError>) -> (r: Result<u64, DebugError>)
    ensures
        error::outcome(r) == rtt_outcome(error::outcome(symbol)),
{
    match symbol {
        Ok(info) => {
            if is_valid_rtt_address(info.address) {
                Ok(info.address)
            } else {
                let mut message = "RTT symbol found at invalid address 0x".to_owned();
                message.append(hex(info.address, 8).as_str());
                Err(DebugError::RttError(message))
            }
        },
        Err(error) => Err(error),
    }
}

/// The address of the RTT control block of the image.
pub fn get_rtt_symbol_from_elf(cached: &CachedElf, elf_path: &str) -> (r: Result<u64, DebugError>)
    requires
        object_file::addresses_fit(cached.image()),
    ensures
        error::outcome(r) == rtt_outcome(symbol_outcome(cached.image(), elf_path@, RTT_SYMBOL_NAME@)),
{
    check_rtt_symbol(get_symbol_from_elf(cached, elf_path, RTT_SYMBOL_NAME))
}

// -----------------------------------------------------------------------------------------
// Laws
// -----------------------------------------------------------------------------------------

/// A symbol finds the name of its section: the label for a section's index is that section's
/// name, if it has a readable one and no later section has the same index.
pub proof fn lemma_section_label(sections: Seq<SectionView>, i: int)
    requires
        0 <= i < sections.len(),
        sections[i].name is Some,
        forall|j: int|
            i < j < sections.len() ==> (#[trigger] sections[j]).index != sections[i].index,
    ensures
        section_label(section_table(sections), Some(sections[i].index)) == sections[i].name->0,
    decreases sections.len(),
{
    if i < sections.len() - 1 {
        assert(sections[sections.len() - 1].index != sections[i].index);
        let rest = sections.drop_last();
        assert forall|j: int| i < j < rest.len() implies (#[trigger] rest[j]).index
            != rest[i].index by {
            assert(sections[j].index != sections[i].index);
        }
        lemma_section_label(rest, i);
    }
}

/// A symbol without a section, and one whose section index belongs to no section with a readable
/// name, is reported to be in section `unknown`.
pub proof fn lemma_unknown_section(sections: Seq<SectionView>, index: Option<usize>)
    requires
        index matches Some(i) ==> forall|j: int|
            0 <= j < sections.len() && (#[trigger] sections[j]).index == i ==> sections[j].name
                is None,
    ensures
        section_label(section_table(sections), index) == "unknown"@,
    decreases sections.len(),
{
    if let Some(i) = index {
        if sections.len() > 0 {
            let rest = sections.drop_last();
            assert forall|j: int| 0 <= j < rest.len() && (#[trigger] rest[j]).index
                == i implies rest[j].name is None by {
                assert(sections[j].index == i);
            }
            lemma_unknown_section(rest, index);
            assert(sections[sections.len() - 1].index == i ==> sections.last().name is None);
        }
    }
}

/// Searching two tables one after the other finds what the first holds, and only otherwise what
/// the second holds: the symbol table comes before the dynamic symbol table.
pub proof fn lemma_first_table_first(
    symbols: Seq<SymbolView>,
    dynamic_symbols: Seq<SymbolView>,
    wanted: Seq<char>,
)
    ensures
        first_named(symbols + dynamic_symbols, wanted) == match first_named(symbols, wanted) {
            Some(symbol) => Some(symbol),
            None => first_named(dynamic_symbols, wanted),
        },
    decreases symbols.len(),
{
    if symbols.len() == 0 {
        assert(symbols + dynamic_symbols == dynamic_symbols);
    } else {
        assert((symbols + dynamic_symbols).drop_first() == symbols.drop_first() + dynamic_symbols);
        lemma_first_table_first(symbols.drop_first(), dynamic_symbols, wanted);
    }
}

/// A symbol is found exactly if the tables hold a defined one with that name, up to the case of
/// ASCII letters; the one that is found is such a symbol, so neither an undefined symbol nor
/// address zero is ever reported.
pub proof fn lemma_found_symbol(symbols: Seq<SymbolView>, wanted: Seq<char>)
    ensures
        match first_named(symbols, wanted) {
            Some(symbol) => symbols.contains(symbol) && is_named(symbol, wanted) && symbol.address
                != 0,
            None => forall|i: int| 0 <= i < symbols.len() ==> !is_named(#[trigger] symbols[i], wanted),
        },
    decreases symbols.len(),
{
    if symbols.len() > 0 && !is_named(symbols[0], wanted) {
        let rest = symbols.drop_first();
        lemma_found_symbol(rest, wanted);
        match first_named(rest, wanted) {
            Some(symbol) => {
                let i = choose|i: int| 0 <= i < rest.len() && rest[i] == symbol;
                assert(symbols[i + 1] == symbol);
            },
            None => {
                assert forall|i: int| 0 <= i < symbols.len() implies !is_named(
                    #[trigger] symbols[i],
                    wanted,
                ) by {
                    if i > 0 {
                        assert(rest[i - 1] == symbols[i]);
                    }
                }
            },
        }
    }
}

/// The case of ASCII letters makes no difference to a lookup by name.
pub proof fn lemma_name_case(symbols: Seq<SymbolView>, wanted: Seq<char>, other: Seq<char>)
    requires
        text::lower(wanted) == text::lower(other),
    ensures
        first_named(symbols, wanted) == first_named(symbols, other),
    decreases symbols.len(),
{
    if symbols.len() > 0 {
        lemma_name_case(symbols.drop_first(), wanted, other);
    }
}

/// The case of ASCII letters makes no difference to a search by pattern.
pub proof fn lemma_pattern_case(
    symbols: Seq<SymbolView>,
    names: Map<usize, Seq<char>>,
    pattern: Seq<char>,
    other: Seq<char>,
)
    requires
        text::lower(pattern) == text::lower(other),
    ensures
        all_like(symbols, names, pattern) == all_like(symbols, names, other),
{
    assert((|s: SymbolView| is_like(s, pattern)) =~= (|s: SymbolView| is_like(s, other)));
}

/// Every reported symbol of a search by pattern is a defined one of the tables.
pub proof fn lemma_pattern_sound(
    symbols: Seq<SymbolView>,
    names: Map<usize, Seq<char>>,
    pattern: Seq<char>,
    i: int,
)
    requires
        0 <= i < all_like(symbols, names, pattern).len(),
    ensures
        exists|symbol: SymbolView| #[trigger]
            symbols.contains(symbol) && is_like(symbol, pattern) && all_like(
                symbols,
                names,
                pattern,
            )[i] == described(symbol, names),
        all_like(symbols, names, pattern)[i].address != 0,
{
    let picked = |s: SymbolView| is_like(s, pattern);
    let found = symbols.filter(picked);
    symbols.lemma_filter_contains_rev(picked, found[i]);
    symbols.lemma_filter_pred(picked, i);
    assert(picked(found[i]));
    assert(symbols.contains(found[i]));
}

/// Every defined symbol of the tables whose name holds the pattern is reported.
pub proof fn lemma_pattern_complete(
    symbols: Seq<SymbolView>,
    names: Map<usize, Seq<char>>,
    pattern: Seq<char>,
    symbol: SymbolView,
)
    requires
        symbols.contains(symbol),
        is_like(symbol, pattern),
    ensures
        all_like(symbols, names, pattern).contains(described(symbol, names)),
{
    let picked = |s: SymbolView| is_like(s, pattern);
    let i = choose|i: int| 0 <= i < symbols.len() && symbols[i] == symbol;
    symbols.lemma_filter_contains(picked, i);
    let found = symbols.filter(picked);
    let j = choose|j: int| 0 <= j < found.len() && found[j] == symbol;
    assert(all_like(symbols, names, pattern)[j] == described(symbol, names));
}

/// What a lookup by name finds, a search with that name as the pattern reports too.
pub proof fn lemma_named_is_like(image: ImageView, elf_path: Seq<char>, wanted: Seq<char>)
    ensures
        symbol_outcome(image, elf_path, wanted) matches Ok(info) ==> (pattern_outcome(
            image,
            elf_path,
            wanted,
        ) matches Ok(infos) && infos.contains(info)),
{
    let symbols = all_symbols(image);
    let names = section_table(image.sections);
    lemma_found_symbol(symbols, wanted);
    if let Some(symbol) = first_named(symbols, wanted) {
        let name = text::lower(symbol.name->0);
        assert(name.subrange(0, name.len() as int) == name);
        assert(text::occurs_at(name, text::lower(wanted), 0));
        lemma_pattern_complete(symbols, names, wanted, symbol);
    }
}

/// A control block address that is reported is that of a defined symbol named `_SEGGER_RTT`, up
/// to the case of ASCII letters, and lies in target RAM.
pub proof fn lemma_rtt_address(image: ImageView, elf_path: Seq<char>)
    ensures
        rtt_outcome(symbol_outcome(image, elf_path, RTT_SYMBOL_NAME@)) matches Ok(address) ==> {
            &&& RAM_START <= address <= RAM_END
            &&& exists|symbol: SymbolView| #[trigger]
                all_symbols(image).contains(symbol) && is_named(symbol, RTT_SYMBOL_NAME@)
                    && symbol.address == address
        },
{
    lemma_found_symbol(all_symbols(image), RTT_SYMBOL_NAME@);
}

} // verus!
