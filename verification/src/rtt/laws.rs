//! What lookups report of the symbols that an image records.

use crate::error::DebugError;
use crate::error::ErrorView;
use crate::listing;
use crate::rtt::elf_parser;
use crate::rtt::elf_parser::ElfDebugInfo;
use crate::rtt::elf_parser::SymbolInfo;
use crate::rtt::elf_parser::SymbolInfoView;
use crate::rtt::object_file;
use crate::rtt::object_file::ImageView;
use crate::rtt::object_file::SectionRecord;
use crate::rtt::object_file::SectionView;
use crate::rtt::object_file::SymbolRecord;
use crate::rtt::object_file::SymbolView;
use crate::text;
use vstd::prelude::*;

verus! {

/// The entries of both symbol tables of an image, those of the dynamic one last.
pub open spec fn symbols_of(image: ImageView) -> Seq<SymbolView> {
    image.symbols + image.dynamic_symbols
}

/// The symbol has a name, an address other than zero, and a section other than the one that marks
/// a symbol as undefined.
pub open spec fn is_real(symbol: SymbolView) -> bool {
    symbol.name is Some && symbol.address != 0 && symbol.section is Some && symbol.section->0 != 0
}

/// The texts are the same, letter by letter, up to the case of ASCII letters.
pub open spec fn same_letters(a: Seq<char>, b: Seq<char>) -> bool {
    a.len() == b.len() && forall|i: int| 0 <= i < a.len() ==> text::same_letter(#[trigger] a[i], b[i])
}

/// The pattern stands in the text at that position, up to the case of ASCII letters.
pub open spec fn holds_at(name: Seq<char>, pattern: Seq<char>, at: int) -> bool {
    0 <= at && at + pattern.len() <= name.len() && forall|i: int|
        0 <= i < pattern.len() ==> text::same_letter(name[at + i], #[trigger] pattern[i])
}

/// A real symbol with that name, up to the case of ASCII letters.
pub open spec fn answers_to(symbol: SymbolView, wanted: Seq<char>) -> bool {
    is_real(symbol) && same_letters(symbol.name->0, wanted)
}

/// A real symbol whose name holds the pattern, up to the case of ASCII letters.
pub open spec fn matches_pattern(symbol: SymbolView, pattern: Seq<char>) -> bool {
    is_real(symbol) && exists|at: int| holds_at(symbol.name->0, pattern, at)
}

/// A real symbol whose name holds `RTT` or `rtt`.
pub open spec fn concerns_rtt(symbol: SymbolView) -> bool {
    is_real(symbol) && ((exists|front: Seq<char>, back: Seq<char>|
        symbol.name->0 == #[trigger] (front + "RTT"@ + back)) || (exists|
        front: Seq<char>,
        back: Seq<char>,
    | symbol.name->0 == #[trigger] (front + "rtt"@ + back)))
}

/// What is reported of a symbol is what its entry records, with the name of its section.
pub open spec fn reports(info: SymbolInfoView, symbol: SymbolView, sections: Seq<SectionView>) -> bool {
    &&& symbol.name == Some(info.name)
    &&& info.address == symbol.address
    &&& info.size == symbol.size
    &&& is_section_called(sections, symbol.section, info.section)
}

/// The section with that index has that name: the last such section counts; a symbol without a
/// section, and one whose section has no readable name, is in section `unknown`.
pub open spec fn is_section_called(
    sections: Seq<SectionView>,
    index: Option<usize>,
    name: Seq<char>,
) -> bool {
    if exists|i: int| index is Some && #[trigger] is_last_with(sections, i, index->0) {
        let i = choose|i: int| index is Some && #[trigger] is_last_with(sections, i, index->0);
        match sections[i].name {
            Some(text) => name == text,
            None => name == "unknown"@,
        }
    } else {
        name == "unknown"@
    }
}

/// The section at `i` is the last one with that index.
pub open spec fn is_last_with(sections: Seq<SectionView>, i: int, index: usize) -> bool {
    0 <= i < sections.len() && sections[i].index == index && forall|j: int|
        i < j < sections.len() ==> (#[trigger] sections[j]).index != index
}

proof fn lemma_table(sections: Seq<SectionView>, index: usize)
    ensures
        forall|i: int|
            #![trigger is_last_with(sections, i, index)]
            is_last_with(sections, i, index) ==> match sections[i].name {
                Some(name) => elf_parser::section_table(sections).dom().contains(index)
                    && elf_parser::section_table(sections)[index] == name,
                None => !elf_parser::section_table(sections).dom().contains(index),
            },
        (forall|i: int| !#[trigger] is_last_with(sections, i, index))
            ==> !elf_parser::section_table(sections).dom().contains(index),
    decreases sections.len(),
{
    if sections.len() > 0 {
        let rest = sections.drop_last();
        let last = sections.len() - 1;
        lemma_table(rest, index);
        if sections.last().index == index {
            assert(is_last_with(sections, last, index));
            assert forall|i: int| #[trigger] is_last_with(sections, i, index) implies i == last by {
                if i < last {
                    assert(sections[last].index != index);
                }
            }
        } else {
            assert forall|i: int| is_last_with(sections, i, index) == #[trigger] is_last_with(
                rest,
                i,
                index,
            ) by {
                if is_last_with(sections, i, index) {
                    assert forall|j: int| i < j < rest.len() implies (#[trigger] rest[j]).index
                        != index by {
                        assert(sections[j].index != index);
                    }
                }
                if is_last_with(rest, i, index) {
                    assert forall|j: int| i < j < sections.len() implies (
                    #[trigger] sections[j]).index != index by {
                        if j < last {
                            assert(rest[j].index != index);
                        }
                    }
                }
            }
            assert forall|i: int| #[trigger] is_last_with(sections, i, index) implies match sections[i].name {
                Some(name) => elf_parser::section_table(sections).dom().contains(index)
                    && elf_parser::section_table(sections)[index] == name,
                None => !elf_parser::section_table(sections).dom().contains(index),
            } by {
                assert(is_last_with(rest, i, index));
            }
            if forall|i: int| !#[trigger] is_last_with(sections, i, index) {
                assert forall|i: int| !#[trigger] is_last_with(rest, i, index) by {
                    assert(!is_last_with(sections, i, index));
                }
            }
        }
    }
}

/// A symbol's section is reported by the name of the section with its index.
pub proof fn lemma_section_reported(sections: Seq<SectionView>, index: Option<usize>)
    ensures
        is_section_called(
            sections,
            index,
            elf_parser::section_label(elf_parser::section_table(sections), index),
        ),
{
    if let Some(i) = index {
        lemma_table(sections, i);
    }
}

proof fn lemma_described(symbol: SymbolView, sections: Seq<SectionView>)
    requires
        symbol.name is Some,
    ensures
        reports(
            elf_parser::described(symbol, elf_parser::section_table(sections)),
            symbol,
            sections,
        ),
{
    lemma_section_reported(sections, symbol.section);
}

proof fn lemma_is_named(symbol: SymbolView, wanted: Seq<char>)
    ensures
        elf_parser::is_named(symbol, wanted) <==> answers_to(symbol, wanted),
{
    if symbol.name is Some {
        text::lemma_same_up_to_case(symbol.name->0, wanted);
    }
}

proof fn lemma_occurs_letters(name: Seq<char>, pattern: Seq<char>, at: int)
    ensures
        text::occurs_at(text::lower(name), text::lower(pattern), at) <==> holds_at(
            name,
            pattern,
            at,
        ),
{
    let folded = text::lower(name);
    let part = text::lower(pattern);
    if 0 <= at && at + pattern.len() <= name.len() {
        let piece = name.subrange(at, at + pattern.len());
        assert(folded.subrange(at, at + part.len()) == text::lower(piece));
        text::lemma_same_up_to_case(piece, pattern);
        if text::lower(piece) == part {
            assert forall|i: int| 0 <= i < pattern.len() implies text::same_letter(
                name[at + i],
                #[trigger] pattern[i],
            ) by {
                assert(text::same_letter(piece[i], pattern[i]));
            }
        }
        if holds_at(name, pattern, at) {
            assert forall|i: int| 0 <= i < piece.len() implies text::same_letter(
                #[trigger] piece[i],
                pattern[i],
            ) by {
                assert(text::same_letter(name[at + i], pattern[i]));
            }
        }
    }
}

proof fn lemma_is_like(symbol: SymbolView, pattern: Seq<char>)
    ensures
        elf_parser::is_like(symbol, pattern) <==> matches_pattern(symbol, pattern),
{
    if symbol.name is Some {
        let name = symbol.name->0;
        if text::occurs_in(text::lower(name), text::lower(pattern)) {
            let at = choose|at: int|
                text::occurs_at(text::lower(name), text::lower(pattern), at);
            lemma_occurs_letters(name, pattern, at);
            assert(holds_at(name, pattern, at));
        }
        if exists|at: int| holds_at(name, pattern, at) {
            let at = choose|at: int| holds_at(name, pattern, at);
            lemma_occurs_letters(name, pattern, at);
            assert(text::occurs_at(text::lower(name), text::lower(pattern), at));
        }
    }
}

proof fn lemma_first_named(symbols: Seq<SymbolView>, wanted: Seq<char>, i: int)
    requires
        0 <= i <= symbols.len(),
        i < symbols.len() ==> answers_to(symbols[i], wanted),
        forall|k: int| 0 <= k < i ==> !answers_to(#[trigger] symbols[k], wanted),
    ensures
        elf_parser::first_named(symbols, wanted) == if i < symbols.len() {
            Some(symbols[i])
        } else {
            None
        },
    decreases symbols.len(),
{
    if symbols.len() > 0 {
        lemma_is_named(symbols[0], wanted);
    }
    if i > 0 {
        let rest = symbols.drop_first();
        assert(!answers_to(symbols[0], wanted));
        assert forall|k: int| 0 <= k < i - 1 implies !answers_to(#[trigger] rest[k], wanted) by {
            assert(rest[k] == symbols[k + 1]);
        }
        lemma_first_named(rest, wanted, i - 1);
    }
}

/// The symbol at `i` is the first that answers to the name, or there is none and `i` is the number
/// of symbols.
pub open spec fn is_first_answer(image: ImageView, wanted: Seq<char>, i: int) -> bool {
    &&& 0 <= i <= symbols_of(image).len()
    &&& i < symbols_of(image).len() ==> answers_to(symbols_of(image)[i], wanted)
    &&& forall|k: int| 0 <= k < i ==> !answers_to(#[trigger] symbols_of(image)[k], wanted)
}

/// A lookup by name reports the first real symbol with that name, up to the case of ASCII letters,
/// with the name, the address and the size that its entry records and the name of its section. If
/// there is none, that is reported with the name and the image.
pub proof fn lemma_symbol_by_name(image: ImageView, elf_path: Seq<char>, wanted: Seq<char>, i: int)
    requires
        is_first_answer(image, wanted, i),
    ensures
        match elf_parser::symbol_outcome(image, elf_path, wanted) {
            Ok(info) => i < symbols_of(image).len() && reports(
                info,
                symbols_of(image)[i],
                image.sections,
            ),
            Err(error) => i == symbols_of(image).len() && error == ErrorView::SymbolNotFound(
                "Symbol '"@ + wanted + "' not found in ELF file "@ + elf_path,
            ),
        },
{
    lemma_first_named(symbols_of(image), wanted, i);
    if i < symbols_of(image).len() {
        lemma_described(symbols_of(image)[i], image.sections);
    }
}

/// A search by pattern reports every real symbol whose name holds the pattern, up to the case of
/// ASCII letters, in the order of the tables, and nothing else. If there is none, that is reported
/// with the pattern and the image.
pub proof fn lemma_symbols_by_pattern(image: ImageView, elf_path: Seq<char>, pattern: Seq<char>)
    ensures
        match elf_parser::pattern_outcome(image, elf_path, pattern) {
            Ok(infos) => infos.len() > 0 && listing::lists(
                infos,
                symbols_of(image).len() as int,
                |i: int| matches_pattern(symbols_of(image)[i], pattern),
                |i: int, info: SymbolInfoView| reports(info, symbols_of(image)[i], image.sections),
            ),
            Err(error) => error == ErrorView::SymbolNotFound(
                "No symbols matching '"@ + pattern + "' found in ELF file "@ + elf_path,
            ) && forall|i: int|
                0 <= i < symbols_of(image).len() ==> !matches_pattern(
                    #[trigger] symbols_of(image)[i],
                    pattern,
                ),
        },
{
    let symbols = symbols_of(image);
    let names = elf_parser::section_table(image.sections);
    let wanted = |s: SymbolView| elf_parser::is_like(s, pattern);
    let made = |s: SymbolView| elf_parser::described(s, names);
    let picked = |i: int| wanted(symbols[i]);
    let shown = |i: int, info: SymbolInfoView| info == made(symbols[i]);
    let also_picked = |i: int| matches_pattern(symbols[i], pattern);
    let also_shown = |i: int, info: SymbolInfoView| reports(info, symbols[i], image.sections);
    let found = elf_parser::all_like(symbols, names, pattern);
    listing::lemma_filter_lists(symbols, wanted, made);
    assert(found == symbols.filter(wanted).map_values(made));
    assert forall|i: int| 0 <= i < symbols.len() implies #[trigger] picked(i) == also_picked(i) by {
        lemma_is_like(symbols[i], pattern);
    }
    assert forall|i: int, info: SymbolInfoView|
        0 <= i < symbols.len() && picked(i) && #[trigger] shown(i, info) implies also_shown(
        i,
        info,
    ) by {
        lemma_described(symbols[i], image.sections);
    }
    listing::lemma_lists_too(
        found,
        symbols.len() as int,
        picked,
        shown,
        also_picked,
        also_shown,
    );
    if found.len() == 0 {
        let at = choose|at: Seq<int>| #[trigger]
            listing::is_listing(at, found, symbols.len() as int, also_picked, also_shown);
        assert forall|i: int| 0 <= i < symbols.len() implies !matches_pattern(
            #[trigger] symbols[i],
            pattern,
        ) by {
            if also_picked(i) {
                assert(at.contains(i));
            }
        }
    }
}

/// The symbols that have to do with RTT are the real ones whose names hold `RTT` or `rtt`, in the
/// order of the tables.
pub proof fn lemma_rtt_related(image: ImageView)
    ensures
        listing::lists(
            elf_parser::all_rtt_related(
                elf_parser::all_symbols(image),
                elf_parser::section_table(image.sections),
            ),
            symbols_of(image).len() as int,
            |i: int| concerns_rtt(symbols_of(image)[i]),
            |i: int, info: SymbolInfoView| reports(info, symbols_of(image)[i], image.sections),
        ),
{
    let symbols = symbols_of(image);
    let names = elf_parser::section_table(image.sections);
    let wanted = |s: SymbolView| elf_parser::is_rtt_related(s);
    let made = |s: SymbolView| elf_parser::described(s, names);
    let picked = |i: int| wanted(symbols[i]);
    let shown = |i: int, info: SymbolInfoView| info == made(symbols[i]);
    let also_picked = |i: int| concerns_rtt(symbols[i]);
    let also_shown = |i: int, info: SymbolInfoView| reports(info, symbols[i], image.sections);
    let found = elf_parser::all_rtt_related(symbols, names);
    listing::lemma_filter_lists(symbols, wanted, made);
    assert(found == symbols.filter(wanted).map_values(made));
    assert forall|i: int| 0 <= i < symbols.len() implies #[trigger] picked(i) == also_picked(i) by {
        if symbols[i].name is Some {
            text::lemma_occurs_in(symbols[i].name->0, "RTT"@);
            text::lemma_occurs_in(symbols[i].name->0, "rtt"@);
        }
    }
    assert forall|i: int, info: SymbolInfoView|
        0 <= i < symbols.len() && picked(i) && #[trigger] shown(i, info) implies also_shown(
        i,
        info,
    ) by {
        lemma_described(symbols[i], image.sections);
    }
    listing::lemma_lists_too(
        found,
        symbols.len() as int,
        picked,
        shown,
        also_picked,
        also_shown,
    );
}

/// A symbol counts as defined exactly if it has an address other than zero and a section other than
/// the one that marks a symbol as undefined.
pub proof fn lemma_defined(symbol: SymbolView)
    ensures
        elf_parser::defined(symbol) <==> symbol.address != 0 && symbol.section is Some
            && symbol.section->0 != 0,
{
}

/// All symbols of an image are those of the symbol table and then those of the dynamic one.
pub proof fn lemma_all_symbols(image: ImageView)
    ensures
        elf_parser::all_symbols(image).len() == image.symbols.len() + image.dynamic_symbols.len(),
        forall|i: int|
            0 <= i < image.symbols.len() ==> #[trigger] elf_parser::all_symbols(image)[i]
                == image.symbols[i],
        forall|i: int|
            0 <= i < image.dynamic_symbols.len() ==> elf_parser::all_symbols(
                image,
            )[image.symbols.len() + i] == #[trigger] image.dynamic_symbols[i],
{
}

/// A section looks like debug information exactly if `debug` stands in its name.
pub proof fn lemma_debug_section(section: SectionView)
    ensures
        elf_parser::is_debug_section(section) <==> section.name is Some && exists|
            front: Seq<char>,
            back: Seq<char>,
        | section.name->0 == #[trigger] (front + "debug"@ + back),
{
    if section.name is Some {
        text::lemma_occurs_in(section.name->0, "debug"@);
    }
}

/// An overview has the image's entry point, as many symbols as both tables have entries, undefined
/// ones as well, and tells of debug information exactly if `debug` stands in the name of a section.
pub proof fn lemma_overview(info: ElfDebugInfo, image: ImageView)
    requires
        elf_parser::is_overview(info, image),
    ensures
        info.entry_point == image.entry,
        info.symbol_count == image.symbols.len() + image.dynamic_symbols.len(),
        info.has_debug_info <==> exists|i: int|
            0 <= i < image.sections.len() && (#[trigger] image.sections[i]).name is Some && exists|
                front: Seq<char>,
                back: Seq<char>,
            | image.sections[i].name->0 == #[trigger] (front + "debug"@ + back),
        listing::lists(
            elf_parser::info_views(info.rtt_related_symbols@),
            symbols_of(image).len() as int,
            |i: int| concerns_rtt(symbols_of(image)[i]),
            |i: int, shown: SymbolInfoView| reports(shown, symbols_of(image)[i], image.sections),
        ),
{
    lemma_rtt_related(image);
    if info.has_debug_info {
        let i = choose|i: int|
            0 <= i < image.sections.len() && elf_parser::is_debug_section(
                #[trigger] image.sections[i],
            );
        lemma_debug_section(image.sections[i]);
    }
    assert forall|i: int|
        0 <= i < image.sections.len() && (#[trigger] image.sections[i]).name is Some && (exists|
            front: Seq<char>,
            back: Seq<char>,
        | image.sections[i].name->0 == #[trigger] (front + "debug"@ + back)) implies info.has_debug_info by {
        lemma_debug_section(image.sections[i]);
    }
}

/// The control block is accepted exactly if its symbol is found and its address lies in target RAM,
/// from 0x20000000 up to 0x2FFFFFFF, and it stands at that very address. An address elsewhere is
/// reported, and so is the reason why the symbol was not found.
pub proof fn lemma_rtt_outcome(symbol: Result<SymbolInfoView, ErrorView>)
    ensures
        match symbol {
            Ok(info) => if 0x2000_0000 <= info.address <= 0x2FFF_FFFF {
                elf_parser::rtt_outcome(symbol) == Ok::<u64, ErrorView>(info.address)
            } else {
                elf_parser::rtt_outcome(symbol) == Err::<u64, ErrorView>(
                    ErrorView::RttError(
                        "RTT symbol found at invalid address 0x"@ + text::hex_text(
                            info.address as nat,
                            8,
                        ),
                    ),
                )
            },
            Err(error) => elf_parser::rtt_outcome(symbol) == Err::<u64, ErrorView>(error),
        },
{
}

/// The control block of an image is the first real symbol named `_SEGGER_RTT`, up to the case of
/// ASCII letters: its address is reported whenever it lies in target RAM, and an error only if
/// there is no such symbol or its address lies elsewhere.
pub proof fn lemma_control_block(image: ImageView, elf_path: Seq<char>, i: int)
    requires
        is_first_answer(image, "_SEGGER_RTT"@, i),
    ensures
        ({
            let r = elf_parser::rtt_outcome(
                elf_parser::symbol_outcome(image, elf_path, elf_parser::RTT_SYMBOL_NAME@),
            );
            let symbols = symbols_of(image);
            &&& i < symbols.len() && 0x2000_0000 <= symbols[i].address <= 0x2FFF_FFFF ==> r == Ok::<
                u64,
                ErrorView,
            >(symbols[i].address)
            &&& i < symbols.len() && !(0x2000_0000 <= symbols[i].address <= 0x2FFF_FFFF) ==> r
                == Err::<u64, ErrorView>(
                ErrorView::RttError(
                    "RTT symbol found at invalid address 0x"@ + text::hex_text(
                        symbols[i].address as nat,
                        8,
                    ),
                ),
            )
            &&& i == symbols.len() ==> r == Err::<u64, ErrorView>(
                ErrorView::SymbolNotFound(
                    "Symbol '"@ + "_SEGGER_RTT"@ + "' not found in ELF file "@ + elf_path,
                ),
            )
        }),
{
    lemma_symbol_by_name(image, elf_path, "_SEGGER_RTT"@, i);
}

/// Symbols count as readable exactly if the base leaves room for two numbers of 32 bits.
pub proof fn lemma_addresses_fit(image: ImageView)
    ensures
        object_file::addresses_fit(image) <==> image.base + 0xFFFF_FFFF + 0xFFFF_FFFF
            <= 0xFFFF_FFFF_FFFF_FFFF,
{
}

/// The views of sections and symbols have what these hold.
pub proof fn lemma_record_views(section: SectionRecord, symbol: SymbolRecord, info: SymbolInfo)
    ensures
        section@.index == section.index,
        section.name matches Some(name) ==> section@.name == Some(name@),
        section.name is None ==> section@.name is None,
        section.data matches Ok(bytes) ==> section@.data == Ok::<Seq<u8>, Seq<char>>(bytes@),
        section.data matches Err(text) ==> section@.data == Err::<Seq<u8>, Seq<char>>(text@),
        symbol.name matches Some(name) ==> symbol@.name == Some(name@),
        symbol.name is None ==> symbol@.name is None,
        symbol@.address == symbol.address,
        symbol@.size == symbol.size,
        symbol@.section == symbol.section,
        info@.name == info.name@,
        info@.address == info.address,
        info@.size == info.size,
        info@.section == info.section@,
{
}

/// The views of sequences have the view of each item, in order.
pub proof fn lemma_sequence_views(
    sections: Seq<SectionRecord>,
    symbols: Seq<SymbolRecord>,
    infos: Seq<SymbolInfo>,
)
    ensures
        object_file::section_views(sections).len() == sections.len(),
        forall|i: int|
            0 <= i < sections.len() ==> #[trigger] object_file::section_views(sections)[i]
                == sections[i]@,
        object_file::symbol_views(symbols).len() == symbols.len(),
        forall|i: int|
            0 <= i < symbols.len() ==> #[trigger] object_file::symbol_views(symbols)[i]
                == symbols[i]@,
        elf_parser::info_views(infos).len() == infos.len(),
        forall|i: int|
            0 <= i < infos.len() ==> #[trigger] elf_parser::info_views(infos)[i] == infos[i]@,
{
}

/// The view of a list of symbols is the view of each, or of the error.
pub proof fn lemma_list_outcome(r: Result<Vec<SymbolInfo>, DebugError>)
    ensures
        r matches Ok(infos) ==> elf_parser::list_outcome(r) == Ok::<
            Seq<SymbolInfoView>,
            ErrorView,
        >(elf_parser::info_views(infos@)),
        r matches Err(error) ==> elf_parser::list_outcome(r) == Err::<
            Seq<SymbolInfoView>,
            ErrorView,
        >(error@),
{
}

/// The texts of a table of section names are the text of each name, by the same index.
pub proof fn lemma_name_table(names: Map<usize, String>, index: usize)
    ensures
        elf_parser::name_table(names).dom().contains(index) <==> names.dom().contains(index),
        names.dom().contains(index) ==> elf_parser::name_table(names)[index] == names[index]@,
{
}

} // verus!
