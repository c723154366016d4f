//! Variables of the target program, as far as the entries of one unit tell.

use crate::error;
use crate::error::DebugError;
use crate::error::ErrorView;
use crate::parser::dwarf_data;
use crate::parser::dwarf_data::AttrRead;
use crate::parser::dwarf_data::AttrReadView;
use crate::parser::dwarf_data::AttrValue;
use crate::parser::dwarf_data::AttrView;
use crate::parser::entry;
use crate::parser::entry::Entry;
use crate::parser::entry::EntryView;
use crate::parser::types::TypeInfo;
use crate::parser::types::TypeView;
use crate::text::same_text;
use vstd::prelude::*;

verus! {

/// A variable: where it stands and what it holds.
#[derive(Debug)]
pub struct VariableInfo {
    pub name: String,
    pub address: u64,
    pub type_info: TypeInfo,
}

/// A [`VariableInfo`] with its contents viewed.
pub struct VariableView {
    pub name: Seq<char>,
    pub address: u64,
    pub type_info: TypeView,
}

impl View for VariableInfo {
    type V = VariableView;

    open spec fn view(&self) -> VariableView {
        VariableView { name: self.name@, address: self.address, type_info: self.type_info@ }
    }
}

impl Clone for VariableInfo {
    fn clone(&self) -> (r: VariableInfo)
        ensures
            r@ == self@,
    {
        VariableInfo {
            name: self.name.clone(),
            address: self.address,
            type_info: self.type_info.clone(),
        }
    }
}

/// The entry of a variable with that name.
pub open spec fn is_variable(e: EntryView, name: Seq<char>) -> bool {
    e.tag == entry::DW_TAG_VARIABLE && e.name == Some(name)
}

/// The position of the first variable with that name, or the number of entries.
pub open spec fn variable_at(entries: Seq<EntryView>, name: Seq<char>) -> int
    decreases entries.len(),
{
    if entries.len() == 0 || is_variable(entries[0], name) {
        0
    } else {
        1 + variable_at(entries.drop_first(), name)
    }
}

pub(crate) proof fn lemma_variable_at(entries: Seq<EntryView>, name: Seq<char>, at: int)
    requires
        0 <= at <= entries.len(),
        forall|i: int| 0 <= i < at ==> !is_variable(#[trigger] entries[i], name),
        at < entries.len() ==> is_variable(entries[at], name),
    ensures
        variable_at(entries, name) == at,
    decreases entries.len(),
{
    if at > 0 {
        let rest = entries.drop_first();
        assert(!is_variable(entries[0], name));
        assert forall|i: int| 0 <= i < at - 1 implies !is_variable(#[trigger] rest[i], name) by {
            assert(rest[i] == entries[i + 1]);
        }
        lemma_variable_at(rest, name, at - 1);
    }
}

/// The position of the first variable with that name, or the number of entries.
pub fn find_variable(entries: &Vec<Entry>, name: &str) -> (at: usize)
    ensures
        at == variable_at(entry::entry_views(entries@), name@),
        at <= entries@.len(),
{
    let ghost views = entry::entry_views(entries@);
    let mut at: usize = 0;
    while at < entries.len()
        invariant
            at <= entries@.len(),
            views == entry::entry_views(entries@),
            forall|i: int| 0 <= i < at ==> !is_variable(#[trigger] views[i], name@),
        decreases entries@.len() - at,
    {
        assert(views[at as int] == entries@[at as int]@);
        if entries[at].tag == entry::DW_TAG_VARIABLE {
            if let Some(text) = &entries[at].name {
                if same_text(text.as_str(), name) {
                    proof {
                        lemma_variable_at(views, name@, at as int);
                    }
                    return at;
                }
            }
        }
        at = at + 1;
    }
    proof {
        lemma_variable_at(views, name@, at as int);
    }
    at
}

/// The address that a location attribute gives: the number that it is, or `leading` if it is
/// an expression, where `leading` is the address that the expression starts with.
pub open spec fn address_given(location: AttrReadView, leading: Option<u64>) -> Result<
    u64,
    ErrorView,
> {
    match location {
        Err(message) => Err(ErrorView::DwarfError(message)),
        Ok(Some(AttrView::Exprloc(_))) if leading is Some => Ok(leading->0),
        Ok(Some(AttrView::Udata(address))) => Ok(address),
        _ => Err(ErrorView::DwarfError("Cannot determine variable address"@)),
    }
}

/// The address that the expression of a location attribute starts with, where addresses are
/// `address_size` bytes long.
pub open spec fn leading_of(location: AttrReadView, address_size: u8) -> Option<u64> {
    match location {
        Ok(Some(AttrView::Exprloc(expression))) => dwarf_data::leading_address(
            expression,
            address_size,
        ),
        _ => None,
    }
}

/// Where the variable of an entry stands, where addresses are `address_size` bytes long.
pub open spec fn address_of(e: EntryView, address_size: u8) -> Result<u64, ErrorView> {
    address_given(e.location, leading_of(e.location, address_size))
}

/// The entry of a variable with that name which stands at a fixed address: a global or static
/// one, neither a local variable nor a mere declaration.
pub open spec fn is_static(e: EntryView, name: Seq<char>, address_size: u8) -> bool {
    is_variable(e, name) && address_of(e, address_size) is Ok
}

/// The position of the first variable with that name which stands at a fixed address, or the
/// number of entries.
pub open spec fn static_at(entries: Seq<EntryView>, name: Seq<char>, address_size: u8) -> int
    decreases entries.len(),
{
    if entries.len() == 0 || is_static(entries[0], name, address_size) {
        0
    } else {
        1 + static_at(entries.drop_first(), name, address_size)
    }
}

/// Why the first variable with that name does not stand at a fixed address, if there is one and
/// it does not.
pub open spec fn address_error(
    entries: Seq<EntryView>,
    name: Seq<char>,
    address_size: u8,
) -> Option<ErrorView> {
    let at = variable_at(entries, name);
    if at < entries.len() {
        match address_of(entries[at], address_size) {
            Ok(_) => None,
            Err(error) => Some(error),
        }
    } else {
        None
    }
}

/// The address that a location attribute gives.
pub fn get_variable_address(location: &AttrRead, leading: Option<u64>) -> (r: Result<
    u64,
    DebugError,
>)
    ensures
        error::outcome(r) == address_given(dwarf_data::read_view(*location), leading),
{
    match location {
        Err(message) => Err(DebugError::DwarfError(message.clone())),
        Ok(Some(AttrValue::Exprloc(_))) => match leading {
            Some(address) => Ok(address),
            None => Err(DebugError::DwarfError("Cannot determine variable address".to_owned())),
        },
        Ok(Some(AttrValue::Udata(address))) => Ok(*address),
        _ => Err(DebugError::DwarfError("Cannot determine variable address".to_owned())),
    }
}

} // verus!
