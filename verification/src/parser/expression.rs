//! Expressions over variables: `name`, `name.member`, `name[index]`, `name.member[index]`.

use crate::error;
use crate::error::DebugError;
use crate::error::ErrorView;
use crate::parser::dwarf_parser;
use crate::parser::types;
use crate::parser::types::MemberView;
use crate::parser::types::TypeInfo;
use crate::parser::types::TypeView;
use crate::parser::types::TypedMember;
use crate::parser::variable::VariableInfo;
use crate::parser::variable::VariableView;
use crate::rtt::elf_parser::CachedElf;
use crate::rtt::object_file::SectionView;
use crate::text;
use crate::text::chars_of;
use crate::text::same_text;
use vstd::prelude::*;
use vstd::slice::slice_subrange;

verus! {

/// What an expression stands for.
#[derive(Debug)]
pub struct ResolvedSymbol {
    pub expression: String,
    pub address: u64,
    pub type_info: TypeInfo,
}

/// A [`ResolvedSymbol`] with its contents viewed.
pub struct ResolvedView {
    pub expression: Seq<char>,
    pub address: u64,
    pub type_info: TypeView,
}

impl View for ResolvedSymbol {
    type V = ResolvedView;

    open spec fn view(&self) -> ResolvedView {
        ResolvedView {
            expression: self.expression@,
            address: self.address,
            type_info: self.type_info@,
        }
    }
}

impl Clone for ResolvedSymbol {
    fn clone(&self) -> (r: ResolvedSymbol)
        ensures
            r@ == self@,
    {
        ResolvedSymbol {
            expression: self.expression.clone(),
            address: self.address,
            type_info: self.type_info.clone(),
        }
    }
}

// -----------------------------------------------------------------------------------------
// Parts
// -----------------------------------------------------------------------------------------

/// A bracket, if the part has one, is followed by at least one more character, and the last
/// one, which closes the subscript, is an ASCII character.
pub open spec fn well_formed_part(part: Seq<char>) -> bool {
    let at = text::first_at(part, '[');
    at < part.len() ==> at + 1 < part.len() && part.last() < '\u{80}'
}

/// The name in a part: what comes before the bracket.
pub open spec fn part_name(part: Seq<char>) -> Seq<char> {
    part.take(text::first_at(part, '['))
}

/// The index in a part: the number between the bracket and the last character, if there is a
/// bracket and that is a number.
pub open spec fn part_index(part: Seq<char>) -> Option<usize> {
    let at = text::first_at(part, '[');
    if at < part.len() {
        text::usize_value(part.subrange(at + 1, part.len() - 1))
    } else {
        None
    }
}

/// Whether a part can be taken apart.
pub fn is_well_formed_part(part: &str) -> (r: bool)
    ensures
        r == well_formed_part(part@),
{
    let chars = chars_of(part);
    let at: usize = text::position_of(chars.as_slice(), '[');
    if at < chars.len() {
        at < chars.len() - 1 && chars[chars.len() - 1] < '\u{80}'
    } else {
        true
    }
}

/// Takes a part apart: `name[5]` is the name `name` and the index 5.
pub fn parse_name_and_index(s: &str) -> (r: (&str, Option<usize>))
    requires
        well_formed_part(s@),
    ensures
        r.0@ == part_name(s@),
        r.1 == part_index(s@),
{
    let chars = chars_of(s);
    let at: usize = text::position_of(chars.as_slice(), '[');
    proof {
        text::lemma_first_at(s@, '[');
    }
    if at < chars.len() {
        let name = s.substring_char(0, at);
        let index = text::parse_usize(slice_subrange(chars.as_slice(), at + 1, chars.len() - 1));
        (name, index)
    } else {
        assert(s@.take(at as int) == s@);
        (s, None)
    }
}

// -----------------------------------------------------------------------------------------
// Walking from a variable to what the expression stands for
// -----------------------------------------------------------------------------------------

/// A place in target memory and the type of what it holds.
pub struct PlaceView {
    pub address: u64,
    pub type_info: TypeView,
}

/// The element with that index of an array at an address; `None` if its address is beyond the
/// address space.
pub open spec fn element_at(address: u64, element: TypeView, index: usize) -> Option<PlaceView> {
    let place = address + index * types::type_size(element);
    if place <= u64::MAX {
        Some(PlaceView { address: place as u64, type_info: element })
    } else {
        None
    }
}

/// Where the first part leads in a variable: to the variable, or to the element with the
/// index, which only an array has; `None` if that element is beyond the address space.
pub open spec fn first_place(var: VariableView, name: Seq<char>, index: Option<usize>) -> Option<
    Result<PlaceView, ErrorView>,
> {
    match index {
        None => Some(Ok(PlaceView { address: var.address, type_info: var.type_info })),
        Some(i) => match var.type_info {
            TypeView::Array { element, .. } => match element_at(var.address, *element, i) {
                Some(place) => Some(Ok(place)),
                None => None,
            },
            _ => Some(Err(ErrorView::DwarfError("'"@ + name + "' is not an array"@))),
        },
    }
}

/// The first member with that name.
pub open spec fn member_named(members: Seq<MemberView>, name: Seq<char>) -> Option<MemberView>
    decreases members.len(),
{
    if members.len() == 0 {
        None
    } else if members[0].name == name {
        Some(members[0])
    } else {
        member_named(members.drop_first(), name)
    }
}

/// Where a further part leads from a place: to the member, or to the element with the index if
/// the member is an array; an index on any other member is ignored. `None` if the part is not
/// well-formed or leads beyond the address space.
pub open spec fn next_place(place: PlaceView, part: Seq<char>) -> Option<
    Result<PlaceView, ErrorView>,
> {
    let name = part_name(part);
    if !well_formed_part(part) {
        None
    } else {
        match place.type_info {
            TypeView::Struct { members, .. } => match member_named(members, name) {
                None => Some(
                    Err(ErrorView::MemberNotFound(types::type_text(place.type_info), name)),
                ),
                Some(member) => if place.address + member.offset > u64::MAX {
                    None
                } else {
                    let address = (place.address + member.offset) as u64;
                    match (part_index(part), member.type_info) {
                        (Some(i), TypeView::Array { element, .. }) => match element_at(
                            address,
                            *element,
                            i,
                        ) {
                            Some(inner) => Some(Ok(inner)),
                            None => None,
                        },
                        _ => Some(Ok(PlaceView { address, type_info: member.type_info })),
                    }
                },
            },
            _ => Some(
                Err(
                    ErrorView::DwarfError(
                        "Cannot access member '"@ + name + "' on non-struct type"@,
                    ),
                ),
            ),
        }
    }
}

/// Where the parts lead from a place, one after the other.
pub open spec fn last_place(place: PlaceView, parts: Seq<Seq<char>>) -> Option<
    Result<PlaceView, ErrorView>,
>
    decreases parts.len(),
{
    if parts.len() == 0 {
        Some(Ok(place))
    } else {
        match next_place(place, parts[0]) {
            Some(Ok(next)) => last_place(next, parts.drop_first()),
            stopped => stopped,
        }
    }
}

/// What an expression stands for, given the variable that it starts with; `None` if a part of
/// it is not well-formed or leads beyond the address space.
pub open spec fn resolved(var: VariableView, expr: Seq<char>) -> Option<
    Result<ResolvedView, ErrorView>,
> {
    let parts = text::split_on(expr, '.');
    if !well_formed_part(parts[0]) {
        None
    } else {
        match first_place(var, part_name(parts[0]), part_index(parts[0])) {
            None => None,
            Some(Err(error)) => Some(Err(error)),
            Some(Ok(start)) => match last_place(start, parts.drop_first()) {
                None => None,
                Some(Err(error)) => Some(Err(error)),
                Some(Ok(place)) => Some(
                    Ok(
                        ResolvedView {
                            expression: expr,
                            address: place.address,
                            type_info: place.type_info,
                        },
                    ),
                ),
            },
        }
    }
}

/// A place in target memory and the type of what it holds.
struct Place {
    address: u64,
    type_info: TypeInfo,
}

impl View for Place {
    type V = PlaceView;

    closed spec fn view(&self) -> PlaceView {
        PlaceView { address: self.address, type_info: self.type_info@ }
    }
}

spec fn option_outcome<T: View>(r: Option<Result<T, DebugError>>) -> Option<
    Result<T::V, ErrorView>,
> {
    match r {
        Some(result) => Some(error::outcome(result)),
        None => None,
    }
}

fn find_element(address: u64, element: TypeInfo, index: usize) -> (r: Option<Place>)
    ensures
        match r {
            Some(place) => element_at(address, element@, index) == Some(place@),
            None => element_at(address, element@, index) is None,
        },
{
    let size: u64 = element.size();
    assert(index * size >= 0) by (nonlinear_arith);
    match (index as u64).checked_mul(size) {
        None => None,
        Some(distance) => match address.checked_add(distance) {
            None => None,
            Some(place) => Some(Place { address: place, type_info: element }),
        },
    }
}

fn find_first_place(var: VariableInfo, name: &str, index: Option<usize>) -> (r: Option<
    Result<Place, DebugError>,
>)
    ensures
        option_outcome(r) == first_place(var@, name@, index),
{
    match index {
        None => Some(Ok(Place { address: var.address, type_info: var.type_info })),
        Some(i) => match var.type_info {
            TypeInfo::Array { element, .. } => match find_element(var.address, *element, i) {
                Some(place) => Some(Ok(place)),
                None => None,
            },
            _ => {
                let mut message = "'".to_owned();
                message.append(name);
                message.append("' is not an array");
                Some(Err(DebugError::DwarfError(message)))
            },
        },
    }
}

fn find_member(members: &Vec<TypedMember>, name: &str) -> (found: Option<usize>)
    ensures
        match (found, member_named(members@.map_values(|m: TypedMember| m@), name@)) {
            (Some(i), Some(member)) => i < members@.len() && members@[i as int]@ == member,
            (None, None) => true,
            _ => false,
        },
{
    let ghost views = members@.map_values(|m: TypedMember| m@);
    let mut i: usize = 0;
    assert(views.skip(0) == views);
    while i < members.len()
        invariant
            i <= members@.len(),
            views == members@.map_values(|m: TypedMember| m@),
            member_named(views.skip(i as int), name@) == member_named(views, name@),
        decreases members@.len() - i,
    {
        assert(views.skip(i as int)[0] == members@[i as int]@);
        assert(views.skip(i as int).drop_first() == views.skip(i + 1));
        if same_text(members[i].name.as_str(), name) {
            return Some(i);
        }
        i = i + 1;
    }
    None
}

fn find_next_place(place: Place, part: &str) -> (r: Option<Result<Place, DebugError>>)
    ensures
        option_outcome(r) == next_place(place@, part@),
{
    if !is_well_formed_part(part) {
        return None;
    }
    let (name, index) = parse_name_and_index(part);
    let found: Option<usize> = match &place.type_info {
        TypeInfo::Struct { members, .. } => {
            assert(place@.type_info->Struct_members == members@.map_values(
                |m: TypedMember| m@,
            ));
            find_member(members, name)
        },
        _ => {
            let mut message = "Cannot access member '".to_owned();
            message.append(name);
            message.append("' on non-struct type");
            return Some(Err(DebugError::DwarfError(message)));
        },
    };
    let at: usize = match found {
        Some(at) => at,
        None => {
            return Some(
                Err(DebugError::MemberNotFound(place.type_info.typename(), name.to_owned())),
            );
        },
    };
    match place.type_info {
        TypeInfo::Struct { members, .. } => {
            let mut members = members;
            let member = members.swap_remove(at);
            let address: u64 = match place.address.checked_add(member.offset) {
                Some(address) => address,
                None => {
                    return None;
                },
            };
            match (index, member.type_info) {
                (Some(i), TypeInfo::Array { element, .. }) => match find_element(
                    address,
                    *element,
                    i,
                ) {
                    Some(inner) => Some(Ok(inner)),
                    None => None,
                },
                (_, type_info) => Some(Ok(Place { address, type_info })),
            }
        },
        _ => None,
    }
}

/// What an expression stands for, given the variable that it starts with; `None` if a part of
/// it is not well-formed or leads beyond the address space.
pub fn resolve_in_variable(var: VariableInfo, expr: &str) -> (r: Option<
    Result<ResolvedSymbol, DebugError>,
>)
    ensures
        match (r, resolved(var@, expr@)) {
            (Some(found), Some(expected)) => error::outcome(found) == expected,
            (None, None) => true,
            _ => false,
        },
{
    proof {
        text::lemma_split_on(expr@, '.');
    }
    let parts = text::split(expr, '.');
    let ghost views = text::split_on(expr@, '.');
    assert(views == text::texts(parts@));
    assert(views[0] == parts@[0]@);
    if !is_well_formed_part(parts[0].as_str()) {
        return None;
    }
    let (name, index) = parse_name_and_index(parts[0].as_str());
    let mut place = match find_first_place(var, name, index) {
        Some(Ok(place)) => place,
        Some(Err(error)) => {
            return Some(Err(error));
        },
        None => {
            return None;
        },
    };
    let ghost start = place@;
    let mut i: usize = 1;
    assert(views.skip(1) == views.drop_first());
    while i < parts.len()
        invariant
            1 <= i <= parts@.len(),
            views == text::split_on(expr@, '.'),
            views == text::texts(parts@),
            well_formed_part(views[0]),
            first_place(var@, part_name(views[0]), part_index(views[0])) == Some(
                Ok::<PlaceView, ErrorView>(start),
            ),
            last_place(place@, views.skip(i as int)) == last_place(start, views.drop_first()),
        decreases parts@.len() - i,
    {
        assert(views.skip(i as int)[0] == parts@[i as int]@);
        assert(views.skip(i as int).drop_first() == views.skip(i + 1));
        place = match find_next_place(place, parts[i].as_str()) {
            Some(Ok(next)) => next,
            Some(Err(error)) => {
                return Some(Err(error));
            },
            None => {
                return None;
            },
        };
        i = i + 1;
    }
    Some(
        Ok(
            ResolvedSymbol {
                expression: expr.to_owned(),
                address: place.address,
                type_info: place.type_info,
            },
        ),
    )
}

// -----------------------------------------------------------------------------------------
// Expressions over the variables of an image
// -----------------------------------------------------------------------------------------

/// What [`resolve_expression`] reports; `None` if a part of the expression is not well-formed,
/// leads beyond the address space, or [`dwarf_parser::variable_outcome`] is `None`.
pub open spec fn expression_outcome(sections: Seq<SectionView>, expr: Seq<char>) -> Option<
    Result<ResolvedView, ErrorView>,
> {
    let first = text::split_on(expr, '.')[0];
    if !well_formed_part(first) {
        None
    } else {
        match dwarf_parser::variable_outcome(sections, part_name(first)) {
            None => None,
            Some(Err(error)) => Some(Err(error)),
            Some(Ok(var)) => resolved(var, expr),
        }
    }
}

/// What an expression over the variables of the image stands for.
pub fn resolve_expression(cached: &CachedElf, expr: &str) -> (r: Result<
    ResolvedSymbol,
    DebugError,
>)
    requires
        expression_outcome(cached.image().sections, expr@) is Some,
    ensures
        expression_outcome(cached.image().sections, expr@) == Some(error::outcome(r)),
{
    proof {
        text::lemma_split_on(expr@, '.');
    }
    let parts = text::split(expr, '.');
    assert(text::split_on(expr@, '.')[0] == parts@[0]@);
    let (name, _) = parse_name_and_index(parts[0].as_str());
    match dwarf_parser::get_variable_info(cached, name) {
        Ok(var) => resolve_in_variable(var, expr).unwrap(),
        Err(error) => Err(error),
    }
}

/// Whether [`resolve_expression`] can be asked about the expression.
pub fn is_resolvable(cached: &CachedElf, expr: &str) -> (r: bool)
    ensures
        r == expression_outcome(cached.image().sections, expr@) is Some,
{
    proof {
        text::lemma_split_on(expr@, '.');
    }
    let parts = text::split(expr, '.');
    assert(text::split_on(expr@, '.')[0] == parts@[0]@);
    if !is_well_formed_part(parts[0].as_str()) {
        return false;
    }
    let (name, _) = parse_name_and_index(parts[0].as_str());
    match dwarf_parser::checked_get_variable_info(cached, name) {
        Some(Ok(var)) => resolve_in_variable(var, expr).is_some(),
        Some(Err(_)) => true,
        None => false,
    }
}

/// What an expression over the variables of the image stands for; `None` if a part of it is not
/// well-formed, leads beyond the address space, or [`dwarf_parser::variable_outcome`] is `None`.
pub fn checked_resolve_expression(cached: &CachedElf, expr: &str) -> (r: Option<
    Result<ResolvedSymbol, DebugError>,
>)
    ensures
        match (r, expression_outcome(cached.image().sections, expr@)) {
            (Some(found), Some(expected)) => error::outcome(found) == expected,
            (None, None) => true,
            _ => false,
        },
{
    if is_resolvable(cached, expr) {
        Some(resolve_expression(cached, expr))
    } else {
        None
    }
}

// -----------------------------------------------------------------------------------------
// Laws
// -----------------------------------------------------------------------------------------

/// A bare name stands for the variable itself.
pub proof fn lemma_bare_name(var: VariableView, expr: Seq<char>)
    requires
        !expr.contains('.'),
        !expr.contains('['),
    ensures
        resolved(var, expr) == Some(
            Ok::<ResolvedView, ErrorView>(
                ResolvedView { expression: expr, address: var.address, type_info: var.type_info },
            ),
        ),
{
    text::lemma_split_on(expr, '.');
    text::lemma_split_absent(expr, '.');
    text::lemma_first_at(expr, '[');
    if text::first_at(expr, '[') < expr.len() {
        assert(expr[text::first_at(expr, '[')] == '[');
    }
    let parts = text::split_on(expr, '.');
    assert(parts.drop_first() == Seq::<Seq<char>>::empty());
}

/// A name with a subscript stands for the element of the array with that index.
pub proof fn lemma_subscript(var: VariableView, element: TypeView, expr: Seq<char>)
    requires
        !expr.contains('.'),
        well_formed_part(expr),
        part_index(expr) is Some,
        var.type_info matches TypeView::Array { element: e, .. } && *e == element,
        var.address + part_index(expr)->0 * types::type_size(element) <= u64::MAX,
    ensures
        resolved(var, expr) matches Some(Ok(r)) && r.expression == expr && r.type_info == element
            && r.address == var.address + part_index(expr)->0 * types::type_size(element),
{
    text::lemma_split_on(expr, '.');
    text::lemma_split_absent(expr, '.');
    let parts = text::split_on(expr, '.');
    assert(parts.drop_first() == Seq::<Seq<char>>::empty());
}

/// Following parts one after the other is the same as following the first ones and then the
/// rest.
pub proof fn lemma_parts_compose(place: PlaceView, first: Seq<Seq<char>>, rest: Seq<Seq<char>>)
    ensures
        last_place(place, first + rest) == match last_place(place, first) {
            Some(Ok(middle)) => last_place(middle, rest),
            stopped => stopped,
        },
    decreases first.len(),
{
    if first.len() == 0 {
        assert(first + rest == rest);
    } else {
        assert((first + rest).drop_first() == first.drop_first() + rest);
        if let Some(Ok(next)) = next_place(place, first[0]) {
            lemma_parts_compose(next, first.drop_first(), rest);
        }
    }
}

/// A place that parts lead to never lies before the place that they start from.
pub proof fn lemma_address_ascends(place: PlaceView, parts: Seq<Seq<char>>)
    ensures
        last_place(place, parts) matches Some(Ok(last)) ==> place.address <= last.address,
    decreases parts.len(),
{
    if parts.len() > 0 {
        if let Some(Ok(next)) = next_place(place, parts[0]) {
            lemma_address_ascends(next, parts.drop_first());
            lemma_next_ascends(place, parts[0]);
        }
    }
}

proof fn lemma_next_ascends(place: PlaceView, part: Seq<char>)
    ensures
        next_place(place, part) matches Some(Ok(next)) ==> place.address <= next.address,
{
    if let Some(i) = part_index(part) {
        if let TypeView::Struct { members, .. } = place.type_info {
            if let Some(member) = member_named(members, part_name(part)) {
                if let TypeView::Array { element, .. } = member.type_info {
                    assert(i * types::type_size(*element) >= 0) by (nonlinear_arith);
                }
            }
        }
    }
}

/// An expression behind a dot continues from where the expression before the dot leads.
pub proof fn lemma_dot(var: VariableView, first: Seq<char>, rest: Seq<char>)
    ensures
        resolved(var, first.push('.') + rest) == match resolved(var, first) {
            None => None,
            Some(Err(error)) => Some(Err(error)),
            Some(Ok(start)) => match last_place(
                PlaceView { address: start.address, type_info: start.type_info },
                text::split_on(rest, '.'),
            ) {
                None => None,
                Some(Err(error)) => Some(Err(error)),
                Some(Ok(place)) => Some(
                    Ok(
                        ResolvedView {
                            expression: first.push('.') + rest,
                            address: place.address,
                            type_info: place.type_info,
                        },
                    ),
                ),
            },
        },
{
    let head = text::split_on(first, '.');
    let tail = text::split_on(rest, '.');
    text::lemma_split_on(first, '.');
    text::lemma_split_join(first, rest, '.');
    assert((head + tail)[0] == head[0]);
    assert((head + tail).drop_first() == head.drop_first() + tail);
    if let Some(Ok(start)) = first_place(var, part_name(head[0]), part_index(head[0])) {
        lemma_parts_compose(start, head.drop_first(), tail);
    }
}

/// `name.member` stands for the member: it lies at the member's offset in the variable and has
/// the member's type.
pub proof fn lemma_member(
    var: VariableView,
    members: Seq<MemberView>,
    name: Seq<char>,
    member: MemberView,
)
    requires
        !name.contains('.'),
        !name.contains('['),
        !member.name.contains('.'),
        !member.name.contains('['),
        var.type_info matches TypeView::Struct { members: m, .. } && m == members,
        member_named(members, member.name) == Some(member),
        var.address + member.offset <= u64::MAX,
    ensures
        resolved(var, name.push('.') + member.name) matches Some(Ok(r)) && r.expression
            == name.push('.') + member.name && r.address == var.address + member.offset
            && r.type_info == member.type_info,
{
    let part = member.name;
    lemma_bare_name(var, name);
    lemma_dot(var, name, part);
    text::lemma_split_absent(part, '.');
    text::lemma_first_at(part, '[');
    if text::first_at(part, '[') < part.len() {
        assert(part[text::first_at(part, '[')] == '[');
    }
    assert(part.take(part.len() as int) == part);
    let place = PlaceView { address: var.address, type_info: var.type_info };
    let parts = text::split_on(part, '.');
    assert(parts.drop_first() == Seq::<Seq<char>>::empty());
    reveal_with_fuel(last_place, 2);
    assert(next_place(place, part) matches Some(Ok(next)) && next.type_info == member.type_info);
}

/// `name.member[index]` stands for the element of the member array with that index.
pub proof fn lemma_member_element(
    var: VariableView,
    members: Seq<MemberView>,
    name: Seq<char>,
    member: MemberView,
    element: TypeView,
    part: Seq<char>,
)
    requires
        !name.contains('.'),
        !name.contains('['),
        !part.contains('.'),
        well_formed_part(part),
        part_name(part) == member.name,
        part_index(part) is Some,
        var.type_info matches TypeView::Struct { members: m, .. } && m == members,
        member_named(members, member.name) == Some(member),
        member.type_info matches TypeView::Array { element: e, .. } && *e == element,
        var.address + member.offset + part_index(part)->0 * types::type_size(element) <= u64::MAX,
    ensures
        resolved(var, name.push('.') + part) matches Some(Ok(r)) && r.address == var.address
            + member.offset + part_index(part)->0 * types::type_size(element) && r.type_info
            == element,
{
    assert(part_index(part)->0 * types::type_size(element) >= 0) by (nonlinear_arith);
    lemma_bare_name(var, name);
    lemma_dot(var, name, part);
    text::lemma_split_absent(part, '.');
    let place = PlaceView { address: var.address, type_info: var.type_info };
    let parts = text::split_on(part, '.');
    assert(parts.drop_first() == Seq::<Seq<char>>::empty());
    reveal_with_fuel(last_place, 2);
    assert(next_place(place, part) matches Some(Ok(next)) && next.type_info == element);
}

// -----------------------------------------------------------------------------------------
// How expressions are written
// -----------------------------------------------------------------------------------------

/// A name with a subscript: a bracket, what stands in it, and the character that closes it.
pub open spec fn subscripted(name: Seq<char>, inside: Seq<char>, closing: char) -> Seq<char> {
    name + seq!['['] + inside + seq![closing]
}

/// A part without a bracket is a name.
pub proof fn lemma_name_part(name: Seq<char>)
    requires
        !name.contains('['),
    ensures
        well_formed_part(name),
        part_name(name) == name,
        part_index(name) is None,
{
    text::lemma_first_at(name, '[');
    if text::first_at(name, '[') < name.len() {
        assert(name[text::first_at(name, '[')] == '[');
    }
    assert(name.take(name.len() as int) == name);
}

/// A part with a bracket has as its name what stands before the bracket, and as its index the
/// number that stands in it, if it is one; any ASCII character closes it.
pub proof fn lemma_subscripted_part(name: Seq<char>, inside: Seq<char>, closing: char)
    requires
        !name.contains('['),
        closing < '\u{80}',
    ensures
        well_formed_part(subscripted(name, inside, closing)),
        part_name(subscripted(name, inside, closing)) == name,
        part_index(subscripted(name, inside, closing)) == text::usize_value(inside),
{
    let part = subscripted(name, inside, closing);
    let at = text::first_at(part, '[');
    text::lemma_first_at(part, '[');
    assert(part[name.len() as int] == '[');
    if at < name.len() {
        assert(part[at] == name[at]);
        assert(name.contains('['));
    }
    assert(at == name.len());
    assert(part.take(at) == name);
    assert(part.subrange(at + 1, part.len() - 1) == inside);
    assert(part.last() == closing);
}

/// A part that ends with its first bracket, or with a character that is not ASCII behind a bracket,
/// is not well-formed.
pub proof fn lemma_malformed_part(name: Seq<char>, inside: Seq<char>, closing: char)
    requires
        !name.contains('['),
    ensures
        !well_formed_part(name + seq!['[']),
        closing >= '\u{80}' ==> !well_formed_part(subscripted(name, inside, closing)),
{
    let bare = name + seq!['['];
    let part = subscripted(name, inside, closing);
    text::lemma_first_at(bare, '[');
    text::lemma_first_at(part, '[');
    assert(bare[name.len() as int] == '[');
    assert(part[name.len() as int] == '[');
    let at = text::first_at(bare, '[');
    if at < name.len() {
        assert(bare[at] == name[at]);
    }
    assert(part.last() == closing);
}

/// The member at `i` is the first with that name, or there is none and `i` is their number.
pub open spec fn is_first_member(members: Seq<MemberView>, i: int, name: Seq<char>) -> bool {
    &&& 0 <= i <= members.len()
    &&& i < members.len() ==> members[i].name == name
    &&& forall|k: int| 0 <= k < i ==> (#[trigger] members[k]).name != name
}

proof fn lemma_member_position(members: Seq<MemberView>, i: int, name: Seq<char>)
    requires
        is_first_member(members, i, name),
    ensures
        member_named(members, name) == if i < members.len() {
            Some(members[i])
        } else {
            None
        },
    decreases members.len(),
{
    if i > 0 {
        let rest = members.drop_first();
        assert(members[0].name != name);
        assert forall|k: int| 0 <= k < i - 1 implies (#[trigger] rest[k]).name != name by {
            assert(rest[k] == members[k + 1]);
        }
        lemma_member_position(rest, i - 1, name);
    }
}

proof fn lemma_one_part(var: VariableView, part: Seq<char>)
    requires
        !part.contains('.'),
        well_formed_part(part),
    ensures
        resolved(var, part) == match first_place(var, part_name(part), part_index(part)) {
            None => None,
            Some(Err(error)) => Some(Err(error)),
            Some(Ok(place)) => Some(
                Ok::<ResolvedView, ErrorView>(
                    ResolvedView {
                        expression: part,
                        address: place.address,
                        type_info: place.type_info,
                    },
                ),
            ),
        },
{
    text::lemma_split_absent(part, '.');
    let parts = text::split_on(part, '.');
    assert(parts.drop_first() == Seq::<Seq<char>>::empty());
}

proof fn lemma_no_dot(name: Seq<char>, inside: Seq<char>, closing: char)
    requires
        !name.contains('.'),
        !inside.contains('.'),
        closing != '.',
    ensures
        !subscripted(name, inside, closing).contains('.'),
{
    let part = subscripted(name, inside, closing);
    if part.contains('.') {
        let i = choose|i: int| 0 <= i < part.len() && part[i] == '.';
        if i < name.len() {
            assert(name[i] == '.');
        } else if i > name.len() && i < part.len() - 1 {
            assert(inside[i - name.len() - 1] == '.');
        }
    }
}

/// `name[i]` stands for the element `i` of the array: it lies `i` times the size of an element
/// behind the array's address, where the size is the one that the element's type records. An
/// element beyond the address space is not resolved.
pub proof fn lemma_element_of_array(
    var: VariableView,
    name: Seq<char>,
    inside: Seq<char>,
    closing: char,
    i: usize,
    bytes: int,
)
    requires
        !name.contains('.'),
        !name.contains('['),
        !inside.contains('.'),
        closing != '.',
        closing < '\u{80}',
        text::usize_value(inside) == Some(i),
        var.type_info is Array,
        types::takes(*var.type_info->element, bytes),
    ensures
        ({
            let r = resolved(var, subscripted(name, inside, closing));
            if var.address + i * bytes <= u64::MAX {
                r == Some(
                    Ok::<ResolvedView, ErrorView>(
                        ResolvedView {
                            expression: subscripted(name, inside, closing),
                            address: (var.address + i * bytes) as u64,
                            type_info: *var.type_info->element,
                        },
                    ),
                )
            } else {
                r is None
            }
        }),
{
    lemma_no_dot(name, inside, closing);
    lemma_subscripted_part(name, inside, closing);
    lemma_one_part(var, subscripted(name, inside, closing));
    types::lemma_takes(*var.type_info->element, bytes);
}

/// The element `i` of an array of structures lies `i` times the size that the structure records
/// behind the array's address, and neighbouring elements lie that size apart.
pub proof fn lemma_array_of_structures(
    var: VariableView,
    name: Seq<char>,
    i: usize,
    kind: Seq<char>,
    size: u64,
    members: Seq<MemberView>,
    count: usize,
    total: u64,
)
    requires
        !name.contains('.'),
        !name.contains('['),
        var.type_info == (TypeView::Array {
            element: Box::new(TypeView::Struct { name: kind, size, members }),
            count,
            size: total,
        }),
        var.address + i * size <= u64::MAX,
    ensures
        resolved(var, name + seq!['['] + text::decimal_text(i as nat) + seq![']']) matches Some(
            Ok(r),
        ) && r.address == var.address + i * size && r.type_info == (TypeView::Struct {
            name: kind,
            size,
            members,
        }),
{
    let digits = text::decimal_text(i as nat);
    text::lemma_decimal_text(i as nat);
    text::lemma_decimal_is_read_back(i);
    if digits.contains('.') {
        let k = choose|k: int| 0 <= k < digits.len() && digits[k] == '.';
        assert('0' <= digits[k] <= '9');
    }
    assert(types::takes(*var.type_info->element, size as int));
    lemma_element_of_array(var, name, digits, ']', i, size as int);
}

/// A subscript on a variable that is not an array is refused.
pub proof fn lemma_element_of_other(
    var: VariableView,
    name: Seq<char>,
    inside: Seq<char>,
    closing: char,
)
    requires
        !name.contains('.'),
        !name.contains('['),
        !inside.contains('.'),
        closing != '.',
        closing < '\u{80}',
        text::usize_value(inside) is Some,
        !(var.type_info is Array),
    ensures
        resolved(var, subscripted(name, inside, closing)) == Some(
            Err::<ResolvedView, ErrorView>(
                ErrorView::DwarfError("'"@ + name + "' is not an array"@),
            ),
        ),
{
    lemma_no_dot(name, inside, closing);
    lemma_subscripted_part(name, inside, closing);
    lemma_one_part(var, subscripted(name, inside, closing));
}

/// A subscript that is no number is passed over: the expression stands for the variable itself.
pub proof fn lemma_element_without_number(
    var: VariableView,
    name: Seq<char>,
    inside: Seq<char>,
    closing: char,
)
    requires
        !name.contains('.'),
        !name.contains('['),
        !inside.contains('.'),
        closing != '.',
        closing < '\u{80}',
        text::usize_value(inside) is None,
    ensures
        resolved(var, subscripted(name, inside, closing)) == Some(
            Ok::<ResolvedView, ErrorView>(
                ResolvedView {
                    expression: subscripted(name, inside, closing),
                    address: var.address,
                    type_info: var.type_info,
                },
            ),
        ),
{
    lemma_no_dot(name, inside, closing);
    lemma_subscripted_part(name, inside, closing);
    lemma_one_part(var, subscripted(name, inside, closing));
}

proof fn lemma_one_more_part(var: VariableView, first: Seq<char>, start: ResolvedView, part: Seq<char>)
    requires
        !part.contains('.'),
        resolved(var, first) == Some(Ok::<ResolvedView, ErrorView>(start)),
    ensures
        resolved(var, first.push('.') + part) == match next_place(
            PlaceView { address: start.address, type_info: start.type_info },
            part,
        ) {
            None => None,
            Some(Err(error)) => Some(Err(error)),
            Some(Ok(place)) => Some(
                Ok::<ResolvedView, ErrorView>(
                    ResolvedView {
                        expression: first.push('.') + part,
                        address: place.address,
                        type_info: place.type_info,
                    },
                ),
            ),
        },
{
    lemma_dot(var, first, part);
    text::lemma_split_absent(part, '.');
    let parts = text::split_on(part, '.');
    assert(parts.drop_first() == Seq::<Seq<char>>::empty());
    reveal_with_fuel(last_place, 2);
}

/// `first.member` stands for the first member of that name in the structure that `first` stands
/// for: it lies at the member's offset behind the structure's address and has the member's type.
pub proof fn lemma_member_of_structure(
    var: VariableView,
    first: Seq<char>,
    start: ResolvedView,
    name: Seq<char>,
    i: int,
)
    requires
        resolved(var, first) == Some(Ok::<ResolvedView, ErrorView>(start)),
        start.type_info is Struct,
        !name.contains('.'),
        !name.contains('['),
        is_first_member(start.type_info->Struct_members, i, name),
    ensures
        ({
            let r = resolved(var, first.push('.') + name);
            let members = start.type_info->Struct_members;
            if i == members.len() {
                r == Some(
                    Err::<ResolvedView, ErrorView>(
                        ErrorView::MemberNotFound(
                            "struct "@ + start.type_info->Struct_name,
                            name,
                        ),
                    ),
                )
            } else if start.address + members[i].offset <= u64::MAX {
                r == Some(
                    Ok::<ResolvedView, ErrorView>(
                        ResolvedView {
                            expression: first.push('.') + name,
                            address: (start.address + members[i].offset) as u64,
                            type_info: members[i].type_info,
                        },
                    ),
                )
            } else {
                r is None
            }
        }),
{
    lemma_one_more_part(var, first, start, name);
    lemma_name_part(name);
    lemma_member_position(start.type_info->Struct_members, i, name);
}

/// `first.member[i]` stands for the element `i` of the member array, which lies `i` times the size
/// of an element behind the member. On a member that is not an array, and where the subscript is
/// no number, the subscript is passed over.
pub proof fn lemma_element_of_member(
    var: VariableView,
    first: Seq<char>,
    start: ResolvedView,
    name: Seq<char>,
    inside: Seq<char>,
    closing: char,
    i: int,
    bytes: int,
)
    requires
        resolved(var, first) == Some(Ok::<ResolvedView, ErrorView>(start)),
        start.type_info is Struct,
        !name.contains('.'),
        !name.contains('['),
        !inside.contains('.'),
        closing != '.',
        closing < '\u{80}',
        is_first_member(start.type_info->Struct_members, i, name),
        i < start.type_info->Struct_members.len(),
        start.type_info->Struct_members[i].type_info is Array ==> types::takes(
            *start.type_info->Struct_members[i].type_info->element,
            bytes,
        ),
    ensures
        ({
            let expr = first.push('.') + subscripted(name, inside, closing);
            let r = resolved(var, expr);
            let member = start.type_info->Struct_members[i];
            let index = text::usize_value(inside);
            if index is Some && member.type_info is Array {
                if start.address + member.offset + index->0 * bytes <= u64::MAX {
                    r == Some(
                        Ok::<ResolvedView, ErrorView>(
                            ResolvedView {
                                expression: expr,
                                address: (start.address + member.offset + index->0 * bytes) as u64,
                                type_info: *member.type_info->element,
                            },
                        ),
                    )
                } else {
                    r is None
                }
            } else if start.address + member.offset <= u64::MAX {
                r == Some(
                    Ok::<ResolvedView, ErrorView>(
                        ResolvedView {
                            expression: expr,
                            address: (start.address + member.offset) as u64,
                            type_info: member.type_info,
                        },
                    ),
                )
            } else {
                r is None
            }
        }),
{
    let part = subscripted(name, inside, closing);
    lemma_no_dot(name, inside, closing);
    lemma_subscripted_part(name, inside, closing);
    lemma_one_more_part(var, first, start, part);
    let member = start.type_info->Struct_members[i];
    lemma_member_position(start.type_info->Struct_members, i, name);
    if member.type_info is Array {
        types::lemma_takes(*member.type_info->element, bytes);
        if text::usize_value(inside) is Some {
            let index = text::usize_value(inside)->0;
            assert(index * bytes >= 0) by (nonlinear_arith)
                requires
                    bytes >= 0,
            ;
        }
    }
}

/// A subscripted member that the structure does not have is refused by its name.
pub proof fn lemma_missing_subscripted_member(
    var: VariableView,
    first: Seq<char>,
    start: ResolvedView,
    name: Seq<char>,
    inside: Seq<char>,
    closing: char,
)
    requires
        resolved(var, first) == Some(Ok::<ResolvedView, ErrorView>(start)),
        start.type_info is Struct,
        !name.contains('.'),
        !name.contains('['),
        !inside.contains('.'),
        closing != '.',
        closing < '\u{80}',
        is_first_member(
            start.type_info->Struct_members,
            start.type_info->Struct_members.len() as int,
            name,
        ),
    ensures
        resolved(var, first.push('.') + subscripted(name, inside, closing)) == Some(
            Err::<ResolvedView, ErrorView>(
                ErrorView::MemberNotFound("struct "@ + start.type_info->Struct_name, name),
            ),
        ),
{
    let part = subscripted(name, inside, closing);
    lemma_no_dot(name, inside, closing);
    lemma_subscripted_part(name, inside, closing);
    lemma_one_more_part(var, first, start, part);
    lemma_member_position(
        start.type_info->Struct_members,
        start.type_info->Struct_members.len() as int,
        name,
    );
}

/// A member of what is not a structure is refused.
pub proof fn lemma_member_of_other(
    var: VariableView,
    first: Seq<char>,
    start: ResolvedView,
    name: Seq<char>,
    inside: Seq<char>,
    closing: char,
)
    requires
        resolved(var, first) == Some(Ok::<ResolvedView, ErrorView>(start)),
        !(start.type_info is Struct),
        !name.contains('.'),
        !name.contains('['),
        !inside.contains('.'),
        closing != '.',
        closing < '\u{80}',
    ensures
        resolved(var, first.push('.') + name) == Some(
            Err::<ResolvedView, ErrorView>(
                ErrorView::DwarfError("Cannot access member '"@ + name + "' on non-struct type"@),
            ),
        ),
        resolved(var, first.push('.') + subscripted(name, inside, closing)) == Some(
            Err::<ResolvedView, ErrorView>(
                ErrorView::DwarfError("Cannot access member '"@ + name + "' on non-struct type"@),
            ),
        ),
{
    lemma_name_part(name);
    lemma_one_more_part(var, first, start, name);
    lemma_no_dot(name, inside, closing);
    lemma_subscripted_part(name, inside, closing);
    lemma_one_more_part(var, first, start, subscripted(name, inside, closing));
}

/// Behind an expression that is refused, or cannot be resolved, nothing more is resolved.
pub proof fn lemma_refusal_stays(var: VariableView, first: Seq<char>, rest: Seq<char>)
    ensures
        resolved(var, first) is None ==> resolved(var, first.push('.') + rest) is None,
        resolved(var, first) is Some && resolved(var, first)->0 is Err ==> resolved(
            var,
            first.push('.') + rest,
        ) == resolved(var, first),
{
    lemma_dot(var, first, rest);
}

/// An expression starts with the variable whose name stands before the first dot or bracket: what
/// it stands for follows from that variable alone, and the expression is refused, or cannot be
/// resolved, if that variable is or cannot.
pub proof fn lemma_variable_of_expression(
    sections: Seq<SectionView>,
    name: Seq<char>,
    inside: Seq<char>,
    closing: char,
    rest: Seq<char>,
    expr: Seq<char>,
)
    requires
        !name.contains('.'),
        !name.contains('['),
        !inside.contains('.'),
        closing != '.',
        closing < '\u{80}',
        expr == name || expr == name.push('.') + rest || expr == subscripted(name, inside, closing)
            || expr == subscripted(name, inside, closing).push('.') + rest,
    ensures
        expression_outcome(sections, expr) == match dwarf_parser::variable_outcome(sections, name) {
            Some(Ok(var)) => resolved(var, expr),
            Some(Err(error)) => Some(Err(error)),
            None => None,
        },
{
    let part = subscripted(name, inside, closing);
    lemma_no_dot(name, inside, closing);
    lemma_subscripted_part(name, inside, closing);
    lemma_name_part(name);
    text::lemma_split_absent(name, '.');
    text::lemma_split_absent(part, '.');
    text::lemma_split_join(name, rest, '.');
    text::lemma_split_join(part, rest, '.');
}

/// The view of what an expression stands for has its text, its address and its type.
pub proof fn lemma_resolved_view(r: ResolvedSymbol)
    ensures
        r@.expression == r.expression@,
        r@.address == r.address,
        r@.type_info == r.type_info@,
{
}

/// An expression with a part that is not well-formed is not resolved, unless it is refused before
/// that part.
pub proof fn lemma_malformed_expression(
    var: VariableView,
    part: Seq<char>,
    first: Seq<char>,
    start: ResolvedView,
)
    requires
        !part.contains('.'),
        !well_formed_part(part),
        resolved(var, first) == Some(Ok::<ResolvedView, ErrorView>(start)),
    ensures
        resolved(var, part) is None,
        resolved(var, first.push('.') + part) is None,
{
    text::lemma_split_absent(part, '.');
    lemma_one_more_part(var, first, start, part);
}

} // verus!
