//! How structures are laid out, as far as the entries of one unit tell.

use crate::error;
use crate::error::DebugError;
use crate::error::ErrorView;
use crate::parser::entry;
use crate::parser::entry::Entry;
use crate::parser::entry::EntryTable;
use crate::parser::entry::EntryView;
use crate::parser::entry::TableView;
use crate::text::same_text;
use vstd::prelude::*;

verus! {

/// The layout of a structure.
#[derive(Debug)]
pub struct StructLayout {
    pub name: String,
    pub size: u64,
    /// Always zero: the alignment is not recorded.
    pub alignment: u64,
    /// The members by ascending offset.
    pub members: Vec<StructMember>,
}

/// A member of a structure.
#[derive(Debug)]
pub struct StructMember {
    pub name: String,
    pub offset: u64,
    pub size: u64,
    /// Always `unknown`: the member's type is not followed.
    pub typename: String,
}

/// A structure, in a listing.
#[derive(Debug)]
pub struct StructInfo {
    pub name: String,
    pub size: u64,
}

/// A [`StructLayout`] with its contents viewed.
pub struct LayoutView {
    pub name: Seq<char>,
    pub size: u64,
    pub alignment: u64,
    pub members: Seq<FieldView>,
}

/// A [`StructMember`] with its texts as character sequences.
pub struct FieldView {
    pub name: Seq<char>,
    pub offset: u64,
    pub size: u64,
    pub typename: Seq<char>,
}

/// A [`StructInfo`] with its name as a character sequence.
pub struct StructInfoView {
    pub name: Seq<char>,
    pub size: u64,
}

impl View for StructMember {
    type V = FieldView;

    open spec fn view(&self) -> FieldView {
        FieldView {
            name: self.name@,
            offset: self.offset,
            size: self.size,
            typename: self.typename@,
        }
    }
}

/// The views of a sequence of members.
pub open spec fn member_views(members: Seq<StructMember>) -> Seq<FieldView> {
    members.map_values(|m: StructMember| m@)
}

impl View for StructLayout {
    type V = LayoutView;

    open spec fn view(&self) -> LayoutView {
        LayoutView {
            name: self.name@,
            size: self.size,
            alignment: self.alignment,
            members: member_views(self.members@),
        }
    }
}

impl View for StructInfo {
    type V = StructInfoView;

    open spec fn view(&self) -> StructInfoView {
        StructInfoView { name: self.name@, size: self.size }
    }
}

impl Clone for StructMember {
    fn clone(&self) -> (r: StructMember)
        ensures
            r@ == self@,
    {
        StructMember {
            name: self.name.clone(),
            offset: self.offset,
            size: self.size,
            typename: self.typename.clone(),
        }
    }
}

impl Clone for StructLayout {
    fn clone(&self) -> (r: StructLayout)
        ensures
            r@ == self@,
    {
        let mut members: Vec<StructMember> = Vec::new();
        let mut i: usize = 0;
        while i < self.members.len()
            invariant
                i <= self.members@.len(),
                member_views(members@) == member_views(self.members@).take(i as int),
            decreases self.members@.len() - i,
        {
            let ghost before = members@;
            members.push(self.members[i].clone());
            assert(member_views(members@) == member_views(before).push(self.members@[i as int]@));
            i = i + 1;
        }
        assert(member_views(self.members@).take(i as int) == member_views(self.members@));
        StructLayout {
            name: self.name.clone(),
            size: self.size,
            alignment: self.alignment,
            members,
        }
    }
}

impl Clone for StructInfo {
    fn clone(&self) -> (r: StructInfo)
        ensures
            r@ == self@,
    {
        StructInfo { name: self.name.clone(), size: self.size }
    }
}

/// The views of a listing.
pub open spec fn struct_views(structs: Seq<StructInfo>) -> Seq<StructInfoView> {
    structs.map_values(|s: StructInfo| s@)
}

// -----------------------------------------------------------------------------------------
// Ordering members
// -----------------------------------------------------------------------------------------

/// The members with one more, which is put behind all that do not stand at a higher offset.
pub open spec fn placed(members: Seq<FieldView>, member: FieldView) -> Seq<FieldView>
    decreases members.len(),
{
    if members.len() == 0 || members.last().offset <= member.offset {
        members.push(member)
    } else {
        placed(members.drop_last(), member).push(members.last())
    }
}

/// The members by ascending offset; members at the same offset keep their order.
pub open spec fn by_offset(members: Seq<FieldView>) -> Seq<FieldView>
    decreases members.len(),
{
    if members.len() == 0 {
        Seq::empty()
    } else {
        placed(by_offset(members.drop_last()), members.last())
    }
}

/// The offsets ascend.
pub open spec fn ascending(members: Seq<FieldView>) -> bool {
    forall|i: int, j: int|
        0 <= i < j < members.len() ==> (#[trigger] members[i]).offset <= (
        #[trigger] members[j]).offset
}

/// The members that stand at one offset, in order.
pub open spec fn at_offset(members: Seq<FieldView>, offset: u64) -> Seq<FieldView>
    decreases members.len(),
{
    if members.len() == 0 {
        Seq::empty()
    } else if members.last().offset == offset {
        at_offset(members.drop_last(), offset).push(members.last())
    } else {
        at_offset(members.drop_last(), offset)
    }
}

proof fn lemma_placed(members: Seq<FieldView>, member: FieldView, offset: u64)
    requires
        ascending(members),
    ensures
        ascending(placed(members, member)),
        forall|i: int|
            0 <= i < placed(members, member).len() ==> (#[trigger] placed(
                members,
                member,
            )[i]).offset <= member.offset || members.len() > 0 && placed(members, member)[i].offset
                <= members.last().offset,
        placed(members, member).to_multiset() == members.push(member).to_multiset(),
        at_offset(placed(members, member), offset) == at_offset(members.push(member), offset),
    decreases members.len(),
{
    broadcast use vstd::seq_lib::group_to_multiset_ensures;

    assert(members.push(member).drop_last() == members);
    if members.len() == 0 || members.last().offset <= member.offset {
        let all = placed(members, member);
        assert forall|i: int| 0 <= i < all.len() implies (#[trigger] all[i]).offset
            <= member.offset by {
            if i < members.len() - 1 {
                assert(members[i].offset <= members[members.len() - 1].offset);
            }
        }
    } else {
        let rest = members.drop_last();
        let last = members.last();
        let below = placed(rest, member);
        assert(ascending(rest)) by {
            assert forall|i: int, j: int| 0 <= i < j < rest.len() implies (#[trigger] rest[i]).offset
                <= (#[trigger] rest[j]).offset by {
                assert(members[i].offset <= members[j].offset);
            }
        }
        lemma_placed(rest, member, offset);
        assert(rest.push(member).drop_last() == rest);
        assert(below.push(last).drop_last() == below);
        assert(rest.push(last) == members);
        if rest.len() > 0 {
            assert(rest.last() == members[members.len() - 2]);
            assert(members[members.len() - 2].offset <= members[members.len() - 1].offset);
        }
        let all = placed(members, member);
        assert forall|i: int, j: int| 0 <= i < j < all.len() implies (#[trigger] all[i]).offset <= (
        #[trigger] all[j]).offset by {
            if j == all.len() - 1 {
                assert(all[i] == below[i]);
            } else {
                assert(below[i].offset <= below[j].offset);
            }
        }
        assert forall|i: int| 0 <= i < all.len() implies (#[trigger] all[i]).offset
            <= member.offset || all[i].offset <= members.last().offset by {
            if i < below.len() {
                assert(all[i] == below[i]);
            }
        }
        assert(below.push(last).to_multiset() == below.to_multiset().insert(last));
        assert(rest.push(last).to_multiset() == rest.to_multiset().insert(last));
        assert(all.to_multiset() =~= members.push(member).to_multiset());
        assert(at_offset(members.push(member), offset) == if member.offset == offset {
            at_offset(members, offset).push(member)
        } else {
            at_offset(members, offset)
        });
        assert(at_offset(rest.push(member), offset) == if member.offset == offset {
            at_offset(rest, offset).push(member)
        } else {
            at_offset(rest, offset)
        });
    }
}

/// Ordering members by offset keeps every member, makes the offsets ascend, and does not
/// rearrange members that stand at the same offset.
pub proof fn lemma_by_offset(members: Seq<FieldView>, offset: u64)
    ensures
        ascending(by_offset(members)),
        by_offset(members).to_multiset() == members.to_multiset(),
        at_offset(by_offset(members), offset) == at_offset(members, offset),
    decreases members.len(),
{
    broadcast use vstd::seq_lib::group_to_multiset_ensures;

    if members.len() > 0 {
        let rest = members.drop_last();
        let last = members.last();
        lemma_by_offset(rest, offset);
        lemma_placed(by_offset(rest), last, offset);
        assert(rest.push(last) == members);
        assert(by_offset(rest).push(last).drop_last() == by_offset(rest));
    }
}

fn place_member(members: &mut Vec<StructMember>, member: StructMember)
    ensures
        member_views(final(members)@) == placed(member_views(old(members)@), member@),
{
    let ghost before = member_views(members@);
    let mut at: usize = members.len();
    assert(before.take(at as int) == before);
    assert(before.skip(at as int) == Seq::<FieldView>::empty());
    while at > 0 && members[at - 1].offset > member.offset
        invariant
            at <= members@.len(),
            members@ == old(members)@,
            before == member_views(members@),
            placed(before, member@) == placed(before.take(at as int), member@) + before.skip(
                at as int,
            ),
        decreases at,
    {
        let ghost head = before.take(at as int);
        assert(head.last() == members@[at - 1]@);
        assert(head.drop_last() == before.take(at - 1));
        assert(placed(head.drop_last(), member@).push(head.last()) + before.skip(at as int)
            == placed(before.take(at - 1), member@) + before.skip(at - 1));
        at = at - 1;
    }
    let ghost m = member@;
    assert(at > 0 ==> before.take(at as int).last() == members@[at - 1]@);
    members.insert(at, member);
    assert(member_views(members@) == before.take(at as int).push(m) + before.skip(at as int));
}

// -----------------------------------------------------------------------------------------
// Structures of a unit
// -----------------------------------------------------------------------------------------

/// The entry of a structure with that name.
pub open spec fn is_struct(e: EntryView, name: Seq<char>) -> bool {
    e.tag == entry::DW_TAG_STRUCTURE_TYPE && e.name == Some(name)
}

/// The position of the first structure with that name, or the number of entries.
pub open spec fn struct_at(entries: Seq<EntryView>, name: Seq<char>) -> int
    decreases entries.len(),
{
    if entries.len() == 0 || is_struct(entries[0], name) {
        0
    } else {
        1 + struct_at(entries.drop_first(), name)
    }
}

/// What is reported of a member.
pub open spec fn field_of(e: EntryView) -> FieldView {
    FieldView {
        name: e.name->0,
        offset: entry::member_offset(e),
        size: entry::recorded_size(e),
        typename: "unknown"@,
    }
}

/// What is reported of the named members among the entries, in order.
pub open spec fn fields_of(entries: Seq<EntryView>) -> Seq<FieldView> {
    entries.filter(|e: EntryView| entry::is_named_member(e)).map_values(|e: EntryView| field_of(e))
}

/// What a unit tells about the structure with that name: its layout, why it cannot be read, or
/// nothing. The members are those among the entries below the structure's own.
pub open spec fn layout_in(table: TableView, name: Seq<char>) -> Option<
    Result<LayoutView, ErrorView>,
> {
    let at = struct_at(table.entries, name);
    if at < table.entries.len() {
        let found = table.entries[at];
        let rest = table.entries.skip(at + 1);
        let run = entry::run_below(rest, 0);
        match table.failure {
            Some(message) if run == rest.len() => Some(Err(ErrorView::DwarfError(message))),
            _ => Some(
                Ok(
                    LayoutView {
                        name,
                        size: entry::recorded_size(found),
                        alignment: 0,
                        members: by_offset(fields_of(rest.take(run))),
                    },
                ),
            ),
        }
    } else {
        match table.failure {
            Some(message) => Some(Err(ErrorView::DwarfError(message))),
            None => None,
        }
    }
}

pub(crate) proof fn lemma_struct_at(entries: Seq<EntryView>, name: Seq<char>, at: int)
    requires
        0 <= at <= entries.len(),
        forall|i: int| 0 <= i < at ==> !is_struct(#[trigger] entries[i], name),
        at < entries.len() ==> is_struct(entries[at], name),
    ensures
        struct_at(entries, name) == at,
    decreases entries.len(),
{
    if at > 0 {
        let rest = entries.drop_first();
        assert(!is_struct(entries[0], name));
        assert forall|i: int| 0 <= i < at - 1 implies !is_struct(#[trigger] rest[i], name) by {
            assert(rest[i] == entries[i + 1]);
        }
        lemma_struct_at(rest, name, at - 1);
    }
}

fn find_struct(entries: &Vec<Entry>, name: &str) -> (at: usize)
    ensures
        at == struct_at(entry::entry_views(entries@), name@),
        at <= entries@.len(),
{
    let ghost views = entry::entry_views(entries@);
    let mut at: usize = 0;
    while at < entries.len()
        invariant
            at <= entries@.len(),
            views == entry::entry_views(entries@),
            forall|i: int| 0 <= i < at ==> !is_struct(#[trigger] views[i], name@),
        decreases entries@.len() - at,
    {
        assert(views[at as int] == entries@[at as int]@);
        if entries[at].tag == entry::DW_TAG_STRUCTURE_TYPE {
            if let Some(text) = &entries[at].name {
                if same_text(text.as_str(), name) {
                    proof {
                        lemma_struct_at(views, name@, at as int);
                    }
                    return at;
                }
            }
        }
        at = at + 1;
    }
    proof {
        lemma_struct_at(views, name@, at as int);
    }
    at
}

proof fn lemma_placed_grows(entries: Seq<EntryView>, n: int)
    requires
        0 <= n < entries.len(),
    ensures
        by_offset(fields_of(entries.take(n + 1))) == if entry::is_named_member(entries[n]) {
            placed(by_offset(fields_of(entries.take(n))), field_of(entries[n]))
        } else {
            by_offset(fields_of(entries.take(n)))
        },
{
    reveal(Seq::filter);
    assert(entries.take(n + 1).drop_last() == entries.take(n));
    assert(entries.take(n + 1).last() == entries[n]);
    if entry::is_named_member(entries[n]) {
        let grown = fields_of(entries.take(n + 1));
        assert(grown == fields_of(entries.take(n)).push(field_of(entries[n])));
        assert(grown.drop_last() == fields_of(entries.take(n)));
    }
}

/// What the entries of a unit tell about the structure with that name; `None` if they tell
/// nothing.
pub fn find_layout(table: &EntryTable, struct_name: &str) -> (found: Option<
    Result<StructLayout, DebugError>,
>)
    ensures
        match (found, layout_in(table@, struct_name@)) {
            (Some(r), Some(expected)) => error::outcome(r) == expected,
            (None, None) => true,
            _ => false,
        },
{
    let ghost views = entry::entry_views(table.entries@);
    let at: usize = find_struct(&table.entries, struct_name);
    if at == table.entries.len() {
        return match &table.failure {
            Some(message) => Some(Err(DebugError::DwarfError(message.clone()))),
            None => None,
        };
    }
    let size: u64 = entry::get_size(&table.entries[at]);
    let ghost rest = views.skip(at + 1);
    assert(views[at as int] == table.entries@[at as int]@);
    let mut members: Vec<StructMember> = Vec::new();
    let mut next: usize = at + 1;
    let mut level: i128 = 0;
    assert(rest.take(0) == Seq::<EntryView>::empty());
    assert(rest.skip(0) == rest);
    proof {
        reveal(Seq::filter);
    }
    assert(member_views(members@) == by_offset(fields_of(rest.take(0))));
    while next < table.entries.len() && level + table.entries[next].depth as i128 > 0
        invariant
            at < next <= table.entries@.len(),
            views == entry::entry_views(table.entries@),
            rest == views.skip(at + 1),
            table.entries@.len() <= usize::MAX,
            0 <= level <= (next - at - 1) * 0x7FFF_FFFF_FFFF_FFFF,
            level <= 0x1_0000_0000_0000_0000 * 0x7FFF_FFFF_FFFF_FFFF - 0x7FFF_FFFF_FFFF_FFFF,
            entry::run_below(rest, 0) == next - at - 1 + entry::run_below(
                rest.skip(next - at - 1),
                level as int,
            ),
            member_views(members@) == by_offset(fields_of(rest.take(next - at - 1))),
        decreases table.entries@.len() - next,
    {
        let child = &table.entries[next];
        assert(rest[next - at - 1] == child@);
        assert(rest.skip(next - at - 1)[0] == child@);
        assert(rest.skip(next - at - 1).drop_first() == rest.skip(next - at));
        proof {
            lemma_placed_grows(rest, next - at - 1);
        }
        level = level + child.depth as i128;
        if child.tag == entry::DW_TAG_MEMBER {
            if let Some(name) = &child.name {
                let member = StructMember {
                    name: name.clone(),
                    offset: entry::get_member_offset(child),
                    size: entry::get_size(child),
                    typename: "unknown".to_owned(),
                };
                place_member(&mut members, member);
            }
        }
        next = next + 1;
        proof {
            let n = next - at - 1;
            assert(n * 0x7FFF_FFFF_FFFF_FFFF <= 0x1_0000_0000_0000_0000 * 0x7FFF_FFFF_FFFF_FFFF
                - 0x7FFF_FFFF_FFFF_FFFF) by (nonlinear_arith)
                requires
                    n + 1 <= 0x1_0000_0000_0000_0000,
            ;
        }
    }
    assert(next < views.len() ==> rest.skip(next - at - 1)[0] == table.entries@[next as int]@);
    if next == table.entries.len() {
        if let Some(message) = &table.failure {
            return Some(Err(DebugError::DwarfError(message.clone())));
        }
    }
    Some(Ok(StructLayout { name: struct_name.to_owned(), size, alignment: 0, members }))
}

/// The first member with that name.
pub open spec fn field_named(members: Seq<FieldView>, name: Seq<char>) -> Option<FieldView>
    decreases members.len(),
{
    if members.len() == 0 {
        None
    } else if members[0].name == name {
        Some(members[0])
    } else {
        field_named(members.drop_first(), name)
    }
}

/// Where the member with that name stands, once the layout was looked up.
pub open spec fn offset_outcome(
    layout: Result<LayoutView, ErrorView>,
    struct_name: Seq<char>,
    member_name: Seq<char>,
) -> Result<u64, ErrorView> {
    match layout {
        Err(error) => Err(error),
        Ok(layout) => match field_named(layout.members, member_name) {
            Some(member) => Ok(member.offset),
            None => Err(ErrorView::MemberNotFound(struct_name, member_name)),
        },
    }
}

/// Where the member with that name stands: the offset of the first such member.
pub fn find_member_offset(
    looked_up: Result<StructLayout, DebugError>,
    struct_name: &str,
    member_name: &str,
) -> (r: Result<u64, DebugError>)
    ensures
        error::outcome(r) == offset_outcome(error::outcome(looked_up), struct_name@, member_name@),
{
    let layout = match looked_up {
        Ok(layout) => layout,
        Err(error) => {
            return Err(error);
        },
    };
    let ghost views = member_views(layout.members@);
    let mut i: usize = 0;
    assert(views.skip(0) == views);
    while i < layout.members.len()
        invariant
            i <= layout.members@.len(),
            looked_up == Ok::<StructLayout, DebugError>(layout),
            views == member_views(layout.members@),
            field_named(views.skip(i as int), member_name@) == field_named(views, member_name@),
        decreases layout.members@.len() - i,
    {
        assert(views.skip(i as int)[0] == layout.members@[i as int]@);
        assert(views.skip(i as int).drop_first() == views.skip(i + 1));
        if same_text(layout.members[i].name.as_str(), member_name) {
            return Ok(layout.members[i].offset);
        }
        i = i + 1;
    }
    Err(DebugError::MemberNotFound(struct_name.to_owned(), member_name.to_owned()))
}

/// The entry of a structure with a name.
pub open spec fn is_named_struct(e: EntryView) -> bool {
    e.tag == entry::DW_TAG_STRUCTURE_TYPE && e.name is Some
}

/// The named structures among the entries, in order.
pub open spec fn structs_in(entries: Seq<EntryView>) -> Seq<StructInfoView> {
    entries.filter(|e: EntryView| is_named_struct(e)).map_values(
        |e: EntryView| StructInfoView { name: e.name->0, size: entry::recorded_size(e) },
    )
}

/// The named structures among the entries, in order.
pub fn collect_structs(entries: &Vec<Entry>) -> (structs: Vec<StructInfo>)
    ensures
        struct_views(structs@) == structs_in(entry::entry_views(entries@)),
{
    let ghost views = entry::entry_views(entries@);
    let mut structs: Vec<StructInfo> = Vec::new();
    let mut i: usize = 0;
    proof {
        reveal(Seq::filter);
        assert(views.take(0) == Seq::<EntryView>::empty());
        assert(struct_views(structs@) == structs_in(views.take(0)));
    }
    while i < entries.len()
        invariant
            i <= entries@.len(),
            views == entry::entry_views(entries@),
            struct_views(structs@) == structs_in(views.take(i as int)),
        decreases entries@.len() - i,
    {
        let ghost before = structs@;
        let e = &entries[i];
        proof {
            reveal(Seq::filter);
            assert(views[i as int] == e@);
            assert(views.take(i + 1).drop_last() == views.take(i as int));
        }
        if e.tag == entry::DW_TAG_STRUCTURE_TYPE {
            if let Some(name) = &e.name {
                let info = StructInfo { name: name.clone(), size: entry::get_size(e) };
                structs.push(info);
                assert(struct_views(structs@) == struct_views(before).push(info@));
                assert(structs_in(views.take(i + 1)) == structs_in(views.take(i as int)).push(
                    info@,
                ));
            }
        }
        i = i + 1;
    }
    assert(views.take(i as int) == views);
    structs
}

} // verus!
