//! The table of group metadata, kept in a slot map.
use slotmap::{DefaultKey, Key, SlotMap};
use vstd::prelude::*;

verus! {

/// `slotmap::DefaultKey`, the key under which the slot map holds an entry.
#[verifier::external_type_specification]
#[verifier::external_body]
pub struct ExDefaultKey(DefaultKey);

/// The 64-bit number that a slot map key passes to foreign code
/// (`KeyData::as_ffi`); distinct keys have distinct numbers.
pub uninterp spec fn key_bits(key: DefaultKey) -> u64;

/// A stable handle on a group's metadata, independent of where the group's
/// slots currently are.
#[derive(Clone, Copy, Debug)]
pub struct GroupId {
    key: DefaultKey,
}

impl View for GroupId {
    type V = u64;

    closed spec fn view(&self) -> u64 {
        key_bits(self.key)
    }
}

/// Metadata of a group.
#[derive(Clone, Copy)]
pub struct Group {
    /// The enclosing group, if any.
    pub parent: Option<GroupId>,
    /// Whether the group must be recomputed on its next visit.
    pub dirty: bool,
    /// Number of groups that enclose this one.
    pub depth: Ghost<nat>,
}

impl Group {
    /// The enclosing group's number, if any.
    pub open spec fn parent_bits(self) -> Option<u64> {
        match self.parent {
            Some(p) => Some(p@),
            None => None,
        }
    }

    /// This group with its dirty flag replaced.
    pub open spec fn with_dirty(self, dirty: bool) -> Group {
        Group { parent: self.parent, dirty, depth: self.depth }
    }
}

/// The slot map that holds the groups: a `slotmap::SlotMap` from
/// `DefaultKey` to `Group`. What it holds is `group_entries`.
#[verifier::external_body]
pub struct GroupMap {
    map: SlotMap<DefaultKey, Group>,
}

/// The groups that a table holds, by their ids' numbers.
pub uninterp spec fn group_entries(table: GroupMap) -> Map<u64, Group>;

/// The table that holds no group.
pub open spec fn no_groups() -> Map<u64, Group> {
    Map::empty()
}

/// `KeyData::as_ffi` on the data of `key`: the number that identifies it.
#[verifier::external_body]
fn key_to_bits(key: DefaultKey) -> (r: u64)
    ensures
        r == key_bits(key),
{
    key.data().as_ffi()
}

impl GroupId {
    /// The number that identifies this group.
    pub fn bits(&self) -> (r: u64)
        ensures
            r == self@,
    {
        key_to_bits(self.key)
    }
}

/// `SlotMap::new`: a table that holds nothing.
#[verifier::external_body]
pub(crate) fn group_table_new() -> (r: GroupMap)
    ensures
        group_entries(r) == no_groups(),
{
    GroupMap { map: SlotMap::new() }
}

/// `SlotMap::insert`: stores `group` under a key that the table did not hold
/// and returns that key. It panics when the table is full, which takes
/// `u32::MAX - 1` entries.
#[verifier::external_body]
pub(crate) fn group_table_insert(table: &mut GroupMap, group: Group) -> (id:
    GroupId)
    requires
        group_entries(*old(table)).dom().finite(),
        group_entries(*old(table)).dom().len() + 1 < u32::MAX,
    ensures
        !group_entries(*old(table)).contains_key(id@),
        group_entries(*final(table)) == group_entries(*old(table)).insert(id@, group),
{
    GroupId { key: table.map.insert(group) }
}

/// `SlotMap::contains_key`.
#[verifier::external_body]
pub(crate) fn group_table_contains(table: &GroupMap, id: GroupId) -> (r: bool)
    ensures
        r == group_entries(*table).contains_key(id@),
{
    table.map.contains_key(id.key)
}

/// `SlotMap::get`: the entry under `id`, if the table holds one.
#[verifier::external_body]
pub(crate) fn group_table_get(table: &GroupMap, id: GroupId) -> (r: Option<Group>)
    ensures
        r == (if group_entries(*table).contains_key(id@) {
            Some(group_entries(*table)[id@])
        } else {
            None
        }),
{
    table.map.get(id.key).copied()
}

/// `SlotMap::index_mut`, to set the dirty flag of the entry under `id`: the
/// entry has the flag, and is otherwise as it was. Indexing panics when the
/// table does not hold the entry.
#[verifier::external_body]
pub(crate) fn group_table_set_dirty(table: &mut GroupMap, id: GroupId, dirty: bool)
    requires
        group_entries(*old(table)).contains_key(id@),
    ensures
        group_entries(*final(table)) == group_entries(*old(table)).insert(
            id@,
            group_entries(*old(table))[id@].with_dirty(dirty),
        ),
{
    table.map[id.key].dirty = dirty;
}

/// `SlotMap::remove`: the table without the entry under `id`.
#[verifier::external_body]
pub(crate) fn group_table_remove(table: &mut GroupMap, id: GroupId)
    ensures
        group_entries(*final(table)) == group_entries(*old(table)).remove(id@),
{
    table.map.remove(id.key);
}

} // verus!
