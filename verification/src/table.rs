//! The slot table: the flat sequence of slots that stores the cache between
//! runs, with the metadata of its groups.
use crate::call_key::CallKey;
use crate::group_table::{
    group_entries, group_table_contains, group_table_get, group_table_insert, group_table_new,
    group_table_set_dirty, Group, GroupId, GroupMap,
};
use crate::slot::{
    ids_cover, ids_known, ids_unique, items_wf, lemma_items_frame, lemma_items_parent, slot_opens,
    Slot,
};
use vstd::prelude::*;

verus! {

/// What can go wrong when a state entry is looked up.
#[derive(Clone, Copy, Debug, PartialEq, Eq, Structural)]
pub enum CacheEntryError {
    EntryNotFound,
    VacantEntry,
    OccupiedEntry,
    TypeMismatch,
}

impl CacheEntryError {
    /// The message that describes this error.
    pub fn message(&self) -> (r: &'static str)
        ensures
            r@ == match *self {
                CacheEntryError::EntryNotFound => "state entry not found"@,
                CacheEntryError::VacantEntry => "no value in state entry"@,
                CacheEntryError::OccupiedEntry => "state entry already contains a value"@,
                CacheEntryError::TypeMismatch => "type mismatch"@,
            },
    {
        match self {
            CacheEntryError::EntryNotFound => "state entry not found",
            CacheEntryError::VacantEntry => "no value in state entry",
            CacheEntryError::OccupiedEntry => "state entry already contains a value",
            CacheEntryError::TypeMismatch => "type mismatch",
        }
    }
}

/// Lets its holder mark a group dirty, so that the group is recomputed on the
/// next run whatever its arguments are.
#[derive(Copy, Clone, Debug)]
pub struct CacheInvalidationToken {
    pub(crate) key: GroupId,
}

impl CacheInvalidationToken {
    /// The group that this token invalidates.
    pub open(crate) spec fn group(&self) -> u64 {
        self.key@
    }

    /// The number of the group that this token invalidates.
    pub fn group_bits(&self) -> (r: u64)
        ensures
            r == self.group(),
    {
        self.key.bits()
    }
}

/// `groups` after the group `g` and the groups that enclose it are marked
/// dirty. A group that the table does not hold is skipped, and the walk up
/// ends there.
pub open spec fn mark_dirty(groups: Map<u64, Group>, g: u64) -> Map<u64, Group>
    decreases
            (if groups.contains_key(g) {
                groups[g].depth@ + 1
            } else {
                0
            }),
{
    if !groups.contains_key(g) {
        groups
    } else {
        let marked = groups.insert(g, groups[g].with_dirty(true));
        match groups[g].parent_bits() {
            Some(p) => if groups.contains_key(p) && groups[p].depth@ < groups[g].depth@ {
                mark_dirty(marked, p)
            } else {
                marked
            },
            None => marked,
        }
    }
}

/// What a dump says of one slot.
#[derive(Clone, Copy, Debug, PartialEq, Eq)]
pub enum DumpLine {
    /// A group start: its key and length, the place of its end, the number
    /// of its group and of the group's parent, and the group's dirty flag.
    StartGroup {
        index: usize,
        current: bool,
        key: CallKey,
        len: u32,
        end: u64,
        group: u64,
        parent: Option<u64>,
        dirty: bool,
    },
    /// A group end.
    EndGroup { index: usize, current: bool },
    /// A value, with its key.
    Value { index: usize, current: bool, key: CallKey },
    /// A placeholder, with its key.
    Placeholder { index: usize, current: bool, key: CallKey },
}

/// The place of the end of a group of `len` slots that starts at `index`.
pub open spec fn dump_end(index: int, len: int) -> int {
    if index + len >= 1 {
        index + len - 1
    } else {
        0
    }
}

/// What a dump says of the slot at `index`, with the cursor at `current`.
pub open spec fn dump_line<V>(
    t: Seq<Slot<V>>,
    groups: Map<u64, Group>,
    index: int,
    current: int,
) -> DumpLine {
    match t[index] {
        Slot::StartGroup { key, group_id, len } => DumpLine::StartGroup {
            index: index as usize,
            current: index == current,
            key,
            len,
            end: dump_end(index, len as int) as u64,
            group: group_id@,
            parent: groups[group_id@].parent_bits(),
            dirty: groups[group_id@].dirty,
        },
        Slot::EndGroup => DumpLine::EndGroup { index: index as usize, current: index == current },
        Slot::Value { key, .. } => DumpLine::Value {
            index: index as usize,
            current: index == current,
            key,
        },
        Slot::Placeholder { key } => DumpLine::Placeholder {
            index: index as usize,
            current: index == current,
            key,
        },
    }
}

/// Describes every slot of `slots`, in order.
pub(crate) fn describe_slots<V>(
    slots: &Vec<Slot<V>>,
    group_map: &GroupMap,
    current_position: usize,
) -> (r: Vec<DumpLine>)
    requires
        ids_known(slots@, group_entries(*group_map)),
        slots@.len() <= u32::MAX,
    ensures
        r@.len() == slots@.len(),
        forall|i: int|
            0 <= i < slots@.len() ==> #[trigger] r@[i] == dump_line(
                slots@,
                group_entries(*group_map),
                i,
                current_position as int,
            ),
{
    let mut lines: Vec<DumpLine> = Vec::new();
    let mut i: usize = 0;
    while i < slots.len()
        invariant
            ids_known(slots@, group_entries(*group_map)),
            slots@.len() <= u32::MAX,
            0 <= i <= slots@.len(),
            lines@.len() == i,
            forall|j: int|
                0 <= j < i ==> #[trigger] lines@[j] == dump_line(
                    slots@,
                    group_entries(*group_map),
                    j,
                    current_position as int,
                ),
        decreases slots@.len() - i,
    {
        let current = i == current_position;
        let line = match &slots[i] {
            Slot::StartGroup { key, len, group_id } => {
                proof {
                    assert(slot_opens(slots@, i as int, group_id@));
                }
                let group = match group_table_get(group_map, *group_id) {
                    Some(group) => group,
                    None => unreached(),
                };
                let parent = match group.parent {
                    Some(parent) => Some(parent.bits()),
                    None => None,
                };
                let sum: u64 = i as u64 + *len as u64;
                let end: u64 = if sum >= 1 {
                    sum - 1
                } else {
                    0
                };
                DumpLine::StartGroup {
                    index: i,
                    current,
                    key: *key,
                    len: *len,
                    end,
                    group: group_id.bits(),
                    parent,
                    dirty: group.dirty,
                }
            },
            Slot::EndGroup => DumpLine::EndGroup { index: i, current },
            Slot::Value { key, .. } => DumpLine::Value { index: i, current, key: *key },
            Slot::Placeholder { key } => DumpLine::Placeholder { index: i, current, key: *key },
        };
        lines.push(line);
        i += 1;
    }
    lines
}

/// The slot table and the metadata of its groups.
pub struct CacheInner<V> {
    pub(crate) slots: Vec<Slot<V>>,
    pub(crate) group_map: GroupMap,
}

/// A slot table between two runs: one root group that spans the table, every
/// group closed, and the group table holding exactly the groups that the slots
/// open, each with its parent.
pub open spec fn table_wf<V>(t: Seq<Slot<V>>, groups: Map<u64, Group>) -> bool {
    &&& 2 <= t.len() <= u32::MAX
    &&& t[0].opens(CallKey(0))
    &&& t[0]->len == t.len()
    &&& items_wf(t, 0, t.len() as int, groups, None, 0)
    &&& ids_known(t, groups)
    &&& ids_unique(t)
    &&& ids_cover(t, groups)
}

/// In a well-formed table, the parent of a group is in the table too, one
/// level up.
pub proof fn lemma_parent_in_table<V>(t: Seq<Slot<V>>, groups: Map<u64, Group>, g: u64)
    requires
        items_wf(t, 0, t.len() as int, groups, None, 0),
        ids_cover(t, groups),
        groups.contains_key(g),
    ensures
        groups[g].parent_bits() matches Some(p) ==> groups.contains_key(p) && groups[p].depth@ + 1
            == groups[g].depth@,
        groups[g].parent_bits() is None ==> groups[g].depth@ == 0,
{
    let i = choose|i: int| slot_opens(t, i, g);
    lemma_items_parent(t, 0, t.len() as int, groups, None, 0, i);
}

impl<V> CacheInner<V> {
    /// The slots of the table.
    pub open(crate) spec fn slots(&self) -> Seq<Slot<V>> {
        self.slots@
    }

    /// The groups of the table, by their ids.
    pub open(crate) spec fn groups(&self) -> Map<u64, Group> {
        group_entries(self.group_map)
    }

    /// The table is as a finished run leaves it.
    pub open spec fn wf(&self) -> bool {
        table_wf(self.slots(), self.groups())
    }

    /// Creates a table that holds the root group and nothing else.
    pub fn new() -> (r: CacheInner<V>)
        ensures
            r.wf(),
            r.slots().len() == 2,
            r.slots()[0] is StartGroup,
            r.slots()[1] is EndGroup,
            r.groups().dom() =~= set![r.slots()[0].id()],
            !r.groups()[r.slots()[0].id()].dirty,
    {
        let mut group_map = group_table_new();
        let root_group_key = group_table_insert(
            &mut group_map,
            Group { parent: None, dirty: false, depth: Ghost(0) },
        );
        let mut slots: Vec<Slot<V>> = Vec::new();
        slots.push(Slot::StartGroup { key: CallKey(0), group_id: root_group_key, len: 2 });
        slots.push(Slot::EndGroup);
        let r = CacheInner { slots, group_map };
        proof {
            let t = r.slots();
            let groups = r.groups();
            assert(items_wf(t, 1, 1, groups, Some(root_group_key@), 1));
            assert(items_wf(t, 2, 2, groups, None, 0));
            assert(slot_opens(t, 0, root_group_key@));
            assert(r.groups().dom() =~= set![r.slots()[0].id()]);
        }
        r
    }

    /// Describes every slot of the table, in order: its kind and key and, for
    /// a group start, the group's extent, parent and dirty flag. The slot at
    /// `current_position` is marked.
    pub fn dump(&self, current_position: usize) -> (r: Vec<DumpLine>)
        requires
            self.wf(),
        ensures
            r@.len() == self.slots().len(),
            forall|i: int|
                0 <= i < self.slots().len() ==> #[trigger] r@[i] == dump_line(
                    self.slots(),
                    self.groups(),
                    i,
                    current_position as int,
                ),
    {
        describe_slots(&self.slots, &self.group_map, current_position)
    }

    /// Tells whether the table still holds the group that `token` stands
    /// for.
    pub fn holds(&self, token: CacheInvalidationToken) -> (r: bool)
        ensures
            r == self.groups().contains_key(token.group()),
    {
        group_table_contains(&self.group_map, token.key)
    }

    /// The number of slots in the table.
    pub fn len(&self) -> (r: usize)
        ensures
            r == self.slots().len(),
    {
        self.slots.len()
    }

    /// Marks the token's group and every group that encloses it dirty. A token
    /// whose group is no longer in the table changes nothing.
    pub fn invalidate(&mut self, token: CacheInvalidationToken)
        requires
            old(self).wf(),
        ensures
            final(self).wf(),
            final(self).slots() == old(self).slots(),
            final(self).groups() == mark_dirty(old(self).groups(), token.group()),
    {
        self.invalidate_group(token.key);
    }

    fn invalidate_group(&mut self, group_key: GroupId)
        requires
            old(self).wf(),
        ensures
            final(self).wf(),
            final(self).slots() == old(self).slots(),
            final(self).groups() == mark_dirty(old(self).groups(), group_key@),
        decreases
                (if old(self).groups().contains_key(group_key@) {
                    old(self).groups()[group_key@].depth@ + 1
                } else {
                    0
                }),
    {
        let entry = group_table_get(&self.group_map, group_key);
        match entry {
            None => {},
            Some(group) => {
                let ghost before = self.groups();
                group_table_set_dirty(&mut self.group_map, group_key, true);
                proof {
                    lemma_parent_in_table(self.slots(), before, group_key@);
                    lemma_flag_keeps_table(self.slots(), before, group_key@, true);
                }
                if let Some(parent) = group.parent {
                    self.invalidate_group(parent);
                }
            },
        }
    }
}

/// Setting the dirty flag of a group leaves a well-formed table well formed.
pub proof fn lemma_flag_keeps_table<V>(
    t: Seq<Slot<V>>,
    groups: Map<u64, Group>,
    g: u64,
    dirty: bool,
)
    requires
        table_wf(t, groups),
        groups.contains_key(g),
    ensures
        table_wf(t, groups.insert(g, groups[g].with_dirty(dirty))),
{
    let after = groups.insert(g, groups[g].with_dirty(dirty));
    lemma_items_frame(t, 0, t.len() as int, groups, None, 0, t, 0, after);
    assert forall|x: u64| #[trigger] after.contains_key(x) implies exists|i: int|
        slot_opens(t, i, x) by {
        assert(groups.contains_key(x));
    }
}

} // verus!
