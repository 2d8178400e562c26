//! The cache writer: the cursor that one run moves over the slot table.
use crate::call_key::CallKey;
use crate::data::Data;
use crate::rerun::{moves, step, Pass, Step};
use crate::group_table::{
    group_entries, group_table_get, group_table_insert, group_table_remove,
    group_table_set_dirty, Group, GroupId,
};
use crate::slot::{
    find_tag, group_end, ids_in, items_wf, kept_before, lemma_groups_bounded, lemma_items_concat,
    lemma_items_first, lemma_scan_end, slot_opens, Slot,
};
use crate::table::{describe_slots, dump_line, CacheInner, CacheInvalidationToken, DumpLine};
use crate::vec_ops::{
    lemma_rotated_index, remove_range, rotate_range_left, rotated, without_range,
};
use crate::writer_model::{
    lemma_advance, lemma_close_clean, lemma_drop_rest, lemma_enter, lemma_finish_clean,
    lemma_insert_group, lemma_insert_item, lemma_rotate_rest, lemma_start, lemma_write_item,
    level_ok, open_id, shifted, with_group_len, writer_wf,
};
use vstd::prelude::*;

verus! {

/// Updates a slot table in the course of one run.
pub struct CacheWriter<V> {
    /// The table being updated.
    pub(crate) cache: CacheInner<V>,
    /// The cursor.
    pub(crate) pos: usize,
    /// Where the open groups start, the root group first.
    pub(crate) group_stack: Vec<usize>,
    /// Where the open groups end.
    pub(crate) ends: Ghost<Seq<int>>,
}

/// `t` after the slot under `key` is brought to `pos`: the items from `pos`
/// to the end of the group are rotated so that the slot comes first. Without
/// such a slot `t` stays as it is.
pub open spec fn synced<V>(t: Seq<Slot<V>>, pos: int, key: CallKey, group: bool) -> Seq<Slot<V>> {
    match find_tag(t, pos, key, group) {
        Some(i) => rotated(t, pos, group_end(t, pos), i - pos),
        None => t,
    }
}

/// What opening the group `key` at `pos`, under the group `parent`, makes of
/// the slots `t` and the groups `groups`: a group found among the items left
/// is brought to `pos`, and `dirty` is its flag; otherwise a new, empty group
/// is put in at `pos`, under an id that the group table did not hold, with
/// `parent` as its parent and a clear flag.
pub open spec fn group_opened<V>(
    t: Seq<Slot<V>>,
    groups: Map<u64, Group>,
    pos: int,
    parent: u64,
    key: CallKey,
    t2: Seq<Slot<V>>,
    groups2: Map<u64, Group>,
    dirty: bool,
) -> bool {
    match find_tag(t, pos, key, true) {
        Some(i) => {
            &&& t2 == synced(t, pos, key, true)
            &&& t2[pos] == t[i]
            &&& groups2 == groups
            &&& dirty == groups[t[i].id()].dirty
        },
        None => {
            &&& t2[pos].opens(key)
            &&& t2[pos]->len == 2
            &&& t2 == t.insert(pos, t2[pos]).insert(pos + 1, Slot::EndGroup)
            &&& !groups.contains_key(t2[pos].id())
            &&& groups2 == groups.insert(t2[pos].id(), groups2[t2[pos].id()])
            &&& groups2[t2[pos].id()].parent_bits() == Some(parent)
            &&& !groups2[t2[pos].id()].dirty
            &&& !dirty
        },
    }
}

/// The slots after the group that starts at `start` is closed with the cursor
/// at `pos`: the items from `pos` to the group's end are gone, and the
/// group's start has the group's length.
pub open spec fn closed_slots<V>(t: Seq<Slot<V>>, pos: int, start: int) -> Seq<Slot<V>> {
    with_group_len(without_range(t, pos, group_end(t, pos)), start, pos + 1 - start)
}

/// The groups after the group `id` is closed with the cursor at `pos`: the
/// groups opened from `pos` to the group's end are gone, and the group's flag
/// is clear.
pub open spec fn closed_groups<V>(
    t: Seq<Slot<V>>,
    groups: Map<u64, Group>,
    pos: int,
    id: u64,
) -> Map<u64, Group> {
    groups.remove_keys(ids_in(t, pos, group_end(t, pos))).insert(id, groups[id].with_dirty(false))
}

/// Whether storing `value` under `key` at `pos` changes anything: it does
/// unless the items left hold a value under `key` that is the same.
pub open spec fn differs<V: Data>(t: Seq<Slot<V>>, pos: int, key: CallKey, value: V) -> bool {
    match find_tag(t, pos, key, false) {
        Some(i) => !value.same_spec(&t[i]->value),
        None => true,
    }
}

/// The slots after `value` is stored under `key` at `pos`: a slot found among
/// the items left is brought to `pos`, and overwritten if the values differ;
/// otherwise a new slot is put in at `pos`.
pub open spec fn stored<V: Data>(t: Seq<Slot<V>>, pos: int, key: CallKey, value: V) -> Seq<
    Slot<V>,
> {
    match find_tag(t, pos, key, false) {
        Some(i) => if value.same_spec(&t[i]->value) {
            synced(t, pos, key, false)
        } else {
            synced(t, pos, key, false).update(pos, Slot::Value { key, value })
        },
        None => t.insert(pos, Slot::Value { key, value }),
    }
}

/// The slots after a value under `key` is expected at `pos`: as they were if
/// the slot there holds one, with a placeholder put in at `pos` if not.
pub open spec fn expected<V>(t: Seq<Slot<V>>, pos: int, key: CallKey) -> Seq<Slot<V>> {
    if t[pos].holds(key) {
        t
    } else {
        t.insert(pos, Slot::Placeholder { key })
    }
}

impl<V> CacheWriter<V> {
    /// The slots of the table.
    pub open(crate) spec fn slots(&self) -> Seq<Slot<V>> {
        self.cache.slots@
    }

    /// The groups of the table, by their ids.
    pub open(crate) spec fn groups(&self) -> Map<u64, Group> {
        group_entries(self.cache.group_map)
    }

    /// The cursor.
    pub open(crate) spec fn pos(&self) -> int {
        self.pos as int
    }

    /// Where the open groups start, the root group first.
    pub open(crate) spec fn stack(&self) -> Seq<usize> {
        self.group_stack@
    }

    /// The run is in a state that its steps can go on from.
    pub open(crate) spec fn wf(&self) -> bool {
        writer_wf(self.slots(), self.groups(), self.pos(), self.stack(), self.ends@)
    }

    /// The number of open groups, the root group included.
    pub open spec fn depth(&self) -> nat {
        self.stack().len()
    }

    /// Where the innermost open group starts.
    pub open spec fn group_start(&self) -> int {
        self.stack()[self.stack().len() - 1] as int
    }

    /// The id of the innermost open group.
    pub open spec fn group(&self) -> u64 {
        self.slots()[self.group_start()].id()
    }

    /// Where the innermost open group ends: the place of its `EndGroup`.
    pub open spec fn rest_end(&self) -> int {
        group_end(self.slots(), self.pos())
    }

    /// In a well-formed state, the cursor lies behind the start of the
    /// innermost open group and not behind its end, which is an `EndGroup`;
    /// the items between the two are whole.
    pub(crate) proof fn lemma_rest(&self)
        requires
            self.wf(),
        ensures
            self.depth() >= 1,
            0 <= self.group_start() < self.pos() <= self.rest_end() < self.slots().len(),
            self.slots().len() <= u32::MAX,
            self.slots()[self.rest_end()] is EndGroup,
            self.slots()[self.group_start()] is StartGroup,
            self.groups().contains_key(self.group()),
            self.rest_end() == self.ends@[self.depth() - 1],
            forall|i: int| 0 <= i < self.depth() ==> (#[trigger] self.stack()[i]) < self.pos(),
    {
        let k = self.depth() as int;
        assert(level_ok(self.slots(), self.groups(), self.stack(), self.ends@, k - 1));
        lemma_scan_end(
            self.slots(),
            self.pos(),
            self.ends@[k - 1],
            self.groups(),
            Some(self.group()),
            k as nat,
        );
        assert forall|i: int| 0 <= i < k implies (#[trigger] self.stack()[i]) < self.pos() by {
            if i < k - 1 {
                assert(self.stack()[i] < self.stack()[k - 1]);
            }
        }
    }

    /// Starts a run on `cache`: opens its root group.
    pub fn new(cache: CacheInner<V>) -> (writer: CacheWriter<V>)
        requires
            cache.wf(),
        ensures
            writer.wf(),
            writer.slots() == cache.slots(),
            writer.groups() == cache.groups(),
            writer.pos() == 1,
            writer.stack() == seq![0usize],
            writer.pass() == Pass::started(cache.slots(), cache.groups()),
    {
        let ghost ends = seq![cache.slots().len() - 1];
        let mut group_stack: Vec<usize> = Vec::new();
        group_stack.push(0);
        proof {
            lemma_start(cache.slots(), cache.groups());
            assert(group_stack@ =~= seq![0usize]);
        }
        // The root group is the first slot of every table, so there is nothing
        // to search for or to move: the cursor goes to the slot behind it.
        CacheWriter { cache, pos: 1, group_stack, ends: Ghost(ends) }
    }

    /// The id of the innermost open group.
    fn parent_group_key(&self) -> (r: GroupId)
        requires
            self.wf(),
        ensures
            r@ == self.group(),
            self.slots()[self.group_start()] matches Slot::StartGroup { group_id, .. }
                && group_id == r,
    {
        proof {
            self.lemma_rest();
        }
        let group_start = self.group_stack[self.group_stack.len() - 1];
        match &self.cache.slots[group_start] {
            Slot::StartGroup { group_id, .. } => *group_id,
            _ => unreached(),
        }
    }

    /// Returns a token for the innermost open group.
    pub fn get_invalidation_token(&self) -> (token: CacheInvalidationToken)
        requires
            self.wf(),
        ensures
            token.group() == self.group(),
    {
        CacheInvalidationToken { key: self.parent_group_key() }
    }

    /// Where the innermost open group ends.
    #[verifier::loop_isolation(false)]
    fn group_end_position(&self) -> (r: usize)
        requires
            self.wf(),
        ensures
            r == self.rest_end(),
    {
        proof {
            self.lemma_rest();
        }
        let ghost t = self.slots();
        let ghost e = self.rest_end();
        let ghost top = Some(self.group());
        let ghost k = self.depth();
        let mut i = self.pos;
        while i < self.cache.slots.len()
            invariant
                t == self.cache.slots@,
                self.pos <= i <= e < t.len(),
                t[e] is EndGroup,
                group_end(t, i as int) == e,
                items_wf(t, i as int, e, self.groups(), top, k),
            decreases t.len() - i,
        {
            proof {
                if i < e {
                    lemma_items_first(t, i as int, e, self.groups(), top, k);
                }
            }
            match &self.cache.slots[i] {
                Slot::EndGroup => {
                    return i;
                },
                Slot::StartGroup { len, .. } => {
                    i += *len as usize;
                },
                _ => {
                    i += 1;
                },
            }
        }
        i
    }

    /// Finds the slot under `call_key` among the items not yet visited in the
    /// innermost open group: a group start if `group` is set, a value if not.
    #[verifier::loop_isolation(false)]
    fn find_tag_in_current_group(&self, call_key: CallKey, group: bool) -> (r: Option<usize>)
        requires
            self.wf(),
        ensures
            r matches Some(i) ==> find_tag(self.slots(), self.pos(), call_key, group) == Some(
                i as int,
            ),
            r is None ==> find_tag(self.slots(), self.pos(), call_key, group) is None,
            r matches Some(i) ==> {
                &&& self.pos() <= i < self.rest_end()
                &&& self.slots()[i as int].tagged(call_key, group)
                &&& items_wf(
                    self.slots(),
                    self.pos(),
                    i as int,
                    self.groups(),
                    Some(self.group()),
                    self.depth(),
                )
                &&& items_wf(
                    self.slots(),
                    i as int,
                    self.rest_end(),
                    self.groups(),
                    Some(self.group()),
                    self.depth(),
                )
            },
    {
        proof {
            self.lemma_rest();
        }
        let ghost t = self.slots();
        let ghost e = self.rest_end();
        let ghost top = Some(self.group());
        let ghost k = self.depth();
        let mut i = self.pos;
        while i < self.cache.slots.len()
            invariant
                t == self.cache.slots@,
                self.pos <= i <= e < t.len(),
                t[e] is EndGroup,
                find_tag(t, self.pos as int, call_key, group) == find_tag(
                    t,
                    i as int,
                    call_key,
                    group,
                ),
                items_wf(t, self.pos as int, i as int, self.groups(), top, k),
                items_wf(t, i as int, e, self.groups(), top, k),
            decreases t.len() - i,
        {
            proof {
                if i < e {
                    lemma_items_first(t, i as int, e, self.groups(), top, k);
                    if t[i as int] is StartGroup {
                        lemma_items_concat(
                            t,
                            self.pos as int,
                            i as int,
                            i + t[i as int]->len,
                            self.groups(),
                            top,
                            k,
                        );
                    } else {
                        lemma_items_concat(
                            t,
                            self.pos as int,
                            i as int,
                            i + 1,
                            self.groups(),
                            top,
                            k,
                        );
                    }
                }
            }
            match &self.cache.slots[i] {
                Slot::StartGroup { key, len, .. } => {
                    if group && key.0 == call_key.0 {
                        return Some(i);
                    }
                    i += *len as usize;
                },
                Slot::Value { key, .. } => {
                    if !group && key.0 == call_key.0 {
                        return Some(i);
                    }
                    i += 1;
                },
                Slot::EndGroup => {
                    return None;
                },
                Slot::Placeholder { .. } => {
                    i += 1;
                },
            }
        }
        None
    }

    /// Steps over the item at the cursor: a value, a placeholder or a whole
    /// group. At the end of the innermost open group the cursor stays.
    pub fn skip(&mut self)
        requires
            old(self).wf(),
        ensures
            final(self).wf(),
            final(self).slots() == old(self).slots(),
            final(self).groups() == old(self).groups(),
            final(self).stack() == old(self).stack(),
            final(self).pos() == (match old(self).slots()[old(self).pos()] {
                Slot::StartGroup { len, .. } => old(self).pos() + len,
                Slot::EndGroup => old(self).pos(),
                _ => old(self).pos() + 1,
            }),
            final(self).pos() <= old(self).rest_end(),
            final(self).rest_end() == old(self).rest_end(),
            old(self).pos() <= final(self).pos(),
    {
        proof {
            self.lemma_rest();
            if self.pos() < self.rest_end() {
                lemma_advance(self.slots(), self.groups(), self.pos(), self.stack(), self.ends@);
            }
        }
        match &self.cache.slots[self.pos] {
            Slot::StartGroup { len, .. } => {
                self.pos += *len as usize;
            },
            Slot::Value { .. } | Slot::Placeholder { .. } => {
                self.pos += 1;
            },
            Slot::EndGroup => {},
        }
        proof {
            self.lemma_rest();
        }
    }

    /// Steps over every item left in the innermost open group.
    pub fn skip_until_end_of_group(&mut self)
        requires
            old(self).wf(),
        ensures
            final(self).wf(),
            final(self).slots() == old(self).slots(),
            final(self).groups() == old(self).groups(),
            final(self).stack() == old(self).stack(),
            final(self).pos() == old(self).rest_end(),
    {
        proof {
            self.lemma_rest();
        }
        let ghost e = self.rest_end();
        loop
            invariant
                self.wf(),
                self.slots() == old(self).slots(),
                self.groups() == old(self).groups(),
                self.stack() == old(self).stack(),
                self.rest_end() == e,
                self.pos() <= e < self.slots().len(),
            ensures
                self.pos() == e,
            decreases e - self.pos(),
        {
            proof {
                self.lemma_rest();
                if self.pos() < e {
                    lemma_advance(
                        self.slots(),
                        self.groups(),
                        self.pos(),
                        self.stack(),
                        self.ends@,
                    );
                }
            }
            let at_end = match &self.cache.slots[self.pos] {
                Slot::EndGroup => true,
                _ => false,
            };
            if at_end {
                break ;
            }
            self.skip();
        }
    }

    /// Moves the item at `found` to the cursor: rotates the items left in the
    /// innermost open group so that it comes first and the items that were
    /// before it follow the others, each part in its order.
    fn rotate_in_current_position(&mut self, found: usize)
        requires
            old(self).wf(),
            old(self).pos() <= found < old(self).rest_end(),
            items_wf(
                old(self).slots(),
                old(self).pos(),
                found as int,
                old(self).groups(),
                Some(old(self).group()),
                old(self).depth(),
            ),
            items_wf(
                old(self).slots(),
                found as int,
                old(self).rest_end(),
                old(self).groups(),
                Some(old(self).group()),
                old(self).depth(),
            ),
        ensures
            final(self).wf(),
            final(self).slots() == rotated(
                old(self).slots(),
                old(self).pos(),
                old(self).rest_end(),
                found - old(self).pos(),
            ),
            final(self).groups() == old(self).groups(),
            final(self).pos() == old(self).pos(),
            final(self).stack() == old(self).stack(),
            final(self).rest_end() == old(self).rest_end(),
            final(self).slots().len() == old(self).slots().len(),
            final(self).slots()[final(self).pos()] == old(self).slots()[found as int],
            kept_before(old(self).slots(), final(self).slots(), old(self).pos()),
    {
        let group_end_pos = self.group_end_position();
        proof {
            self.lemma_rest();
            lemma_rotated_index(
                self.slots(),
                self.pos(),
                group_end_pos as int,
                found - self.pos(),
            );
            lemma_rotate_rest(
                self.slots(),
                self.groups(),
                self.pos(),
                self.stack(),
                self.ends@,
                found as int,
            );
        }
        rotate_range_left(&mut self.cache.slots, self.pos, group_end_pos, found - self.pos);
        proof {
            self.lemma_rest();
        }
    }

    /// Brings the slot under `call_key` to the cursor, if the innermost open
    /// group still has one among the items not yet visited, and tells whether
    /// it has.
    fn sync(&mut self, call_key: CallKey, group: bool) -> (r: bool)
        requires
            old(self).wf(),
        ensures
            final(self).wf(),
            r == find_tag(old(self).slots(), old(self).pos(), call_key, group).is_some(),
            final(self).slots() == synced(old(self).slots(), old(self).pos(), call_key, group),
            final(self).groups() == old(self).groups(),
            final(self).pos() == old(self).pos(),
            final(self).stack() == old(self).stack(),
            final(self).rest_end() == old(self).rest_end(),
            final(self).slots().len() == old(self).slots().len(),
            kept_before(old(self).slots(), final(self).slots(), old(self).pos()),
            r ==> final(self).pos() < final(self).rest_end(),
            r ==> final(self).slots()[final(self).pos()].tagged(call_key, group),
            r ==> final(self).slots()[final(self).pos()] == old(self).slots()[find_tag(
                old(self).slots(),
                old(self).pos(),
                call_key,
                group,
            ).unwrap()],
    {
        let pos = self.find_tag_in_current_group(call_key, group);
        match pos {
            Some(pos) => {
                self.rotate_in_current_position(pos);
                true
            },
            None => false,
        }
    }

    /// Opens the group `call_key` at the cursor and returns whether it was
    /// dirty.
    ///
    /// If the innermost open group still has such a group among the items not
    /// yet visited, that group is moved to the cursor; otherwise a new, empty
    /// group is put in there, with a new entry in the group table. The cursor
    /// then stands on the group's first item.
    pub fn start_group(&mut self, call_key: CallKey) -> (dirty: bool)
        requires
            old(self).wf(),
            old(self).slots().len() + 2 <= u32::MAX,
        ensures
            final(self).wf(),
            final(self).pos() == old(self).pos() + 1,
            final(self).stack() == old(self).stack().push(old(self).pos() as usize),
            final(self).slots()[old(self).pos()].opens(call_key),
            final(self).group() == final(self).slots()[old(self).pos()].id(),
            final(self).slots().len() <= old(self).slots().len() + 2,
            kept_before(old(self).slots(), final(self).slots(), old(self).pos()),
            group_opened(
                old(self).slots(),
                old(self).groups(),
                old(self).pos(),
                old(self).group(),
                call_key,
                final(self).slots(),
                final(self).groups(),
                dirty,
            ),
            moves(old(self).pass(), Step::Open(call_key), final(self).pass(), dirty),
    {
        proof {
            self.lemma_pass_wf();
        }
        let key_found = self.sync(call_key, true);
        let parent = self.parent_group_key();
        let ghost t = self.slots();
        let ghost groups = self.groups();
        let ghost pos = self.pos();
        let ghost stack = self.stack();
        let ghost k = self.depth();
        proof {
            self.lemma_rest();
        }
        let dirty = if key_found {
            proof {
                assert(slot_opens(t, pos, t[pos].id()));
            }
            let group_key = match &self.cache.slots[self.pos] {
                Slot::StartGroup { group_id, .. } => *group_id,
                _ => unreached(),
            };
            match group_table_get(&self.cache.group_map, group_key) {
                Some(group) => group.dirty,
                None => unreached(),
            }
        } else {
            proof {
                lemma_groups_bounded(t, groups);
            }
            let group = Group { parent: Some(parent), dirty: false, depth: Ghost(k) };
            let group_key = group_table_insert(&mut self.cache.group_map, group);
            // 2 = initial length of the group: its start and its end
            let start = Slot::StartGroup { key: call_key, group_id: group_key, len: 2 };
            let ghost start_copy = start;
            self.cache.slots.insert(self.pos, start);
            self.cache.slots.insert(self.pos + 1, Slot::EndGroup);
            proof {
                lemma_insert_group(t, groups, pos, stack, self.ends@, start_copy, group);
                self.ends = Ghost(shifted(self.ends@, 2));
                assert(open_id(self.slots(), stack, k - 1) == open_id(t, stack, k - 1));
            }
            false
        };
        proof {
            self.lemma_rest();
            lemma_enter(self.slots(), self.groups(), self.pos(), self.stack(), self.ends@);
            self.ends = Ghost(self.ends@.push(pos + self.slots()[pos]->len - 1));
        }
        // enter the group
        self.group_stack.push(self.pos);
        self.pos += 1;
        proof {
            self.lemma_pass_wf();
        }
        dirty
    }

    /// Removes the items that the run has not visited in the innermost open
    /// group, and the groups among them from the group table.
    fn drop_rest(&mut self)
        requires
            old(self).wf(),
        ensures
            final(self).wf(),
            final(self).slots() == without_range(
                old(self).slots(),
                old(self).pos(),
                old(self).rest_end(),
            ),
            final(self).groups() == old(self).groups().remove_keys(
                ids_in(old(self).slots(), old(self).pos(), old(self).rest_end()),
            ),
            final(self).pos() == old(self).pos(),
            final(self).stack() == old(self).stack(),
            final(self).rest_end() == old(self).pos(),
            kept_before(old(self).slots(), final(self).slots(), old(self).pos()),
            final(self).groups().contains_key(old(self).group()),
            final(self).groups()[old(self).group()] == old(self).groups()[old(self).group()],
    {
        // all remaining slots in the group are dead: find the group's end
        let group_end_pos = self.group_end_position();
        let ghost t = self.slots();
        let ghost groups = self.groups();
        proof {
            self.lemma_rest();
        }
        // remove their groups from the group table
        let mut i = self.pos;
        while i < group_end_pos
            invariant
                self.pos <= i <= group_end_pos < t.len(),
                self.cache.slots@ == t,
                self.pos == old(self).pos,
                self.group_stack == old(self).group_stack,
                self.ends == old(self).ends,
                self.groups() == groups.remove_keys(ids_in(t, self.pos as int, i as int)),
            decreases group_end_pos - i,
        {
            let ghost before = self.groups();
            let ghost seen = ids_in(t, self.pos as int, i as int);
            match &self.cache.slots[i] {
                Slot::StartGroup { group_id, .. } => {
                    group_table_remove(&mut self.cache.group_map, *group_id);
                    proof {
                        let g = group_id@;
                        assert(slot_opens(t, i as int, g));
                        assert(ids_in(t, self.pos as int, i + 1) =~= seen.insert(g)) by {
                            assert forall|x: u64|
                                ids_in(t, self.pos as int, i + 1).contains(x) implies seen.insert(
                                g,
                            ).contains(x) by {
                                let j = choose|j: int|
                                    self.pos <= j < i + 1 && slot_opens(t, j, x);
                                if j < i {
                                    assert(slot_opens(t, j, x));
                                }
                            }
                        }
                        assert(before.remove(g) =~= groups.remove_keys(seen.insert(g)));
                    }
                },
                _ => {
                    proof {
                        assert(ids_in(t, self.pos as int, i + 1) =~= seen) by {
                            assert forall|x: u64|
                                ids_in(t, self.pos as int, i + 1).contains(x) implies seen.contains(
                                x,
                            ) by {
                                let j = choose|j: int|
                                    self.pos <= j < i + 1 && slot_opens(t, j, x);
                                assert(j < i);
                            }
                        }
                    }
                },
            }
            i += 1;
        }
        // remove the slots themselves
        remove_range(&mut self.cache.slots, self.pos, group_end_pos);
        proof {
            lemma_drop_rest(t, groups, self.pos(), self.stack(), self.ends@);
            self.ends = Ghost(shifted(self.ends@, self.pos() - group_end_pos));
            self.lemma_rest();
        }
    }

    /// Closes the innermost open group.
    ///
    /// The items that the run has not visited in the group are dead: they are
    /// removed from the table, and the groups among them from the group
    /// table. The group's start gets the group's length, its dirty flag is
    /// cleared, and the cursor moves behind the group.
    pub fn end_group(&mut self)
        requires
            old(self).wf(),
            old(self).depth() >= 2,
        ensures
            final(self).wf(),
            final(self).pos() == old(self).pos() + 1,
            final(self).stack() == old(self).stack().drop_last(),
            final(self).slots() == closed_slots(
                old(self).slots(),
                old(self).pos(),
                old(self).group_start(),
            ),
            final(self).groups() == closed_groups(
                old(self).slots(),
                old(self).groups(),
                old(self).pos(),
                old(self).group(),
            ),
            final(self).slots().len() <= old(self).slots().len(),
            kept_before(old(self).slots(), final(self).slots(), old(self).pos()),
            moves(old(self).pass(), Step::Close, final(self).pass(), false),
    {
        proof {
            self.lemma_rest();
            self.lemma_pass_wf();
        }
        self.drop_rest();
        proof {
            self.lemma_rest();
            lemma_close_clean(self.slots(), self.groups(), self.pos(), self.stack(), self.ends@);
            self.ends = Ghost(self.ends@.drop_last());
        }
        // step over the group's end
        self.pos += 1;
        // update the group's length
        let group_start_pos = match self.group_stack.pop() {
            Some(p) => p,
            None => unreached(),
        };
        let (key, group_key) = match &self.cache.slots[group_start_pos] {
            Slot::StartGroup { key, group_id, .. } => (*key, *group_id),
            _ => unreached(),
        };
        group_table_set_dirty(&mut self.cache.group_map, group_key, false);
        let len: u32 = (self.pos - group_start_pos) as u32;
        self.cache.slots.set(group_start_pos, Slot::StartGroup { key, group_id: group_key, len });
        proof {
            self.lemma_pass_wf();
        }
    }

    /// Finishes the run: closes the root group as `end_group` closes any
    /// other, and returns the table.
    pub fn finish(self) -> (table: CacheInner<V>)
        requires
            self.wf(),
            self.depth() == 1,
        ensures
            table.wf(),
            table.slots() == self.pass().finished_slots(),
            table.slots().len() == self.pos() + 1,
            table.groups() == self.pass().finished_groups(),
    {
        let mut writer = self;
        proof {
            writer.lemma_rest();
        }
        writer.drop_rest();
        proof {
            writer.lemma_rest();
            lemma_finish_clean(
                writer.slots(),
                writer.groups(),
                writer.pos(),
                writer.stack(),
                writer.ends@,
            );
        }
        let (key, group_key) = match &writer.cache.slots[0] {
            Slot::StartGroup { key, group_id, .. } => (*key, *group_id),
            _ => unreached(),
        };
        group_table_set_dirty(&mut writer.cache.group_map, group_key, false);
        let len: u32 = (writer.pos + 1) as u32;
        writer.cache.slots.set(0, Slot::StartGroup { key, group_id: group_key, len });
        writer.cache
    }

    /// Writes `value` into the slot at `slot`, which holds a value or reserves
    /// the place of one.
    pub fn set_value(&mut self, slot: usize, value: V)
        requires
            old(self).wf(),
            slot < old(self).slots().len(),
            old(self).slots()[slot as int].takes_value(),
        ensures
            final(self).wf(),
            final(self).slots() == old(self).slots().update(
                slot as int,
                Slot::Value { key: old(self).slots()[slot as int].key().unwrap(), value },
            ),
            final(self).groups() == old(self).groups(),
            final(self).pos() == old(self).pos(),
            final(self).stack() == old(self).stack(),
            kept_before(old(self).slots(), final(self).slots(), old(self).slots().len() as int),
    {
        let key = match &self.cache.slots[slot] {
            Slot::Value { key, .. } => *key,
            Slot::Placeholder { key } => *key,
            _ => unreached(),
        };
        let item = Slot::Value { key, value };
        proof {
            lemma_write_item(
                self.slots(),
                self.groups(),
                self.pos(),
                self.stack(),
                self.ends@,
                slot as int,
                item,
            );
        }
        self.cache.slots.set(slot, item);
    }

    /// Reads the value that the slot at the cursor holds under `call_key`, or
    /// reserves a slot for it there.
    ///
    /// Returns a clone of the value, if there is one, and the place of the
    /// slot, to hand to `set_value` later. The cursor moves behind the slot.
    pub fn expect_value(&mut self, call_key: CallKey) -> (r: (Option<V>, usize)) where V: Clone
        requires
            old(self).wf(),
            old(self).slots().len() < u32::MAX,
        ensures
            final(self).wf(),
            r.1 == old(self).pos(),
            final(self).pos() == old(self).pos() + 1,
            final(self).stack() == old(self).stack(),
            final(self).groups() == old(self).groups(),
            final(self).slots() == expected(old(self).slots(), old(self).pos(), call_key),
            final(self).slots().len() <= old(self).slots().len() + 1,
            kept_before(old(self).slots(), final(self).slots(), old(self).pos()),
            r.0 is Some == old(self).slots()[old(self).pos()].holds(call_key),
            r.0 matches Some(v) ==> cloned(old(self).slots()[old(self).pos()]->value, v),
            final(self).slots()[old(self).pos()].takes_value(),
            final(self).slots()[old(self).pos()].key() == Some(call_key),
            moves(old(self).pass(), Step::Expect(call_key), final(self).pass(), r.0 is None),
    {
        proof {
            self.lemma_rest();
            self.lemma_pass_wf();
        }
        let slot = self.pos;
        let value = match &self.cache.slots[slot] {
            Slot::Value { key, value } => {
                if key.0 == call_key.0 {
                    Some(value.clone())
                } else {
                    None
                }
            },
            _ => None,
        };
        if value.is_none() {
            // otherwise, reserve a new slot
            let item = Slot::Placeholder { key: call_key };
            proof {
                lemma_insert_item(
                    self.slots(),
                    self.groups(),
                    self.pos(),
                    self.stack(),
                    self.ends@,
                    item,
                );
                self.ends = Ghost(shifted(self.ends@, 1));
            }
            self.cache.slots.insert(slot, item);
        }
        proof {
            self.lemma_rest();
            lemma_advance(self.slots(), self.groups(), self.pos(), self.stack(), self.ends@);
        }
        self.pos += 1;
        proof {
            self.lemma_pass_wf();
        }
        (value, slot)
    }

    /// Stores `new_value` under `call_key` at the cursor and tells whether
    /// that changed anything.
    ///
    /// If the innermost open group still has a value under `call_key` among
    /// the items not yet visited, that slot is moved to the cursor and its
    /// value compared with `new_value`: the slot is overwritten, and `true`
    /// returned, unless the two are the same. Otherwise a new slot with
    /// `new_value` is put in at the cursor, and `true` returned. The cursor
    /// moves behind the slot.
    pub fn compare_and_update_value(&mut self, call_key: CallKey, new_value: V) -> (changed:
        bool) where V: Data
        requires
            old(self).wf(),
            old(self).slots().len() < u32::MAX,
        ensures
            final(self).wf(),
            final(self).pos() == old(self).pos() + 1,
            final(self).stack() == old(self).stack(),
            final(self).groups() == old(self).groups(),
            final(self).slots().len() <= old(self).slots().len() + 1,
            kept_before(old(self).slots(), final(self).slots(), old(self).pos()),
            changed == differs(old(self).slots(), old(self).pos(), call_key, new_value),
            final(self).slots() == stored(old(self).slots(), old(self).pos(), call_key, new_value),
            final(self).slots()[old(self).pos()] == (Slot::Value {
                key: call_key,
                value: if changed {
                    new_value
                } else {
                    final(self).slots()[old(self).pos()]->value
                },
            }),
            step(
                old(self).pass(),
                Step::Store(call_key, new_value),
                final(self).pass(),
                changed,
            ),
    {
        proof {
            self.lemma_pass_wf();
        }
        let changed = if self.sync(call_key, false) {
            proof {
                self.lemma_rest();
            }
            let same = match &self.cache.slots[self.pos] {
                Slot::Value { value, .. } => new_value.same(value),
                _ => unreached(),
            };
            if !same {
                let item = Slot::Value { key: call_key, value: new_value };
                proof {
                    lemma_write_item(
                        self.slots(),
                        self.groups(),
                        self.pos(),
                        self.stack(),
                        self.ends@,
                        self.pos(),
                        item,
                    );
                }
                self.cache.slots.set(self.pos, item);
                true
            } else {
                false
            }
        } else {
            // insert a new slot
            let item = Slot::Value { key: call_key, value: new_value };
            proof {
                lemma_insert_item(
                    self.slots(),
                    self.groups(),
                    self.pos(),
                    self.stack(),
                    self.ends@,
                    item,
                );
                self.ends = Ghost(shifted(self.ends@, 1));
            }
            self.cache.slots.insert(self.pos, item);
            true
        };
        proof {
            self.lemma_rest();
            lemma_advance(self.slots(), self.groups(), self.pos(), self.stack(), self.ends@);
        }
        self.pos += 1;
        proof {
            self.lemma_pass_wf();
        }
        changed
    }

    /// Describes the state of the run: the cursor, where the open groups
    /// start, and every slot of the table as `CacheInner::dump` describes it.
    pub fn dump(&self) -> (r: (usize, Vec<usize>, Vec<DumpLine>))
        requires
            self.wf(),
        ensures
            r.0 == self.pos(),
            r.1@ == self.stack(),
            r.2@.len() == self.slots().len(),
            forall|i: int|
                0 <= i < self.slots().len() ==> #[trigger] r.2@[i] == dump_line(
                    self.slots(),
                    self.groups(),
                    i,
                    self.pos(),
                ),
    {
        let mut stack: Vec<usize> = Vec::new();
        let mut i: usize = 0;
        while i < self.group_stack.len()
            invariant
                0 <= i <= self.group_stack@.len(),
                stack@ == self.group_stack@.subrange(0, i as int),
            decreases self.group_stack@.len() - i,
        {
            stack.push(self.group_stack[i]);
            proof {
                assert(stack@ =~= self.group_stack@.subrange(0, i + 1));
            }
            i += 1;
        }
        proof {
            assert(stack@ =~= self.group_stack@);
        }
        (self.pos, stack, describe_slots(&self.cache.slots, &self.cache.group_map, self.pos))
    }

    /// Tells whether the table still holds the group that `token` stands
    /// for.
    pub fn holds(&self, token: CacheInvalidationToken) -> (r: bool)
        ensures
            r == self.groups().contains_key(token.group()),
    {
        self.cache.holds(token)
    }

    /// The cursor.
    pub fn position(&self) -> (r: usize)
        ensures
            r == self.pos(),
    {
        self.pos
    }

    /// The number of slots in the table.
    pub fn len(&self) -> (r: usize)
        ensures
            r == self.slots().len(),
    {
        self.cache.slots.len()
    }

    /// The number of open groups, the root group included.
    pub fn open_groups(&self) -> (r: usize)
        ensures
            r == self.depth(),
    {
        self.group_stack.len()
    }

    /// Tells whether the slot at `slot` holds a value or reserves the place
    /// of one, that is, whether `set_value` can write there.
    pub fn takes_value(&self, slot: usize) -> (r: bool)
        ensures
            r == (slot < self.slots().len() && self.slots()[slot as int].takes_value()),
    {
        if slot < self.cache.slots.len() {
            match &self.cache.slots[slot] {
                Slot::Value { .. } => true,
                Slot::Placeholder { .. } => true,
                _ => false,
            }
        } else {
            false
        }
    }
}

} // verus!
