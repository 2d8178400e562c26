//! What holds of the cache from one run to the next.
use crate::call_key::CallKey;
use crate::data::Data;
use crate::group_table::Group;
use crate::slot::{find_tag, group_end, ids_in, ids_unique, items_wf, slot_opens, Shape, Slot};
use crate::table::{lemma_parent_in_table, mark_dirty, table_wf};
use crate::vec_ops::{lemma_rotated_index, rotated, without_range};
use crate::writer::{
    closed_groups, closed_slots, differs, expected, group_opened, stored, synced,
};
use crate::writer_model::with_group_len;
use vstd::prelude::*;

verus! {

/// A slot that carries the key at the cursor is found there, and bringing it
/// to the cursor moves nothing.
pub proof fn law_found_at_cursor<V>(t: Seq<Slot<V>>, pos: int, key: CallKey, group: bool)
    requires
        0 <= pos < t.len(),
        t[pos].tagged(key, group),
    ensures
        find_tag(t, pos, key, group) == Some(pos),
        pos <= group_end(t, pos) <= t.len() ==> synced(t, pos, key, group) == t,
{
    if pos <= group_end(t, pos) <= t.len() {
        assert(rotated(t, pos, group_end(t, pos), 0) =~= t);
    }
}

/// Storing again what a run stored changes nothing: a value that is the same
/// as the one that the slot at the cursor holds under the key leaves the
/// slots as they are, and is reported as unchanged.
pub proof fn law_same_value_changes_nothing<V: Data>(
    t: Seq<Slot<V>>,
    pos: int,
    key: CallKey,
    value: V,
)
    requires
        0 <= pos <= group_end(t, pos) <= t.len(),
        pos < t.len(),
        t[pos].holds(key),
        value.same_spec(&t[pos]->value),
    ensures
        !differs(t, pos, key, value),
        stored(t, pos, key, value) == t,
{
    law_found_at_cursor(t, pos, key, false);
}

/// What a run stores under a key, the next run finds: after `value` is stored
/// at the cursor, the slot there holds a value under the key, and storing
/// `next` at the same place is reported as a change exactly if `next` is not
/// the same as that value. Where the first store changed the slot, that value
/// is `value`.
pub proof fn law_change_propagation<V: Data>(
    t: Seq<Slot<V>>,
    pos: int,
    key: CallKey,
    value: V,
    next: V,
)
    requires
        0 <= pos <= group_end(t, pos) <= t.len(),
        find_tag(t, pos, key, false) matches Some(i) ==> pos <= i < group_end(t, pos),
    ensures
        stored(t, pos, key, value)[pos].holds(key),
        differs(t, pos, key, value) ==> stored(t, pos, key, value)[pos]->value == value,
        differs(stored(t, pos, key, value), pos, key, next) == !next.same_spec(
            &stored(t, pos, key, value)[pos]->value,
        ),
{
    let e = group_end(t, pos);
    let t1 = stored(t, pos, key, value);
    match find_tag(t, pos, key, false) {
        Some(i) => {
            lemma_find_tag_tagged(t, pos, key, false);
            lemma_rotated_index(t, pos, e, i - pos);
            assert(synced(t, pos, key, false)[pos] == t[i]);
        },
        None => {},
    }
    assert(t1[pos].holds(key));
    law_found_at_cursor(t1, pos, key, false);
}

/// The slot that a search finds carries the key.
pub proof fn lemma_find_tag_tagged<V>(t: Seq<Slot<V>>, pos: int, key: CallKey, group: bool)
    ensures
        find_tag(t, pos, key, group) matches Some(i) ==> pos <= i < t.len() && t[i].tagged(
            key,
            group,
        ),
    decreases t.len() - pos,
{
    if 0 <= pos < t.len() && !t[pos].tagged(key, group) {
        match t[pos] {
            Slot::EndGroup => {},
            Slot::StartGroup { len, .. } => {
                if len >= 1 && pos + len <= t.len() {
                    lemma_find_tag_tagged(t, pos + len, key, group);
                }
            },
            _ => {
                lemma_find_tag_tagged(t, pos + 1, key, group);
            },
        }
    }
}

/// Marking a group dirty sets its flag and the flag of its parent, where the
/// table holds the parent one level up; it removes no group, adds none, and
/// changes nothing of a group but its flag, which it never clears.
pub proof fn law_invalidate_marks(groups: Map<u64, Group>, g: u64)
    ensures
        mark_dirty(groups, g).dom() == groups.dom(),
        groups.contains_key(g) ==> mark_dirty(groups, g)[g].dirty,
        forall|x: u64| #[trigger]
            groups.contains_key(x) ==> {
                &&& mark_dirty(groups, g)[x].parent == groups[x].parent
                &&& mark_dirty(groups, g)[x].depth == groups[x].depth
                &&& groups[x].dirty ==> mark_dirty(groups, g)[x].dirty
            },
        forall|p: u64|
            groups.contains_key(g) && groups[g].parent_bits() == Some(p) && groups.contains_key(p)
                && groups[p].depth@ < groups[g].depth@ ==> #[trigger] mark_dirty(
                groups,
                g,
            )[p].dirty,
    decreases
            (if groups.contains_key(g) {
                groups[g].depth@ + 1
            } else {
                0
            }),
{
    if groups.contains_key(g) {
        let marked = groups.insert(g, groups[g].with_dirty(true));
        assert(marked.dom() =~= groups.dom());
        match groups[g].parent_bits() {
            Some(p) => {
                if groups.contains_key(p) && groups[p].depth@ < groups[g].depth@ {
                    law_invalidate_marks(marked, p);
                    assert forall|x: u64| #[trigger] groups.contains_key(x) implies {
                        &&& mark_dirty(groups, g)[x].parent == groups[x].parent
                        &&& mark_dirty(groups, g)[x].depth == groups[x].depth
                        &&& groups[x].dirty ==> mark_dirty(groups, g)[x].dirty
                    } by {
                        assert(marked.contains_key(x));
                    }
                    assert(marked.contains_key(g));
                }
            },
            None => {},
        }
    }
}

/// Invalidation forces the group to be recomputed: once the group that a
/// token stands for is marked dirty, a run that opens that group, finding it
/// among the items left, is told that the group is dirty.
pub proof fn law_invalidated_group_opens_dirty<V>(
    t: Seq<Slot<V>>,
    groups: Map<u64, Group>,
    pos: int,
    parent: u64,
    key: CallKey,
    t2: Seq<Slot<V>>,
    groups2: Map<u64, Group>,
    dirty: bool,
)
    requires
        find_tag(t, pos, key, true) matches Some(i) && groups.contains_key(t[i].id()),
        group_opened(
            t,
            mark_dirty(groups, t[find_tag(t, pos, key, true).unwrap()].id()),
            pos,
            parent,
            key,
            t2,
            groups2,
            dirty,
        ),
    ensures
        dirty,
{
    law_invalidate_marks(groups, t[find_tag(t, pos, key, true).unwrap()].id());
}

/// Reordering keeps what is reordered: when the items from `pos` to `end` are
/// rotated so that the `n` slots from `found` on come first, these slots
/// arrive unchanged and in order, behind them come the slots that followed
/// them, and then those that preceded them, each part in its order. What
/// lies outside the range stays where it is.
pub proof fn law_rotation_keeps_items<V>(
    t: Seq<Slot<V>>,
    pos: int,
    end: int,
    found: int,
    n: int,
)
    requires
        0 <= pos <= found,
        0 <= n,
        found + n <= end <= t.len(),
    ensures
        rotated(t, pos, end, found - pos).len() == t.len(),
        rotated(t, pos, end, found - pos).subrange(pos, pos + n) == t.subrange(found, found + n),
        rotated(t, pos, end, found - pos).subrange(pos + n, pos + (end - found)) == t.subrange(
            found + n,
            end,
        ),
        rotated(t, pos, end, found - pos).subrange(pos + (end - found), end) == t.subrange(
            pos,
            found,
        ),
        rotated(t, pos, end, found - pos).subrange(0, pos) == t.subrange(0, pos),
        rotated(t, pos, end, found - pos).subrange(end, t.len() as int) == t.subrange(
            end,
            t.len() as int,
        ),
        rotated(t, pos, end, found - pos).to_multiset() == t.to_multiset(),
{
    let r = rotated(t, pos, end, found - pos);
    lemma_rotated_index(t, pos, end, found - pos);
    assert(r.subrange(pos, pos + n) =~= t.subrange(found, found + n));
    assert(r.subrange(pos + n, pos + (end - found)) =~= t.subrange(found + n, end));
    assert(r.subrange(pos + (end - found), end) =~= t.subrange(pos, found));
    assert(r.subrange(0, pos) =~= t.subrange(0, pos));
    assert(r.subrange(end, t.len() as int) =~= t.subrange(end, t.len() as int));
    let a = t.subrange(0, pos);
    let b = t.subrange(pos, found);
    let c = t.subrange(found, end);
    let d = t.subrange(end, t.len() as int);
    assert(t =~= a + b + c + d);
    assert(r =~= a + c + b + d);
    vstd::seq_lib::lemma_multiset_commutative(a, b);
    vstd::seq_lib::lemma_multiset_commutative(a + b, c);
    vstd::seq_lib::lemma_multiset_commutative(a + b + c, d);
    vstd::seq_lib::lemma_multiset_commutative(a, c);
    vstd::seq_lib::lemma_multiset_commutative(a + c, b);
    vstd::seq_lib::lemma_multiset_commutative(a + c + b, d);
    assert((a + b + c + d).to_multiset() =~= (a + c + b + d).to_multiset());
}

/// A group found among the items left keeps its identity when it is opened:
/// the slot at the cursor is the slot that was found, with its group id, and
/// the group table is as it was.
pub proof fn law_found_group_is_kept<V>(
    t: Seq<Slot<V>>,
    groups: Map<u64, Group>,
    pos: int,
    parent: u64,
    key: CallKey,
    t2: Seq<Slot<V>>,
    groups2: Map<u64, Group>,
    dirty: bool,
)
    requires
        find_tag(t, pos, key, true) is Some,
        group_opened(t, groups, pos, parent, key, t2, groups2, dirty),
    ensures
        t2[pos] == t[find_tag(t, pos, key, true).unwrap()],
        t2[pos].opens(key),
        groups2 == groups,
{
    lemma_find_tag_tagged(t, pos, key, true);
}

/// What a run does not visit is gone when the group is closed: a group that
/// is opened among the items left at the cursor is no longer in the group
/// table, no slot opens it any more, and the table is shorter by the items
/// left.
pub proof fn law_unvisited_group_is_removed<V>(
    t: Seq<Slot<V>>,
    groups: Map<u64, Group>,
    pos: int,
    start: int,
    i: int,
)
    requires
        ids_unique(t),
        0 <= start < pos <= i < group_end(t, pos) <= t.len(),
        t[start] is StartGroup,
        t[i] is StartGroup,
    ensures
        !closed_groups(t, groups, pos, t[start].id()).contains_key(t[i].id()),
        forall|j: int| !slot_opens(closed_slots(t, pos, start), j, t[i].id()),
        closed_slots(t, pos, start).len() == t.len() - (group_end(t, pos) - pos),
{
    let e = group_end(t, pos);
    let g = t[i].id();
    assert(slot_opens(t, i, g));
    assert(slot_opens(t, start, t[start].id()));
    assert(ids_in(t, pos, e).contains(g));
    let t2 = closed_slots(t, pos, start);
    assert forall|j: int| !slot_opens(t2, j, g) by {
        if slot_opens(t2, j, g) {
            if j == start {
                assert(t2[j].id() == t[start].id());
                assert(slot_opens(t, start, g));
            } else if j < pos {
                assert(t2[j] == t[j]);
                assert(slot_opens(t, j, g));
            } else {
                assert(t2[j] == t[j + (e - pos)]);
                assert(slot_opens(t, j + (e - pos), g));
            }
        }
    }
}

/// Closing a group that the run has visited to its end, whose start has its
/// length and whose flag is clear, changes nothing.
pub proof fn law_closing_again_changes_nothing<V>(
    t: Seq<Slot<V>>,
    groups: Map<u64, Group>,
    pos: int,
    start: int,
)
    requires
        0 <= start < pos < t.len(),
        t[pos] is EndGroup,
        t[start] is StartGroup,
        t[start]->len == pos + 1 - start,
        groups.contains_key(t[start].id()),
        !groups[t[start].id()].dirty,
    ensures
        closed_slots(t, pos, start) == t,
        closed_groups(t, groups, pos, t[start].id()) == groups,
{
    assert(group_end(t, pos) == pos);
    assert(without_range(t, pos, pos) =~= t);
    assert(with_group_len(t, start, pos + 1 - start) =~= t);
    assert(ids_in(t, pos, pos) =~= Set::<u64>::empty());
    assert(groups.remove_keys(Set::<u64>::empty()) =~= groups);
    assert(groups.insert(t[start].id(), groups[t[start].id()].with_dirty(false)) =~= groups);
}

/// Expecting again a value that the slot at the cursor holds changes nothing.
pub proof fn law_expecting_again_changes_nothing<V>(t: Seq<Slot<V>>, pos: int, key: CallKey)
    requires
        0 <= pos < t.len(),
        t[pos].holds(key),
    ensures
        expected(t, pos, key) == t,
{
}

/// The group `n` levels above the group `g`, following the parents as long
/// as the table holds them one level up.
pub open spec fn ancestor(groups: Map<u64, Group>, g: u64, n: nat) -> Option<u64>
    decreases n,
{
    if !groups.contains_key(g) {
        None
    } else if n == 0 {
        Some(g)
    } else {
        match groups[g].parent_bits() {
            Some(p) => if groups.contains_key(p) && groups[p].depth@ < groups[g].depth@ {
                ancestor(groups, p, (n - 1) as nat)
            } else {
                None
            },
            None => None,
        }
    }
}

/// Marking a group dirty marks every group above it.
pub proof fn law_invalidate_marks_ancestors(groups: Map<u64, Group>, g: u64, n: nat)
    requires
        ancestor(groups, g, n) is Some,
    ensures
        mark_dirty(groups, g).contains_key(ancestor(groups, g, n).unwrap()),
        mark_dirty(groups, g)[ancestor(groups, g, n).unwrap()].dirty,
    decreases n,
{
    law_invalidate_marks(groups, g);
    if n > 0 {
        let p = groups[g].parent_bits().unwrap();
        let marked = groups.insert(g, groups[g].with_dirty(true));
        assert(marked.dom() =~= groups.dom());
        lemma_ancestor_ignores_flags(groups, marked, p, (n - 1) as nat);
        law_invalidate_marks_ancestors(marked, p, (n - 1) as nat);
    }
}

/// Which group lies above another does not depend on the dirty flags.
pub proof fn lemma_ancestor_ignores_flags(
    groups: Map<u64, Group>,
    other: Map<u64, Group>,
    g: u64,
    n: nat,
)
    requires
        other.dom() == groups.dom(),
        forall|x: u64| #[trigger]
            groups.contains_key(x) ==> other[x].parent == groups[x].parent && other[x].depth
                == groups[x].depth,
    ensures
        ancestor(other, g, n) == ancestor(groups, g, n),
    decreases n,
{
    if groups.contains_key(g) && n > 0 {
        assert(other.contains_key(g));
        match groups[g].parent_bits() {
            Some(p) => {
                if groups.contains_key(p) {
                    assert(other.contains_key(p));
                    lemma_ancestor_ignores_flags(groups, other, p, (n - 1) as nat);
                }
            },
            None => {},
        }
    } else if groups.contains_key(g) {
        assert(other.contains_key(g));
    }
}

/// In a table as a run leaves it, the parent of every group is a group of
/// the table, one level up: from there the walk to the root never stops
/// short.
pub proof fn law_parents_are_in_table<V>(t: Seq<Slot<V>>, groups: Map<u64, Group>, g: u64)
    requires
        table_wf(t, groups),
        groups.contains_key(g),
    ensures
        groups[g].parent_bits() matches Some(p) ==> groups.contains_key(p) && groups[p].depth@ + 1
            == groups[g].depth@,
        ancestor(groups, g, groups[g].depth@) is Some,
    decreases groups[g].depth@,
{
    lemma_parent_in_table(t, groups, g);
    match groups[g].parent_bits() {
        Some(p) => {
            law_parents_are_in_table(t, groups, p);
        },
        None => {},
    }
}

/// The slot at `i` is the first slot of one of the items that follow each
/// other from `lo` on.
pub open spec fn item_at<V>(t: Seq<Slot<V>>, lo: int, i: int) -> bool
    decreases i - lo,
{
    if i <= lo || lo < 0 || lo >= t.len() {
        i == lo
    } else {
        match t[lo] {
            Slot::StartGroup { len, .. } => len >= 1 && lo + len <= i && item_at(t, lo + len, i),
            Slot::EndGroup => false,
            _ => item_at(t, lo + 1, i),
        }
    }
}

/// The search finds an item wherever it stands among the items left: if one
/// of the items from `pos` to the group's end carries the key, the search
/// finds the first item that does, which is that item if no item before it
/// carries the key. In what order the items are visited does not matter.
pub proof fn law_search_finds_item<V>(
    t: Seq<Slot<V>>,
    pos: int,
    end: int,
    groups: Map<u64, Group>,
    parent: Option<u64>,
    depth: nat,
    key: CallKey,
    group: bool,
    i: int,
)
    requires
        items_wf(t, pos, end, groups, parent, depth),
        0 <= pos <= i < end,
        item_at(t, pos, i),
        t[i].tagged(key, group),
    ensures
        find_tag(t, pos, key, group) matches Some(j) && pos <= j <= i && t[j].tagged(key, group)
            && item_at(t, pos, j),
        (forall|j: int|
            pos <= j < i && item_at(t, pos, j) ==> !(#[trigger] t[j]).tagged(key, group))
            ==> find_tag(t, pos, key, group) == Some(i),
    decreases i - pos,
{
    if !t[pos].tagged(key, group) {
        assert(pos < i);
        match t[pos].shape() {
            Shape::Start { id, len } => {
                law_search_finds_item(t, pos + len, end, groups, parent, depth, key, group, i);
                let found = find_tag(t, pos + len, key, group).unwrap();
                lemma_item_at_step(t, pos, found);
                if forall|j: int|
                    pos <= j < i && item_at(t, pos, j) ==> !(#[trigger] t[j]).tagged(key, group) {
                    assert forall|j: int| pos + len <= j < i && item_at(t, pos + len, j) implies !(
                    #[trigger] t[j]).tagged(key, group) by {
                        lemma_item_at_step(t, pos, j);
                    }
                }
            },
            Shape::End => {},
            Shape::Item => {
                law_search_finds_item(t, pos + 1, end, groups, parent, depth, key, group, i);
                let found = find_tag(t, pos + 1, key, group).unwrap();
                lemma_item_at_step(t, pos, found);
                if forall|j: int|
                    pos <= j < i && item_at(t, pos, j) ==> !(#[trigger] t[j]).tagged(key, group) {
                    assert forall|j: int| pos + 1 <= j < i && item_at(t, pos + 1, j) implies !(
                    #[trigger] t[j]).tagged(key, group) by {
                        lemma_item_at_step(t, pos, j);
                    }
                }
            },
        }
    } else {
        if forall|j: int|
            pos <= j < i && item_at(t, pos, j) ==> !(#[trigger] t[j]).tagged(key, group) {
            if pos < i {
                assert(item_at(t, pos, pos));
                assert(!t[pos].tagged(key, group));
            }
        }
    }
}

/// An item that follows the item behind the one at `lo` follows the one at
/// `lo`.
pub proof fn lemma_item_at_step<V>(t: Seq<Slot<V>>, lo: int, i: int)
    requires
        0 <= lo < t.len(),
        lo < i,
        !(t[lo] is EndGroup),
        t[lo] matches Slot::StartGroup { len, .. } ==> len >= 1 && lo + len <= i && item_at(
            t,
            lo + len,
            i,
        ),
        !(t[lo] is StartGroup) ==> item_at(t, lo + 1, i),
    ensures
        item_at(t, lo, i),
{
}

} // verus!
