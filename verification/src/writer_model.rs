//! What holds of the slot table while a run is under way, and how the steps
//! of a run keep it.
use crate::call_key::CallKey;
use crate::group_table::Group;
use crate::slot::{
    ids_cover, ids_in, ids_known, ids_unique, items_wf, lemma_ids_moved, lemma_ids_new_group,
    lemma_items_bounds, lemma_items_concat, lemma_items_first, lemma_items_frame, shape_of,
    slot_opens, Shape, Slot,
};
use crate::table::table_wf;
use crate::vec_ops::{lemma_rotated_index, rotated, rotated_from, rotated_to, without_range};
use vstd::prelude::*;

verus! {

/// The id of the `i`-th open group.
pub open spec fn open_id<V>(t: Seq<Slot<V>>, stack: Seq<usize>, i: int) -> u64 {
    t[stack[i] as int].id()
}

/// The group that encloses the `i`-th open group.
pub open spec fn open_parent<V>(t: Seq<Slot<V>>, stack: Seq<usize>, i: int) -> Option<u64> {
    if i == 0 {
        None
    } else {
        Some(open_id(t, stack, i - 1))
    }
}

/// The `i`-th open group: it starts at `stack[i]` and ends at `ends[i]`, both
/// around the innermost open group; the group table has it at depth `i` under
/// the open group before it; and between it and the next open group lie whole
/// items, before and behind.
pub open spec fn level_ok<V>(
    t: Seq<Slot<V>>,
    groups: Map<u64, Group>,
    stack: Seq<usize>,
    ends: Seq<int>,
    i: int,
) -> bool {
    let k = stack.len() as int;
    let s = stack[i] as int;
    let id = open_id(t, stack, i);
    &&& 0 <= s < ends[i] < t.len()
    &&& t[s] is StartGroup
    &&& t[ends[i]] is EndGroup
    &&& groups.contains_key(id)
    &&& groups[id].depth@ == i
    &&& groups[id].parent_bits() == open_parent(t, stack, i)
    &&& i + 1 < k ==> {
        &&& items_wf(t, s + 1, stack[i + 1] as int, groups, Some(id), (i + 1) as nat)
        &&& items_wf(t, ends[i + 1] + 1, ends[i], groups, Some(id), (i + 1) as nat)
    }
}

/// Each open group lies inside the open groups before it.
pub open spec fn nested(stack: Seq<usize>, ends: Seq<int>) -> bool {
    forall|i: int, j: int|
        #![trigger stack[i], stack[j]]
        #![trigger ends[i], ends[j]]
        0 <= i < j < stack.len() ==> stack[i] < stack[j] && ends[j] < ends[i]
}

/// The state of a run: the groups at `stack` are open and end at `ends`, the
/// root group first; before the cursor `pos` lie the items that the run has
/// visited in the innermost open group, from `pos` to that group's end the
/// items that it has not visited yet.
pub open spec fn writer_wf<V>(
    t: Seq<Slot<V>>,
    groups: Map<u64, Group>,
    pos: int,
    stack: Seq<usize>,
    ends: Seq<int>,
) -> bool {
    let k = stack.len() as int;
    &&& k >= 1
    &&& ends.len() == k
    &&& t.len() <= u32::MAX
    &&& stack[0] == 0
    &&& ends[0] == t.len() - 1
    &&& t[0].opens(CallKey(0))
    &&& ids_known(t, groups)
    &&& ids_unique(t)
    &&& ids_cover(t, groups)
    &&& nested(stack, ends)
    &&& forall|i: int| 0 <= i < k ==> #[trigger] level_ok(t, groups, stack, ends, i)
    &&& stack[k - 1] < pos <= ends[k - 1]
    &&& items_wf(t, stack[k - 1] + 1, pos, groups, Some(open_id(t, stack, k - 1)), k as nat)
    &&& items_wf(t, pos, ends[k - 1], groups, Some(open_id(t, stack, k - 1)), k as nat)
}

/// `ends`, each moved by `d`.
pub open spec fn shifted(ends: Seq<int>, d: int) -> Seq<int> {
    Seq::new(ends.len(), |i: int| ends[i] + d)
}

/// The slots before `pos` keep their shapes, and those from `end` on keep
/// them `d` places further.
pub open spec fn same_around<V>(
    t: Seq<Slot<V>>,
    t2: Seq<Slot<V>>,
    pos: int,
    end: int,
    d: int,
) -> bool {
    &&& t2.len() == t.len() + d
    &&& t2[0].key() == t[0].key()
    &&& forall|j: int| 0 <= j < pos ==> #[trigger] shape_of(t, j) == shape_of(t2, j)
    &&& forall|j: int| end <= j < t.len() ==> #[trigger] shape_of(t, j) == shape_of(t2, j + d)
}

/// The groups opened before `pos` or from `end` on are in `groups2` as they
/// are in `groups`.
pub open spec fn groups_kept<V>(
    t: Seq<Slot<V>>,
    pos: int,
    end: int,
    groups: Map<u64, Group>,
    groups2: Map<u64, Group>,
) -> bool {
    forall|j: int, g: u64|
        (j < pos || end <= j) && #[trigger] slot_opens(t, j, g) && groups.contains_key(g) ==> {
            &&& groups2.contains_key(g)
            &&& groups2[g].parent_bits() == groups[g].parent_bits()
            &&& groups2[g].depth == groups[g].depth
        }
}

/// The items not yet visited in the innermost open group may be replaced by
/// any list of items: the state stays well formed, the group ends moved by
/// the difference in length.
pub proof fn lemma_replace_rest<V>(
    t: Seq<Slot<V>>,
    groups: Map<u64, Group>,
    pos: int,
    stack: Seq<usize>,
    ends: Seq<int>,
    t2: Seq<Slot<V>>,
    groups2: Map<u64, Group>,
    d: int,
)
    requires
        writer_wf(t, groups, pos, stack, ends),
        same_around(t, t2, pos, ends[stack.len() - 1], d),
        groups_kept(t, pos, ends[stack.len() - 1], groups, groups2),
        t2.len() <= u32::MAX,
        items_wf(
            t2,
            pos,
            ends[stack.len() - 1] + d,
            groups2,
            Some(open_id(t, stack, stack.len() - 1)),
            stack.len(),
        ),
        ids_known(t2, groups2),
        ids_unique(t2),
        ids_cover(t2, groups2),
    ensures
        writer_wf(t2, groups2, pos, stack, shifted(ends, d)),
{
    let k = stack.len() as int;
    let ends2 = shifted(ends, d);
    let e = ends[k - 1];
    lemma_items_bounds(t2, pos, e + d, groups2, Some(open_id(t, stack, k - 1)), k as nat);
    assert(level_ok(t, groups, stack, ends, k - 1));
    assert(level_ok(t, groups, stack, ends, 0));
    assert forall|i: int| 0 <= i < k implies #[trigger] level_ok(t2, groups2, stack, ends2, i) by {
        assert(level_ok(t, groups, stack, ends, i));
        let s = stack[i] as int;
        assert(shape_of(t, s) == shape_of(t2, s));
        assert(shape_of(t, ends[i]) == shape_of(t2, ends[i] + d));
        assert(slot_opens(t, s, open_id(t, stack, i)));
        if i > 0 {
            assert(level_ok(t, groups, stack, ends, i - 1));
            assert(shape_of(t, stack[i - 1] as int) == shape_of(t2, stack[i - 1] as int));
        }
        if i + 1 < k {
            assert(level_ok(t, groups, stack, ends, i + 1));
            lemma_items_frame(
                t,
                s + 1,
                stack[i + 1] as int,
                groups,
                Some(open_id(t, stack, i)),
                (i + 1) as nat,
                t2,
                s + 1,
                groups2,
            );
            lemma_items_frame(
                t,
                ends[i + 1] + 1,
                ends[i],
                groups,
                Some(open_id(t, stack, i)),
                (i + 1) as nat,
                t2,
                ends[i + 1] + 1 + d,
                groups2,
            );
        }
    }
    let s = stack[k - 1] as int;
    assert(shape_of(t, s) == shape_of(t2, s));
    lemma_items_frame(
        t,
        s + 1,
        pos,
        groups,
        Some(open_id(t, stack, k - 1)),
        k as nat,
        t2,
        s + 1,
        groups2,
    );
    assert(shape_of(t, 0) == shape_of(t2, 0));
}

/// Stepping over the first item not yet visited keeps the state well formed.
pub proof fn lemma_advance<V>(
    t: Seq<Slot<V>>,
    groups: Map<u64, Group>,
    pos: int,
    stack: Seq<usize>,
    ends: Seq<int>,
)
    requires
        writer_wf(t, groups, pos, stack, ends),
        pos < ends[stack.len() - 1],
    ensures
        !(t[pos] is EndGroup),
        t[pos] is StartGroup ==> 2 <= t[pos]->len && pos + t[pos]->len <= ends[stack.len() - 1]
            && writer_wf(t, groups, pos + t[pos]->len, stack, ends),
        !(t[pos] is StartGroup) ==> writer_wf(t, groups, pos + 1, stack, ends),
{
    let k = stack.len() as int;
    let top = Some(open_id(t, stack, k - 1));
    lemma_items_first(t, pos, ends[k - 1], groups, top, k as nat);
    if t[pos] is StartGroup {
        lemma_items_concat(t, stack[k - 1] + 1, pos, pos + t[pos]->len, groups, top, k as nat);
    } else {
        lemma_items_concat(t, stack[k - 1] + 1, pos, pos + 1, groups, top, k as nat);
    }
}

/// Entering the group that starts at the cursor keeps the state well formed:
/// the group becomes the innermost open one, and none of its items is visited.
pub proof fn lemma_enter<V>(
    t: Seq<Slot<V>>,
    groups: Map<u64, Group>,
    pos: int,
    stack: Seq<usize>,
    ends: Seq<int>,
)
    requires
        writer_wf(t, groups, pos, stack, ends),
        pos < ends[stack.len() - 1],
        t[pos] is StartGroup,
    ensures
        2 <= t[pos]->len,
        pos + t[pos]->len <= ends[stack.len() - 1],
        writer_wf(t, groups, pos + 1, stack.push(pos as usize), ends.push(pos + t[pos]->len - 1)),
{
    let k = stack.len() as int;
    let top = Some(open_id(t, stack, k - 1));
    let len = t[pos]->len as int;
    let stack2 = stack.push(pos as usize);
    let ends2 = ends.push(pos + len - 1);
    assert(items_wf(t, pos + 1, pos + 1, groups, Some(t[pos].id()), (k + 1) as nat));
    assert(level_ok(t, groups, stack, ends, k - 1));
    assert forall|i: int| 0 <= i < k + 1 implies #[trigger] level_ok(
        t,
        groups,
        stack2,
        ends2,
        i,
    ) by {
        if i < k {
            assert(level_ok(t, groups, stack, ends, i));
            assert(open_id(t, stack2, i) == open_id(t, stack, i));
            if i > 0 {
                assert(open_id(t, stack2, i - 1) == open_id(t, stack, i - 1));
            }
        } else {
            assert(open_id(t, stack2, k - 1) == open_id(t, stack, k - 1));
        }
    }
}

/// Closing the innermost open group, once every item left in it is gone: the
/// group's start records its length, and the cursor stands behind its end.
/// The state stays well formed, whatever becomes of the group's dirty flag.
pub proof fn lemma_close<V>(
    t: Seq<Slot<V>>,
    groups: Map<u64, Group>,
    pos: int,
    stack: Seq<usize>,
    ends: Seq<int>,
    t2: Seq<Slot<V>>,
    groups2: Map<u64, Group>,
)
    requires
        writer_wf(t, groups, pos, stack, ends),
        stack.len() >= 2,
        pos == ends[stack.len() - 1],
        t2.len() == t.len(),
        forall|j: int|
            0 <= j < t.len() && j != stack[stack.len() - 1] ==> t2[j] == #[trigger] t[j],
        t2[stack[stack.len() - 1] as int].shape() == (Shape::Start {
            id: open_id(t, stack, stack.len() - 1),
            len: pos + 1 - stack[stack.len() - 1],
        }),
        groups2.dom() == groups.dom(),
        forall|g: u64|
            groups.contains_key(g) ==> (#[trigger] groups2[g]).parent_bits()
                == groups[g].parent_bits() && groups2[g].depth == groups[g].depth,
        ids_known(t2, groups2),
        ids_unique(t2),
        ids_cover(t2, groups2),
    ensures
        writer_wf(t2, groups2, pos + 1, stack.drop_last(), ends.drop_last()),
{
    let k = stack.len() as int;
    let g = stack[k - 1] as int;
    let id = open_id(t, stack, k - 1);
    let up = Some(open_id(t, stack, k - 2));
    let stack2 = stack.drop_last();
    let ends2 = ends.drop_last();
    assert(level_ok(t, groups, stack, ends, k - 1));
    assert(level_ok(t, groups, stack, ends, k - 2));
    assert(level_ok(t, groups, stack, ends, 0));
    assert forall|i: int| 0 <= i < k - 1 implies #[trigger] level_ok(
        t2,
        groups2,
        stack2,
        ends2,
        i,
    ) by {
        assert(level_ok(t, groups, stack, ends, i));
        if i > 0 {
            assert(level_ok(t, groups, stack, ends, i - 1));
        }
        if i + 1 < k - 1 {
            assert(level_ok(t, groups, stack, ends, i + 1));
            lemma_items_frame(
                t,
                stack[i] + 1,
                stack[i + 1] as int,
                groups,
                Some(open_id(t, stack, i)),
                (i + 1) as nat,
                t2,
                stack[i] + 1,
                groups2,
            );
            lemma_items_frame(
                t,
                ends[i + 1] + 1,
                ends[i],
                groups,
                Some(open_id(t, stack, i)),
                (i + 1) as nat,
                t2,
                ends[i + 1] + 1,
                groups2,
            );
        }
    }
    let s = stack[k - 2] as int;
    // the items before the closed group, the closed group, and what follows it
    lemma_items_frame(t, s + 1, g, groups, up, (k - 1) as nat, t2, s + 1, groups2);
    lemma_items_frame(t, g + 1, pos, groups, Some(id), k as nat, t2, g + 1, groups2);
    lemma_items_frame(
        t,
        pos + 1,
        ends[k - 2],
        groups,
        up,
        (k - 1) as nat,
        t2,
        pos + 1,
        groups2,
    );
    assert(items_wf(t2, pos + 1, pos + 1, groups2, up, (k - 1) as nat));
    assert(items_wf(t2, g, pos + 1, groups2, up, (k - 1) as nat));
    lemma_items_concat(t2, s + 1, g, pos + 1, groups2, up, (k - 1) as nat);
}

/// Closing the root group, once every item left in it is gone, gives a table
/// as a run leaves it.
pub proof fn lemma_finish<V>(
    t: Seq<Slot<V>>,
    groups: Map<u64, Group>,
    pos: int,
    stack: Seq<usize>,
    ends: Seq<int>,
    t2: Seq<Slot<V>>,
    groups2: Map<u64, Group>,
)
    requires
        writer_wf(t, groups, pos, stack, ends),
        stack.len() == 1,
        pos == ends[0],
        t2.len() == t.len(),
        forall|j: int| 0 < j < t.len() ==> t2[j] == #[trigger] t[j],
        t2[0].opens(CallKey(0)),
        t2[0].shape() == (Shape::Start { id: open_id(t, stack, 0), len: pos + 1 }),
        groups2.dom() == groups.dom(),
        forall|g: u64|
            groups.contains_key(g) ==> (#[trigger] groups2[g]).parent_bits()
                == groups[g].parent_bits() && groups2[g].depth == groups[g].depth,
        ids_known(t2, groups2),
        ids_unique(t2),
        ids_cover(t2, groups2),
    ensures
        table_wf(t2, groups2),
        pos + 1 == t2.len(),
{
    let id = open_id(t, stack, 0);
    assert(level_ok(t, groups, stack, ends, 0));
    lemma_items_frame(t, 1, pos, groups, Some(id), 1, t2, 1, groups2);
    assert(items_wf(t2, pos + 1, pos + 1, groups2, None, 0));
}

/// Opening the root group of a table that a run left gives the first state of
/// the next run.
pub proof fn lemma_start<V>(t: Seq<Slot<V>>, groups: Map<u64, Group>)
    requires
        table_wf(t, groups),
    ensures
        writer_wf(t, groups, 1, seq![0usize], seq![t.len() - 1]),
{
    let stack = seq![0usize];
    let ends = seq![t.len() - 1];
    assert(slot_opens(t, 0, t[0].id()));
    assert(items_wf(t, 1, 1, groups, Some(t[0].id()), 1));
    assert(level_ok(t, groups, stack, ends, 0));
}

/// Rotating the items not yet visited in the innermost open group, so that
/// the item at `found` comes to the cursor, keeps the state well formed.
pub proof fn lemma_rotate_rest<V>(
    t: Seq<Slot<V>>,
    groups: Map<u64, Group>,
    pos: int,
    stack: Seq<usize>,
    ends: Seq<int>,
    found: int,
)
    requires
        writer_wf(t, groups, pos, stack, ends),
        pos <= found < ends[stack.len() - 1],
        items_wf(t, pos, found, groups, Some(open_id(t, stack, stack.len() - 1)), stack.len()),
        items_wf(
            t,
            found,
            ends[stack.len() - 1],
            groups,
            Some(open_id(t, stack, stack.len() - 1)),
            stack.len(),
        ),
    ensures
        writer_wf(rotated(t, pos, ends[stack.len() - 1], found - pos), groups, pos, stack, ends),
        rotated(t, pos, ends[stack.len() - 1], found - pos)[pos] == t[found],
        rotated(t, pos, ends[stack.len() - 1], found - pos).len() == t.len(),
{
    let k = stack.len();
    let e = ends[k - 1];
    let mid = found - pos;
    let top = Some(open_id(t, stack, k - 1));
    let t2 = rotated(t, pos, e, mid);
    assert(level_ok(t, groups, stack, ends, k - 1));
    lemma_rotated_index(t, pos, e, mid);
    assert(items_wf(t2, pos, e, groups, top, k)) by {
        assert forall|j: int| found <= j < e implies #[trigger] shape_of(t, j) == shape_of(
            t2,
            j - found + pos,
        ) by {
            assert(rotated_from(pos, e, mid, j - found + pos) == j);
        }
        lemma_items_frame(t, found, e, groups, top, k, t2, pos, groups);
        assert forall|j: int| pos <= j < found implies #[trigger] shape_of(t, j) == shape_of(
            t2,
            j - pos + (pos + e - found),
        ) by {
            assert(rotated_from(pos, e, mid, j - pos + (pos + e - found)) == j);
        }
        lemma_items_frame(t, pos, found, groups, top, k, t2, pos + e - found, groups);
        lemma_items_concat(t2, pos, pos + e - found, e, groups, top, k);
    }
    assert(same_around(t, t2, pos, e, 0)) by {
        assert forall|j: int| 0 <= j < pos implies #[trigger] shape_of(t, j) == shape_of(
            t2,
            j,
        ) by {
            assert(rotated_from(pos, e, mid, j) == j);
        }
        assert forall|j: int| e <= j < t.len() implies #[trigger] shape_of(t, j) == shape_of(
            t2,
            j + 0,
        ) by {
            assert(rotated_from(pos, e, mid, j) == j);
        }
        assert(rotated_from(pos, e, mid, 0) == 0);
    }
    assert(ids_known(t2, groups) && ids_unique(t2) && ids_cover(t2, groups)) by {
        let from = |i: int| rotated_from(pos, e, mid, i);
        let to = |j: int| rotated_to(pos, e, mid, j);
        assert forall|i: int, g: u64| #[trigger] slot_opens(t2, i, g) implies slot_opens(
            t,
            from(i),
            g,
        ) && to(from(i)) == i && groups.contains_key(g) by {
            assert(t2[i] == t[rotated_from(pos, e, mid, i)]);
            assert(slot_opens(t, from(i), g));
        }
        assert forall|j: int, g: u64| #[trigger]
            slot_opens(t, j, g) && groups.contains_key(g) implies slot_opens(t2, to(j), g) by {
            let i = rotated_to(pos, e, mid, j);
            assert(t2[i] == t[rotated_from(pos, e, mid, i)]);
        }
        lemma_ids_moved(t, groups, t2, groups, from, to);
    }
    lemma_replace_rest(t, groups, pos, stack, ends, t2, groups, 0);
    assert(shifted(ends, 0) =~= ends);
    assert(rotated_from(pos, e, mid, pos) == found);
}

/// Putting a new, empty group in at the cursor keeps the state well formed,
/// once the group table has the group under the innermost open group.
pub proof fn lemma_insert_group<V>(
    t: Seq<Slot<V>>,
    groups: Map<u64, Group>,
    pos: int,
    stack: Seq<usize>,
    ends: Seq<int>,
    start: Slot<V>,
    group: Group,
)
    requires
        writer_wf(t, groups, pos, stack, ends),
        t.len() + 2 <= u32::MAX,
        start is StartGroup,
        start->len == 2,
        !groups.contains_key(start.id()),
        group.parent_bits() == Some(open_id(t, stack, stack.len() - 1)),
        group.depth@ == stack.len(),
    ensures
        writer_wf(
            t.insert(pos, start).insert(pos + 1, Slot::EndGroup),
            groups.insert(start.id(), group),
            pos,
            stack,
            shifted(ends, 2),
        ),
{
    let k = stack.len();
    let e = ends[k - 1];
    let top = Some(open_id(t, stack, k - 1));
    let t2 = t.insert(pos, start).insert(pos + 1, Slot::EndGroup);
    let groups2 = groups.insert(start.id(), group);
    assert(level_ok(t, groups, stack, ends, k - 1));
    lemma_ids_new_group(t, groups, pos, start, group);
    assert forall|j: int| pos <= j < e implies #[trigger] shape_of(t, j) == shape_of(
        t2,
        j - pos + (pos + 2),
    ) by {}
    lemma_items_frame(t, pos, e, groups, top, k, t2, pos + 2, groups2);
    assert(items_wf(t2, pos + 1, pos + 1, groups2, Some(start.id()), k + 1));
    assert(items_wf(t2, pos, e + 2, groups2, top, k));
    assert(same_around(t, t2, pos, e, 2));
    assert(groups_kept(t, pos, e, groups, groups2));
    lemma_replace_rest(t, groups, pos, stack, ends, t2, groups2, 2);
}

/// Putting a value or a placeholder in at the cursor keeps the state well
/// formed.
pub proof fn lemma_insert_item<V>(
    t: Seq<Slot<V>>,
    groups: Map<u64, Group>,
    pos: int,
    stack: Seq<usize>,
    ends: Seq<int>,
    item: Slot<V>,
)
    requires
        writer_wf(t, groups, pos, stack, ends),
        t.len() + 1 <= u32::MAX,
        item.takes_value(),
    ensures
        writer_wf(t.insert(pos, item), groups, pos, stack, shifted(ends, 1)),
{
    let k = stack.len();
    let e = ends[k - 1];
    let top = Some(open_id(t, stack, k - 1));
    let t2 = t.insert(pos, item);
    assert(level_ok(t, groups, stack, ends, k - 1));
    assert(ids_known(t2, groups) && ids_unique(t2) && ids_cover(t2, groups)) by {
        let from = |i: int|
            if i < pos {
                i
            } else {
                i - 1
            };
        let to = |j: int|
            if j < pos {
                j
            } else {
                j + 1
            };
        assert forall|i: int, g: u64| #[trigger] slot_opens(t2, i, g) implies slot_opens(
            t,
            from(i),
            g,
        ) && to(from(i)) == i && groups.contains_key(g) by {
            assert(i != pos);
            assert(t2[i] == t[from(i)]);
            assert(slot_opens(t, from(i), g));
        }
        assert forall|j: int, g: u64| #[trigger]
            slot_opens(t, j, g) && groups.contains_key(g) implies slot_opens(t2, to(j), g) by {
            assert(t2[to(j)] == t[j]);
        }
        lemma_ids_moved(t, groups, t2, groups, from, to);
    }
    assert forall|j: int| pos <= j < e implies #[trigger] shape_of(t, j) == shape_of(
        t2,
        j - pos + (pos + 1),
    ) by {}
    lemma_items_frame(t, pos, e, groups, top, k, t2, pos + 1, groups);
    assert(items_wf(t2, pos, e + 1, groups, top, k));
    assert(same_around(t, t2, pos, e, 1));
    lemma_replace_rest(t, groups, pos, stack, ends, t2, groups, 1);
}

/// Writing a value into a slot that holds a value or reserves the place of
/// one keeps the state well formed.
pub proof fn lemma_write_item<V>(
    t: Seq<Slot<V>>,
    groups: Map<u64, Group>,
    pos: int,
    stack: Seq<usize>,
    ends: Seq<int>,
    at: int,
    item: Slot<V>,
)
    requires
        writer_wf(t, groups, pos, stack, ends),
        0 <= at < t.len(),
        t[at].takes_value(),
        item.takes_value(),
    ensures
        writer_wf(t.update(at, item), groups, pos, stack, ends),
{
    let k = stack.len();
    let e = ends[k - 1];
    let top = Some(open_id(t, stack, k - 1));
    let t2 = t.update(at, item);
    assert(level_ok(t, groups, stack, ends, k - 1));
    assert(ids_known(t2, groups) && ids_unique(t2) && ids_cover(t2, groups)) by {
        let from = |i: int| i;
        let to = |j: int| j;
        assert forall|i: int, g: u64| #[trigger] slot_opens(t2, i, g) implies slot_opens(
            t,
            from(i),
            g,
        ) && to(from(i)) == i && groups.contains_key(g) by {
            assert(i != at);
            assert(slot_opens(t, i, g));
        }
        assert forall|j: int, g: u64| #[trigger]
            slot_opens(t, j, g) && groups.contains_key(g) implies slot_opens(t2, to(j), g) by {
            assert(j != at);
        }
        lemma_ids_moved(t, groups, t2, groups, from, to);
    }
    assert forall|j: int| pos <= j < e implies #[trigger] shape_of(t, j) == shape_of(
        t2,
        j - pos + pos,
    ) by {}
    lemma_items_frame(t, pos, e, groups, top, k, t2, pos, groups);
    assert(same_around(t, t2, pos, e, 0));
    lemma_replace_rest(t, groups, pos, stack, ends, t2, groups, 0);
    assert(shifted(ends, 0) =~= ends);
}

/// Removing the items not yet visited in the innermost open group, and their
/// groups from the group table, keeps the state well formed; the cursor then
/// stands on the group's end.
pub proof fn lemma_drop_rest<V>(
    t: Seq<Slot<V>>,
    groups: Map<u64, Group>,
    pos: int,
    stack: Seq<usize>,
    ends: Seq<int>,
)
    requires
        writer_wf(t, groups, pos, stack, ends),
    ensures
        writer_wf(
            without_range(t, pos, ends[stack.len() - 1]),
            groups.remove_keys(ids_in(t, pos, ends[stack.len() - 1])),
            pos,
            stack,
            shifted(ends, pos - ends[stack.len() - 1]),
        ),
        groups.remove_keys(ids_in(t, pos, ends[stack.len() - 1])).contains_key(
            open_id(t, stack, stack.len() - 1),
        ),
        groups.remove_keys(ids_in(t, pos, ends[stack.len() - 1]))[open_id(
            t,
            stack,
            stack.len() - 1,
        )] == groups[open_id(t, stack, stack.len() - 1)],
{
    let k = stack.len();
    let e = ends[k - 1];
    let d = pos - e;
    let top = Some(open_id(t, stack, k - 1));
    let dead = ids_in(t, pos, e);
    let t2 = without_range(t, pos, e);
    let groups2 = groups.remove_keys(dead);
    assert(level_ok(t, groups, stack, ends, k - 1));
    assert forall|j: int, g: u64|
        (j < pos || e <= j) && #[trigger] slot_opens(t, j, g) implies !dead.contains(g) by {
        if dead.contains(g) {
            let i = choose|i: int| pos <= i < e && slot_opens(t, i, g);
            assert(slot_opens(t, i, g));
        }
    }
    assert(slot_opens(t, stack[k - 1] as int, open_id(t, stack, k - 1)));
    assert(ids_known(t2, groups2) && ids_unique(t2) && ids_cover(t2, groups2)) by {
        let from = |i: int|
            if i < pos {
                i
            } else {
                i - d
            };
        let to = |j: int|
            if j < pos {
                j
            } else {
                j + d
            };
        assert forall|i: int, g: u64| #[trigger] slot_opens(t2, i, g) implies slot_opens(
            t,
            from(i),
            g,
        ) && to(from(i)) == i && groups2.contains_key(g) by {
            assert(t2[i] == t[from(i)]);
            assert(slot_opens(t, from(i), g));
        }
        assert forall|j: int, g: u64| #[trigger]
            slot_opens(t, j, g) && groups2.contains_key(g) implies slot_opens(t2, to(j), g) by {
            if pos <= j < e {
                assert(dead.contains(g));
            }
            assert(t2[to(j)] == t[j]);
        }
        lemma_ids_moved(t, groups, t2, groups2, from, to);
    }
    assert(same_around(t, t2, pos, e, d)) by {
        assert forall|j: int| e <= j < t.len() implies #[trigger] shape_of(t, j) == shape_of(
            t2,
            j + d,
        ) by {
            assert(t2[j + d] == t[j]);
        }
        assert(t2[0] == t[0]);
    }
    assert(groups_kept(t, pos, e, groups, groups2));
    assert(items_wf(t2, pos, e + d, groups2, top, k));
    lemma_replace_rest(t, groups, pos, stack, ends, t2, groups2, d);
}

/// The slot at `at` with the length `len`, everything else as in `t`.
pub open spec fn with_group_len<V>(t: Seq<Slot<V>>, at: int, len: int) -> Seq<Slot<V>> {
    t.update(at, t[at].with_len(len as u32))
}

/// Closing the innermost open group as `lemma_close` says, with the group's
/// dirty flag cleared.
pub proof fn lemma_close_clean<V>(
    t: Seq<Slot<V>>,
    groups: Map<u64, Group>,
    pos: int,
    stack: Seq<usize>,
    ends: Seq<int>,
)
    requires
        writer_wf(t, groups, pos, stack, ends),
        stack.len() >= 2,
        pos == ends[stack.len() - 1],
    ensures
        writer_wf(
            with_group_len(t, stack[stack.len() - 1] as int, pos + 1 - stack[stack.len() - 1]),
            groups.insert(
                open_id(t, stack, stack.len() - 1),
                groups[open_id(t, stack, stack.len() - 1)].with_dirty(false),
            ),
            pos + 1,
            stack.drop_last(),
            ends.drop_last(),
        ),
{
    let k = stack.len();
    let g = stack[k - 1] as int;
    let id = open_id(t, stack, k - 1);
    let t2 = with_group_len(t, g, pos + 1 - g);
    let groups2 = groups.insert(id, groups[id].with_dirty(false));
    assert(level_ok(t, groups, stack, ends, k - 1));
    assert(level_ok(t, groups, stack, ends, 0));
    assert(stack[0] < stack[k - 1]);
    assert(groups2.dom() =~= groups.dom());
    assert(ids_known(t2, groups2) && ids_unique(t2) && ids_cover(t2, groups2)) by {
        let from = |i: int| i;
        let to = |j: int| j;
        assert forall|i: int, x: u64| #[trigger] slot_opens(t2, i, x) implies slot_opens(
            t,
            from(i),
            x,
        ) && to(from(i)) == i && groups2.contains_key(x) by {
            assert(slot_opens(t, i, x));
        }
        assert forall|j: int, x: u64| #[trigger]
            slot_opens(t, j, x) && groups2.contains_key(x) implies slot_opens(t2, to(j), x) by {}
        lemma_ids_moved(t, groups, t2, groups2, from, to);
    }
    lemma_close(t, groups, pos, stack, ends, t2, groups2);
}

/// Closing the root group as `lemma_finish` says, with the group's dirty flag
/// cleared.
pub proof fn lemma_finish_clean<V>(
    t: Seq<Slot<V>>,
    groups: Map<u64, Group>,
    pos: int,
    stack: Seq<usize>,
    ends: Seq<int>,
)
    requires
        writer_wf(t, groups, pos, stack, ends),
        stack.len() == 1,
        pos == ends[0],
    ensures
        table_wf(
            with_group_len(t, 0, pos + 1),
            groups.insert(open_id(t, stack, 0), groups[open_id(t, stack, 0)].with_dirty(false)),
        ),
        pos + 1 == t.len(),
{
    let id = open_id(t, stack, 0);
    let t2 = with_group_len(t, 0, pos + 1);
    let groups2 = groups.insert(id, groups[id].with_dirty(false));
    assert(level_ok(t, groups, stack, ends, 0));
    assert(t[0] is StartGroup);
    assert(t2[0] is StartGroup && t2[0].id() == t[0].id());
    assert(groups2.dom() =~= groups.dom());
    assert(ids_known(t2, groups2) && ids_unique(t2) && ids_cover(t2, groups2)) by {
        let from = |i: int| i;
        let to = |j: int| j;
        assert forall|i: int, x: u64| #[trigger] slot_opens(t2, i, x) implies slot_opens(
            t,
            from(i),
            x,
        ) && to(from(i)) == i && groups2.contains_key(x) by {
            assert(slot_opens(t, i, x));
        }
        assert forall|j: int, x: u64| #[trigger]
            slot_opens(t, j, x) && groups2.contains_key(x) implies slot_opens(t2, to(j), x) by {}
        lemma_ids_moved(t, groups, t2, groups2, from, to);
    }
    lemma_finish(t, groups, pos, stack, ends, t2, groups2);
}

} // verus!
