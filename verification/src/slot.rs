//! Slots, and what it means for a sequence of slots to be a well-nested list
//! of items.
use crate::call_key::CallKey;
use crate::group_table::{Group, GroupId};
use vstd::prelude::*;

verus! {

/// One entry of the slot table.
pub enum Slot<V> {
    /// Opens a group. `len` counts the slots of the group, this one and the
    /// `EndGroup` that closes it included.
    StartGroup { key: CallKey, group_id: GroupId, len: u32 },
    /// Closes the nearest open group.
    EndGroup,
    /// Holds a cached value.
    Value { key: CallKey, value: V },
    /// Reserves the place of a value that is not written yet.
    Placeholder { key: CallKey },
}

/// What of a slot decides the nesting: its kind and, for a group start, the
/// group and its length.
pub enum Shape {
    Start { id: u64, len: int },
    End,
    Item,
}

impl<V> Slot<V> {
    /// The shape of this slot.
    pub open spec fn shape(self) -> Shape {
        match self {
            Slot::StartGroup { group_id, len, .. } => Shape::Start {
                id: group_id@,
                len: len as int,
            },
            Slot::EndGroup => Shape::End,
            _ => Shape::Item,
        }
    }

    /// Whether this slot opens the group `key`.
    pub open spec fn opens(self, key: CallKey) -> bool {
        match self {
            Slot::StartGroup { key: k, .. } => k == key,
            _ => false,
        }
    }

    /// Whether this slot holds a value under `key`.
    pub open spec fn holds(self, key: CallKey) -> bool {
        match self {
            Slot::Value { key: k, .. } => k == key,
            _ => false,
        }
    }

    /// Whether this slot is the group start, or else the value, under `key`.
    pub open spec fn tagged(self, key: CallKey, group: bool) -> bool {
        if group {
            self.opens(key)
        } else {
            self.holds(key)
        }
    }

    /// Whether this slot can take a value: it holds one or reserves its place.
    pub open spec fn takes_value(self) -> bool {
        self is Value || self is Placeholder
    }

    /// The key of this slot; `EndGroup` has none.
    pub open spec fn key(self) -> Option<CallKey> {
        match self {
            Slot::StartGroup { key, .. } => Some(key),
            Slot::EndGroup => None,
            Slot::Value { key, .. } => Some(key),
            Slot::Placeholder { key } => Some(key),
        }
    }

    /// This group start with another length.
    pub open spec fn with_len(self, len: u32) -> Slot<V>
        recommends
            self is StartGroup,
    {
        Slot::StartGroup { key: self->StartGroup_key, group_id: self->group_id, len }
    }

    /// The id of the group that this slot opens.
    pub open spec fn id(self) -> u64
        recommends
            self is StartGroup,
    {
        self->group_id@
    }
}

/// The shape of the slot at `i`.
pub open spec fn shape_of<V>(t: Seq<Slot<V>>, i: int) -> Shape {
    t[i].shape()
}

/// Whether the slot at `i` can take a value, and its key.
pub open spec fn tag_of<V>(t: Seq<Slot<V>>, i: int) -> (bool, Option<CallKey>) {
    (t[i].takes_value(), t[i].key())
}

/// The slots before `pos` are still there, each with its key, and those that
/// could take a value still can.
pub open spec fn kept_before<V>(t: Seq<Slot<V>>, t2: Seq<Slot<V>>, pos: int) -> bool {
    &&& pos <= t2.len()
    &&& forall|j: int| 0 <= j < pos ==> #[trigger] tag_of(t2, j) == tag_of(t, j)
}

/// The slot at `i` opens the group `g`.
pub open spec fn slot_opens<V>(t: Seq<Slot<V>>, i: int, g: u64) -> bool {
    0 <= i < t.len() && t[i] is StartGroup && t[i].id() == g
}

/// `t[lo..hi]` is a list of complete items: values, placeholders and groups
/// that are closed within the range, each group recorded in `groups` with its
/// enclosing group and its depth.
pub open spec fn items_wf<V>(
    t: Seq<Slot<V>>,
    lo: int,
    hi: int,
    groups: Map<u64, Group>,
    parent: Option<u64>,
    depth: nat,
) -> bool
    decreases hi - lo,
{
    if lo >= hi {
        lo == hi
    } else {
        &&& 0 <= lo
        &&& hi <= t.len()
        &&& match t[lo].shape() {
            Shape::Start { id, len } => {
                &&& 2 <= len
                &&& lo + len <= hi
                &&& t[lo + len - 1] is EndGroup
                &&& groups.contains_key(id)
                &&& groups[id].parent_bits() == parent
                &&& groups[id].depth@ == depth
                &&& items_wf(t, lo + 1, lo + len - 1, groups, Some(id), depth + 1)
                &&& items_wf(t, lo + len, hi, groups, parent, depth)
            },
            Shape::End => false,
            Shape::Item => items_wf(t, lo + 1, hi, groups, parent, depth),
        }
    }
}

/// Where a scan from `i` that steps over whole items stops: at the first
/// `EndGroup`, or at the end of the table.
pub open spec fn group_end<V>(t: Seq<Slot<V>>, i: int) -> int
    decreases t.len() - i,
{
    if i < 0 || i >= t.len() {
        i
    } else {
        match t[i] {
            Slot::EndGroup => i,
            Slot::StartGroup { len, .. } => if len >= 1 && i + len <= t.len() {
                group_end(t, i + len)
            } else {
                i + len
            },
            _ => group_end(t, i + 1),
        }
    }
}

/// The first item from `i` on, in the group that `i` lies in, that carries
/// `key`: a group start if `group` is set, a value if not. Nested groups are
/// stepped over as a whole, and the search ends at the group's end.
pub open spec fn find_tag<V>(t: Seq<Slot<V>>, i: int, key: CallKey, group: bool) -> Option<int>
    decreases t.len() - i,
{
    if i < 0 || i >= t.len() {
        None
    } else if t[i].tagged(key, group) {
        Some(i)
    } else {
        match t[i] {
            Slot::EndGroup => None,
            Slot::StartGroup { len, .. } => if len >= 1 && i + len <= t.len() {
                find_tag(t, i + len, key, group)
            } else {
                None
            },
            _ => find_tag(t, i + 1, key, group),
        }
    }
}

/// Every group that a slot opens is in `groups`.
pub open spec fn ids_known<V>(t: Seq<Slot<V>>, groups: Map<u64, Group>) -> bool {
    forall|i: int, g: u64| #[trigger] slot_opens(t, i, g) ==> groups.contains_key(g)
}

/// No two slots open the same group.
pub open spec fn ids_unique<V>(t: Seq<Slot<V>>) -> bool {
    forall|i: int, j: int, g: u64| #[trigger]
        slot_opens(t, i, g) && #[trigger] slot_opens(t, j, g) ==> i == j
}

/// Every group in `groups` is opened by some slot.
pub open spec fn ids_cover<V>(t: Seq<Slot<V>>, groups: Map<u64, Group>) -> bool {
    forall|g: u64| #[trigger] groups.contains_key(g) ==> exists|i: int| slot_opens(t, i, g)
}

/// The groups opened by the slots of `t[lo..hi]`.
pub open spec fn ids_in<V>(t: Seq<Slot<V>>, lo: int, hi: int) -> Set<u64> {
    Set::new(|g: u64| exists|i: int| lo <= i < hi && slot_opens(t, i, g))
}

/// A list of items is well formed in another place, and under another group
/// table, when the slots there have the same shapes and the groups they open
/// have the same parents and depths.
pub proof fn lemma_items_frame<V>(
    t: Seq<Slot<V>>,
    lo: int,
    hi: int,
    groups: Map<u64, Group>,
    parent: Option<u64>,
    depth: nat,
    t2: Seq<Slot<V>>,
    lo2: int,
    groups2: Map<u64, Group>,
)
    requires
        items_wf(t, lo, hi, groups, parent, depth),
        0 <= lo2,
        lo2 + (hi - lo) <= t2.len(),
        forall|j: int| lo <= j < hi ==> #[trigger] shape_of(t, j) == shape_of(t2, j - lo + lo2),
        forall|j: int, g: u64|
            lo <= j < hi && #[trigger] slot_opens(t, j, g) && groups.contains_key(g) ==> {
                &&& groups2.contains_key(g)
                &&& groups2[g].parent_bits() == groups[g].parent_bits()
                &&& groups2[g].depth == groups[g].depth
            },
    ensures
        items_wf(t2, lo2, lo2 + (hi - lo), groups2, parent, depth),
    decreases hi - lo,
{
    if lo < hi {
        assert(shape_of(t, lo) == shape_of(t2, lo - lo + lo2));
        match t[lo].shape() {
            Shape::Start { id, len } => {
                assert(slot_opens(t, lo, id));
                assert(shape_of(t, lo + len - 1) == shape_of(t2, (lo + len - 1) - lo + lo2));
                lemma_items_frame(
                    t,
                    lo + 1,
                    lo + len - 1,
                    groups,
                    Some(id),
                    depth + 1,
                    t2,
                    lo2 + 1,
                    groups2,
                );
                lemma_items_frame(t, lo + len, hi, groups, parent, depth, t2, lo2 + len, groups2);
            },
            Shape::End => {},
            Shape::Item => {
                lemma_items_frame(t, lo + 1, hi, groups, parent, depth, t2, lo2 + 1, groups2);
            },
        }
    }
}

/// Two lists of items that follow each other make one list.
pub proof fn lemma_items_concat<V>(
    t: Seq<Slot<V>>,
    lo: int,
    mid: int,
    hi: int,
    groups: Map<u64, Group>,
    parent: Option<u64>,
    depth: nat,
)
    requires
        items_wf(t, lo, mid, groups, parent, depth),
        items_wf(t, mid, hi, groups, parent, depth),
    ensures
        items_wf(t, lo, hi, groups, parent, depth),
    decreases mid - lo,
{
    lemma_items_bounds(t, mid, hi, groups, parent, depth);
    if lo < mid {
        match t[lo].shape() {
            Shape::Start { id, len } => {
                lemma_items_concat(t, lo + len, mid, hi, groups, parent, depth);
            },
            Shape::End => {},
            Shape::Item => {
                lemma_items_concat(t, lo + 1, mid, hi, groups, parent, depth);
            },
        }
    }
}

/// A list of items lies inside the table.
pub proof fn lemma_items_bounds<V>(
    t: Seq<Slot<V>>,
    lo: int,
    hi: int,
    groups: Map<u64, Group>,
    parent: Option<u64>,
    depth: nat,
)
    requires
        items_wf(t, lo, hi, groups, parent, depth),
    ensures
        lo <= hi,
        lo < hi ==> 0 <= lo && hi <= t.len(),
{
}

/// A scan over a list of items that ends at an `EndGroup`, or at the end of
/// the table, stops exactly there.
pub proof fn lemma_scan_end<V>(
    t: Seq<Slot<V>>,
    lo: int,
    hi: int,
    groups: Map<u64, Group>,
    parent: Option<u64>,
    depth: nat,
)
    requires
        items_wf(t, lo, hi, groups, parent, depth),
        0 <= lo,
        hi == t.len() || (0 <= hi < t.len() && t[hi] is EndGroup),
    ensures
        group_end(t, lo) == hi,
    decreases hi - lo,
{
    if lo < hi {
        match t[lo].shape() {
            Shape::Start { id, len } => {
                lemma_scan_end(t, lo + len, hi, groups, parent, depth);
            },
            Shape::End => {},
            Shape::Item => {
                lemma_scan_end(t, lo + 1, hi, groups, parent, depth);
            },
        }
    }
}

/// The first item of a non-empty list of items is itself a list of items, and
/// so is what follows it.
pub proof fn lemma_items_first<V>(
    t: Seq<Slot<V>>,
    lo: int,
    hi: int,
    groups: Map<u64, Group>,
    parent: Option<u64>,
    depth: nat,
)
    requires
        items_wf(t, lo, hi, groups, parent, depth),
        lo < hi,
    ensures
        !(t[lo] is EndGroup),
        t[lo] is StartGroup ==> {
            &&& 2 <= t[lo]->len
            &&& lo + t[lo]->len <= hi
            &&& items_wf(t, lo, lo + t[lo]->len, groups, parent, depth)
            &&& items_wf(t, lo + t[lo]->len, hi, groups, parent, depth)
        },
        !(t[lo] is StartGroup) ==> {
            &&& items_wf(t, lo, lo + 1, groups, parent, depth)
            &&& items_wf(t, lo + 1, hi, groups, parent, depth)
        },
{
    match t[lo].shape() {
        Shape::Start { id, len } => {
            assert(items_wf(t, lo + len, lo + len, groups, parent, depth));
        },
        Shape::End => {},
        Shape::Item => {
            assert(items_wf(t, lo + 1, lo + 1, groups, parent, depth));
        },
    }
}

/// Every group opened inside a list of items is in the group table, at least
/// as deep as the list; its parent is the list's parent and it is as deep as
/// the list, or its parent is a group opened earlier in the list and it lies
/// one deeper than that one.
pub proof fn lemma_items_parent<V>(
    t: Seq<Slot<V>>,
    lo: int,
    hi: int,
    groups: Map<u64, Group>,
    parent: Option<u64>,
    depth: nat,
    i: int,
)
    requires
        items_wf(t, lo, hi, groups, parent, depth),
        lo <= i < hi,
        t[i] is StartGroup,
    ensures
        groups.contains_key(t[i].id()),
        groups[t[i].id()].depth@ >= depth,
        (groups[t[i].id()].parent_bits() == parent && groups[t[i].id()].depth@ == depth) || (
        exists|j: int|
            lo <= j < i && #[trigger] slot_opens(t, j, t[j].id()) && groups.contains_key(t[j].id())
                && groups[t[i].id()].parent_bits() == Some(t[j].id()) && groups[t[i].id()].depth@
                == groups[t[j].id()].depth@ + 1),
    decreases hi - lo,
{
    match t[lo].shape() {
        Shape::Start { id, len } => {
            if i == lo {
            } else if i < lo + len - 1 {
                lemma_items_parent(t, lo + 1, lo + len - 1, groups, Some(id), depth + 1, i);
                if groups[t[i].id()].parent_bits() == Some(id) && groups[t[i].id()].depth@ == depth
                    + 1 {
                    assert(slot_opens(t, lo, t[lo].id()));
                }
            } else {
                lemma_items_parent(t, lo + len, hi, groups, parent, depth, i);
            }
        },
        Shape::End => {},
        Shape::Item => {
            lemma_items_parent(t, lo + 1, hi, groups, parent, depth, i);
        },
    }
}

/// The groups opened by the first `n` slots are finitely many, at most `n`.
pub proof fn lemma_ids_in_bounded<V>(t: Seq<Slot<V>>, n: int)
    requires
        0 <= n <= t.len(),
    ensures
        ids_in(t, 0, n).finite(),
        ids_in(t, 0, n).len() <= n,
    decreases n,
{
    if n == 0 {
        assert(ids_in(t, 0, 0) =~= Set::<u64>::empty());
    } else {
        lemma_ids_in_bounded(t, n - 1);
        let prev = ids_in(t, 0, n - 1);
        if t[n - 1] is StartGroup {
            let g = t[n - 1].id();
            assert forall|x: u64| ids_in(t, 0, n).contains(x) implies prev.insert(g).contains(
                x,
            ) by {
                let i = choose|i: int| 0 <= i < n && slot_opens(t, i, x);
                if i < n - 1 {
                    assert(slot_opens(t, i, x));
                }
            }
            assert(slot_opens(t, n - 1, g));
            assert(ids_in(t, 0, n) =~= prev.insert(g));
        } else {
            assert forall|x: u64| ids_in(t, 0, n).contains(x) implies prev.contains(x) by {
                let i = choose|i: int| 0 <= i < n && slot_opens(t, i, x);
                assert(i < n - 1);
            }
            assert(ids_in(t, 0, n) =~= prev);
        }
    }
}

/// A group table all of whose groups are opened by slots has at most as many
/// groups as there are slots.
pub proof fn lemma_groups_bounded<V>(t: Seq<Slot<V>>, groups: Map<u64, Group>)
    requires
        ids_cover(t, groups),
    ensures
        groups.dom().finite(),
        groups.dom().len() <= t.len(),
{
    lemma_ids_in_bounded(t, t.len() as int);
    let all = ids_in(t, 0, t.len() as int);
    assert forall|g: u64| groups.dom().contains(g) implies all.contains(g) by {
        assert(groups.contains_key(g));
        let i = choose|i: int| slot_opens(t, i, g);
        assert(0 <= i < t.len() && slot_opens(t, i, g));
    }
    vstd::set_lib::lemma_len_subset(groups.dom(), all);
}

/// The openers of `t2` are those of `t` at other places: `from` leads from a
/// place in `t2` back to `t`, `to` from `t` to `t2`; `groups2` holds of the
/// groups of `groups` those that `t2` still opens. Then what holds of the ids
/// of `t` and `groups` holds of `t2` and `groups2`.
pub proof fn lemma_ids_moved<V>(
    t: Seq<Slot<V>>,
    groups: Map<u64, Group>,
    t2: Seq<Slot<V>>,
    groups2: Map<u64, Group>,
    from: spec_fn(int) -> int,
    to: spec_fn(int) -> int,
)
    requires
        ids_known(t, groups),
        ids_unique(t),
        ids_cover(t, groups),
        forall|i: int, g: u64| #[trigger]
            slot_opens(t2, i, g) ==> slot_opens(t, from(i), g) && to(from(i)) == i
                && groups2.contains_key(g),
        forall|j: int, g: u64| #[trigger]
            slot_opens(t, j, g) && groups2.contains_key(g) ==> slot_opens(t2, to(j), g),
        forall|g: u64| #[trigger] groups2.contains_key(g) ==> groups.contains_key(g),
    ensures
        ids_known(t2, groups2),
        ids_unique(t2),
        ids_cover(t2, groups2),
{
    assert forall|i: int, j: int, g: u64| #[trigger]
        slot_opens(t2, i, g) && #[trigger] slot_opens(t2, j, g) implies i == j by {
        assert(slot_opens(t, from(i), g));
        assert(slot_opens(t, from(j), g));
    }
    assert forall|g: u64| #[trigger] groups2.contains_key(g) implies exists|i: int|
        slot_opens(t2, i, g) by {
        assert(groups.contains_key(g));
        let j = choose|j: int| slot_opens(t, j, g);
        assert(slot_opens(t2, to(j), g));
    }
}

/// A new group, opened by a slot put in at `pos` and closed right behind it,
/// keeps what holds of the ids, once the group table has the group.
pub proof fn lemma_ids_new_group<V>(
    t: Seq<Slot<V>>,
    groups: Map<u64, Group>,
    pos: int,
    start: Slot<V>,
    group: Group,
)
    requires
        ids_known(t, groups),
        ids_unique(t),
        ids_cover(t, groups),
        0 <= pos <= t.len(),
        start is StartGroup,
        !groups.contains_key(start.id()),
    ensures
        ids_known(
            t.insert(pos, start).insert(pos + 1, Slot::EndGroup),
            groups.insert(start.id(), group),
        ),
        ids_unique(t.insert(pos, start).insert(pos + 1, Slot::EndGroup)),
        ids_cover(
            t.insert(pos, start).insert(pos + 1, Slot::EndGroup),
            groups.insert(start.id(), group),
        ),
{
    let t2 = t.insert(pos, start).insert(pos + 1, Slot::EndGroup);
    let groups2 = groups.insert(start.id(), group);
    let from = |i: int|
        if i < pos {
            i
        } else {
            i - 2
        };
    let to = |j: int|
        if j < pos {
            j
        } else {
            j + 2
        };
    assert forall|i: int, g: u64| #[trigger] slot_opens(t2, i, g) implies (i == pos && g
        == start.id()) || (i != pos && slot_opens(t, from(i), g)) by {
        if i != pos {
            assert(i != pos + 1);
            assert(t2[i] == t[from(i)]);
        }
    }
    assert forall|i: int, j: int, g: u64| #[trigger]
        slot_opens(t2, i, g) && #[trigger] slot_opens(t2, j, g) implies i == j by {
        if i != pos {
            assert(slot_opens(t, from(i), g));
        }
        if j != pos {
            assert(slot_opens(t, from(j), g));
        }
    }
    assert forall|g: u64| #[trigger] groups2.contains_key(g) implies exists|i: int|
        slot_opens(t2, i, g) by {
        if g == start.id() {
            assert(slot_opens(t2, pos, g));
        } else {
            assert(groups.contains_key(g));
            let j = choose|j: int| slot_opens(t, j, g);
            assert(t2[to(j)] == t[j]);
            assert(slot_opens(t2, to(j), g));
        }
    }
}

} // verus!
