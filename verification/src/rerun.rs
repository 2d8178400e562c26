//! Runs as sequences of steps, and what a second run of the same steps does.
use crate::call_key::CallKey;
use crate::data::Data;
use crate::group_table::Group;
use crate::slot::{
    find_tag, group_end, ids_in, ids_known, ids_unique, items_wf, lemma_scan_end, slot_opens,
    Shape, Slot,
};
use crate::table::table_wf;
use crate::vec_ops::{lemma_rotated_index, rotated, rotated_from, without_range};
use crate::writer::{
    closed_groups, closed_slots, differs, expected, group_opened, stored, CacheWriter,
};
use crate::writer_model::{
    lemma_drop_rest, lemma_finish_clean, lemma_start, level_ok, open_id, shifted, with_group_len,
    writer_wf,
};
use vstd::prelude::*;

verus! {

/// The state of a run between two steps.
pub ghost struct Pass<V> {
    /// The slots of the table.
    pub slots: Seq<Slot<V>>,
    /// The groups of the table, by their ids.
    pub groups: Map<u64, Group>,
    /// The cursor.
    pub pos: int,
    /// Where the open groups start, the root group first.
    pub stack: Seq<usize>,
}

/// One step of a run.
pub enum Step<V> {
    /// `start_group` with this key.
    Open(CallKey),
    /// `end_group`.
    Close,
    /// `compare_and_update_value` with this key and value.
    Store(CallKey, V),
    /// `expect_value` with this key.
    Expect(CallKey),
    /// `skip_until_end_of_group`, then `end_group`.
    SkipClose,
}

/// Whether one of the steps skips the rest of a group.
pub open spec fn skips<V>(ops: Seq<Step<V>>) -> bool {
    exists|i: int| 0 <= i < ops.len() && (#[trigger] ops[i]) is SkipClose
}

impl<V> Pass<V> {
    /// The state is one that the steps of a run can go on from.
    #[verifier::opaque]
    pub open spec fn wf(self) -> bool {
        exists|ends: Seq<int>| writer_wf(self.slots, self.groups, self.pos, self.stack, ends)
    }

    /// Where the innermost open group starts.
    pub open spec fn top(self) -> int {
        self.stack[self.stack.len() - 1] as int
    }

    /// The id of the innermost open group.
    pub open spec fn group(self) -> u64 {
        self.slots[self.top()].id()
    }

    /// Every group that the run has visited and closed is clean.
    pub open spec fn visited_clean(self) -> bool {
        forall|j: int, g: u64|
            0 <= j < self.pos && #[trigger] slot_opens(self.slots, j, g) && !self.stack.contains(
                j as usize,
            ) ==> self.groups.contains_key(g) && !self.groups[g].dirty
    }

    /// The first state of a run on a table.
    pub open spec fn started(slots: Seq<Slot<V>>, groups: Map<u64, Group>) -> Pass<V> {
        Pass { slots, groups, pos: 1, stack: seq![0usize] }
    }

    /// The slots of the table that finishing the run in this state gives.
    pub open spec fn finished_slots(self) -> Seq<Slot<V>> {
        closed_slots(self.slots, self.pos, 0)
    }

    /// The groups of the table that finishing the run in this state gives.
    pub open spec fn finished_groups(self) -> Map<u64, Group> {
        closed_groups(self.slots, self.groups, self.pos, self.group())
    }

    /// What a well-formed state says of the cursor and the open groups.
    pub proof fn lemma_rest(self)
        requires
            self.wf(),
        ensures
            self.stack.len() >= 1,
            self.stack[0] == 0,
            0 <= self.top() < self.pos <= group_end(self.slots, self.pos) < self.slots.len(),
            self.slots.len() <= u32::MAX,
            self.slots[group_end(self.slots, self.pos)] is EndGroup,
            self.stack.len() == 1 ==> group_end(self.slots, self.pos) == self.slots.len() - 1,
            self.slots[0].opens(CallKey(0)),
            ids_unique(self.slots),
            ids_known(self.slots, self.groups),
            forall|i: int|
                0 <= i < self.stack.len() ==> (#[trigger] self.stack[i]) < self.pos
                    && self.slots[self.stack[i] as int] is StartGroup,
            forall|i: int, j: int|
                0 <= i < j < self.stack.len() ==> (#[trigger] self.stack[i]) < (
                #[trigger] self.stack[j]),
            items_wf(
                self.slots,
                self.pos,
                group_end(self.slots, self.pos),
                self.groups,
                Some(self.group()),
                self.stack.len(),
            ),
    {
        reveal(Pass::wf);
        let ends = choose|ends: Seq<int>|
            writer_wf(self.slots, self.groups, self.pos, self.stack, ends);
        let k = self.stack.len() as int;
        assert(level_ok(self.slots, self.groups, self.stack, ends, k - 1));
        lemma_scan_end(
            self.slots,
            self.pos,
            ends[k - 1],
            self.groups,
            Some(self.group()),
            k as nat,
        );
        assert forall|i: int| 0 <= i < k implies (#[trigger] self.stack[i]) < self.pos
            && self.slots[self.stack[i] as int] is StartGroup by {
            assert(level_ok(self.slots, self.groups, self.stack, ends, i));
            if i < k - 1 {
                assert(self.stack[i] < self.stack[k - 1]);
            }
        }
    }
}

/// A search over a list of items that ends at an `EndGroup` finds what it
/// finds inside the list.
pub proof fn lemma_find_in_rest<V>(
    t: Seq<Slot<V>>,
    lo: int,
    hi: int,
    groups: Map<u64, Group>,
    parent: Option<u64>,
    depth: nat,
    key: CallKey,
    group: bool,
)
    requires
        items_wf(t, lo, hi, groups, parent, depth),
        0 <= lo,
        0 <= hi < t.len(),
        t[hi] is EndGroup,
    ensures
        find_tag(t, lo, key, group) matches Some(i) ==> lo <= i < hi && t[i].tagged(key, group),
    decreases hi - lo,
{
    if lo < hi && !t[lo].tagged(key, group) {
        match t[lo].shape() {
            Shape::Start { id, len } => {
                lemma_find_in_rest(t, lo + len, hi, groups, parent, depth, key, group);
            },
            Shape::End => {},
            Shape::Item => {
                lemma_find_in_rest(t, lo + 1, hi, groups, parent, depth, key, group);
            },
        }
    }
}

/// `b` is what the step `op`, which is not `Store`, makes of the state `a`,
/// and `out` is what the step returns: for `Open` whether the group was
/// dirty, for `Expect` whether there was no value, so that a place was
/// reserved; `Close` and `SkipClose` return nothing, which counts as `false`.
pub open spec fn moves<V>(a: Pass<V>, op: Step<V>, b: Pass<V>, out: bool) -> bool {
    &&& a.wf()
    &&& b.wf()
    &&& match op {
        Step::Open(key) => {
            &&& b.pos == a.pos + 1
            &&& b.stack == a.stack.push(a.pos as usize)
            &&& group_opened(a.slots, a.groups, a.pos, a.group(), key, b.slots, b.groups, out)
        },
        Step::Close => {
            &&& a.stack.len() >= 2
            &&& !out
            &&& b == (Pass {
                slots: closed_slots(a.slots, a.pos, a.top()),
                groups: closed_groups(a.slots, a.groups, a.pos, a.group()),
                pos: a.pos + 1,
                stack: a.stack.drop_last(),
            })
        },
        Step::Store(_, _) => false,
        Step::Expect(key) => {
            &&& out == !a.slots[a.pos].holds(key)
            &&& b == (Pass { slots: expected(a.slots, a.pos, key), pos: a.pos + 1, ..a })
        },
        Step::SkipClose => {
            &&& a.stack.len() >= 2
            &&& !out
            &&& b == (Pass {
                slots: closed_slots(a.slots, group_end(a.slots, a.pos), a.top()),
                groups: closed_groups(
                    a.slots,
                    a.groups,
                    group_end(a.slots, a.pos),
                    a.group(),
                ),
                pos: group_end(a.slots, a.pos) + 1,
                stack: a.stack.drop_last(),
            })
        },
    }
}

/// `b` is what the step `op` makes of the state `a`, and `out` is what the
/// step returns: for `Store` whether the value changed, for the other steps
/// what `moves` says.
pub open spec fn step<V: Data>(a: Pass<V>, op: Step<V>, b: Pass<V>, out: bool) -> bool {
    match op {
        Step::Store(key, value) => {
            &&& a.wf()
            &&& b.wf()
            &&& out == differs(a.slots, a.pos, key, value)
            &&& b == (Pass { slots: stored(a.slots, a.pos, key, value), pos: a.pos + 1, ..a })
        },
        _ => moves(a, op, b, out),
    }
}

/// `b` is what the steps `ops`, taken in order, make of the state `a`, and
/// `outs` is what they return.
pub open spec fn runs<V: Data>(a: Pass<V>, ops: Seq<Step<V>>, b: Pass<V>, outs: Seq<bool>) -> bool
    decreases ops.len(),
{
    if ops.len() == 0 {
        a == b && outs.len() == 0
    } else {
        &&& outs.len() == ops.len()
        &&& exists|mid: Pass<V>| #[trigger]
            step(a, ops[0], mid, outs[0]) && runs(mid, ops.drop_first(), b, outs.drop_first())
    }
}

/// The slot at `j` is in `slots` what it is in `a`, or, if it is the start of
/// a group that `a` has open, a group start with the same key and group.
pub open spec fn kept_slot<V>(a: Pass<V>, slots: Seq<Slot<V>>, j: int) -> bool {
    if a.stack.contains(j as usize) {
        &&& slots[j] is StartGroup
        &&& slots[j].key() == a.slots[j].key()
        &&& slots[j].id() == a.slots[j].id()
    } else {
        slots[j] == a.slots[j]
    }
}

/// The slots before the cursor of `a` are in `slots` what they are in `a`,
/// but for the starts of the groups that `a` has open, which keep their key
/// and their group; and `stack` holds no group before that cursor that `a`
/// has not open.
pub open spec fn settled<V>(a: Pass<V>, slots: Seq<Slot<V>>, stack: Seq<usize>) -> bool {
    &&& a.pos <= slots.len()
    &&& forall|j: int| 0 <= j < a.pos ==> #[trigger] kept_slot(a, slots, j)
    &&& forall|i: int|
        0 <= i < stack.len() ==> a.stack.contains(#[trigger] stack[i]) || stack[i] >= a.pos
}

/// Opening a group settles what lies before the cursor and keeps the groups
/// that were visited and closed as they are.
pub proof fn lemma_open_settles<V: Data>(a: Pass<V>, key: CallKey, b: Pass<V>, out: bool)
    requires
        step(a, Step::Open(key), b, out),
    ensures
        settled(a, b.slots, b.stack),
        a.visited_clean() ==> b.visited_clean(),
        all_clean(a.groups) ==> all_clean(b.groups),
        b.slots[a.pos].opens(key),
{
    a.lemma_rest();
    b.lemma_rest();
    let t = a.slots;
    let pos = a.pos;
    let e = group_end(t, pos);
    let k = a.stack.len();
    lemma_find_in_rest(t, pos, e, a.groups, Some(a.group()), k, key, true);
    match find_tag(t, pos, key, true) {
        Some(i) => {
            lemma_rotated_index(t, pos, e, i - pos);
        },
        None => {},
    }
    assert forall|j: int| 0 <= j < pos implies b.slots[j] == t[j] by {}
    assert forall|j: int| 0 <= j < a.pos implies #[trigger] kept_slot(a, b.slots, j) by {
        assert(b.slots[j] == t[j]);
    }
    assert forall|i: int| 0 <= i < b.stack.len() implies a.stack.contains(#[trigger] b.stack[i])
        || b.stack[i] >= a.pos by {
        if i < k {
            assert(a.stack[i] == b.stack[i]);
        }
    }
    if a.visited_clean() {
        assert forall|j: int, g: u64|
            0 <= j < b.pos && #[trigger] slot_opens(b.slots, j, g) && !b.stack.contains(
                j as usize,
            ) implies b.groups.contains_key(g) && !b.groups[g].dirty by {
            if j == pos {
                assert(b.stack[k as int] == pos as usize);
            } else {
                assert(b.slots[j] == t[j]);
                assert(slot_opens(t, j, g));
                if a.stack.contains(j as usize) {
                    let i = choose|i: int| 0 <= i < k && a.stack[i] == j as usize;
                    assert(b.stack[i] == j as usize);
                }
            }
        }
    }
}

/// Closing a group settles what lies before the cursor, the start of the
/// group included, which has the group's length from then on; the group is
/// clean, and the groups that were visited and closed stay as they are.
pub proof fn lemma_close_settles<V: Data>(a: Pass<V>, b: Pass<V>, out: bool)
    requires
        step(a, Step::Close, b, out),
    ensures
        settled(a, b.slots, b.stack),
        a.visited_clean() ==> b.visited_clean(),
        all_clean(a.groups) ==> all_clean(b.groups),
        b.slots[a.pos] is EndGroup,
        b.slots[a.top()] is StartGroup,
        b.slots[a.top()]->len == a.pos + 1 - a.top(),
        b.slots[a.top()].id() == a.group(),
        b.groups.contains_key(a.group()),
        !b.groups[a.group()].dirty,
{
    a.lemma_rest();
    b.lemma_rest();
    let t = a.slots;
    let pos = a.pos;
    let e = group_end(t, pos);
    let k = a.stack.len();
    let g = a.top();
    let id = a.group();
    let cut = without_range(t, pos, e);
    assert(slot_opens(t, g, id));
    assert(a.stack[k - 1] == g as usize);
    assert(b.slots == with_group_len(cut, g, pos + 1 - g));
    assert(cut[pos] == t[e]);
    assert forall|j: int| 0 <= j < pos implies cut[j] == t[j] by {}
    assert forall|j: int| 0 <= j < a.pos implies #[trigger] kept_slot(a, b.slots, j) by {
        assert(cut[j] == t[j]);
        if j != g {
            assert(b.slots[j] == t[j]);
        }
    }
    assert forall|i: int| 0 <= i < b.stack.len() implies a.stack.contains(#[trigger] b.stack[i])
        || b.stack[i] >= a.pos by {
        assert(a.stack[i] == b.stack[i]);
    }
    assert(!ids_in(t, pos, e).contains(id)) by {
        if ids_in(t, pos, e).contains(id) {
            let i = choose|i: int| pos <= i < e && slot_opens(t, i, id);
            assert(slot_opens(t, i, id));
        }
    }
    if a.visited_clean() {
        assert forall|j: int, x: u64|
            0 <= j < b.pos && #[trigger] slot_opens(b.slots, j, x) && !b.stack.contains(
                j as usize,
            ) implies b.groups.contains_key(x) && !b.groups[x].dirty by {
            if j == g {
            } else {
                assert(j < pos);
                assert(b.slots[j] == t[j]);
                assert(slot_opens(t, j, x));
                if a.stack.contains(j as usize) {
                    let i = choose|i: int| 0 <= i < k && a.stack[i] == j as usize;
                    assert(i < k - 1);
                    assert(b.stack[i] == j as usize);
                }
                assert(!ids_in(t, pos, e).contains(x)) by {
                    if ids_in(t, pos, e).contains(x) {
                        let i = choose|i: int| pos <= i < e && slot_opens(t, i, x);
                        assert(slot_opens(t, i, x));
                    }
                }
            }
        }
    }
}

/// Storing a value settles what lies before the cursor and keeps the groups
/// as they are; the slot at the cursor then holds, under the key, the value
/// if it was reported as changed, and else a value that is the same.
pub proof fn lemma_store_settles<V: Data>(
    a: Pass<V>,
    key: CallKey,
    value: V,
    b: Pass<V>,
    out: bool,
)
    requires
        step(a, Step::Store(key, value), b, out),
    ensures
        settled(a, b.slots, b.stack),
        a.visited_clean() ==> b.visited_clean(),
        all_clean(a.groups) ==> all_clean(b.groups),
        b.slots[a.pos].holds(key),
        out ==> b.slots[a.pos]->value == value,
        !out ==> value.same_spec(&b.slots[a.pos]->value),
{
    a.lemma_rest();
    b.lemma_rest();
    let t = a.slots;
    let pos = a.pos;
    let e = group_end(t, pos);
    let k = a.stack.len();
    lemma_find_in_rest(t, pos, e, a.groups, Some(a.group()), k, key, false);
    match find_tag(t, pos, key, false) {
        Some(i) => {
            lemma_rotated_index(t, pos, e, i - pos);
            assert(rotated_from(pos, e, i - pos, pos) == i);
        },
        None => {},
    }
    assert forall|j: int| 0 <= j < pos implies b.slots[j] == t[j] by {}
    assert forall|j: int| 0 <= j < a.pos implies #[trigger] kept_slot(a, b.slots, j) by {
        assert(b.slots[j] == t[j]);
    }
    if a.visited_clean() {
        assert forall|j: int, g: u64|
            0 <= j < b.pos && #[trigger] slot_opens(b.slots, j, g) && !b.stack.contains(
                j as usize,
            ) implies b.groups.contains_key(g) && !b.groups[g].dirty by {
            if j < pos {
                assert(b.slots[j] == t[j]);
            }
            assert(slot_opens(t, j, g));
        }
    }
}

/// Expecting a value settles what lies before the cursor and keeps the
/// groups as they are; the slot at the cursor then holds a value under the
/// key, unless a place had to be reserved.
pub proof fn lemma_expect_settles<V: Data>(a: Pass<V>, key: CallKey, b: Pass<V>, out: bool)
    requires
        step(a, Step::Expect(key), b, out),
    ensures
        settled(a, b.slots, b.stack),
        a.visited_clean() ==> b.visited_clean(),
        all_clean(a.groups) ==> all_clean(b.groups),
        !out ==> b.slots[a.pos].holds(key),
        b.slots[a.pos].takes_value(),
        b.slots[a.pos].key() == Some(key),
        out <==> b.slots[a.pos] is Placeholder,
{
    a.lemma_rest();
    b.lemma_rest();
    let t = a.slots;
    let pos = a.pos;
    assert forall|j: int| 0 <= j < pos implies b.slots[j] == t[j] by {}
    assert forall|j: int| 0 <= j < a.pos implies #[trigger] kept_slot(a, b.slots, j) by {
        assert(b.slots[j] == t[j]);
    }
    if a.visited_clean() {
        assert forall|j: int, g: u64|
            0 <= j < b.pos && #[trigger] slot_opens(b.slots, j, g) && !b.stack.contains(
                j as usize,
            ) implies b.groups.contains_key(g) && !b.groups[g].dirty by {
            if j < pos {
                assert(b.slots[j] == t[j]);
            }
            assert(slot_opens(t, j, g));
        }
    }
}

/// Skipping the rest of a group and closing the group settles what lies
/// before the cursor and keeps the slots as they are, but for the start of
/// the group, which has the group's length from then on; the cursor stands
/// behind the group's end. If no group was dirty, none is.
pub proof fn lemma_skip_settles<V: Data>(a: Pass<V>, b: Pass<V>, out: bool)
    requires
        step(a, Step::SkipClose, b, out),
    ensures
        settled(a, b.slots, b.stack),
        a.pos < b.pos,
        b.pos == group_end(a.slots, a.pos) + 1,
        all_clean(a.groups) ==> all_clean(b.groups) && b.visited_clean(),
        b.slots.len() == a.slots.len(),
        forall|j: int|
            0 <= j < a.slots.len() && j != a.top() ==> #[trigger] b.slots[j] == a.slots[j],
        b.slots[a.top()] is StartGroup,
        b.slots[a.top()]->len == b.pos - a.top(),
        b.slots[a.top()].id() == a.group(),
        b.groups.contains_key(a.group()),
        !b.groups[a.group()].dirty,
{
    a.lemma_rest();
    b.lemma_rest();
    let t = a.slots;
    let e = group_end(t, a.pos);
    let k = a.stack.len();
    let g = a.top();
    let id = a.group();
    assert(group_end(t, e) == e);
    assert(without_range(t, e, e) =~= t);
    assert(ids_in(t, e, e) =~= Set::<u64>::empty());
    assert(a.groups.remove_keys(Set::<u64>::empty()) =~= a.groups);
    assert(slot_opens(t, g, id));
    assert(a.stack[k - 1] == g as usize);
    assert forall|j: int| 0 <= j < a.pos implies #[trigger] kept_slot(a, b.slots, j) by {
        if j != g {
            assert(b.slots[j] == t[j]);
        }
    }
    assert forall|i: int| 0 <= i < b.stack.len() implies a.stack.contains(#[trigger] b.stack[i])
        || b.stack[i] >= a.pos by {
        assert(a.stack[i] == b.stack[i]);
    }
    if all_clean(a.groups) {
        assert forall|j: int, x: u64|
            0 <= j < b.pos && #[trigger] slot_opens(b.slots, j, x) && !b.stack.contains(
                j as usize,
            ) implies b.groups.contains_key(x) && !b.groups[x].dirty by {
            if j != g {
                assert(b.slots[j] == t[j]);
                assert(slot_opens(t, j, x));
            }
        }
    }
}

/// What is settled stays settled: if the slots before the cursor of `a` are
/// settled in `m`, whose cursor is not before that of `a`, and those before
/// the cursor of `m` are settled in `slots`, then those before the cursor of
/// `a` are settled in `slots`.
pub proof fn lemma_settled_trans<V>(a: Pass<V>, m: Pass<V>, slots: Seq<Slot<V>>, stack: Seq<usize>)
    requires
        settled(a, m.slots, m.stack),
        settled(m, slots, stack),
        a.pos <= m.pos,
    ensures
        settled(a, slots, stack),
{
    assert forall|j: int| 0 <= j < a.pos implies #[trigger] kept_slot(a, slots, j) by {
        assert(kept_slot(a, m.slots, j));
        assert(kept_slot(m, slots, j));
        if !a.stack.contains(j as usize) {
            if m.stack.contains(j as usize) {
                let i = choose|i: int| 0 <= i < m.stack.len() && m.stack[i] == j as usize;
                assert(a.stack.contains(m.stack[i]) || m.stack[i] >= a.pos);
            }
        }
    }
    assert forall|i: int| 0 <= i < stack.len() implies a.stack.contains(#[trigger] stack[i])
        || stack[i] >= a.pos by {
        if m.stack.contains(stack[i]) {
            let n = choose|n: int| 0 <= n < m.stack.len() && m.stack[n] == stack[i];
            assert(a.stack.contains(m.stack[n]) || m.stack[n] >= a.pos);
        }
    }
}

/// A state settles itself.
pub proof fn lemma_settled_refl<V>(a: Pass<V>)
    requires
        a.wf(),
    ensures
        settled(a, a.slots, a.stack),
{
    a.lemma_rest();
    assert forall|j: int| 0 <= j < a.pos implies #[trigger] kept_slot(a, a.slots, j) by {}
    assert forall|i: int| 0 <= i < a.stack.len() implies a.stack.contains(#[trigger] a.stack[i])
        || a.stack[i] >= a.pos by {}
}

/// A run settles what lies before the cursor it starts from, does not move
/// the cursor back, ends in a well-formed state, and keeps the groups that
/// were visited and closed clean, provided that no group is dirty if it
/// skips any.
pub proof fn lemma_run_settles<V: Data>(
    a: Pass<V>,
    ops: Seq<Step<V>>,
    b: Pass<V>,
    outs: Seq<bool>,
)
    requires
        a.wf(),
        runs(a, ops, b, outs),
    ensures
        b.wf(),
        settled(a, b.slots, b.stack),
        a.pos <= b.pos,
        neat(a, ops) ==> b.visited_clean(),
        all_clean(a.groups) ==> all_clean(b.groups),
    decreases ops.len(),
{
    if ops.len() == 0 {
        lemma_settled_refl(a);
    } else {
        lemma_neat_rest(a, ops);
        let mid = choose|mid: Pass<V>| #[trigger]
            step(a, ops[0], mid, outs[0]) && runs(mid, ops.drop_first(), b, outs.drop_first());
        lemma_step_settles(a, ops[0], mid, outs[0]);
        lemma_run_settles(mid, ops.drop_first(), b, outs.drop_first());
        lemma_settled_trans(a, mid, b.slots, b.stack);
    }
}

/// The slot is what the step `op`, which returned `out`, leaves at the place
/// where the cursor was: an `Open` a start of the group under its key, a
/// `Close` a group end, a `Store` a value under its key, which is the value
/// stored if the step reported a change and else one that is the same, an
/// `Expect` a value or a placeholder under its key. Of `SkipClose`, which
/// moves the cursor to the group's end first, this says nothing.
pub open spec fn written<V: Data>(op: Step<V>, out: bool, slot: Slot<V>) -> bool {
    match op {
        Step::Open(key) => slot.opens(key),
        Step::Close => slot is EndGroup,
        Step::Store(key, value) => slot.holds(key) && (if out {
            slot->value == value
        } else {
            value.same_spec(&slot->value)
        }),
        Step::Expect(key) => slot.takes_value() && slot.key() == Some(key) && (out
            <==> slot is Placeholder),
        Step::SkipClose => true,
    }
}

/// The groups that the run has visited and closed are clean, and if one of
/// the steps to come skips the rest of a group, no group is dirty.
pub open spec fn neat<V>(a: Pass<V>, ops: Seq<Step<V>>) -> bool {
    &&& a.visited_clean()
    &&& skips(ops) ==> all_clean(a.groups)
}

/// Steps that do not skip leave none that skips when the first is taken.
pub proof fn lemma_neat_rest<V>(a: Pass<V>, ops: Seq<Step<V>>)
    requires
        ops.len() > 0,
    ensures
        skips(ops.drop_first()) ==> skips(ops),
        ops[0] is SkipClose ==> skips(ops),
{
    if skips(ops.drop_first()) {
        let i = choose|i: int|
            0 <= i < ops.drop_first().len() && (#[trigger] ops.drop_first()[i]) is SkipClose;
        assert(ops[i + 1] is SkipClose);
    }
}

/// A step settles what lies before the cursor, moves the cursor forward,
/// and keeps the groups that were visited and closed clean, provided that no
/// group is dirty if it skips.
pub proof fn lemma_step_settles<V: Data>(a: Pass<V>, op: Step<V>, b: Pass<V>, out: bool)
    requires
        step(a, op, b, out),
    ensures
        b.wf(),
        settled(a, b.slots, b.stack),
        a.pos < b.pos,
        !(op is SkipClose) ==> b.pos == a.pos + 1,
        a.visited_clean() && (op is SkipClose ==> all_clean(a.groups)) ==> b.visited_clean(),
        all_clean(a.groups) ==> all_clean(b.groups),
        written(op, out, b.slots[a.pos]),
{
    match op {
        Step::Expect(key) => {
            lemma_expect_settles(a, key, b, out);
        },
        Step::SkipClose => {
            lemma_skip_settles(a, b, out);
        },
        Step::Open(key) => {
            lemma_open_settles(a, key, b, out);
        },
        Step::Close => {
            lemma_close_settles(a, b, out);
        },
        Step::Store(key, value) => {
            lemma_store_settles(a, key, value, b, out);
        },
    }
}

/// No group of `groups` is dirty.
pub open spec fn all_clean(groups: Map<u64, Group>) -> bool {
    forall|g: u64| #[trigger] groups.contains_key(g) ==> !groups[g].dirty
}

/// Finishing a run in which only the root group is open gives a table as a
/// run leaves it. The table ends right behind the cursor, with the end of
/// the root group; what lies before the cursor is settled in it; and if the
/// groups that the run visited and closed are clean, so is every group of
/// the table.
pub proof fn lemma_finished<V>(b: Pass<V>)
    requires
        b.wf(),
        b.stack.len() == 1,
    ensures
        table_wf(b.finished_slots(), b.finished_groups()),
        b.finished_slots().len() == b.pos + 1,
        b.finished_slots()[b.pos] is EndGroup,
        b.finished_slots()[0]->len == b.pos + 1,
        settled(b, b.finished_slots(), Seq::<usize>::empty()),
        b.visited_clean() ==> all_clean(b.finished_groups()),
{
    reveal(Pass::wf);
    let ends = choose|ends: Seq<int>| writer_wf(b.slots, b.groups, b.pos, b.stack, ends);
    b.lemma_rest();
    let t = b.slots;
    let pos = b.pos;
    let e = group_end(t, pos);
    let cut = without_range(t, pos, e);
    let gone = b.groups.remove_keys(ids_in(t, pos, e));
    assert(level_ok(t, b.groups, b.stack, ends, 0));
    lemma_drop_rest(t, b.groups, pos, b.stack, ends);
    let ends2 = shifted(ends, pos - e);
    assert(ends2[0] == pos);
    assert(open_id(cut, b.stack, 0) == open_id(t, b.stack, 0));
    lemma_finish_clean(cut, gone, pos, b.stack, ends2);
    let t1 = b.finished_slots();
    let g1 = b.finished_groups();
    assert(t1 == with_group_len(cut, 0, pos + 1));
    assert(b.group() == open_id(t, b.stack, 0));
    assert(gone[b.group()] == b.groups[b.group()]);
    assert(g1 == gone.insert(b.group(), gone[b.group()].with_dirty(false)));
    assert(cut[pos] == t[e]);
    assert(b.stack.contains(0usize)) by {
        assert(b.stack[0] == 0usize);
    }
    assert forall|j: int| 0 <= j < pos implies #[trigger] kept_slot(b, t1, j) by {
        assert(cut[j] == t[j]);
        if j != 0 {
            assert(t1[j] == t[j]);
        }
    }
    if b.visited_clean() {
        assert forall|g: u64| #[trigger] g1.contains_key(g) implies !g1[g].dirty by {
            if g != b.group() {
                let j = choose|j: int| slot_opens(t1, j, g);
                assert(slot_opens(t1, j, g));
                assert(j != 0) by {
                    if j == 0 {
                        assert(t1[0].id() == b.group());
                    }
                }
                assert(j < pos);
                assert(t1[j] == t[j]);
                assert(slot_opens(t, j, g));
                assert(!b.stack.contains(j as usize)) by {
                    if b.stack.contains(j as usize) {
                        let i = choose|i: int| 0 <= i < b.stack.len() && b.stack[i] == j as usize;
                        assert(i == 0);
                    }
                }
            }
        }
    }
}

/// The step at `i` stores a value that is the same as itself, if it stores
/// one, and found the value that it expected, if it expected one.
pub open spec fn steady_at<V: Data>(ops: Seq<Step<V>>, outs: Seq<bool>, i: int) -> bool {
    match ops[i] {
        Step::Store(_, value) => value.same_spec(&value),
        Step::Expect(_) => !outs[i],
        _ => true,
    }
}

/// Every value that the steps store is the same as itself, and every value
/// that they expected was there.
pub open spec fn steady<V: Data>(ops: Seq<Step<V>>, outs: Seq<bool>) -> bool {
    forall|i: int| 0 <= i < ops.len() ==> #[trigger] steady_at(ops, outs, i)
}

/// A second run over the table that a first run left, with the same steps,
/// meets each slot where the first run left it: it changes nothing, and
/// every step reports that nothing changed and that no group was dirty.
///
/// Here `a` is a state of the first run, from which the steps `ops` lead to
/// the state `b` in which the run is finished; `r` is the state of the
/// second run at the same cursor with the same groups open, over the table
/// that the first run left.
pub proof fn lemma_replay<V: Data>(
    a: Pass<V>,
    ops: Seq<Step<V>>,
    b: Pass<V>,
    outs: Seq<bool>,
    r: Pass<V>,
    r2: Pass<V>,
    outs2: Seq<bool>,
)
    requires
        a.wf(),
        neat(a, ops),
        runs(a, ops, b, outs),
        b.stack.len() == 1,
        steady(ops, outs),
        r == (Pass {
            slots: b.finished_slots(),
            groups: b.finished_groups(),
            pos: a.pos,
            stack: a.stack,
        }),
        runs(r, ops, r2, outs2),
    ensures
        r2 == (Pass {
            slots: b.finished_slots(),
            groups: b.finished_groups(),
            pos: b.pos,
            stack: b.stack,
        }),
        forall|i: int| 0 <= i < ops.len() ==> !(#[trigger] outs2[i]),
    decreases ops.len(),
{
    if ops.len() == 0 {
    } else {
        let t1 = b.finished_slots();
        let g1 = b.finished_groups();
        let rest = ops.drop_first();
        let m = choose|m: Pass<V>| #[trigger]
            step(a, ops[0], m, outs[0]) && runs(m, rest, b, outs.drop_first());
        let m2 = choose|m2: Pass<V>| #[trigger]
            step(r, ops[0], m2, outs2[0]) && runs(m2, rest, r2, outs2.drop_first());
        lemma_neat_rest(a, ops);
        lemma_step_settles(a, ops[0], m, outs[0]);
        lemma_run_settles(m, rest, b, outs.drop_first());
        lemma_finished(b);
        lemma_settled_trans(m, b, t1, Seq::<usize>::empty());
        assert(steady_at(ops, outs, 0));
        lemma_replay_step(a, ops[0], m, outs[0], t1, g1, r, m2, outs2[0]);
        assert forall|i: int| 0 <= i < rest.len() implies #[trigger] steady_at(
            rest,
            outs.drop_first(),
            i,
        ) by {
            assert(steady_at(ops, outs, i + 1));
        }
        lemma_replay(m, rest, b, outs.drop_first(), m2, r2, outs2.drop_first());
        assert forall|i: int| 0 <= i < ops.len() implies !(#[trigger] outs2[i]) by {
            if i > 0 {
                assert(outs2.drop_first()[i - 1] == outs2[i]);
            }
        }
    }
}

/// One step of a second run: over the table `t1`, `g1` that the first run
/// left, in which what lies before the cursor of `m` is settled, the step
/// that led the first run from `a` to `m` leads the second run from the same
/// cursor to the cursor of `m`, changes nothing and reports nothing.
pub proof fn lemma_replay_step<V: Data>(
    a: Pass<V>,
    op: Step<V>,
    m: Pass<V>,
    out: bool,
    t1: Seq<Slot<V>>,
    g1: Map<u64, Group>,
    r: Pass<V>,
    m2: Pass<V>,
    out2: bool,
)
    requires
        step(a, op, m, out),
        settled(m, t1, Seq::<usize>::empty()),
        table_wf(t1, g1),
        all_clean(g1),
        op matches Step::Store(_, value) ==> value.same_spec(&value),
        op is Expect ==> !out,
        r == (Pass { slots: t1, groups: g1, pos: a.pos, stack: a.stack }),
        step(r, op, m2, out2),
    ensures
        m2 == (Pass { slots: t1, groups: g1, pos: m.pos, stack: m.stack }),
        !out2,
{
    a.lemma_rest();
    m.lemma_rest();
    r.lemma_rest();
    let pos = a.pos;
    let k = a.stack.len();
    assert(rotated(t1, pos, group_end(t1, pos), 0) =~= t1);
    match op {
        Step::Open(key) => {
            lemma_open_settles(a, key, m, out);
            assert(m.stack[k as int] == pos as usize);
            assert(kept_slot(m, t1, pos));
            assert(t1[pos].opens(key));
            assert(find_tag(t1, pos, key, true) == Some(pos));
            assert(slot_opens(t1, pos, t1[pos].id()));
        },
        Step::Close => {
            lemma_close_settles(a, m, out);
            let top = a.top();
            assert(a.stack[k - 1] == top as usize);
            assert(!m.stack.contains(top as usize)) by {
                if m.stack.contains(top as usize) {
                    let i = choose|i: int| 0 <= i < m.stack.len() && m.stack[i] == top as usize;
                    assert(a.stack[i] == m.stack[i]);
                    assert(a.stack[i] < a.stack[k - 1]);
                }
            }
            assert(!m.stack.contains(pos as usize)) by {
                if m.stack.contains(pos as usize) {
                    let i = choose|i: int| 0 <= i < m.stack.len() && m.stack[i] == pos as usize;
                    assert(a.stack[i] == m.stack[i]);
                }
            }
            assert(kept_slot(m, t1, top));
            assert(kept_slot(m, t1, pos));
            assert(t1[pos] is EndGroup);
            assert(group_end(t1, pos) == pos);
            assert(without_range(t1, pos, pos) =~= t1);
            assert(with_group_len(t1, top, pos + 1 - top) =~= t1);
            assert(ids_in(t1, pos, pos) =~= Set::<u64>::empty());
            assert(g1.remove_keys(Set::<u64>::empty()) =~= g1);
            assert(r.group() == a.group());
            assert(slot_opens(t1, top, r.group()));
            assert(g1.insert(r.group(), g1[r.group()].with_dirty(false)) =~= g1);
        },
        Step::Store(key, value) => {
            lemma_store_settles(a, key, value, m, out);
            assert(!m.stack.contains(pos as usize)) by {
                if m.stack.contains(pos as usize) {
                    let i = choose|i: int| 0 <= i < m.stack.len() && m.stack[i] == pos as usize;
                    assert(a.stack[i] == m.stack[i]);
                }
            }
            assert(kept_slot(m, t1, pos));
            assert(t1[pos].holds(key));
            assert(find_tag(t1, pos, key, false) == Some(pos));
        },
        Step::Expect(key) => {
            lemma_expect_settles(a, key, m, out);
            assert(!m.stack.contains(pos as usize)) by {
                if m.stack.contains(pos as usize) {
                    let i = choose|i: int| 0 <= i < m.stack.len() && m.stack[i] == pos as usize;
                    assert(a.stack[i] == m.stack[i]);
                }
            }
            assert(kept_slot(m, t1, pos));
        },
        Step::SkipClose => {
            lemma_skip_settles(a, m, out);
            let top = a.top();
            let e = group_end(a.slots, pos);
            assert(a.stack[k - 1] == top as usize);
            assert(!m.stack.contains(top as usize)) by {
                if m.stack.contains(top as usize) {
                    let i = choose|i: int| 0 <= i < m.stack.len() && m.stack[i] == top as usize;
                    assert(a.stack[i] == m.stack[i]);
                    assert(a.stack[i] < a.stack[k - 1]);
                }
            }
            assert forall|j: int| pos <= j <= e implies #[trigger] t1[j] == a.slots[j] by {
                assert(!m.stack.contains(j as usize)) by {
                    if m.stack.contains(j as usize) {
                        let i = choose|i: int| 0 <= i < m.stack.len() && m.stack[i] == j as usize;
                        assert(a.stack[i] == m.stack[i]);
                    }
                }
                assert(kept_slot(m, t1, j));
                assert(m.slots[j] == a.slots[j]);
            }
            lemma_scan_same(a.slots, t1, pos, e);
            assert(kept_slot(m, t1, top));
            assert(group_end(t1, e) == e);
            assert(without_range(t1, e, e) =~= t1);
            assert(with_group_len(t1, top, e + 1 - top) =~= t1);
            assert(ids_in(t1, e, e) =~= Set::<u64>::empty());
            assert(g1.remove_keys(Set::<u64>::empty()) =~= g1);
            assert(r.group() == a.group());
            assert(slot_opens(t1, top, r.group()));
            assert(g1.insert(r.group(), g1[r.group()].with_dirty(false)) =~= g1);
        },
    }
}

/// A scan that stops at `end` stops there in every table that has the same
/// slots from where the scan starts to `end`.
pub proof fn lemma_scan_same<V>(t: Seq<Slot<V>>, u: Seq<Slot<V>>, pos: int, end: int)
    requires
        0 <= pos <= end,
        group_end(t, pos) == end,
        end < t.len(),
        end < u.len(),
        forall|j: int| pos <= j <= end ==> #[trigger] u[j] == t[j],
    ensures
        group_end(u, pos) == end,
    decreases end - pos,
{
    assert(u[pos] == t[pos]);
    match t[pos] {
        Slot::EndGroup => {},
        Slot::StartGroup { len, .. } => {
            if len >= 1 && pos + len <= t.len() {
                lemma_scan_from(t, pos + len);
                if pos + len <= end {
                    lemma_scan_same(t, u, pos + len, end);
                }
            }
        },
        _ => {
            lemma_scan_from(t, pos + 1);
            if pos + 1 <= end {
                lemma_scan_same(t, u, pos + 1, end);
            }
        },
    }
}

/// A scan does not stop before the place it starts from.
pub proof fn lemma_scan_from<V>(t: Seq<Slot<V>>, pos: int)
    ensures
        group_end(t, pos) >= pos,
    decreases t.len() - pos,
{
    if 0 <= pos < t.len() {
        match t[pos] {
            Slot::EndGroup => {},
            Slot::StartGroup { len, .. } => {
                if len >= 1 && pos + len <= t.len() {
                    lemma_scan_from(t, pos + len);
                }
            },
            _ => {
                lemma_scan_from(t, pos + 1);
            },
        }
    }
}

/// Running the same steps twice in a row changes nothing the second time.
///
/// A first run on a table takes the steps `ops` and is finished; a second
/// run on the table that it left takes the same steps. If every value that
/// the steps store is the same as itself, every value that the first run
/// expected was there, and no group was dirty at the start in case a step
/// skips the rest of a group, then in the second run no step reports a
/// change, a dirty group or a missing value, the run can be finished, and
/// the table that it leaves is the one that the first run left, slot for
/// slot and group for group. No group of that table is dirty.
pub proof fn law_rerun_changes_nothing<V: Data>(
    slots: Seq<Slot<V>>,
    groups: Map<u64, Group>,
    ops: Seq<Step<V>>,
    first: Pass<V>,
    outs: Seq<bool>,
    second: Pass<V>,
    outs2: Seq<bool>,
)
    requires
        table_wf(slots, groups),
        runs(Pass::started(slots, groups), ops, first, outs),
        first.stack.len() == 1,
        steady(ops, outs),
        skips(ops) ==> all_clean(groups),
        runs(Pass::started(first.finished_slots(), first.finished_groups()), ops, second, outs2),
    ensures
        forall|i: int| 0 <= i < ops.len() ==> !(#[trigger] outs2[i]),
        second.stack.len() == 1,
        second.finished_slots() == first.finished_slots(),
        second.finished_groups() == first.finished_groups(),
        table_wf(first.finished_slots(), first.finished_groups()),
        all_clean(first.finished_groups()),
{
    let a = Pass::started(slots, groups);
    lemma_started(slots, groups);
    lemma_run_settles(a, ops, first, outs);
    lemma_finished(first);
    let t1 = first.finished_slots();
    let g1 = first.finished_groups();
    let r = Pass::started(t1, g1);
    lemma_replay(a, ops, first, outs, r, second, outs2);
    // finishing the second run closes the root group once more
    let pos = first.pos;
    assert(second.slots == t1 && second.pos == pos);
    assert(group_end(t1, pos) == pos);
    assert(without_range(t1, pos, pos) =~= t1);
    assert(with_group_len(t1, 0, pos + 1) =~= t1);
    assert(ids_in(t1, pos, pos) =~= Set::<u64>::empty());
    assert(g1.remove_keys(Set::<u64>::empty()) =~= g1);
    first.lemma_rest();
    assert(second.group() == t1[0].id());
    assert(slot_opens(t1, 0, t1[0].id()));
    assert(g1.insert(second.group(), g1[second.group()].with_dirty(false)) =~= g1);
}

/// The first state of a run on a table that a run left is well formed, and
/// no group is visited in it.
pub proof fn lemma_started<V>(slots: Seq<Slot<V>>, groups: Map<u64, Group>)
    requires
        table_wf(slots, groups),
    ensures
        Pass::started(slots, groups).wf(),
        Pass::started(slots, groups).visited_clean(),
{
    reveal(Pass::wf);
    lemma_start(slots, groups);
    let a = Pass::started(slots, groups);
    assert(writer_wf(a.slots, a.groups, a.pos, a.stack, seq![slots.len() - 1]));
    assert(a.stack[0] == 0usize);
    assert(a.stack.contains(0usize));
}

impl<V> CacheWriter<V> {
    /// The state of the run that this writer makes.
    pub open spec fn pass(&self) -> Pass<V> {
        Pass { slots: self.slots(), groups: self.groups(), pos: self.pos(), stack: self.stack() }
    }

    /// A writer in good order is in a well-formed state.
    pub proof fn lemma_pass_wf(&self)
        requires
            self.wf(),
        ensures
            self.pass().wf(),
    {
        reveal(Pass::wf);
        let pass = self.pass();
        assert(writer_wf(pass.slots, pass.groups, pass.pos, pass.stack, self.ends@));
    }
}

/// What settles keeps what was written: a slot that a step left at the
/// cursor of `a` is still what that step wrote in slots in which what lies
/// before the cursor of `m`, the state after the step, is settled.
pub proof fn lemma_written_stays<V: Data>(
    a: Pass<V>,
    op: Step<V>,
    m: Pass<V>,
    out: bool,
    slots: Seq<Slot<V>>,
    stack: Seq<usize>,
)
    requires
        step(a, op, m, out),
        !(op is SkipClose),
        settled(m, slots, stack),
    ensures
        written(op, out, slots[a.pos]),
{
    lemma_step_settles(a, op, m, out);
    a.lemma_rest();
    assert(kept_slot(m, slots, a.pos));
    if !(op is Open) {
        assert(!m.stack.contains(a.pos as usize)) by {
            if m.stack.contains(a.pos as usize) {
                let i = choose|i: int| 0 <= i < m.stack.len() && m.stack[i] == a.pos as usize;
                assert(a.stack[i] == m.stack[i]);
            }
        }
    }
}

/// The table holds what the run visited, in the order of the visit.
///
/// A run that starts in the state `a`, takes the steps `ops`, none of which
/// skips, and is finished leaves a table in which each step has its slot:
/// the slot of the first step stands where the cursor of `a` was, the slots
/// of the others follow, one place for each step, and behind the slot of
/// the last step stands the end of the root group, which ends the table.
pub proof fn lemma_table_is_the_visit<V: Data>(
    a: Pass<V>,
    ops: Seq<Step<V>>,
    b: Pass<V>,
    outs: Seq<bool>,
)
    requires
        a.wf(),
        runs(a, ops, b, outs),
        b.stack.len() == 1,
        !skips(ops),
    ensures
        b.pos == a.pos + ops.len(),
        b.finished_slots().len() == a.pos + ops.len() + 1,
        b.finished_slots()[a.pos + ops.len()] is EndGroup,
        forall|i: int|
            0 <= i < ops.len() ==> written(
                #[trigger] ops[i],
                outs[i],
                b.finished_slots()[a.pos + i],
            ),
    decreases ops.len(),
{
    lemma_run_settles(a, ops, b, outs);
    lemma_finished(b);
    if ops.len() > 0 {
        let rest = ops.drop_first();
        let m = choose|m: Pass<V>| #[trigger]
            step(a, ops[0], m, outs[0]) && runs(m, rest, b, outs.drop_first());
        lemma_neat_rest(a, ops);
        assert(!(ops[0] is SkipClose));
        lemma_step_settles(a, ops[0], m, outs[0]);
        lemma_run_settles(m, rest, b, outs.drop_first());
        lemma_settled_trans(m, b, b.finished_slots(), Seq::<usize>::empty());
        lemma_written_stays(a, ops[0], m, outs[0], b.finished_slots(), Seq::<usize>::empty());
        lemma_table_is_the_visit(m, rest, b, outs.drop_first());
        assert forall|i: int| 0 <= i < ops.len() implies written(
            #[trigger] ops[i],
            outs[i],
            b.finished_slots()[a.pos + i],
        ) by {
            if i > 0 {
                assert(rest[i - 1] == ops[i]);
                assert(outs.drop_first()[i - 1] == outs[i]);
            }
        }
    }
}

/// What a run does not visit is gone, and what it visits is kept in the
/// order of the visit: after a run on a table that takes the steps `ops`,
/// none of which skips, and is finished, the table holds the start of the
/// root group, then one slot for each step, in order, and then the end of
/// the root group, and nothing else. Every group of the table is clean.
pub proof fn law_table_is_the_visit<V: Data>(
    slots: Seq<Slot<V>>,
    groups: Map<u64, Group>,
    ops: Seq<Step<V>>,
    end: Pass<V>,
    outs: Seq<bool>,
)
    requires
        table_wf(slots, groups),
        runs(Pass::started(slots, groups), ops, end, outs),
        end.stack.len() == 1,
        !skips(ops),
    ensures
        table_wf(end.finished_slots(), end.finished_groups()),
        end.finished_slots().len() == ops.len() + 2,
        end.finished_slots()[0].opens(CallKey(0)),
        end.finished_slots()[ops.len() as int + 1] is EndGroup,
        forall|i: int|
            0 <= i < ops.len() ==> written(
                #[trigger] ops[i],
                outs[i],
                end.finished_slots()[i + 1],
            ),
        all_clean(end.finished_groups()),
{
    let a = Pass::started(slots, groups);
    lemma_started(slots, groups);
    lemma_run_settles(a, ops, end, outs);
    lemma_finished(end);
    lemma_table_is_the_visit(a, ops, end, outs);
    assert forall|i: int| 0 <= i < ops.len() implies written(
        #[trigger] ops[i],
        outs[i],
        end.finished_slots()[i + 1],
    ) by {
        assert(written(ops[i], outs[i], end.finished_slots()[a.pos + i]));
    }
}

/// A dirty flag stays until its group is closed: a step leaves a dirty group
/// dirty, unless it closes that group or removes it.
pub proof fn law_dirty_until_closed<V: Data>(
    a: Pass<V>,
    op: Step<V>,
    b: Pass<V>,
    out: bool,
    g: u64,
)
    requires
        step(a, op, b, out),
        a.groups.contains_key(g),
        a.groups[g].dirty,
        b.groups.contains_key(g),
        (op is Close || op is SkipClose) ==> g != a.group(),
    ensures
        b.groups[g].dirty,
{
    match op {
        Step::Open(key) => {
            if find_tag(a.slots, a.pos, key, true) is None {
                assert(b.groups[g] == a.groups[g]);
            }
        },
        _ => {},
    }
}

/// Opening a group tells the group's flag: when a group is found among the
/// items left and opened, the step reports `true` exactly if the group was
/// dirty. So a group that was invalidated, and has stayed in the table since,
/// is reported as dirty when the next run opens it.
pub proof fn law_open_tells_the_flag<V: Data>(
    a: Pass<V>,
    key: CallKey,
    b: Pass<V>,
    out: bool,
)
    requires
        step(a, Step::Open(key), b, out),
        find_tag(a.slots, a.pos, key, true) is Some,
    ensures
        b.slots[a.pos] == a.slots[find_tag(a.slots, a.pos, key, true).unwrap()],
        b.group() == a.slots[find_tag(a.slots, a.pos, key, true).unwrap()].id(),
        out == a.groups[b.group()].dirty,
        b.groups == a.groups,
{
    a.lemma_rest();
    assert(b.stack[b.stack.len() - 1] == a.pos as usize);
}

/// A group that a step opens anew is clean, is not one of the groups that
/// the table held, and has the innermost open group as its parent.
pub proof fn law_new_group_is_clean<V: Data>(a: Pass<V>, key: CallKey, b: Pass<V>, out: bool)
    requires
        step(a, Step::Open(key), b, out),
        find_tag(a.slots, a.pos, key, true) is None,
    ensures
        !out,
        !a.groups.contains_key(b.group()),
        b.groups.contains_key(b.group()),
        !b.groups[b.group()].dirty,
        b.groups[b.group()].parent_bits() == Some(a.group()),
        b.slots.len() == a.slots.len() + 2,
{
    assert(b.stack[b.stack.len() - 1] == a.pos as usize);
    a.lemma_rest();
}

/// Skipping the rest of the innermost open group and closing the group is
/// the step `SkipClose`: `mid` is the state after `skip_until_end_of_group`,
/// `b` the state after `end_group`.
pub proof fn law_skip_then_close<V>(a: Pass<V>, mid: Pass<V>, b: Pass<V>)
    requires
        a.wf(),
        mid == (Pass { pos: group_end(a.slots, a.pos), ..a }),
        moves(mid, Step::Close, b, false),
    ensures
        moves(a, Step::SkipClose, b, false),
{
}

} // verus!
