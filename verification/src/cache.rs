//! The cache: owns the slot table between runs and offers, during a run, the
//! operations that cached functions are built from.
use crate::call_key::{key_under, top_key, CallKey, CallKeyStack, CallSite};
use crate::data::Data;
use crate::group_table::Group;
use crate::rerun::{law_skip_then_close, moves, runs, step, Pass, Step};
use crate::slot::{group_end, kept_before, tag_of, Slot};
use crate::table::{dump_line, mark_dirty, CacheInner, CacheInvalidationToken, DumpLine};
use crate::writer::{
    closed_groups, closed_slots, differs, expected, group_opened, stored, CacheWriter,
};
use vstd::prelude::*;

verus! {

/// What a run works on: the writer and the stack of call keys.
struct CacheContext<V> {
    key_stack: CallKeyStack,
    writer: CacheWriter<V>,
}

/// A cache of values and states of composable functions, kept from run to run.
pub struct Cache<V> {
    inner: Option<CacheInner<V>>,
    cx: Option<CacheContext<V>>,
}

/// The state of a cache, as its contracts speak of it.
pub ghost struct CacheState<V> {
    /// Whether a run is under way.
    pub running: bool,
    /// The slots of the table.
    pub slots: Seq<Slot<V>>,
    /// The groups of the table, by their ids.
    pub groups: Map<u64, Group>,
    /// The cursor of the run.
    pub pos: int,
    /// Where the groups that the run has open start, the root group first.
    pub stack: Seq<usize>,
    /// The keys of the calls that the run has entered, outermost first.
    pub keys: Seq<u64>,
}

impl<V> CacheState<V> {
    /// The state of the run, without the keys of the calls.
    pub open spec fn pass(self) -> Pass<V> {
        Pass { slots: self.slots, groups: self.groups, pos: self.pos, stack: self.stack }
    }

    /// The id of the innermost open group.
    pub open spec fn group(self) -> u64 {
        self.slots[self.stack[self.stack.len() - 1] as int].id()
    }

    /// The key that a call from `site` gets in this state.
    pub open spec fn key_at(self, site: CallSite) -> CallKey {
        CallKey(key_under(self.keys, site, 0))
    }

    /// This state with other slots and the cursor one further.
    pub open spec fn step(self, slots: Seq<Slot<V>>) -> CacheState<V> {
        CacheState { slots, pos: self.pos + 1, ..self }
    }

    /// The state after `expect_value` at `site`.
    pub open spec fn after_expect(self, site: CallSite) -> CacheState<V> {
        self.step(expected(self.slots, self.pos, self.key_at(site)))
    }

    /// The state after `set_value`.
    pub open spec fn after_set(self, slot: int, value: V) -> CacheState<V> {
        CacheState {
            slots: self.slots.update(
                slot,
                Slot::Value { key: self.slots[slot].key().unwrap(), value },
            ),
            ..self
        }
    }

    /// The state after `skip_to_end_of_group`.
    pub open spec fn after_skip(self) -> CacheState<V> {
        CacheState { pos: group_end(self.slots, self.pos), ..self }
    }

    /// The state `inner` is this state with the group at `site` opened, and
    /// `dirty` is what the group's flag was.
    pub open spec fn opens(self, site: CallSite, inner: CacheState<V>, dirty: bool) -> bool {
        &&& inner.running
        &&& inner.keys == self.keys.push(self.key_at(site)@)
        &&& inner.stack == self.stack.push(self.pos as usize)
        &&& inner.pos == self.pos + 1
        &&& inner.group() == inner.slots[self.pos].id()
        &&& group_opened(
            self.slots,
            self.groups,
            self.pos,
            self.group(),
            self.key_at(site),
            inner.slots,
            inner.groups,
            dirty,
        )
    }

    /// The state after the innermost open group is closed and the innermost
    /// call left.
    pub open spec fn closed(self) -> CacheState<V> {
        CacheState {
            running: true,
            slots: closed_slots(self.slots, self.pos, self.stack[self.stack.len() - 1] as int),
            groups: closed_groups(self.slots, self.groups, self.pos, self.group()),
            pos: self.pos + 1,
            stack: self.stack.drop_last(),
            keys: self.keys.drop_last(),
        }
    }

    /// The state after the run is finished.
    pub open spec fn finished(self) -> CacheState<V> {
        CacheState {
            running: false,
            slots: closed_slots(self.slots, self.pos, 0),
            groups: closed_groups(self.slots, self.groups, self.pos, self.group()),
            pos: 0,
            stack: Seq::empty(),
            keys: Seq::empty(),
        }
    }

    /// The first state of a run on the table of this state.
    pub open spec fn started(self) -> CacheState<V> {
        CacheState {
            running: true,
            slots: self.slots,
            groups: self.groups,
            pos: 1,
            stack: seq![0usize],
            keys: Seq::empty(),
        }
    }

    /// This state comes after `before` in the same run, with the same groups
    /// open and the same calls entered: the cursor has not gone back, and the
    /// slots before the place where it was are still there, each with its
    /// key, and can take a value if they could.
    pub open spec fn follows(self, before: CacheState<V>) -> bool {
        &&& self.running
        &&& before.running
        &&& self.keys == before.keys
        &&& self.stack == before.stack
        &&& before.pos <= self.pos
        &&& kept_before(before.slots, self.slots, before.pos)
    }

    /// This state is what a function gets that is called right after a group
    /// was opened in `before` and `steps` more slots were visited.
    pub open spec fn inside(self, before: CacheState<V>, steps: int) -> bool {
        &&& self.running
        &&& self.keys.len() == before.keys.len() + 1
        &&& self.keys.drop_last() == before.keys
        &&& self.stack == before.stack.push(before.pos as usize)
        &&& self.pos == before.pos + 1 + steps
        &&& self.slots.len() <= before.slots.len() + 2 + steps
        &&& kept_before(before.slots, self.slots, before.pos)
    }
}

impl<V: Data> CacheState<V> {
    /// The state after `changed` at `site` with `value`.
    pub open spec fn after_changed(self, site: CallSite, value: V) -> CacheState<V> {
        self.step(stored(self.slots, self.pos, self.key_at(site), value))
    }

    /// What `changed` at `site` with `value` returns.
    pub open spec fn changes(self, site: CallSite, value: V) -> bool {
        differs(self.slots, self.pos, self.key_at(site), value)
    }
}

/// The call site under which `memoized` stores the arguments.
pub open spec fn memo_args_site() -> CallSite<'static> {
    CallSite { file: "kyute::cache::memoized::args", line: 1, column: 1 }
}

/// The call site under which `memoized` stores the result.
pub open spec fn memo_result_site() -> CallSite<'static> {
    CallSite { file: "kyute::cache::memoized::result", line: 2, column: 1 }
}

impl<V: Data> CacheState<V> {
    /// The steps that a cached call from `site` with `args` takes in this
    /// state when it returns the stored result: it opens its group, stores
    /// the arguments, expects the result, skips the rest of the group and
    /// closes it.
    pub open spec fn reuse_steps(self, site: CallSite, args: V) -> Seq<Step<V>> {
        let inside = CacheState { keys: self.keys.push(self.key_at(site)@), ..self };
        seq![
            Step::Open(self.key_at(site)),
            Step::Store(inside.key_at(memo_args_site()), args),
            Step::Expect(inside.key_at(memo_result_site())),
            Step::SkipClose,
        ]
    }

    /// The state that `memoized` reaches with `args` from this one, in which
    /// the group is open: the arguments are stored and the result's slot is
    /// visited.
    pub open spec fn memo_ready(self, args: V) -> CacheState<V> {
        self.after_changed(memo_args_site(), args).after_expect(memo_result_site())
    }

    /// Whether `memoized` with `args` returns the stored result from this
    /// state, in which the group is open and `dirty` tells its flag: the
    /// group is clean, the arguments are the same, and a result is stored.
    pub open spec fn memo_kept(self, dirty: bool, args: V) -> bool {
        &&& !dirty
        &&& !self.changes(memo_args_site(), args)
        &&& self.after_changed(memo_args_site(), args).slots[self.pos + 1].holds(
            self.key_at(memo_result_site()),
        )
    }
}

/// A state that follows one that follows a third follows the third.
pub proof fn lemma_follows_trans<V>(a: CacheState<V>, b: CacheState<V>, c: CacheState<V>)
    requires
        a.follows(b),
        b.follows(c),
    ensures
        a.follows(c),
{
    assert forall|j: int| 0 <= j < c.pos implies #[trigger] tag_of(a.slots, j) == tag_of(
        c.slots,
        j,
    ) by {
        assert(tag_of(b.slots, j) == tag_of(c.slots, j));
        assert(tag_of(a.slots, j) == tag_of(b.slots, j));
    }
}

impl<V> View for Cache<V> {
    type V = CacheState<V>;

    closed spec fn view(&self) -> CacheState<V> {
        match self.cx {
            Some(cx) => CacheState {
                running: true,
                slots: cx.writer.slots(),
                groups: cx.writer.groups(),
                pos: cx.writer.pos(),
                stack: cx.writer.stack(),
                keys: cx.key_stack@,
            },
            None => CacheState {
                running: false,
                slots: self.inner.unwrap().slots(),
                groups: self.inner.unwrap().groups(),
                pos: 0,
                stack: Seq::empty(),
                keys: Seq::empty(),
            },
        }
    }
}

impl<V> Cache<V> {
    /// The cache is in a state that its operations can go on from: between
    /// runs it holds a table as a run leaves it, during a run a writer in
    /// good order.
    pub closed spec fn wf(&self) -> bool {
        match self.cx {
            Some(cx) => self.inner is None && cx.writer.wf(),
            None => self.inner is Some && self.inner.unwrap().wf(),
        }
    }

    /// During a run, the root group is open, and there is room for at least
    /// its two slots.
    pub proof fn lemma_running(&self)
        requires
            self.wf(),
            self@.running,
        ensures
            self@.stack.len() >= 1,
            0 < self@.pos < self@.slots.len() <= u32::MAX,
    {
        self.cx.unwrap().writer.lemma_rest();
    }

    /// Tells whether a run is under way.
    pub fn is_running(&self) -> (r: bool)
        ensures
            r == self@.running,
    {
        self.cx.is_some()
    }

    /// The number of calls that the run has entered and not left; 0 between
    /// runs.
    pub fn entered_calls(&self) -> (r: usize)
        ensures
            r == self@.keys.len(),
    {
        match &self.cx {
            Some(cx) => cx.key_stack.depth(),
            None => 0,
        }
    }

    /// The number of groups that the run has open, the root group included;
    /// 0 between runs.
    pub fn open_groups(&self) -> (r: usize)
        ensures
            r == self@.stack.len(),
    {
        match &self.cx {
            Some(cx) => cx.writer.open_groups(),
            None => 0,
        }
    }

    /// The number of slots in the table.
    pub fn slot_count(&self) -> (r: usize)
        requires
            self.wf(),
        ensures
            r == self@.slots.len(),
    {
        match &self.cx {
            Some(cx) => cx.writer.len(),
            None => match &self.inner {
                Some(inner) => inner.len(),
                None => unreached(),
            },
        }
    }

    /// Tells whether the slot at `slot` holds a value or reserves the place
    /// of one, that is, whether `set_value` can write there.
    pub fn takes_value(&self, slot: usize) -> (r: bool)
        requires
            self@.running,
        ensures
            r == (slot < self@.slots.len() && self@.slots[slot as int].takes_value()),
    {
        match &self.cx {
            Some(cx) => cx.writer.takes_value(slot),
            None => unreached(),
        }
    }

    /// Describes every slot of the table, as `CacheInner::dump` does, with
    /// the cursor marked during a run.
    pub fn dump(&self) -> (r: Vec<DumpLine>)
        requires
            self.wf(),
        ensures
            r@.len() == self@.slots.len(),
            forall|i: int|
                0 <= i < self@.slots.len() ==> #[trigger] r@[i] == dump_line(
                    self@.slots,
                    self@.groups,
                    i,
                    self@.pos,
                ),
    {
        match &self.cx {
            Some(cx) => cx.writer.dump().2,
            None => match &self.inner {
                Some(inner) => inner.dump(0),
                None => unreached(),
            },
        }
    }

    /// Tells whether the table still holds the group that `token` stands
    /// for.
    pub fn holds(&self, token: CacheInvalidationToken) -> (r: bool)
        requires
            self.wf(),
        ensures
            r == self@.groups.contains_key(token.group()),
    {
        match &self.cx {
            Some(cx) => cx.writer.holds(token),
            None => match &self.inner {
                Some(inner) => inner.holds(token),
                None => unreached(),
            },
        }
    }

    /// Creates a new cache.
    pub fn new() -> (r: Cache<V>)
        ensures
            r.wf(),
            !r@.running,
            r@.slots.len() == 2,
    {
        Cache { inner: Some(CacheInner::new()), cx: None }
    }

    /// Marks the token's group and every group that encloses it dirty, so
    /// that the next run recomputes them. A token whose group is gone changes
    /// nothing.
    pub fn invalidate(&mut self, token: CacheInvalidationToken)
        requires
            old(self).wf(),
            !old(self)@.running,
        ensures
            final(self).wf(),
            final(self)@ == (CacheState {
                groups: mark_dirty(old(self)@.groups, token.group()),
                ..old(self)@
            }),
    {
        match &mut self.inner {
            Some(inner) => inner.invalidate(token),
            None => unreached(),
        }
    }

    /// Starts a run: the root group of the table is opened, and no call is
    /// entered. `end` finishes the run.
    pub fn begin(&mut self)
        requires
            old(self).wf(),
            !old(self)@.running,
        ensures
            final(self).wf(),
            final(self)@ == old(self)@.started(),
            final(self)@.pass() == Pass::started(old(self)@.slots, old(self)@.groups),
    {
        let inner = match self.inner.take() {
            Some(inner) => inner,
            None => unreached(),
        };
        // start writing to the cache
        let writer = CacheWriter::new(inner);
        self.cx = Some(CacheContext { key_stack: CallKeyStack::new(), writer });
    }

    /// Finishes a run, in which every group but the root group is closed and
    /// every call left: the root group is closed, which removes what the run
    /// has not visited.
    pub fn end(&mut self)
        requires
            old(self).wf(),
            old(self)@.running,
            old(self)@.keys.len() == 0,
            old(self)@.stack.len() == 1,
        ensures
            final(self).wf(),
            final(self)@ == old(self)@.finished(),
            final(self)@.slots == old(self)@.pass().finished_slots(),
            final(self)@.groups == old(self)@.pass().finished_groups(),
    {
        let cx = match self.cx.take() {
            Some(cx) => cx,
            None => unreached(),
        };
        proof {
            cx.writer.lemma_rest();
        }
        self.inner = Some(cx.writer.finish());
    }

    /// Returns the key of the call that is being made.
    pub fn current_call_key(&self) -> (r: CallKey)
        requires
            self@.running,
        ensures
            r@ == top_key(self@.keys),
    {
        match &self.cx {
            Some(cx) => cx.key_stack.current(),
            None => unreached(),
        }
    }

    /// Enters the call made from `site` with `index`: its key, made of the
    /// keys of the two innermost calls, the site and the index, becomes the
    /// current call key. `exit` leaves the call.
    pub fn enter(&mut self, site: &CallSite, index: usize)
        requires
            old(self).wf(),
            old(self)@.running,
        ensures
            final(self).wf(),
            final(self)@ == (CacheState {
                keys: old(self)@.keys.push(key_under(old(self)@.keys, *site, index)),
                ..old(self)@
            }),
    {
        match &mut self.cx {
            Some(cx) => {
                cx.key_stack.enter(site, index);
            },
            None => unreached(),
        }
    }

    /// Leaves the innermost call.
    pub fn exit(&mut self)
        requires
            old(self).wf(),
            old(self)@.running,
            old(self)@.keys.len() > 0,
        ensures
            final(self).wf(),
            final(self)@ == (CacheState { keys: old(self)@.keys.drop_last(), ..old(self)@ }),
    {
        match &mut self.cx {
            Some(cx) => {
                cx.key_stack.exit();
            },
            None => unreached(),
        }
    }

    /// Returns a token for the group of the value being calculated.
    pub fn get_invalidation_token(&self) -> (token: CacheInvalidationToken)
        requires
            self.wf(),
            self@.running,
        ensures
            token.group() == self@.group(),
    {
        match &self.cx {
            Some(cx) => cx.writer.get_invalidation_token(),
            None => unreached(),
        }
    }

    /// Stores `value` at the cursor, under the key of the call from `site`,
    /// and tells whether it differs from what the cache held there.
    pub fn changed(&mut self, site: &CallSite, value: V) -> (r: bool) where V: Data
        requires
            old(self).wf(),
            old(self)@.running,
            old(self)@.slots.len() < u32::MAX,
        ensures
            final(self).wf(),
            r == old(self)@.changes(*site, value),
            final(self)@ == old(self)@.after_changed(*site, value),
            final(self)@.follows(old(self)@),
            final(self)@.slots.len() <= old(self)@.slots.len() + 1,
            step(
                old(self)@.pass(),
                Step::Store(old(self)@.key_at(*site), value),
                final(self)@.pass(),
                r,
            ),
    {
        self.enter(site, 0);
        let key = self.current_call_key();
        let changed = match &mut self.cx {
            Some(cx) => cx.writer.compare_and_update_value(key, value),
            None => unreached(),
        };
        self.exit();
        proof {
            assert(final(self)@.keys =~= old(self)@.keys);
        }
        changed
    }

    /// Reads the value that the slot at the cursor holds under the key of the
    /// call from `site`, or reserves a slot for it there. Returns a clone of
    /// the value, if there is one, and the place of the slot.
    pub fn expect_value(&mut self, site: &CallSite) -> (r: (Option<V>, usize)) where V: Clone
        requires
            old(self).wf(),
            old(self)@.running,
            old(self)@.slots.len() < u32::MAX,
        ensures
            final(self).wf(),
            final(self)@ == old(self)@.after_expect(*site),
            final(self)@.follows(old(self)@),
            final(self)@.slots.len() <= old(self)@.slots.len() + 1,
            r.1 == old(self)@.pos,
            r.0 is Some == old(self)@.slots[old(self)@.pos].holds(old(self)@.key_at(*site)),
            r.0 matches Some(v) ==> cloned(old(self)@.slots[old(self)@.pos]->value, v),
            final(self)@.slots[r.1 as int].takes_value(),
            moves(
                old(self)@.pass(),
                Step::Expect(old(self)@.key_at(*site)),
                final(self)@.pass(),
                r.0 is None,
            ),
    {
        self.enter(site, 0);
        let key = self.current_call_key();
        let r = match &mut self.cx {
            Some(cx) => cx.writer.expect_value(key),
            None => unreached(),
        };
        self.exit();
        proof {
            assert(final(self)@.keys =~= old(self)@.keys);
        }
        r
    }

    /// Writes `value` into the slot at `slot`, which holds a value or
    /// reserves the place of one.
    pub fn set_value(&mut self, slot: usize, value: V)
        requires
            old(self).wf(),
            old(self)@.running,
            slot < old(self)@.slots.len(),
            old(self)@.slots[slot as int].takes_value(),
        ensures
            final(self).wf(),
            final(self)@ == old(self)@.after_set(slot as int, value),
            final(self)@.follows(old(self)@),
            final(self)@.slots.len() == old(self)@.slots.len(),
    {
        proof {
            self.lemma_running();
        }
        match &mut self.cx {
            Some(cx) => cx.writer.set_value(slot, value),
            None => unreached(),
        }
        proof {
            assert forall|j: int| 0 <= j < old(self)@.pos implies #[trigger] tag_of(
                final(self)@.slots,
                j,
            ) == tag_of(old(self)@.slots, j) by {}
        }
    }

    /// Steps over every item left in the innermost open group.
    pub fn skip_to_end_of_group(&mut self)
        requires
            old(self).wf(),
            old(self)@.running,
        ensures
            final(self).wf(),
            final(self)@ == old(self)@.after_skip(),
            final(self)@.follows(old(self)@),
            old(self)@.pass().wf(),
            final(self)@.pass().wf(),
    {
        proof {
            self.lemma_running();
            self.cx.unwrap().writer.lemma_rest();
            self.cx.unwrap().writer.lemma_pass_wf();
        }
        match &mut self.cx {
            Some(cx) => cx.writer.skip_until_end_of_group(),
            None => unreached(),
        }
        proof {
            self.cx.unwrap().writer.lemma_pass_wf();
            assert forall|j: int| 0 <= j < old(self)@.pos implies #[trigger] tag_of(
                final(self)@.slots,
                j,
            ) == tag_of(old(self)@.slots, j) by {}
        }
    }

    /// Runs `function` with this cache: starts a run, calls `function`, and
    /// finishes the run, which removes what `function` has not visited.
    ///
    /// `function` must leave every group that it opens closed and every call
    /// that it enters left.
    pub fn run<T, F: FnOnce(&mut Cache<V>) -> T>(&mut self, function: F) -> (r: T)
        requires
            old(self).wf(),
            !old(self)@.running,
            forall|c: &mut Cache<V>|
                c.wf() && c@ == old(self)@.started() ==> #[trigger] call_requires(function, (c,)),
            forall|c: &mut Cache<V>, r: T|
                c.wf() && c@ == old(self)@.started() && #[trigger] call_ensures(function, (c,), r)
                    ==> final(c).wf() && final(c)@.follows(c@),
        ensures
            final(self).wf(),
            !final(self)@.running,
            exists|c: &mut Cache<V>|
                c@ == old(self)@.started() && #[trigger] call_ensures(function, (c,), r)
                    && final(self)@ == final(c)@.finished(),
    {
        self.begin();
        // run the function
        let result = function(self);
        // the calls entered and the groups opened were left and closed
        self.end();
        result
    }

    /// Calls `f` inside the call made from `site` with `index`: the call is
    /// entered before and left after.
    pub fn scoped<R, F: FnOnce(&mut Cache<V>) -> R>(
        &mut self,
        site: &CallSite,
        index: usize,
        f: F,
    ) -> (r: R)
        requires
            old(self).wf(),
            old(self)@.running,
            forall|c: &mut Cache<V>|
                c.wf() && c@.keys.drop_last() == old(self)@.keys && c@ == (CacheState {
                    keys: c@.keys,
                    ..old(self)@
                }) ==> #[trigger] call_requires(f, (c,)),
            forall|c: &mut Cache<V>, r: R|
                c.wf() && c@.running && #[trigger] call_ensures(f, (c,), r) ==> final(c).wf()
                    && final(c)@.follows(c@),
        ensures
            final(self).wf(),
            final(self)@.follows(old(self)@),
            exists|c: &mut Cache<V>|
                c@ == (CacheState {
                    keys: old(self)@.keys.push(key_under(old(self)@.keys, *site, index)),
                    ..old(self)@
                }) && #[trigger] call_ensures(f, (c,), r) && final(self)@ == (CacheState {
                    keys: old(self)@.keys,
                    ..final(c)@
                }),
    {
        self.enter(site, index);
        let ghost entered = self@;
        proof {
            assert(entered.keys.drop_last() =~= old(self)@.keys);
        }
        let r = f(self);
        let ghost left = self@;
        self.exit();
        proof {
            assert(self@.keys =~= old(self)@.keys);
            assert forall|j: int| 0 <= j < old(self)@.pos implies #[trigger] tag_of(
                self@.slots,
                j,
            ) == tag_of(old(self)@.slots, j) by {
                assert(tag_of(left.slots, j) == tag_of(entered.slots, j));
            }
        }
        r
    }

    /// Calls `f` inside the group of the call made from `site`: the group is
    /// opened before and closed after, and `f` is told whether the group was
    /// dirty.
    pub fn group<R, F: FnOnce(&mut Cache<V>, bool) -> R>(&mut self, site: &CallSite, f: F) -> (r:
        R)
        requires
            old(self).wf(),
            old(self)@.running,
            old(self)@.slots.len() + 2 <= u32::MAX,
            forall|c: &mut Cache<V>, dirty: bool|
                c.wf() && c@.inside(old(self)@, 0) ==> #[trigger] call_requires(f, (c, dirty)),
            forall|c: &mut Cache<V>, dirty: bool, r: R|
                c.wf() && c@.running && #[trigger] call_ensures(f, (c, dirty), r) ==> final(c).wf()
                    && final(c)@.follows(c@),
        ensures
            final(self).wf(),
            final(self)@.follows(old(self)@),
            exists|c: &mut Cache<V>, dirty: bool|
                old(self)@.opens(*site, c@, dirty) && #[trigger] call_ensures(f, (c, dirty), r)
                    && final(self)@ == final(c)@.closed(),
    {
        let dirty = self.open_group(site);
        let ghost opened = self@;
        let r = f(self, dirty);
        let ghost done = self@;
        self.close_group();
        proof {
            assert(done.follows(opened));
            assert(self@.keys =~= old(self)@.keys);
            assert(self@.stack =~= old(self)@.stack);
            self.lemma_running();
            assert forall|j: int| 0 <= j < old(self)@.pos implies #[trigger] tag_of(
                self@.slots,
                j,
            ) == tag_of(old(self)@.slots, j) by {
                assert(tag_of(opened.slots, j) == tag_of(old(self)@.slots, j));
                assert(tag_of(done.slots, j) == tag_of(opened.slots, j));
                assert(tag_of(self@.slots, j) == tag_of(done.slots, j));
            }
        }
        r
    }

    /// Enters the call made from `site` and opens its group; tells whether
    /// the group was dirty. `close_group` closes the group and leaves the
    /// call.
    pub fn open_group(&mut self, site: &CallSite) -> (dirty: bool)
        requires
            old(self).wf(),
            old(self)@.running,
            old(self)@.slots.len() + 2 <= u32::MAX,
        ensures
            final(self).wf(),
            old(self)@.opens(*site, final(self)@, dirty),
            final(self)@.inside(old(self)@, 0),
            moves(
                old(self)@.pass(),
                Step::Open(old(self)@.key_at(*site)),
                final(self)@.pass(),
                dirty,
            ),
    {
        self.enter(site, 0);
        let key = self.current_call_key();
        let dirty = match &mut self.cx {
            Some(cx) => cx.writer.start_group(key),
            None => unreached(),
        };
        proof {
            assert(self@.keys.drop_last() =~= old(self)@.keys);
        }
        dirty
    }

    /// Closes the innermost open group, which removes what the run has not
    /// visited in it, and leaves the innermost call.
    pub fn close_group(&mut self)
        requires
            old(self).wf(),
            old(self)@.running,
            old(self)@.stack.len() >= 2,
            old(self)@.keys.len() >= 1,
        ensures
            final(self).wf(),
            final(self)@ == old(self)@.closed(),
            kept_before(old(self)@.slots, final(self)@.slots, old(self)@.pos),
            final(self)@.slots.len() <= old(self)@.slots.len(),
            moves(old(self)@.pass(), Step::Close, final(self)@.pass(), false),
    {
        match &mut self.cx {
            Some(cx) => cx.writer.end_group(),
            None => unreached(),
        }
        self.exit();
    }

    /// The call site under which `memoized` stores the arguments.
    fn args_site() -> (r: CallSite<'static>)
        ensures
            r == memo_args_site(),
    {
        CallSite { file: "kyute::cache::memoized::args", line: 1, column: 1 }
    }

    /// The call site under which `memoized` stores the result.
    fn result_site() -> (r: CallSite<'static>)
        ensures
            r == memo_result_site(),
    {
        CallSite { file: "kyute::cache::memoized::result", line: 2, column: 1 }
    }

    /// Begins a cached call from `site` with `args`, and tells whether its
    /// result has to be computed.
    ///
    /// The call has a group, which holds the arguments of the last call and
    /// its result. The group is opened, `args` are stored, and the result's
    /// slot is visited. If the group was not dirty, `args` are the same as the
    /// stored arguments, and a result is stored, a clone of that result is
    /// returned, the rest of the group is kept as it is, and the group is
    /// closed. Otherwise `None` is returned with the place of the result's
    /// slot, and the group stays open for the computation; `finish_call` then
    /// stores the result and closes the group.
    pub fn begin_call(&mut self, site: &CallSite, args: V) -> (r: (Option<V>, usize)) where V: Data
        requires
            old(self).wf(),
            old(self)@.running,
            old(self)@.slots.len() + 4 <= u32::MAX,
        ensures
            final(self).wf(),
            r.0 is Some ==> final(self)@.follows(old(self)@),
            r.0 is None ==> final(self)@.inside(old(self)@, 2) && r.1 < final(self)@.pos
                && final(self)@.slots[r.1 as int].takes_value(),
            r.0 is Some ==> runs(
                old(self)@.pass(),
                old(self)@.reuse_steps(*site, args),
                final(self)@.pass(),
                seq![false, false, false, false],
            ),
            exists|opened: CacheState<V>, dirty: bool|
                {
                    &&& #[trigger] old(self)@.opens(*site, opened, dirty)
                    &&& r.1 == opened.pos + 1
                    &&& r.0 is Some == opened.memo_kept(dirty, args)
                    &&& r.0 matches Some(v) ==> {
                        &&& cloned(opened.memo_ready(args).slots[opened.pos + 1]->value, v)
                        &&& final(self)@ == opened.memo_ready(args).after_skip().closed()
                    }
                    &&& r.0 is None ==> final(self)@ == opened.memo_ready(args)
                },
    {
        let dirty = self.open_group(site);
        let ghost opened = self@;
        let args_changed = self.changed(&Self::args_site(), args);
        let changed = dirty || args_changed;
        let ghost compared = self@;
        let (value, slot) = self.expect_value(&Self::result_site());
        let ghost ready = self@;
        proof {
            assert(ready == opened.memo_ready(args));
            assert(ready.inside(old(self)@, 2)) by {
                assert forall|j: int| 0 <= j < old(self)@.pos implies #[trigger] tag_of(
                    ready.slots,
                    j,
                ) == tag_of(old(self)@.slots, j) by {
                    assert(tag_of(opened.slots, j) == tag_of(old(self)@.slots, j));
                    assert(tag_of(compared.slots, j) == tag_of(opened.slots, j));
                    assert(tag_of(ready.slots, j) == tag_of(compared.slots, j));
                }
            }
            assert(old(self)@.opens(*site, opened, dirty));
        }
        let reused: Option<V> = if changed {
            None
        } else {
            value
        };
        match reused {
            Some(stored) => {
                proof {
                    assert(opened.memo_kept(dirty, args));
                }
                self.skip_to_end_of_group();
                let ghost done = self@;
                self.close_group();
                proof {
                    let ops = old(self)@.reuse_steps(*site, args);
                    let outs = seq![false, false, false, false];
                    let s0 = old(self)@.pass();
                    let s1 = opened.pass();
                    let s2 = compared.pass();
                    let s3 = ready.pass();
                    let s4 = self@.pass();
                    law_skip_then_close(s3, done.pass(), s4);
                    assert(opened.keys == old(self)@.keys.push(old(self)@.key_at(*site)@));
                    assert(step(s0, ops[0], s1, outs[0]));
                    assert(step(s1, ops[1], s2, outs[1]));
                    assert(step(s2, ops[2], s3, outs[2]));
                    assert(step(s3, ops[3], s4, outs[3]));
                    reveal_with_fuel(runs, 5);
                    let ops1 = ops.drop_first();
                    let outs1 = outs.drop_first();
                    let ops2 = ops1.drop_first();
                    let outs2 = outs1.drop_first();
                    let ops3 = ops2.drop_first();
                    let outs3 = outs2.drop_first();
                    let ops4 = ops3.drop_first();
                    let outs4 = outs3.drop_first();
                    assert(runs(s4, ops4, s4, outs4));
                    assert(ops3[0] == ops[3] && outs3[0] == outs[3]);
                    assert(runs(s3, ops3, s4, outs3));
                    assert(ops2[0] == ops[2] && outs2[0] == outs[2]);
                    assert(runs(s2, ops2, s4, outs2));
                    assert(ops1[0] == ops[1] && outs1[0] == outs[1]);
                    assert(runs(s1, ops1, s4, outs1));
                    assert(runs(s0, ops, s4, outs));
                    assert(done.follows(ready));
                    assert(self@.keys =~= old(self)@.keys);
                    assert(self@.stack =~= old(self)@.stack);
                    self.lemma_running();
                    assert forall|j: int| 0 <= j < old(self)@.pos implies #[trigger] tag_of(
                        self@.slots,
                        j,
                    ) == tag_of(old(self)@.slots, j) by {
                        assert(tag_of(ready.slots, j) == tag_of(old(self)@.slots, j));
                        assert(tag_of(done.slots, j) == tag_of(ready.slots, j));
                        assert(tag_of(self@.slots, j) == tag_of(done.slots, j));
                    }
                }
                (Some(stored), slot)
            },
            None => {
                proof {
                    assert(!opened.memo_kept(dirty, args));
                }
                (None, slot)
            },
        }
    }

    /// Finishes a cached call whose result had to be computed: stores `value`
    /// in the result's slot, which `begin_call` gave the place of, and closes
    /// the call's group.
    pub fn finish_call(&mut self, slot: usize, value: V)
        requires
            old(self).wf(),
            old(self)@.running,
            old(self)@.stack.len() >= 2,
            old(self)@.keys.len() >= 1,
            slot < old(self)@.slots.len(),
            old(self)@.slots[slot as int].takes_value(),
        ensures
            final(self).wf(),
            final(self)@ == old(self)@.after_set(slot as int, value).closed(),
            kept_before(old(self)@.slots, final(self)@.slots, old(self)@.pos),
    {
        self.set_value(slot, value);
        let ghost set = self@;
        self.close_group();
        proof {
            self.lemma_running();
            assert forall|j: int| 0 <= j < old(self)@.pos implies #[trigger] tag_of(
                self@.slots,
                j,
            ) == tag_of(old(self)@.slots, j) by {
                assert(tag_of(set.slots, j) == tag_of(old(self)@.slots, j));
                assert(tag_of(self@.slots, j) == tag_of(set.slots, j));
            }
        }
    }

    /// Returns the result of `f` for `args`, from the cache where it can.
    ///
    /// The call made from `site` has a group, which holds the arguments of
    /// the last call and its result. If the group is not dirty, `args` are the
    /// same as the stored arguments, and a result is stored, that result is
    /// returned and the rest of the group kept as it is. Otherwise `f` is
    /// called, and its result stored and returned.
    pub fn memoized<F: FnOnce(&mut Cache<V>) -> V>(&mut self, site: &CallSite, args: V, f: F) -> (r:
        V) where V: Data
        requires
            old(self).wf(),
            old(self)@.running,
            old(self)@.slots.len() + 4 <= u32::MAX,
            forall|c: &mut Cache<V>|
                c.wf() && c@.inside(old(self)@, 2) ==> #[trigger] call_requires(f, (c,)),
            forall|c: &mut Cache<V>, r: V|
                c.wf() && c@.running && #[trigger] call_ensures(f, (c,), r) ==> final(c).wf()
                    && final(c)@.follows(c@),
        ensures
            final(self).wf(),
            final(self)@.follows(old(self)@),
            exists|opened: CacheState<V>, dirty: bool|
                {
                    &&& #[trigger] old(self)@.opens(*site, opened, dirty)
                    &&& if opened.memo_kept(dirty, args) {
                        &&& cloned(opened.memo_ready(args).slots[opened.pos + 1]->value, r)
                        &&& final(self)@ == opened.memo_ready(args).after_skip().closed()
                        &&& runs(
                            old(self)@.pass(),
                            old(self)@.reuse_steps(*site, args),
                            final(self)@.pass(),
                            seq![false, false, false, false],
                        )
                    } else {
                        exists|c: &mut Cache<V>, kept: V|
                            {
                                &&& c@ == opened.memo_ready(args)
                                &&& #[trigger] call_ensures(f, (c,), r)
                                &&& #[trigger] cloned(r, kept)
                                &&& final(self)@ == final(c)@.after_set(
                                    opened.pos + 1,
                                    kept,
                                ).closed()
                            }
                    }
                },
    {
        let (reused, slot) = self.begin_call(site, args);
        let ghost ready = self@;
        match reused {
            Some(stored) => stored,
            None => {
                let value = f(self);
                let ghost computed = self@;
                let kept = value.clone();
                proof {
                    assert(cloned(value, kept));
                    assert(computed.follows(ready));
                    assert(tag_of(computed.slots, slot as int) == tag_of(ready.slots, slot as int));
                    self.lemma_running();
                }
                self.finish_call(slot, kept);
                proof {
                    assert(self@.keys =~= old(self)@.keys);
                    assert(self@.stack =~= old(self)@.stack);
                    self.lemma_running();
                    assert forall|j: int| 0 <= j < old(self)@.pos implies #[trigger] tag_of(
                        self@.slots,
                        j,
                    ) == tag_of(old(self)@.slots, j) by {
                        assert(tag_of(ready.slots, j) == tag_of(old(self)@.slots, j));
                        assert(tag_of(computed.slots, j) == tag_of(ready.slots, j));
                        assert(tag_of(self@.slots, j) == tag_of(computed.slots, j));
                    }
                }
                value
            },
        }
    }

    /// Keeps `after` as the state in the slot at `slot`, unless it is the same
    /// as `before`; tells whether it was stored.
    pub fn store_state(&mut self, slot: usize, before: &V, after: V) -> (r: bool) where V: Data
        requires
            old(self).wf(),
            old(self)@.running,
            slot < old(self)@.slots.len(),
            old(self)@.slots[slot as int].takes_value(),
        ensures
            final(self).wf(),
            r == !before.same_spec(&after),
            final(self)@ == (if r {
                old(self)@.after_set(slot as int, after)
            } else {
                old(self)@
            }),
            final(self)@.follows(old(self)@),
    {
        if !before.same(&after) {
            self.set_value(slot, after);
            true
        } else {
            proof {
                self.lemma_running();
                assert forall|j: int| 0 <= j < old(self)@.pos implies #[trigger] tag_of(
                    self@.slots,
                    j,
                ) == tag_of(old(self)@.slots, j) by {}
            }
            false
        }
    }

    /// Calls `update` on the state kept at the cursor for the call made from
    /// `site`, and keeps what `update` makes of it.
    ///
    /// The state is the value stored there by an earlier run, or the result
    /// of `init` where there is none. `update` gets a clone to work on; the
    /// outcome is stored unless it is the same as the state was.
    pub fn with_state<R, I: FnOnce() -> V, U: Fn(&mut V) -> R>(
        &mut self,
        site: &CallSite,
        init: I,
        update: U,
    ) -> (r: R) where V: Data
        requires
            old(self).wf(),
            old(self)@.running,
            old(self)@.slots.len() < u32::MAX,
            call_requires(init, ()),
            forall|v: &mut V| #[trigger] call_requires(update, (v,)),
        ensures
            final(self).wf(),
            final(self)@.follows(old(self)@),
            exists|start: V, before: V, v: &mut V|
                #![trigger call_ensures(update, (v,), r), cloned(start, before)]
                {
                    &&& if old(self)@.slots[old(self)@.pos].holds(old(self)@.key_at(*site)) {
                        cloned(old(self)@.slots[old(self)@.pos]->value, start)
                    } else {
                        call_ensures(init, (), start)
                    }
                    &&& *v == start
                    &&& cloned(start, before)
                    &&& call_ensures(update, (v,), r)
                    &&& final(self)@ == (if before.same_spec(&*final(v)) {
                        old(self)@.after_expect(*site)
                    } else {
                        old(self)@.after_expect(*site).after_set(old(self)@.pos, *final(v))
                    })
                },
    {
        // load the state from the cache, or reserve a slot for it
        let (value, slot) = self.expect_value(site);
        let ghost expected = self@;
        let mut value = match value {
            // use the existing state
            Some(value) => value,
            // create the initial value of the state
            None => init(),
        };
        let ghost start = value;
        let old_value = value.clone();
        let r = update(&mut value);
        proof {
            assert(cloned(start, old_value));
            self.lemma_running();
        }
        self.store_state(slot, &old_value, value);
        proof {
            lemma_follows_trans(self@, expected, old(self)@);
        }
        r
    }
}

impl CallKey {
    /// The key of the call that `cache` is making.
    pub fn current<V>(cache: &Cache<V>) -> (r: CallKey)
        requires
            cache@.running,
        ensures
            r@ == top_key(cache@.keys),
    {
        cache.current_call_key()
    }
}

} // verus!
