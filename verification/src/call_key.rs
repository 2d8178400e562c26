//! Call keys: the identity of one dynamic call of a cached function.
use std::collections::hash_map::DefaultHasher;
use std::hash::{Hash, Hasher};
use vstd::prelude::*;

verus! {

/// Identifies a call, by where it is made and under which scopes.
#[derive(Clone, Copy, Debug, PartialEq, Eq, Structural, Hash)]
pub struct CallKey(pub u64);

impl View for CallKey {
    type V = u64;

    open spec fn view(&self) -> u64 {
        self.0
    }
}

/// The key that stands for "no enclosing call".
pub open spec fn root_key() -> u64 {
    0
}

/// A place in the source text from which cached functions are called.
#[derive(Clone, Copy, Debug)]
pub struct CallSite<'a> {
    pub file: &'a str,
    pub line: u32,
    pub column: u32,
}

/// What the standard hasher makes of the two nearest enclosing keys, a call
/// site and an index.
pub uninterp spec fn chained_hash(
    parent: u64,
    grandparent: u64,
    file: Seq<char>,
    line: u32,
    column: u32,
    index: u64,
) -> u64;

/// Feeds a fresh `std::collections::hash_map::DefaultHasher` the two keys, the
/// call site and the index, in this order, and returns what `finish` gives.
/// A hasher made by `DefaultHasher::new` starts from a fixed state, so the
/// result depends on the six values alone; the contract gives it a name and
/// claims nothing else about it.
#[verifier::external_body]
fn hash_chain(parent: u64, grandparent: u64, site: &CallSite, index: u64) -> (r: u64)
    ensures
        r == chained_hash(parent, grandparent, site.file@, site.line, site.column, index),
{
    let mut hasher = DefaultHasher::new();
    parent.hash(&mut hasher);
    grandparent.hash(&mut hasher);
    (site.file, site.line, site.column, index).hash(&mut hasher);
    hasher.finish()
}

/// The stack of keys of the calls being made, outermost first.
pub struct CallKeyStack(Vec<u64>);

impl View for CallKeyStack {
    type V = Seq<u64>;

    closed spec fn view(&self) -> Seq<u64> {
        self.0@
    }
}

/// The key on top of `stack`, or the root key under an empty stack.
pub open spec fn top_key(stack: Seq<u64>) -> u64 {
    if stack.len() >= 1 {
        stack[stack.len() - 1]
    } else {
        root_key()
    }
}

/// The key just below the top of `stack`, or the root key where there is none.
pub open spec fn second_key(stack: Seq<u64>) -> u64 {
    if stack.len() >= 2 {
        stack[stack.len() - 2]
    } else {
        root_key()
    }
}

/// The key that a call from `site` with `index` gets under `stack`.
pub open spec fn key_under(stack: Seq<u64>, site: CallSite, index: usize) -> u64 {
    chained_hash(
        top_key(stack),
        second_key(stack),
        site.file@,
        site.line,
        site.column,
        index as u64,
    )
}

impl CallKeyStack {
    /// Creates an empty stack.
    pub fn new() -> (r: CallKeyStack)
        ensures
            r@ == Seq::<u64>::empty(),
    {
        CallKeyStack(Vec::new())
    }

    /// Hashes the two innermost keys together with a call site and an index.
    pub fn chain_hash(&self, site: &CallSite, index: usize) -> (r: u64)
        ensures
            r == key_under(self@, *site, index),
    {
        let stacklen = self.0.len();
        let key1 = if stacklen >= 2 {
            self.0[stacklen - 2]
        } else {
            0
        };
        let key0 = if stacklen >= 1 {
            self.0[stacklen - 1]
        } else {
            0
        };
        hash_chain(key0, key1, site, index as u64)
    }

    /// Enters the call made from `site` with `index`: computes its key, pushes
    /// it and returns it.
    pub fn enter(&mut self, site: &CallSite, index: usize) -> (r: CallKey)
        ensures
            r@ == key_under(old(self)@, *site, index),
            final(self)@ == old(self)@.push(r@),
    {
        let key = self.chain_hash(site, index);
        self.0.push(key);
        CallKey(key)
    }

    /// Leaves the innermost call.
    pub fn exit(&mut self)
        requires
            old(self)@.len() > 0,
        ensures
            final(self)@ == old(self)@.drop_last(),
    {
        self.0.pop();
    }

    /// The key of the innermost call, or the root key outside any call.
    pub fn current(&self) -> (r: CallKey)
        ensures
            r@ == top_key(self@),
    {
        let n = self.0.len();
        if n >= 1 {
            CallKey(self.0[n - 1])
        } else {
            CallKey(0)
        }
    }

    /// Tells whether every call entered has been left.
    pub fn is_empty(&self) -> (r: bool)
        ensures
            r == (self@.len() == 0),
    {
        self.0.len() == 0
    }

    /// The number of calls entered and not yet left.
    pub fn depth(&self) -> (r: usize)
        ensures
            r == self@.len(),
    {
        self.0.len()
    }
}

/// Entering a call and leaving it again restores the stack.
pub proof fn law_enter_exit_restores(stack: Seq<u64>, key: u64)
    ensures
        stack.push(key).drop_last() == stack,
        top_key(stack.push(key)) == key,
        second_key(stack.push(key)) == top_key(stack),
{
    assert(stack.push(key).drop_last() =~= stack);
}

} // verus!
