//! A cell that remembers the last result of a function and its arguments.
use crate::data::Data;
use vstd::prelude::*;

verus! {

/// Holds the arguments and the result of the last call made through it.
pub struct CacheCell<Args, T> {
    last: Option<(Args, T)>,
}

impl<Args, T> View for CacheCell<Args, T> {
    type V = Option<(Args, T)>;

    closed spec fn view(&self) -> Option<(Args, T)> {
        self.last
    }
}

impl<Args, T> CacheCell<Args, T> {
    /// Creates a cell that remembers nothing.
    pub fn new() -> (r: CacheCell<Args, T>)
        ensures
            r@ is None,
    {
        CacheCell { last: None }
    }
}

impl<Args, T> Default for CacheCell<Args, T> {
    fn default() -> (r: CacheCell<Args, T>)
        ensures
            r@ is None,
    {
        CacheCell::new()
    }
}

impl<Args: Data, T: Clone> CacheCell<Args, T> {
    /// Whether a call with `args` is answered from the cell: the cell
    /// remembers a call whose arguments are the same.
    pub open spec fn remembers(&self, args: Args) -> bool {
        self@ matches Some((last_args, _)) && last_args.same_spec(&args)
    }

    /// Returns the result for `args`: a clone of the remembered result if the
    /// remembered arguments are the same as `args`; otherwise what `init`
    /// computes from `args`, which the cell then remembers.
    pub fn cache<F: FnOnce(&Args) -> T>(&mut self, args: Args, init: F) -> (r: T)
        requires
            !old(self).remembers(args) ==> call_requires(init, (&args,)),
        ensures
            old(self).remembers(args) ==> final(self)@ == old(self)@ && cloned(
                old(self)@->Some_0.1,
                r,
            ),
            !old(self).remembers(args) ==> call_ensures(init, (&args,), r) && final(self)@ is Some
                && final(self)@->Some_0.0 == args && cloned(r, final(self)@->Some_0.1),
    {
        let found: Option<T> = match &self.last {
            Some((last_args, last_value)) => {
                if last_args.same(&args) {
                    Some(last_value.clone())
                } else {
                    None
                }
            },
            None => None,
        };
        match found {
            Some(value) => value,
            None => {
                let value = init(&args);
                let kept = value.clone();
                self.last = Some((args, kept));
                value
            },
        }
    }
}

} // verus!
