use kyute::{Cache, CacheCell, CallKey, CallSite, Data};
use std::cell::Cell;

#[derive(Clone, Debug, PartialEq)]
enum Value {
    Int(i64),
    Text(String),
}

impl Data for Value {
    fn same(&self, other: &Self) -> bool {
        self == other
    }
}

const ROOT: CallSite<'static> = CallSite {
    file: "tests/cache.rs",
    line: 10,
    column: 1,
};
const LEFT: CallSite<'static> = CallSite {
    file: "tests/cache.rs",
    line: 20,
    column: 1,
};
const RIGHT: CallSite<'static> = CallSite {
    file: "tests/cache.rs",
    line: 30,
    column: 1,
};
const STATE: CallSite<'static> = CallSite {
    file: "tests/cache.rs",
    line: 40,
    column: 1,
};

fn number(value: &Value) -> i64 {
    match value {
        Value::Int(i) => *i,
        _ => panic!("not an integer"),
    }
}

/// Doubles `x` in a cached call and counts how often the body runs.
fn double(cache: &mut Cache<Value>, site: &CallSite, x: i64, runs: &Cell<u32>) -> i64 {
    number(&cache.memoized(site, Value::Int(x), |_| {
        runs.set(runs.get() + 1);
        Value::Int(2 * x)
    }))
}

/// The sum of two cached calls, itself cached.
fn sum(cache: &mut Cache<Value>, a: i64, b: i64, outer: &Cell<u32>, inner: &Cell<u32>) -> i64 {
    number(&cache.memoized(
        &ROOT,
        Value::Text(format!("{}+{}", a, b)),
        |cache| {
            outer.set(outer.get() + 1);
            let left = double(cache, &LEFT, a, inner);
            let right = double(cache, &RIGHT, b, inner);
            Value::Int(left + right)
        },
    ))
}

#[test]
fn unchanged_rerun_reuses_every_result() {
    let mut cache = Cache::new();
    let outer = Cell::new(0);
    let inner = Cell::new(0);
    let first = cache.run(|cache| sum(cache, 1, 2, &outer, &inner));
    assert_eq!(first, 6);
    assert_eq!((outer.get(), inner.get()), (1, 2));
    let second = cache.run(|cache| sum(cache, 1, 2, &outer, &inner));
    assert_eq!(second, first);
    assert_eq!((outer.get(), inner.get()), (1, 2));
    let third = cache.run(|cache| sum(cache, 1, 2, &outer, &inner));
    assert_eq!(third, first);
    assert_eq!((outer.get(), inner.get()), (1, 2));
}

#[test]
fn changed_arguments_rerun_the_body() {
    let mut cache = Cache::new();
    let outer = Cell::new(0);
    let inner = Cell::new(0);
    assert_eq!(cache.run(|cache| sum(cache, 1, 2, &outer, &inner)), 6);
    assert_eq!((outer.get(), inner.get()), (1, 2));
    // only the right argument changes: the left call is answered from the cache
    assert_eq!(cache.run(|cache| sum(cache, 1, 5, &outer, &inner)), 12);
    assert_eq!((outer.get(), inner.get()), (2, 3));
    assert_eq!(cache.run(|cache| sum(cache, 1, 5, &outer, &inner)), 12);
    assert_eq!((outer.get(), inner.get()), (2, 3));
}

#[test]
fn invalidation_reruns_the_body_once() {
    let mut cache = Cache::new();
    let runs = Cell::new(0);
    let token = Cell::new(None);
    let body = |cache: &mut Cache<Value>| {
        number(&cache.memoized(&ROOT, Value::Int(1), |cache| {
            runs.set(runs.get() + 1);
            token.set(Some(cache.get_invalidation_token()));
            Value::Int(10)
        }))
    };
    assert_eq!(cache.run(body), 10);
    assert_eq!(runs.get(), 1);
    assert_eq!(cache.run(body), 10);
    assert_eq!(runs.get(), 1);
    cache.invalidate(token.get().unwrap());
    assert_eq!(cache.run(body), 10);
    assert_eq!(runs.get(), 2);
    assert_eq!(cache.run(body), 10);
    assert_eq!(runs.get(), 2);
}

#[test]
fn invalidating_an_inner_call_reruns_the_outer_calls() {
    let mut cache = Cache::new();
    let outer = Cell::new(0);
    let inner = Cell::new(0);
    let token = Cell::new(None);
    let body = |cache: &mut Cache<Value>| {
        number(&cache.memoized(&ROOT, Value::Int(0), |cache| {
            outer.set(outer.get() + 1);
            cache.memoized(&LEFT, Value::Int(0), |cache| {
                inner.set(inner.get() + 1);
                token.set(Some(cache.get_invalidation_token()));
                Value::Int(3)
            })
        }))
    };
    assert_eq!(cache.run(body), 3);
    assert_eq!(cache.run(body), 3);
    assert_eq!((outer.get(), inner.get()), (1, 1));
    cache.invalidate(token.get().unwrap());
    assert_eq!(cache.run(body), 3);
    assert_eq!((outer.get(), inner.get()), (2, 2));
    assert_eq!(cache.run(body), 3);
    assert_eq!((outer.get(), inner.get()), (2, 2));
}

#[test]
fn stale_token_is_ignored() {
    let mut cache = Cache::new();
    let runs = Cell::new(0);
    let token = Cell::new(None);
    let with_item = |cache: &mut Cache<Value>| {
        cache.memoized(&LEFT, Value::Int(1), |cache| {
            runs.set(runs.get() + 1);
            token.set(Some(cache.get_invalidation_token()));
            Value::Int(1)
        });
    };
    cache.run(with_item);
    // the item is gone from this run on
    cache.run(|_| {});
    cache.invalidate(token.get().unwrap());
    cache.run(|_| {});
    assert_eq!(runs.get(), 1);
    // when it comes back it is computed anew
    cache.run(with_item);
    assert_eq!(runs.get(), 2);
}

#[test]
fn reordered_items_keep_their_state() {
    let mut cache = Cache::new();
    let created = Cell::new(0);
    let item = |cache: &mut Cache<Value>, index: usize| -> i64 {
        cache.scoped(&ROOT, index, |cache| {
            cache.group(&LEFT, |cache, _dirty| {
                cache.with_state(
                    &STATE,
                    || {
                        created.set(created.get() + 1);
                        Value::Int(-1)
                    },
                    |state| {
                        // tag the state with the order of its creation, once
                        if *state == Value::Int(-1) {
                            *state = Value::Int(created.get());
                        }
                        number(state)
                    },
                )
            })
        })
    };
    let first = cache.run(|cache| [item(cache, 0), item(cache, 1), item(cache, 2)]);
    assert_eq!(first, [1, 2, 3]);
    assert_eq!(created.get(), 3);
    let second = cache.run(|cache| [item(cache, 2), item(cache, 0), item(cache, 1)]);
    assert_eq!(second, [3, 1, 2]);
    assert_eq!(created.get(), 3);
    // an item that is left out is forgotten, and created again when it is back
    let third = cache.run(|cache| [item(cache, 2), item(cache, 1)]);
    assert_eq!(third, [3, 2]);
    let fourth = cache.run(|cache| [item(cache, 0), item(cache, 1), item(cache, 2)]);
    assert_eq!(fourth, [4, 2, 3]);
    assert_eq!(created.get(), 4);
}

#[test]
fn state_persists_and_changes() {
    let mut cache = Cache::new();
    let count = |cache: &mut Cache<Value>| {
        cache.with_state(
            &STATE,
            || Value::Int(0),
            |state| {
                let seen = number(state);
                *state = Value::Int(seen + 1);
                seen
            },
        )
    };
    assert_eq!(cache.run(count), 0);
    assert_eq!(cache.run(count), 1);
    assert_eq!(cache.run(count), 2);
}

#[test]
fn changed_tells_new_values_from_old() {
    let mut cache = Cache::new();
    assert!(cache.run(|cache| cache.changed(&LEFT, Value::Int(1))));
    assert!(!cache.run(|cache| cache.changed(&LEFT, Value::Int(1))));
    assert!(cache.run(|cache| cache.changed(&LEFT, Value::Int(2))));
    assert!(!cache.run(|cache| cache.changed(&LEFT, Value::Int(2))));
    // another call site has another slot
    assert!(cache.run(|cache| cache.changed(&RIGHT, Value::Int(2))));
}

#[test]
fn call_keys_depend_on_site_index_and_scope() {
    let mut cache = Cache::<Value>::new();
    let keys = cache.run(|cache| {
        let outside = cache.current_call_key();
        let a = cache.scoped(&LEFT, 0, |cache| cache.current_call_key());
        let again = cache.scoped(&LEFT, 0, |cache| cache.current_call_key());
        let other_index = cache.scoped(&LEFT, 1, |cache| cache.current_call_key());
        let other_site = cache.scoped(&RIGHT, 0, |cache| cache.current_call_key());
        let nested = cache.scoped(&RIGHT, 0, |cache| {
            cache.scoped(&LEFT, 0, |cache| CallKey::current(cache))
        });
        let back = cache.current_call_key();
        (outside, a, again, other_index, other_site, nested, back)
    });
    let (outside, a, again, other_index, other_site, nested, back) = keys;
    assert_eq!(outside, CallKey(0));
    assert_eq!(back, CallKey(0));
    assert_eq!(a, again);
    assert_ne!(a, other_index);
    assert_ne!(a, other_site);
    assert_ne!(a, nested);
    assert_ne!(a, CallKey(0));
}

#[test]
fn expect_value_and_set_value_store_a_result() {
    let mut cache = Cache::new();
    let read = |cache: &mut Cache<Value>| {
        cache.group(&ROOT, |cache, _| {
            let (value, slot) = cache.expect_value(&LEFT);
            if value.is_none() {
                cache.set_value(slot, Value::Text("kept".to_string()));
            }
            cache.skip_to_end_of_group();
            value
        })
    };
    assert_eq!(cache.run(read), None);
    assert_eq!(cache.run(read), Some(Value::Text("kept".to_string())));
}

#[test]
fn cache_cell_remembers_the_last_call() {
    let mut cell: CacheCell<Value, i64> = CacheCell::new();
    let calls = Cell::new(0);
    let mut get = |x: i64| {
        cell.cache(Value::Int(x), |args| {
            calls.set(calls.get() + 1);
            number(args) * 3
        })
    };
    assert_eq!(get(2), 6);
    assert_eq!(get(2), 6);
    assert_eq!(calls.get(), 1);
    assert_eq!(get(3), 9);
    assert_eq!(calls.get(), 2);
    assert_eq!(get(2), 6);
    assert_eq!(calls.get(), 3);
    let mut other: CacheCell<Value, i64> = CacheCell::default();
    assert_eq!(other.cache(Value::Int(1), |_| 1), 1);
}

#[test]
fn unbalanced_scopes_can_be_told_before_the_run_ends() {
    let mut cache = Cache::<Value>::new();
    assert!(!cache.is_running());
    assert_eq!((cache.entered_calls(), cache.open_groups()), (0, 0));
    cache.begin();
    assert!(cache.is_running());
    assert_eq!((cache.entered_calls(), cache.open_groups()), (0, 1));
    cache.enter(&LEFT, 0);
    // a call is entered and not left: the run must not be ended here
    assert_eq!((cache.entered_calls(), cache.open_groups()), (1, 1));
    assert!(!cache.open_group(&RIGHT));
    assert_eq!((cache.entered_calls(), cache.open_groups()), (2, 2));
    cache.close_group();
    assert_eq!((cache.entered_calls(), cache.open_groups()), (1, 1));
    cache.exit();
    assert_eq!((cache.entered_calls(), cache.open_groups()), (0, 1));
    cache.end();
    assert!(!cache.is_running());
    // root start and end, and the start and end of the group
    assert_eq!(cache.slot_count(), 4);
    assert_eq!(cache.dump().len(), 4);
}

#[test]
fn begin_call_tells_when_to_compute() {
    let mut cache = Cache::new();
    cache.begin();
    let (stored, slot) = cache.begin_call(&ROOT, Value::Int(1));
    assert!(stored.is_none());
    // root start, group start, arguments, result
    assert_eq!(slot, 3);
    assert!(cache.takes_value(slot));
    assert!(!cache.takes_value(1));
    assert_eq!(cache.open_groups(), 2);
    cache.finish_call(slot, Value::Int(10));
    assert_eq!(cache.open_groups(), 1);
    cache.end();
    assert_eq!(cache.slot_count(), 6);

    cache.begin();
    let (stored, slot) = cache.begin_call(&ROOT, Value::Int(1));
    assert_eq!(stored, Some(Value::Int(10)));
    assert_eq!(slot, 3);
    // the group is closed again
    assert_eq!(cache.open_groups(), 1);
    cache.end();
    assert_eq!(cache.slot_count(), 6);

    cache.begin();
    let (stored, slot) = cache.begin_call(&ROOT, Value::Int(2));
    assert!(stored.is_none());
    cache.finish_call(slot, Value::Int(20));
    cache.end();
    assert_eq!(cache.run(|cache| cache.memoized(&ROOT, Value::Int(2), |_| Value::Int(0))), Value::Int(20));
}

#[test]
fn store_state_keeps_what_differs() {
    let mut cache = Cache::new();
    cache.begin();
    let (value, slot) = cache.expect_value(&STATE);
    assert!(value.is_none());
    assert!(!cache.store_state(slot, &Value::Int(1), Value::Int(1)));
    assert!(cache.store_state(slot, &Value::Int(1), Value::Int(2)));
    cache.end();
    cache.begin();
    let (value, _) = cache.expect_value(&STATE);
    assert_eq!(value, Some(Value::Int(2)));
    cache.end();
}

#[test]
fn cache_holds_the_groups_of_its_tokens() {
    let mut cache = Cache::<Value>::new();
    let token = cache.run(|cache| {
        cache.group(&LEFT, |cache, dirty| {
            assert!(!dirty);
            let token = cache.get_invalidation_token();
            assert!(cache.holds(token));
            token
        })
    });
    assert!(cache.holds(token));
    assert_ne!(token.group_bits(), 0);
    cache.invalidate(token);
    let seen = cache.run(|cache| cache.group(&LEFT, |_, dirty| dirty));
    assert!(seen);
    let seen = cache.run(|cache| cache.group(&LEFT, |_, dirty| dirty));
    assert!(!seen);
    cache.run(|_| {});
    assert!(!cache.holds(token));
}
