use kyute::{CacheEntryError, CacheInner, CacheWriter, CallKey, Data, DumpLine};
use rand::seq::SliceRandom;
use rand::Rng;
use std::cell::Cell;
use std::rc::Rc;

#[derive(Clone, Debug)]
enum Value {
    Int(i32),
    Text(String),
    Float(f64),
}

impl Data for Value {
    fn same(&self, other: &Self) -> bool {
        match (self, other) {
            (Value::Int(a), Value::Int(b)) => a == b,
            (Value::Text(a), Value::Text(b)) => a == b,
            (Value::Float(a), Value::Float(b)) => a == b,
            _ => false,
        }
    }
}

#[test]
fn test_rewrite() {
    let mut cache = CacheInner::new();

    for _ in 0..3 {
        let mut writer = CacheWriter::new(cache);
        writer.start_group(CallKey(99));
        writer.compare_and_update_value(CallKey(1), Value::Int(0));
        writer.compare_and_update_value(CallKey(2), Value::Text("hello world".to_string()));
        writer.end_group();
        cache = writer.finish();
        println!("{:?}", cache.dump(0));
    }
}

#[test]
fn cache_test_reorder() {
    let mut cache = CacheInner::new();
    let mut rng = rand::thread_rng();
    let mut items = vec![0, 1, 2, 3, 4, 5, 6, 7];

    for i in 0..3 {
        let mut writer = CacheWriter::new(cache);
        for &item in items.iter() {
            println!(
                " ==== Iteration {} - item {} =========================",
                i, item
            );
            writer.start_group(CallKey(item));
            writer.compare_and_update_value(CallKey(100), Value::Int(i));
            writer.end_group();
            println!("{:?}", writer.dump());
        }
        cache = writer.finish();
        items.shuffle(&mut rng)
    }
}

#[test]
fn test_placeholder() {
    let mut cache = CacheInner::new();

    for _ in 0..3 {
        let mut writer = CacheWriter::new(cache);
        writer.start_group(CallKey(99));
        let changed = writer.compare_and_update_value(CallKey(100), Value::Int(0));
        let (value, slot) = writer.expect_value(CallKey(101));

        if !changed {
            assert!(value.is_some());
            writer.skip_until_end_of_group();
        } else {
            writer.compare_and_update_value(CallKey(102), Value::Text("hello world".to_string()));
            writer.set_value(slot, Value::Float(0.0));
        }

        writer.end_group();
        cache = writer.finish();
        println!("{:?}", cache.dump(0));
    }
}

#[test]
fn test_tagged_reorder() {
    let mut cache = CacheInner::new();
    let mut rng = rand::thread_rng();
    let mut items = vec![0, 1, 2, 3, 4, 5, 6, 7];

    for i in 0..3 {
        let mut writer = CacheWriter::new(cache);
        for &item in items.iter() {
            println!(
                " ==== Iteration {} - item {} =========================",
                i, item
            );
            writer.compare_and_update_value(CallKey(100 + item), Value::Int(i));
        }
        cache = writer.finish();
        println!("{:?}", cache.dump(0));
        items.shuffle(&mut rng)
    }
}

#[derive(Clone, Debug)]
struct Item {
    value: u64,
    live: Rc<Cell<i64>>,
}

impl Data for Item {
    fn same(&self, other: &Self) -> bool {
        self.value == other.value
    }
}

impl Item {
    fn new(value: u64, live: &Rc<Cell<i64>>) -> Item {
        println!("creating Item #{}", value);
        live.set(live.get() + 1);
        Item {
            value,
            live: live.clone(),
        }
    }
}

impl Drop for Item {
    fn drop(&mut self) {
        println!("dropping Item #{}", self.value);
        self.live.set(self.live.get() - 1);
    }
}

#[test]
fn test_insert_remove() {
    let mut cache = CacheInner::new();
    let mut rng = rand::thread_rng();
    let live = Rc::new(Cell::new(0));

    for _ in 0..10 {
        let num_items = rng.gen_range(0..10);
        let items = (0..num_items)
            .map(|_| rng.gen_range(0..10))
            .collect::<Vec<u64>>();

        println!("Items: {:?}", items);

        let mut writer = CacheWriter::new(cache);
        for &item in items.iter() {
            writer.compare_and_update_value(CallKey(item), Item::new(item, &live));
        }
        cache = writer.finish();
        // root start and end, and one slot for each item visited
        assert_eq!(cache.len(), items.len() + 2);
        assert_eq!(live.get(), items.len() as i64);
    }
    drop(cache);
    assert_eq!(live.get(), 0);
}

fn run_group_a(cache: CacheInner<Value>, value: i32) -> (CacheInner<Value>, bool, bool) {
    let mut writer = CacheWriter::new(cache);
    let dirty = writer.start_group(CallKey(7));
    let changed = writer.compare_and_update_value(CallKey(1), Value::Int(value));
    writer.end_group();
    (writer.finish(), dirty, changed)
}

#[test]
fn scenario_same_value_then_other_value() {
    let cache = CacheInner::new();
    assert_eq!(cache.len(), 2);
    let (cache, dirty, changed) = run_group_a(cache, 1);
    assert!(!dirty);
    assert!(changed);
    // root start, group start, value, group end, root end
    assert_eq!(cache.len(), 5);
    let (cache, dirty, changed) = run_group_a(cache, 1);
    assert!(!dirty);
    assert!(!changed);
    assert_eq!(cache.len(), 5);
    let (cache, dirty, changed) = run_group_a(cache, 2);
    assert!(!dirty);
    assert!(changed);
    assert_eq!(cache.len(), 5);
    let (cache, _, changed) = run_group_a(cache, 2);
    assert!(!changed);
    assert_eq!(cache.len(), 5);
}

#[test]
fn dump_describes_every_slot() {
    let (cache, _, _) = run_group_a(CacheInner::new(), 1);
    let lines = cache.dump(2);
    assert_eq!(lines.len(), 5);
    match lines[0] {
        DumpLine::StartGroup {
            index,
            current,
            key,
            len,
            end,
            parent,
            dirty,
            ..
        } => {
            assert_eq!((index, current, key, len, end), (0, false, CallKey(0), 5, 4));
            assert_eq!(parent, None);
            assert!(!dirty);
        }
        _ => panic!("expected the root group"),
    }
    let root = match lines[0] {
        DumpLine::StartGroup { group, .. } => group,
        _ => unreachable!(),
    };
    match lines[1] {
        DumpLine::StartGroup {
            index,
            key,
            len,
            end,
            group,
            parent,
            dirty,
            ..
        } => {
            assert_eq!((index, key, len, end), (1, CallKey(7), 3, 3));
            assert_eq!(parent, Some(root));
            assert_ne!(group, root);
            assert!(!dirty);
        }
        _ => panic!("expected a group"),
    }
    assert_eq!(
        lines[2],
        DumpLine::Value {
            index: 2,
            current: true,
            key: CallKey(1)
        }
    );
    assert_eq!(
        lines[3],
        DumpLine::EndGroup {
            index: 3,
            current: false
        }
    );
    assert_eq!(
        lines[4],
        DumpLine::EndGroup {
            index: 4,
            current: false
        }
    );
}

fn keys_of(cache: &CacheInner<Value>) -> Vec<(u64, u64)> {
    cache
        .dump(0)
        .iter()
        .filter_map(|line| match line {
            DumpLine::StartGroup { key, group, .. } if key.0 != 0 => Some((key.0, *group)),
            _ => None,
        })
        .collect()
}

fn visit(cache: CacheInner<Value>, order: &[u64]) -> CacheInner<Value> {
    let mut writer = CacheWriter::new(cache);
    for &item in order {
        writer.start_group(CallKey(item));
        writer.end_group();
    }
    writer.finish()
}

#[test]
fn reordered_groups_keep_their_ids() {
    let cache = visit(CacheInner::new(), &[10, 20, 30]);
    let first = keys_of(&cache);
    assert_eq!(first.iter().map(|p| p.0).collect::<Vec<_>>(), vec![10, 20, 30]);
    let cache = visit(cache, &[30, 10, 20]);
    let second = keys_of(&cache);
    assert_eq!(second.iter().map(|p| p.0).collect::<Vec<_>>(), vec![30, 10, 20]);
    for (key, group) in first {
        assert!(second.contains(&(key, group)));
    }
}

#[test]
fn unvisited_group_is_removed() {
    let cache = visit(CacheInner::new(), &[10, 20, 30]);
    assert_eq!(cache.len(), 8);
    let before = keys_of(&cache);
    let cache = visit(cache, &[10, 30]);
    assert_eq!(cache.len(), 6);
    let after = keys_of(&cache);
    assert_eq!(after, vec![before[0], before[2]]);
    // a group of the same key that comes back is a new group
    let cache = visit(cache, &[10, 20, 30]);
    let again = keys_of(&cache);
    assert_eq!(again[0], before[0]);
    assert_eq!(again[2], before[2]);
    assert_eq!(again[1].0, 20);
}

#[test]
fn invalidated_group_is_dirty_once() {
    let mut writer = CacheWriter::<Value>::new(CacheInner::new());
    assert!(!writer.start_group(CallKey(5)));
    assert!(!writer.start_group(CallKey(6)));
    let token = writer.get_invalidation_token();
    writer.end_group();
    writer.end_group();
    assert!(!writer.start_group(CallKey(8)));
    writer.end_group();
    let mut cache = writer.finish();

    cache.invalidate(token);
    let lines = cache.dump(0);
    let dirty: Vec<(u64, bool)> = lines
        .iter()
        .filter_map(|line| match line {
            DumpLine::StartGroup { key, dirty, .. } => Some((key.0, *dirty)),
            _ => None,
        })
        .collect();
    assert_eq!(dirty, vec![(0, true), (5, true), (6, true), (8, false)]);

    let mut writer = CacheWriter::new(cache);
    assert!(writer.start_group(CallKey(5)));
    assert!(writer.start_group(CallKey(6)));
    writer.end_group();
    writer.end_group();
    assert!(!writer.start_group(CallKey(8)));
    writer.end_group();
    let cache = writer.finish();

    let mut writer = CacheWriter::new(cache);
    assert!(!writer.start_group(CallKey(5)));
    assert!(!writer.start_group(CallKey(6)));
    writer.end_group();
    writer.end_group();
    let mut cache = writer.finish();

    // the group under key 8 was not visited: its token invalidates nothing
    let before = cache.dump(0);
    cache.invalidate(token);
    let _ = before;
    let mut writer = CacheWriter::new(cache);
    assert!(writer.start_group(CallKey(5)));
    writer.end_group();
    let _ = writer.finish();
}

#[test]
fn skip_steps_over_a_whole_group() {
    let mut writer = CacheWriter::new(CacheInner::new());
    writer.start_group(CallKey(1));
    writer.compare_and_update_value(CallKey(2), Value::Int(1));
    writer.compare_and_update_value(CallKey(3), Value::Int(2));
    writer.end_group();
    writer.compare_and_update_value(CallKey(4), Value::Int(3));
    let cache = writer.finish();
    assert_eq!(cache.len(), 7);

    let mut writer = CacheWriter::new(cache);
    assert_eq!(writer.position(), 1);
    writer.skip();
    assert_eq!(writer.position(), 5);
    writer.skip();
    assert_eq!(writer.position(), 6);
    // at the end of the group there is nothing to skip
    writer.skip();
    assert_eq!(writer.position(), 6);
    let cache = writer.finish();
    assert_eq!(cache.len(), 7);
}

#[test]
fn expect_value_reserves_then_reads() {
    let mut writer = CacheWriter::new(CacheInner::new());
    let (value, slot) = writer.expect_value(CallKey(9));
    assert!(value.is_none());
    assert_eq!(slot, 1);
    assert!(writer.takes_value(slot));
    assert!(!writer.takes_value(0));
    assert!(!writer.takes_value(100));
    writer.set_value(slot, Value::Int(42));
    let cache = writer.finish();
    assert_eq!(cache.len(), 3);

    let mut writer = CacheWriter::new(cache);
    let (value, slot) = writer.expect_value(CallKey(9));
    assert_eq!(slot, 1);
    match value {
        Some(Value::Int(42)) => {}
        other => panic!("unexpected value {:?}", other),
    }
    assert_eq!(writer.len(), 3);
    let cache = writer.finish();

    // another key at the same place does not read the value
    let mut writer = CacheWriter::new(cache);
    let (value, _) = writer.expect_value(CallKey(10));
    assert!(value.is_none());
    assert_eq!(writer.len(), 4);
    let cache = writer.finish();
    assert_eq!(cache.len(), 3);
}

#[test]
fn error_messages() {
    assert_eq!(CacheEntryError::EntryNotFound.message(), "state entry not found");
    assert_eq!(CacheEntryError::VacantEntry.message(), "no value in state entry");
    assert_eq!(
        CacheEntryError::OccupiedEntry.message(),
        "state entry already contains a value"
    );
    assert_eq!(CacheEntryError::TypeMismatch.message(), "type mismatch");
}
