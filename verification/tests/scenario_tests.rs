use std::collections::HashMap;
use std::sync::mpsc::channel;

use storage_map::batch::Batch;
use storage_map::record::{encode_batch, scan_log, ByteOrder};
use storage_map::{Op, StorageMap};

fn encode(op: &Op<u32, String>) -> Option<Vec<u8>> {
    match op {
        Op::Add(k, v) => bincode::serialize(&(0u32, *k, v)).ok(),
        Op::Remove(k, v) => bincode::serialize(&(1u32, *k, v)).ok(),
        Op::Destroy(k) => bincode::serialize(&(2u32, *k)).ok(),
    }
}

fn decode(payload: &[u8]) -> Option<Op<u32, String>> {
    let tag: u32 = bincode::deserialize(payload.get(..4)?).ok()?;
    match tag {
        0 => {
            let (_, k, v): (u32, u32, String) = bincode::deserialize(payload).ok()?;
            Some(Op::Add(k, v))
        }
        1 => {
            let (_, k, v): (u32, u32, String) = bincode::deserialize(payload).ok()?;
            Some(Op::Remove(k, v))
        }
        2 => {
            let (_, k): (u32, u32) = bincode::deserialize(payload).ok()?;
            Some(Op::Destroy(k))
        }
        _ => None,
    }
}

fn write_batch(log: &mut Vec<u8>, ops: &[Op<u32, String>]) {
    let items: Vec<Option<Vec<u8>>> = ops.iter().map(encode).collect();
    log.extend_from_slice(&encode_batch(ByteOrder::Little, &items));
}

fn run_writer(capacity: usize, ops: Vec<Op<u32, String>>) -> (Vec<u8>, Vec<usize>) {
    let mut log = Vec::new();
    let mut sizes = Vec::new();
    let mut batch = Batch::new(capacity);
    for op in ops {
        if let Some(full) = batch.push(op) {
            sizes.push(full.len());
            write_batch(&mut log, &full);
        }
    }
    if let Some(rest) = batch.finish() {
        sizes.push(rest.len());
        write_batch(&mut log, &rest);
    }
    (log, sizes)
}

fn reopen(log: &[u8]) -> StorageMap<u32, String> {
    let scan = scan_log(ByteOrder::Little, log);
    let records: Vec<Option<Op<u32, String>>> =
        scan.payloads.iter().map(|p| decode(p)).collect();
    let (sx, _rx) = channel();
    StorageMap::new(records, sx)
}

fn text(s: &str) -> String {
    s.to_string()
}

#[test]
fn three_adds_through_a_writer_of_batch_size_two() {
    let (sx, rx) = channel();
    let mut store = StorageMap::<u32, String>::new(vec![], sx);
    store.set(1, text("a")).unwrap();
    store.set(2, text("b")).unwrap();
    store.set(1, text("c")).unwrap();
    drop(store);
    let submitted: Vec<Op<u32, String>> = rx.iter().collect();
    assert_eq!(
        submitted,
        vec![Op::Add(1, text("a")), Op::Add(2, text("b")), Op::Add(1, text("c"))]
    );

    let (log, sizes) = run_writer(2, submitted);
    assert_eq!(sizes, vec![2, 1]);

    let scan = scan_log(ByteOrder::Little, &log);
    assert!(!scan.truncated);
    assert_eq!(scan.consumed, log.len());
    let decoded: Vec<Option<Op<u32, String>>> = scan.payloads.iter().map(|p| decode(p)).collect();
    assert_eq!(
        decoded,
        vec![
            Some(Op::Add(1, text("a"))),
            Some(Op::Add(2, text("b"))),
            Some(Op::Add(1, text("c"))),
        ]
    );

    let reopened = reopen(&log);
    let mut expected = HashMap::new();
    expected.insert(1, text("c"));
    expected.insert(2, text("b"));
    assert_eq!(reopened.data, expected);
}

#[test]
fn reopening_restores_the_fold_of_what_was_submitted() {
    let ops = vec![
        Op::Add(1, text("one")),
        Op::Add(2, text("two")),
        Op::Destroy(1),
        Op::Add(3, text("three")),
        Op::Add(2, text("deux")),
        Op::Destroy(9),
        Op::Add(1, text("un")),
    ];
    let mut expected = HashMap::new();
    expected.insert(1, text("un"));
    expected.insert(2, text("deux"));
    expected.insert(3, text("three"));
    for capacity in [1usize, 2, 3, 7, 8, 1000] {
        let (log, _) = run_writer(capacity, ops.clone());
        assert_eq!(reopen(&log).data, expected);
    }
}

#[test]
fn reopening_twice_gives_the_same_store() {
    let ops = vec![Op::Add(1, text("a")), Op::Add(2, text("b")), Op::Destroy(1)];
    let (log, _) = run_writer(2, ops);
    let first = reopen(&log);
    let second = reopen(&log);
    assert_eq!(first.data, second.data);
}

#[test]
fn order_of_two_adds_decides_after_reopening() {
    let (log, _) = run_writer(2, vec![Op::Add(7, text("v1")), Op::Add(7, text("v2"))]);
    assert_eq!(reopen(&log).get(&7), Some(&text("v2")));
    let (log, _) = run_writer(2, vec![Op::Add(7, text("v2")), Op::Add(7, text("v1"))]);
    assert_eq!(reopen(&log).get(&7), Some(&text("v1")));
}

#[test]
fn destroyed_key_is_absent_after_reopening() {
    let (log, _) = run_writer(1000, vec![Op::Add(7, text("v")), Op::Destroy(7)]);
    let store = reopen(&log);
    assert_eq!(store.get(&7), None);
    assert!(store.data.is_empty());
}

#[test]
fn cut_off_last_record_does_not_hide_the_others() {
    let ops = vec![Op::Add(1, text("a")), Op::Add(2, text("b")), Op::Add(1, text("c"))];
    let (mut log, _) = run_writer(1000, ops);
    log.extend_from_slice(&[17, 0]);
    let store = reopen(&log);
    let mut expected = HashMap::new();
    expected.insert(1, text("c"));
    expected.insert(2, text("b"));
    assert_eq!(store.data, expected);

    let (mut log, _) = run_writer(1000, vec![Op::Add(1, text("a")), Op::Add(2, text("b"))]);
    let cut = log.len() - 1;
    log.truncate(cut);
    let store = reopen(&log);
    assert_eq!(store.get(&1), Some(&text("a")));
    assert_eq!(store.get(&2), None);
}

#[test]
fn record_that_does_not_decode_ends_the_replay() {
    let mut log = Vec::new();
    write_batch(&mut log, &[Op::Add(1, text("a"))]);
    log.extend_from_slice(&encode_batch(ByteOrder::Little, &vec![Some(vec![9u8, 9, 9, 9, 9])]));
    write_batch(&mut log, &[Op::Add(2, text("b"))]);
    let store = reopen(&log);
    assert_eq!(store.get(&1), Some(&text("a")));
    assert_eq!(store.get(&2), None);
}
