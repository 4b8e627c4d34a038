use storage_map::batch::{Batch, BATCH_CAPACITY};

#[test]
fn writer_gathers_a_thousand_operations() {
    assert_eq!(BATCH_CAPACITY, 1000);
}

#[test]
fn new_batch_is_empty() {
    let batch: Batch<u32> = Batch::new(4);
    assert_eq!(batch.len(), 0);
    assert_eq!(batch.capacity(), 4);
}

#[test]
fn batch_is_handed_out_when_full() {
    let mut batch = Batch::new(3);
    assert_eq!(batch.push(10), None);
    assert_eq!(batch.len(), 1);
    assert_eq!(batch.push(11), None);
    assert_eq!(batch.len(), 2);
    assert_eq!(batch.push(12), Some(vec![10, 11, 12]));
    assert_eq!(batch.len(), 0);
    assert_eq!(batch.push(13), None);
    assert_eq!(batch.len(), 1);
}

#[test]
fn one_less_than_a_batch_is_flushed_on_close() {
    let capacity = 5;
    let mut batch = Batch::new(capacity);
    for i in 0..capacity - 1 {
        assert_eq!(batch.push(i), None);
    }
    assert_eq!(batch.finish(), Some(vec![0, 1, 2, 3]));
    assert_eq!(batch.len(), 0);
    assert_eq!(batch.finish(), None);
}

#[test]
fn two_batches_worth_is_two_flushes_and_no_remainder() {
    let capacity = 4;
    let mut batch = Batch::new(capacity);
    let mut flushed: Vec<Vec<usize>> = Vec::new();
    for i in 0..2 * capacity {
        if let Some(full) = batch.push(i) {
            flushed.push(full);
        }
    }
    assert_eq!(flushed, vec![vec![0, 1, 2, 3], vec![4, 5, 6, 7]]);
    assert_eq!(batch.finish(), None);
}

#[test]
fn default_capacity_boundaries() {
    let mut batch = Batch::new(BATCH_CAPACITY);
    let mut flushes = 0;
    for i in 0..BATCH_CAPACITY - 1 {
        if batch.push(i).is_some() {
            flushes += 1;
        }
    }
    assert_eq!(flushes, 0);
    let rest = batch.finish().unwrap();
    assert_eq!(rest.len(), BATCH_CAPACITY - 1);
    assert_eq!(rest[0], 0);
    assert_eq!(rest[BATCH_CAPACITY - 2], BATCH_CAPACITY - 2);

    let mut batch = Batch::new(BATCH_CAPACITY);
    let mut sizes = Vec::new();
    for i in 0..2 * BATCH_CAPACITY {
        if let Some(full) = batch.push(i) {
            sizes.push(full.len());
        }
    }
    assert_eq!(sizes, vec![BATCH_CAPACITY, BATCH_CAPACITY]);
    assert_eq!(batch.finish(), None);
}

#[test]
fn batch_of_one_flushes_every_operation() {
    let mut batch = Batch::new(1);
    assert_eq!(batch.push('a'), Some(vec!['a']));
    assert_eq!(batch.push('b'), Some(vec!['b']));
    assert_eq!(batch.finish(), None);
}

#[test]
fn batch_without_a_size_is_flushed_on_close_only() {
    let mut batch = Batch::new(0);
    assert_eq!(batch.push(1), None);
    assert_eq!(batch.push(2), None);
    assert_eq!(batch.push(3), None);
    assert_eq!(batch.finish(), Some(vec![1, 2, 3]));
}

#[test]
fn finish_of_an_empty_batch_is_nothing() {
    let mut batch: Batch<u8> = Batch::new(3);
    assert_eq!(batch.finish(), None);
}

#[test]
fn flushes_keep_the_order_of_arrival() {
    let mut batch = Batch::new(3);
    let mut seen: Vec<u32> = Vec::new();
    for i in 0..10 {
        if let Some(full) = batch.push(i) {
            assert_eq!(full.len(), 3);
            seen.extend(full);
        }
    }
    if let Some(rest) = batch.finish() {
        assert_eq!(rest.len(), 1);
        seen.extend(rest);
    }
    assert_eq!(seen, (0..10).collect::<Vec<u32>>());
}
