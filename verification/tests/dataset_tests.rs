use std::sync::mpsc::channel;

use storage_map::{DataSet, Op};

#[test]
fn data_set_file_is_its_name_and_extension() {
    let (sx, _rx) = channel();
    let set: DataSet<u32, String> = DataSet::new("users".to_string(), 10, sx);
    assert_eq!(set.file_path(), "users.data");
    let (sx, _rx) = channel();
    let set: DataSet<u32, String> = DataSet::new(String::new(), 0, sx);
    assert_eq!(set.file_path(), ".data");
}

#[test]
fn add_queues_the_operation() {
    let (sx, rx) = channel();
    let mut set: DataSet<u32, String> = DataSet::new("s".to_string(), 1, sx);
    assert!(set.add(1, "a".to_string()));
    assert!(set.add(1, "b".to_string()));
    assert!(set.add(2, "a".to_string()));
    assert_eq!(rx.try_recv(), Ok(Op::Add(1, "a".to_string())));
    assert_eq!(rx.try_recv(), Ok(Op::Add(1, "b".to_string())));
    assert_eq!(rx.try_recv(), Ok(Op::Add(2, "a".to_string())));
    assert!(rx.try_recv().is_err());
}

#[test]
fn add_succeeds_when_the_writer_is_gone() {
    let (sx, rx) = channel();
    drop(rx);
    let mut set: DataSet<u32, u32> = DataSet::new("s".to_string(), 1, sx);
    assert!(set.add(1, 2));
}

#[test]
fn remove_of_an_unknown_key_changes_nothing() {
    let (sx, rx) = channel();
    let mut set: DataSet<u32, String> = DataSet::new("s".to_string(), 1, sx);
    assert!(!set.remove(1, "a".to_string()));
    assert!(rx.try_recv().is_err());
}

#[test]
fn remove_of_a_value_the_key_does_not_hold_changes_nothing() {
    let (sx, rx) = channel();
    let mut set: DataSet<u32, String> = DataSet::new("s".to_string(), 1, sx);
    assert!(set.add(1, "a".to_string()));
    assert_eq!(rx.try_recv(), Ok(Op::Add(1, "a".to_string())));
    assert!(!set.remove(1, "a".to_string()));
    assert!(!set.remove(1, "b".to_string()));
    assert!(rx.try_recv().is_err());
    assert!(set.add(1, "c".to_string()));
    assert_eq!(rx.try_recv(), Ok(Op::Add(1, "c".to_string())));
}
