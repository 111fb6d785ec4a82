use lsm_write_path::buffer::WriteBuffer;
use lsm_write_path::coordinator::{Coordinator, Lifecycle, WriteError};
use lsm_write_path::segment::{decode_segment, encode_segment, segment_file_name};
use lsm_write_path::write_path::{LogEntry, MemTable};

fn pairs(entries: &[LogEntry]) -> Vec<(Vec<u8>, Vec<u8>)> {
    entries.iter().map(|e| (e.key.clone(), e.value.clone())).collect()
}

fn round_trip(frozen: MemTable) -> Vec<(Vec<u8>, Vec<u8>)> {
    let entries = frozen.into_entries();
    let bytes = encode_segment(&entries).unwrap();
    let decoded = decode_segment(&bytes).unwrap();
    assert_eq!(pairs(&decoded), pairs(&entries));
    pairs(&decoded)
}

#[test]
fn write_path_test_put_and_flush() {
    let mut c: Coordinator<MemTable> = Coordinator::new(1024, 2).unwrap();
    assert!(c.put(b"key1".to_vec(), b"value1".to_vec()).unwrap().is_none());
    assert!(c.put(b"key2".to_vec(), b"value2".to_vec()).unwrap().is_none());
    let frozen = c.flush().unwrap().expect("a segment should be produced");
    assert_eq!(c.active_size(), 0);
    assert_eq!(
        round_trip(frozen),
        vec![
            (b"key1".to_vec(), b"value1".to_vec()),
            (b"key2".to_vec(), b"value2".to_vec())
        ]
    );
}

#[test]
fn test_automatic_flush_on_size_threshold() {
    let mut c: Coordinator<MemTable> = Coordinator::new(100, 2).unwrap();
    let mut frozen = Vec::new();
    for i in 0..10 {
        let key = format!("key{:03}", i).into_bytes();
        let value = vec![b'x'; 50];
        if let Some(b) = c.put(key, value).unwrap() {
            frozen.push(b);
        }
    }
    if let Some(b) = c.begin_shutdown().unwrap() {
        frozen.push(b);
    }
    assert!(frozen.len() > 1, "Multiple segments should be created");
}

#[test]
fn ten_sixty_byte_entries_make_five_segments() {
    let mut c: Coordinator<MemTable> = Coordinator::new(100, 2).unwrap();
    let mut written = Vec::new();
    let mut segments = Vec::new();
    for i in 0..10 {
        let key = format!("key{:03}", i).into_bytes();
        let value = vec![b'v'; 50];
        written.push((key.clone(), value.clone()));
        if let Some(b) = c.put(key, value).unwrap() {
            segments.push(round_trip(b));
        }
    }
    if let Some(b) = c.begin_shutdown().unwrap() {
        segments.push(round_trip(b));
    }
    assert!(segments.len() >= 5);
    assert!(segments.iter().all(|s| s.len() <= 2));
    let all: Vec<(Vec<u8>, Vec<u8>)> = segments.into_iter().flatten().collect();
    assert_eq!(all, written);
}

#[test]
fn below_threshold_nothing_freezes_until_flush() {
    let mut c: Coordinator<MemTable> = Coordinator::new(100, 2).unwrap();
    for i in 0..9u8 {
        assert!(c.put(vec![i], vec![0; 9]).unwrap().is_none());
    }
    assert_eq!(c.active_size(), 90);
    let frozen = c.flush().unwrap().unwrap();
    assert_eq!(frozen.size(), 90);
    assert_eq!(round_trip(frozen).len(), 9);
    assert!(c.flush().unwrap().is_none());
}

#[test]
fn crossing_the_threshold_once_freezes_one_buffer_with_everything() {
    let mut c: Coordinator<MemTable> = Coordinator::new(30, 2).unwrap();
    assert!(c.put(b"a".to_vec(), b"0123456789".to_vec()).unwrap().is_none());
    assert!(c.put(b"b".to_vec(), b"0123456789".to_vec()).unwrap().is_none());
    let frozen = c.put(b"c".to_vec(), b"0123456789".to_vec()).unwrap().unwrap();
    assert_eq!(frozen.size(), 33);
    let keys: Vec<Vec<u8>> = round_trip(frozen).into_iter().map(|p| p.0).collect();
    assert_eq!(keys, vec![b"a".to_vec(), b"b".to_vec(), b"c".to_vec()]);
    assert_eq!(c.active_size(), 0);
    assert!(c.flush().unwrap().is_none());
}

#[test]
fn duplicate_keys_are_all_kept_in_insertion_order() {
    let mut m = MemTable::new();
    m.put(b"k".to_vec(), b"1".to_vec());
    m.put(b"k".to_vec(), b"22".to_vec());
    assert_eq!(m.size(), 5);
    assert_eq!(
        pairs(&m.into_entries()),
        vec![(b"k".to_vec(), b"1".to_vec()), (b"k".to_vec(), b"22".to_vec())]
    );
}

#[test]
fn zero_threshold_freezes_every_write() {
    let mut c: Coordinator<MemTable> = Coordinator::new(0, 2).unwrap();
    assert!(c.put(Vec::new(), Vec::new()).unwrap().is_some());
    assert!(c.put(b"x".to_vec(), Vec::new()).unwrap().is_some());
}

#[test]
fn buffer_limit_must_be_positive() {
    assert_eq!(
        Coordinator::<MemTable>::new(10, 0).err(),
        Some(WriteError::InvalidBufferLimit)
    );
}

#[test]
fn handoff_capacity_is_limit_minus_one_at_least_one() {
    let cap = |n: usize| Coordinator::<MemTable>::new(10, n).unwrap().handoff_capacity();
    assert_eq!(cap(1), 1);
    assert_eq!(cap(2), 1);
    assert_eq!(cap(5), 4);
    let c = Coordinator::<MemTable>::new(10, 3).unwrap();
    assert_eq!(c.max_buffers(), 3);
    assert_eq!(c.size_threshold(), 10);
}

#[test]
fn shutdown_flushes_then_refuses_writes() {
    let mut c: Coordinator<MemTable> = Coordinator::new(1024, 2).unwrap();
    assert_eq!(c.state(), Lifecycle::Running);
    c.put(b"key".to_vec(), b"value".to_vec()).unwrap();
    assert_eq!(c.finish_shutdown(), Err(WriteError::Closed));
    let last = c.begin_shutdown().unwrap().unwrap();
    assert_eq!(round_trip(last), vec![(b"key".to_vec(), b"value".to_vec())]);
    assert_eq!(c.state(), Lifecycle::ShuttingDown);
    assert_eq!(c.put(b"k".to_vec(), b"v".to_vec()).err(), Some(WriteError::Closed));
    assert_eq!(c.flush().err(), Some(WriteError::Closed));
    assert!(c.begin_shutdown().is_err());
    assert_eq!(c.finish_shutdown(), Ok(()));
    assert_eq!(c.state(), Lifecycle::Closed);
    assert_eq!(c.finish_shutdown(), Err(WriteError::Closed));
}

#[test]
fn shutdown_of_an_empty_buffer_hands_over_nothing() {
    let mut c: Coordinator<MemTable> = Coordinator::new(8, 2).unwrap();
    assert!(c.begin_shutdown().unwrap().is_none());
}

#[test]
fn segment_names_are_zero_padded() {
    assert_eq!(segment_file_name(0), "000000.sst");
    assert_eq!(segment_file_name(42), "000042.sst");
    assert_eq!(segment_file_name(999999), "999999.sst");
    assert_eq!(segment_file_name(1234567), "1234567.sst");
}
