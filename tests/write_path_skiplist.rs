use lsm_write_path::buffer::WriteBuffer;
use lsm_write_path::coordinator::Coordinator;
use lsm_write_path::segment::{decode_segment, encode_segment};
use lsm_write_path::write_path::LogEntry;
use lsm_write_path::write_path_skiplist::MemTable;

fn pairs(entries: &[LogEntry]) -> Vec<(Vec<u8>, Vec<u8>)> {
    entries.iter().map(|e| (e.key.clone(), e.value.clone())).collect()
}

#[test]
fn write_path_skiplist_test_put_and_flush() {
    let mut c: Coordinator<MemTable> = Coordinator::new(1024, 2).unwrap();
    assert!(c.put(b"key1".to_vec(), b"value1".to_vec()).unwrap().is_none());
    assert!(c.put(b"key2".to_vec(), b"value2".to_vec()).unwrap().is_none());
    let frozen = c.flush().unwrap().expect("a segment should be produced");
    let bytes = encode_segment(&frozen.into_entries()).unwrap();
    assert!(!bytes.is_empty());
}

#[test]
fn test_skiplist_sorted_output() {
    let mut c: Coordinator<MemTable> = Coordinator::new(1024, 2).unwrap();
    c.put(b"key3".to_vec(), b"value3".to_vec()).unwrap();
    c.put(b"key1".to_vec(), b"value1".to_vec()).unwrap();
    c.put(b"key2".to_vec(), b"value2".to_vec()).unwrap();
    let frozen = c.flush().unwrap().expect("a segment should be produced");
    let bytes = encode_segment(&frozen.into_entries()).unwrap();
    let back = decode_segment(&bytes).unwrap();
    assert_eq!(
        pairs(&back),
        vec![
            (b"key1".to_vec(), b"value1".to_vec()),
            (b"key2".to_vec(), b"value2".to_vec()),
            (b"key3".to_vec(), b"value3".to_vec())
        ]
    );
}

#[test]
fn later_write_of_a_key_wins() {
    let mut m = MemTable::new();
    m.put(b"b".to_vec(), b"first".to_vec());
    m.put(b"a".to_vec(), b"x".to_vec());
    m.put(b"b".to_vec(), b"second".to_vec());
    assert_eq!(m.size(), 6 + 2 + 7);
    assert_eq!(
        pairs(&m.iter()),
        vec![(b"a".to_vec(), b"x".to_vec()), (b"b".to_vec(), b"second".to_vec())]
    );
}

#[test]
fn keys_order_bytewise_with_prefixes_first() {
    let mut m = MemTable::new();
    for k in [&b"ab"[..], b"b", b"", b"a", b"\xff", b"aa"] {
        m.put(k.to_vec(), Vec::new());
    }
    let keys: Vec<Vec<u8>> = m.into_entries().into_iter().map(|e| e.key).collect();
    assert_eq!(
        keys,
        vec![b"".to_vec(), b"a".to_vec(), b"aa".to_vec(), b"ab".to_vec(), b"b".to_vec(), b"\xff".to_vec()]
    );
}

#[test]
fn skiplist_buffer_emptiness() {
    let mut m = MemTable::new();
    assert!(m.is_empty());
    assert_eq!(m.size(), 0);
    m.put(Vec::new(), Vec::new());
    assert!(!m.is_empty());
    assert_eq!(m.size(), 0);
}

#[test]
fn skiplist_freezes_at_threshold() {
    let mut c: Coordinator<MemTable> = Coordinator::new(10, 2).unwrap();
    assert!(c.put(b"zz".to_vec(), b"123".to_vec()).unwrap().is_none());
    let frozen = c.put(b"aa".to_vec(), b"456".to_vec()).unwrap().unwrap();
    let keys: Vec<Vec<u8>> = frozen.into_entries().into_iter().map(|e| e.key).collect();
    assert_eq!(keys, vec![b"aa".to_vec(), b"zz".to_vec()]);
    assert_eq!(c.active_size(), 0);
}
