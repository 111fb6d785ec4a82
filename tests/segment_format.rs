use lsm_write_path::segment::{decode_segment, encode_segment, SegmentCounter};
use lsm_write_path::write_path::LogEntry;

fn entry(k: &[u8], v: &[u8]) -> LogEntry {
    LogEntry { key: k.to_vec(), value: v.to_vec() }
}

#[test]
fn record_layout_is_length_prefixed_little_endian() {
    let bytes = encode_segment(&vec![entry(b"ab", b"xyz"), entry(b"", b"q")]).unwrap();
    assert_eq!(
        bytes,
        vec![2, 0, 0, 0, b'a', b'b', 3, 0, 0, 0, b'x', b'y', b'z', 0, 0, 0, 0, 1, 0, 0, 0, b'q']
    );
}

#[test]
fn long_lengths_use_all_four_bytes() {
    let value = vec![7u8; 0x0102];
    let bytes = encode_segment(&vec![entry(b"k", &value)]).unwrap();
    assert_eq!(&bytes[5..9], &[0x02, 0x01, 0, 0]);
    assert_eq!(bytes.len(), 4 + 1 + 4 + 0x0102);
    let back = decode_segment(&bytes).unwrap();
    assert_eq!(back[0].value, value);
}

#[test]
fn empty_segment_round_trips() {
    let bytes = encode_segment(&Vec::new()).unwrap();
    assert!(bytes.is_empty());
    assert_eq!(decode_segment(&bytes).unwrap().len(), 0);
}

#[test]
fn decoding_rejects_partial_records() {
    let bytes = encode_segment(&vec![entry(b"key", b"value")]).unwrap();
    for cut in 1..bytes.len() {
        assert!(decode_segment(&bytes[..cut].to_vec()).is_none(), "cut at {}", cut);
    }
    let mut longer = bytes.clone();
    longer.push(0);
    assert!(decode_segment(&longer).is_none());
}

#[test]
fn decoding_reads_back_every_record() {
    let entries = vec![entry(b"k1", b"v1"), entry(b"k1", b""), entry(b"", b"")];
    let back = decode_segment(&encode_segment(&entries).unwrap()).unwrap();
    assert_eq!(back.len(), 3);
    for (a, b) in back.iter().zip(entries.iter()) {
        assert_eq!(a.key, b.key);
        assert_eq!(a.value, b.value);
    }
}

#[test]
fn counter_counts_up_from_zero() {
    let mut c = SegmentCounter::new();
    assert_eq!(c.allocate(), Some(0));
    assert_eq!(c.allocate(), Some(1));
    assert_eq!(c.allocate(), Some(2));
}
