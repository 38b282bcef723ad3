use crossbeam_skiplist::SkipMap;
use mini_lsm::wal::{decode_log, encode_record, recover_into, WalError};

fn bytes_of(s: &str) -> Vec<u8> {
    s.as_bytes().to_vec()
}

fn log_of(records: &[(&str, &str)]) -> Vec<u8> {
    let mut buf = Vec::new();
    for (k, v) in records {
        buf.extend_from_slice(&encode_record(&bytes_of(k), &bytes_of(v)));
    }
    buf
}

#[test]
fn encode_record_exact_bytes() {
    let r = encode_record(&bytes_of("ab"), &bytes_of("xyz"));
    assert_eq!(
        r,
        vec![0, 0, 0, 2, b'a', b'b', 0, 0, 0, 3, b'x', b'y', b'z']
    );
}

#[test]
fn encode_record_empty_key_and_value() {
    let r = encode_record(&Vec::new(), &Vec::new());
    assert_eq!(r, vec![0, 0, 0, 0, 0, 0, 0, 0]);
}

#[test]
fn decode_empty_log_is_ok_and_empty() {
    let records = decode_log(&Vec::new()).unwrap();
    assert!(records.is_empty());
}

#[test]
fn decode_round_trip_preserves_records_in_order() {
    let buf = log_of(&[("k1", "v1"), ("k2", "v2"), ("k1", "v3"), ("", "empty-key")]);
    let records = decode_log(&buf).unwrap();
    assert_eq!(records.len(), 4);
    assert_eq!(records[0], (bytes_of("k1"), bytes_of("v1")));
    assert_eq!(records[1], (bytes_of("k2"), bytes_of("v2")));
    assert_eq!(records[2], (bytes_of("k1"), bytes_of("v3")));
    assert_eq!(records[3], (Vec::new(), bytes_of("empty-key")));
}

#[test]
fn recover_replays_with_last_write_winning() {
    let buf = log_of(&[("k1", "v1"), ("k2", "v2"), ("k1", "v3")]);
    let map: SkipMap<Vec<u8>, Vec<u8>> = SkipMap::new();
    {
        let mut m = map;
        recover_into(&buf, &mut m).unwrap();
        assert_eq!(m.get(&bytes_of("k1")).unwrap().value(), &bytes_of("v3"));
        assert_eq!(m.get(&bytes_of("k2")).unwrap().value(), &bytes_of("v2"));
        assert!(m.get(&bytes_of("k3")).is_none());
        assert_eq!(m.len(), 2);
    }
}

#[test]
fn recover_of_corrupt_log_leaves_map_untouched() {
    let mut buf = log_of(&[("k1", "v1"), ("k2", "v2")]);
    buf.pop();
    let map: SkipMap<Vec<u8>, Vec<u8>> = SkipMap::new();
    let mut m = map;
    assert_eq!(recover_into(&buf, &mut m), Err(WalError::Corrupted));
    assert_eq!(m.len(), 0);
}

#[test]
fn truncation_inside_final_record_is_detected() {
    let prefix = log_of(&[("key-one", "value-one")]);
    let full = log_of(&[("key-one", "value-one"), ("key-two", "value-two")]);
    // cutting anywhere strictly inside the final record must fail
    for cut in (prefix.len() + 1)..full.len() {
        let truncated = full[..cut].to_vec();
        assert!(
            decode_log(&truncated).is_err(),
            "truncation to {} bytes went undetected",
            cut
        );
    }
}

#[test]
fn truncation_at_record_boundary_drops_whole_record() {
    // with no checksum, losing exactly the whole final record is invisible
    let prefix = log_of(&[("k1", "v1")]);
    let full = log_of(&[("k1", "v1"), ("k2", "v2")]);
    let truncated = full[..prefix.len()].to_vec();
    let records = decode_log(&truncated).unwrap();
    assert_eq!(records.len(), 1);
    assert_eq!(records[0], (bytes_of("k1"), bytes_of("v1")));
}

#[test]
fn short_buffer_is_corrupted_error() {
    assert_eq!(decode_log(&vec![0, 0]), Err(WalError::Corrupted));
    // declared key length larger than what follows
    assert_eq!(decode_log(&vec![0, 0, 0, 9, b'a']), Err(WalError::Corrupted));
}
