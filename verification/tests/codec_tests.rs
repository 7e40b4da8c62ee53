use usf::{delta_decode, delta_encode, encode_i64_seq, parse_i64_vec, StorageError};

#[test]
fn delta_round_trip_empty() {
    let xs: Vec<i64> = Vec::new();
    let enc = delta_encode(&xs);
    assert_eq!(enc.len(), 0);
    assert_eq!(delta_decode(&enc).unwrap(), xs);
}

#[test]
fn delta_round_trip_simple() {
    let xs: Vec<i64> = vec![100, 101, 102, 103];
    let enc = delta_encode(&xs);
    assert_eq!(enc.len(), 32);
    // first element verbatim, then the differences, little-endian
    assert_eq!(&enc[0..8], &100i64.to_le_bytes());
    assert_eq!(&enc[8..16], &1i64.to_le_bytes());
    assert_eq!(delta_decode(&enc).unwrap(), xs);
}

#[test]
fn delta_round_trip_extremes() {
    let xs: Vec<i64> = vec![i64::MIN, i64::MAX, 0, -1, 1, i64::MAX, i64::MIN, 42];
    let dec = delta_decode(&delta_encode(&xs)).unwrap();
    assert_eq!(dec, xs);
}

#[test]
fn delta_round_trip_long() {
    let mut xs: Vec<i64> = Vec::new();
    let mut v: i64 = -5_000;
    for i in 0..10_000i64 {
        v = v.wrapping_add(i.wrapping_mul(7_777_777_777));
        xs.push(v);
    }
    let dec = delta_decode(&delta_encode(&xs)).unwrap();
    assert_eq!(dec, xs);
}

#[test]
fn delta_decode_rejects_ragged_input() {
    let bytes: Vec<u8> = vec![1, 2, 3, 4, 5];
    assert_eq!(delta_decode(&bytes).unwrap_err(), StorageError::Corruption);
}

#[test]
fn i64_sequence_encoding_round_trips() {
    let xs: Vec<i64> = vec![9, -9, 0, i64::MIN, i64::MAX];
    let enc = encode_i64_seq(&xs);
    assert_eq!(enc.len(), 8 + 8 * xs.len());
    assert_eq!(&enc[0..8], &(xs.len() as u64).to_le_bytes());
    let parsed = parse_i64_vec(&enc).unwrap();
    assert_eq!(parsed, xs);
}

#[test]
fn i64_sequence_parse_rejects_wrong_count() {
    let mut enc = encode_i64_seq(&vec![1i64, 2, 3]);
    enc[0] = 7;
    assert!(parse_i64_vec(&enc).is_none());
}
