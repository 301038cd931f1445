use perlin::storage::StorageError;
use perlin::vbyte::{vbyte_decode, vbyte_encode, vbyte_write};

#[test]
fn vbyte_known_encodings() {
    assert_eq!(vbyte_encode(0), vec![0x80]);
    assert_eq!(vbyte_encode(127), vec![0xFF]);
    assert_eq!(vbyte_encode(128), vec![0x00, 0x81]);
    assert_eq!(vbyte_encode(300), vec![0x2C, 0x82]);
    assert_eq!(vbyte_encode(u64::MAX).len(), 10);
}

#[test]
fn vbyte_round_trip_and_lengths() {
    let values: Vec<u64> = vec![0, 1, 127, 128, 16383, 16384, 1 << 40, u64::MAX];
    let mut bytes = Vec::new();
    let mut total = 0;
    for v in values.iter() {
        let len = vbyte_encode(*v).len();
        let expected_len = if *v == 0 { 1 } else { (64 - v.leading_zeros() as usize + 6) / 7 };
        assert_eq!(len, expected_len);
        total += len;
        vbyte_write(*v, &mut bytes);
    }
    assert_eq!(bytes.len(), total);
    assert_eq!(vbyte_decode(&bytes), Ok(values));
}

#[test]
fn vbyte_decode_errors() {
    // ends in the middle of a number
    assert_eq!(vbyte_decode(&[0x80, 0x05]), Err(StorageError::ReadError));
    // a number beyond u64
    assert_eq!(vbyte_decode(&[0, 0, 0, 0, 0, 0, 0, 0, 0, 0x82]), Err(StorageError::ReadError));
    // zero groups of any weight are fine
    assert_eq!(vbyte_decode(&[0, 0, 0, 0, 0, 0, 0, 0, 0, 0, 0, 0x80]), Ok(vec![0]));
    assert_eq!(vbyte_decode(&[]), Ok(vec![]));
}
