use store::codec::{checksum_of, compress, decompress};
use store::error::StoreError;

#[test]
fn checksum_of_small_inputs() {
    assert_eq!(checksum_of(&[]), 0);
    assert_eq!(checksum_of(&[5]), 5);
    assert_eq!(checksum_of(&[1, 1, 1, 2]), 30785);
}

#[test]
fn checksum_wraps_around() {
    let data = vec![255u8; 64];
    let mut expected: u64 = 0;
    for b in &data {
        expected = expected.wrapping_mul(31).wrapping_add(*b as u64);
    }
    assert_eq!(checksum_of(&data), expected);
}

#[test]
fn compress_frame_is_exact() {
    let frame = compress(&[1, 1, 1, 2]);
    let mut expected: Vec<u8> = Vec::new();
    expected.extend_from_slice(&30785u64.to_le_bytes());
    expected.extend_from_slice(&4u64.to_le_bytes());
    expected.extend_from_slice(&[3, 1, 1, 2]);
    assert_eq!(frame, expected);
}

#[test]
fn compress_of_nothing_is_a_bare_header() {
    let frame = compress(&[]);
    assert_eq!(frame, vec![0u8; 16]);
    assert_eq!(decompress(&frame), Ok(Vec::new()));
}

#[test]
fn compress_splits_long_runs() {
    let data = vec![9u8; 600];
    let frame = compress(&data);
    assert_eq!(&frame[16..], &[255, 9, 255, 9, 90, 9]);
    assert_eq!(decompress(&frame), Ok(data));
}

#[test]
fn compress_round_trip() {
    let mut data: Vec<u8> = Vec::new();
    for i in 0..2000u32 {
        data.push((i / 7 % 251) as u8);
    }
    assert_eq!(decompress(&compress(&data)), Ok(data));
}

#[test]
fn decompress_rejects_short_input() {
    assert_eq!(decompress(&[]), Err(StoreError::CorruptData));
    assert_eq!(decompress(&[0u8; 15]), Err(StoreError::CorruptData));
}

#[test]
fn decompress_rejects_wrong_checksum() {
    let mut frame = compress(&[1, 2, 3]);
    frame[0] ^= 1;
    assert_eq!(decompress(&frame), Err(StoreError::CorruptData));
}

#[test]
fn decompress_rejects_wrong_length() {
    let mut frame = compress(&[1, 2, 3]);
    frame[8] = 2;
    assert_eq!(decompress(&frame), Err(StoreError::CorruptData));
    frame[8] = 4;
    assert_eq!(decompress(&frame), Err(StoreError::CorruptData));
}

#[test]
fn decompress_rejects_changed_content() {
    let mut frame = compress(&[1, 2, 3]);
    let last = frame.len() - 1;
    frame[last] = 4;
    assert_eq!(decompress(&frame), Err(StoreError::CorruptData));
}

#[test]
fn decompress_rejects_malformed_runs() {
    let good = compress(&[1, 2, 3]);
    // half a pair
    let mut odd = good.clone();
    odd.push(1);
    assert_eq!(decompress(&odd), Err(StoreError::CorruptData));
    // a run of no bytes
    let mut zero = good.clone();
    zero[16] = 0;
    assert_eq!(decompress(&zero), Err(StoreError::CorruptData));
}

#[test]
fn decompress_stops_at_the_stated_length() {
    // a frame that states one byte and holds runs for many
    let mut frame: Vec<u8> = Vec::new();
    frame.extend_from_slice(&0u64.to_le_bytes());
    frame.extend_from_slice(&1u64.to_le_bytes());
    for _ in 0..1000 {
        frame.extend_from_slice(&[255, 0]);
    }
    assert_eq!(decompress(&frame), Err(StoreError::CorruptData));
}
