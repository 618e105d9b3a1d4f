use store::hdiff::{compute_diff, HDiffBuffer, Segment};
use store::cache::CacheValue;

fn sample_base() -> Vec<u8> {
    vec![1, 2, 3, 4, 5]
}

fn sample_target() -> Vec<u8> {
    vec![1, 2, 9, 9, 5, 6]
}

#[test]
fn diff_round_trip_yields_target() {
    let base = sample_base();
    let target = sample_target();
    let d = compute_diff(10, 20, &base, &target);
    assert_eq!(d.apply(&base), Some(target));
}

#[test]
fn diff_segments_are_the_runs_of_the_comparison() {
    let d = compute_diff(10, 20, &sample_base(), &sample_target());
    assert_eq!(d.base_slot, 10);
    assert_eq!(d.target_slot, 20);
    assert_eq!(d.base_len, 5);
    assert_eq!(
        d.segments,
        vec![
            Segment::Copy { start: 0, len: 2 },
            Segment::Insert { bytes: vec![9, 9] },
            Segment::Copy { start: 4, len: 1 },
            Segment::Insert { bytes: vec![6] },
        ]
    );
}

#[test]
fn diff_of_equal_states_carries_nothing() {
    let base = vec![7u8; 40];
    let d = compute_diff(1, 2, &base, &base);
    assert_eq!(d.segments, vec![Segment::Copy { start: 0, len: 40 }]);
    assert_eq!(d.apply(&base), Some(base.clone()));
}

#[test]
fn diff_to_empty_target_has_no_segments() {
    let base = sample_base();
    let d = compute_diff(1, 2, &base, &[]);
    assert!(d.segments.is_empty());
    assert_eq!(d.apply(&base), Some(Vec::new()));
}

#[test]
fn diff_from_empty_base_is_one_insert() {
    let target = sample_target();
    let d = compute_diff(1, 2, &[], &target);
    assert_eq!(d.segments, vec![Segment::Insert { bytes: target.clone() }]);
    assert_eq!(d.apply(&[]), Some(target));
}

#[test]
fn diff_to_shorter_target_copies_a_prefix() {
    let base = sample_base();
    let d = compute_diff(1, 2, &base, &base[..3]);
    assert_eq!(d.segments, vec![Segment::Copy { start: 0, len: 3 }]);
    assert_eq!(d.apply(&base), Some(vec![1, 2, 3]));
}

#[test]
fn diff_is_deterministic() {
    let a = compute_diff(3, 4, &sample_base(), &sample_target());
    let b = compute_diff(3, 4, &sample_base(), &sample_target());
    assert_eq!(a, b);
}

#[test]
fn diff_does_not_apply_to_a_base_of_another_length() {
    let d = compute_diff(1, 2, &sample_base(), &sample_target());
    assert_eq!(d.apply(&[1, 2, 3, 4]), None);
    assert_eq!(d.apply(&[1, 2, 3, 4, 5, 6]), None);
}

#[test]
fn diff_with_copy_out_of_range_does_not_apply() {
    let d = HDiffBuffer {
        base_slot: 0,
        target_slot: 1,
        base_len: 3,
        segments: vec![Segment::Copy { start: 2, len: 2 }],
    };
    assert_eq!(d.apply(&[1, 2, 3]), None);
    let huge = HDiffBuffer {
        base_slot: 0,
        target_slot: 1,
        base_len: 3,
        segments: vec![Segment::Copy { start: u64::MAX, len: u64::MAX }],
    };
    assert_eq!(huge.apply(&[1, 2, 3]), None);
}

#[test]
fn diff_applies_segments_that_are_not_positional() {
    let d = HDiffBuffer {
        base_slot: 0,
        target_slot: 1,
        base_len: 3,
        segments: vec![
            Segment::Copy { start: 1, len: 2 },
            Segment::Insert { bytes: vec![8] },
            Segment::Copy { start: 0, len: 1 },
        ],
    };
    assert_eq!(d.apply(&[1, 2, 3]), Some(vec![2, 3, 8, 1]));
}

#[test]
fn diff_encoding_round_trip() {
    let d = compute_diff(10, 20, &sample_base(), &sample_target());
    let bytes = d.encode();
    // header, two copies, an insert of two bytes and one of one byte
    assert_eq!(bytes.len(), 32 + 17 + (9 + 2) + 17 + (9 + 1));
    assert_eq!(HDiffBuffer::decode(&bytes), Some(d));
}

#[test]
fn diff_encoding_is_exact() {
    let d = HDiffBuffer {
        base_slot: 1,
        target_slot: 2,
        base_len: 3,
        segments: vec![Segment::Copy { start: 4, len: 5 }, Segment::Insert { bytes: vec![0xaa] }],
    };
    let mut expected: Vec<u8> = Vec::new();
    for x in [1u64, 2, 3, 2] {
        expected.extend_from_slice(&x.to_le_bytes());
    }
    expected.push(0);
    expected.extend_from_slice(&4u64.to_le_bytes());
    expected.extend_from_slice(&5u64.to_le_bytes());
    expected.push(1);
    expected.extend_from_slice(&1u64.to_le_bytes());
    expected.push(0xaa);
    assert_eq!(d.encode(), expected);
}

#[test]
fn diff_decoding_rejects_malformed_bytes() {
    let d = compute_diff(10, 20, &sample_base(), &sample_target());
    let bytes = d.encode();
    // too short for a header
    assert_eq!(HDiffBuffer::decode(&bytes[..31]), None);
    // cut in the middle of a segment
    assert_eq!(HDiffBuffer::decode(&bytes[..bytes.len() - 1]), None);
    // bytes after the last segment
    let mut longer = bytes.clone();
    longer.push(0);
    assert_eq!(HDiffBuffer::decode(&longer), None);
    // an unknown kind of segment
    let mut unknown = bytes.clone();
    unknown[32] = 7;
    assert_eq!(HDiffBuffer::decode(&unknown), None);
    // more segments announced than present
    let mut more = bytes.clone();
    more[24] = 5;
    assert_eq!(HDiffBuffer::decode(&more), None);
}

#[test]
fn diff_byte_size_counts_header_and_segments() {
    let d = compute_diff(10, 20, &sample_base(), &sample_target());
    assert_eq!(d.byte_size(), 32 + 17 + 11 + 17 + 10);
    assert_eq!(d.duplicate(), d);
}
