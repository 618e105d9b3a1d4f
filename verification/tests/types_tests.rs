use store::cache::CacheValue;
use store::stored::Stored;
use store::types::{BeaconState, Block, SidecarList};

#[test]
fn state_stored_form_is_exact() {
    let s = BeaconState { slot: 0x0102, root: 0xff, data: vec![9, 8] };
    let bytes = s.encode();
    assert_eq!(
        bytes,
        vec![2, 1, 0, 0, 0, 0, 0, 0, 0xff, 0, 0, 0, 0, 0, 0, 0, 9, 8]
    );
    assert_eq!(BeaconState::decode(&bytes), Some(s));
}

#[test]
fn state_decode_needs_a_header() {
    assert_eq!(BeaconState::decode(&[0u8; 15]), None);
    assert_eq!(
        BeaconState::decode(&[0u8; 16]),
        Some(BeaconState { slot: 0, root: 0, data: Vec::new() })
    );
}

#[test]
fn block_stored_form_is_exact() {
    let b = Block { slot: 3, root: 4, parent_root: 5, payload: vec![6] };
    let bytes = b.encode();
    let mut expected: Vec<u8> = Vec::new();
    expected.extend_from_slice(&3u64.to_le_bytes());
    expected.extend_from_slice(&4u64.to_le_bytes());
    expected.extend_from_slice(&5u64.to_le_bytes());
    expected.push(6);
    assert_eq!(bytes, expected);
    assert_eq!(Block::decode(&bytes), Some(b));
    assert_eq!(Block::decode(&bytes[..23]), None);
}

#[test]
fn values_know_their_size() {
    assert_eq!(BeaconState { slot: 1, root: 2, data: vec![0; 100] }.byte_size(), 116);
    assert_eq!(Block { slot: 1, root: 2, parent_root: 3, payload: Vec::new() }.byte_size(), 24);
    assert_eq!(SidecarList { bytes: vec![0; 7] }.byte_size(), 7);
}

#[test]
fn stored_forms_read_back() {
    let s = BeaconState { slot: 11, root: 22, data: vec![1, 2, 3] };
    assert_eq!(BeaconState::from_stored(&s.to_stored()), Some(s.duplicate()));
    let b = Block { slot: 11, root: 22, parent_root: 21, payload: vec![1, 2, 3] };
    assert_eq!(Block::from_stored(&b.to_stored()), Some(b.duplicate()));
    let l = SidecarList { bytes: vec![5; 5] };
    assert_eq!(l.to_stored(), vec![5; 5]);
    assert_eq!(SidecarList::from_stored(&[5; 5]), Some(l));
}
