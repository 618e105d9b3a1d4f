//! The values that the engine stores: states, blocks and sidecars, each with
//! the bytes it is stored as.

use vstd::prelude::*;
use crate::cache::CacheValue;
use crate::metrics::add_saturating;
use crate::wire::{
    u64_bytes, u64_at, put_u64, put_bytes, read_u64, copy_range, copy_bytes, lemma_u64_round_trip,
    lemma_u64_bytes_of_u64_at,
};

verus! {

/// The number of bytes before the data of a stored state.
pub const STATE_HEADER_LEN: usize = 16;

/// The number of bytes before the payload of a stored block.
pub const BLOCK_HEADER_LEN: usize = 24;

/// A chain state in memory.
#[derive(Clone, Debug, PartialEq, Eq)]
pub struct BeaconState {
    pub slot: u64,
    pub root: u64,
    pub data: Vec<u8>,
}

/// The mathematical value of a [`BeaconState`].
pub struct StateView {
    pub slot: u64,
    pub root: u64,
    pub data: Seq<u8>,
}

impl View for BeaconState {
    type V = StateView;

    open spec fn view(&self) -> StateView {
        StateView { slot: self.slot, root: self.root, data: self.data@ }
    }
}

/// A block in memory.
#[derive(Clone, Debug, PartialEq, Eq)]
pub struct Block {
    pub slot: u64,
    pub root: u64,
    pub parent_root: u64,
    pub payload: Vec<u8>,
}

/// The mathematical value of a [`Block`].
pub struct BlockView {
    pub slot: u64,
    pub root: u64,
    pub parent_root: u64,
    pub payload: Seq<u8>,
}

impl View for Block {
    type V = BlockView;

    open spec fn view(&self) -> BlockView {
        BlockView {
            slot: self.slot,
            root: self.root,
            parent_root: self.parent_root,
            payload: self.payload@,
        }
    }
}

/// The sidecars of one block, blobs or data columns, in their stored form.
#[derive(Clone, Debug, PartialEq, Eq)]
pub struct SidecarList {
    pub bytes: Vec<u8>,
}

impl View for SidecarList {
    type V = Seq<u8>;

    open spec fn view(&self) -> Seq<u8> {
        self.bytes@
    }
}

/// The bytes that a state is stored as: slot, root, data.
pub open spec fn state_bytes(s: StateView) -> Seq<u8> {
    u64_bytes(s.slot) + u64_bytes(s.root) + s.data
}

/// The state that `bytes` are the stored form of, where they are one.
pub open spec fn state_of(bytes: Seq<u8>) -> Option<StateView> {
    if bytes.len() < STATE_HEADER_LEN {
        None
    } else {
        Some(
            StateView {
                slot: u64_at(bytes, 0),
                root: u64_at(bytes, 8),
                data: bytes.skip(STATE_HEADER_LEN as int),
            },
        )
    }
}

/// The bytes that a block is stored as: slot, root, parent root, payload.
pub open spec fn block_bytes(b: BlockView) -> Seq<u8> {
    u64_bytes(b.slot) + u64_bytes(b.root) + u64_bytes(b.parent_root) + b.payload
}

/// The block that `bytes` are the stored form of, where they are one.
pub open spec fn block_of(bytes: Seq<u8>) -> Option<BlockView> {
    if bytes.len() < BLOCK_HEADER_LEN {
        None
    } else {
        Some(
            BlockView {
                slot: u64_at(bytes, 0),
                root: u64_at(bytes, 8),
                parent_root: u64_at(bytes, 16),
                payload: bytes.skip(BLOCK_HEADER_LEN as int),
            },
        )
    }
}

/// A state read back from its stored form is the same state.
pub proof fn lemma_state_round_trip(s: StateView)
    ensures
        state_of(state_bytes(s)) == Some(s),
{
    let bytes = state_bytes(s);
    lemma_u64_round_trip(Seq::empty(), s.slot, u64_bytes(s.root) + s.data);
    lemma_u64_round_trip(u64_bytes(s.slot), s.root, s.data);
    assert(Seq::<u8>::empty() + u64_bytes(s.slot) + (u64_bytes(s.root) + s.data) =~= bytes);
    assert(bytes.skip(STATE_HEADER_LEN as int) =~= s.data);
}

/// Bytes that are the stored form of a state are the stored form of the state
/// that is read from them.
pub proof fn lemma_state_bytes_of_state(bytes: Seq<u8>)
    requires
        bytes.len() >= STATE_HEADER_LEN,
    ensures
        state_bytes(state_of(bytes).unwrap()) == bytes,
{
    lemma_u64_bytes_of_u64_at(bytes, 0);
    lemma_u64_bytes_of_u64_at(bytes, 8);
    assert(bytes.subrange(0, 8) + bytes.subrange(8, 16) + bytes.skip(16) =~= bytes);
}

/// A block read back from its stored form is the same block.
pub proof fn lemma_block_round_trip(b: BlockView)
    ensures
        block_of(block_bytes(b)) == Some(b),
{
    let bytes = block_bytes(b);
    lemma_u64_round_trip(Seq::empty(), b.slot, u64_bytes(b.root) + u64_bytes(b.parent_root) + b.payload);
    lemma_u64_round_trip(u64_bytes(b.slot), b.root, u64_bytes(b.parent_root) + b.payload);
    lemma_u64_round_trip(u64_bytes(b.slot) + u64_bytes(b.root), b.parent_root, b.payload);
    assert(Seq::<u8>::empty() + u64_bytes(b.slot) + (u64_bytes(b.root) + u64_bytes(b.parent_root)
        + b.payload) =~= bytes);
    assert(u64_bytes(b.slot) + u64_bytes(b.root) + (u64_bytes(b.parent_root) + b.payload)
        =~= bytes);
    assert(bytes.skip(BLOCK_HEADER_LEN as int) =~= b.payload);
}

impl BeaconState {
    /// The stored form of the state.
    pub fn encode(&self) -> (out: Vec<u8>)
        ensures
            out@ == state_bytes(self@),
    {
        let mut out: Vec<u8> = Vec::new();
        put_u64(&mut out, self.slot);
        put_u64(&mut out, self.root);
        put_bytes(&mut out, self.data.as_slice());
        assert(out@ =~= state_bytes(self@));
        out
    }

    /// The state that `bytes` are the stored form of.
    pub fn decode(bytes: &[u8]) -> (r: Option<BeaconState>)
        ensures
            r is Some <==> state_of(bytes@) is Some,
            r is Some ==> r.unwrap()@ == state_of(bytes@).unwrap(),
    {
        if bytes.len() < STATE_HEADER_LEN {
            return None;
        }
        let slot = read_u64(bytes, 0).unwrap();
        let root = read_u64(bytes, 8).unwrap();
        let data = copy_range(bytes, STATE_HEADER_LEN, bytes.len());
        Some(BeaconState { slot, root, data })
    }
}

impl Block {
    /// The stored form of the block.
    pub fn encode(&self) -> (out: Vec<u8>)
        ensures
            out@ == block_bytes(self@),
    {
        let mut out: Vec<u8> = Vec::new();
        put_u64(&mut out, self.slot);
        put_u64(&mut out, self.root);
        put_u64(&mut out, self.parent_root);
        put_bytes(&mut out, self.payload.as_slice());
        assert(out@ =~= block_bytes(self@));
        out
    }

    /// The block that `bytes` are the stored form of.
    pub fn decode(bytes: &[u8]) -> (r: Option<Block>)
        ensures
            r is Some <==> block_of(bytes@) is Some,
            r is Some ==> r.unwrap()@ == block_of(bytes@).unwrap(),
    {
        if bytes.len() < BLOCK_HEADER_LEN {
            return None;
        }
        let slot = read_u64(bytes, 0).unwrap();
        let root = read_u64(bytes, 8).unwrap();
        let parent_root = read_u64(bytes, 16).unwrap();
        let payload = copy_range(bytes, BLOCK_HEADER_LEN, bytes.len());
        Some(Block { slot, root, parent_root, payload })
    }
}

/// The size that `len` bytes after a header of `header` bytes are accounted
/// with.
pub open spec fn sized(header: u64, len: nat) -> u64 {
    if header + len > u64::MAX {
        u64::MAX
    } else {
        (header + len) as u64
    }
}

impl CacheValue for BeaconState {
    open spec fn spec_byte_size(v: StateView) -> u64 {
        sized(STATE_HEADER_LEN as u64, v.data.len())
    }

    fn byte_size(&self) -> (n: u64) {
        add_saturating(STATE_HEADER_LEN as u64, self.data.len() as u64)
    }

    fn duplicate(&self) -> (c: BeaconState) {
        BeaconState { slot: self.slot, root: self.root, data: copy_bytes(self.data.as_slice()) }
    }
}

impl CacheValue for Block {
    open spec fn spec_byte_size(v: BlockView) -> u64 {
        sized(BLOCK_HEADER_LEN as u64, v.payload.len())
    }

    fn byte_size(&self) -> (n: u64) {
        add_saturating(BLOCK_HEADER_LEN as u64, self.payload.len() as u64)
    }

    fn duplicate(&self) -> (c: Block) {
        Block {
            slot: self.slot,
            root: self.root,
            parent_root: self.parent_root,
            payload: copy_bytes(self.payload.as_slice()),
        }
    }
}

impl CacheValue for SidecarList {
    open spec fn spec_byte_size(v: Seq<u8>) -> u64 {
        sized(0, v.len())
    }

    fn byte_size(&self) -> (n: u64) {
        add_saturating(0, self.bytes.len() as u64)
    }

    fn duplicate(&self) -> (c: SidecarList) {
        SidecarList { bytes: copy_bytes(self.bytes.as_slice()) }
    }
}

} // verus!
