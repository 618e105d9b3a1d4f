//! The closed set of columns of the key-value layer.

use vstd::prelude::*;

verus! {

/// How many columns there are.
pub const COLUMN_COUNT: usize = 10;

/// A named column of the key-value layer.
#[derive(Clone, Copy, Debug, PartialEq, Eq, Structural)]
pub enum Column {
    /// Blocks, by block root.
    Block,
    /// Block roots, by slot.
    BlockRoots,
    /// Full states, by state root.
    State,
    /// The slot of each known state, by state root.
    StateSummary,
    /// The root of each state of the hot store, by slot.
    StateRoots,
    /// Blob sidecars, by block root.
    Blob,
    /// Data-column sidecars, by block root.
    DataColumn,
    /// Compressed full states, by slot.
    Snapshot,
    /// The slots at which a snapshot was taken.
    SnapshotIndex,
    /// Compressed state diffs, by the slot they lead to.
    Diff,
}

impl Column {
    /// The position of the column in per-column tables.
    pub open spec fn spec_index(self) -> nat {
        match self {
            Column::Block => 0,
            Column::BlockRoots => 1,
            Column::State => 2,
            Column::StateSummary => 3,
            Column::Blob => 4,
            Column::DataColumn => 5,
            Column::Snapshot => 6,
            Column::SnapshotIndex => 7,
            Column::Diff => 8,
            Column::StateRoots => 9,
        }
    }

    /// The position (see [`Self::spec_index`]).
    pub fn index(self) -> (i: usize)
        ensures
            i == self.spec_index(),
            i < COLUMN_COUNT,
    {
        match self {
            Column::Block => 0,
            Column::BlockRoots => 1,
            Column::State => 2,
            Column::StateSummary => 3,
            Column::Blob => 4,
            Column::DataColumn => 5,
            Column::Snapshot => 6,
            Column::SnapshotIndex => 7,
            Column::Diff => 8,
            Column::StateRoots => 9,
        }
    }

    /// The label under which the column's counters are exported.
    pub open spec fn spec_label(self) -> Seq<char> {
        match self {
            Column::Block => "blk"@,
            Column::BlockRoots => "bbr"@,
            Column::State => "ste"@,
            Column::StateSummary => "bss"@,
            Column::Blob => "blb"@,
            Column::DataColumn => "bdc"@,
            Column::Snapshot => "bsn"@,
            Column::SnapshotIndex => "bsi"@,
            Column::Diff => "bsd"@,
            Column::StateRoots => "bsr"@,
        }
    }

    /// The label (see [`Self::spec_label`]).
    pub fn label(self) -> (s: &'static str)
        ensures
            s@ == self.spec_label(),
    {
        match self {
            Column::Block => "blk",
            Column::BlockRoots => "bbr",
            Column::State => "ste",
            Column::StateSummary => "bss",
            Column::Blob => "blb",
            Column::DataColumn => "bdc",
            Column::Snapshot => "bsn",
            Column::SnapshotIndex => "bsi",
            Column::Diff => "bsd",
            Column::StateRoots => "bsr",
        }
    }
}

/// Different columns occupy different positions.
pub proof fn lemma_index_injective(a: Column, b: Column)
    requires
        a.spec_index() == b.spec_index(),
    ensures
        a == b,
{
}

} // verus!
