//! Replay: bringing a state forward, slot by slot, by applying the block
//! stored for each slot through the state transition.
//!
//! The state transition is the caller's. Nothing is known of it but what it
//! promises of its own results, so what replay yields is stated relative to
//! it: the result is one that the transition's own promises allow, and where
//! those determine its results, it is the only such one.

use vstd::prelude::*;
use crate::cache::LruCache;
use crate::chain::gap;
use crate::column::Column;
use crate::column_store::ColumnStore;
use crate::error::{ReconstructionStep, StoreError};
use crate::kv::StoreMap;
use crate::metrics::{Counter, MetricsRegistry, saturating_sum};
use crate::stored::{coherent, stored_value, read_through};
use crate::types::{BeaconState, Block, BlockView, StateView};
use crate::wire::{u64_at, read_u64};

verus! {

/// The value of a state that may be absent.
pub open spec fn option_view(o: Option<BeaconState>) -> Option<StateView> {
    match o {
        Some(s) => Some(s@),
        None => None,
    }
}

/// The value of a state or an error.
pub open spec fn result_view(r: Result<BeaconState, StoreError>) -> Result<StateView, StoreError> {
    match r {
        Ok(s) => Ok(s@),
        Err(e) => Err(e),
    }
}

/// The block of `slot`: the block under the root that the index of block
/// roots holds for `slot`.
///
/// `NotFound` where the index has no root for the slot or no block is stored
/// under the root; `CorruptData` where the entry of the index is not a root,
/// the block cannot be decoded, or it is not the block of that root and slot.
pub open spec fn block_at(hot: StoreMap, slot: u64) -> Result<BlockView, StoreError> {
    if !hot.contains_key((Column::BlockRoots, slot)) {
        Err(StoreError::NotFound)
    } else if hot[(Column::BlockRoots, slot)].len() != 8 {
        Err(StoreError::CorruptData)
    } else {
        let root = u64_at(hot[(Column::BlockRoots, slot)], 0);
        match stored_value::<Block>(hot, Column::Block, root) {
            Err(e) => Err(e),
            Ok(block) => if block.slot != slot || block.root != root {
                Err(StoreError::CorruptData)
            } else {
                Ok(block)
            },
        }
    }
}

/// Loads the block of `slot` (see [`block_at`]), through the block cache.
pub fn load_block_at(
    hot: &ColumnStore,
    cache: &mut LruCache<Block>,
    metrics: &mut MetricsRegistry,
    slot: u64,
) -> (r: Result<Block, StoreError>)
    requires
        hot.wf(),
        old(cache).wf(),
        coherent::<Block>(old(cache)@.entries, hot@, Column::Block),
    ensures
        final(cache).wf(),
        coherent::<Block>(final(cache)@.entries, hot@, Column::Block),
        final(cache)@.max_items == old(cache)@.max_items,
        final(cache)@.max_bytes == old(cache)@.max_bytes,
        match block_at(hot@, slot) {
            Ok(block) => r is Ok && r.unwrap()@ == block,
            Err(e) => r == Err::<Block, StoreError>(e),
        },
        final(metrics)@.not_below(old(metrics)@),
        final(metrics)@.counters == old(metrics)@.counters,
        final(metrics)@.gauges == old(metrics)@.gauges,
{
    let entry = match hot.get(metrics, Column::BlockRoots, slot) {
        None => {
            return Err(StoreError::NotFound);
        },
        Some(entry) => entry,
    };
    if entry.len() != 8 {
        return Err(StoreError::CorruptData);
    }
    let root: u64 = read_u64(entry.as_slice(), 0).unwrap();
    let (found, hit) = read_through(cache, hot, metrics, Column::Block, root);
    match found {
        Err(e) => Err(e),
        Ok(block) => {
            if block.slot != slot || block.root != root {
                Err(StoreError::CorruptData)
            } else {
                Ok(block)
            }
        },
    }
}

/// What replay makes of the transition's answer for the block of `slot`,
/// applied to the state at `reached`: the new state, where there is one and
/// it is a state of `slot`; else a reconstruction error at `ApplyBlock` that
/// names `reached`.
pub open spec fn step_result(out: Option<StateView>, reached: u64, slot: u64, target: u64) -> Result<
    StateView,
    StoreError,
> {
    match out {
        None => Err(gap(ReconstructionStep::ApplyBlock, reached, target)),
        Some(next) => if next.slot != slot {
            Err(gap(ReconstructionStep::ApplyBlock, reached, target))
        } else {
            Ok(next)
        },
    }
}

/// Judges the transition's answer (see [`step_result`]).
pub fn check_transition(out: Option<BeaconState>, reached: u64, slot: u64, target: u64) -> (r:
    Result<BeaconState, StoreError>)
    ensures
        result_view(r) == step_result(option_view(out), reached, slot, target),
{
    match out {
        None => Err(
            StoreError::ReconstructionError {
                step: ReconstructionStep::ApplyBlock,
                slot: reached,
                target,
            },
        ),
        Some(next) => {
            if next.slot != slot {
                Err(
                    StoreError::ReconstructionError {
                        step: ReconstructionStep::ApplyBlock,
                        slot: reached,
                        target,
                    },
                )
            } else {
                Ok(next)
            }
        },
    }
}

/// Whether the transition `f`, by its own promises, may answer `out` when it
/// is given a state of value `state` and a block of value `block`.
pub open spec fn transition_yields<F: Fn(&BeaconState, &Block) -> Option<BeaconState>>(
    f: F,
    state: StateView,
    block: BlockView,
    out: Option<StateView>,
) -> bool {
    exists|s: BeaconState, b: Block, o: Option<BeaconState>|
        s@ == state && b@ == block && option_view(o) == out && #[trigger] call_ensures(
            f,
            (&s, &b),
            o,
        )
}

/// Whether the transition `f` accepts every state and block.
pub open spec fn transition_total<F: Fn(&BeaconState, &Block) -> Option<BeaconState>>(
    f: F,
) -> bool {
    forall|s: &BeaconState, b: &Block| #[trigger] call_requires(f, (s, b))
}

/// Whether `result` is an outcome of replaying, from the state `cur`, the
/// blocks of the slots after it up to `target`.
///
/// At `target` or beyond, the outcome is `cur`. Before, the block of the next
/// slot is applied: where it is absent the outcome is a reconstruction error
/// at `LoadBlock` that names the slot reached; where it cannot be read, that
/// error; where the transition has no state of the next slot for it, a
/// reconstruction error at `ApplyBlock`; and else replay goes on from the
/// new state.
pub open spec fn replayed<F: Fn(&BeaconState, &Block) -> Option<BeaconState>>(
    hot: StoreMap,
    f: F,
    cur: StateView,
    target: u64,
    result: Result<StateView, StoreError>,
) -> bool
    decreases target - cur.slot,
{
    if cur.slot >= target {
        result == Ok::<StateView, StoreError>(cur)
    } else {
        let slot = (cur.slot + 1) as u64;
        match block_at(hot, slot) {
            Err(StoreError::NotFound) => result == Err::<StateView, StoreError>(
                gap(ReconstructionStep::LoadBlock, cur.slot, target),
            ),
            Err(e) => result == Err::<StateView, StoreError>(e),
            Ok(block) => exists|out: Option<StateView>| #[trigger]
                transition_yields(f, cur, block, out) && (match out {
                    None => result == Err::<StateView, StoreError>(
                        gap(ReconstructionStep::ApplyBlock, cur.slot, target),
                    ),
                    Some(next) => if next.slot != slot {
                        result == Err::<StateView, StoreError>(
                            gap(ReconstructionStep::ApplyBlock, cur.slot, target),
                        )
                    } else {
                        replayed(hot, f, next, target, result)
                    },
                }),
        }
    }
}

/// The number of blocks that a replay from `from` to `target` applies.
pub open spec fn blocks_between(from: u64, target: u64) -> u64 {
    if target > from {
        (target - from) as u64
    } else {
        0
    }
}

/// Replay goes through the answer of the transition: where the block of the
/// next slot is `block` and the transition may answer `out` for it, every
/// outcome of what follows is an outcome of the replay from `cur`.
pub proof fn lemma_replayed_step<F: Fn(&BeaconState, &Block) -> Option<BeaconState>>(
    hot: StoreMap,
    f: F,
    cur: StateView,
    target: u64,
    block: BlockView,
    out: Option<StateView>,
    result: Result<StateView, StoreError>,
)
    requires
        cur.slot < target,
        block_at(hot, (cur.slot + 1) as u64) == Ok::<BlockView, StoreError>(block),
        transition_yields(f, cur, block, out),
        match step_result(out, cur.slot, (cur.slot + 1) as u64, target) {
            Err(e) => result == Err::<StateView, StoreError>(e),
            Ok(next) => replayed(hot, f, next, target, result),
        },
    ensures
        replayed(hot, f, cur, target, result),
{
}

/// Replays the blocks of the slots after `start` up to `target` (see
/// [`replayed`]). Each block applied adds one to the count of replayed
/// blocks.
pub fn replay_blocks<F: Fn(&BeaconState, &Block) -> Option<BeaconState>>(
    hot: &ColumnStore,
    cache: &mut LruCache<Block>,
    metrics: &mut MetricsRegistry,
    transition: &F,
    start: BeaconState,
    target: u64,
) -> (r: Result<BeaconState, StoreError>)
    requires
        hot.wf(),
        old(cache).wf(),
        coherent::<Block>(old(cache)@.entries, hot@, Column::Block),
        transition_total(*transition),
    ensures
        final(cache).wf(),
        coherent::<Block>(final(cache)@.entries, hot@, Column::Block),
        final(cache)@.max_items == old(cache)@.max_items,
        final(cache)@.max_bytes == old(cache)@.max_bytes,
        replayed(hot@, *transition, start@, target, result_view(r)),
        r is Ok ==> r.unwrap().slot == (if start.slot >= target {
            start.slot
        } else {
            target
        }),
        r is Ok ==> final(metrics)@.counter(Counter::ReplayedBlocks) == saturating_sum(
            old(metrics)@.counter(Counter::ReplayedBlocks),
            blocks_between(start.slot, target),
        ),
        final(metrics)@.not_below(old(metrics)@),
        final(metrics)@.gauges == old(metrics)@.gauges,
        forall|c: Counter|
            c != Counter::ReplayedBlocks ==> #[trigger] final(metrics)@.counters[c] == old(
                metrics,
            )@.counters[c],
{
    let ghost first = start@;
    let ghost m0 = metrics@;
    let mut cur = start;
    while cur.slot < target
        invariant
            hot.wf(),
            cache.wf(),
            coherent::<Block>(cache@.entries, hot@, Column::Block),
            cache@.max_items == old(cache)@.max_items,
            cache@.max_bytes == old(cache)@.max_bytes,
            transition_total(*transition),
            m0 == old(metrics)@,
            metrics@.not_below(m0),
            metrics@.gauges == m0.gauges,
            forall|c: Counter|
                c != Counter::ReplayedBlocks ==> #[trigger] metrics@.counters[c] == m0.counters[c],
            first == start@,
            first.slot >= target ==> cur@ == first && metrics@ == m0,
            first.slot < target ==> first.slot <= cur.slot <= target,
            first.slot < target ==> metrics@.counter(Counter::ReplayedBlocks) == saturating_sum(
                m0.counter(Counter::ReplayedBlocks),
                (cur.slot - first.slot) as u64,
            ),
            forall|res: Result<StateView, StoreError>| #[trigger]
                replayed(hot@, *transition, cur@, target, res) ==> replayed(
                    hot@,
                    *transition,
                    first,
                    target,
                    res,
                ),
        decreases target - cur.slot,
    {
        let ghost here = cur@;
        let slot: u64 = cur.slot + 1;
        let block = match load_block_at(hot, cache, metrics, slot) {
            Err(e) => {
                match e {
                    StoreError::NotFound => {
                        let ghost res = Err::<StateView, StoreError>(
                            gap(ReconstructionStep::LoadBlock, cur.slot, target),
                        );
                        assert(replayed(hot@, *transition, here, target, res));
                        return Err(
                            StoreError::ReconstructionError {
                                step: ReconstructionStep::LoadBlock,
                                slot: cur.slot,
                                target,
                            },
                        );
                    },
                    other => {
                        assert(replayed(
                            hot@,
                            *transition,
                            here,
                            target,
                            Err::<StateView, StoreError>(other),
                        ));
                        return Err(other);
                    },
                }
            },
            Ok(block) => block,
        };
        let out = transition(&cur, &block);
        let ghost answer = option_view(out);
        proof {
            assert(transition_yields(*transition, here, block@, answer));
        }
        match check_transition(out, cur.slot, slot, target) {
            Err(e) => {
                proof {
                    lemma_replayed_step(
                        hot@,
                        *transition,
                        here,
                        target,
                        block@,
                        answer,
                        Err::<StateView, StoreError>(e),
                    );
                }
                return Err(e);
            },
            Ok(next) => {
                proof {
                    assert forall|res: Result<StateView, StoreError>| #[trigger]
                        replayed(hot@, *transition, next@, target, res) implies replayed(
                        hot@,
                        *transition,
                        first,
                        target,
                        res,
                    ) by {
                        lemma_replayed_step(hot@, *transition, here, target, block@, answer, res);
                    }
                }
                metrics.inc_counter(Counter::ReplayedBlocks);
                cur = next;
            },
        }
    }
    proof {
        assert(replayed(hot@, *transition, cur@, target, Ok::<StateView, StoreError>(cur@)));
    }
    Ok(cur)
}

/// Whether the promises of the transition `f` determine its answers: it
/// cannot, for states of one value and blocks of one value, answer with
/// states of two values.
pub open spec fn transition_functional<F: Fn(&BeaconState, &Block) -> Option<BeaconState>>(
    f: F,
) -> bool {
    forall|state: StateView, block: BlockView, a: Option<StateView>, b: Option<StateView>|
        #[trigger] transition_yields(f, state, block, a) && #[trigger] transition_yields(
            f,
            state,
            block,
            b,
        ) ==> a == b
}

/// Replay is deterministic: where the promises of the transition determine
/// its answers, replay from one state over one store has one outcome.
pub proof fn lemma_replayed_deterministic<F: Fn(&BeaconState, &Block) -> Option<BeaconState>>(
    hot: StoreMap,
    f: F,
    cur: StateView,
    target: u64,
    a: Result<StateView, StoreError>,
    b: Result<StateView, StoreError>,
)
    requires
        transition_functional(f),
        replayed(hot, f, cur, target, a),
        replayed(hot, f, cur, target, b),
    ensures
        a == b,
    decreases target - cur.slot,
{
    if cur.slot < target {
        let slot = (cur.slot + 1) as u64;
        match block_at(hot, slot) {
            Err(e) => {},
            Ok(block) => {
                let oa = choose|out: Option<StateView>| #[trigger]
                    transition_yields(f, cur, block, out) && (match out {
                        None => a == Err::<StateView, StoreError>(
                            gap(ReconstructionStep::ApplyBlock, cur.slot, target),
                        ),
                        Some(next) => if next.slot != slot {
                            a == Err::<StateView, StoreError>(
                                gap(ReconstructionStep::ApplyBlock, cur.slot, target),
                            )
                        } else {
                            replayed(hot, f, next, target, a)
                        },
                    });
                let ob = choose|out: Option<StateView>| #[trigger]
                    transition_yields(f, cur, block, out) && (match out {
                        None => b == Err::<StateView, StoreError>(
                            gap(ReconstructionStep::ApplyBlock, cur.slot, target),
                        ),
                        Some(next) => if next.slot != slot {
                            b == Err::<StateView, StoreError>(
                                gap(ReconstructionStep::ApplyBlock, cur.slot, target),
                            )
                        } else {
                            replayed(hot, f, next, target, b)
                        },
                    });
                assert(oa == ob);
                match oa {
                    None => {},
                    Some(next) => {
                        if next.slot == slot {
                            lemma_replayed_deterministic(hot, f, next, target, a, b);
                        }
                    },
                }
            },
        }
    }
}

/// Replay reads nothing but blocks and the index of their roots: over two
/// stores that hold the same in those two columns it has the same outcomes.
pub proof fn lemma_replayed_frame<F: Fn(&BeaconState, &Block) -> Option<BeaconState>>(
    a: StoreMap,
    b: StoreMap,
    f: F,
    cur: StateView,
    target: u64,
    result: Result<StateView, StoreError>,
)
    requires
        same_blocks(a, b),
        replayed(a, f, cur, target, result),
    ensures
        replayed(b, f, cur, target, result),
    decreases target - cur.slot,
{
    if cur.slot < target {
        let slot = (cur.slot + 1) as u64;
        lemma_block_at_frame(a, b, slot);
        match block_at(a, slot) {
            Err(e) => {},
            Ok(block) => {
                let out = choose|out: Option<StateView>| #[trigger]
                    transition_yields(f, cur, block, out) && (match out {
                        None => result == Err::<StateView, StoreError>(
                            gap(ReconstructionStep::ApplyBlock, cur.slot, target),
                        ),
                        Some(next) => if next.slot != slot {
                            result == Err::<StateView, StoreError>(
                                gap(ReconstructionStep::ApplyBlock, cur.slot, target),
                            )
                        } else {
                            replayed(a, f, next, target, result)
                        },
                    });
                match out {
                    None => {},
                    Some(next) => {
                        if next.slot == slot {
                            lemma_replayed_frame(a, b, f, next, target, result);
                        }
                    },
                }
            },
        }
    }
}

/// Whether two stores hold the same in `column`.
pub open spec fn same_column(a: StoreMap, b: StoreMap, column: Column) -> bool {
    forall|k: u64|
        (#[trigger] a.contains_key((column, k)) == b.contains_key((column, k))) && (a.contains_key(
            (column, k),
        ) ==> a[(column, k)] == b[(column, k)])
}

/// Whether two stores hold the same blocks and the same index of block
/// roots.
pub open spec fn same_blocks(a: StoreMap, b: StoreMap) -> bool {
    same_column(a, b, Column::Block) && same_column(a, b, Column::BlockRoots)
}

/// The block of a slot is the same over two stores that hold the same blocks
/// and the same index.
pub proof fn lemma_block_at_frame(a: StoreMap, b: StoreMap, slot: u64)
    requires
        same_blocks(a, b),
    ensures
        block_at(a, slot) == block_at(b, slot),
{
    assert(a.contains_key((Column::BlockRoots, slot)) == b.contains_key((Column::BlockRoots, slot)));
    if a.contains_key((Column::BlockRoots, slot)) && a[(Column::BlockRoots, slot)].len() == 8 {
        let root = u64_at(a[(Column::BlockRoots, slot)], 0);
        assert(a.contains_key((Column::Block, root)) == b.contains_key((Column::Block, root)));
    }
}

/// A replay that succeeds ends at the slot asked for, or where it started if
/// that is later.
pub proof fn lemma_replayed_slot<F: Fn(&BeaconState, &Block) -> Option<BeaconState>>(
    hot: StoreMap,
    f: F,
    cur: StateView,
    target: u64,
    end: StateView,
)
    requires
        replayed(hot, f, cur, target, Ok::<StateView, StoreError>(end)),
    ensures
        end.slot == (if cur.slot >= target {
            cur.slot
        } else {
            target
        }),
    decreases target - cur.slot,
{
    if cur.slot < target {
        let slot = (cur.slot + 1) as u64;
        let result = Ok::<StateView, StoreError>(end);
        match block_at(hot, slot) {
            Err(e) => {},
            Ok(block) => {
                let out = choose|out: Option<StateView>| #[trigger]
                    transition_yields(f, cur, block, out) && (match out {
                        None => result == Err::<StateView, StoreError>(
                            gap(ReconstructionStep::ApplyBlock, cur.slot, target),
                        ),
                        Some(next) => if next.slot != slot {
                            result == Err::<StateView, StoreError>(
                                gap(ReconstructionStep::ApplyBlock, cur.slot, target),
                            )
                        } else {
                            replayed(hot, f, next, target, result)
                        },
                    });
                match out {
                    None => {},
                    Some(next) => {
                        if next.slot == slot {
                            lemma_replayed_slot(hot, f, next, target, end);
                        }
                    },
                }
            },
        }
    }
}

} // verus!
