//! The debank export of one block: block metadata, transactions, traces and
//! events of every transaction, storage contracts, the validation hash and the
//! hashed state diff.

use vstd::prelude::*;
use vstd::string::*;
use crate::arena::{
    arena_wf, build_debank_traces_from_arena, law_walk_node_keeps, new_indices_within, texts_view,
    walk_grows, walk_node, walk_state_of, CallTraceArena, WalkState,
};
use crate::bytes::{bytes32_eq, copy_bytes, u256_as_u64};
use crate::debank::{
    block_file_view_ids, empty_storage_diff_view, BlockFile, BlockFileView, BlockStorageDiff, BlockStorageDiffView,
    DebankBlock, DebankBlockView, DebankEvent, DebankEventView, DebankTrace, DebankTraceView,
    DebankTransaction, DebankTransactionView, H160, H256, U256,
};
use crate::hashing::{be_value, validation_hash_spec};
use crate::hexfmt::{format_address, format_hash, prefixed_hex};
use crate::parity::{
    all_of_tx, build_debank_traces_from_parity, failed_traces, lemma_parity_tx_id, lemma_split_tx_id,
    ok_traces, parity_fold,
    parity_gas_fits, sat_sub, TransactionExecTraces,
};
use crate::state_diff::{
    block_storage_diff_spec, build_block_storage_diff, new_nonces_fit, DebankStateDiff,
};

verus! {

/// What a transaction does: call an address, or create a contract.
pub enum TxAction {
    Call(H160),
    Create,
}

/// A transaction of a phantom block (the Ethereum-space view of an epoch).
pub struct PhantomTransaction {
    pub hash: H256,
    pub sender: H160,
    pub action: TxAction,
    pub gas_price: U256,
    pub max_priority_gas_price: U256,
    pub gas_limit: U256,
    pub data: Vec<u8>,
    pub nonce: U256,
    pub value: U256,
}

/// The receipt of a transaction.
pub struct PhantomReceipt {
    pub accumulated_gas_used: U256,
    pub success: bool,
}

/// A phantom block: its pivot header's fields, its transactions with their
/// receipts, and the parity trace of each transaction.
pub struct PhantomBlock {
    pub height: u64,
    pub hash: H256,
    pub parent_hash: H256,
    pub timestamp: u64,
    pub total_gas_limit: U256,
    pub author: H160,
    pub base_price: Option<U256>,
    pub transactions: Vec<PhantomTransaction>,
    pub receipts: Vec<PhantomReceipt>,
    pub traces: Vec<TransactionExecTraces>,
}

/// The call-trace arena of a transaction, recorded by re-executing its epoch.
pub struct RawDebankTrace {
    pub tx_hash: H256,
    pub is_ethereum_space: bool,
    pub arena: CallTraceArena,
}

/// The export of a block: its block file, validation hash and hashed state diff.
pub struct DebankBlockOutput {
    pub block_file: BlockFile,
    pub validation_hash: i64,
    pub storage_diff: BlockStorageDiff,
}

// ------------------------------------------------------------
// Specification
// ------------------------------------------------------------
// Laws over a whole block
// ------------------------------------------------------------

/// The events and error events carry the indices `0..n`, `n` being their total
/// number: every index lies below `n`, indices increase within each list, and
/// no index is in both lists (so each index below `n` occurs exactly once).
pub open spec fn events_indexed(events: Seq<DebankEventView>, error_events: Seq<DebankEventView>) -> bool {
    let n = (events.len() + error_events.len()) as int;
    &&& new_indices_within(seq![], events, 0, n)
    &&& new_indices_within(seq![], error_events, 0, n)
    &&& forall|k1: int, k2: int|
        0 <= k1 < events.len() && 0 <= k2 < error_events.len() ==> #[trigger] events[k1].idx
            != #[trigger] error_events[k2].idx
}

/// The indices of the events, then those of the error events.
pub open spec fn event_indices(events: Seq<DebankEventView>, error_events: Seq<DebankEventView>) -> Seq<int> {
    events.map_values(|e: DebankEventView| e.idx as int) + error_events.map_values(
        |e: DebankEventView| e.idx as int,
    )
}

/// Indexed events carry every index below their number exactly once.
proof fn lemma_indices_cover(events: Seq<DebankEventView>, error_events: Seq<DebankEventView>)
    requires
        events_indexed(events, error_events),
    ensures
        event_indices(events, error_events).no_duplicates(),
        forall|x: int|
            0 <= x < events.len() + error_events.len() ==> event_indices(events, error_events).contains(x),
{
    let n = (events.len() + error_events.len()) as int;
    let ix = event_indices(events, error_events);
    let a = events.len() as int;
    assert(ix.len() == n);
    assert forall|p: int| 0 <= p < n implies 0 <= #[trigger] ix[p] < n by {
        if p < a {
            assert(ix[p] == events[p].idx);
        } else {
            assert(ix[p] == error_events[p - a].idx);
        }
    }
    assert forall|p: int, q: int| 0 <= p < n && 0 <= q < n && p != q implies ix[p] != ix[q] by {
        if p < a && q < a {
            assert(ix[p] == events[p].idx && ix[q] == events[q].idx);
            if p < q {
                assert(events[p].idx < events[q].idx);
            } else {
                assert(events[q].idx < events[p].idx);
            }
        } else if p >= a && q >= a {
            assert(ix[p] == error_events[p - a].idx && ix[q] == error_events[q - a].idx);
            if p < q {
                assert(error_events[p - a].idx < error_events[q - a].idx);
            } else {
                assert(error_events[q - a].idx < error_events[p - a].idx);
            }
        } else if p < a {
            assert(ix[p] == events[p].idx && ix[q] == error_events[q - a].idx);
            assert(events[p].idx != error_events[q - a].idx);
        } else {
            assert(ix[q] == events[q].idx && ix[p] == error_events[p - a].idx);
            assert(events[q].idx != error_events[p - a].idx);
        }
    }
    assert(ix.no_duplicates());
    ix.unique_seq_to_set();
    vstd::set_lib::lemma_int_range(0, n);
    let r = vstd::set_lib::set_int_range(0, n);
    assert(ix.to_set().subset_of(r)) by {
        assert forall|x: int| #[trigger] ix.to_set().contains(x) implies r.contains(x) by {
            let p = choose|p: int| 0 <= p < ix.len() && ix[p] == x;
        }
    }
    vstd::seq_lib::seq_to_set_is_finite(ix);
    vstd::set_lib::lemma_subset_equality(ix.to_set(), r);
    assert forall|x: int| 0 <= x < n implies ix.contains(x) by {
        assert(r.contains(x));
        assert(ix.to_set().contains(x));
    }
}

/// The id of transaction `j` of the block.
pub open spec fn tx_id_of(block: PhantomBlock, j: int) -> Seq<char> {
    prefixed_hex(block.transactions@[j].hash@)
}

/// Every trace carries the id of one of the first `k` transactions.
pub open spec fn traces_name_txs(block: PhantomBlock, traces: Seq<DebankTraceView>, k: int) -> bool {
    forall|t: int|
        #![trigger traces[t]]
        0 <= t < traces.len() ==> exists|j: int|
            #![trigger tx_id_of(block, j)]
            0 <= j < k && traces[t].tx_id == tx_id_of(block, j)
}

proof fn lemma_append_indexed(st: WalkState, w: WalkState)
    requires
        events_indexed(st.events, st.error_events),
        st.events.len() + st.error_events.len() == st.log_index,
        walk_grows(fresh_walk(st.log_index), w),
        w.log_index <= i64::MAX,
    ensures
        events_indexed(append_walk(st, w).events, append_walk(st, w).error_events),
        append_walk(st, w).events.len() + append_walk(st, w).error_events.len() == append_walk(
            st,
            w,
        ).log_index,
{
    let n = st.log_index;
    let a = append_walk(st, w);
    let m = a.log_index;
    let f = fresh_walk(n);
    assert(f.events.len() == 0 && f.error_events.len() == 0);
    assert(new_indices_within(f.events, w.events, n, m));
    assert(new_indices_within(f.error_events, w.error_events, n, m));
    assert(forall|k: int| 0 <= k < w.events.len() ==> n <= #[trigger] w.events[k].idx < m);
    assert(forall|k: int| 0 <= k < w.error_events.len() ==> n <= #[trigger] w.error_events[k].idx < m);
    let ev = a.events;
    let ee = a.error_events;
    assert forall|k: int| 0 <= k < ev.len() implies 0 <= #[trigger] ev[k].idx < m by {
        if k < st.events.len() {
            assert(ev[k] == st.events[k]);
        } else {
            assert(ev[k] == w.events[k - st.events.len()]);
        }
    }
    assert forall|k1: int, k2: int| 0 <= k1 < k2 < ev.len() implies #[trigger] ev[k1].idx < #[trigger] ev[k2].idx by {
        if k2 < st.events.len() {
            assert(ev[k1] == st.events[k1]);
            assert(ev[k2] == st.events[k2]);
        } else if k1 < st.events.len() {
            assert(ev[k1] == st.events[k1]);
            assert(ev[k2] == w.events[k2 - st.events.len()]);
        } else {
            assert(ev[k1] == w.events[k1 - st.events.len()]);
            assert(ev[k2] == w.events[k2 - st.events.len()]);
        }
    }
    assert forall|k: int| 0 <= k < ee.len() implies 0 <= #[trigger] ee[k].idx < m by {
        if k < st.error_events.len() {
            assert(ee[k] == st.error_events[k]);
        } else {
            assert(ee[k] == w.error_events[k - st.error_events.len()]);
        }
    }
    assert forall|k1: int, k2: int| 0 <= k1 < k2 < ee.len() implies #[trigger] ee[k1].idx < #[trigger] ee[k2].idx by {
        if k2 < st.error_events.len() {
            assert(ee[k1] == st.error_events[k1]);
            assert(ee[k2] == st.error_events[k2]);
        } else if k1 < st.error_events.len() {
            assert(ee[k1] == st.error_events[k1]);
            assert(ee[k2] == w.error_events[k2 - st.error_events.len()]);
        } else {
            assert(ee[k1] == w.error_events[k1 - st.error_events.len()]);
            assert(ee[k2] == w.error_events[k2 - st.error_events.len()]);
        }
    }
    assert forall|k1: int, k2: int| 0 <= k1 < ev.len() && 0 <= k2 < ee.len() implies #[trigger] ev[k1].idx
        != #[trigger] ee[k2].idx by {
        if k1 < st.events.len() {
            assert(ev[k1] == st.events[k1]);
            if k2 < st.error_events.len() {
                assert(ee[k2] == st.error_events[k2]);
            } else {
                assert(ee[k2] == w.error_events[k2 - st.error_events.len()]);
            }
        } else {
            assert(ev[k1] == w.events[k1 - st.events.len()]);
            if k2 < st.error_events.len() {
                assert(ee[k2] == st.error_events[k2]);
            } else {
                assert(ee[k2] == w.error_events[k2 - st.error_events.len()]);
                assert(crate::arena::new_indices_apart(f, w));
                assert(w.events[k1 - st.events.len()].idx != w.error_events[k2 - st.error_events.len()].idx);
            }
        }
    }
}

proof fn lemma_append_names(block: PhantomBlock, st: WalkState, w: WalkState, i: int)
    requires
        0 <= i < block.transactions@.len(),
        traces_name_txs(block, st.traces, i),
        traces_name_txs(block, st.error_traces, i),
        all_of_tx(w.traces, tx_id_of(block, i)),
        all_of_tx(w.error_traces, tx_id_of(block, i)),
    ensures
        traces_name_txs(block, append_walk(st, w).traces, i + 1),
        traces_name_txs(block, append_walk(st, w).error_traces, i + 1),
{
    let a = append_walk(st, w);
    assert forall|t: int| #![trigger a.traces[t]] 0 <= t < a.traces.len() implies exists|j: int|
        #![trigger tx_id_of(block, j)]
        0 <= j < i + 1 && a.traces[t].tx_id == tx_id_of(block, j) by {
        if t < st.traces.len() {
            assert(a.traces[t] == st.traces[t]);
            let j = choose|j: int| #![trigger tx_id_of(block, j)] 0 <= j < i && st.traces[t].tx_id == tx_id_of(block, j);
            assert(0 <= j < i + 1 && a.traces[t].tx_id == tx_id_of(block, j));
        } else {
            assert(a.traces[t] == w.traces[t - st.traces.len()]);
            assert(a.traces[t].tx_id == tx_id_of(block, i));
        }
    }
    assert forall|t: int| #![trigger a.error_traces[t]] 0 <= t < a.error_traces.len() implies exists|j: int|
        #![trigger tx_id_of(block, j)]
        0 <= j < i + 1 && a.error_traces[t].tx_id == tx_id_of(block, j) by {
        if t < st.error_traces.len() {
            assert(a.error_traces[t] == st.error_traces[t]);
            let j = choose|j: int| #![trigger tx_id_of(block, j)] 0 <= j < i && st.error_traces[t].tx_id == tx_id_of(block, j);
            assert(0 <= j < i + 1 && a.error_traces[t].tx_id == tx_id_of(block, j));
        } else {
            assert(a.error_traces[t] == w.error_traces[t - st.error_traces.len()]);
            assert(a.error_traces[t].tx_id == tx_id_of(block, i));
        }
    }
}

proof fn lemma_block_step(
    block: PhantomBlock,
    raws: Seq<RawDebankTrace>,
    addrs: Seq<Seq<char>>,
    i: int,
    st: WalkState,
)
    requires
        0 <= i < block.transactions@.len(),
        events_indexed(st.events, st.error_events),
        st.events.len() + st.error_events.len() == st.log_index,
        traces_name_txs(block, st.traces, i),
        traces_name_txs(block, st.error_traces, i),
        tx_traces_ok(block, raws, addrs, i, st),
        st.log_index <= i64::MAX,
    ensures
        tx_traces_step(block, raws, addrs, i, st).log_index <= i64::MAX,
        events_indexed(
            tx_traces_step(block, raws, addrs, i, st).events,
            tx_traces_step(block, raws, addrs, i, st).error_events,
        ),
        tx_traces_step(block, raws, addrs, i, st).events.len() + tx_traces_step(
            block,
            raws,
            addrs,
            i,
            st,
        ).error_events.len() == tx_traces_step(block, raws, addrs, i, st).log_index,
        traces_name_txs(block, tx_traces_step(block, raws, addrs, i, st).traces, i + 1),
        traces_name_txs(block, tx_traces_step(block, raws, addrs, i, st).error_traces, i + 1),
{
    let tx = block.transactions@[i];
    let tx_id = prefixed_hex(tx.hash@);
    assert(tx_id == tx_id_of(block, i));
    let next = tx_traces_step(block, raws, addrs, i, st);
    match find_arena(raws, tx.hash@) {
        Some(j) => {
            let arena = raws[j].arena;
            let w = arena_walk(arena, addrs, tx_id, st.log_index);
            assert(next == append_walk(st, w));
            if arena.arena@.len() == 0 {
                assert(w == fresh_walk(st.log_index));
                crate::arena::law_walk_orders_keeps(arena.arena@, addrs, tx_id, 0, seq![], seq![], 0, w);
            } else {
                law_walk_node_keeps(arena.arena@, addrs, tx_id, 0, seq![], 0, seq![], fresh_walk(st.log_index));
            }
            lemma_append_indexed(st, w);
            lemma_append_names(block, st, w, i);
        },
        None => {
            if i < block.traces@.len() {
                let all = parity_fold(tx_id, block.traces@[i].0@).traces;
                let w = WalkState {
                    traces: ok_traces(all),
                    error_traces: failed_traces(all),
                    events: seq![],
                    error_events: seq![],
                    storage_contracts: seq![],
                    log_index: st.log_index,
                };
                assert(next == append_walk(st, w));
                lemma_parity_tx_id(tx_id, block.traces@[i].0@);
                lemma_split_tx_id(all, tx_id);
                assert(walk_grows(fresh_walk(st.log_index), w));
                lemma_append_indexed(st, w);
                lemma_append_names(block, st, w, i);
            } else {
                assert(next == st);
                assert forall|t: int| #![trigger st.traces[t]] 0 <= t < st.traces.len() implies exists|j: int|
                    #![trigger tx_id_of(block, j)]
                    0 <= j < i + 1 && st.traces[t].tx_id == tx_id_of(block, j) by {
                    let j = choose|j: int| #![trigger tx_id_of(block, j)] 0 <= j < i && st.traces[t].tx_id == tx_id_of(block, j);
                    assert(0 <= j < i + 1);
                }
                assert forall|t: int| #![trigger st.error_traces[t]] 0 <= t < st.error_traces.len() implies exists|j: int|
                    #![trigger tx_id_of(block, j)]
                    0 <= j < i + 1 && st.error_traces[t].tx_id == tx_id_of(block, j) by {
                    let j = choose|j: int| #![trigger tx_id_of(block, j)] 0 <= j < i && st.error_traces[t].tx_id == tx_id_of(block, j);
                    assert(0 <= j < i + 1);
                }
            }
        },
    }
}

/// The index of an arena found for a hash is one of the recorded arenas.
proof fn lemma_find_arena_in_range(raws: Seq<RawDebankTrace>, h: Seq<u8>)
    ensures
        find_arena(raws, h) matches Some(r) ==> 0 <= r < raws.len() && raws[r].tx_hash@ == h,
    decreases raws.len(),
{
    if raws.len() > 0 {
        lemma_find_arena_in_range(raws.drop_last(), h);
    }
}

/// The frame `j` of recorded arena `r` runs on a storage-change address.
pub open spec fn frame_changes_storage(raws: Seq<RawDebankTrace>, addrs: Seq<Seq<char>>, r: int, j: int) -> bool {
    &&& 0 <= r < raws.len()
    &&& 0 <= j < raws[r].arena.arena@.len()
    &&& addrs.contains(prefixed_hex(raws[r].arena.arena@[j].execution_address@))
}

/// A trace that counts as changing storage itself stands for a recorded frame
/// that runs on a storage-change address.
pub open spec fn flag_has_source(raws: Seq<RawDebankTrace>, addrs: Seq<Seq<char>>, t: DebankTraceView) -> bool {
    t.self_storage_change ==> exists|r: int, j: int| #[trigger] frame_changes_storage(raws, addrs, r, j)
}

/// What the outputs of a block's walk keep of the storage-change addresses.
pub open spec fn storage_flags_ok(raws: Seq<RawDebankTrace>, addrs: Seq<Seq<char>>, w: WalkState) -> bool {
    &&& forall|x: int| 0 <= x < w.storage_contracts.len() ==> addrs.contains(#[trigger] w.storage_contracts[x])
    &&& forall|x: int| 0 <= x < w.traces.len() ==> #[trigger] flag_has_source(raws, addrs, w.traces[x])
    &&& forall|x: int| 0 <= x < w.error_traces.len() ==> #[trigger] flag_has_source(raws, addrs, w.error_traces[x])
}

proof fn lemma_storage_flags_step(
    block: PhantomBlock,
    raws: Seq<RawDebankTrace>,
    addrs: Seq<Seq<char>>,
    i: int,
    st: WalkState,
)
    requires
        0 <= i < block.transactions@.len(),
        storage_flags_ok(raws, addrs, st),
    ensures
        storage_flags_ok(raws, addrs, tx_traces_step(block, raws, addrs, i, st)),
{
    let tx = block.transactions@[i];
    let tx_id = prefixed_hex(tx.hash@);
    let next = tx_traces_step(block, raws, addrs, i, st);
    let w = match find_arena(raws, tx.hash@) {
        Some(r) => arena_walk(raws[r].arena, addrs, tx_id, st.log_index),
        None => if i < block.traces@.len() {
            let all = parity_fold(tx_id, block.traces@[i].0@).traces;
            WalkState {
                traces: ok_traces(all),
                error_traces: failed_traces(all),
                events: seq![],
                error_events: seq![],
                storage_contracts: seq![],
                log_index: st.log_index,
            }
        } else {
            fresh_walk(st.log_index)
        },
    };
    // what one transaction adds keeps the storage-change addresses
    assert(storage_flags_ok(raws, addrs, w)) by {
        match find_arena(raws, tx.hash@) {
            Some(r) => {
                lemma_find_arena_in_range(raws, tx.hash@);
                let arena = raws[r].arena.arena@;
                if arena.len() > 0 {
                    let f = fresh_walk(st.log_index);
                    law_walk_node_keeps(arena, addrs, tx_id, 0, seq![], 0, seq![], f);
                    crate::arena::law_walk_node_traces_from_frames(arena, addrs, tx_id, 0, seq![], 0, seq![], f);
                    assert(w == walk_node(arena, addrs, tx_id, 0, seq![], 0, seq![], f).0);
                    assert forall|x: int| 0 <= x < w.traces.len() implies #[trigger] flag_has_source(raws, addrs, w.traces[x]) by {
                        assert(crate::arena::trace_from_node(arena, addrs, 0, w.traces[x], false));
                        let j = choose|j: int|
                            #![trigger crate::arena::reaches_node(arena, 0, j)]
                            crate::arena::reaches_node(arena, 0, j) && crate::arena::trace_from_frame(addrs, w.traces[x], arena[j], false);
                        crate::arena::lemma_reached_in_arena_node(arena, 0, j);
                        if w.traces[x].self_storage_change {
                            assert(frame_changes_storage(raws, addrs, r, j));
                        }
                    }
                    assert forall|x: int| 0 <= x < w.error_traces.len() implies #[trigger] flag_has_source(raws, addrs, w.error_traces[x]) by {
                        assert(crate::arena::trace_from_node(arena, addrs, 0, w.error_traces[x], true));
                        let j = choose|j: int|
                            #![trigger crate::arena::reaches_node(arena, 0, j)]
                            crate::arena::reaches_node(arena, 0, j) && crate::arena::trace_from_frame(addrs, w.error_traces[x], arena[j], true);
                        crate::arena::lemma_reached_in_arena_node(arena, 0, j);
                        if w.error_traces[x].self_storage_change {
                            assert(frame_changes_storage(raws, addrs, r, j));
                        }
                    }
                    assert forall|x: int| 0 <= x < w.storage_contracts.len() implies addrs.contains(#[trigger] w.storage_contracts[x]) by {
                        assert(f.storage_contracts.len() == 0);
                    }
                }
            },
            None => {
                if i < block.traces@.len() {
                    let all = parity_fold(tx_id, block.traces@[i].0@).traces;
                    crate::parity::lemma_parity_no_self_change(tx_id, block.traces@[i].0@);
                    crate::parity::lemma_split_members(all);
                    assert forall|x: int| 0 <= x < w.traces.len() implies #[trigger] flag_has_source(raws, addrs, w.traces[x]) by {
                        assert(all.contains(ok_traces(all)[x]));
                    }
                    assert forall|x: int| 0 <= x < w.error_traces.len() implies #[trigger] flag_has_source(raws, addrs, w.error_traces[x]) by {
                        assert(all.contains(failed_traces(all)[x]));
                    }
                }
            },
        }
    }
    if find_arena(raws, tx.hash@) is None && !(i < block.traces@.len()) {
        assert(next == st);
    } else {
        assert(next == append_walk(st, w));
        assert forall|x: int| 0 <= x < next.storage_contracts.len() implies addrs.contains(#[trigger] next.storage_contracts[x]) by {
            if x < st.storage_contracts.len() {
                assert(next.storage_contracts[x] == st.storage_contracts[x]);
            } else {
                assert(next.storage_contracts[x] == w.storage_contracts[x - st.storage_contracts.len()]);
            }
        }
        assert forall|x: int| 0 <= x < next.traces.len() implies #[trigger] flag_has_source(raws, addrs, next.traces[x]) by {
            if x < st.traces.len() {
                assert(next.traces[x] == st.traces[x]);
            } else {
                assert(next.traces[x] == w.traces[x - st.traces.len()]);
            }
        }
        assert forall|x: int| 0 <= x < next.error_traces.len() implies #[trigger] flag_has_source(raws, addrs, next.error_traces[x]) by {
            if x < st.error_traces.len() {
                assert(next.error_traces[x] == st.error_traces[x]);
            } else {
                assert(next.error_traces[x] == w.error_traces[x - st.error_traces.len()]);
            }
        }
    }
}

proof fn lemma_storage_flags_fold(
    block: PhantomBlock,
    raws: Seq<RawDebankTrace>,
    addrs: Seq<Seq<char>>,
    k: int,
)
    requires
        0 <= k <= block.transactions@.len(),
    ensures
        storage_flags_ok(raws, addrs, block_traces_fold(block, raws, addrs, k)),
    decreases k,
{
    if k > 0 {
        lemma_storage_flags_fold(block, raws, addrs, k - 1);
        lemma_storage_flags_step(block, raws, addrs, k - 1, block_traces_fold(block, raws, addrs, k - 1));
    }
}

/// The arenas that re-execution recorded (none when nothing was collected).
pub open spec fn recorded_arenas(collected: Option<(Seq<RawDebankTrace>, DebankStateDiff)>) -> Seq<
    RawDebankTrace,
> {
    match collected {
        Some(c) => c.0,
        None => seq![],
    }
}

/// The address is the `0x` hex address of an account of the collected state
/// diff whose slot changes are not empty.
pub open spec fn changed_storage_account(
    collected: Option<(Seq<RawDebankTrace>, DebankStateDiff)>,
    x: Seq<char>,
) -> bool {
    match collected {
        Some(c) => exists|k: int|
            0 <= k < c.1.accounts@.len() && (#[trigger] c.1.accounts@[k]).storage_changes@.len() > 0 && x
                == prefixed_hex(c.1.accounts@[k].address@),
        None => false,
    }
}

/// In the block file of a block, storage changes come only from accounts whose
/// slot changes are not empty: every storage contract is the `0x` address of
/// such an account of the collected state diff, and every trace or error trace
/// that counts as changing storage itself stands for a recorded frame whose
/// execution address is that of such an account.
pub proof fn law_block_storage_flags(
    block: PhantomBlock,
    process_start_timestamp: i64,
    collected: Option<(Seq<RawDebankTrace>, DebankStateDiff)>,
)
    ensures
        forall|x: int|
            0 <= x < block_file_spec(block, process_start_timestamp, collected).storage_contracts.len()
                ==> changed_storage_account(
                collected,
                #[trigger] block_file_spec(block, process_start_timestamp, collected).storage_contracts[x],
            ),
        forall|x: int|
            0 <= x < block_file_spec(block, process_start_timestamp, collected).traces.len() && (
            #[trigger] block_file_spec(block, process_start_timestamp, collected).traces[x]).self_storage_change
                ==> exists|r: int, j: int|
                changed_storage_account(
                    collected,
                    prefixed_hex(#[trigger] recorded_arenas(collected)[r].arena.arena@[j].execution_address@),
                ) && 0 <= r < recorded_arenas(collected).len() && 0 <= j < recorded_arenas(collected)[r].arena.arena@.len(),
        forall|x: int|
            0 <= x < block_file_spec(block, process_start_timestamp, collected).error_traces.len() && (
            #[trigger] block_file_spec(block, process_start_timestamp, collected).error_traces[x]).self_storage_change
                ==> exists|r: int, j: int|
                changed_storage_account(
                    collected,
                    prefixed_hex(#[trigger] recorded_arenas(collected)[r].arena.arena@[j].execution_address@),
                ) && 0 <= r < recorded_arenas(collected).len() && 0 <= j < recorded_arenas(collected)[r].arena.arena@.len(),
{
    let f = block_file_spec(block, process_start_timestamp, collected);
    if block.height != 0 && collected is Some && collects_traces(block) {
        let c = collected->0;
        let addrs = storage_change_addrs_spec(c.1);
        let raws = c.0;
        lemma_storage_flags_fold(block, raws, addrs, block.transactions@.len() as int);
        law_storage_change_addrs(c.1.accounts@);
        let w = block_traces_fold(block, raws, addrs, block.transactions@.len() as int);
        assert(f.storage_contracts == w.storage_contracts);
        assert(f.traces == w.traces && f.error_traces == w.error_traces);
        assert forall|x: int| 0 <= x < f.storage_contracts.len() implies changed_storage_account(
            collected,
            #[trigger] f.storage_contracts[x],
        ) by {
            assert(addrs.contains(w.storage_contracts[x]));
            assert(storage_change_addrs_of(c.1.accounts@).contains(w.storage_contracts[x]));
        }
        assert forall|x: int| 0 <= x < f.traces.len() && (#[trigger] f.traces[x]).self_storage_change implies exists|r: int, j: int|
            changed_storage_account(
                collected,
                prefixed_hex(#[trigger] recorded_arenas(collected)[r].arena.arena@[j].execution_address@),
            ) && 0 <= r < recorded_arenas(collected).len() && 0 <= j < recorded_arenas(collected)[r].arena.arena@.len() by {
            assert(flag_has_source(raws, addrs, w.traces[x]));
            let (r, j) = choose|r: int, j: int| #[trigger] frame_changes_storage(raws, addrs, r, j);
            assert(recorded_arenas(collected) == raws);
            let a = prefixed_hex(recorded_arenas(collected)[r].arena.arena@[j].execution_address@);
            assert(storage_change_addrs_of(c.1.accounts@).contains(a));
            assert(changed_storage_account(collected, a));
            assert(0 <= r < recorded_arenas(collected).len() && 0 <= j < recorded_arenas(collected)[r].arena.arena@.len());
        }
        assert forall|x: int| 0 <= x < f.error_traces.len() && (#[trigger] f.error_traces[x]).self_storage_change implies exists|r: int, j: int|
            changed_storage_account(
                collected,
                prefixed_hex(#[trigger] recorded_arenas(collected)[r].arena.arena@[j].execution_address@),
            ) && 0 <= r < recorded_arenas(collected).len() && 0 <= j < recorded_arenas(collected)[r].arena.arena@.len() by {
            assert(flag_has_source(raws, addrs, w.error_traces[x]));
            let (r, j) = choose|r: int, j: int| #[trigger] frame_changes_storage(raws, addrs, r, j);
            assert(recorded_arenas(collected) == raws);
            let a = prefixed_hex(recorded_arenas(collected)[r].arena.arena@[j].execution_address@);
            assert(storage_change_addrs_of(c.1.accounts@).contains(a));
            assert(changed_storage_account(collected, a));
            assert(0 <= r < recorded_arenas(collected).len() && 0 <= j < recorded_arenas(collected)[r].arena.arena@.len());
        }
    } else {
        assert(f.storage_contracts.len() == 0 && f.traces.len() == 0 && f.error_traces.len() == 0);
    }
}

/// In the block file of a block, the block record carries the block's hash,
/// parent hash, author, timestamp and the given start time; past the genesis
/// block also its gas limit, base price (zero without one) and the accumulated
/// gas of its last receipt, while the genesis block has zero amounts and no
/// transactions. Past genesis there is one record per transaction, in order: the
/// record of transaction `i` has index `i`, the transaction's hash as id, its
/// sender, its recipient (`0x` for a creation), gas limit, fee caps, input,
/// nonce and value, its receipt's status, the gas its receipt adds to the
/// accumulated gas (zero when the accumulated gas falls), and its gas price
/// capped by the base price plus its priority fee when the block has a base price.
pub proof fn law_block_file_records(
    block: PhantomBlock,
    process_start_timestamp: i64,
    collected: Option<(Seq<RawDebankTrace>, DebankStateDiff)>,
)
    requires
        block_inputs_ok(block, collected),
    ensures
        ({
            let f = block_file_spec(block, process_start_timestamp, collected);
            &&& f.block.id == prefixed_hex(block.hash@)
            &&& f.block.parent_id == prefixed_hex(block.parent_hash@)
            &&& f.block.miner == prefixed_hex(block.author@)
            &&& f.block.height == block.height
            &&& f.block.timestamp == block.timestamp
            &&& f.block.process_start_timestamp == process_start_timestamp
            &&& (block.height == 0 ==> f.block.gas_limit == 0 && f.block.gas_used == 0
                && f.block.base_fee_per_gas == 0 && f.txs.len() == 0)
            &&& (block.height != 0 ==> {
                &&& f.block.gas_limit == be_value(block.total_gas_limit@)
                &&& f.block.base_fee_per_gas == match block.base_price {
                    Some(bp) => be_value(bp@),
                    None => 0,
                }
                &&& f.block.gas_used == (if block.receipts@.len() > 0 {
                    be_value(block.receipts@.last().accumulated_gas_used@)
                } else {
                    0
                })
                &&& f.txs.len() == block.transactions@.len()
            })
        }),
        forall|i: int|
            0 <= i < block.transactions@.len() && block.height != 0 ==> {
                let r = #[trigger] block_file_spec(block, process_start_timestamp, collected).txs[i];
                let tx = block.transactions@[i];
                let receipt = block.receipts@[i];
                let acc = be_value(receipt.accumulated_gas_used@);
                let before = if i == 0 {
                    0
                } else {
                    be_value(block.receipts@[i - 1].accumulated_gas_used@)
                };
                let gp = be_value(tx.gas_price@);
                &&& r.idx == i as i64
                &&& r.id == prefixed_hex(tx.hash@)
                &&& r.from_addr == prefixed_hex(tx.sender@)
                &&& r.to_addr == match tx.action {
                    TxAction::Call(a) => prefixed_hex(a@),
                    TxAction::Create => "0x"@,
                }
                &&& r.gas_limit == be_value(tx.gas_limit@)
                &&& r.max_fee_per_gas == gp
                &&& r.max_priority_fee_per_gas == be_value(tx.max_priority_gas_price@)
                &&& r.input == tx.data@
                &&& r.nonce == be_value(tx.nonce@)
                &&& r.value == tx.value@
                &&& r.status == receipt.success
                &&& r.gas_used == (if acc >= before {
                    acc - before
                } else {
                    0
                })
                &&& match block.base_price {
                    Some(bp) => {
                        let cap = be_value(bp@) + be_value(tx.max_priority_gas_price@);
                        r.gas_price == (if gp <= cap {
                            gp
                        } else {
                            cap
                        })
                    },
                    None => r.gas_price == gp,
                }
            },
{
    let f = block_file_spec(block, process_start_timestamp, collected);
    if block.height != 0 {
        assert(f.txs == tx_records(block));
        assert forall|i: int| 0 <= i < block.transactions@.len() implies {
            let r = #[trigger] block_file_spec(block, process_start_timestamp, collected).txs[i];
            let tx = block.transactions@[i];
            let receipt = block.receipts@[i];
            let acc = be_value(receipt.accumulated_gas_used@);
            let before = if i == 0 {
                0
            } else {
                be_value(block.receipts@[i - 1].accumulated_gas_used@)
            };
            let gp = be_value(tx.gas_price@);
            &&& r.idx == i as i64
            &&& r.id == prefixed_hex(tx.hash@)
            &&& r.from_addr == prefixed_hex(tx.sender@)
            &&& r.to_addr == match tx.action {
                TxAction::Call(a) => prefixed_hex(a@),
                TxAction::Create => "0x"@,
            }
            &&& r.gas_limit == be_value(tx.gas_limit@)
            &&& r.max_fee_per_gas == gp
            &&& r.max_priority_fee_per_gas == be_value(tx.max_priority_gas_price@)
            &&& r.input == tx.data@
            &&& r.nonce == be_value(tx.nonce@)
            &&& r.value == tx.value@
            &&& r.status == receipt.success
            &&& r.gas_used == (if acc >= before {
                acc - before
            } else {
                0
            })
            &&& match block.base_price {
                Some(bp) => {
                    let cap = be_value(bp@) + be_value(tx.max_priority_gas_price@);
                    r.gas_price == (if gp <= cap {
                        gp
                    } else {
                        cap
                    })
                },
                None => r.gas_price == gp,
            }
        } by {
            let tx = block.transactions@[i];
            assert(block.transactions@[i] == tx);
            assert(f.txs[i] == tx_record(block, i));
            let r = f.txs[i];
            assert(be_value(block.receipts@[i].accumulated_gas_used@) <= u64::MAX);
            assert(be_value(tx.gas_price@) <= u64::MAX);
            assert(be_value(tx.max_priority_gas_price@) <= u64::MAX);
            assert(be_value(tx.gas_limit@) <= u64::MAX);
            assert(be_value(tx.nonce@) <= u64::MAX);
            assert(r.gas_limit == be_value(tx.gas_limit@));
            assert(r.nonce == be_value(tx.nonce@));
            assert(r.max_fee_per_gas == be_value(tx.gas_price@));
            assert(r.idx == i as i64);
            match block.base_price {
                Some(bp) => {
                    assert(be_value(bp@) <= u64::MAX);
                    assert(low_u64(bp) + low_u64(tx.max_priority_gas_price) <= u64::MAX);
                },
                None => {},
            }
            if i > 0 {
                assert(be_value(block.receipts@[i - 1].accumulated_gas_used@) <= u64::MAX) by {
                    let t2 = block.transactions@[i - 1];
                    assert(block.transactions@[i - 1] == t2);
                }
            }
        }
    }
}

/// Over the first `k` transactions, the events and error events carry the log
/// indices `0..n` (n being their number, which is the final log index), each
/// once, in increasing order within each list; and every trace and error trace
/// carries the id of one of those transactions.
pub proof fn law_block_traces_indexed(
    block: PhantomBlock,
    raws: Seq<RawDebankTrace>,
    addrs: Seq<Seq<char>>,
    k: int,
)
    requires
        0 <= k <= block.transactions@.len(),
        block_traces_ok(block, raws, addrs, k),
    ensures
        events_indexed(
            block_traces_fold(block, raws, addrs, k).events,
            block_traces_fold(block, raws, addrs, k).error_events,
        ),
        block_traces_fold(block, raws, addrs, k).events.len() + block_traces_fold(
            block,
            raws,
            addrs,
            k,
        ).error_events.len() == block_traces_fold(block, raws, addrs, k).log_index,
        traces_name_txs(block, block_traces_fold(block, raws, addrs, k).traces, k),
        traces_name_txs(block, block_traces_fold(block, raws, addrs, k).error_traces, k),
        block_traces_fold(block, raws, addrs, k).log_index <= i64::MAX,
    decreases k,
{
    if k > 0 {
        law_block_traces_indexed(block, raws, addrs, k - 1);
        lemma_block_step(block, raws, addrs, k - 1, block_traces_fold(block, raws, addrs, k - 1));
    }
}

/// In the block file of a block, the events and error events carry the log
/// indices `0..n`, n being their total number: each index below `n` exactly once,
/// increasing within each list; and every trace and error trace carries the id of one of
/// the block's transactions (the id of that transaction's record).
pub proof fn law_block_file_indexed(
    block: PhantomBlock,
    process_start_timestamp: i64,
    collected: Option<(Seq<RawDebankTrace>, DebankStateDiff)>,
)
    requires
        block_inputs_ok(block, collected),
    ensures
        events_indexed(
            block_file_spec(block, process_start_timestamp, collected).events,
            block_file_spec(block, process_start_timestamp, collected).error_events,
        ),
        event_indices(
            block_file_spec(block, process_start_timestamp, collected).events,
            block_file_spec(block, process_start_timestamp, collected).error_events,
        ).no_duplicates(),
        forall|x: int|
            0 <= x < block_file_spec(block, process_start_timestamp, collected).events.len()
                + block_file_spec(block, process_start_timestamp, collected).error_events.len()
                ==> #[trigger] event_indices(
                block_file_spec(block, process_start_timestamp, collected).events,
                block_file_spec(block, process_start_timestamp, collected).error_events,
            ).contains(x),
        traces_name_txs(
            block,
            block_file_spec(block, process_start_timestamp, collected).traces,
            block.transactions@.len() as int,
        ),
        traces_name_txs(
            block,
            block_file_spec(block, process_start_timestamp, collected).error_traces,
            block.transactions@.len() as int,
        ),
{
    if block.height != 0 {
        match collected {
            Some(c) => if collects_traces(block) {
                law_block_traces_indexed(
                    block,
                    c.0,
                    storage_change_addrs_spec(c.1),
                    block.transactions@.len() as int,
                );
            },
            None => {},
        }
    }
    let f = block_file_spec(block, process_start_timestamp, collected);
    lemma_indices_cover(f.events, f.error_events);
}

// ------------------------------------------------------------

/// The number of a 256-bit value that must fit in 64 bits.
pub open spec fn low_u64(v: U256) -> u64 {
    be_value(v@) as u64
}

/// The effective gas price of a transaction: its gas price, capped by the base
/// price plus its priority fee when the block has a base price.
pub open spec fn effective_gas_price(block: PhantomBlock, tx: PhantomTransaction) -> u64 {
    match block.base_price {
        Some(bp) => {
            let cap = (low_u64(bp) + low_u64(tx.max_priority_gas_price)) as u64;
            if low_u64(tx.gas_price) <= cap {
                low_u64(tx.gas_price)
            } else {
                cap
            }
        },
        None => low_u64(tx.gas_price),
    }
}

/// The accumulated gas before transaction `i`.
pub open spec fn gas_before(block: PhantomBlock, i: int) -> u64 {
    if i == 0 {
        0
    } else {
        low_u64(block.receipts@[i - 1].accumulated_gas_used)
    }
}

/// The record of transaction `i`.
pub open spec fn tx_record(block: PhantomBlock, i: int) -> DebankTransactionView {
    let tx = block.transactions@[i];
    let receipt = block.receipts@[i];
    DebankTransactionView {
        id: prefixed_hex(tx.hash@),
        from_addr: prefixed_hex(tx.sender@),
        to_addr: match tx.action {
            TxAction::Call(addr) => prefixed_hex(addr@),
            TxAction::Create => "0x"@,
        },
        gas_limit: low_u64(tx.gas_limit),
        gas_price: effective_gas_price(block, tx),
        gas_used: sat_sub(low_u64(receipt.accumulated_gas_used), gas_before(block, i)),
        status: receipt.success,
        max_fee_per_gas: low_u64(tx.gas_price),
        max_priority_fee_per_gas: low_u64(tx.max_priority_gas_price),
        input: tx.data@,
        nonce: low_u64(tx.nonce),
        idx: i as i64,
        value: tx.value@,
    }
}

/// The records of all transactions.
pub open spec fn tx_records(block: PhantomBlock) -> Seq<DebankTransactionView> {
    Seq::new(block.transactions@.len(), |i: int| tx_record(block, i))
}

/// The addresses (as `0x` hex) of the accounts with storage changes.
pub open spec fn storage_change_addrs_spec(diff: DebankStateDiff) -> Seq<Seq<char>>
    decreases diff.accounts@.len(),
{
    storage_change_addrs_of(diff.accounts@)
}

/// The addresses (as `0x` hex) of the accounts with storage changes, in order.
pub open spec fn storage_change_addrs_of(
    accs: Seq<crate::state_diff::DebankAccountDiff>,
) -> Seq<Seq<char>>
    decreases accs.len(),
{
    if accs.len() == 0 {
        seq![]
    } else if accs.last().storage_changes@.len() > 0 {
        storage_change_addrs_of(accs.drop_last()).push(prefixed_hex(accs.last().address@))
    } else {
        storage_change_addrs_of(accs.drop_last())
    }
}

/// The storage-change addresses are exactly the `0x` hex addresses of the
/// accounts whose slot changes are not empty: an account without slot changes
/// never gives one.
pub proof fn law_storage_change_addrs(accs: Seq<crate::state_diff::DebankAccountDiff>)
    ensures
        forall|x: Seq<char>|
            #![trigger storage_change_addrs_of(accs).contains(x)]
            storage_change_addrs_of(accs).contains(x) <==> exists|k: int|
                0 <= k < accs.len() && (#[trigger] accs[k]).storage_changes@.len() > 0 && x
                    == prefixed_hex(accs[k].address@),
    decreases accs.len(),
{
    if accs.len() > 0 {
        let dl = accs.drop_last();
        law_storage_change_addrs(dl);
        let n = accs.len() - 1;
        let prev = storage_change_addrs_of(dl);
        let cur = storage_change_addrs_of(accs);
        assert forall|x: Seq<char>| #![trigger storage_change_addrs_of(accs).contains(x)]
            storage_change_addrs_of(accs).contains(x) <==> exists|k: int|
                0 <= k < accs.len() && (#[trigger] accs[k]).storage_changes@.len() > 0 && x
                    == prefixed_hex(accs[k].address@) by {
            if cur.contains(x) {
                let p = choose|p: int| 0 <= p < cur.len() && cur[p] == x;
                if p < prev.len() {
                    assert(cur[p] == prev[p]);
                    assert(prev.contains(x));
                    assert(storage_change_addrs_of(dl).contains(x));
                    let k = choose|k: int| 0 <= k < dl.len() && (#[trigger] dl[k]).storage_changes@.len() > 0 && x
                        == prefixed_hex(dl[k].address@);
                    assert(accs[k] == dl[k]);
                } else {
                    assert(accs[n] == accs.last());
                }
            }
            if exists|k: int| 0 <= k < accs.len() && (#[trigger] accs[k]).storage_changes@.len() > 0 && x
                == prefixed_hex(accs[k].address@) {
                let k = choose|k: int| 0 <= k < accs.len() && (#[trigger] accs[k]).storage_changes@.len() > 0 && x
                    == prefixed_hex(accs[k].address@);
                if k < n {
                    assert(dl[k] == accs[k]);
                    assert(storage_change_addrs_of(dl).contains(x));
                    let p = choose|p: int| 0 <= p < prev.len() && prev[p] == x;
                    if accs.last().storage_changes@.len() > 0 {
                        assert(cur[p] == prev[p]);
                    }
                    assert(cur.contains(x));
                } else {
                    assert(accs[k] == accs.last());
                    assert(cur[prev.len() as int] == x);
                }
            }
        }
    }
}

/// The index of the last Ethereum-space arena recorded for a transaction hash.
pub open spec fn find_arena(raws: Seq<RawDebankTrace>, h: Seq<u8>) -> Option<int>
    decreases raws.len(),
{
    if raws.len() == 0 {
        None
    } else if raws.last().is_ethereum_space && raws.last().tx_hash@ == h {
        Some(raws.len() - 1)
    } else {
        find_arena(raws.drop_last(), h)
    }
}

/// The empty walk state with the given log index.
pub open spec fn fresh_walk(log_index: int) -> WalkState {
    WalkState {
        traces: seq![],
        error_traces: seq![],
        events: seq![],
        error_events: seq![],
        storage_contracts: seq![],
        log_index,
    }
}

/// The walk of a transaction's arena, from fresh outputs.
pub open spec fn arena_walk(
    arena: CallTraceArena,
    addrs: Seq<Seq<char>>,
    tx_id: Seq<char>,
    log_index: int,
) -> WalkState {
    if arena.arena@.len() == 0 {
        fresh_walk(log_index)
    } else {
        walk_node(arena.arena@, addrs, tx_id, 0, seq![], 0, seq![], fresh_walk(log_index)).0
    }
}

/// Appends one transaction's outputs to the block's.
pub open spec fn append_walk(st: WalkState, w: WalkState) -> WalkState {
    WalkState {
        traces: st.traces + w.traces,
        error_traces: st.error_traces + w.error_traces,
        events: st.events + w.events,
        error_events: st.error_events + w.error_events,
        storage_contracts: st.storage_contracts + w.storage_contracts,
        log_index: w.log_index,
    }
}

/// The traces and events of transaction `i` added to `st`: from its arena when
/// re-execution recorded one, else from its parity trace when the block has one.
pub open spec fn tx_traces_step(
    block: PhantomBlock,
    raws: Seq<RawDebankTrace>,
    addrs: Seq<Seq<char>>,
    i: int,
    st: WalkState,
) -> WalkState {
    let tx = block.transactions@[i];
    let tx_id = prefixed_hex(tx.hash@);
    match find_arena(raws, tx.hash@) {
        Some(j) => append_walk(st, arena_walk(raws[j].arena, addrs, tx_id, st.log_index)),
        None => if i < block.traces@.len() {
            let all = parity_fold(tx_id, block.traces@[i].0@).traces;
            append_walk(
                st,
                WalkState {
                    traces: ok_traces(all),
                    error_traces: failed_traces(all),
                    events: seq![],
                    error_events: seq![],
                    storage_contracts: seq![],
                    log_index: st.log_index,
                },
            )
        } else {
            st
        },
    }
}

/// What the conversion needs of transaction `i` from state `st`: a well-formed
/// arena whose walk keeps the log index within `i64`, or parity gas amounts that
/// fit in 64 bits.
pub open spec fn tx_traces_ok(
    block: PhantomBlock,
    raws: Seq<RawDebankTrace>,
    addrs: Seq<Seq<char>>,
    i: int,
    st: WalkState,
) -> bool {
    let tx = block.transactions@[i];
    let tx_id = prefixed_hex(tx.hash@);
    match find_arena(raws, tx.hash@) {
        Some(j) => arena_wf(raws[j].arena.arena@) && arena_walk(
            raws[j].arena,
            addrs,
            tx_id,
            st.log_index,
        ).log_index <= i64::MAX,
        None => i < block.traces@.len() ==> parity_gas_fits(block.traces@[i].0@)
            && block.traces@[i].0@.len() < i64::MAX,
    }
}

/// The outputs of the first `k` transactions.
pub open spec fn block_traces_fold(
    block: PhantomBlock,
    raws: Seq<RawDebankTrace>,
    addrs: Seq<Seq<char>>,
    k: int,
) -> WalkState
    decreases k,
{
    if k <= 0 {
        fresh_walk(0)
    } else {
        tx_traces_step(block, raws, addrs, k - 1, block_traces_fold(block, raws, addrs, k - 1))
    }
}

/// What the conversion needs of the first `k` transactions.
pub open spec fn block_traces_ok(
    block: PhantomBlock,
    raws: Seq<RawDebankTrace>,
    addrs: Seq<Seq<char>>,
    k: int,
) -> bool
    decreases k,
{
    if k <= 0 {
        true
    } else {
        block_traces_ok(block, raws, addrs, k - 1) && tx_traces_ok(
            block,
            raws,
            addrs,
            k - 1,
            block_traces_fold(block, raws, addrs, k - 1),
        )
    }
}

/// The block metadata record.
pub open spec fn block_record(block: PhantomBlock, process_start_timestamp: i64) -> DebankBlockView {
    if block.height == 0 {
        DebankBlockView {
            id: prefixed_hex(block.hash@),
            height: 0,
            parent_id: prefixed_hex(block.parent_hash@),
            base_fee_per_gas: 0,
            miner: prefixed_hex(block.author@),
            gas_limit: 0,
            gas_used: 0,
            timestamp: block.timestamp,
            process_start_timestamp,
        }
    } else {
        DebankBlockView {
            id: prefixed_hex(block.hash@),
            height: block.height,
            parent_id: prefixed_hex(block.parent_hash@),
            base_fee_per_gas: match block.base_price {
                Some(bp) => low_u64(bp),
                None => 0,
            },
            miner: prefixed_hex(block.author@),
            gas_limit: low_u64(block.total_gas_limit),
            gas_used: if block.receipts@.len() > 0 {
                low_u64(block.receipts@.last().accumulated_gas_used)
            } else {
                0
            },
            timestamp: block.timestamp,
            process_start_timestamp,
        }
    }
}

/// Whether the block's epoch is re-executed for traces and state diff: when it is
/// not the genesis block and has transactions.
pub open spec fn collects_traces(block: PhantomBlock) -> bool {
    block.height != 0 && block.transactions@.len() > 0
}

/// The block file of a block.
pub open spec fn block_file_spec(
    block: PhantomBlock,
    process_start_timestamp: i64,
    collected: Option<(Seq<RawDebankTrace>, DebankStateDiff)>,
) -> BlockFileView {
    if block.height == 0 {
        BlockFileView {
            block: block_record(block, process_start_timestamp),
            txs: seq![],
            events: seq![],
            traces: seq![],
            error_events: seq![],
            error_traces: seq![],
            storage_contracts: seq![],
        }
    } else {
        let w = match collected {
            Some(c) => if collects_traces(block) {
                block_traces_fold(
                    block,
                    c.0,
                    storage_change_addrs_spec(c.1),
                    block.transactions@.len() as int,
                )
            } else {
                fresh_walk(0)
            },
            None => fresh_walk(0),
        };
        BlockFileView {
            block: block_record(block, process_start_timestamp),
            txs: tx_records(block),
            events: w.events,
            traces: w.traces,
            error_events: w.error_events,
            error_traces: w.error_traces,
            storage_contracts: w.storage_contracts,
        }
    }
}

/// The hashed state diff of a block: empty with zero hashes for the genesis
/// block; built from the collected state diff when there is one; else empty with
/// the block's hashes.
pub open spec fn storage_diff_spec(
    block: PhantomBlock,
    collected: Option<(Seq<RawDebankTrace>, DebankStateDiff)>,
) -> BlockStorageDiffView {
    if block.height == 0 {
        empty_storage_diff_view()
    } else {
        match collected {
            Some(c) => if collects_traces(block) {
                block_storage_diff_spec(block.hash@, block.parent_hash@, c.1)
            } else {
                BlockStorageDiffView {
                    hash: block.hash@,
                    parent_hash: block.parent_hash@,
                    new_accounts: seq![],
                    deleted_accounts: seq![],
                    storage_diff: seq![],
                    new_codes: seq![],
                }
            },
            None => BlockStorageDiffView {
                hash: block.hash@,
                parent_hash: block.parent_hash@,
                new_accounts: seq![],
                deleted_accounts: seq![],
                storage_diff: seq![],
                new_codes: seq![],
            },
        }
    }
}

/// What the export needs of a block: receipts for every transaction, 64-bit gas
/// amounts, prices and nonces, a base price plus priority fee that does not
/// overflow, and convertible traces and state diff.
pub open spec fn block_inputs_ok(
    block: PhantomBlock,
    collected: Option<(Seq<RawDebankTrace>, DebankStateDiff)>,
) -> bool {
    block.height != 0 ==> {
        &&& block.receipts@.len() >= block.transactions@.len()
        &&& be_value(block.total_gas_limit@) <= u64::MAX
        &&& (block.base_price matches Some(bp) ==> be_value(bp@) <= u64::MAX)
        &&& (block.receipts@.len() > 0 ==> be_value(block.receipts@.last().accumulated_gas_used@)
            <= u64::MAX)
        &&& forall|i: int|
            0 <= i < block.transactions@.len() ==> {
                let tx = #[trigger] block.transactions@[i];
                &&& be_value(block.receipts@[i].accumulated_gas_used@) <= u64::MAX
                &&& be_value(tx.gas_price@) <= u64::MAX
                &&& be_value(tx.max_priority_gas_price@) <= u64::MAX
                &&& be_value(tx.gas_limit@) <= u64::MAX
                &&& be_value(tx.nonce@) <= u64::MAX
                &&& (block.base_price matches Some(bp) ==> low_u64(bp) + low_u64(
                    tx.max_priority_gas_price,
                ) <= u64::MAX)
            }
        &&& (collected is Some && collects_traces(block) ==> {
            let c = collected.unwrap();
            &&& new_nonces_fit(c.1.accounts@)
            &&& block_traces_ok(
                block,
                c.0,
                storage_change_addrs_spec(c.1),
                block.transactions@.len() as int,
            )
        })
    }
}


/// The gas used by transaction records, summed.
pub open spec fn total_gas_used(txs: Seq<DebankTransactionView>) -> int
    decreases txs.len(),
{
    if txs.len() == 0 {
        0
    } else {
        total_gas_used(txs.drop_last()) + txs.last().gas_used
    }
}

/// Whether the accumulated gas of the receipts of the first `n` transactions
/// never decreases.
pub open spec fn accumulated_gas_nondecreasing(block: PhantomBlock, n: int) -> bool {
    forall|i: int|
        0 < i < n ==> low_u64(block.receipts@[i - 1].accumulated_gas_used) <= low_u64(
            #[trigger] block.receipts@[i].accumulated_gas_used,
        )
}

proof fn lemma_gas_prefix(block: PhantomBlock, k: int)
    requires
        0 <= k <= block.transactions@.len(),
        accumulated_gas_nondecreasing(block, block.transactions@.len() as int),
    ensures
        total_gas_used(tx_records(block).take(k)) == gas_before(block, k),
    decreases k,
{
    if k > 0 {
        lemma_gas_prefix(block, k - 1);
        assert(tx_records(block).take(k).drop_last() =~= tx_records(block).take(k - 1));
        if k > 1 {
            assert(low_u64(block.receipts@[k - 2].accumulated_gas_used) <= low_u64(
                block.receipts@[k - 1].accumulated_gas_used,
            ));
        }
    }
}

/// The gas used by the transactions of a block adds up to the accumulated gas of
/// the last one, when accumulated gas never decreases from receipt to receipt.
pub proof fn law_tx_gas_used_sums_to_accumulated(block: PhantomBlock)
    requires
        block.transactions@.len() > 0,
        accumulated_gas_nondecreasing(block, block.transactions@.len() as int),
    ensures
        total_gas_used(tx_records(block)) == low_u64(
            block.receipts@[block.transactions@.len() - 1].accumulated_gas_used,
        ),
{
    let n = block.transactions@.len() as int;
    lemma_gas_prefix(block, n);
    assert(tx_records(block).take(n) =~= tx_records(block));
    assert(tx_records(block).take(n).last().gas_used == sat_sub(
        low_u64(block.receipts@[n - 1].accumulated_gas_used),
        gas_before(block, n - 1),
    ));
}

// ------------------------------------------------------------
// Executable export
// ------------------------------------------------------------

proof fn lemma_block_traces_ok_prefix(
    block: PhantomBlock,
    raws: Seq<RawDebankTrace>,
    addrs: Seq<Seq<char>>,
    i: int,
    k: int,
)
    requires
        0 <= i < k,
        block_traces_ok(block, raws, addrs, k),
    ensures
        tx_traces_ok(block, raws, addrs, i, block_traces_fold(block, raws, addrs, i)),
    decreases k,
{
    if i < k - 1 {
        lemma_block_traces_ok_prefix(block, raws, addrs, i, k - 1);
    }
}

/// The transaction records of a block.
fn build_tx_records(block: &PhantomBlock) -> (r: Vec<DebankTransaction>)
    requires
        block.height != 0,
        block_inputs_ok(*block, None),
    ensures
        r@.map_values(|t: DebankTransaction| t@) == tx_records(*block),
{
    let n = block.transactions.len();
    let mut txs: Vec<DebankTransaction> = Vec::new();
    let mut cumulative_gas: u64 = 0;
    let mut i: usize = 0;
    while i < n
        invariant
            i <= n,
            n == block.transactions@.len(),
            block.height != 0,
            block_inputs_ok(*block, None),
            cumulative_gas == gas_before(*block, i as int),
            txs@.map_values(|t: DebankTransaction| t@) == tx_records(*block).take(i as int),
        decreases n - i,
    {
        let tx = &block.transactions[i];
        let receipt = &block.receipts[i];
        proof {
            assert(block.transactions@[i as int] == *tx);
        }
        let accumulated = u256_as_u64(&receipt.accumulated_gas_used);
        let gas_used = accumulated.saturating_sub(cumulative_gas);
        cumulative_gas = accumulated;
        let gas_price = u256_as_u64(&tx.gas_price);
        let tip = u256_as_u64(&tx.max_priority_gas_price);
        let effective_gas_price = match &block.base_price {
            Some(bp) => {
                let base = u256_as_u64(bp);
                let cap = base + tip;
                if gas_price <= cap {
                    gas_price
                } else {
                    cap
                }
            },
            None => gas_price,
        };
        let to_addr = match &tx.action {
            TxAction::Call(addr) => format_address(addr),
            TxAction::Create => "0x".to_owned(),
        };
        let record = DebankTransaction {
            id: format_hash(&tx.hash),
            from_addr: format_address(&tx.sender),
            to_addr,
            gas_limit: u256_as_u64(&tx.gas_limit),
            gas_price: effective_gas_price,
            gas_used,
            status: receipt.success,
            max_fee_per_gas: gas_price,
            max_priority_fee_per_gas: tip,
            input: copy_bytes(tx.data.as_slice()),
            nonce: u256_as_u64(&tx.nonce),
            idx: i as i64,
            value: tx.value,
        };
        proof {
            assert(record@ == tx_record(*block, i as int));
        }
        let ghost prev = txs@;
        txs.push(record);
        proof {
            assert(txs@.map_values(|t: DebankTransaction| t@) =~= prev.map_values(
                |t: DebankTransaction| t@,
            ).push(record@));
            assert(tx_records(*block).take(i + 1) =~= tx_records(*block).take(i as int).push(
                tx_record(*block, i as int),
            ));
        }
        i += 1;
    }
    proof {
        assert(tx_records(*block).take(n as int) =~= tx_records(*block));
    }
    txs
}

/// The `0x` hex addresses of the accounts with storage changes.
fn storage_change_addrs(diff: &DebankStateDiff) -> (r: Vec<String>)
    ensures
        texts_view(r@) == storage_change_addrs_spec(*diff),
{
    let ghost accs = diff.accounts@;
    let mut r: Vec<String> = Vec::new();
    let mut i: usize = 0;
    while i < diff.accounts.len()
        invariant
            i <= accs.len(),
            accs == diff.accounts@,
            texts_view(r@) == storage_change_addrs_of(accs.take(i as int)),
        decreases diff.accounts.len() - i,
    {
        proof {
            assert(accs.take(i + 1).drop_last() =~= accs.take(i as int));
            assert(accs.take(i + 1).last() == accs[i as int]);
        }
        let acc = &diff.accounts[i];
        if acc.storage_changes.len() > 0 {
            let ghost prev = r@;
            r.push(format_address(&acc.address));
            proof {
                assert(texts_view(r@) =~= texts_view(prev).push(prefixed_hex(acc.address@)));
            }
        }
        i += 1;
    }
    proof {
        assert(accs.take(accs.len() as int) =~= accs);
    }
    r
}

/// The last Ethereum-space arena recorded for a transaction hash.
fn find_arena_index(raws: &Vec<RawDebankTrace>, h: &H256) -> (r: Option<usize>)
    ensures
        match r {
            Some(j) => find_arena(raws@, h@) == Some(j as int) && j < raws@.len(),
            None => find_arena(raws@, h@) is None,
        },
{
    let mut k: usize = raws.len();
    proof {
        assert(raws@.take(k as int) =~= raws@);
    }
    while k > 0
        invariant
            k <= raws@.len(),
            find_arena(raws@, h@) == find_arena(raws@.take(k as int), h@),
        decreases k,
    {
        let raw = &raws[k - 1];
        proof {
            assert(raws@.take(k as int).last() == raws@[k - 1]);
            assert(raws@.take(k as int).drop_last() =~= raws@.take(k - 1));
        }
        if raw.is_ethereum_space && bytes32_eq(&raw.tx_hash, h) {
            return Some(k - 1);
        }
        k -= 1;
    }
    None
}

fn append_traces(all: &mut Vec<DebankTrace>, more: &mut Vec<DebankTrace>)
    ensures
        crate::debank::traces_view(final(all)@) == crate::debank::traces_view(old(all)@)
            + crate::debank::traces_view(old(more)@),
{
    all.append(more);
    proof {
        assert(crate::debank::traces_view(all@) =~= crate::debank::traces_view(old(all)@)
            + crate::debank::traces_view(old(more)@));
    }
}

fn append_events(all: &mut Vec<DebankEvent>, more: &mut Vec<DebankEvent>)
    ensures
        crate::debank::events_view(final(all)@) == crate::debank::events_view(old(all)@)
            + crate::debank::events_view(old(more)@),
{
    all.append(more);
    proof {
        assert(crate::debank::events_view(all@) =~= crate::debank::events_view(old(all)@)
            + crate::debank::events_view(old(more)@));
    }
}

fn append_texts(all: &mut Vec<String>, more: &mut Vec<String>)
    ensures
        texts_view(final(all)@) == texts_view(old(all)@) + texts_view(old(more)@),
{
    all.append(more);
    proof {
        assert(texts_view(all@) =~= texts_view(old(all)@) + texts_view(old(more)@));
    }
}


/// The traces, events and storage contracts of all transactions of a block.
fn build_block_traces(
    block: &PhantomBlock,
    raws: &Vec<RawDebankTrace>,
    addrs: &Vec<String>,
) -> (res: (Vec<DebankTrace>, Vec<DebankTrace>, Vec<DebankEvent>, Vec<DebankEvent>, Vec<String>))
    requires
        block_traces_ok(*block, raws@, texts_view(addrs@), block.transactions@.len() as int),
    ensures
        ({
            let w = block_traces_fold(
                *block,
                raws@,
                texts_view(addrs@),
                block.transactions@.len() as int,
            );
            &&& crate::debank::traces_view(res.0@) == w.traces
            &&& crate::debank::traces_view(res.1@) == w.error_traces
            &&& crate::debank::events_view(res.2@) == w.events
            &&& crate::debank::events_view(res.3@) == w.error_events
            &&& texts_view(res.4@) == w.storage_contracts
        }),
{
    let ghost addrs_v = texts_view(addrs@);
    let n = block.transactions.len();
    let mut all_traces: Vec<DebankTrace> = Vec::new();
    let mut all_error_traces: Vec<DebankTrace> = Vec::new();
    let mut all_events: Vec<DebankEvent> = Vec::new();
    let mut all_error_events: Vec<DebankEvent> = Vec::new();
    let mut storage_contracts: Vec<String> = Vec::new();
    let mut global_log_index: i64 = 0;
    proof {
        assert(walk_state_of(
            all_traces@,
            all_error_traces@,
            all_events@,
            all_error_events@,
            storage_contracts@,
            global_log_index,
        ) =~= fresh_walk(0));
    }
    let mut i: usize = 0;
    while i < n
        invariant
            i <= n,
            n == block.transactions@.len(),
            addrs_v == texts_view(addrs@),
            block_traces_ok(*block, raws@, addrs_v, n as int),
            walk_state_of(
                all_traces@,
                all_error_traces@,
                all_events@,
                all_error_events@,
                storage_contracts@,
                global_log_index,
            ) == block_traces_fold(*block, raws@, addrs_v, i as int),
        decreases n - i,
    {
        let ghost st = block_traces_fold(*block, raws@, addrs_v, i as int);
        proof {
            lemma_block_traces_ok_prefix(*block, raws@, addrs_v, i as int, n as int);
        }
        let tx = &block.transactions[i];
        let tx_id = format_hash(&tx.hash);
        match find_arena_index(raws, &tx.hash) {
            Some(j) => {
                let arena = &raws[j].arena;
                proof {
                    assert(raws@[j as int].arena == *arena);
                    assert(block.transactions@[i as int] == *tx);
                    assert(global_log_index as int == st.log_index);
                    assert(walk_state_of(seq![], seq![], seq![], seq![], seq![], global_log_index)
                        =~= fresh_walk(st.log_index));
                    assert(tx_traces_ok(*block, raws@, addrs_v, i as int, st));
                }
                let (mut traces, mut err_traces, mut events, mut err_events, mut contracts) =
                    build_debank_traces_from_arena(
                    tx_id.as_str(),
                    arena,
                    &mut global_log_index,
                    addrs,
                );
                proof {
                    let w = arena_walk(*arena, addrs_v, tx_id@, st.log_index);
                    if arena.arena@.len() == 0 {
                        assert(crate::debank::traces_view(traces@) =~= w.traces);
                        assert(crate::debank::traces_view(err_traces@) =~= w.error_traces);
                        assert(crate::debank::events_view(events@) =~= w.events);
                        assert(crate::debank::events_view(err_events@) =~= w.error_events);
                        assert(texts_view(contracts@) =~= w.storage_contracts);
                    } else {
                        assert(walk_state_of(seq![], seq![], seq![], seq![], seq![], st.log_index as i64)
                            =~= fresh_walk(st.log_index));
                    }
                }
                append_traces(&mut all_traces, &mut traces);
                append_traces(&mut all_error_traces, &mut err_traces);
                append_events(&mut all_events, &mut events);
                append_events(&mut all_error_events, &mut err_events);
                append_texts(&mut storage_contracts, &mut contracts);
            },
            None => {
                if i < block.traces.len() {
                    let (mut traces, mut err_traces, _events, _err_events) =
                        build_debank_traces_from_parity(
                        tx_id.as_str(),
                        &block.traces[i],
                        &mut global_log_index,
                    );
                    append_traces(&mut all_traces, &mut traces);
                    append_traces(&mut all_error_traces, &mut err_traces);
                    proof {
                        assert(crate::debank::events_view(all_events@) =~= st.events + seq![]);
                        assert(crate::debank::events_view(all_error_events@) =~= st.error_events
                            + seq![]);
                        assert(texts_view(storage_contracts@) =~= st.storage_contracts + seq![]);
                    }
                }
            },
        }
        i += 1;
    }
    (all_traces, all_error_traces, all_events, all_error_events, storage_contracts)
}

/// Builds the export of a block: the block record (all zero amounts for the
/// genesis block), the transaction records, the traces and events of every
/// transaction (from its recorded arena when re-execution recorded one, else from
/// its parity trace), the storage contracts, the validation hash of the block
/// file, and the hashed state diff. `collected` holds what re-executing the epoch
/// gave, present exactly when the block is not the genesis block and has
/// transactions (only such a block is re-executed).
pub fn build_debank_block(
    block: &PhantomBlock,
    process_start_timestamp: i64,
    collected: Option<(Vec<RawDebankTrace>, DebankStateDiff)>,
) -> (out: DebankBlockOutput)
    requires
        block_inputs_ok(*block, collected_view(collected)),
        collected is Some <==> collects_traces(*block),
    ensures
        out.block_file@ == block_file_spec(*block, process_start_timestamp, collected_view(collected)),
        out.validation_hash == validation_hash_spec(block_file_view_ids(out.block_file@)),
        out.validation_hash == validation_hash_spec(crate::debank::block_file_ids(out.block_file)),
        out.storage_diff@ == storage_diff_spec(*block, collected_view(collected)),
{
    let hash_id = format_hash(&block.hash);
    let parent_id = format_hash(&block.parent_hash);
    let miner = format_address(&block.author);
    if block.height == 0 {
        let block_file = BlockFile {
            block: DebankBlock {
                id: hash_id,
                height: 0,
                parent_id,
                base_fee_per_gas: 0,
                miner,
                gas_limit: 0,
                gas_used: 0,
                timestamp: block.timestamp,
                process_start_timestamp,
            },
            txs: Vec::new(),
            events: Vec::new(),
            traces: Vec::new(),
            error_events: Vec::new(),
            error_traces: Vec::new(),
            storage_contracts: Vec::new(),
        };
        let validation = block_file.validation();
        proof {
            crate::debank::lemma_block_file_ids_view(block_file);
            assert(block_file@ =~= block_file_spec(*block, process_start_timestamp, collected_view(collected)));
        }
        let storage_diff = BlockStorageDiff::default();
        proof {
            assert(storage_diff@ =~= storage_diff_spec(*block, collected_view(collected)));
        }
        return DebankBlockOutput {
            block_file,
            validation_hash: validation.validation_hash,
            storage_diff,
        };
    }
    let base_fee_per_gas = match &block.base_price {
        Some(bp) => u256_as_u64(bp),
        None => 0,
    };
    let rl = block.receipts.len();
    let gas_used = if rl > 0 {
        u256_as_u64(&block.receipts[rl - 1].accumulated_gas_used)
    } else {
        0
    };
    let debank_block = DebankBlock {
        id: hash_id,
        height: block.height,
        parent_id,
        base_fee_per_gas,
        miner,
        gas_limit: u256_as_u64(&block.total_gas_limit),
        gas_used,
        timestamp: block.timestamp,
        process_start_timestamp,
    };
    let txs = build_tx_records(block);
    let mut traces: Vec<DebankTrace> = Vec::new();
    let mut error_traces: Vec<DebankTrace> = Vec::new();
    let mut events: Vec<DebankEvent> = Vec::new();
    let mut error_events: Vec<DebankEvent> = Vec::new();
    let mut storage_contracts: Vec<String> = Vec::new();
    let mut raw_state_diff: Option<DebankStateDiff> = None;
    if block.transactions.len() > 0 {
        match collected {
            Some((raw_traces, state_diff)) => {
                let addrs = storage_change_addrs(&state_diff);
                let (t, et, ev, eev, c) = build_block_traces(block, &raw_traces, &addrs);
                traces = t;
                error_traces = et;
                events = ev;
                error_events = eev;
                storage_contracts = c;
                raw_state_diff = Some(state_diff);
            },
            None => {},
        }
    }
    let block_file = BlockFile {
        block: debank_block,
        txs,
        events,
        traces,
        error_events,
        error_traces,
        storage_contracts,
    };
    let validation = block_file.validation();
    proof {
        crate::debank::lemma_block_file_ids_view(block_file);
        assert(crate::debank::traces_view(Seq::<DebankTrace>::empty()) =~= fresh_walk(0).traces);
        assert(crate::debank::events_view(Seq::<DebankEvent>::empty()) =~= fresh_walk(0).events);
        assert(texts_view(Seq::<String>::empty()) =~= fresh_walk(0).storage_contracts);
        assert(block_file@ =~= block_file_spec(*block, process_start_timestamp, collected_view(collected)));
    }
    let storage_diff = match raw_state_diff {
        Some(raw_diff) => build_block_storage_diff(&block.hash, &block.parent_hash, raw_diff),
        None => BlockStorageDiff {
            hash: block.hash,
            parent_hash: block.parent_hash,
            new_accounts: Vec::new(),
            deleted_accounts: Vec::new(),
            storage_diff: Vec::new(),
            new_codes: Vec::new(),
        },
    };
    proof {
        assert(storage_diff@ =~= storage_diff_spec(*block, collected_view(collected)));
    }
    DebankBlockOutput { block_file, validation_hash: validation.validation_hash, storage_diff }
}

/// What was collected, with the recorded arenas as a sequence.
pub open spec fn collected_view(c: Option<(Vec<RawDebankTrace>, DebankStateDiff)>) -> Option<
    (Seq<RawDebankTrace>, DebankStateDiff),
> {
    match c {
        Some(p) => Some((p.0@, p.1)),
        None => None,
    }
}

} // verus!
