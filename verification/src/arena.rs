//! Debank traces and events from a call-trace arena (the tree of frames that
//! re-executing an Ethereum-space transaction records).

use vstd::prelude::*;
use vstd::string::*;
use crate::bytes::copy_bytes;
use crate::debank::{
    events_view, traces_view, DebankEvent, DebankEventView, DebankTrace, DebankTraceView, H160,
    H256, U256,
};
use crate::hashing::{debank_id_pair, debank_id_triple, id_of_pair, id_of_triple};
use crate::hexfmt::{format_address, format_hash, prefixed_hex};
use crate::parity::copy_positions;

verus! {

/// The kind of a frame.
pub enum CallKind {
    Call,
    StaticCall,
    CallCode,
    DelegateCall,
    Create,
    Create2,
}

/// One entry of a frame's ordering: one of its logs, or one of its child frames.
pub enum LogCallOrder {
    Log(usize),
    Call(usize),
}

/// An event log.
pub struct LogData {
    pub topics: Vec<H256>,
    pub data: Vec<u8>,
}

/// How a failed frame ended.
pub enum TraceStatus {
    Revert,
    OutOfGas,
    /// Any other instruction result, by its name.
    Other(String),
}

/// What a frame did.
pub struct CallTrace {
    pub caller: H160,
    pub address: H160,
    pub kind: CallKind,
    pub value: U256,
    pub data: Vec<u8>,
    pub output: Vec<u8>,
    pub gas_used: u64,
    pub gas_limit: u64,
    pub is_error: bool,
    pub status: TraceStatus,
    pub selfdestruct_refund_target: Option<H160>,
}

/// A frame of the arena, with the indices of its children in the arena, the
/// order of its logs and child calls, and the address whose storage it runs on.
pub struct CallTraceNode {
    pub children: Vec<usize>,
    pub ordering: Vec<LogCallOrder>,
    pub logs: Vec<LogData>,
    pub trace: CallTrace,
    pub execution_address: H160,
    pub is_selfdestruct: bool,
}

/// The frames of a transaction; the root is at index 0.
pub struct CallTraceArena {
    pub arena: Vec<CallTraceNode>,
}

/// A well-formed arena: every child sits after its parent, every ordering entry
/// names an existing log or child, and no ordering is too long to count in an
/// `i64`.
pub open spec fn arena_wf(arena: Seq<CallTraceNode>) -> bool {
    forall|i: int|
        0 <= i < arena.len() ==> {
            let node = #[trigger] arena[i];
            &&& node.ordering@.len() < i64::MAX
            &&& forall|c: int| 0 <= c < node.children@.len() ==> i < #[trigger] node.children@[c] < arena.len()
            &&& forall|k: int|
                0 <= k < node.ordering@.len() ==> match #[trigger] node.ordering@[k] {
                    LogCallOrder::Log(l) => l < node.logs@.len(),
                    LogCallOrder::Call(c) => c < node.children@.len(),
                }
        }
}

/// The outputs of the walk so far.
#[verifier::ext_equal]
pub struct WalkState {
    pub traces: Seq<DebankTraceView>,
    pub error_traces: Seq<DebankTraceView>,
    pub events: Seq<DebankEventView>,
    pub error_events: Seq<DebankEventView>,
    pub storage_contracts: Seq<Seq<char>>,
    pub log_index: int,
}

/// The progress through one frame's ordering.
#[verifier::ext_equal]
pub struct FrameProgress {
    pub child_has_storage: bool,
    pub call_pos: int,
    pub log_pos: int,
}

/// The call-create type and call type texts of a frame kind.
pub open spec fn kind_names(kind: CallKind) -> (Seq<char>, Seq<char>) {
    match kind {
        CallKind::Call => ("call"@, "call"@),
        CallKind::StaticCall => ("call"@, "staticcall"@),
        CallKind::DelegateCall => ("call"@, "delegatecall"@),
        CallKind::CallCode => ("call"@, "callcode"@),
        CallKind::Create => ("create"@, "create"@),
        CallKind::Create2 => ("create"@, "create"@),
    }
}

/// The error text of a failed frame.
pub open spec fn status_text(status: TraceStatus) -> Seq<char> {
    match status {
        TraceStatus::Revert => "execution reverted"@,
        TraceStatus::OutOfGas => "out of gas"@,
        TraceStatus::Other(name) => name@,
    }
}

/// The event of a log.
pub open spec fn log_event(
    log: LogData,
    trace_id: Seq<char>,
    contract_id: Seq<char>,
    log_pos: int,
    log_index: int,
) -> DebankEventView {
    DebankEventView {
        id: id_of_pair(trace_id, log_pos as i64),
        contract_id,
        selector: if log.topics@.len() > 0 {
            prefixed_hex(log.topics@[0]@)
        } else {
            seq![]
        },
        topics: log.topics@.map_values(|t: H256| prefixed_hex(t@)),
        data: log.data@,
        parent_trace_id: trace_id,
        pos_in_parent_trace: log_pos as i64,
        idx: log_index as i64,
    }
}

/// Records an event among the events, or among the error events of a failed frame.
pub open spec fn record_event(st: WalkState, e: DebankEventView, is_error: bool) -> WalkState {
    WalkState {
        traces: st.traces,
        error_traces: st.error_traces,
        events: if is_error {
            st.events
        } else {
            st.events.push(e)
        },
        error_events: if is_error {
            st.error_events.push(e)
        } else {
            st.error_events
        },
        storage_contracts: st.storage_contracts,
        log_index: st.log_index + 1,
    }
}

/// Records a trace among the traces, or among the error traces.
pub open spec fn record_trace(st: WalkState, t: DebankTraceView, is_error: bool) -> WalkState {
    WalkState {
        traces: if is_error {
            st.traces
        } else {
            st.traces.push(t)
        },
        error_traces: if is_error {
            st.error_traces.push(t)
        } else {
            st.error_traces
        },
        events: st.events,
        error_events: st.error_events,
        storage_contracts: st.storage_contracts,
        log_index: st.log_index,
    }
}

/// Records a storage contract unless it is already recorded.
pub open spec fn record_contract(st: WalkState, addr: Seq<char>) -> WalkState {
    WalkState {
        traces: st.traces,
        error_traces: st.error_traces,
        events: st.events,
        error_events: st.error_events,
        storage_contracts: if st.storage_contracts.contains(addr) {
            st.storage_contracts
        } else {
            st.storage_contracts.push(addr)
        },
        log_index: st.log_index,
    }
}

/// The trace of a self-destruct: a "suicide" from the frame's address to the
/// refund target, placed after the frame's child calls.
pub open spec fn suicide_trace(
    tx_id: Seq<char>,
    trace_id: Seq<char>,
    trace: CallTrace,
    target: H160,
    sd_pos: int,
    trace_address: Seq<i64>,
) -> DebankTraceView {
    DebankTraceView {
        id: id_of_triple(tx_id, trace_id, sd_pos as i64),
        from_addr: prefixed_hex(trace.address@),
        gas_limit: 0,
        input: seq![],
        to_addr: prefixed_hex(target@),
        value: trace.value@,
        gas_used: 0,
        output: seq![],
        call_create_type: "suicide"@,
        call_type: "suicide"@,
        tx_id,
        parent_trace_id: trace_id,
        pos_in_parent_trace: sd_pos as i64,
        self_storage_change: false,
        storage_change: false,
        subtraces: 0,
        trace_address: trace_address.push(sd_pos as i64),
        error: seq![],
    }
}

/// The trace of a frame.
pub open spec fn frame_trace(
    tx_id: Seq<char>,
    trace_id: Seq<char>,
    trace: CallTrace,
    parent_trace_id: Seq<char>,
    pos: i64,
    trace_address: Seq<i64>,
    self_storage_change: bool,
    storage_change: bool,
    subtraces: int,
) -> DebankTraceView {
    DebankTraceView {
        id: trace_id,
        from_addr: prefixed_hex(trace.caller@),
        gas_limit: trace.gas_limit,
        input: trace.data@,
        to_addr: prefixed_hex(trace.address@),
        value: trace.value@,
        gas_used: trace.gas_used,
        output: trace.output@,
        call_create_type: kind_names(trace.kind).0,
        call_type: kind_names(trace.kind).1,
        tx_id,
        parent_trace_id,
        pos_in_parent_trace: pos,
        self_storage_change,
        storage_change,
        subtraces: subtraces as i64,
        trace_address,
        error: if trace.is_error {
            status_text(trace.status)
        } else {
            seq![]
        },
    }
}

/// Walks the first `k` entries of frame `i`'s ordering, from walk state `st`:
/// each log becomes an event, each child call is walked in turn.
pub open spec fn walk_orders(
    arena: Seq<CallTraceNode>,
    addrs: Seq<Seq<char>>,
    tx_id: Seq<char>,
    i: int,
    trace_id: Seq<char>,
    trace_address: Seq<i64>,
    k: int,
    st: WalkState,
) -> (WalkState, FrameProgress)
    decreases arena.len() - i, k, 0int,
{
    if k <= 0 || !(0 <= i < arena.len()) || k > arena[i].ordering@.len() {
        (st, FrameProgress { child_has_storage: false, call_pos: 0, log_pos: 0 })
    } else {
        let node = arena[i];
        let (prev, fr) = walk_orders(arena, addrs, tx_id, i, trace_id, trace_address, k - 1, st);
        match node.ordering@[k - 1] {
            LogCallOrder::Call(c) => {
                let child = if c < node.children@.len() {
                    node.children@[c as int] as int
                } else {
                    0
                };
                if i < child < arena.len() {
                    let (next, sc) = walk_node(
                        arena,
                        addrs,
                        tx_id,
                        child,
                        trace_id,
                        fr.call_pos as i64,
                        trace_address.push(fr.call_pos as i64),
                        prev,
                    );
                    (
                        next,
                        FrameProgress {
                            child_has_storage: fr.child_has_storage || sc,
                            call_pos: fr.call_pos + 1,
                            log_pos: fr.log_pos,
                        },
                    )
                } else {
                    (
                        prev,
                        FrameProgress {
                            child_has_storage: fr.child_has_storage,
                            call_pos: fr.call_pos + 1,
                            log_pos: fr.log_pos,
                        },
                    )
                }
            },
            LogCallOrder::Log(l) => {
                let log = node.logs@[l as int];
                let e = log_event(
                    log,
                    trace_id,
                    prefixed_hex(node.execution_address@),
                    fr.log_pos,
                    prev.log_index,
                );
                (
                    record_event(prev, e, node.trace.is_error),
                    FrameProgress {
                        child_has_storage: fr.child_has_storage,
                        call_pos: fr.call_pos,
                        log_pos: fr.log_pos + 1,
                    },
                )
            },
        }
    }
}

/// Walks frame `i` (placed at position `pos` below the frame `parent_trace_id`,
/// at trace address `trace_address`): records the storage contract of a frame
/// whose execution address changed storage, walks its ordering, then records its
/// trace and, for a self-destruct, the suicide trace. Also gives whether the frame
/// or one below it changed storage.
pub open spec fn walk_node(
    arena: Seq<CallTraceNode>,
    addrs: Seq<Seq<char>>,
    tx_id: Seq<char>,
    i: int,
    parent_trace_id: Seq<char>,
    pos: i64,
    trace_address: Seq<i64>,
    st: WalkState,
) -> (WalkState, bool)
    decreases arena.len() - i, arena[i].ordering@.len() + 1, 1int,
{
    if !(0 <= i < arena.len()) {
        (st, false)
    } else {
        let node = arena[i];
        let trace = node.trace;
        let trace_id = id_of_triple(tx_id, parent_trace_id, pos);
        let exec_addr = prefixed_hex(node.execution_address@);
        let self_storage_change = addrs.contains(exec_addr);
        let st1 = if self_storage_change {
            record_contract(st, exec_addr)
        } else {
            st
        };
        let (st2, fr) = walk_orders(
            arena,
            addrs,
            tx_id,
            i,
            trace_id,
            trace_address,
            node.ordering@.len() as int,
            st1,
        );
        let storage_change = self_storage_change || fr.child_has_storage;
        let st3 = record_trace(
            st2,
            frame_trace(
                tx_id,
                trace_id,
                trace,
                parent_trace_id,
                pos,
                trace_address,
                self_storage_change,
                storage_change,
                fr.call_pos,
            ),
            trace.is_error,
        );
        let st4 = match trace.selfdestruct_refund_target {
            Some(target) => if node.is_selfdestruct {
                record_trace(
                    st3,
                    suicide_trace(tx_id, trace_id, trace, target, fr.call_pos, trace_address),
                    false,
                )
            } else {
                st3
            },
            None => st3,
        };
        (st4, storage_change)
    }
}


// ------------------------------------------------------------
// The log index only grows
// ------------------------------------------------------------

/// Walking part of an ordering never lowers the log index, and the positions
/// stay within the walked length.
pub proof fn lemma_walk_orders_mono(
    arena: Seq<CallTraceNode>,
    addrs: Seq<Seq<char>>,
    tx_id: Seq<char>,
    i: int,
    trace_id: Seq<char>,
    trace_address: Seq<i64>,
    k: int,
    st: WalkState,
)
    ensures
        walk_orders(arena, addrs, tx_id, i, trace_id, trace_address, k, st).0.log_index
            >= st.log_index,
        0 <= walk_orders(arena, addrs, tx_id, i, trace_id, trace_address, k, st).1.call_pos <= if k
            > 0 {
            k
        } else {
            0
        },
        0 <= walk_orders(arena, addrs, tx_id, i, trace_id, trace_address, k, st).1.log_pos <= if k
            > 0 {
            k
        } else {
            0
        },
    decreases arena.len() - i, k, 0int,
{
    if k > 0 && 0 <= i < arena.len() && k <= arena[i].ordering@.len() {
        lemma_walk_orders_mono(arena, addrs, tx_id, i, trace_id, trace_address, k - 1, st);
        let node = arena[i];
        let (prev, fr) = walk_orders(arena, addrs, tx_id, i, trace_id, trace_address, k - 1, st);
        match node.ordering@[k - 1] {
            LogCallOrder::Call(c) => {
                let child = if c < node.children@.len() {
                    node.children@[c as int] as int
                } else {
                    0
                };
                if i < child < arena.len() {
                    lemma_walk_node_mono(
                        arena,
                        addrs,
                        tx_id,
                        child,
                        trace_id,
                        fr.call_pos as i64,
                        trace_address.push(fr.call_pos as i64),
                        prev,
                    );
                }
            },
            LogCallOrder::Log(l) => {},
        }
    }
}

/// Walking a frame never lowers the log index.
pub proof fn lemma_walk_node_mono(
    arena: Seq<CallTraceNode>,
    addrs: Seq<Seq<char>>,
    tx_id: Seq<char>,
    i: int,
    parent_trace_id: Seq<char>,
    pos: i64,
    trace_address: Seq<i64>,
    st: WalkState,
)
    ensures
        walk_node(arena, addrs, tx_id, i, parent_trace_id, pos, trace_address, st).0.log_index
            >= st.log_index,
    decreases arena.len() - i, arena[i].ordering@.len() + 1, 1int,
{
    if 0 <= i < arena.len() {
        let node = arena[i];
        let trace_id = id_of_triple(tx_id, parent_trace_id, pos);
        let exec_addr = prefixed_hex(node.execution_address@);
        let st1 = if addrs.contains(exec_addr) {
            record_contract(st, exec_addr)
        } else {
            st
        };
        lemma_walk_orders_mono(
            arena,
            addrs,
            tx_id,
            i,
            trace_id,
            trace_address,
            node.ordering@.len() as int,
            st1,
        );
    }
}

/// A longer prefix of an ordering never leaves a lower log index.
pub proof fn lemma_walk_orders_prefix(
    arena: Seq<CallTraceNode>,
    addrs: Seq<Seq<char>>,
    tx_id: Seq<char>,
    i: int,
    trace_id: Seq<char>,
    trace_address: Seq<i64>,
    j: int,
    k: int,
    st: WalkState,
)
    requires
        0 <= j <= k,
        0 <= i < arena.len(),
        k <= arena[i].ordering@.len(),
    ensures
        walk_orders(arena, addrs, tx_id, i, trace_id, trace_address, j, st).0.log_index
            <= walk_orders(arena, addrs, tx_id, i, trace_id, trace_address, k, st).0.log_index,
    decreases k,
{
    if j < k {
        lemma_walk_orders_prefix(arena, addrs, tx_id, i, trace_id, trace_address, j, k - 1, st);
        let node = arena[i];
        let (prev, fr) = walk_orders(arena, addrs, tx_id, i, trace_id, trace_address, k - 1, st);
        match node.ordering@[k - 1] {
            LogCallOrder::Call(c) => {
                let child = if c < node.children@.len() {
                    node.children@[c as int] as int
                } else {
                    0
                };
                if i < child < arena.len() {
                    lemma_walk_node_mono(
                        arena,
                        addrs,
                        tx_id,
                        child,
                        trace_id,
                        fr.call_pos as i64,
                        trace_address.push(fr.call_pos as i64),
                        prev,
                    );
                }
            },
            LogCallOrder::Log(l) => {},
        }
    }
}


/// Whether no text occurs twice.
pub open spec fn no_duplicates(s: Seq<Seq<char>>) -> bool {
    forall|i: int, j: int| 0 <= i < j < s.len() ==> #[trigger] s[i] != #[trigger] s[j]
}

/// `a` is a prefix of `b`.
pub open spec fn extends<T>(a: Seq<T>, b: Seq<T>) -> bool {
    &&& a.len() <= b.len()
    &&& forall|k: int| 0 <= k < a.len() ==> #[trigger] b[k] == a[k]
}

/// The events of `new` past those of `old` carry indices from `lo` up to (not
/// including) `hi`, in increasing order.
pub open spec fn new_indices_within(
    old: Seq<DebankEventView>,
    new: Seq<DebankEventView>,
    lo: int,
    hi: int,
) -> bool {
    &&& forall|k: int| old.len() <= k < new.len() ==> lo <= #[trigger] new[k].idx < hi
    &&& forall|k1: int, k2: int|
        old.len() <= k1 < k2 < new.len() ==> #[trigger] new[k1].idx < #[trigger] new[k2].idx
}

/// No index that `w` gives a new event is also given to a new error event.
pub open spec fn new_indices_apart(st: WalkState, w: WalkState) -> bool {
    forall|k1: int, k2: int|
        st.events.len() <= k1 < w.events.len() && st.error_events.len() <= k2 < w.error_events.len()
            ==> #[trigger] w.events[k1].idx != #[trigger] w.error_events[k2].idx
}

/// How the outputs grow from `st` to `w`: every output only gains entries at its
/// end, the log index never falls, one event is added per log index handed out,
/// each storage contract is recorded at most once, and (while the log index stays
/// within `i64`) the new events and error events carry the handed-out indices,
/// each once, in increasing order within each list.
pub open spec fn walk_grows(st: WalkState, w: WalkState) -> bool {
    &&& st.log_index <= w.log_index
    &&& w.events.len() + w.error_events.len() - (st.events.len() + st.error_events.len())
        == w.log_index - st.log_index
    &&& extends(st.traces, w.traces)
    &&& extends(st.error_traces, w.error_traces)
    &&& extends(st.events, w.events)
    &&& extends(st.error_events, w.error_events)
    &&& extends(st.storage_contracts, w.storage_contracts)
    &&& (no_duplicates(st.storage_contracts) ==> no_duplicates(w.storage_contracts))
    &&& (0 <= st.log_index && w.log_index <= i64::MAX ==> {
        &&& new_indices_within(st.events, w.events, st.log_index, w.log_index)
        &&& new_indices_within(st.error_events, w.error_events, st.log_index, w.log_index)
        &&& new_indices_apart(st, w)
    })
}

/// What the walk of transaction `tx_id` keeps from `st` to `w`: the outputs grow
/// as `walk_grows` says, every new trace and error trace carries `tx_id`, and
/// every new storage contract is one of the addresses with storage changes.
pub open spec fn walk_keeps(tx_id: Seq<char>, addrs: Seq<Seq<char>>, st: WalkState, w: WalkState) -> bool {
    &&& walk_grows(st, w)
    &&& forall|k: int| st.traces.len() <= k < w.traces.len() ==> (#[trigger] w.traces[k]).tx_id == tx_id
    &&& forall|k: int|
        st.error_traces.len() <= k < w.error_traces.len() ==> (#[trigger] w.error_traces[k]).tx_id == tx_id
    &&& forall|k: int|
        st.storage_contracts.len() <= k < w.storage_contracts.len() ==> addrs.contains(
            #[trigger] w.storage_contracts[k],
        )
}

proof fn lemma_grows_refl(st: WalkState)
    ensures
        walk_grows(st, st),
{
}

proof fn lemma_grows_trans(a: WalkState, b: WalkState, c: WalkState)
    requires
        walk_grows(a, b),
        walk_grows(b, c),
    ensures
        walk_grows(a, c),
{
    assert(extends(a.traces, c.traces)) by {
        assert forall|k: int| 0 <= k < a.traces.len() implies #[trigger] c.traces[k] == a.traces[k] by {
            assert(c.traces[k] == b.traces[k]);
        }
    }
    assert(extends(a.error_traces, c.error_traces)) by {
        assert forall|k: int| 0 <= k < a.error_traces.len() implies #[trigger] c.error_traces[k]
            == a.error_traces[k] by {
            assert(c.error_traces[k] == b.error_traces[k]);
        }
    }
    assert(extends(a.events, c.events)) by {
        assert forall|k: int| 0 <= k < a.events.len() implies #[trigger] c.events[k] == a.events[k] by {
            assert(c.events[k] == b.events[k]);
        }
    }
    assert(extends(a.error_events, c.error_events)) by {
        assert forall|k: int| 0 <= k < a.error_events.len() implies #[trigger] c.error_events[k]
            == a.error_events[k] by {
            assert(c.error_events[k] == b.error_events[k]);
        }
    }
    assert(extends(a.storage_contracts, c.storage_contracts)) by {
        assert forall|k: int| 0 <= k < a.storage_contracts.len() implies #[trigger] c.storage_contracts[k]
            == a.storage_contracts[k] by {
            assert(c.storage_contracts[k] == b.storage_contracts[k]);
        }
    }
    if 0 <= a.log_index && c.log_index <= i64::MAX {
        assert(new_indices_within(a.events, c.events, a.log_index, c.log_index)) by {
            assert forall|k: int| a.events.len() <= k < c.events.len() implies a.log_index
                <= #[trigger] c.events[k].idx < c.log_index by {
                if k < b.events.len() {
                    assert(c.events[k] == b.events[k]);
                }
            }
            assert forall|k1: int, k2: int| a.events.len() <= k1 < k2 < c.events.len() implies #[trigger] c.events[k1].idx
                < #[trigger] c.events[k2].idx by {
                if k2 < b.events.len() {
                    assert(c.events[k1] == b.events[k1]);
                    assert(c.events[k2] == b.events[k2]);
                } else if k1 < b.events.len() {
                    assert(c.events[k1] == b.events[k1]);
                    assert(b.events[k1].idx < b.log_index);
                    assert(b.log_index <= c.events[k2].idx);
                }
            }
        }
        assert(new_indices_within(a.error_events, c.error_events, a.log_index, c.log_index)) by {
            assert forall|k: int| a.error_events.len() <= k < c.error_events.len() implies a.log_index
                <= #[trigger] c.error_events[k].idx < c.log_index by {
                if k < b.error_events.len() {
                    assert(c.error_events[k] == b.error_events[k]);
                }
            }
            assert forall|k1: int, k2: int|
                a.error_events.len() <= k1 < k2 < c.error_events.len() implies #[trigger] c.error_events[k1].idx
                < #[trigger] c.error_events[k2].idx by {
                if k2 < b.error_events.len() {
                    assert(c.error_events[k1] == b.error_events[k1]);
                    assert(c.error_events[k2] == b.error_events[k2]);
                } else if k1 < b.error_events.len() {
                    assert(c.error_events[k1] == b.error_events[k1]);
                    assert(b.error_events[k1].idx < b.log_index);
                    assert(b.log_index <= c.error_events[k2].idx);
                }
            }
        }
        assert(new_indices_apart(a, c)) by {
            assert forall|k1: int, k2: int|
                a.events.len() <= k1 < c.events.len() && a.error_events.len() <= k2 < c.error_events.len()
                    implies #[trigger] c.events[k1].idx != #[trigger] c.error_events[k2].idx by {
                if k1 < b.events.len() {
                    assert(c.events[k1] == b.events[k1]);
                    assert(b.events[k1].idx < b.log_index);
                    if k2 < b.error_events.len() {
                        assert(c.error_events[k2] == b.error_events[k2]);
                    } else {
                        assert(b.log_index <= c.error_events[k2].idx);
                    }
                } else {
                    assert(b.log_index <= c.events[k1].idx);
                    if k2 < b.error_events.len() {
                        assert(c.error_events[k2] == b.error_events[k2]);
                        assert(b.error_events[k2].idx < b.log_index);
                    }
                }
            }
        }
    }
}

proof fn lemma_keeps_trans(
    tx_id: Seq<char>,
    addrs: Seq<Seq<char>>,
    a: WalkState,
    b: WalkState,
    c: WalkState,
)
    requires
        walk_keeps(tx_id, addrs, a, b),
        walk_keeps(tx_id, addrs, b, c),
    ensures
        walk_keeps(tx_id, addrs, a, c),
{
    lemma_grows_trans(a, b, c);
    assert forall|k: int| a.traces.len() <= k < c.traces.len() implies (#[trigger] c.traces[k]).tx_id == tx_id by {
        if k < b.traces.len() {
            assert(c.traces[k] == b.traces[k]);
        }
    }
    assert forall|k: int| a.error_traces.len() <= k < c.error_traces.len() implies (
    #[trigger] c.error_traces[k]).tx_id == tx_id by {
        if k < b.error_traces.len() {
            assert(c.error_traces[k] == b.error_traces[k]);
        }
    }
    assert forall|k: int| a.storage_contracts.len() <= k < c.storage_contracts.len() implies addrs.contains(
        #[trigger] c.storage_contracts[k],
    ) by {
        if k < b.storage_contracts.len() {
            assert(c.storage_contracts[k] == b.storage_contracts[k]);
        }
    }
}

proof fn lemma_record_contract_keeps(tx_id: Seq<char>, addrs: Seq<Seq<char>>, st: WalkState, addr: Seq<char>)
    requires
        addrs.contains(addr),
    ensures
        walk_keeps(tx_id, addrs, st, record_contract(st, addr)),
        record_contract(st, addr).storage_contracts.contains(addr),
{
    let w = record_contract(st, addr);
    if no_duplicates(st.storage_contracts) && !st.storage_contracts.contains(addr) {
        assert forall|i: int, j: int|
            0 <= i < j < w.storage_contracts.len() implies #[trigger] w.storage_contracts[i]
            != #[trigger] w.storage_contracts[j] by {
            if j == st.storage_contracts.len() {
                assert(w.storage_contracts[i] == st.storage_contracts[i]);
            } else {
                assert(w.storage_contracts[i] == st.storage_contracts[i]);
                assert(w.storage_contracts[j] == st.storage_contracts[j]);
            }
        }
    }
    if !st.storage_contracts.contains(addr) {
        assert(w.storage_contracts[st.storage_contracts.len() as int] == addr);
    }
}

proof fn lemma_record_event_keeps(
    tx_id: Seq<char>,
    addrs: Seq<Seq<char>>,
    st: WalkState,
    e: DebankEventView,
    is_error: bool,
)
    requires
        e.idx == st.log_index as i64,
    ensures
        walk_keeps(tx_id, addrs, st, record_event(st, e, is_error)),
{
}

proof fn lemma_record_trace_keeps(
    tx_id: Seq<char>,
    addrs: Seq<Seq<char>>,
    st: WalkState,
    t: DebankTraceView,
    is_error: bool,
)
    requires
        t.tx_id == tx_id,
    ensures
        walk_keeps(tx_id, addrs, st, record_trace(st, t, is_error)),
{
}

/// Walking part of an ordering keeps the walk state as `walk_keeps` says.
pub proof fn law_walk_orders_keeps(
    arena: Seq<CallTraceNode>,
    addrs: Seq<Seq<char>>,
    tx_id: Seq<char>,
    i: int,
    trace_id: Seq<char>,
    trace_address: Seq<i64>,
    k: int,
    st: WalkState,
)
    ensures
        walk_keeps(tx_id, addrs, st, walk_orders(arena, addrs, tx_id, i, trace_id, trace_address, k, st).0),
    decreases arena.len() - i, k, 0int,
{
    if k > 0 && 0 <= i < arena.len() && k <= arena[i].ordering@.len() {
        law_walk_orders_keeps(arena, addrs, tx_id, i, trace_id, trace_address, k - 1, st);
        let node = arena[i];
        let (prev, fr) = walk_orders(arena, addrs, tx_id, i, trace_id, trace_address, k - 1, st);
        let next = walk_orders(arena, addrs, tx_id, i, trace_id, trace_address, k, st).0;
        match node.ordering@[k - 1] {
            LogCallOrder::Call(c) => {
                let child = if c < node.children@.len() {
                    node.children@[c as int] as int
                } else {
                    0
                };
                if i < child < arena.len() {
                    law_walk_node_keeps(
                        arena,
                        addrs,
                        tx_id,
                        child,
                        trace_id,
                        fr.call_pos as i64,
                        trace_address.push(fr.call_pos as i64),
                        prev,
                    );
                    lemma_keeps_trans(tx_id, addrs, st, prev, next);
                }
            },
            LogCallOrder::Log(l) => {
                let log = node.logs@[l as int];
                let e = log_event(
                    log,
                    trace_id,
                    prefixed_hex(node.execution_address@),
                    fr.log_pos,
                    prev.log_index,
                );
                lemma_record_event_keeps(tx_id, addrs, prev, e, node.trace.is_error);
                lemma_keeps_trans(tx_id, addrs, st, prev, next);
            },
        }
    }
}

/// Walking a frame keeps the walk state as `walk_keeps` says, and when the
/// frame's execution address changed storage it is among the storage contracts
/// afterwards.
pub proof fn law_walk_node_keeps(
    arena: Seq<CallTraceNode>,
    addrs: Seq<Seq<char>>,
    tx_id: Seq<char>,
    i: int,
    parent_trace_id: Seq<char>,
    pos: i64,
    trace_address: Seq<i64>,
    st: WalkState,
)
    ensures
        walk_keeps(
            tx_id,
            addrs,
            st,
            walk_node(arena, addrs, tx_id, i, parent_trace_id, pos, trace_address, st).0,
        ),
        0 <= i < arena.len() && addrs.contains(prefixed_hex(arena[i].execution_address@))
            ==> walk_node(arena, addrs, tx_id, i, parent_trace_id, pos, trace_address, st).0.storage_contracts.contains(
            prefixed_hex(arena[i].execution_address@),
        ),
    decreases arena.len() - i, arena[i].ordering@.len() + 1, 1int,
{
    if 0 <= i < arena.len() {
        let node = arena[i];
        let trace = node.trace;
        let trace_id = id_of_triple(tx_id, parent_trace_id, pos);
        let exec_addr = prefixed_hex(node.execution_address@);
        let self_storage_change = addrs.contains(exec_addr);
        let st1 = if self_storage_change {
            record_contract(st, exec_addr)
        } else {
            st
        };
        if self_storage_change {
            lemma_record_contract_keeps(tx_id, addrs, st, exec_addr);
        }
        law_walk_orders_keeps(
            arena,
            addrs,
            tx_id,
            i,
            trace_id,
            trace_address,
            node.ordering@.len() as int,
            st1,
        );
        let (st2, fr) = walk_orders(
            arena,
            addrs,
            tx_id,
            i,
            trace_id,
            trace_address,
            node.ordering@.len() as int,
            st1,
        );
        let storage_change = self_storage_change || fr.child_has_storage;
        let ft = frame_trace(
            tx_id,
            trace_id,
            trace,
            parent_trace_id,
            pos,
            trace_address,
            self_storage_change,
            storage_change,
            fr.call_pos,
        );
        let st3 = record_trace(st2, ft, trace.is_error);
        lemma_record_trace_keeps(tx_id, addrs, st2, ft, trace.is_error);
        let w = walk_node(arena, addrs, tx_id, i, parent_trace_id, pos, trace_address, st).0;
        if self_storage_change {
            lemma_keeps_trans(tx_id, addrs, st, st1, st2);
        } else {
            assert(st1 == st);
        }
        lemma_keeps_trans(tx_id, addrs, st, st2, st3);
        match trace.selfdestruct_refund_target {
            Some(target) => if node.is_selfdestruct {
                let sd = suicide_trace(tx_id, trace_id, trace, target, fr.call_pos, trace_address);
                lemma_record_trace_keeps(tx_id, addrs, st3, sd, false);
                lemma_keeps_trans(tx_id, addrs, st, st3, w);
            } else {
                assert(w == st3);
            },
            None => {
                assert(w == st3);
            },
        }
        if self_storage_change {
            let j = choose|j: int| 0 <= j < st1.storage_contracts.len() && st1.storage_contracts[j] == exec_addr;
            assert(w.storage_contracts[j] == st1.storage_contracts[j]);
        }
    } else {
        lemma_grows_refl(st);
    }
}

/// Whether the walk of the first `k` ordering entries of frame `i` reaches frame
/// `j`, through one of the child calls among them.
pub open spec fn reaches_orders(arena: Seq<CallTraceNode>, i: int, k: int, j: int) -> bool
    decreases arena.len() - i, k, 0int,
{
    if k <= 0 || !(0 <= i < arena.len()) || k > arena[i].ordering@.len() {
        false
    } else {
        let node = arena[i];
        reaches_orders(arena, i, k - 1, j) || match node.ordering@[k - 1] {
            LogCallOrder::Call(c) => {
                let child = if c < node.children@.len() {
                    node.children@[c as int] as int
                } else {
                    0
                };
                i < child < arena.len() && reaches_node(arena, child, j)
            },
            LogCallOrder::Log(_) => false,
        }
    }
}

/// Whether the walk of frame `i` reaches frame `j`: `j` is `i` itself or is
/// reached through one of `i`'s child calls.
pub open spec fn reaches_node(arena: Seq<CallTraceNode>, i: int, j: int) -> bool
    decreases arena.len() - i, arena[i].ordering@.len() + 1, 1int,
{
    if !(0 <= i < arena.len()) {
        false
    } else {
        j == i || reaches_orders(arena, i, arena[i].ordering@.len() as int, j)
    }
}

/// Walking part of a frame's ordering records as a storage contract the
/// execution address of every frame it reaches whose address changed storage.
pub proof fn law_walk_orders_records_contracts(
    arena: Seq<CallTraceNode>,
    addrs: Seq<Seq<char>>,
    tx_id: Seq<char>,
    i: int,
    trace_id: Seq<char>,
    trace_address: Seq<i64>,
    k: int,
    st: WalkState,
    j: int,
)
    requires
        reaches_orders(arena, i, k, j),
        addrs.contains(prefixed_hex(arena[j].execution_address@)),
    ensures
        walk_orders(arena, addrs, tx_id, i, trace_id, trace_address, k, st).0.storage_contracts.contains(
            prefixed_hex(arena[j].execution_address@),
        ),
    decreases arena.len() - i, k, 0int,
{
    let a = prefixed_hex(arena[j].execution_address@);
    let node = arena[i];
    let (prev, fr) = walk_orders(arena, addrs, tx_id, i, trace_id, trace_address, k - 1, st);
    let next = walk_orders(arena, addrs, tx_id, i, trace_id, trace_address, k, st).0;
    match node.ordering@[k - 1] {
        LogCallOrder::Call(c) => {
            let child = if c < node.children@.len() {
                node.children@[c as int] as int
            } else {
                0
            };
            if i < child < arena.len() {
                law_walk_node_keeps(
                    arena,
                    addrs,
                    tx_id,
                    child,
                    trace_id,
                    fr.call_pos as i64,
                    trace_address.push(fr.call_pos as i64),
                    prev,
                );
                if reaches_orders(arena, i, k - 1, j) {
                    law_walk_orders_records_contracts(arena, addrs, tx_id, i, trace_id, trace_address, k - 1, st, j);
                    let x = choose|x: int| 0 <= x < prev.storage_contracts.len() && prev.storage_contracts[x] == a;
                    assert(next.storage_contracts[x] == prev.storage_contracts[x]);
                } else {
                    law_walk_node_records_contracts(
                        arena,
                        addrs,
                        tx_id,
                        child,
                        trace_id,
                        fr.call_pos as i64,
                        trace_address.push(fr.call_pos as i64),
                        prev,
                        j,
                    );
                }
            } else {
                law_walk_orders_records_contracts(arena, addrs, tx_id, i, trace_id, trace_address, k - 1, st, j);
            }
        },
        LogCallOrder::Log(l) => {
            law_walk_orders_records_contracts(arena, addrs, tx_id, i, trace_id, trace_address, k - 1, st, j);
        },
    }
}

/// Walking a frame records as a storage contract the execution address of every
/// frame the walk reaches (the frame itself included) whose address changed
/// storage.
pub proof fn law_walk_node_records_contracts(
    arena: Seq<CallTraceNode>,
    addrs: Seq<Seq<char>>,
    tx_id: Seq<char>,
    i: int,
    parent_trace_id: Seq<char>,
    pos: i64,
    trace_address: Seq<i64>,
    st: WalkState,
    j: int,
)
    requires
        reaches_node(arena, i, j),
        addrs.contains(prefixed_hex(arena[j].execution_address@)),
    ensures
        walk_node(arena, addrs, tx_id, i, parent_trace_id, pos, trace_address, st).0.storage_contracts.contains(
            prefixed_hex(arena[j].execution_address@),
        ),
    decreases arena.len() - i, arena[i].ordering@.len() + 1, 1int,
{
    law_walk_node_keeps(arena, addrs, tx_id, i, parent_trace_id, pos, trace_address, st);
    if j != i {
        let a = prefixed_hex(arena[j].execution_address@);
        let node = arena[i];
        let trace = node.trace;
        let trace_id = id_of_triple(tx_id, parent_trace_id, pos);
        let exec_addr = prefixed_hex(node.execution_address@);
        let self_storage_change = addrs.contains(exec_addr);
        let st1 = if self_storage_change {
            record_contract(st, exec_addr)
        } else {
            st
        };
        let n = node.ordering@.len() as int;
        law_walk_orders_records_contracts(arena, addrs, tx_id, i, trace_id, trace_address, n, st1, j);
        let (st2, fr) = walk_orders(arena, addrs, tx_id, i, trace_id, trace_address, n, st1);
        let w = walk_node(arena, addrs, tx_id, i, parent_trace_id, pos, trace_address, st).0;
        assert(w.storage_contracts == st2.storage_contracts);
    }
}

/// How many logs the walk of the first `k` ordering entries of frame `i` turns
/// into events: its own logs among them, and those of the frames below the child
/// calls among them.
pub open spec fn logs_in_orders(arena: Seq<CallTraceNode>, i: int, k: int) -> nat
    decreases arena.len() - i, k, 0int,
{
    if k <= 0 || !(0 <= i < arena.len()) || k > arena[i].ordering@.len() {
        0
    } else {
        let node = arena[i];
        logs_in_orders(arena, i, k - 1) + match node.ordering@[k - 1] {
            LogCallOrder::Call(c) => {
                let child = if c < node.children@.len() {
                    node.children@[c as int] as int
                } else {
                    0
                };
                if i < child < arena.len() {
                    logs_in_node(arena, child)
                } else {
                    0
                }
            },
            LogCallOrder::Log(_) => 1nat,
        }
    }
}

/// How many logs the walk of frame `i` turns into events: those of the frame
/// and of every frame the walk reaches below it.
pub open spec fn logs_in_node(arena: Seq<CallTraceNode>, i: int) -> nat
    decreases arena.len() - i, arena[i].ordering@.len() + 1, 1int,
{
    if !(0 <= i < arena.len()) {
        0
    } else {
        logs_in_orders(arena, i, arena[i].ordering@.len() as int)
    }
}

/// Walking part of a frame's ordering advances the log index by exactly the
/// number of logs it reaches.
pub proof fn law_walk_orders_log_count(
    arena: Seq<CallTraceNode>,
    addrs: Seq<Seq<char>>,
    tx_id: Seq<char>,
    i: int,
    trace_id: Seq<char>,
    trace_address: Seq<i64>,
    k: int,
    st: WalkState,
)
    ensures
        walk_orders(arena, addrs, tx_id, i, trace_id, trace_address, k, st).0.log_index == st.log_index
            + logs_in_orders(arena, i, k),
    decreases arena.len() - i, k, 0int,
{
    if k > 0 && 0 <= i < arena.len() && k <= arena[i].ordering@.len() {
        law_walk_orders_log_count(arena, addrs, tx_id, i, trace_id, trace_address, k - 1, st);
        let node = arena[i];
        let (prev, fr) = walk_orders(arena, addrs, tx_id, i, trace_id, trace_address, k - 1, st);
        match node.ordering@[k - 1] {
            LogCallOrder::Call(c) => {
                let child = if c < node.children@.len() {
                    node.children@[c as int] as int
                } else {
                    0
                };
                if i < child < arena.len() {
                    law_walk_node_log_count(
                        arena,
                        addrs,
                        tx_id,
                        child,
                        trace_id,
                        fr.call_pos as i64,
                        trace_address.push(fr.call_pos as i64),
                        prev,
                    );
                }
            },
            LogCallOrder::Log(_) => {},
        }
    }
}

/// Walking a frame advances the log index by exactly the number of logs of the
/// frame and of the frames the walk reaches below it; so (by `walk_grows`) it adds
/// that many events and error events together.
pub proof fn law_walk_node_log_count(
    arena: Seq<CallTraceNode>,
    addrs: Seq<Seq<char>>,
    tx_id: Seq<char>,
    i: int,
    parent_trace_id: Seq<char>,
    pos: i64,
    trace_address: Seq<i64>,
    st: WalkState,
)
    ensures
        walk_node(arena, addrs, tx_id, i, parent_trace_id, pos, trace_address, st).0.log_index
            == st.log_index + logs_in_node(arena, i),
    decreases arena.len() - i, arena[i].ordering@.len() + 1, 1int,
{
    if 0 <= i < arena.len() {
        let node = arena[i];
        let trace_id = id_of_triple(tx_id, parent_trace_id, pos);
        let exec_addr = prefixed_hex(node.execution_address@);
        let st1 = if addrs.contains(exec_addr) {
            record_contract(st, exec_addr)
        } else {
            st
        };
        law_walk_orders_log_count(
            arena,
            addrs,
            tx_id,
            i,
            trace_id,
            trace_address,
            node.ordering@.len() as int,
            st1,
        );
    }
}

/// The storage contracts of `w` past those of `st` are each the execution
/// address of a frame that the walk of frame `i` reaches.
pub open spec fn contracts_from_frames(
    arena: Seq<CallTraceNode>,
    i: int,
    st: WalkState,
    w: WalkState,
) -> bool {
    forall|x: int|
        st.storage_contracts.len() <= x < w.storage_contracts.len() ==> #[trigger] reached_from(
            arena,
            i,
            w.storage_contracts[x],
        )
}

/// The address is the execution address of a frame that the walk of frame `i`
/// reaches.
pub open spec fn reached_from(arena: Seq<CallTraceNode>, i: int, a: Seq<char>) -> bool {
    exists|j: int| #![trigger reaches_node(arena, i, j)] reaches_node(arena, i, j) && a == prefixed_hex(arena[j].execution_address@)
}

/// The storage contracts of `w` past those of `st` are each the execution
/// address of a frame reached through the child calls among the first `k`
/// ordering entries of frame `i`.
pub open spec fn contracts_from_orders(
    arena: Seq<CallTraceNode>,
    i: int,
    k: int,
    st: WalkState,
    w: WalkState,
) -> bool {
    forall|x: int|
        st.storage_contracts.len() <= x < w.storage_contracts.len() ==> #[trigger] has_frame_source(
            arena,
            i,
            k,
            w.storage_contracts[x],
        )
}

/// The address is the execution address of a frame reached through the child
/// calls among the first `k` ordering entries of frame `i`.
pub open spec fn has_frame_source(arena: Seq<CallTraceNode>, i: int, k: int, a: Seq<char>) -> bool {
    exists|j: int| #![trigger reaches_orders(arena, i, k, j)] reaches_orders(arena, i, k, j) && a == prefixed_hex(arena[j].execution_address@)
}

/// Walking part of a frame's ordering records as storage contracts only the
/// execution addresses of frames reached through its child calls.
pub proof fn law_walk_orders_contracts_from_frames(
    arena: Seq<CallTraceNode>,
    addrs: Seq<Seq<char>>,
    tx_id: Seq<char>,
    i: int,
    trace_id: Seq<char>,
    trace_address: Seq<i64>,
    k: int,
    st: WalkState,
)
    ensures
        contracts_from_orders(
            arena,
            i,
            k,
            st,
            walk_orders(arena, addrs, tx_id, i, trace_id, trace_address, k, st).0,
        ),
    decreases arena.len() - i, k, 0int,
{
    if k > 0 && 0 <= i < arena.len() && k <= arena[i].ordering@.len() {
        law_walk_orders_contracts_from_frames(arena, addrs, tx_id, i, trace_id, trace_address, k - 1, st);
        law_walk_orders_keeps(arena, addrs, tx_id, i, trace_id, trace_address, k - 1, st);
        let node = arena[i];
        let (prev, fr) = walk_orders(arena, addrs, tx_id, i, trace_id, trace_address, k - 1, st);
        let next = walk_orders(arena, addrs, tx_id, i, trace_id, trace_address, k, st).0;
        let child = match node.ordering@[k - 1] {
            LogCallOrder::Call(c) => if c < node.children@.len() {
                node.children@[c as int] as int
            } else {
                0
            },
            LogCallOrder::Log(_) => 0,
        };
        let walked = node.ordering@[k - 1] is Call && i < child < arena.len();
        if walked {
            law_walk_node_contracts_from_frames(
                arena,
                addrs,
                tx_id,
                child,
                trace_id,
                fr.call_pos as i64,
                trace_address.push(fr.call_pos as i64),
                prev,
            );
            law_walk_node_keeps(
                arena,
                addrs,
                tx_id,
                child,
                trace_id,
                fr.call_pos as i64,
                trace_address.push(fr.call_pos as i64),
                prev,
            );
        } else {
            assert(next.storage_contracts == prev.storage_contracts);
        }
        assert(contracts_from_orders(arena, i, k - 1, st, prev));
        assert forall|x: int| st.storage_contracts.len() <= x < next.storage_contracts.len() implies #[trigger] has_frame_source(arena, i, k, next.storage_contracts[x]) by {
            if x < prev.storage_contracts.len() {
                assert(has_frame_source(arena, i, k - 1, prev.storage_contracts[x]));
                let j = choose|j: int|
                    #![trigger reaches_orders(arena, i, k - 1, j)]
                    reaches_orders(arena, i, k - 1, j) && prev.storage_contracts[x] == prefixed_hex(
                        arena[j].execution_address@,
                    );
                if walked {
                    assert(next.storage_contracts[x] == prev.storage_contracts[x]);
                }
                assert(reaches_orders(arena, i, k, j));
            } else {
                assert(walked);
                let wc = walk_node(
                    arena,
                    addrs,
                    tx_id,
                    child,
                    trace_id,
                    fr.call_pos as i64,
                    trace_address.push(fr.call_pos as i64),
                    prev,
                ).0;
                assert(next == wc);
                assert(reached_from(arena, child, wc.storage_contracts[x]));
                let j = choose|j: int|
                    #![trigger reaches_node(arena, child, j)]
                    reaches_node(arena, child, j) && next.storage_contracts[x] == prefixed_hex(
                        arena[j].execution_address@,
                    );
                assert(reaches_orders(arena, i, k, j));
            }
        }
        assert(contracts_from_orders(arena, i, k, st, next));
    } else {
        assert(walk_orders(arena, addrs, tx_id, i, trace_id, trace_address, k, st).0 == st);
    }
}

/// Walking a frame records as storage contracts only the execution addresses of
/// the frame itself and of the frames reached below it.
pub proof fn law_walk_node_contracts_from_frames(
    arena: Seq<CallTraceNode>,
    addrs: Seq<Seq<char>>,
    tx_id: Seq<char>,
    i: int,
    parent_trace_id: Seq<char>,
    pos: i64,
    trace_address: Seq<i64>,
    st: WalkState,
)
    ensures
        contracts_from_frames(
            arena,
            i,
            st,
            walk_node(arena, addrs, tx_id, i, parent_trace_id, pos, trace_address, st).0,
        ),
    decreases arena.len() - i, arena[i].ordering@.len() + 1, 1int,
{
    if 0 <= i < arena.len() {
        let node = arena[i];
        let trace = node.trace;
        let trace_id = id_of_triple(tx_id, parent_trace_id, pos);
        let exec_addr = prefixed_hex(node.execution_address@);
        let st1 = if addrs.contains(exec_addr) {
            record_contract(st, exec_addr)
        } else {
            st
        };
        let n = node.ordering@.len() as int;
        law_walk_orders_contracts_from_frames(arena, addrs, tx_id, i, trace_id, trace_address, n, st1);
        let (st2, fr) = walk_orders(arena, addrs, tx_id, i, trace_id, trace_address, n, st1);
        assert(contracts_from_orders(arena, i, n, st1, st2));
        let w = walk_node(arena, addrs, tx_id, i, parent_trace_id, pos, trace_address, st).0;
        assert(w.storage_contracts == st2.storage_contracts);
        assert(reaches_node(arena, i, i));
        assert forall|x: int| st.storage_contracts.len() <= x < w.storage_contracts.len() implies #[trigger] reached_from(
            arena,
            i,
            w.storage_contracts[x],
        ) by {
            if x < st1.storage_contracts.len() {
                law_walk_orders_keeps(arena, addrs, tx_id, i, trace_id, trace_address, n, st1);
                assert(st2.storage_contracts[x] == st1.storage_contracts[x]);
                assert(st1.storage_contracts[x] == exec_addr);
                assert(reaches_node(arena, i, i));
            } else {
                assert(has_frame_source(arena, i, n, st2.storage_contracts[x]));
                let j = choose|j: int|
                    #![trigger reaches_orders(arena, i, n, j)]
                    reaches_orders(arena, i, n, j) && st2.storage_contracts[x] == prefixed_hex(
                        arena[j].execution_address@,
                    );
                assert(reaches_node(arena, i, j));
            }
        }
    }
}

/// Only frames of the arena are reached from a frame of the arena.
pub proof fn lemma_reached_in_arena_node(arena: Seq<CallTraceNode>, i: int, j: int)
    requires
        0 <= i < arena.len(),
    ensures
        reaches_node(arena, i, j) ==> 0 <= j < arena.len(),
    decreases arena.len() - i, arena[i].ordering@.len() + 1,
{
    if reaches_node(arena, i, j) && j != i {
        lemma_reached_in_arena_orders(arena, i, arena[i].ordering@.len() as int, j);
    }
}

/// Only frames of the arena are reached through a frame's ordering.
pub proof fn lemma_reached_in_arena_orders(arena: Seq<CallTraceNode>, i: int, k: int, j: int)
    requires
        0 <= i < arena.len(),
        k <= arena[i].ordering@.len(),
    ensures
        reaches_orders(arena, i, k, j) ==> 0 <= j < arena.len(),
    decreases arena.len() - i, k,
{
    if k > 0 {
        lemma_reached_in_arena_orders(arena, i, k - 1, j);
        let node = arena[i];
        match node.ordering@[k - 1] {
            LogCallOrder::Call(c) => {
                let child = if c < node.children@.len() {
                    node.children@[c as int] as int
                } else {
                    0
                };
                if i < child < arena.len() {
                    lemma_reached_in_arena_node(arena, child, j);
                }
            },
            LogCallOrder::Log(_) => {},
        }
    }
}

/// The trace `t` (in the error list when `in_error`) was recorded for frame
/// `node`: a frame's trace runs from the frame's caller to its address with its
/// kind, input, output, value and gas, lies among the error traces exactly when
/// the frame failed, and counts as changing storage itself exactly when the
/// frame's execution address is a storage-change address; a suicide trace runs
/// from a self-destructed frame's address to its refund target.
pub open spec fn trace_from_frame(
    addrs: Seq<Seq<char>>,
    t: DebankTraceView,
    node: CallTraceNode,
    in_error: bool,
) -> bool {
    if t.call_type == "suicide"@ {
        &&& !in_error
        &&& node.is_selfdestruct
        &&& node.trace.selfdestruct_refund_target is Some
        &&& t.from_addr == prefixed_hex(node.trace.address@)
        &&& t.to_addr == prefixed_hex(node.trace.selfdestruct_refund_target->0@)
        &&& t.value == node.trace.value@
        &&& !t.self_storage_change
    } else {
        &&& in_error == node.trace.is_error
        &&& t.from_addr == prefixed_hex(node.trace.caller@)
        &&& t.to_addr == prefixed_hex(node.trace.address@)
        &&& t.input == node.trace.data@
        &&& t.output == node.trace.output@
        &&& t.value == node.trace.value@
        &&& t.gas_used == node.trace.gas_used
        &&& t.gas_limit == node.trace.gas_limit
        &&& t.call_create_type == kind_names(node.trace.kind).0
        &&& t.call_type == kind_names(node.trace.kind).1
        &&& t.self_storage_change == addrs.contains(prefixed_hex(node.execution_address@))
    }
}

/// The trace was recorded for a frame reached through the child calls among the
/// first `k` ordering entries of frame `i`.
pub open spec fn trace_from_orders(
    arena: Seq<CallTraceNode>,
    addrs: Seq<Seq<char>>,
    i: int,
    k: int,
    t: DebankTraceView,
    in_error: bool,
) -> bool {
    exists|j: int|
        #![trigger reaches_orders(arena, i, k, j)]
        reaches_orders(arena, i, k, j) && trace_from_frame(addrs, t, arena[j], in_error)
}

/// The trace was recorded for a frame that the walk of frame `i` reaches.
pub open spec fn trace_from_node(
    arena: Seq<CallTraceNode>,
    addrs: Seq<Seq<char>>,
    i: int,
    t: DebankTraceView,
    in_error: bool,
) -> bool {
    exists|j: int|
        #![trigger reaches_node(arena, i, j)]
        reaches_node(arena, i, j) && trace_from_frame(addrs, t, arena[j], in_error)
}

/// Every trace and error trace of `w` past those of `st` was recorded for a frame
/// reached through the first `k` ordering entries of frame `i`.
pub open spec fn traces_from_orders(
    arena: Seq<CallTraceNode>,
    addrs: Seq<Seq<char>>,
    i: int,
    k: int,
    st: WalkState,
    w: WalkState,
) -> bool {
    &&& forall|x: int|
        st.traces.len() <= x < w.traces.len() ==> #[trigger] trace_from_orders(
            arena,
            addrs,
            i,
            k,
            w.traces[x],
            false,
        )
    &&& forall|x: int|
        st.error_traces.len() <= x < w.error_traces.len() ==> #[trigger] trace_from_orders(
            arena,
            addrs,
            i,
            k,
            w.error_traces[x],
            true,
        )
}

/// Every trace and error trace of `w` past those of `st` was recorded for a frame
/// that the walk of frame `i` reaches.
pub open spec fn traces_from_node(
    arena: Seq<CallTraceNode>,
    addrs: Seq<Seq<char>>,
    i: int,
    st: WalkState,
    w: WalkState,
) -> bool {
    &&& forall|x: int|
        st.traces.len() <= x < w.traces.len() ==> #[trigger] trace_from_node(
            arena,
            addrs,
            i,
            w.traces[x],
            false,
        )
    &&& forall|x: int|
        st.error_traces.len() <= x < w.error_traces.len() ==> #[trigger] trace_from_node(
            arena,
            addrs,
            i,
            w.error_traces[x],
            true,
        )
}

/// Walking part of a frame's ordering records only traces of the frames it
/// reaches, each as `trace_from_frame` says.
pub proof fn law_walk_orders_traces_from_frames(
    arena: Seq<CallTraceNode>,
    addrs: Seq<Seq<char>>,
    tx_id: Seq<char>,
    i: int,
    trace_id: Seq<char>,
    trace_address: Seq<i64>,
    k: int,
    st: WalkState,
)
    ensures
        traces_from_orders(
            arena,
            addrs,
            i,
            k,
            st,
            walk_orders(arena, addrs, tx_id, i, trace_id, trace_address, k, st).0,
        ),
    decreases arena.len() - i, k, 0int,
{
    if k > 0 && 0 <= i < arena.len() && k <= arena[i].ordering@.len() {
        law_walk_orders_traces_from_frames(arena, addrs, tx_id, i, trace_id, trace_address, k - 1, st);
        law_walk_orders_keeps(arena, addrs, tx_id, i, trace_id, trace_address, k - 1, st);
        let node = arena[i];
        let (prev, fr) = walk_orders(arena, addrs, tx_id, i, trace_id, trace_address, k - 1, st);
        let next = walk_orders(arena, addrs, tx_id, i, trace_id, trace_address, k, st).0;
        let child = match node.ordering@[k - 1] {
            LogCallOrder::Call(c) => if c < node.children@.len() {
                node.children@[c as int] as int
            } else {
                0
            },
            LogCallOrder::Log(_) => 0,
        };
        let walked = node.ordering@[k - 1] is Call && i < child < arena.len();
        if walked {
            law_walk_node_traces_from_frames(
                arena,
                addrs,
                tx_id,
                child,
                trace_id,
                fr.call_pos as i64,
                trace_address.push(fr.call_pos as i64),
                prev,
            );
            law_walk_node_keeps(
                arena,
                addrs,
                tx_id,
                child,
                trace_id,
                fr.call_pos as i64,
                trace_address.push(fr.call_pos as i64),
                prev,
            );
            assert(next == walk_node(
                arena,
                addrs,
                tx_id,
                child,
                trace_id,
                fr.call_pos as i64,
                trace_address.push(fr.call_pos as i64),
                prev,
            ).0);
        } else {
            assert(next.traces == prev.traces);
            assert(next.error_traces == prev.error_traces);
        }
        assert(traces_from_orders(arena, addrs, i, k - 1, st, prev));
        assert forall|x: int| st.traces.len() <= x < next.traces.len() implies #[trigger] trace_from_orders(
            arena,
            addrs,
            i,
            k,
            next.traces[x],
            false,
        ) by {
            if x < prev.traces.len() {
                assert(next.traces[x] == prev.traces[x]);
                assert(trace_from_orders(arena, addrs, i, k - 1, prev.traces[x], false));
                let j = choose|j: int|
                    #![trigger reaches_orders(arena, i, k - 1, j)]
                    reaches_orders(arena, i, k - 1, j) && trace_from_frame(addrs, prev.traces[x], arena[j], false);
                assert(reaches_orders(arena, i, k, j));
            } else {
                assert(walked);
                assert(trace_from_node(arena, addrs, child, next.traces[x], false));
                let j = choose|j: int|
                    #![trigger reaches_node(arena, child, j)]
                    reaches_node(arena, child, j) && trace_from_frame(addrs, next.traces[x], arena[j], false);
                assert(reaches_orders(arena, i, k, j));
            }
        }
        assert forall|x: int| st.error_traces.len() <= x < next.error_traces.len() implies #[trigger] trace_from_orders(
            arena,
            addrs,
            i,
            k,
            next.error_traces[x],
            true,
        ) by {
            if x < prev.error_traces.len() {
                assert(next.error_traces[x] == prev.error_traces[x]);
                assert(trace_from_orders(arena, addrs, i, k - 1, prev.error_traces[x], true));
                let j = choose|j: int|
                    #![trigger reaches_orders(arena, i, k - 1, j)]
                    reaches_orders(arena, i, k - 1, j) && trace_from_frame(addrs, prev.error_traces[x], arena[j], true);
                assert(reaches_orders(arena, i, k, j));
            } else {
                assert(walked);
                assert(trace_from_node(arena, addrs, child, next.error_traces[x], true));
                let j = choose|j: int|
                    #![trigger reaches_node(arena, child, j)]
                    reaches_node(arena, child, j) && trace_from_frame(addrs, next.error_traces[x], arena[j], true);
                assert(reaches_orders(arena, i, k, j));
            }
        }
        assert(traces_from_orders(arena, addrs, i, k, st, next));
    } else {
        assert(walk_orders(arena, addrs, tx_id, i, trace_id, trace_address, k, st).0 == st);
    }
}

/// Walking a frame records only traces of the frame itself and of the frames it
/// reaches below, each as `trace_from_frame` says: in particular every frame's
/// trace runs from that frame's caller to that frame's address.
pub proof fn law_walk_node_traces_from_frames(
    arena: Seq<CallTraceNode>,
    addrs: Seq<Seq<char>>,
    tx_id: Seq<char>,
    i: int,
    parent_trace_id: Seq<char>,
    pos: i64,
    trace_address: Seq<i64>,
    st: WalkState,
)
    ensures
        traces_from_node(
            arena,
            addrs,
            i,
            st,
            walk_node(arena, addrs, tx_id, i, parent_trace_id, pos, trace_address, st).0,
        ),
    decreases arena.len() - i, arena[i].ordering@.len() + 1, 1int,
{
    if 0 <= i < arena.len() {
        let node = arena[i];
        let trace = node.trace;
        let trace_id = id_of_triple(tx_id, parent_trace_id, pos);
        let exec_addr = prefixed_hex(node.execution_address@);
        let self_change = addrs.contains(exec_addr);
        let st1 = if self_change {
            record_contract(st, exec_addr)
        } else {
            st
        };
        let n = node.ordering@.len() as int;
        law_walk_orders_traces_from_frames(arena, addrs, tx_id, i, trace_id, trace_address, n, st1);
        law_walk_orders_keeps(arena, addrs, tx_id, i, trace_id, trace_address, n, st1);
        let (st2, fr) = walk_orders(arena, addrs, tx_id, i, trace_id, trace_address, n, st1);
        assert(traces_from_orders(arena, addrs, i, n, st1, st2));
        assert(st1.traces == st.traces && st1.error_traces == st.error_traces);
        let ft = frame_trace(
            tx_id,
            trace_id,
            trace,
            parent_trace_id,
            pos,
            trace_address,
            self_change,
            self_change || fr.child_has_storage,
            fr.call_pos,
        );
        let st3 = record_trace(st2, ft, trace.is_error);
        let w = walk_node(arena, addrs, tx_id, i, parent_trace_id, pos, trace_address, st).0;
        assert(reaches_node(arena, i, i));
        assert(kind_names(trace.kind).1 != "suicide"@) by {
            reveal_strlit("suicide");
            reveal_strlit("call");
            reveal_strlit("create");
            reveal_strlit("staticcall");
            reveal_strlit("delegatecall");
            reveal_strlit("callcode");
            assert("suicide"@.len() == 7);
            assert("call"@.len() == 4);
            assert("create"@.len() == 6);
            assert("staticcall"@.len() == 10);
            assert("delegatecall"@.len() == 12);
            assert("callcode"@.len() == 8);
        }
        assert(trace_from_frame(addrs, ft, node, trace.is_error));
        // what the ordering's walk recorded comes from frames reached below
        assert forall|t: DebankTraceView, e: bool| trace_from_orders(arena, addrs, i, n, t, e) implies trace_from_node(
            arena,
            addrs,
            i,
            t,
            e,
        ) by {
            let j = choose|j: int|
                #![trigger reaches_orders(arena, i, n, j)]
                reaches_orders(arena, i, n, j) && trace_from_frame(addrs, t, arena[j], e);
            assert(reaches_node(arena, i, j));
        }
        let w_is_st3 = match trace.selfdestruct_refund_target {
            Some(target) => !node.is_selfdestruct,
            None => true,
        };
        if !w_is_st3 {
            let target = trace.selfdestruct_refund_target->0;
            let sd = suicide_trace(tx_id, trace_id, trace, target, fr.call_pos, trace_address);
            assert(w == record_trace(st3, sd, false));
            assert(trace_from_frame(addrs, sd, node, false)) by {
                reveal_strlit("suicide");
            }
        } else {
            assert(w == st3);
        }
        assert forall|x: int| st.traces.len() <= x < w.traces.len() implies #[trigger] trace_from_node(
            arena,
            addrs,
            i,
            w.traces[x],
            false,
        ) by {
            if x < st2.traces.len() {
                assert(w.traces[x] == st2.traces[x]);
                assert(trace_from_orders(arena, addrs, i, n, st2.traces[x], false));
            } else if x == st2.traces.len() && !trace.is_error {
                assert(w.traces[x] == ft);
            } else {
                assert(!w_is_st3);
                assert(w.traces[x] == suicide_trace(
                    tx_id,
                    trace_id,
                    trace,
                    trace.selfdestruct_refund_target->0,
                    fr.call_pos,
                    trace_address,
                ));
            }
        }
        assert forall|x: int| st.error_traces.len() <= x < w.error_traces.len() implies #[trigger] trace_from_node(
            arena,
            addrs,
            i,
            w.error_traces[x],
            true,
        ) by {
            if x < st2.error_traces.len() {
                assert(w.error_traces[x] == st2.error_traces[x]);
                assert(trace_from_orders(arena, addrs, i, n, st2.error_traces[x], true));
            } else {
                assert(trace.is_error);
                assert(w.error_traces[x] == ft);
            }
        }
    }
}

/// The event `e` (in the error list when `in_error`) was made from a log of
/// frame `node`: it names the frame's execution address as its contract, holds
/// the log's data and topics (each as `0x` hex, the first also as selector), and
/// lies among the error events exactly when the frame failed.
pub open spec fn event_from_frame(e: DebankEventView, node: CallTraceNode, in_error: bool) -> bool {
    exists|l: int|
        #![trigger node.logs@[l]]
        0 <= l < node.logs@.len() && {
            let log = node.logs@[l];
            &&& in_error == node.trace.is_error
            &&& e.contract_id == prefixed_hex(node.execution_address@)
            &&& e.data == log.data@
            &&& e.topics.len() == log.topics@.len()
            &&& (forall|m: int| 0 <= m < e.topics.len() ==> #[trigger] e.topics[m] == prefixed_hex(log.topics@[m]@))
            &&& e.selector == (if log.topics@.len() > 0 {
                prefixed_hex(log.topics@[0]@)
            } else {
                Seq::<char>::empty()
            })
        }
}

/// The event was made from a log of frame `i` or of a frame reached through the
/// child calls among the first `k` ordering entries of frame `i`.
pub open spec fn event_from_orders(
    arena: Seq<CallTraceNode>,
    i: int,
    k: int,
    e: DebankEventView,
    in_error: bool,
) -> bool {
    exists|j: int|
        #![trigger event_from_frame(e, arena[j], in_error)]
        (j == i || reaches_orders(arena, i, k, j)) && event_from_frame(e, arena[j], in_error)
}

/// The event was made from a log of a frame that the walk of frame `i` reaches.
pub open spec fn event_from_node(arena: Seq<CallTraceNode>, i: int, e: DebankEventView, in_error: bool) -> bool {
    exists|j: int|
        #![trigger event_from_frame(e, arena[j], in_error)]
        reaches_node(arena, i, j) && event_from_frame(e, arena[j], in_error)
}

/// Every event and error event of `w` past those of `st` was made from a log
/// of frame `i` or of a frame reached through its first `k` ordering entries.
pub open spec fn events_from_orders(
    arena: Seq<CallTraceNode>,
    i: int,
    k: int,
    st: WalkState,
    w: WalkState,
) -> bool {
    &&& forall|x: int|
        st.events.len() <= x < w.events.len() ==> #[trigger] event_from_orders(arena, i, k, w.events[x], false)
    &&& forall|x: int|
        st.error_events.len() <= x < w.error_events.len() ==> #[trigger] event_from_orders(
            arena,
            i,
            k,
            w.error_events[x],
            true,
        )
}

/// Every event and error event of `w` past those of `st` was made from a log of
/// a frame that the walk of frame `i` reaches.
pub open spec fn events_from_node(arena: Seq<CallTraceNode>, i: int, st: WalkState, w: WalkState) -> bool {
    &&& forall|x: int|
        st.events.len() <= x < w.events.len() ==> #[trigger] event_from_node(arena, i, w.events[x], false)
    &&& forall|x: int|
        st.error_events.len() <= x < w.error_events.len() ==> #[trigger] event_from_node(
            arena,
            i,
            w.error_events[x],
            true,
        )
}

/// Walking part of a frame's ordering makes events only from logs of the frame
/// and of the frames reached below, each as `event_from_frame` says.
pub proof fn law_walk_orders_events_from_frames(
    arena: Seq<CallTraceNode>,
    addrs: Seq<Seq<char>>,
    tx_id: Seq<char>,
    i: int,
    trace_id: Seq<char>,
    trace_address: Seq<i64>,
    k: int,
    st: WalkState,
)
    requires
        arena_wf(arena),
    ensures
        events_from_orders(
            arena,
            i,
            k,
            st,
            walk_orders(arena, addrs, tx_id, i, trace_id, trace_address, k, st).0,
        ),
    decreases arena.len() - i, k, 0int,
{
    if k > 0 && 0 <= i < arena.len() && k <= arena[i].ordering@.len() {
        law_walk_orders_events_from_frames(arena, addrs, tx_id, i, trace_id, trace_address, k - 1, st);
        law_walk_orders_keeps(arena, addrs, tx_id, i, trace_id, trace_address, k - 1, st);
        let node = arena[i];
        let (prev, fr) = walk_orders(arena, addrs, tx_id, i, trace_id, trace_address, k - 1, st);
        let next = walk_orders(arena, addrs, tx_id, i, trace_id, trace_address, k, st).0;
        assert(events_from_orders(arena, i, k - 1, st, prev));
        // an event of the earlier entries still comes from where it came from
        assert forall|e: DebankEventView, b: bool| event_from_orders(arena, i, k - 1, e, b) implies event_from_orders(
            arena,
            i,
            k,
            e,
            b,
        ) by {
            let j = choose|j: int|
                #![trigger event_from_frame(e, arena[j], b)]
                (j == i || reaches_orders(arena, i, k - 1, j)) && event_from_frame(e, arena[j], b);
        }
        match node.ordering@[k - 1] {
            LogCallOrder::Call(c) => {
                let child = if c < node.children@.len() {
                    node.children@[c as int] as int
                } else {
                    0
                };
                if i < child < arena.len() {
                    law_walk_node_events_from_frames(
                        arena,
                        addrs,
                        tx_id,
                        child,
                        trace_id,
                        fr.call_pos as i64,
                        trace_address.push(fr.call_pos as i64),
                        prev,
                    );
                    law_walk_node_keeps(
                        arena,
                        addrs,
                        tx_id,
                        child,
                        trace_id,
                        fr.call_pos as i64,
                        trace_address.push(fr.call_pos as i64),
                        prev,
                    );
                    assert forall|e: DebankEventView, b: bool| event_from_node(arena, child, e, b) implies event_from_orders(
                        arena,
                        i,
                        k,
                        e,
                        b,
                    ) by {
                        let j = choose|j: int|
                            #![trigger event_from_frame(e, arena[j], b)]
                            reaches_node(arena, child, j) && event_from_frame(e, arena[j], b);
                        assert(reaches_orders(arena, i, k, j));
                    }
                    assert forall|x: int| st.events.len() <= x < next.events.len() implies #[trigger] event_from_orders(
                        arena,
                        i,
                        k,
                        next.events[x],
                        false,
                    ) by {
                        if x < prev.events.len() {
                            assert(next.events[x] == prev.events[x]);
                            assert(event_from_orders(arena, i, k - 1, prev.events[x], false));
                        } else {
                            assert(event_from_node(arena, child, next.events[x], false));
                        }
                    }
                    assert forall|x: int| st.error_events.len() <= x < next.error_events.len() implies #[trigger] event_from_orders(
                        arena,
                        i,
                        k,
                        next.error_events[x],
                        true,
                    ) by {
                        if x < prev.error_events.len() {
                            assert(next.error_events[x] == prev.error_events[x]);
                            assert(event_from_orders(arena, i, k - 1, prev.error_events[x], true));
                        } else {
                            assert(event_from_node(arena, child, next.error_events[x], true));
                        }
                    }
                } else {
                    assert(next == prev);
                    assert forall|x: int| st.events.len() <= x < next.events.len() implies #[trigger] event_from_orders(
                        arena,
                        i,
                        k,
                        next.events[x],
                        false,
                    ) by {
                        assert(event_from_orders(arena, i, k - 1, prev.events[x], false));
                    }
                    assert forall|x: int| st.error_events.len() <= x < next.error_events.len() implies #[trigger] event_from_orders(
                        arena,
                        i,
                        k,
                        next.error_events[x],
                        true,
                    ) by {
                        assert(event_from_orders(arena, i, k - 1, prev.error_events[x], true));
                    }
                }
            },
            LogCallOrder::Log(l) => {
                assert(node.ordering@[k - 1] == LogCallOrder::Log(l));
                assert(arena[i] == node);
                assert(l < node.logs@.len());
                let log = node.logs@[l as int];
                let e = log_event(log, trace_id, prefixed_hex(node.execution_address@), fr.log_pos, prev.log_index);
                assert(next == record_event(prev, e, node.trace.is_error));
                assert(event_from_frame(e, arena[i], node.trace.is_error)) by {
                    assert(node.logs@[l as int] == log);
                    assert(e.topics.len() == log.topics@.len());
                }
                assert(event_from_orders(arena, i, k, e, node.trace.is_error));
                assert forall|x: int| st.events.len() <= x < next.events.len() implies #[trigger] event_from_orders(
                    arena,
                    i,
                    k,
                    next.events[x],
                    false,
                ) by {
                    if x < prev.events.len() {
                        assert(next.events[x] == prev.events[x]);
                        assert(event_from_orders(arena, i, k - 1, prev.events[x], false));
                    } else {
                        assert(next.events[x] == e);
                    }
                }
                assert forall|x: int| st.error_events.len() <= x < next.error_events.len() implies #[trigger] event_from_orders(
                    arena,
                    i,
                    k,
                    next.error_events[x],
                    true,
                ) by {
                    if x < prev.error_events.len() {
                        assert(next.error_events[x] == prev.error_events[x]);
                        assert(event_from_orders(arena, i, k - 1, prev.error_events[x], true));
                    } else {
                        assert(next.error_events[x] == e);
                    }
                }
            },
        }
        assert(events_from_orders(arena, i, k, st, next));
    } else {
        assert(walk_orders(arena, addrs, tx_id, i, trace_id, trace_address, k, st).0 == st);
    }
}

/// Walking a frame makes events only from logs of the frame and of the frames
/// it reaches below, each as `event_from_frame` says: the event of a log names
/// the execution address of that log's frame and holds the log's data and topics.
pub proof fn law_walk_node_events_from_frames(
    arena: Seq<CallTraceNode>,
    addrs: Seq<Seq<char>>,
    tx_id: Seq<char>,
    i: int,
    parent_trace_id: Seq<char>,
    pos: i64,
    trace_address: Seq<i64>,
    st: WalkState,
)
    requires
        arena_wf(arena),
    ensures
        events_from_node(
            arena,
            i,
            st,
            walk_node(arena, addrs, tx_id, i, parent_trace_id, pos, trace_address, st).0,
        ),
    decreases arena.len() - i, arena[i].ordering@.len() + 1, 1int,
{
    if 0 <= i < arena.len() {
        let node = arena[i];
        let trace_id = id_of_triple(tx_id, parent_trace_id, pos);
        let exec_addr = prefixed_hex(node.execution_address@);
        let st1 = if addrs.contains(exec_addr) {
            record_contract(st, exec_addr)
        } else {
            st
        };
        let n = node.ordering@.len() as int;
        law_walk_orders_events_from_frames(arena, addrs, tx_id, i, trace_id, trace_address, n, st1);
        let (st2, fr) = walk_orders(arena, addrs, tx_id, i, trace_id, trace_address, n, st1);
        let w = walk_node(arena, addrs, tx_id, i, parent_trace_id, pos, trace_address, st).0;
        assert(w.events == st2.events && w.error_events == st2.error_events);
        assert(st1.events == st.events && st1.error_events == st.error_events);
        assert(events_from_orders(arena, i, n, st1, st2));
        assert(reaches_node(arena, i, i));
        assert forall|e: DebankEventView, b: bool| event_from_orders(arena, i, n, e, b) implies event_from_node(
            arena,
            i,
            e,
            b,
        ) by {
            let j = choose|j: int|
                #![trigger event_from_frame(e, arena[j], b)]
                (j == i || reaches_orders(arena, i, n, j)) && event_from_frame(e, arena[j], b);
            assert(reaches_node(arena, i, j));
        }
        assert forall|x: int| st.events.len() <= x < w.events.len() implies #[trigger] event_from_node(
            arena,
            i,
            w.events[x],
            false,
        ) by {
            assert(event_from_orders(arena, i, n, st2.events[x], false));
        }
        assert forall|x: int| st.error_events.len() <= x < w.error_events.len() implies #[trigger] event_from_node(
            arena,
            i,
            w.error_events[x],
            true,
        ) by {
            assert(event_from_orders(arena, i, n, st2.error_events[x], true));
        }
    }
}

/// The walk of frame `i`'s ordering, from the state after its storage contract
/// is recorded: it records the traces and events of every frame reached below.
pub open spec fn children_walk(
    arena: Seq<CallTraceNode>,
    addrs: Seq<Seq<char>>,
    tx_id: Seq<char>,
    i: int,
    parent_trace_id: Seq<char>,
    pos: i64,
    trace_address: Seq<i64>,
    st: WalkState,
) -> (WalkState, FrameProgress) {
    let node = arena[i];
    let exec_addr = prefixed_hex(node.execution_address@);
    let st1 = if addrs.contains(exec_addr) {
        record_contract(st, exec_addr)
    } else {
        st
    };
    walk_orders(
        arena,
        addrs,
        tx_id,
        i,
        id_of_triple(tx_id, parent_trace_id, pos),
        trace_address,
        node.ordering@.len() as int,
        st1,
    )
}

/// The walk records a frame after every frame below it (post-order): the traces
/// recorded while walking its children stay in front, and the frame's own trace
/// comes right after them in its list (the error traces for a failed frame),
/// with only its own suicide trace possibly following.
pub proof fn law_walk_node_post_order(
    arena: Seq<CallTraceNode>,
    addrs: Seq<Seq<char>>,
    tx_id: Seq<char>,
    i: int,
    parent_trace_id: Seq<char>,
    pos: i64,
    trace_address: Seq<i64>,
    st: WalkState,
)
    requires
        0 <= i < arena.len(),
    ensures
        ({
            let (ch, fr) = children_walk(arena, addrs, tx_id, i, parent_trace_id, pos, trace_address, st);
            let w = walk_node(arena, addrs, tx_id, i, parent_trace_id, pos, trace_address, st).0;
            let self_change = addrs.contains(prefixed_hex(arena[i].execution_address@));
            let ft = frame_trace(
                tx_id,
                id_of_triple(tx_id, parent_trace_id, pos),
                arena[i].trace,
                parent_trace_id,
                pos,
                trace_address,
                self_change,
                self_change || fr.child_has_storage,
                fr.call_pos,
            );
            &&& extends(ch.traces, w.traces)
            &&& extends(ch.error_traces, w.error_traces)
            &&& (arena[i].trace.is_error ==> w.error_traces.len() == ch.error_traces.len() + 1
                && w.error_traces[ch.error_traces.len() as int] == ft)
            &&& (!arena[i].trace.is_error ==> w.traces.len() > ch.traces.len()
                && w.traces[ch.traces.len() as int] == ft && w.error_traces == ch.error_traces)
        }),
{
}

/// How many of the first `k` ordering entries are child calls.
pub open spec fn calls_before(ordering: Seq<LogCallOrder>, k: int) -> int
    decreases k,
{
    if k <= 0 {
        0
    } else {
        calls_before(ordering, k - 1) + if ordering[k - 1] is Call {
            1int
        } else {
            0int
        }
    }
}

/// Within a frame, each child call is walked at the position that counts the
/// child calls before it in the frame's ordering (so the k-th child call, counting
/// from 0, gets position k, the frame's trace id as parent id and the frame's
/// trace address followed by k), and each log becomes an event at the position
/// that counts the logs before it.
pub proof fn law_walk_orders_positions(
    arena: Seq<CallTraceNode>,
    addrs: Seq<Seq<char>>,
    tx_id: Seq<char>,
    i: int,
    trace_id: Seq<char>,
    trace_address: Seq<i64>,
    k: int,
    st: WalkState,
)
    requires
        0 <= i < arena.len(),
        0 <= k <= arena[i].ordering@.len(),
    ensures
        walk_orders(arena, addrs, tx_id, i, trace_id, trace_address, k, st).1.call_pos
            == calls_before(arena[i].ordering@, k),
        walk_orders(arena, addrs, tx_id, i, trace_id, trace_address, k, st).1.log_pos == k
            - calls_before(arena[i].ordering@, k),
    decreases k,
{
    if k > 0 {
        law_walk_orders_positions(arena, addrs, tx_id, i, trace_id, trace_address, k - 1, st);
    }
}

// ------------------------------------------------------------
// Executable walk
// ------------------------------------------------------------

/// The contents of texts.
pub open spec fn texts_view(v: Seq<String>) -> Seq<Seq<char>> {
    v.map_values(|s: String| s@)
}

/// The walk state that the output vectors and the log index stand for.
pub open spec fn walk_state_of(
    traces: Seq<DebankTrace>,
    error_traces: Seq<DebankTrace>,
    events: Seq<DebankEvent>,
    error_events: Seq<DebankEvent>,
    storage_contracts: Seq<String>,
    log_index: i64,
) -> WalkState {
    WalkState {
        traces: traces_view(traces),
        error_traces: traces_view(error_traces),
        events: events_view(events),
        error_events: events_view(error_events),
        storage_contracts: texts_view(storage_contracts),
        log_index: log_index as int,
    }
}

/// Whether one of the texts equals `s`.
pub fn contains_text(v: &Vec<String>, s: &String) -> (r: bool)
    ensures
        r == texts_view(v@).contains(s@),
{
    let mut i: usize = 0;
    while i < v.len()
        invariant
            i <= v@.len(),
            forall|k: int| 0 <= k < i ==> v@[k]@ != s@,
        decreases v.len() - i,
    {
        if v[i] == *s {
            proof {
                assert(texts_view(v@)[i as int] == s@);
            }
            return true;
        }
        i += 1;
    }
    proof {
        if texts_view(v@).contains(s@) {
            let k = choose|k: int| 0 <= k < texts_view(v@).len() && texts_view(v@)[k] == s@;
            assert(v@[k]@ == s@);
        }
    }
    false
}

/// The `0x`-prefixed hex text of each topic.
fn format_topics(topics: &Vec<H256>) -> (r: Vec<String>)
    ensures
        texts_view(r@) == topics@.map_values(|t: H256| prefixed_hex(t@)),
{
    let mut r: Vec<String> = Vec::new();
    let mut i: usize = 0;
    while i < topics.len()
        invariant
            i <= topics@.len(),
            texts_view(r@) == topics@.take(i as int).map_values(|t: H256| prefixed_hex(t@)),
        decreases topics.len() - i,
    {
        let ghost prev = r@;
        r.push(format_hash(&topics[i]));
        proof {
            assert(texts_view(r@) =~= texts_view(prev).push(prefixed_hex(topics@[i as int]@)));
            assert(topics@.take(i + 1).map_values(|t: H256| prefixed_hex(t@)) =~= topics@.take(
                i as int,
            ).map_values(|t: H256| prefixed_hex(t@)).push(prefixed_hex(topics@[i as int]@)));
        }
        i += 1;
    }
    proof {
        assert(topics@.take(topics@.len() as int) =~= topics@);
    }
    r
}

/// Walks frame `node_idx` of the arena and the frames below it, appending their
/// traces and events and recording the storage contracts; gives whether the
/// frame or one below it changed storage. What it appends is `walk_node`.
pub fn walk_trace_node(
    tx_id: &str,
    arena: &CallTraceArena,
    node_idx: usize,
    parent_trace_id: &str,
    pos_in_parent: i64,
    trace_address: &[i64],
    global_log_index: &mut i64,
    traces: &mut Vec<DebankTrace>,
    error_traces: &mut Vec<DebankTrace>,
    events: &mut Vec<DebankEvent>,
    error_events: &mut Vec<DebankEvent>,
    storage_contracts: &mut Vec<String>,
    storage_change_addrs: &Vec<String>,
) -> (storage_change: bool)
    requires
        arena_wf(arena.arena@),
        node_idx < arena.arena@.len(),
        walk_node(
            arena.arena@,
            texts_view(storage_change_addrs@),
            tx_id@,
            node_idx as int,
            parent_trace_id@,
            pos_in_parent,
            trace_address@,
            walk_state_of(
                old(traces)@,
                old(error_traces)@,
                old(events)@,
                old(error_events)@,
                old(storage_contracts)@,
                *old(global_log_index),
            ),
        ).0.log_index <= i64::MAX,
    ensures
        (
            walk_state_of(
                final(traces)@,
                final(error_traces)@,
                final(events)@,
                final(error_events)@,
                final(storage_contracts)@,
                *final(global_log_index),
            ),
            storage_change,
        ) == walk_node(
            arena.arena@,
            texts_view(storage_change_addrs@),
            tx_id@,
            node_idx as int,
            parent_trace_id@,
            pos_in_parent,
            trace_address@,
            walk_state_of(
                old(traces)@,
                old(error_traces)@,
                old(events)@,
                old(error_events)@,
                old(storage_contracts)@,
                *old(global_log_index),
            ),
        ),
    decreases arena.arena@.len() - node_idx,
{
    let ghost nodes = arena.arena@;
    let ghost addrs = texts_view(storage_change_addrs@);
    let ghost st0 = walk_state_of(
        traces@,
        error_traces@,
        events@,
        error_events@,
        storage_contracts@,
        *global_log_index,
    );
    let node = &arena.arena[node_idx];
    let trace = &node.trace;
    proof {
        assert(nodes[node_idx as int] == *node);
    }
    let trace_id = debank_id_triple(tx_id, parent_trace_id, pos_in_parent);
    let exec_addr = format_address(&node.execution_address);
    let self_storage_change = contains_text(storage_change_addrs, &exec_addr);
    if self_storage_change && !contains_text(storage_contracts, &exec_addr) {
        let ghost prev = storage_contracts@;
        storage_contracts.push(exec_addr.clone());
        proof {
            assert(texts_view(storage_contracts@) =~= texts_view(prev).push(exec_addr@));
        }
    }
    let ghost st1 = walk_state_of(
        traces@,
        error_traces@,
        events@,
        error_events@,
        storage_contracts@,
        *global_log_index,
    );
    proof {
        assert(st1 == if self_storage_change {
            record_contract(st0, exec_addr@)
        } else {
            st0
        });
    }
    let ghost n_orders = node.ordering@.len() as int;
    proof {
        assert(walk_orders(nodes, addrs, tx_id@, node_idx as int, trace_id@, trace_address@, 0, st1)
            == (st1, FrameProgress { child_has_storage: false, call_pos: 0, log_pos: 0 }));
    }
    let mut child_has_storage = false;
    let mut child_call_pos: i64 = 0;
    let mut child_log_pos: i64 = 0;
    let mut k: usize = 0;
    while k < node.ordering.len()
        invariant
            k <= n_orders,
            n_orders == node.ordering@.len(),
            nodes == arena.arena@,
            arena_wf(nodes),
            node_idx < nodes.len(),
            nodes[node_idx as int] == *node,
            *trace == node.trace,
            addrs == texts_view(storage_change_addrs@),
            trace_id@ == id_of_triple(tx_id@, parent_trace_id@, pos_in_parent),
            walk_orders(nodes, addrs, tx_id@, node_idx as int, trace_id@, trace_address@, n_orders, st1).0.log_index
                <= i64::MAX,
            (
                walk_state_of(
                    traces@,
                    error_traces@,
                    events@,
                    error_events@,
                    storage_contracts@,
                    *global_log_index,
                ),
                FrameProgress {
                    child_has_storage,
                    call_pos: child_call_pos as int,
                    log_pos: child_log_pos as int,
                },
            ) == walk_orders(nodes, addrs, tx_id@, node_idx as int, trace_id@, trace_address@, k as int, st1),
        decreases node.ordering.len() - k,
    {
        let ghost before = walk_state_of(
            traces@,
            error_traces@,
            events@,
            error_events@,
            storage_contracts@,
            *global_log_index,
        );
        proof {
            lemma_walk_orders_mono(nodes, addrs, tx_id@, node_idx as int, trace_id@, trace_address@, k as int, st1);
            lemma_walk_orders_prefix(
                nodes,
                addrs,
                tx_id@,
                node_idx as int,
                trace_id@,
                trace_address@,
                k + 1,
                n_orders,
                st1,
            );
            assert(node.ordering@.len() < i64::MAX);
        }
        match node.ordering[k] {
            LogCallOrder::Call(ci) => {
                proof {
                    assert(ci < node.children@.len());
                }
                let child_arena_idx = node.children[ci];
                proof {
                    assert(node_idx < child_arena_idx < nodes.len());
                }
                let mut child_trace_addr = copy_positions(trace_address);
                child_trace_addr.push(child_call_pos);
                let child_storage = walk_trace_node(
                    tx_id,
                    arena,
                    child_arena_idx,
                    trace_id.as_str(),
                    child_call_pos,
                    child_trace_addr.as_slice(),
                    global_log_index,
                    traces,
                    error_traces,
                    events,
                    error_events,
                    storage_contracts,
                    storage_change_addrs,
                );
                child_has_storage = child_has_storage || child_storage;
                child_call_pos = child_call_pos + 1;
                proof {
                    assert(child_trace_addr@ == trace_address@.push((child_call_pos - 1) as i64));
                    assert(walk_orders(nodes, addrs, tx_id@, node_idx as int, trace_id@, trace_address@, k + 1, st1)
                        == (
                        walk_state_of(
                            traces@,
                            error_traces@,
                            events@,
                            error_events@,
                            storage_contracts@,
                            *global_log_index,
                        ),
                        FrameProgress {
                            child_has_storage,
                            call_pos: child_call_pos as int,
                            log_pos: child_log_pos as int,
                        },
                    ));
                }
            },
            LogCallOrder::Log(li) => {
                let log = &node.logs[li];
                let event_id = debank_id_pair(trace_id.as_str(), child_log_pos);
                let selector = if log.topics.len() > 0 {
                    format_hash(&log.topics[0])
                } else {
                    String::new()
                };
                let topics = format_topics(&log.topics);
                let event = DebankEvent {
                    id: event_id,
                    contract_id: format_address(&node.execution_address),
                    selector,
                    topics,
                    data: copy_bytes(log.data.as_slice()),
                    parent_trace_id: trace_id.clone(),
                    pos_in_parent_trace: child_log_pos,
                    idx: *global_log_index,
                };
                proof {
                    assert(event@ == log_event(
                        *log,
                        trace_id@,
                        prefixed_hex(node.execution_address@),
                        child_log_pos as int,
                        before.log_index,
                    ));
                }
                *global_log_index = *global_log_index + 1;
                child_log_pos = child_log_pos + 1;
                if trace.is_error {
                    let ghost prev = error_events@;
                    error_events.push(event);
                    proof {
                        assert(events_view(error_events@) =~= events_view(prev).push(event@));
                    }
                } else {
                    let ghost prev = events@;
                    events.push(event);
                    proof {
                        assert(events_view(events@) =~= events_view(prev).push(event@));
                    }
                }
                proof {
                    assert(walk_state_of(
                        traces@,
                        error_traces@,
                        events@,
                        error_events@,
                        storage_contracts@,
                        *global_log_index,
                    ) == record_event(before, event@, node.trace.is_error));
                    assert(walk_orders(nodes, addrs, tx_id@, node_idx as int, trace_id@, trace_address@, k + 1, st1)
                        == (
                        walk_state_of(
                            traces@,
                            error_traces@,
                            events@,
                            error_events@,
                            storage_contracts@,
                            *global_log_index,
                        ),
                        FrameProgress {
                            child_has_storage,
                            call_pos: child_call_pos as int,
                            log_pos: child_log_pos as int,
                        },
                    ));
                }
            },
        }
        k += 1;
    }
    let storage_change = self_storage_change || child_has_storage;
    let (call_create_type, call_type) = match trace.kind {
        CallKind::Call => ("call".to_owned(), "call".to_owned()),
        CallKind::StaticCall => ("call".to_owned(), "staticcall".to_owned()),
        CallKind::DelegateCall => ("call".to_owned(), "delegatecall".to_owned()),
        CallKind::CallCode => ("call".to_owned(), "callcode".to_owned()),
        CallKind::Create => ("create".to_owned(), "create".to_owned()),
        CallKind::Create2 => ("create".to_owned(), "create".to_owned()),
    };
    let error = if trace.is_error {
        match &trace.status {
            TraceStatus::Revert => "execution reverted".to_owned(),
            TraceStatus::OutOfGas => "out of gas".to_owned(),
            TraceStatus::Other(name) => name.clone(),
        }
    } else {
        String::new()
    };
    let debank_trace = DebankTrace {
        id: trace_id.clone(),
        from_addr: format_address(&trace.caller),
        gas_limit: trace.gas_limit,
        input: copy_bytes(trace.data.as_slice()),
        to_addr: format_address(&trace.address),
        value: trace.value,
        gas_used: trace.gas_used,
        output: copy_bytes(trace.output.as_slice()),
        call_create_type,
        call_type,
        tx_id: tx_id.to_owned(),
        parent_trace_id: parent_trace_id.to_owned(),
        pos_in_parent_trace: pos_in_parent,
        self_storage_change,
        storage_change,
        subtraces: child_call_pos,
        trace_address: copy_positions(trace_address),
        error,
    };
    proof {
        assert(debank_trace@ == frame_trace(
            tx_id@,
            trace_id@,
            *trace,
            parent_trace_id@,
            pos_in_parent,
            trace_address@,
            self_storage_change,
            storage_change,
            child_call_pos as int,
        ));
    }
    if trace.is_error {
        let ghost prev = error_traces@;
        error_traces.push(debank_trace);
        proof {
            assert(traces_view(error_traces@) =~= traces_view(prev).push(error_traces@.last()@));
        }
    } else {
        let ghost prev = traces@;
        traces.push(debank_trace);
        proof {
            assert(traces_view(traces@) =~= traces_view(prev).push(traces@.last()@));
        }
    }
    if node.is_selfdestruct {
        match trace.selfdestruct_refund_target {
            Some(refund_target) => {
                let sd_pos = child_call_pos;
                let sd_id = debank_id_triple(tx_id, trace_id.as_str(), sd_pos);
                let mut sd_trace_addr = copy_positions(trace_address);
                sd_trace_addr.push(sd_pos);
                let sd_trace = DebankTrace {
                    id: sd_id,
                    from_addr: format_address(&trace.address),
                    gas_limit: 0,
                    input: Vec::new(),
                    to_addr: format_address(&refund_target),
                    value: trace.value,
                    gas_used: 0,
                    output: Vec::new(),
                    call_create_type: "suicide".to_owned(),
                    call_type: "suicide".to_owned(),
                    tx_id: tx_id.to_owned(),
                    parent_trace_id: trace_id.clone(),
                    pos_in_parent_trace: sd_pos,
                    self_storage_change: false,
                    storage_change: false,
                    subtraces: 0,
                    trace_address: sd_trace_addr,
                    error: String::new(),
                };
                proof {
                    assert(sd_trace@ == suicide_trace(
                        tx_id@,
                        trace_id@,
                        *trace,
                        refund_target,
                        sd_pos as int,
                        trace_address@,
                    ));
                }
                let ghost prev = traces@;
                traces.push(sd_trace);
                proof {
                    assert(traces_view(traces@) =~= traces_view(prev).push(traces@.last()@));
                }
            },
            None => {},
        }
    }
    storage_change
}

/// Converts a call-trace arena to debank traces, error traces, events, error
/// events and storage contracts, walking the tree from the root; an empty arena
/// gives nothing.
pub fn build_debank_traces_from_arena(
    tx_id: &str,
    arena: &CallTraceArena,
    global_log_index: &mut i64,
    storage_change_addrs: &Vec<String>,
) -> (res: (Vec<DebankTrace>, Vec<DebankTrace>, Vec<DebankEvent>, Vec<DebankEvent>, Vec<String>))
    requires
        arena_wf(arena.arena@),
        arena.arena@.len() > 0 ==> walk_node(
            arena.arena@,
            texts_view(storage_change_addrs@),
            tx_id@,
            0,
            seq![],
            0,
            seq![],
            walk_state_of(seq![], seq![], seq![], seq![], seq![], *old(global_log_index)),
        ).0.log_index <= i64::MAX,
    ensures
        arena.arena@.len() == 0 ==> res.0@.len() == 0 && res.1@.len() == 0 && res.2@.len() == 0
            && res.3@.len() == 0 && res.4@.len() == 0 && *final(global_log_index) == *old(
            global_log_index,
        ),
        arena.arena@.len() > 0 ==> walk_state_of(
            res.0@,
            res.1@,
            res.2@,
            res.3@,
            res.4@,
            *final(global_log_index),
        ) == walk_node(
            arena.arena@,
            texts_view(storage_change_addrs@),
            tx_id@,
            0,
            seq![],
            0,
            seq![],
            walk_state_of(seq![], seq![], seq![], seq![], seq![], *old(global_log_index)),
        ).0,
{
    let mut traces: Vec<DebankTrace> = Vec::new();
    let mut error_traces: Vec<DebankTrace> = Vec::new();
    let mut events: Vec<DebankEvent> = Vec::new();
    let mut error_events: Vec<DebankEvent> = Vec::new();
    let mut storage_contracts: Vec<String> = Vec::new();
    if arena.arena.len() == 0 {
        return (traces, error_traces, events, error_events, storage_contracts);
    }
    let root_addr: Vec<i64> = Vec::new();
    let root_parent = String::new();
    proof {
        assert(traces_view(traces@) =~= Seq::<DebankTraceView>::empty());
        assert(traces_view(error_traces@) =~= Seq::<DebankTraceView>::empty());
        assert(events_view(events@) =~= Seq::<DebankEventView>::empty());
        assert(events_view(error_events@) =~= Seq::<DebankEventView>::empty());
        assert(texts_view(storage_contracts@) =~= Seq::<Seq<char>>::empty());
        assert(root_addr@ =~= Seq::<i64>::empty());
        assert(walk_state_of(traces@, error_traces@, events@, error_events@, storage_contracts@, *global_log_index)
            == walk_state_of(seq![], seq![], seq![], seq![], seq![], *global_log_index));
    }
    let _ = walk_trace_node(
        tx_id,
        arena,
        0,
        root_parent.as_str(),
        0,
        root_addr.as_slice(),
        global_log_index,
        &mut traces,
        &mut error_traces,
        &mut events,
        &mut error_events,
        &mut storage_contracts,
        storage_change_addrs,
    );
    (traces, error_traces, events, error_events, storage_contracts)
}

} // verus!
