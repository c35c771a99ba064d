//! Debank traces from parity-format traces (the flat list of a phantom
//! transaction's calls, creates and their results).

use vstd::prelude::*;
use vstd::string::*;
use crate::bytes::{copy_bytes, u256_as_u64};
use crate::debank::{traces_view, DebankEvent, DebankTrace, DebankTraceView, H160, U256};
use crate::hashing::{be_value, debank_id_triple, id_of_triple};
use crate::hexfmt::{format_address, prefixed_hex};

verus! {

/// The kind of a message call.
pub enum CallType {
    /// No call type given; converted as a plain call.
    Unspecified,
    Call,
    CallCode,
    DelegateCall,
    StaticCall,
}

/// A message call.
pub struct Call {
    pub from: H160,
    pub to: H160,
    pub value: U256,
    pub gas: U256,
    pub input: Vec<u8>,
    pub call_type: CallType,
}

/// A contract creation.
pub struct Create {
    pub from: H160,
    pub value: U256,
    pub gas: U256,
    pub init: Vec<u8>,
}

/// How a call or creation ended.
pub enum Outcome {
    Success,
    Reverted,
    Fail,
}

/// The result of a message call.
pub struct CallResult {
    pub outcome: Outcome,
    pub gas_left: U256,
    pub return_data: Vec<u8>,
}

/// The result of a contract creation.
pub struct CreateResult {
    pub outcome: Outcome,
    pub addr: H160,
    pub gas_left: U256,
    pub return_data: Vec<u8>,
}

/// One action of a parity trace.
pub enum Action {
    Call(Call),
    Create(Create),
    CallResult(CallResult),
    CreateResult(CreateResult),
    /// An authorization that a transaction sets; the conversion leaves it aside.
    SetAuth,
    /// Any other action the conversion leaves aside (an internal transfer).
    Other,
}

/// One entry of a parity trace.
pub struct ExecTrace {
    pub action: Action,
}

/// The parity trace of one transaction.
pub struct TransactionExecTraces(pub Vec<ExecTrace>);

// ------------------------------------------------------------
// The conversion, step by step
// ------------------------------------------------------------

/// The state of the conversion: the traces so far, the ids and next child
/// positions of the open frames (the outermost first), and the indices of the
/// traces still waiting for their result (the open frames).
#[verifier::ext_equal]
pub struct ParityState {
    pub traces: Seq<DebankTraceView>,
    pub parent_ids: Seq<Seq<char>>,
    pub child_pos: Seq<i64>,
    pub call_stack: Seq<int>,
}

/// The state before the first action.
pub open spec fn parity_init() -> ParityState {
    ParityState {
        traces: seq![],
        parent_ids: seq![seq![]],
        child_pos: seq![0],
        call_stack: seq![],
    }
}

/// The last id, or the empty text when there is none.
pub open spec fn last_or_empty(s: Seq<Seq<char>>) -> Seq<char> {
    if s.len() > 0 {
        s.last()
    } else {
        seq![]
    }
}

/// The last position, or zero when there is none.
pub open spec fn last_or_zero(s: Seq<i64>) -> i64 {
    if s.len() > 0 {
        s.last()
    } else {
        0
    }
}

/// The sequence without its last element (unchanged when empty).
pub open spec fn pop_last<T>(s: Seq<T>) -> Seq<T> {
    if s.len() > 0 {
        s.drop_last()
    } else {
        s
    }
}

/// The positions with the last one counted up (unchanged when empty).
pub open spec fn bump_last(s: Seq<i64>) -> Seq<i64> {
    if s.len() > 0 {
        s.update(s.len() - 1, (s.last() + 1) as i64)
    } else {
        s
    }
}

/// `a - b`, or zero when `b` exceeds `a`.
pub open spec fn sat_sub(a: u64, b: u64) -> u64 {
    if a >= b {
        (a - b) as u64
    } else {
        0
    }
}

/// The call type text of a message call.
pub open spec fn call_type_name(ct: CallType) -> Seq<char> {
    match ct {
        CallType::StaticCall => "staticcall"@,
        CallType::DelegateCall => "delegatecall"@,
        CallType::CallCode => "callcode"@,
        _ => "call"@,
    }
}

/// The error text of a finished call.
pub open spec fn call_error(o: Outcome) -> Option<Seq<char>> {
    match o {
        Outcome::Success => None,
        Outcome::Reverted => Some("execution reverted"@),
        Outcome::Fail => Some("internal failure"@),
    }
}

/// The error text of a finished creation.
pub open spec fn create_error(o: Outcome) -> Option<Seq<char>> {
    match o {
        Outcome::Success => None,
        Outcome::Reverted => Some("execution reverted"@),
        Outcome::Fail => Some("unknown error"@),
    }
}

/// The trace that a call or creation opens in state `st`: its id hashes the
/// transaction id, the open frame's id and the position within that frame; its
/// trace address is that of the open frame's trace followed by the position, or
/// empty when no frame is open.
pub open spec fn opened_trace(
    tx_id: Seq<char>,
    st: ParityState,
    from_addr: Seq<char>,
    gas_limit: u64,
    input: Seq<u8>,
    to_addr: Seq<char>,
    value: Seq<u8>,
    call_create_type: Seq<char>,
    call_type: Seq<char>,
) -> DebankTraceView {
    let parent_id = last_or_empty(st.parent_ids);
    let pos = last_or_zero(st.child_pos);
    DebankTraceView {
        id: id_of_triple(tx_id, parent_id, pos),
        from_addr,
        gas_limit,
        input,
        to_addr,
        value,
        gas_used: 0,
        output: seq![],
        call_create_type,
        call_type,
        tx_id,
        parent_trace_id: parent_id,
        pos_in_parent_trace: pos,
        self_storage_change: false,
        storage_change: false,
        subtraces: 0,
        trace_address: if st.call_stack.len() > 0 {
            st.traces[st.call_stack.last()].trace_address.push(pos)
        } else {
            seq![]
        },
        error: seq![],
    }
}

/// The traces with the open frame's trace counting one more subtrace.
pub open spec fn bump_open_frame(st: ParityState) -> Seq<DebankTraceView> {
    if st.call_stack.len() > 0 {
        let p = st.call_stack.last();
        st.traces.update(p, with_subtraces(st.traces[p], (st.traces[p].subtraces + 1) as i64))
    } else {
        st.traces
    }
}

/// Records an opened trace as a subtrace of the open frame and enters its frame.
pub open spec fn push_frame(st: ParityState, t: DebankTraceView) -> ParityState {
    ParityState {
        traces: bump_open_frame(st).push(t),
        parent_ids: st.parent_ids.push(t.id),
        child_pos: st.child_pos.push(0),
        call_stack: st.call_stack.push(st.traces.len() as int),
    }
}

/// Leaves the innermost frame and moves on to the next position of its parent.
pub open spec fn pop_frame(st: ParityState) -> ParityState {
    ParityState {
        traces: st.traces,
        parent_ids: pop_last(st.parent_ids),
        child_pos: bump_last(pop_last(st.child_pos)),
        call_stack: st.call_stack,
    }
}

/// A trace completed by its result.
pub open spec fn completed_trace(
    t: DebankTraceView,
    gas_left: u64,
    output: Seq<u8>,
    error: Option<Seq<char>>,
    to_addr: Option<Seq<char>>,
) -> DebankTraceView {
    DebankTraceView {
        id: t.id,
        from_addr: t.from_addr,
        gas_limit: t.gas_limit,
        input: t.input,
        to_addr: match to_addr {
            Some(a) => a,
            None => t.to_addr,
        },
        value: t.value,
        gas_used: sat_sub(t.gas_limit, gas_left),
        output,
        call_create_type: t.call_create_type,
        call_type: t.call_type,
        tx_id: t.tx_id,
        parent_trace_id: t.parent_trace_id,
        pos_in_parent_trace: t.pos_in_parent_trace,
        self_storage_change: t.self_storage_change,
        storage_change: t.storage_change,
        subtraces: t.subtraces,
        trace_address: t.trace_address,
        error: match error {
            Some(e) => e,
            None => t.error,
        },
    }
}

/// Completes the trace that waits longest-innermost for its result, if any.
pub open spec fn finish_top(
    st: ParityState,
    gas_left: u64,
    output: Seq<u8>,
    error: Option<Seq<char>>,
    to_addr: Option<Seq<char>>,
) -> ParityState {
    if st.call_stack.len() > 0 {
        let idx = st.call_stack.last();
        ParityState {
            traces: st.traces.update(
                idx,
                completed_trace(st.traces[idx], gas_left, output, error, to_addr),
            ),
            parent_ids: st.parent_ids,
            child_pos: st.child_pos,
            call_stack: st.call_stack.drop_last(),
        }
    } else {
        st
    }
}

/// One step of the conversion.
pub open spec fn parity_step(tx_id: Seq<char>, st: ParityState, a: Action) -> ParityState {
    match a {
        Action::Call(c) => push_frame(
            st,
            opened_trace(
                tx_id,
                st,
                prefixed_hex(c.from@),
                be_value(c.gas@) as u64,
                c.input@,
                prefixed_hex(c.to@),
                c.value@,
                "call"@,
                call_type_name(c.call_type),
            ),
        ),
        Action::Create(c) => push_frame(
            st,
            opened_trace(
                tx_id,
                st,
                prefixed_hex(c.from@),
                be_value(c.gas@) as u64,
                c.init@,
                "0x"@,
                c.value@,
                "create"@,
                "create"@,
            ),
        ),
        Action::CallResult(r) => finish_top(
            pop_frame(st),
            be_value(r.gas_left@) as u64,
            r.return_data@,
            call_error(r.outcome),
            None,
        ),
        Action::CreateResult(r) => finish_top(
            pop_frame(st),
            be_value(r.gas_left@) as u64,
            r.return_data@,
            create_error(r.outcome),
            Some(prefixed_hex(r.addr@)),
        ),
        Action::Other => st,
        Action::SetAuth => st,
    }
}

/// The state after all the actions.
pub open spec fn parity_fold(tx_id: Seq<char>, actions: Seq<ExecTrace>) -> ParityState
    decreases actions.len(),
{
    if actions.len() == 0 {
        parity_init()
    } else {
        parity_step(tx_id, parity_fold(tx_id, actions.drop_last()), actions.last().action)
    }
}

/// Every gas amount of the actions fits in 64 bits.
pub open spec fn parity_gas_fits(actions: Seq<ExecTrace>) -> bool {
    forall|i: int|
        0 <= i < actions.len() ==> match (#[trigger] actions[i]).action {
            Action::Call(c) => be_value(c.gas@) <= u64::MAX,
            Action::Create(c) => be_value(c.gas@) <= u64::MAX,
            Action::CallResult(r) => be_value(r.gas_left@) <= u64::MAX,
            Action::CreateResult(r) => be_value(r.gas_left@) <= u64::MAX,
            Action::Other => true,
            Action::SetAuth => true,
        }
}

// ------------------------------------------------------------
// Subtrace counts and the split by error
// ------------------------------------------------------------

/// A trace with its subtrace count set.
pub open spec fn with_subtraces(t: DebankTraceView, n: i64) -> DebankTraceView {
    DebankTraceView {
        id: t.id,
        from_addr: t.from_addr,
        gas_limit: t.gas_limit,
        input: t.input,
        to_addr: t.to_addr,
        value: t.value,
        gas_used: t.gas_used,
        output: t.output,
        call_create_type: t.call_create_type,
        call_type: t.call_type,
        tx_id: t.tx_id,
        parent_trace_id: t.parent_trace_id,
        pos_in_parent_trace: t.pos_in_parent_trace,
        self_storage_change: t.self_storage_change,
        storage_change: t.storage_change,
        subtraces: n,
        trace_address: t.trace_address,
        error: t.error,
    }
}

/// The traces without an error, in order.
pub open spec fn ok_traces(s: Seq<DebankTraceView>) -> Seq<DebankTraceView>
    decreases s.len(),
{
    if s.len() == 0 {
        seq![]
    } else if s.last().error.len() == 0 {
        ok_traces(s.drop_last()).push(s.last())
    } else {
        ok_traces(s.drop_last())
    }
}

/// The traces with an error, in order.
pub open spec fn failed_traces(s: Seq<DebankTraceView>) -> Seq<DebankTraceView>
    decreases s.len(),
{
    if s.len() == 0 {
        seq![]
    } else if s.last().error.len() != 0 {
        failed_traces(s.drop_last()).push(s.last())
    } else {
        failed_traces(s.drop_last())
    }
}


/// How many calls and creations the actions hold.
pub open spec fn opened_count(actions: Seq<ExecTrace>) -> nat
    decreases actions.len(),
{
    if actions.len() == 0 {
        0
    } else {
        opened_count(actions.drop_last()) + match actions.last().action {
            Action::Call(_) => 1nat,
            Action::Create(_) => 1nat,
            _ => 0nat,
        }
    }
}

/// Splitting by error keeps every trace exactly once: those without an error on
/// one side, those with an error on the other.
pub proof fn law_split_partition(s: Seq<DebankTraceView>)
    ensures
        ok_traces(s).len() + failed_traces(s).len() == s.len(),
        forall|k: int| 0 <= k < ok_traces(s).len() ==> (#[trigger] ok_traces(s)[k]).error.len() == 0,
        forall|k: int|
            0 <= k < failed_traces(s).len() ==> (#[trigger] failed_traces(s)[k]).error.len() != 0,
    decreases s.len(),
{
    if s.len() > 0 {
        law_split_partition(s.drop_last());
        let po = ok_traces(s.drop_last());
        let pf = failed_traces(s.drop_last());
        assert forall|k: int| 0 <= k < ok_traces(s).len() implies (
        #[trigger] ok_traces(s)[k]).error.len() == 0 by {
            if k < po.len() {
                assert(ok_traces(s)[k] == po[k]);
            }
        }
        assert forall|k: int| 0 <= k < failed_traces(s).len() implies (
        #[trigger] failed_traces(s)[k]).error.len() != 0 by {
            if k < pf.len() {
                assert(failed_traces(s)[k] == pf[k]);
            }
        }
    }
}

/// Each call and each creation of a parity trace gives exactly one debank trace,
/// whether it failed or not.
pub proof fn law_parity_trace_count(tx_id: Seq<char>, actions: Seq<ExecTrace>)
    ensures
        ok_traces(parity_fold(tx_id, actions).traces).len() + failed_traces(
            parity_fold(tx_id, actions).traces,
        ).len() == opened_count(actions),
{
    lemma_fold_trace_count(tx_id, actions);
    law_split_partition(parity_fold(tx_id, actions).traces);
}

proof fn lemma_fold_trace_count(tx_id: Seq<char>, actions: Seq<ExecTrace>)
    ensures
        parity_fold(tx_id, actions).traces.len() == opened_count(actions),
        forall|k: int|
            0 <= k < parity_fold(tx_id, actions).call_stack.len() ==> 0 <= #[trigger] parity_fold(
                tx_id,
                actions,
            ).call_stack[k] < parity_fold(tx_id, actions).traces.len(),
    decreases actions.len(),
{
    if actions.len() > 0 {
        lemma_fold_trace_count(tx_id, actions.drop_last());
        let st = parity_fold(tx_id, actions.drop_last());
        let next = parity_fold(tx_id, actions);
        assert(next == parity_step(tx_id, st, actions.last().action));
        match actions.last().action {
            Action::CallResult(r) => {
                let p = pop_frame(st);
                assert(p.traces == st.traces);
                assert(p.call_stack == st.call_stack);
                if p.call_stack.len() > 0 {
                    assert(0 <= p.call_stack.last() < p.traces.len());
                    assert(next.traces.len() == p.traces.len());
                    assert forall|k: int| 0 <= k < next.call_stack.len() implies 0
                        <= #[trigger] next.call_stack[k] < next.traces.len() by {
                        assert(next.call_stack[k] == p.call_stack[k]);
                    }
                }
            },
            Action::CreateResult(r) => {
                let p = pop_frame(st);
                assert(p.traces == st.traces);
                assert(p.call_stack == st.call_stack);
                if p.call_stack.len() > 0 {
                    assert(0 <= p.call_stack.last() < p.traces.len());
                    assert(next.traces.len() == p.traces.len());
                    assert forall|k: int| 0 <= k < next.call_stack.len() implies 0
                        <= #[trigger] next.call_stack[k] < next.traces.len() by {
                        assert(next.call_stack[k] == p.call_stack[k]);
                    }
                }
            },
            Action::Call(c) => {
                assert forall|k: int| 0 <= k < next.call_stack.len() implies 0
                    <= #[trigger] next.call_stack[k] < next.traces.len() by {
                    if k < st.call_stack.len() {
                        assert(next.call_stack[k] == st.call_stack[k]);
                    }
                }
            },
            Action::Create(c) => {
                assert forall|k: int| 0 <= k < next.call_stack.len() implies 0
                    <= #[trigger] next.call_stack[k] < next.traces.len() by {
                    if k < st.call_stack.len() {
                        assert(next.call_stack[k] == st.call_stack[k]);
                    }
                }
            },
            Action::Other => {},
            Action::SetAuth => {},
        }
    } else {
        assert(parity_fold(tx_id, actions) == parity_init());
    }
}

// ------------------------------------------------------------
// The trace tree
// ------------------------------------------------------------

/// For each trace of the conversion, the index of the trace it was opened inside
/// (the trace of the innermost open frame at that moment), or -1 when no frame
/// was open.
pub open spec fn parity_parents(tx_id: Seq<char>, actions: Seq<ExecTrace>) -> Seq<int>
    decreases actions.len(),
{
    if actions.len() == 0 {
        seq![]
    } else {
        let prev = parity_parents(tx_id, actions.drop_last());
        let st = parity_fold(tx_id, actions.drop_last());
        let parent = if st.call_stack.len() > 0 {
            st.call_stack.last()
        } else {
            -1
        };
        match actions.last().action {
            Action::Call(_) => prev.push(parent),
            Action::Create(_) => prev.push(parent),
            _ => prev,
        }
    }
}

/// How many entries of `parents` name the trace `i`.
pub open spec fn children_count(parents: Seq<int>, i: int) -> nat
    decreases parents.len(),
{
    if parents.len() == 0 {
        0
    } else {
        children_count(parents.drop_last(), i) + if parents.last() == i {
            1nat
        } else {
            0nat
        }
    }
}

/// Trace `k` sits in the tree that `parents` describes: its id hashes the
/// transaction id, its parent id and its position; below a parent it carries the
/// parent's id and the parent's address followed by its position; at the top it
/// has an empty parent id and address; it counts its children as subtraces.
pub open spec fn tree_node_ok(
    tx_id: Seq<char>,
    traces: Seq<DebankTraceView>,
    parents: Seq<int>,
    k: int,
) -> bool {
    let t = traces[k];
    &&& t.id == id_of_triple(tx_id, t.parent_trace_id, t.pos_in_parent_trace)
    &&& t.subtraces == children_count(parents, k)
    &&& if parents[k] >= 0 {
        &&& t.trace_address == traces[parents[k]].trace_address.push(t.pos_in_parent_trace)
        &&& t.parent_trace_id == traces[parents[k]].id
    } else {
        &&& t.trace_address == Seq::<i64>::empty()
        &&& t.parent_trace_id == Seq::<char>::empty()
    }
}

/// What the conversion keeps at every step: the open frames name existing
/// traces, parents come before their children, every trace sits in the tree, and
/// the ids of the open frames are those of their traces (below at most one empty
/// outermost id).
pub open spec fn parity_tree_inv(tx_id: Seq<char>, st: ParityState, parents: Seq<int>) -> bool {
    let off = st.parent_ids.len() - st.call_stack.len();
    &&& parents.len() == st.traces.len()
    &&& forall|k: int| 0 <= k < st.call_stack.len() ==> 0 <= #[trigger] st.call_stack[k] < st.traces.len()
    &&& forall|k: int| 0 <= k < parents.len() ==> -1 <= #[trigger] parents[k] < k
    &&& forall|k: int| 0 <= k < parents.len() ==> #[trigger] tree_node_ok(tx_id, st.traces, parents, k)
    &&& (off == 0 || off == 1)
    &&& (off == 1 ==> st.parent_ids[0] == Seq::<char>::empty())
    &&& forall|k: int|
        0 <= k < st.call_stack.len() ==> st.parent_ids[off + k] == st.traces[#[trigger] st.call_stack[k]].id
}

proof fn lemma_children_count_push(parents: Seq<int>, p: int, i: int)
    ensures
        children_count(parents.push(p), i) == children_count(parents, i) + if p == i {
            1nat
        } else {
            0nat
        },
{
    assert(parents.push(p).drop_last() =~= parents);
}

proof fn lemma_children_count_bound(parents: Seq<int>, i: int)
    ensures
        children_count(parents, i) <= parents.len(),
        (forall|k: int| 0 <= k < parents.len() ==> parents[k] != i) ==> children_count(parents, i) == 0,
    decreases parents.len(),
{
    if parents.len() > 0 {
        lemma_children_count_bound(parents.drop_last(), i);
        assert forall|k: int| 0 <= k < parents.len() - 1 && parents[k] != i implies #[trigger] parents.drop_last()[k] != i by {
        }
        if forall|k: int| 0 <= k < parents.len() ==> parents[k] != i {
            assert(parents.last() != i);
            assert forall|k: int| 0 <= k < parents.drop_last().len() implies parents.drop_last()[k] != i by {
                assert(parents.drop_last()[k] == parents[k]);
            }
        }
    }
}

/// Completing the latest waiting trace keeps the tree.
proof fn lemma_tree_result(
    tx_id: Seq<char>,
    st: ParityState,
    parents: Seq<int>,
    gas_left: u64,
    output: Seq<u8>,
    error: Option<Seq<char>>,
    to_addr: Option<Seq<char>>,
)
    requires
        parity_tree_inv(tx_id, st, parents),
    ensures
        parity_tree_inv(tx_id, finish_top(pop_frame(st), gas_left, output, error, to_addr), parents),
{
    let p = pop_frame(st);
    let next = finish_top(p, gas_left, output, error, to_addr);
    let off = st.parent_ids.len() - st.call_stack.len();
    if st.call_stack.len() > 0 {
        let idx = st.call_stack.last();
        assert(0 <= idx < st.traces.len());
        assert(next.traces == st.traces.update(
            idx,
            completed_trace(st.traces[idx], gas_left, output, error, to_addr),
        ));
        assert(st.parent_ids.len() > 0);
        assert(next.parent_ids == st.parent_ids.drop_last());
        assert(next.call_stack == st.call_stack.drop_last());
        assert forall|k: int| 0 <= k < parents.len() implies #[trigger] tree_node_ok(
            tx_id,
            next.traces,
            parents,
            k,
        ) by {
            assert(tree_node_ok(tx_id, st.traces, parents, k));
            if parents[k] >= 0 {
                assert(parents[k] < k);
            }
        }
        assert forall|k: int| 0 <= k < next.call_stack.len() implies next.parent_ids[off + k]
            == next.traces[#[trigger] next.call_stack[k]].id by {
            assert(next.call_stack[k] == st.call_stack[k]);
            assert(0 <= st.call_stack[k] < st.traces.len());
        }
        assert forall|k: int| 0 <= k < next.call_stack.len() implies 0 <= #[trigger] next.call_stack[k]
            < next.traces.len() by {
            assert(next.call_stack[k] == st.call_stack[k]);
        }
        if off == 1 {
            assert(next.parent_ids[0] == st.parent_ids[0]);
        }
    } else {
        assert(next == p);
        assert(next.traces == st.traces);
    }
}

/// Opening a trace keeps the tree, with the open frame's trace as its parent.
#[verifier::spinoff_prover]
proof fn lemma_tree_open(tx_id: Seq<char>, st: ParityState, parents: Seq<int>, t: DebankTraceView)
    requires
        parity_tree_inv(tx_id, st, parents),
        st.traces.len() < i64::MAX,
        t.id == id_of_triple(tx_id, last_or_empty(st.parent_ids), last_or_zero(st.child_pos)),
        t.parent_trace_id == last_or_empty(st.parent_ids),
        t.pos_in_parent_trace == last_or_zero(st.child_pos),
        t.subtraces == 0,
        t.trace_address == (if st.call_stack.len() > 0 {
            st.traces[st.call_stack.last()].trace_address.push(last_or_zero(st.child_pos))
        } else {
            Seq::<i64>::empty()
        }),
    ensures
        parity_tree_inv(
            tx_id,
            push_frame(st, t),
            parents.push(
                if st.call_stack.len() > 0 {
                    st.call_stack.last()
                } else {
                    -1
                },
            ),
        ),
{
    let n = st.traces.len() as int;
    let parent = if st.call_stack.len() > 0 {
        st.call_stack.last()
    } else {
        -1
    };
    let ps = parents.push(parent);
    let next = push_frame(st, t);
    let bumped = bump_open_frame(st);
    let off = st.parent_ids.len() - st.call_stack.len();
    assert(next.traces == bumped.push(t));
    assert(bumped.len() == n);
    assert forall|k: int| 0 <= k < n implies {
        &&& #[trigger] bumped[k].id == st.traces[k].id
        &&& bumped[k].parent_trace_id == st.traces[k].parent_trace_id
        &&& bumped[k].pos_in_parent_trace == st.traces[k].pos_in_parent_trace
        &&& bumped[k].trace_address == st.traces[k].trace_address
        &&& bumped[k].subtraces == st.traces[k].subtraces + if k == parent {
            1int
        } else {
            0int
        }
    } by {
        if st.call_stack.len() > 0 {
            assert(0 <= parent < n);
            if k == parent {
                assert(tree_node_ok(tx_id, st.traces, parents, k));
                lemma_children_count_bound(parents, k);
            }
        }
    }
    assert forall|k: int| 0 <= k < ps.len() implies -1 <= #[trigger] ps[k] < k by {
        if k < n {
            assert(ps[k] == parents[k]);
        } else {
            if st.call_stack.len() > 0 {
                assert(0 <= st.call_stack.last() < n);
            }
        }
    }
    assert forall|k: int| 0 <= k < ps.len() implies #[trigger] tree_node_ok(tx_id, next.traces, ps, k) by {
        lemma_children_count_push(parents, parent, k);
        if k < n {
            assert(tree_node_ok(tx_id, st.traces, parents, k));
            assert(ps[k] == parents[k]);
            assert(next.traces[k] == bumped[k]);
            if parents[k] >= 0 {
                assert(next.traces[parents[k]] == bumped[parents[k]]);
            }
        } else {
            assert(next.traces[k] == t);
            assert(ps[k] == parent);
            assert forall|j: int| 0 <= j < parents.len() implies parents[j] != k by {
                assert(-1 <= #[trigger] parents[j] < j);
            }
            lemma_children_count_bound(parents, k);
            if st.call_stack.len() > 0 {
                let q = st.call_stack.last();
                assert(0 <= q < n);
                assert(next.traces[q] == bumped[q]);
                assert(st.parent_ids[off + (st.call_stack.len() - 1)] == st.traces[st.call_stack[st.call_stack.len() - 1]].id);
                assert(last_or_empty(st.parent_ids) == st.traces[q].id);
            } else {
                assert(st.parent_ids.len() == 0 || st.parent_ids.len() == 1);
                assert(last_or_empty(st.parent_ids) == Seq::<char>::empty());
            }
        }
    }
    assert forall|k: int| 0 <= k < next.call_stack.len() implies 0 <= #[trigger] next.call_stack[k]
        < next.traces.len() by {
        if k < st.call_stack.len() {
            assert(next.call_stack[k] == st.call_stack[k]);
        }
    }
    assert forall|k: int| 0 <= k < next.call_stack.len() implies next.parent_ids[off + k]
        == next.traces[#[trigger] next.call_stack[k]].id by {
        if k < st.call_stack.len() {
            assert(next.call_stack[k] == st.call_stack[k]);
            assert(next.parent_ids[off + k] == st.parent_ids[off + k]);
            assert(0 <= st.call_stack[k] < n);
            assert(next.traces[st.call_stack[k]] == bumped[st.call_stack[k]]);
        } else {
            assert(next.call_stack[k] == n);
        }
    }
    if off == 1 {
        assert(next.parent_ids[0] == st.parent_ids[0]);
    }
}

/// Every state of the conversion keeps the tree.
proof fn lemma_parity_tree(tx_id: Seq<char>, actions: Seq<ExecTrace>)
    requires
        actions.len() < i64::MAX,
    ensures
        parity_tree_inv(tx_id, parity_fold(tx_id, actions), parity_parents(tx_id, actions)),
        parity_fold(tx_id, actions).traces.len() <= actions.len(),
    decreases actions.len(),
{
    if actions.len() == 0 {
        let st = parity_init();
        assert(parity_fold(tx_id, actions) == st);
        assert(st.parent_ids.len() == 1);
        assert(st.parent_ids[0] == Seq::<char>::empty());
    } else {
        lemma_parity_tree(tx_id, actions.drop_last());
        let st = parity_fold(tx_id, actions.drop_last());
        let parents = parity_parents(tx_id, actions.drop_last());
        assert(parity_fold(tx_id, actions) == parity_step(tx_id, st, actions.last().action));
        match actions.last().action {
            Action::Call(c) => {
                let t = opened_trace(
                    tx_id,
                    st,
                    prefixed_hex(c.from@),
                    be_value(c.gas@) as u64,
                    c.input@,
                    prefixed_hex(c.to@),
                    c.value@,
                    "call"@,
                    call_type_name(c.call_type),
                );
                lemma_tree_open(tx_id, st, parents, t);
            },
            Action::Create(c) => {
                let t = opened_trace(
                    tx_id,
                    st,
                    prefixed_hex(c.from@),
                    be_value(c.gas@) as u64,
                    c.init@,
                    "0x"@,
                    c.value@,
                    "create"@,
                    "create"@,
                );
                lemma_tree_open(tx_id, st, parents, t);
            },
            Action::CallResult(r) => {
                lemma_tree_result(
                    tx_id,
                    st,
                    parents,
                    be_value(r.gas_left@) as u64,
                    r.return_data@,
                    call_error(r.outcome),
                    None,
                );
            },
            Action::CreateResult(r) => {
                lemma_tree_result(
                    tx_id,
                    st,
                    parents,
                    be_value(r.gas_left@) as u64,
                    r.return_data@,
                    create_error(r.outcome),
                    Some(prefixed_hex(r.addr@)),
                );
            },
            Action::SetAuth => {},
            Action::Other => {},
        }
    }
}

/// The converted traces form a tree: a trace opened inside another (its parent,
/// which comes earlier) has the parent's trace address followed by its own
/// position, and the parent's id as its parent id; a trace opened outside any
/// other has the empty trace address and the empty parent id; and every id hashes
/// the transaction id, the parent id and the position.
pub proof fn law_parity_trace_tree(
    tx_id: Seq<char>,
    actions: Seq<ExecTrace>,
    traces: Seq<DebankTraceView>,
    parents: Seq<int>,
)
    requires
        actions.len() < i64::MAX,
        traces == parity_fold(tx_id, actions).traces,
        parents == parity_parents(tx_id, actions),
    ensures
        parents.len() == traces.len(),
        forall|k: int| 0 <= k < traces.len() ==> -1 <= #[trigger] parents[k] < k,
        forall|k: int|
            0 <= k < traces.len() && parents[k] >= 0 ==> (#[trigger] traces[k]).trace_address
                == traces[parents[k]].trace_address.push(traces[k].pos_in_parent_trace)
                && traces[k].parent_trace_id == traces[parents[k]].id,
        forall|k: int|
            0 <= k < traces.len() && parents[k] < 0 ==> (#[trigger] traces[k]).trace_address.len() == 0
                && traces[k].parent_trace_id.len() == 0,
        forall|k: int|
            0 <= k < traces.len() ==> (#[trigger] traces[k]).id == id_of_triple(
                tx_id,
                traces[k].parent_trace_id,
                traces[k].pos_in_parent_trace,
            ),
{
    lemma_parity_tree(tx_id, actions);
    assert forall|k: int| 0 <= k < traces.len() implies -1 <= #[trigger] parents[k] < k by {}
    assert forall|k: int| 0 <= k < traces.len() implies {
        &&& parents[k] >= 0 ==> (#[trigger] traces[k]).trace_address == traces[parents[k]].trace_address.push(
            traces[k].pos_in_parent_trace,
        ) && traces[k].parent_trace_id == traces[parents[k]].id
        &&& parents[k] < 0 ==> traces[k].trace_address.len() == 0 && traces[k].parent_trace_id.len() == 0
        &&& traces[k].id == id_of_triple(tx_id, traces[k].parent_trace_id, traces[k].pos_in_parent_trace)
    } by {
        assert(tree_node_ok(tx_id, traces, parents, k));
    }
}

/// Each converted trace counts as its subtraces exactly the traces opened
/// directly inside it.
pub proof fn law_parity_subtraces(
    tx_id: Seq<char>,
    actions: Seq<ExecTrace>,
    traces: Seq<DebankTraceView>,
    parents: Seq<int>,
)
    requires
        actions.len() < i64::MAX,
        traces == parity_fold(tx_id, actions).traces,
        parents == parity_parents(tx_id, actions),
    ensures
        parents.len() == traces.len(),
        forall|i: int| 0 <= i < traces.len() ==> (#[trigger] traces[i]).subtraces == children_count(parents, i),
{
    lemma_parity_tree(tx_id, actions);
    assert forall|i: int| 0 <= i < traces.len() implies (#[trigger] traces[i]).subtraces
        == children_count(parents, i) by {
        assert(tree_node_ok(tx_id, traces, parents, i));
    }
}

/// Every result among the actions closes a call or creation that is still open:
/// no result comes while nothing is open.
pub open spec fn parity_well_nested(tx_id: Seq<char>, actions: Seq<ExecTrace>) -> bool
    decreases actions.len(),
{
    if actions.len() == 0 {
        true
    } else {
        &&& parity_well_nested(tx_id, actions.drop_last())
        &&& (actions.last().action is CallResult || actions.last().action is CreateResult)
            ==> parity_fold(tx_id, actions.drop_last()).call_stack.len() > 0
    }
}

/// The open frames in well-nested input: the next positions of the top level and
/// of each open frame count the children opened there so far, less the one still
/// open above it; the open frames were opened in order; and each trace's position
/// counts the earlier traces with its parent.
pub open spec fn parity_sibling_inv(st: ParityState, parents: Seq<int>) -> bool {
    let cs = st.call_stack;
    &&& st.child_pos.len() == cs.len() + 1
    &&& forall|a: int, b: int| 0 <= a < b < cs.len() ==> #[trigger] cs[a] < #[trigger] cs[b]
    &&& st.child_pos[0] + (if cs.len() > 0 {
        1int
    } else {
        0int
    }) == children_count(parents, -1)
    &&& forall|d: int|
        0 <= d < cs.len() ==> st.child_pos[d + 1] + (if d + 1 < cs.len() {
            1int
        } else {
            0int
        }) == children_count(parents, #[trigger] cs[d])
    &&& forall|k: int|
        0 <= k < st.traces.len() ==> (#[trigger] st.traces[k]).pos_in_parent_trace == children_count(
            parents.take(k),
            parents[k],
        )
}

proof fn lemma_parity_siblings(tx_id: Seq<char>, actions: Seq<ExecTrace>)
    requires
        actions.len() < i64::MAX,
        parity_well_nested(tx_id, actions),
    ensures
        parity_sibling_inv(parity_fold(tx_id, actions), parity_parents(tx_id, actions)),
    decreases actions.len(),
{
    lemma_parity_tree(tx_id, actions);
    if actions.len() == 0 {
        assert(parity_fold(tx_id, actions) == parity_init());
    } else {
        let dl = actions.drop_last();
        lemma_parity_siblings(tx_id, dl);
        lemma_parity_tree(tx_id, dl);
        let st = parity_fold(tx_id, dl);
        let ps = parity_parents(tx_id, dl);
        let next = parity_fold(tx_id, actions);
        let nps = parity_parents(tx_id, actions);
        let cs = st.call_stack;
        let n = st.traces.len() as int;
        assert(next == parity_step(tx_id, st, actions.last().action));
        let opens = actions.last().action is Call || actions.last().action is Create;
        let closes = actions.last().action is CallResult || actions.last().action is CreateResult;
        if opens {
            let p = if cs.len() > 0 {
                cs.last()
            } else {
                -1
            };
            assert(nps == ps.push(p));
            assert(next.call_stack == cs.push(n));
            assert(next.child_pos == st.child_pos.push(0));
            assert(next.traces.len() == n + 1);
            assert(forall|x: int| #[trigger] children_count(nps, x) == children_count(ps, x) + if p == x {
                1int
            } else {
                0int
            }) by {
                assert forall|x: int| #[trigger] children_count(nps, x) == children_count(ps, x) + if p == x {
                    1int
                } else {
                    0int
                } by {
                    lemma_children_count_push(ps, p, x);
                }
            }
            assert(children_count(ps, n) == 0) by {
                assert forall|j: int| 0 <= j < ps.len() implies ps[j] != n by {
                    assert(-1 <= #[trigger] ps[j] < j);
                }
                lemma_children_count_bound(ps, n);
            }
            if cs.len() > 0 {
                assert(0 <= cs.last() < n);
            }
            let ncs = next.call_stack;
            assert forall|a: int, b: int| 0 <= a < b < ncs.len() implies #[trigger] ncs[a] < #[trigger] ncs[b] by {
                if b < cs.len() {
                    assert(ncs[a] == cs[a] && ncs[b] == cs[b]);
                } else {
                    assert(ncs[a] == cs[a]);
                    assert(0 <= cs[a] < n);
                }
            }
            assert forall|d: int| 0 <= d < ncs.len() implies next.child_pos[d + 1] + (if d + 1 < ncs.len() {
                1int
            } else {
                0int
            }) == children_count(nps, #[trigger] ncs[d]) by {
                if d < cs.len() {
                    assert(ncs[d] == cs[d]);
                    assert(next.child_pos[d + 1] == st.child_pos[d + 1]);
                    assert(children_count(ps, cs[d]) == st.child_pos[d + 1] + (if d + 1 < cs.len() {
                        1int
                    } else {
                        0int
                    }));
                    if d + 1 < cs.len() {
                        assert(cs[d] < cs[cs.len() - 1]);
                    }
                } else {
                    assert(ncs[d] == n);
                }
            }
            if cs.len() > 0 {
                assert(p != -1);
            }
            assert(next.child_pos[0] == st.child_pos[0]);
            assert forall|k: int| 0 <= k < next.traces.len() implies (#[trigger] next.traces[k]).pos_in_parent_trace
                == children_count(nps.take(k), nps[k]) by {
                if k < n {
                    assert(nps.take(k) =~= ps.take(k));
                    assert(nps[k] == ps[k]);
                    assert(next.traces[k].pos_in_parent_trace == st.traces[k].pos_in_parent_trace) by {
                        if cs.len() > 0 && k == cs.last() {
                        }
                    }
                } else {
                    assert(nps.take(k) =~= ps);
                    assert(nps[k] == p);
                    assert(ps.len() == n);
                    if cs.len() > 0 {
                        assert(last_or_zero(st.child_pos) == st.child_pos[cs.len() as int]);
                        assert(st.child_pos[(cs.len() - 1) + 1] == children_count(ps, cs[cs.len() - 1]));
                    } else {
                        assert(last_or_zero(st.child_pos) == st.child_pos[0]);
                    }
                }
            }
        } else if closes {
            assert(cs.len() > 0);
            assert(nps == ps);
            let p = pop_frame(st);
            assert(next.traces.len() == n);
            assert(next.call_stack == cs.drop_last());
            assert(next.child_pos == bump_last(st.child_pos.drop_last()));
            let ncs = next.call_stack;
            let cp = st.child_pos.drop_last();
            let m = cs.len() - 1;
            assert(cp.len() == cs.len());
            // the position that gets counted up is that of the frame below the closed one
            let below = if m > 0 {
                cs[m - 1]
            } else {
                -1
            };
            assert(cp[m] + 1 == children_count(ps, below)) by {
                if m > 0 {
                    assert(cp[m] == st.child_pos[(m - 1) + 1]);
                    assert(st.child_pos[(m - 1) + 1] + 1 == children_count(ps, cs[m - 1]));
                } else {
                    assert(cp[0] == st.child_pos[0]);
                }
            }
            lemma_children_count_bound(ps, below);
            assert(ps.len() == n);
            assert(n <= actions.len());
            assert(next.child_pos == cp.update(m, (cp[m] + 1) as i64));
            assert forall|a: int, b: int| 0 <= a < b < ncs.len() implies #[trigger] ncs[a] < #[trigger] ncs[b] by {
                assert(ncs[a] == cs[a] && ncs[b] == cs[b]);
            }
            assert forall|d: int| 0 <= d < ncs.len() implies next.child_pos[d + 1] + (if d + 1 < ncs.len() {
                1int
            } else {
                0int
            }) == children_count(nps, #[trigger] ncs[d]) by {
                assert(ncs[d] == cs[d]);
                assert(children_count(ps, cs[d]) == st.child_pos[d + 1] + (if d + 1 < cs.len() {
                    1int
                } else {
                    0int
                }));
                if d + 1 < m {
                    assert(next.child_pos[d + 1] == st.child_pos[d + 1]);
                } else {
                    assert(d + 1 == m);
                    assert(next.child_pos[d + 1] == cp[m] + 1);
                }
            }
            if m > 0 {
                assert(next.child_pos[0] == st.child_pos[0]);
            } else {
                assert(next.child_pos[0] == cp[0] + 1);
            }
            assert forall|k: int| 0 <= k < next.traces.len() implies (#[trigger] next.traces[k]).pos_in_parent_trace
                == children_count(nps.take(k), nps[k]) by {
                assert(st.traces[k].pos_in_parent_trace == children_count(ps.take(k), ps[k]));
            }
        } else {
            assert(next == st);
            assert(nps == ps);
        }
    }
}

/// When every result closes an open call or creation, the traces opened at the
/// top level, or inside the same trace, take the positions 0, 1, 2, ... in the
/// order of the actions: each trace's position is the number of earlier traces
/// with the same parent.
pub proof fn law_parity_sibling_positions(
    tx_id: Seq<char>,
    actions: Seq<ExecTrace>,
    traces: Seq<DebankTraceView>,
    parents: Seq<int>,
)
    requires
        actions.len() < i64::MAX,
        parity_well_nested(tx_id, actions),
        traces == parity_fold(tx_id, actions).traces,
        parents == parity_parents(tx_id, actions),
    ensures
        forall|k: int|
            0 <= k < traces.len() ==> (#[trigger] traces[k]).pos_in_parent_trace == children_count(
                parents.take(k),
                parents[k],
            ),
{
    lemma_parity_siblings(tx_id, actions);
}

/// What a trace keeps of the action that opened it.
pub open spec fn trace_from_action(tx_id: Seq<char>, t: DebankTraceView, a: Action) -> bool {
    match a {
        Action::Call(c) => {
            &&& t.from_addr == prefixed_hex(c.from@)
            &&& t.input == c.input@
            &&& t.value == c.value@
            &&& t.gas_limit == be_value(c.gas@) as u64
            &&& t.call_create_type == "call"@
            &&& t.call_type == call_type_name(c.call_type)
            &&& t.tx_id == tx_id
        },
        Action::Create(c) => {
            &&& t.from_addr == prefixed_hex(c.from@)
            &&& t.input == c.init@
            &&& t.value == c.value@
            &&& t.gas_limit == be_value(c.gas@) as u64
            &&& t.call_create_type == "create"@
            &&& t.call_type == "create"@
            &&& t.tx_id == tx_id
        },
        _ => true,
    }
}

/// Each call and each creation opens a trace of its own, in action order: the
/// action at `a` (the `n`-th that opens one) gives the `n`-th trace, which keeps
/// the action's sender, input (a creation's init code), value, gas limit and call
/// type, and the transaction id.
pub proof fn law_parity_trace_sources(tx_id: Seq<char>, actions: Seq<ExecTrace>)
    ensures
        forall|a: int|
            0 <= a < actions.len() && ((#[trigger] actions[a]).action is Call || actions[a].action is Create)
                ==> opened_count(actions.take(a)) < parity_fold(tx_id, actions).traces.len()
                && trace_from_action(
                tx_id,
                parity_fold(tx_id, actions).traces[opened_count(actions.take(a)) as int],
                actions[a].action,
            ),
    decreases actions.len(),
{
    lemma_fold_trace_count(tx_id, actions);
    if actions.len() > 0 {
        let dl = actions.drop_last();
        law_parity_trace_sources(tx_id, dl);
        lemma_fold_trace_count(tx_id, dl);
        let n = actions.len() - 1;
        let st = parity_fold(tx_id, dl);
        let next = parity_fold(tx_id, actions);
        assert(next == parity_step(tx_id, st, actions.last().action));
        assert(actions.take(n) =~= dl);
        // every earlier trace keeps what it took from its action
        assert forall|k: int| 0 <= k < st.traces.len() implies {
            &&& (#[trigger] next.traces[k]).from_addr == st.traces[k].from_addr
            &&& next.traces[k].input == st.traces[k].input
            &&& next.traces[k].value == st.traces[k].value
            &&& next.traces[k].gas_limit == st.traces[k].gas_limit
            &&& next.traces[k].call_create_type == st.traces[k].call_create_type
            &&& next.traces[k].call_type == st.traces[k].call_type
            &&& next.traces[k].tx_id == st.traces[k].tx_id
        } by {
            match actions.last().action {
                Action::Call(_) => {
                    assert(next.traces[k] == bump_open_frame(st)[k]);
                },
                Action::Create(_) => {
                    assert(next.traces[k] == bump_open_frame(st)[k]);
                },
                _ => {},
            }
        }
        assert forall|a: int|
            0 <= a < actions.len() && ((#[trigger] actions[a]).action is Call || actions[a].action is Create)
                implies opened_count(actions.take(a)) < next.traces.len() && trace_from_action(
                tx_id,
                next.traces[opened_count(actions.take(a)) as int],
                actions[a].action,
            ) by {
            if a < n {
                assert(actions.take(a) =~= dl.take(a));
                assert(actions[a] == dl[a]);
                let k = opened_count(dl.take(a)) as int;
                assert(trace_from_action(tx_id, st.traces[k], dl[a].action));
                assert(next.traces[k].from_addr == st.traces[k].from_addr);
            } else {
                assert(actions[a] == actions.last());
                assert(opened_count(actions.take(a)) == st.traces.len());
                assert(next.traces[st.traces.len() as int] == next.traces.last());
            }
        }
    }
}

/// No converted parity trace counts as changing storage.
pub proof fn lemma_parity_no_self_change(tx_id: Seq<char>, actions: Seq<ExecTrace>)
    ensures
        forall|k: int|
            0 <= k < parity_fold(tx_id, actions).traces.len() ==> !(#[trigger] parity_fold(
                tx_id,
                actions,
            ).traces[k]).self_storage_change,
    decreases actions.len(),
{
    if actions.len() > 0 {
        lemma_parity_no_self_change(tx_id, actions.drop_last());
        lemma_fold_trace_count(tx_id, actions.drop_last());
        let st = parity_fold(tx_id, actions.drop_last());
        assert(parity_fold(tx_id, actions) == parity_step(tx_id, st, actions.last().action));
        let next = parity_fold(tx_id, actions);
        assert forall|k: int| 0 <= k < next.traces.len() implies !(#[trigger] next.traces[k]).self_storage_change by {
            if k < st.traces.len() {
                assert(!st.traces[k].self_storage_change);
            }
        }
    }
}

/// Splitting by error keeps traces as they are: each one of either side is one
/// of the traces split.
pub proof fn lemma_split_members(s: Seq<DebankTraceView>)
    ensures
        forall|k: int| 0 <= k < ok_traces(s).len() ==> s.contains(#[trigger] ok_traces(s)[k]),
        forall|k: int| 0 <= k < failed_traces(s).len() ==> s.contains(#[trigger] failed_traces(s)[k]),
    decreases s.len(),
{
    if s.len() > 0 {
        let dl = s.drop_last();
        lemma_split_members(dl);
        assert forall|k: int| 0 <= k < ok_traces(s).len() implies s.contains(#[trigger] ok_traces(s)[k]) by {
            if k < ok_traces(dl).len() {
                assert(ok_traces(s)[k] == ok_traces(dl)[k]);
                let j = choose|j: int| 0 <= j < dl.len() && dl[j] == ok_traces(dl)[k];
                assert(s[j] == dl[j]);
            } else {
                assert(ok_traces(s)[k] == s[s.len() - 1]);
            }
        }
        assert forall|k: int| 0 <= k < failed_traces(s).len() implies s.contains(#[trigger] failed_traces(s)[k]) by {
            if k < failed_traces(dl).len() {
                assert(failed_traces(s)[k] == failed_traces(dl)[k]);
                let j = choose|j: int| 0 <= j < dl.len() && dl[j] == failed_traces(dl)[k];
                assert(s[j] == dl[j]);
            } else {
                assert(failed_traces(s)[k] == s[s.len() - 1]);
            }
        }
    }
}

/// The index of the trace that the result at `a` closes: the innermost trace
/// still open when it arrives.
pub open spec fn closed_by(tx_id: Seq<char>, actions: Seq<ExecTrace>, a: int) -> int {
    parity_fold(tx_id, actions.take(a)).call_stack.last()
}

/// Whether some trace is open when the action at `a` arrives.
pub open spec fn open_at(tx_id: Seq<char>, actions: Seq<ExecTrace>, a: int) -> bool {
    parity_fold(tx_id, actions.take(a)).call_stack.len() > 0
}

/// The trace `t` carries what the result `act` reports: the gas used is its gas
/// limit less the gas left (zero when more is left), the output is the returned
/// data, the error text is empty on success and names the failure otherwise, and
/// a creation result gives the created address as recipient.
pub open spec fn result_applied(t: DebankTraceView, act: Action) -> bool {
    match act {
        Action::CallResult(r) => {
            &&& t.gas_used == (if t.gas_limit >= be_value(r.gas_left@) {
                t.gas_limit - be_value(r.gas_left@)
            } else {
                0
            })
            &&& t.output == r.return_data@
            &&& t.error == match r.outcome {
                Outcome::Success => Seq::<char>::empty(),
                Outcome::Reverted => "execution reverted"@,
                Outcome::Fail => "internal failure"@,
            }
        },
        Action::CreateResult(r) => {
            &&& t.gas_used == (if t.gas_limit >= be_value(r.gas_left@) {
                t.gas_limit - be_value(r.gas_left@)
            } else {
                0
            })
            &&& t.output == r.return_data@
            &&& t.to_addr == prefixed_hex(r.addr@)
            &&& t.error == match r.outcome {
                Outcome::Success => Seq::<char>::empty(),
                Outcome::Reverted => "execution reverted"@,
                Outcome::Fail => "unknown error"@,
            }
        },
        _ => true,
    }
}

proof fn lemma_gas_fits_prefix(actions: Seq<ExecTrace>)
    requires
        parity_gas_fits(actions),
        actions.len() > 0,
    ensures
        parity_gas_fits(actions.drop_last()),
{
    assert forall|i: int| 0 <= i < actions.drop_last().len() implies match (#[trigger] actions.drop_last()[i]).action {
        Action::Call(c) => be_value(c.gas@) <= u64::MAX,
        Action::Create(c) => be_value(c.gas@) <= u64::MAX,
        Action::CallResult(r) => be_value(r.gas_left@) <= u64::MAX,
        Action::CreateResult(r) => be_value(r.gas_left@) <= u64::MAX,
        Action::SetAuth => true,
        Action::Other => true,
    } by {
        assert(actions.drop_last()[i] == actions[i]);
    }
}

/// Every result that finds a trace open completes that trace, once and for all,
/// as `result_applied` says.
pub proof fn law_parity_results(tx_id: Seq<char>, actions: Seq<ExecTrace>)
    requires
        parity_gas_fits(actions),
    ensures
        forall|a: int|
            0 <= a < actions.len() && ((#[trigger] actions[a]).action is CallResult
                || actions[a].action is CreateResult) && open_at(tx_id, actions, a) ==> {
                &&& 0 <= closed_by(tx_id, actions, a) < parity_fold(tx_id, actions).traces.len()
                &&& result_applied(
                    parity_fold(tx_id, actions).traces[closed_by(tx_id, actions, a)],
                    actions[a].action,
                )
            },
{
    lemma_parity_results(tx_id, actions);
}

proof fn lemma_parity_results(tx_id: Seq<char>, actions: Seq<ExecTrace>)
    requires
        parity_gas_fits(actions),
    ensures
        ({
            let st = parity_fold(tx_id, actions);
            &&& forall|x: int, y: int|
                0 <= x < y < st.call_stack.len() ==> #[trigger] st.call_stack[x] < #[trigger] st.call_stack[y]
            &&& forall|x: int| 0 <= x < st.call_stack.len() ==> 0 <= #[trigger] st.call_stack[x] < st.traces.len()
            &&& forall|x: int| 0 <= x < st.call_stack.len() ==> st.traces[#[trigger] st.call_stack[x]].error.len() == 0
        }),
        forall|a: int|
            0 <= a < actions.len() && ((#[trigger] actions[a]).action is CallResult
                || actions[a].action is CreateResult) && open_at(tx_id, actions, a) ==> {
                &&& 0 <= closed_by(tx_id, actions, a) < parity_fold(tx_id, actions).traces.len()
                &&& !parity_fold(tx_id, actions).call_stack.contains(closed_by(tx_id, actions, a))
                &&& result_applied(
                    parity_fold(tx_id, actions).traces[closed_by(tx_id, actions, a)],
                    actions[a].action,
                )
            },
    decreases actions.len(),
{
    if actions.len() == 0 {
        assert(parity_fold(tx_id, actions) == parity_init());
    } else {
        let dl = actions.drop_last();
        lemma_gas_fits_prefix(actions);
        lemma_parity_results(tx_id, dl);
        let n = actions.len() - 1;
        let st = parity_fold(tx_id, dl);
        let next = parity_fold(tx_id, actions);
        let cs = st.call_stack;
        assert(next == parity_step(tx_id, st, actions.last().action));
        assert(actions.take(n) =~= dl);
        assert(actions[n] == actions.last());
        assert(parity_gas_fits(actions) ==> match actions[n].action {
            Action::Call(c) => be_value(c.gas@) <= u64::MAX,
            Action::Create(c) => be_value(c.gas@) <= u64::MAX,
            Action::CallResult(r) => be_value(r.gas_left@) <= u64::MAX,
            Action::CreateResult(r) => be_value(r.gas_left@) <= u64::MAX,
            Action::SetAuth => true,
            Action::Other => true,
        });
        let closes = actions.last().action is CallResult || actions.last().action is CreateResult;
        let opens = actions.last().action is Call || actions.last().action is Create;
        // the stated fields of a trace change only when a result closes it
        assert forall|k: int| 0 <= k < st.traces.len() && !(closes && cs.len() > 0 && k == cs.last()) implies {
            &&& (#[trigger] next.traces[k]).gas_used == st.traces[k].gas_used
            &&& next.traces[k].gas_limit == st.traces[k].gas_limit
            &&& next.traces[k].output == st.traces[k].output
            &&& next.traces[k].error == st.traces[k].error
            &&& next.traces[k].to_addr == st.traces[k].to_addr
        } by {
            if opens {
                assert(next.traces[k] == bump_open_frame(st)[k]);
            } else if closes {
                if cs.len() > 0 {
                    assert(next.traces == st.traces.update(
                        cs.last(),
                        next.traces[cs.last()],
                    ));
                }
            }
        }
        if opens {
            assert(next.call_stack == cs.push(st.traces.len() as int));
            assert(next.traces.len() == st.traces.len() + 1);
        } else if closes {
            assert(next.call_stack == (if cs.len() > 0 {
                cs.drop_last()
            } else {
                cs
            }));
            assert(next.traces.len() == st.traces.len());
        } else {
            assert(next == st);
        }
        assert forall|a: int|
            0 <= a < actions.len() && ((#[trigger] actions[a]).action is CallResult
                || actions[a].action is CreateResult) && open_at(tx_id, actions, a) implies {
                &&& 0 <= closed_by(tx_id, actions, a) < next.traces.len()
                &&& !next.call_stack.contains(closed_by(tx_id, actions, a))
                &&& result_applied(next.traces[closed_by(tx_id, actions, a)], actions[a].action)
            } by {
            if a < n {
                assert(actions.take(a) =~= dl.take(a));
                assert(actions[a] == dl[a]);
                let p = closed_by(tx_id, actions, a);
                assert(p == closed_by(tx_id, dl, a));
                assert(open_at(tx_id, dl, a));
                assert(!cs.contains(p));
                assert(result_applied(st.traces[p], dl[a].action));
                assert(0 <= p < st.traces.len());
                if closes && cs.len() > 0 {
                    assert(cs.contains(cs.last()));
                    assert(p != cs.last());
                }
                if next.call_stack.contains(p) {
                    let y = choose|y: int| 0 <= y < next.call_stack.len() && next.call_stack[y] == p;
                    assert(next.call_stack[y] == cs[y] || (opens && y == cs.len()));
                    if opens && y == cs.len() {
                        assert(p < st.traces.len());
                    } else {
                        assert(cs.contains(p));
                    }
                }
            } else {
                assert(a == n);
                let p = closed_by(tx_id, actions, a);
                assert(p == cs.last());
                assert(cs.len() > 0);
                assert(0 <= cs[cs.len() - 1] < st.traces.len());
                assert(st.traces[cs[cs.len() - 1]].error.len() == 0);
                assert(st.traces[p].error =~= Seq::<char>::empty());
                let pf = pop_frame(st);
                assert(pf.call_stack == cs && pf.traces == st.traces);
                match actions[n].action {
                    Action::CallResult(r) => {
                        assert(next == finish_top(pf, be_value(r.gas_left@) as u64, r.return_data@, call_error(r.outcome), None));
                        assert(next.traces[p] == completed_trace(st.traces[p], be_value(r.gas_left@) as u64, r.return_data@, call_error(r.outcome), None));
                        assert(result_applied(next.traces[p], actions[a].action));
                    },
                    Action::CreateResult(r) => {
                        assert(next == finish_top(pf, be_value(r.gas_left@) as u64, r.return_data@, create_error(r.outcome), Some(prefixed_hex(r.addr@))));
                        assert(next.traces[p] == completed_trace(st.traces[p], be_value(r.gas_left@) as u64, r.return_data@, create_error(r.outcome), Some(prefixed_hex(r.addr@))));
                        assert(result_applied(next.traces[p], actions[a].action));
                    },
                    _ => {},
                }
                if next.call_stack.contains(p) {
                    let y = choose|y: int| 0 <= y < next.call_stack.len() && next.call_stack[y] == p;
                    assert(cs[y] < cs[cs.len() - 1]);
                }
            }
        }
        assert forall|x: int, y: int| 0 <= x < y < next.call_stack.len() implies #[trigger] next.call_stack[x]
            < #[trigger] next.call_stack[y] by {
            if opens && y == cs.len() {
                assert(0 <= cs[x] < st.traces.len());
            }
        }
        assert forall|x: int| 0 <= x < next.call_stack.len() implies 0 <= #[trigger] next.call_stack[x]
            < next.traces.len() by {
            if !(opens && x == cs.len()) {
                assert(next.call_stack[x] == cs[x]);
            }
        }
        assert forall|x: int| 0 <= x < next.call_stack.len() implies next.traces[#[trigger] next.call_stack[x]].error.len() == 0 by {
            if opens && x == cs.len() {
                assert(next.traces[st.traces.len() as int].error.len() == 0);
            } else {
                let k = cs[x];
                assert(next.call_stack[x] == k);
                assert(0 <= k < st.traces.len());
                if closes && cs.len() > 0 {
                    assert(x < cs.len() - 1);
                    assert(k < cs[cs.len() - 1]);
                }
            }
        }
    }
}

/// Every trace carries the transaction id `tx_id`.
pub open spec fn all_of_tx(s: Seq<DebankTraceView>, tx_id: Seq<char>) -> bool {
    forall|k: int| 0 <= k < s.len() ==> (#[trigger] s[k]).tx_id == tx_id
}

/// Every converted trace carries the transaction id it was converted for.
pub proof fn lemma_parity_tx_id(tx_id: Seq<char>, actions: Seq<ExecTrace>)
    ensures
        all_of_tx(parity_fold(tx_id, actions).traces, tx_id),
    decreases actions.len(),
{
    if actions.len() > 0 {
        lemma_parity_tx_id(tx_id, actions.drop_last());
        lemma_fold_trace_count(tx_id, actions.drop_last());
        let st = parity_fold(tx_id, actions.drop_last());
        assert(parity_fold(tx_id, actions) == parity_step(tx_id, st, actions.last().action));
        let next = parity_fold(tx_id, actions);
        assert forall|k: int| 0 <= k < next.traces.len() implies (#[trigger] next.traces[k]).tx_id == tx_id by {
            if k < st.traces.len() {
                assert(st.traces[k].tx_id == tx_id);
            }
        }
    }
}

/// Splitting by error keeps the transaction id of every trace.
pub proof fn lemma_split_tx_id(s: Seq<DebankTraceView>, tx_id: Seq<char>)
    requires
        all_of_tx(s, tx_id),
    ensures
        all_of_tx(ok_traces(s), tx_id),
        all_of_tx(failed_traces(s), tx_id),
    decreases s.len(),
{
    if s.len() > 0 {
        assert(all_of_tx(s.drop_last(), tx_id)) by {
            assert forall|k: int| 0 <= k < s.drop_last().len() implies (#[trigger] s.drop_last()[k]).tx_id == tx_id by {
                assert(s.drop_last()[k] == s[k]);
            }
        }
        lemma_split_tx_id(s.drop_last(), tx_id);
        assert(s.last().tx_id == tx_id);
        let o = ok_traces(s);
        let f = failed_traces(s);
        assert forall|k: int| 0 <= k < o.len() implies (#[trigger] o[k]).tx_id == tx_id by {
            if k < ok_traces(s.drop_last()).len() {
                assert(o[k] == ok_traces(s.drop_last())[k]);
            }
        }
        assert forall|k: int| 0 <= k < f.len() implies (#[trigger] f[k]).tx_id == tx_id by {
            if k < failed_traces(s.drop_last()).len() {
                assert(f[k] == failed_traces(s.drop_last())[k]);
            }
        }
    }
}

// ------------------------------------------------------------
// Executable conversion
// ------------------------------------------------------------

/// The content of an optional text.
pub open spec fn opt_text(o: Option<String>) -> Option<Seq<char>> {
    match o {
        Some(s) => Some(s@),
        None => None,
    }
}

/// A copy of a list of positions.
pub fn copy_positions(v: &[i64]) -> (r: Vec<i64>)
    ensures
        r@ == v@,
{
    let mut r: Vec<i64> = Vec::new();
    let mut i: usize = 0;
    while i < v.len()
        invariant
            i <= v@.len(),
            r@ == v@.take(i as int),
        decreases v.len() - i,
    {
        r.push(v[i]);
        proof {
            assert(v@.take(i + 1) =~= v@.take(i as int).push(v@[i as int]));
        }
        i += 1;
    }
    proof {
        assert(v@.take(v@.len() as int) =~= v@);
    }
    r
}

struct ParityBuilder {
    traces: Vec<DebankTrace>,
    parent_ids: Vec<String>,
    child_pos: Vec<i64>,
    call_stack: Vec<usize>,
}

impl ParityBuilder {
    spec fn state(&self) -> ParityState {
        ParityState {
            traces: traces_view(self.traces@),
            parent_ids: self.parent_ids@.map_values(|s: String| s@),
            child_pos: self.child_pos@,
            call_stack: self.call_stack@.map_values(|u: usize| u as int),
        }
    }

    /// Waiting traces exist, and after `n` steps no position exceeds `n`, there
    /// are at most `n` traces, and none has more subtraces than there are traces.
    spec fn wf(&self, n: int) -> bool {
        &&& forall|k: int| 0 <= k < self.call_stack@.len() ==> #[trigger] self.call_stack@[k] < self.traces@.len()
        &&& forall|k: int| 0 <= k < self.child_pos@.len() ==> 0 <= #[trigger] self.child_pos@[k] <= n
        &&& forall|k: int| 0 <= k < self.traces@.len() ==> 0 <= #[trigger] self.traces@[k].subtraces <= self.traces@.len()
        &&& self.traces@.len() <= n
    }

    fn open(
        &mut self,
        tx_id: &str,
        from_addr: String,
        gas_limit: u64,
        input: Vec<u8>,
        to_addr: String,
        value: U256,
        call_create_type: String,
        call_type: String,
        Ghost(n): Ghost<int>,
    )
        requires
            old(self).wf(n),
            n + 1 <= i64::MAX,
        ensures
            final(self).state() == push_frame(
                old(self).state(),
                opened_trace(
                    tx_id@,
                    old(self).state(),
                    from_addr@,
                    gas_limit,
                    input@,
                    to_addr@,
                    value@,
                    call_create_type@,
                    call_type@,
                ),
            ),
            final(self).wf(n + 1),
    {
        let ghost st = self.state();
        let pl = self.parent_ids.len();
        let parent_id: String = if pl > 0 {
            self.parent_ids[pl - 1].clone()
        } else {
            String::new()
        };
        let cl = self.child_pos.len();
        let pos: i64 = if cl > 0 {
            self.child_pos[cl - 1]
        } else {
            0
        };
        proof {
            assert(parent_id@ == last_or_empty(st.parent_ids));
            assert(pos == last_or_zero(st.child_pos));
        }
        let trace_id = debank_id_triple(tx_id, parent_id.as_str(), pos);
        let idx = self.traces.len();
        let cs = self.call_stack.len();
        let mut address: Vec<i64> = Vec::new();
        if cs > 0 {
            let p = self.call_stack[cs - 1];
            address = copy_positions(self.traces[p].trace_address.as_slice());
            address.push(pos);
            let count = self.traces[p].subtraces;
            let ghost before = self.traces@;
            set_subtraces(&mut self.traces[p], count + 1);
            proof {
                assert(traces_view(self.traces@) =~= traces_view(before).update(
                    p as int,
                    with_subtraces(before[p as int]@, (count + 1) as i64),
                ));
            }
        }
        proof {
            assert(traces_view(self.traces@) == bump_open_frame(st));
            assert(address@ == opened_trace(
                tx_id@, st, from_addr@, gas_limit, input@, to_addr@, value@,
                call_create_type@, call_type@,
            ).trace_address);
        }
        let ghost old_traces = self.traces@;
        self.traces.push(
            DebankTrace {
                id: trace_id.clone(),
                from_addr,
                gas_limit,
                input,
                to_addr,
                value,
                gas_used: 0,
                output: Vec::new(),
                call_create_type,
                call_type,
                tx_id: tx_id.to_owned(),
                parent_trace_id: parent_id,
                pos_in_parent_trace: pos,
                self_storage_change: false,
                storage_change: false,
                subtraces: 0,
                trace_address: address,
                error: String::new(),
            },
        );
        self.call_stack.push(idx);
        self.parent_ids.push(trace_id);
        self.child_pos.push(0);
        proof {
            assert(traces_view(self.traces@) =~= traces_view(old_traces).push(self.traces@.last()@));
            assert(self.parent_ids@.map_values(|s: String| s@) =~= st.parent_ids.push(
                self.parent_ids@.last()@,
            ));
            assert(self.call_stack@.map_values(|u: usize| u as int) =~= st.call_stack.push(
                idx as int,
            ));
            assert(self.state().traces =~= push_frame(st, self.traces@.last()@).traces);
        }
    }

    fn finish(
        &mut self,
        gas_left: u64,
        output: Vec<u8>,
        error: Option<String>,
        to_addr: Option<String>,
        Ghost(n): Ghost<int>,
    )
        requires
            old(self).wf(n),
            n + 1 <= i64::MAX,
        ensures
            final(self).state() == finish_top(
                pop_frame(old(self).state()),
                gas_left,
                output@,
                opt_text(error),
                opt_text(to_addr),
            ),
            final(self).wf(n + 1),
    {
        let ghost st = self.state();
        let _ = self.parent_ids.pop();
        let _ = self.child_pos.pop();
        let cl = self.child_pos.len();
        if cl > 0 {
            let v = self.child_pos[cl - 1];
            self.child_pos.set(cl - 1, v + 1);
        }
        proof {
            let p = pop_frame(st);
            assert(self.parent_ids@.map_values(|s: String| s@) =~= p.parent_ids);
            assert(self.child_pos@ =~= p.child_pos);
        }
        let ghost mid = self.state();
        match self.call_stack.pop() {
            Some(idx) => {
                complete_trace(&mut self.traces[idx], gas_left, output, error, to_addr);
                proof {
                    assert(traces_view(self.traces@) =~= mid.traces.update(
                        idx as int,
                        self.traces@[idx as int]@,
                    ));
                    assert(self.call_stack@.map_values(|u: usize| u as int) =~= mid.call_stack.drop_last());
                }
            },
            None => {},
        }
    }
}

fn complete_trace(
    t: &mut DebankTrace,
    gas_left: u64,
    output: Vec<u8>,
    error: Option<String>,
    to_addr: Option<String>,
)
    ensures
        final(t)@ == completed_trace(old(t)@, gas_left, output@, opt_text(error), opt_text(to_addr)),
{
    t.gas_used = t.gas_limit.saturating_sub(gas_left);
    t.output = output;
    match error {
        Some(e) => {
            t.error = e;
        },
        None => {},
    }
    match to_addr {
        Some(a) => {
            t.to_addr = a;
        },
        None => {},
    }
}


fn set_subtraces(t: &mut DebankTrace, n: i64)
    ensures
        final(t)@ == with_subtraces(old(t)@, n),
{
    t.subtraces = n;
}

/// Splits traces into those without and those with an error, keeping order.
fn split_by_error(all: Vec<DebankTrace>) -> (res: (Vec<DebankTrace>, Vec<DebankTrace>))
    ensures
        traces_view(res.0@) == ok_traces(traces_view(all@)),
        traces_view(res.1@) == failed_traces(traces_view(all@)),
{
    let ghost orig = traces_view(all@);
    let mut rest = all;
    let mut traces: Vec<DebankTrace> = Vec::new();
    let mut error_traces: Vec<DebankTrace> = Vec::new();
    let ghost mut i: int = 0;
    while rest.len() > 0
        invariant
            0 <= i <= orig.len(),
            traces_view(rest@) == orig.skip(i),
            traces_view(traces@) == ok_traces(orig.take(i)),
            traces_view(error_traces@) == failed_traces(orig.take(i)),
        decreases rest.len(),
    {
        let ghost before = rest@;
        let t = rest.remove(0);
        proof {
            assert(orig.skip(i).len() == before.len());
            assert(t@ == orig[i]) by {
                assert(traces_view(before)[0] == orig.skip(i)[0]);
            }
            assert(orig.take(i + 1).drop_last() =~= orig.take(i));
            assert(orig.take(i + 1).last() == orig[i]);
            assert(traces_view(rest@) =~= orig.skip(i + 1)) by {
                assert(rest@ =~= before.remove(0));
                assert forall|k: int| 0 <= k < rest@.len() implies #[trigger] traces_view(rest@)[k] == orig.skip(i + 1)[k] by {
                    assert(rest@[k] == before[k + 1]);
                    assert(traces_view(before)[k + 1] == orig.skip(i)[k + 1]);
                }
            }
        }
        if t.error.as_str().is_empty() {
            let ghost prev = traces@;
            traces.push(t);
            proof {
                assert(traces_view(traces@) =~= traces_view(prev).push(t@));
            }
        } else {
            let ghost prev = error_traces@;
            error_traces.push(t);
            proof {
                assert(traces_view(error_traces@) =~= traces_view(prev).push(t@));
            }
        }
        proof {
            i = i + 1;
        }
    }
    proof {
        assert(orig.take(i) =~= orig);
    }
    (traces, error_traces)
}

/// Converts the parity trace of a phantom transaction (a cross-space call) to
/// debank traces: each call or creation becomes a trace, completed by its result
/// (gas used, output, error, created address), placed in the trace tree below the
/// call or creation it happens inside (its trace address is that one's address
/// followed by its position there), counted with its direct subtraces, and put
/// among the error traces when it carries an error. No events come from such traces, and the log index
/// stays as it was.
pub fn build_debank_traces_from_parity(
    tx_id: &str,
    parity_traces: &TransactionExecTraces,
    _global_log_index: &mut i64,
) -> (res: (Vec<DebankTrace>, Vec<DebankTrace>, Vec<DebankEvent>, Vec<DebankEvent>))
    requires
        parity_gas_fits(parity_traces.0@),
        parity_traces.0@.len() < i64::MAX,
    ensures
        traces_view(res.0@) == ok_traces(
            parity_fold(tx_id@, parity_traces.0@).traces,
        ),
        traces_view(res.1@) == failed_traces(
            parity_fold(tx_id@, parity_traces.0@).traces,
        ),
        res.2@.len() == 0,
        res.3@.len() == 0,
        *final(_global_log_index) == *old(_global_log_index),
{
    let ghost actions = parity_traces.0@;
    let mut b = ParityBuilder {
        traces: Vec::new(),
        parent_ids: vec![String::new()],
        child_pos: vec![0],
        call_stack: Vec::new(),
    };
    proof {
        assert(b.state().traces =~= parity_init().traces);
        assert(b.state().parent_ids =~= parity_init().parent_ids);
        assert(b.state().call_stack =~= parity_init().call_stack);
        assert(b.state().child_pos =~= parity_init().child_pos);
        assert(b.state() == parity_init());
    }
    let mut i: usize = 0;
    while i < parity_traces.0.len()
        invariant
            i <= actions.len(),
            actions == parity_traces.0@,
            actions.len() < i64::MAX,
            parity_gas_fits(actions),
            b.state() == parity_fold(tx_id@, actions.take(i as int)),
            b.wf(i as int),
        decreases parity_traces.0.len() - i,
    {
        proof {
            assert(actions.take(i + 1).drop_last() =~= actions.take(i as int));
            assert(actions.take(i + 1).last() == actions[i as int]);
        }
        let exec_trace = &parity_traces.0[i];
        match &exec_trace.action {
            Action::Call(call) => {
                let call_type = match call.call_type {
                    CallType::StaticCall => "staticcall".to_owned(),
                    CallType::DelegateCall => "delegatecall".to_owned(),
                    CallType::CallCode => "callcode".to_owned(),
                    CallType::Call => "call".to_owned(),
                    CallType::Unspecified => "call".to_owned(),
                };
                b.open(
                    tx_id,
                    format_address(&call.from),
                    u256_as_u64(&call.gas),
                    copy_bytes(call.input.as_slice()),
                    format_address(&call.to),
                    call.value,
                    "call".to_owned(),
                    call_type,
                    Ghost(i as int),
                );
            },
            Action::Create(create) => {
                b.open(
                    tx_id,
                    format_address(&create.from),
                    u256_as_u64(&create.gas),
                    copy_bytes(create.init.as_slice()),
                    "0x".to_owned(),
                    create.value,
                    "create".to_owned(),
                    "create".to_owned(),
                    Ghost(i as int),
                );
            },
            Action::CallResult(result) => {
                let error = match result.outcome {
                    Outcome::Success => None,
                    Outcome::Reverted => Some("execution reverted".to_owned()),
                    Outcome::Fail => Some("internal failure".to_owned()),
                };
                b.finish(
                    u256_as_u64(&result.gas_left),
                    copy_bytes(result.return_data.as_slice()),
                    error,
                    None,
                    Ghost(i as int),
                );
            },
            Action::CreateResult(result) => {
                let error = match result.outcome {
                    Outcome::Success => None,
                    Outcome::Reverted => Some("execution reverted".to_owned()),
                    Outcome::Fail => Some("unknown error".to_owned()),
                };
                b.finish(
                    u256_as_u64(&result.gas_left),
                    copy_bytes(result.return_data.as_slice()),
                    error,
                    Some(format_address(&result.addr)),
                    Ghost(i as int),
                );
            },
            Action::Other => {},
            Action::SetAuth => {},
        }
        i += 1;
    }
    proof {
        assert(actions.take(actions.len() as int) =~= actions);
    }
    let (traces, error_traces) = split_by_error(b.traces);
    (traces, error_traces, Vec::new(), Vec::new())
}

} // verus!
