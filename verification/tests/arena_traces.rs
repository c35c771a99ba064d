use debank_trace::arena::{
    build_debank_traces_from_arena, CallKind, CallTrace, CallTraceArena, CallTraceNode, LogCallOrder,
    LogData, TraceStatus,
};
use debank_trace::hashing::debank_id;

fn trace(caller: u8, address: u8, kind: CallKind, is_error: bool, status: TraceStatus) -> CallTrace {
    CallTrace {
        caller: [caller; 20],
        address: [address; 20],
        kind,
        value: [0u8; 32],
        data: vec![1],
        output: vec![2],
        gas_used: 21,
        gas_limit: 100,
        is_error,
        status,
        selfdestruct_refund_target: None,
    }
}

fn addr_text(b: u8) -> String {
    format!("0x{}", format!("{:02x}", b).repeat(20))
}

#[test]
fn empty_arena_gives_nothing() {
    let arena = CallTraceArena { arena: vec![] };
    let mut log_index = 3i64;
    let out = build_debank_traces_from_arena("tx", &arena, &mut log_index, &vec![]);
    assert!(out.0.is_empty() && out.1.is_empty() && out.2.is_empty() && out.3.is_empty() && out.4.is_empty());
    assert_eq!(log_index, 3);
}

#[test]
fn arena_walk_interleaves_logs_and_calls() {
    let root = CallTraceNode {
        children: vec![1],
        ordering: vec![LogCallOrder::Log(0), LogCallOrder::Call(0), LogCallOrder::Log(1)],
        logs: vec![
            LogData { topics: vec![[0xaa; 32], [0xbb; 32]], data: vec![7] },
            LogData { topics: vec![], data: vec![] },
        ],
        trace: trace(1, 2, CallKind::Call, false, TraceStatus::Revert),
        execution_address: [2; 20],
        is_selfdestruct: false,
    };
    let child = CallTraceNode {
        children: vec![],
        ordering: vec![LogCallOrder::Log(0)],
        logs: vec![LogData { topics: vec![[0xcc; 32]], data: vec![] }],
        trace: trace(2, 3, CallKind::StaticCall, true, TraceStatus::OutOfGas),
        execution_address: [3; 20],
        is_selfdestruct: false,
    };
    let arena = CallTraceArena { arena: vec![root, child] };
    let addrs = vec![addr_text(3)];
    let mut log_index = 10i64;
    let (traces, error_traces, events, error_events, contracts) =
        build_debank_traces_from_arena("0xtx", &arena, &mut log_index, &addrs);
    assert_eq!(log_index, 13);
    let root_id = debank_id(&["0xtx", "", "0"]);
    let child_id = debank_id(&["0xtx", &root_id, "0"]);
    assert_eq!(traces.len(), 1);
    assert_eq!(traces[0].id, root_id);
    assert_eq!(traces[0].subtraces, 1);
    assert!(!traces[0].self_storage_change);
    assert!(traces[0].storage_change);
    assert_eq!(traces[0].call_type, "call");
    assert_eq!(error_traces.len(), 1);
    assert_eq!(error_traces[0].id, child_id);
    assert_eq!(error_traces[0].error, "out of gas");
    assert_eq!(error_traces[0].call_type, "staticcall");
    assert_eq!(error_traces[0].trace_address, vec![0]);
    assert!(error_traces[0].self_storage_change);
    assert_eq!(events.len(), 2);
    assert_eq!(events[0].id, debank_id(&[&root_id, "0"]));
    assert_eq!(events[0].idx, 10);
    assert_eq!(events[0].selector, format!("0x{}", "aa".repeat(32)));
    assert_eq!(events[0].topics.len(), 2);
    assert_eq!(events[0].contract_id, addr_text(2));
    assert_eq!(events[1].id, debank_id(&[&root_id, "1"]));
    assert_eq!(events[1].idx, 12);
    assert_eq!(events[1].selector, "");
    assert_eq!(error_events.len(), 1);
    assert_eq!(error_events[0].idx, 11);
    assert_eq!(error_events[0].parent_trace_id, child_id);
    assert_eq!(contracts, vec![addr_text(3)]);
}

#[test]
fn selfdestruct_adds_a_suicide_trace() {
    let mut t = trace(1, 2, CallKind::Create2, false, TraceStatus::Other("Stop".to_string()));
    t.selfdestruct_refund_target = Some([9; 20]);
    let root = CallTraceNode {
        children: vec![],
        ordering: vec![],
        logs: vec![],
        trace: t,
        execution_address: [2; 20],
        is_selfdestruct: true,
    };
    let arena = CallTraceArena { arena: vec![root] };
    let mut log_index = 0i64;
    let (traces, error_traces, _, _, contracts) =
        build_debank_traces_from_arena("tx", &arena, &mut log_index, &vec![addr_text(2)]);
    assert!(error_traces.is_empty());
    assert_eq!(traces.len(), 2);
    assert_eq!(traces[0].call_create_type, "create");
    let root_id = debank_id(&["tx", "", "0"]);
    assert_eq!(traces[1].id, debank_id(&["tx", &root_id, "0"]));
    assert_eq!(traces[1].call_type, "suicide");
    assert_eq!(traces[1].to_addr, addr_text(9));
    assert_eq!(traces[1].from_addr, addr_text(2));
    assert_eq!(traces[1].trace_address, vec![0]);
    assert_eq!(contracts, vec![addr_text(2)]);
}

#[test]
fn other_failure_status_reads_its_name() {
    let root = CallTraceNode {
        children: vec![],
        ordering: vec![],
        logs: vec![],
        trace: trace(1, 2, CallKind::Call, true, TraceStatus::Other("StackOverflow".to_string())),
        execution_address: [2; 20],
        is_selfdestruct: false,
    };
    let arena = CallTraceArena { arena: vec![root] };
    let mut log_index = 0i64;
    let (_, error_traces, _, _, _) = build_debank_traces_from_arena("tx", &arena, &mut log_index, &vec![]);
    assert_eq!(error_traces[0].error, "StackOverflow");
    let root = CallTraceNode {
        children: vec![],
        ordering: vec![],
        logs: vec![],
        trace: trace(1, 2, CallKind::Call, true, TraceStatus::Revert),
        execution_address: [2; 20],
        is_selfdestruct: false,
    };
    let arena = CallTraceArena { arena: vec![root] };
    let (_, error_traces, _, _, _) = build_debank_traces_from_arena("tx", &arena, &mut log_index, &vec![]);
    assert_eq!(error_traces[0].error, "execution reverted");
}

fn frame(children: Vec<usize>, ordering: Vec<LogCallOrder>, logs: usize, exec: u8) -> CallTraceNode {
    CallTraceNode {
        children,
        ordering,
        logs: (0..logs).map(|_| LogData { topics: vec![], data: vec![] }).collect(),
        trace: trace(1, exec, CallKind::Call, false, TraceStatus::Revert),
        execution_address: [exec; 20],
        is_selfdestruct: false,
    }
}

#[test]
fn reached_frames_record_contracts_once_and_children_take_call_positions() {
    // root { log; child1 { grandchild }; log; child2 }
    let root = frame(
        vec![1, 3],
        vec![LogCallOrder::Log(0), LogCallOrder::Call(0), LogCallOrder::Log(1), LogCallOrder::Call(1)],
        2,
        2,
    );
    let child1 = frame(vec![2], vec![LogCallOrder::Call(0)], 0, 5);
    let grandchild = frame(vec![], vec![LogCallOrder::Log(0)], 1, 6);
    let child2 = frame(vec![], vec![], 0, 5);
    let arena = CallTraceArena { arena: vec![root, child1, grandchild, child2] };
    let addrs = vec![addr_text(5), addr_text(6)];
    let mut log_index = 0i64;
    let (traces, error_traces, events, error_events, contracts) =
        build_debank_traces_from_arena("t", &arena, &mut log_index, &addrs);
    assert!(error_traces.is_empty() && error_events.is_empty());
    assert_eq!(log_index, 3);
    let idx: Vec<i64> = events.iter().map(|e| e.idx).collect();
    assert_eq!(idx, vec![0, 1, 2]);
    assert_eq!(contracts, vec![addr_text(5), addr_text(6)]);
    // post-order: grandchild, child1, child2, root
    assert_eq!(traces.len(), 4);
    let root_id = debank_id(&["t", "", "0"]);
    assert_eq!(traces[3].id, root_id);
    assert_eq!(traces[3].subtraces, 2);
    assert_eq!(traces[1].trace_address, vec![0]);
    assert_eq!(traces[0].trace_address, vec![0, 0]);
    assert_eq!(traces[2].trace_address, vec![1]);
    assert_eq!(traces[2].pos_in_parent_trace, 1);
    assert_eq!(traces[2].parent_trace_id, root_id);
    assert_eq!(events[1].parent_trace_id, traces[0].id);
    assert_eq!(events[2].pos_in_parent_trace, 1);
}
