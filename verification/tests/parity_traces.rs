use debank_trace::hashing::debank_id;
use debank_trace::parity::{
    build_debank_traces_from_parity, Action, Call, CallResult, CallType, Create, CreateResult,
    ExecTrace, Outcome, TransactionExecTraces,
};

fn u256(v: u64) -> [u8; 32] {
    let mut b = [0u8; 32];
    b[24..].copy_from_slice(&v.to_be_bytes());
    b
}

fn call(from: u8, to: u8, gas: u64, call_type: CallType) -> ExecTrace {
    ExecTrace {
        action: Action::Call(Call {
            from: [from; 20],
            to: [to; 20],
            value: u256(3),
            gas: u256(gas),
            input: vec![0xab],
            call_type,
        }),
    }
}

fn call_result(outcome: Outcome, gas_left: u64) -> ExecTrace {
    ExecTrace {
        action: Action::CallResult(CallResult { outcome, gas_left: u256(gas_left), return_data: vec![0xcd] }),
    }
}

#[test]
fn nested_calls_form_a_tree() {
    let traces = TransactionExecTraces(vec![
        call(1, 2, 1000, CallType::Call),
        call(2, 3, 500, CallType::StaticCall),
        call_result(Outcome::Success, 200),
        call(2, 4, 100, CallType::DelegateCall),
        call_result(Outcome::Success, 100),
        call_result(Outcome::Success, 10),
    ]);
    let mut log_index = 5i64;
    let (ok, failed, events, error_events) = build_debank_traces_from_parity("0xtx", &traces, &mut log_index);
    assert_eq!(log_index, 5);
    assert!(failed.is_empty() && events.is_empty() && error_events.is_empty());
    assert_eq!(ok.len(), 3);
    let root_id = debank_id(&["0xtx", "", "0"]);
    assert_eq!(ok[0].id, root_id);
    assert_eq!(ok[0].parent_trace_id, "");
    assert_eq!(ok[0].trace_address, Vec::<i64>::new());
    assert_eq!(ok[0].subtraces, 2);
    assert_eq!(ok[0].gas_limit, 1000);
    assert_eq!(ok[0].gas_used, 990);
    assert_eq!(ok[0].call_type, "call");
    assert_eq!(ok[0].from_addr, format!("0x{}", "01".repeat(20)));
    assert_eq!(ok[0].to_addr, format!("0x{}", "02".repeat(20)));
    assert_eq!(ok[0].output, vec![0xcd]);
    assert_eq!(ok[1].id, debank_id(&["0xtx", &root_id, "0"]));
    assert_eq!(ok[1].trace_address, vec![0]);
    assert_eq!(ok[1].call_type, "staticcall");
    assert_eq!(ok[1].gas_used, 300);
    assert_eq!(ok[1].subtraces, 0);
    assert_eq!(ok[2].id, debank_id(&["0xtx", &root_id, "1"]));
    assert_eq!(ok[2].trace_address, vec![1]);
    assert_eq!(ok[2].parent_trace_id, root_id);
    assert_eq!(ok[2].pos_in_parent_trace, 1);
    assert_eq!(ok[2].call_type, "delegatecall");
    assert_eq!(ok[2].gas_used, 0);
}

#[test]
fn failed_calls_and_creates_go_to_error_traces() {
    let traces = TransactionExecTraces(vec![
        call(1, 2, 1000, CallType::Unspecified),
        ExecTrace {
            action: Action::Create(Create { from: [2; 20], value: u256(0), gas: u256(300), init: vec![0x60] }),
        },
        ExecTrace {
            action: Action::CreateResult(CreateResult {
                outcome: Outcome::Fail,
                addr: [9; 20],
                gas_left: u256(400),
                return_data: vec![],
            }),
        },
        call_result(Outcome::Reverted, 0),
        ExecTrace { action: Action::Other },
    ]);
    let mut log_index = 0i64;
    let (ok, failed, _, _) = build_debank_traces_from_parity("t", &traces, &mut log_index);
    assert!(ok.is_empty());
    assert_eq!(failed.len(), 2);
    assert_eq!(failed[0].error, "execution reverted");
    assert_eq!(failed[0].call_type, "call");
    assert_eq!(failed[0].gas_used, 1000);
    assert_eq!(failed[0].subtraces, 1);
    assert_eq!(failed[1].error, "unknown error");
    assert_eq!(failed[1].call_create_type, "create");
    assert_eq!(failed[1].to_addr, format!("0x{}", "09".repeat(20)));
    assert_eq!(failed[1].gas_used, 0);
    assert_eq!(failed[1].input, vec![0x60]);
}

#[test]
fn failing_call_result_reads_internal_failure() {
    let traces = TransactionExecTraces(vec![call(1, 2, 10, CallType::CallCode), call_result(Outcome::Fail, 4)]);
    let mut log_index = 0i64;
    let (ok, failed, _, _) = build_debank_traces_from_parity("t", &traces, &mut log_index);
    assert!(ok.is_empty());
    assert_eq!(failed[0].error, "internal failure");
    assert_eq!(failed[0].call_type, "callcode");
    assert_eq!(failed[0].gas_used, 6);
}

#[test]
fn unmatched_results_are_ignored() {
    let traces = TransactionExecTraces(vec![call_result(Outcome::Success, 1), call(1, 2, 10, CallType::Call)]);
    let mut log_index = 0i64;
    let (ok, failed, _, _) = build_debank_traces_from_parity("t", &traces, &mut log_index);
    assert!(failed.is_empty());
    assert_eq!(ok.len(), 1);
    assert_eq!(ok[0].parent_trace_id, "");
    assert_eq!(ok[0].pos_in_parent_trace, 0);
    assert_eq!(ok[0].gas_used, 0);
}

#[test]
fn second_child_of_the_root_has_its_own_position() {
    let traces = TransactionExecTraces(vec![
        call(1, 2, 100, CallType::Call),
        call(2, 3, 50, CallType::Call),
        call_result(Outcome::Success, 20),
        call(2, 4, 30, CallType::Call),
        call_result(Outcome::Success, 5),
        call_result(Outcome::Success, 10),
    ]);
    let mut log_index = 0i64;
    let (tr, er, _, _) = build_debank_traces_from_parity("t", &traces, &mut log_index);
    assert!(er.is_empty());
    assert_eq!(tr.len(), 3);
    assert_eq!(tr[0].trace_address, Vec::<i64>::new());
    assert_eq!(tr[0].subtraces, 2);
    assert_eq!(tr[0].gas_used, 90);
    assert_eq!(tr[1].trace_address, vec![0]);
    assert_eq!(tr[1].gas_used, 30);
    assert_eq!(tr[2].trace_address, vec![1]);
    assert_eq!(tr[2].pos_in_parent_trace, 1);
    assert_eq!(tr[2].parent_trace_id, tr[0].id);
    assert_eq!(tr[2].id, debank_id(&["t", &tr[0].id, "1"]));
    assert_eq!(tr[2].gas_used, 25);
}

#[test]
fn subtraces_count_direct_children_only() {
    // root { A; B { C } }
    let traces = TransactionExecTraces(vec![
        call(1, 2, 100, CallType::Call),
        call(2, 3, 50, CallType::Call),
        call_result(Outcome::Success, 0),
        call(2, 4, 40, CallType::Call),
        call(4, 5, 20, CallType::Call),
        call_result(Outcome::Success, 0),
        call_result(Outcome::Success, 0),
        call_result(Outcome::Success, 0),
    ]);
    let mut log_index = 0i64;
    let (tr, _, _, _) = build_debank_traces_from_parity("t", &traces, &mut log_index);
    assert_eq!(tr.len(), 4);
    assert_eq!(tr[0].subtraces, 2);
    assert_eq!(tr[1].subtraces, 0);
    assert_eq!(tr[1].trace_address, vec![0]);
    assert_eq!(tr[2].subtraces, 1);
    assert_eq!(tr[2].trace_address, vec![1]);
    assert_eq!(tr[3].subtraces, 0);
    assert_eq!(tr[3].trace_address, vec![1, 0]);
    assert_eq!(tr[3].parent_trace_id, tr[2].id);
}
