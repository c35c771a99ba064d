use debank_trace::parity::{Action, ExecTrace, TransactionExecTraces};
use debank_trace::trace_api::{find_transaction_index, select_trace, set_auth_positions};

#[test]
fn finds_first_transaction_with_hash() {
    let hashes = vec![[1u8; 32], [2u8; 32], [2u8; 32]];
    assert_eq!(find_transaction_index(&hashes, &[2u8; 32]), Some(1));
    assert_eq!(find_transaction_index(&hashes, &[3u8; 32]), None);
}

#[test]
fn selects_trace_by_first_index() {
    assert_eq!(select_trace(vec!["a", "b", "c"], &[1, 0]), Some("b"));
    assert_eq!(select_trace(vec!["a"], &[]), None);
    assert_eq!(select_trace(vec!["a"], &[3]), None);
}

fn entries(kinds: &[bool]) -> TransactionExecTraces {
    TransactionExecTraces(
        kinds
            .iter()
            .map(|&set_auth| ExecTrace { action: if set_auth { Action::SetAuth } else { Action::Other } })
            .collect(),
    )
}

#[test]
fn set_auth_entries_are_found_in_block_order() {
    let block = vec![entries(&[false, true, true]), entries(&[]), entries(&[true, false])];
    assert_eq!(set_auth_positions(&block), vec![(0, 1), (0, 2), (2, 0)]);
    assert_eq!(set_auth_positions(&vec![entries(&[false])]), vec![]);
}
