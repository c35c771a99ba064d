use debank_trace::arena::{CallKind, CallTrace, CallTraceArena, CallTraceNode, LogCallOrder, LogData, TraceStatus};
use debank_trace::block::{
    build_debank_block, PhantomBlock, PhantomReceipt, PhantomTransaction, RawDebankTrace, TxAction,
};
use debank_trace::debank::{
    BlockFile, DebankBlock, DebankEvent, DebankTrace, DebankTransaction,
};
use debank_trace::hashing::calc_validation_hash;
use debank_trace::parity::{Action, Call, CallResult, CallType, ExecTrace, Outcome, TransactionExecTraces};
use debank_trace::state_diff::{DebankAccountDiff, DebankStateDiff};

fn u256(v: u64) -> [u8; 32] {
    let mut b = [0u8; 32];
    b[24..].copy_from_slice(&v.to_be_bytes());
    b
}

fn hex_of(b: u8, n: usize) -> String {
    format!("0x{}", format!("{:02x}", b).repeat(n))
}

fn block_with_id(id: &str) -> DebankBlock {
    DebankBlock {
        id: id.to_string(),
        height: 1,
        parent_id: String::new(),
        base_fee_per_gas: 0,
        miner: String::new(),
        gas_limit: 0,
        gas_used: 0,
        timestamp: 0,
        process_start_timestamp: 0,
    }
}

fn tx_with_id(id: &str) -> DebankTransaction {
    DebankTransaction {
        id: id.to_string(),
        from_addr: String::new(),
        to_addr: String::new(),
        gas_limit: 0,
        gas_price: 0,
        gas_used: 0,
        status: true,
        max_fee_per_gas: 0,
        max_priority_fee_per_gas: 0,
        input: vec![],
        nonce: 0,
        idx: 0,
        value: [0; 32],
    }
}

fn event_with_id(id: &str) -> DebankEvent {
    DebankEvent {
        id: id.to_string(),
        contract_id: String::new(),
        selector: String::new(),
        topics: vec![],
        data: vec![],
        parent_trace_id: String::new(),
        pos_in_parent_trace: 0,
        idx: 0,
    }
}

fn trace_with_id(id: &str) -> DebankTrace {
    DebankTrace {
        id: id.to_string(),
        from_addr: String::new(),
        gas_limit: 0,
        input: vec![],
        to_addr: String::new(),
        value: [0; 32],
        gas_used: 0,
        output: vec![],
        call_create_type: String::new(),
        call_type: String::new(),
        tx_id: String::new(),
        parent_trace_id: String::new(),
        pos_in_parent_trace: 0,
        self_storage_change: false,
        storage_change: false,
        subtraces: 0,
        trace_address: vec![],
        error: String::new(),
    }
}

#[test]
fn validation_covers_ids_in_order_and_counts_records() {
    let file = BlockFile {
        block: block_with_id("blk"),
        txs: vec![tx_with_id("tx1")],
        events: vec![event_with_id("ev1")],
        traces: vec![trace_with_id("tr1")],
        error_events: vec![event_with_id("eev1")],
        error_traces: vec![trace_with_id("etr1")],
        storage_contracts: vec!["a".to_string(), "b".to_string()],
    };
    let v = file.validation();
    assert_eq!(v.validation_hash, 741157);
    assert!(!v.is_fork);
    assert_eq!(v.txs_count, 1);
    assert_eq!(v.events_count, 1);
    assert_eq!(v.traces_count, 1);
    assert_eq!(v.error_events_count, 1);
    assert_eq!(v.error_traces_count, 1);
    assert_eq!(v.storage_contracts_count, 2);
}

fn transaction(hash: u8, action: TxAction, gas_price: u64, tip: u64) -> PhantomTransaction {
    PhantomTransaction {
        hash: [hash; 32],
        sender: [0x51; 20],
        action,
        gas_price: u256(gas_price),
        max_priority_gas_price: u256(tip),
        gas_limit: u256(50_000),
        data: vec![0xde, 0xad],
        nonce: u256(4),
        value: u256(77),
    }
}

fn block(height: u64, txs: Vec<PhantomTransaction>, receipts: Vec<PhantomReceipt>, traces: Vec<TransactionExecTraces>) -> PhantomBlock {
    PhantomBlock {
        height,
        hash: [0x11; 32],
        parent_hash: [0x22; 32],
        timestamp: 1_700_000_000,
        total_gas_limit: u256(30_000_000),
        author: [0x33; 20],
        base_price: Some(u256(10)),
        transactions: txs,
        receipts,
        traces,
    }
}

#[test]
fn genesis_block_exports_empty_data() {
    let b = block(0, vec![transaction(1, TxAction::Create, 5, 1)], vec![], vec![]);
    let out = build_debank_block(&b, 99, None);
    assert_eq!(out.block_file.block.id, hex_of(0x11, 32));
    assert_eq!(out.block_file.block.parent_id, hex_of(0x22, 32));
    assert_eq!(out.block_file.block.miner, hex_of(0x33, 20));
    assert_eq!(out.block_file.block.height, 0);
    assert_eq!(out.block_file.block.gas_limit, 0);
    assert_eq!(out.block_file.block.base_fee_per_gas, 0);
    assert_eq!(out.block_file.block.process_start_timestamp, 99);
    assert!(out.block_file.txs.is_empty());
    assert_eq!(out.storage_diff.hash, [0; 32]);
    assert_eq!(out.validation_hash, calc_validation_hash(&[hex_of(0x11, 32)]));
    assert_eq!(out.validation_hash, 120450);
}

#[test]
fn block_without_transactions_keeps_hashes_in_state_diff() {
    let b = block(5, vec![], vec![PhantomReceipt { accumulated_gas_used: u256(0), success: true }], vec![]);
    let out = build_debank_block(&b, 1, None);
    assert_eq!(out.block_file.block.height, 5);
    assert_eq!(out.block_file.block.gas_limit, 30_000_000);
    assert_eq!(out.block_file.block.base_fee_per_gas, 10);
    assert_eq!(out.storage_diff.hash, [0x11; 32]);
    assert_eq!(out.storage_diff.parent_hash, [0x22; 32]);
    assert!(out.storage_diff.new_accounts.is_empty());
}

#[test]
fn transactions_get_gas_prices_and_traces() {
    let txs = vec![
        transaction(1, TxAction::Call([0x44; 20]), 100, 3),
        transaction(2, TxAction::Create, 5, 1),
        transaction(3, TxAction::Call([0x45; 20]), 7, 0),
    ];
    let receipts = vec![
        PhantomReceipt { accumulated_gas_used: u256(21_000), success: true },
        PhantomReceipt { accumulated_gas_used: u256(50_000), success: false },
        PhantomReceipt { accumulated_gas_used: u256(60_000), success: true },
    ];
    let parity = vec![
        TransactionExecTraces(vec![]),
        TransactionExecTraces(vec![
            ExecTrace {
                action: Action::Call(Call {
                    from: [1; 20],
                    to: [2; 20],
                    value: u256(0),
                    gas: u256(10),
                    input: vec![],
                    call_type: CallType::Call,
                }),
            },
            ExecTrace {
                action: Action::CallResult(CallResult {
                    outcome: Outcome::Success,
                    gas_left: u256(4),
                    return_data: vec![],
                }),
            },
        ]),
    ];
    let root = CallTraceNode {
        children: vec![],
        ordering: vec![LogCallOrder::Log(0)],
        logs: vec![LogData { topics: vec![[0xee; 32]], data: vec![] }],
        trace: CallTrace {
            caller: [0x51; 20],
            address: [0x44; 20],
            kind: CallKind::Call,
            value: u256(77),
            data: vec![],
            output: vec![],
            gas_used: 21_000,
            gas_limit: 50_000,
            is_error: false,
            status: TraceStatus::Revert,
            selfdestruct_refund_target: None,
        },
        execution_address: [0x44; 20],
        is_selfdestruct: false,
    };
    let raws = vec![RawDebankTrace { tx_hash: [1; 32], is_ethereum_space: true, arena: CallTraceArena { arena: vec![root] } }];
    let diff = DebankStateDiff {
        accounts: vec![DebankAccountDiff {
            address: [0x44; 20],
            balance: u256(1),
            nonce: u256(1),
            code_hash: [5; 32],
            code: None,
            storage_changes: vec![(vec![1], u256(1))],
            is_new: false,
        }],
        deleted_accounts: vec![],
    };
    let b = block(9, txs, receipts, parity);
    let out = build_debank_block(&b, 0, Some((raws, diff)));
    let f = &out.block_file;
    assert_eq!(f.block.gas_used, 60_000);
    assert_eq!(f.txs.len(), 3);
    assert_eq!(f.txs[0].gas_used, 21_000);
    assert_eq!(f.txs[1].gas_used, 29_000);
    assert_eq!(f.txs[2].gas_used, 10_000);
    assert_eq!(f.txs[0].gas_price, 13);
    assert_eq!(f.txs[1].gas_price, 5);
    assert_eq!(f.txs[2].gas_price, 7);
    assert_eq!(f.txs[0].max_fee_per_gas, 100);
    assert_eq!(f.txs[0].to_addr, hex_of(0x44, 20));
    assert_eq!(f.txs[1].to_addr, "0x");
    assert!(!f.txs[1].status);
    assert_eq!(f.txs[2].idx, 2);
    assert_eq!(f.txs[0].nonce, 4);
    // tx 0 from its arena, tx 1 from its parity trace, tx 2 has neither
    assert_eq!(f.traces.len(), 2);
    assert_eq!(f.traces[0].tx_id, hex_of(1, 32));
    assert!(f.traces[0].self_storage_change);
    assert_eq!(f.traces[1].tx_id, hex_of(2, 32));
    assert_eq!(f.traces[1].gas_used, 6);
    assert_eq!(f.events.len(), 1);
    assert_eq!(f.events[0].idx, 0);
    assert_eq!(f.storage_contracts, vec![hex_of(0x44, 20)]);
    assert_eq!(out.validation_hash, f.validation().validation_hash);
    assert_eq!(out.storage_diff.storage_diff.len(), 1);
    assert_eq!(out.storage_diff.hash, [0x11; 32]);
}
