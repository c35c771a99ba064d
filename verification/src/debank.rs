//! The records of a block file: block, transactions, traces, events, state diff,
//! and the block's validation summary.

use vstd::prelude::*;
use crate::hashing::{calc_validation_hash, strings_view, validation_hash_spec};

verus! {

/// A 32-byte hash.
pub type H256 = [u8; 32];

/// A 20-byte address.
pub type H160 = [u8; 20];

/// A 256-bit unsigned integer, as 32 big-endian bytes.
pub type U256 = [u8; 32];

// ------------------------------------------------------------
// State diff records
// ------------------------------------------------------------

/// Complete state diff for a block.
pub struct BlockStorageDiff {
    pub hash: H256,
    pub parent_hash: H256,
    pub new_accounts: Vec<NewAccount>,
    pub deleted_accounts: Vec<H256>,
    pub storage_diff: Vec<AccountStorageDiff>,
    pub new_codes: Vec<NewCode>,
}

/// A new account created in this block.
pub struct NewAccount {
    pub address_hash: H256,
    pub balance: U256,
    pub nonce: u64,
    pub code_hash: H256,
}

/// New contract code deployed in this block.
pub struct NewCode {
    pub code_hash: H256,
    pub code: Vec<u8>,
}

/// Storage diff for a single account.
pub struct AccountStorageDiff {
    pub address_hash: H256,
    pub values: Vec<IndexValuePair>,
}

/// A single storage slot change.
pub struct IndexValuePair {
    pub index: H256,
    pub value: Vec<u8>,
}

/// The content of a [`NewAccount`].
#[verifier::ext_equal]
pub struct NewAccountView {
    pub address_hash: Seq<u8>,
    pub balance: Seq<u8>,
    pub nonce: u64,
    pub code_hash: Seq<u8>,
}

/// The content of a [`NewCode`].
#[verifier::ext_equal]
pub struct NewCodeView {
    pub code_hash: Seq<u8>,
    pub code: Seq<u8>,
}

/// The content of an [`IndexValuePair`].
#[verifier::ext_equal]
pub struct IndexValueView {
    pub index: Seq<u8>,
    pub value: Seq<u8>,
}

/// The content of an [`AccountStorageDiff`].
#[verifier::ext_equal]
pub struct AccountStorageDiffView {
    pub address_hash: Seq<u8>,
    pub values: Seq<IndexValueView>,
}

/// The content of a [`BlockStorageDiff`].
#[verifier::ext_equal]
pub struct BlockStorageDiffView {
    pub hash: Seq<u8>,
    pub parent_hash: Seq<u8>,
    pub new_accounts: Seq<NewAccountView>,
    pub deleted_accounts: Seq<Seq<u8>>,
    pub storage_diff: Seq<AccountStorageDiffView>,
    pub new_codes: Seq<NewCodeView>,
}

impl View for NewAccount {
    type V = NewAccountView;

    open spec fn view(&self) -> NewAccountView {
        NewAccountView {
            address_hash: self.address_hash@,
            balance: self.balance@,
            nonce: self.nonce,
            code_hash: self.code_hash@,
        }
    }
}

impl View for NewCode {
    type V = NewCodeView;

    open spec fn view(&self) -> NewCodeView {
        NewCodeView { code_hash: self.code_hash@, code: self.code@ }
    }
}

impl View for IndexValuePair {
    type V = IndexValueView;

    open spec fn view(&self) -> IndexValueView {
        IndexValueView { index: self.index@, value: self.value@ }
    }
}

impl View for AccountStorageDiff {
    type V = AccountStorageDiffView;

    open spec fn view(&self) -> AccountStorageDiffView {
        AccountStorageDiffView {
            address_hash: self.address_hash@,
            values: self.values@.map_values(|p: IndexValuePair| p@),
        }
    }
}

impl View for BlockStorageDiff {
    type V = BlockStorageDiffView;

    open spec fn view(&self) -> BlockStorageDiffView {
        BlockStorageDiffView {
            hash: self.hash@,
            parent_hash: self.parent_hash@,
            new_accounts: self.new_accounts@.map_values(|a: NewAccount| a@),
            deleted_accounts: self.deleted_accounts@.map_values(|h: H256| h@),
            storage_diff: self.storage_diff@.map_values(|d: AccountStorageDiff| d@),
            new_codes: self.new_codes@.map_values(|c: NewCode| c@),
        }
    }
}

/// The empty storage diff, with zero hashes.
pub open spec fn empty_storage_diff_view() -> BlockStorageDiffView {
    BlockStorageDiffView {
        hash: Seq::new(32, |i: int| 0u8),
        parent_hash: Seq::new(32, |i: int| 0u8),
        new_accounts: seq![],
        deleted_accounts: seq![],
        storage_diff: seq![],
        new_codes: seq![],
    }
}

impl Default for BlockStorageDiff {
    fn default() -> (r: Self)
        ensures
            r@ == empty_storage_diff_view(),
    {
        let r = BlockStorageDiff {
            hash: [0u8; 32],
            parent_hash: [0u8; 32],
            new_accounts: Vec::new(),
            deleted_accounts: Vec::new(),
            storage_diff: Vec::new(),
            new_codes: Vec::new(),
        };
        proof {
            assert(r@ =~= empty_storage_diff_view());
        }
        r
    }
}

// ------------------------------------------------------------
// Block file records
// ------------------------------------------------------------

/// Block metadata.
pub struct DebankBlock {
    pub id: String,
    pub height: u64,
    pub parent_id: String,
    pub base_fee_per_gas: u64,
    pub miner: String,
    pub gas_limit: u64,
    pub gas_used: u64,
    pub timestamp: u64,
    pub process_start_timestamp: i64,
}

/// A transaction of the block.
pub struct DebankTransaction {
    pub id: String,
    pub from_addr: String,
    pub to_addr: String,
    pub gas_limit: u64,
    pub gas_price: u64,
    pub gas_used: u64,
    pub status: bool,
    pub max_fee_per_gas: u64,
    pub max_priority_fee_per_gas: u64,
    pub input: Vec<u8>,
    pub nonce: u64,
    pub idx: i64,
    pub value: U256,
}

/// A trace (call, create or suicide).
pub struct DebankTrace {
    pub id: String,
    pub from_addr: String,
    pub gas_limit: u64,
    pub input: Vec<u8>,
    pub to_addr: String,
    pub value: U256,
    pub gas_used: u64,
    pub output: Vec<u8>,
    pub call_create_type: String,
    pub call_type: String,
    pub tx_id: String,
    pub parent_trace_id: String,
    pub pos_in_parent_trace: i64,
    pub self_storage_change: bool,
    pub storage_change: bool,
    pub subtraces: i64,
    pub trace_address: Vec<i64>,
    pub error: String,
}

/// An event log.
pub struct DebankEvent {
    pub id: String,
    pub contract_id: String,
    pub selector: String,
    pub topics: Vec<String>,
    pub data: Vec<u8>,
    pub parent_trace_id: String,
    pub pos_in_parent_trace: i64,
    pub idx: i64,
}

/// All the records of one block.
pub struct BlockFile {
    pub block: DebankBlock,
    pub txs: Vec<DebankTransaction>,
    pub events: Vec<DebankEvent>,
    pub traces: Vec<DebankTrace>,
    pub error_events: Vec<DebankEvent>,
    pub error_traces: Vec<DebankTrace>,
    pub storage_contracts: Vec<String>,
}

/// Block validation summary.
pub struct BlockValidation {
    pub validation_hash: i64,
    pub is_fork: bool,
    pub txs_count: usize,
    pub events_count: usize,
    pub traces_count: usize,
    pub error_events_count: usize,
    pub error_traces_count: usize,
    pub storage_contracts_count: usize,
}

/// The content of a [`DebankTrace`].
#[verifier::ext_equal]
pub struct DebankTraceView {
    pub id: Seq<char>,
    pub from_addr: Seq<char>,
    pub gas_limit: u64,
    pub input: Seq<u8>,
    pub to_addr: Seq<char>,
    pub value: Seq<u8>,
    pub gas_used: u64,
    pub output: Seq<u8>,
    pub call_create_type: Seq<char>,
    pub call_type: Seq<char>,
    pub tx_id: Seq<char>,
    pub parent_trace_id: Seq<char>,
    pub pos_in_parent_trace: i64,
    pub self_storage_change: bool,
    pub storage_change: bool,
    pub subtraces: i64,
    pub trace_address: Seq<i64>,
    pub error: Seq<char>,
}

impl View for DebankTrace {
    type V = DebankTraceView;

    open spec fn view(&self) -> DebankTraceView {
        DebankTraceView {
            id: self.id@,
            from_addr: self.from_addr@,
            gas_limit: self.gas_limit,
            input: self.input@,
            to_addr: self.to_addr@,
            value: self.value@,
            gas_used: self.gas_used,
            output: self.output@,
            call_create_type: self.call_create_type@,
            call_type: self.call_type@,
            tx_id: self.tx_id@,
            parent_trace_id: self.parent_trace_id@,
            pos_in_parent_trace: self.pos_in_parent_trace,
            self_storage_change: self.self_storage_change,
            storage_change: self.storage_change,
            subtraces: self.subtraces,
            trace_address: self.trace_address@,
            error: self.error@,
        }
    }
}

/// The content of a [`DebankEvent`].
#[verifier::ext_equal]
pub struct DebankEventView {
    pub id: Seq<char>,
    pub contract_id: Seq<char>,
    pub selector: Seq<char>,
    pub topics: Seq<Seq<char>>,
    pub data: Seq<u8>,
    pub parent_trace_id: Seq<char>,
    pub pos_in_parent_trace: i64,
    pub idx: i64,
}

impl View for DebankEvent {
    type V = DebankEventView;

    open spec fn view(&self) -> DebankEventView {
        DebankEventView {
            id: self.id@,
            contract_id: self.contract_id@,
            selector: self.selector@,
            topics: self.topics@.map_values(|t: String| t@),
            data: self.data@,
            parent_trace_id: self.parent_trace_id@,
            pos_in_parent_trace: self.pos_in_parent_trace,
            idx: self.idx,
        }
    }
}

/// The content of a [`DebankBlock`].
#[verifier::ext_equal]
pub struct DebankBlockView {
    pub id: Seq<char>,
    pub height: u64,
    pub parent_id: Seq<char>,
    pub base_fee_per_gas: u64,
    pub miner: Seq<char>,
    pub gas_limit: u64,
    pub gas_used: u64,
    pub timestamp: u64,
    pub process_start_timestamp: i64,
}

impl View for DebankBlock {
    type V = DebankBlockView;

    open spec fn view(&self) -> DebankBlockView {
        DebankBlockView {
            id: self.id@,
            height: self.height,
            parent_id: self.parent_id@,
            base_fee_per_gas: self.base_fee_per_gas,
            miner: self.miner@,
            gas_limit: self.gas_limit,
            gas_used: self.gas_used,
            timestamp: self.timestamp,
            process_start_timestamp: self.process_start_timestamp,
        }
    }
}

/// The content of a [`DebankTransaction`].
#[verifier::ext_equal]
pub struct DebankTransactionView {
    pub id: Seq<char>,
    pub from_addr: Seq<char>,
    pub to_addr: Seq<char>,
    pub gas_limit: u64,
    pub gas_price: u64,
    pub gas_used: u64,
    pub status: bool,
    pub max_fee_per_gas: u64,
    pub max_priority_fee_per_gas: u64,
    pub input: Seq<u8>,
    pub nonce: u64,
    pub idx: i64,
    pub value: Seq<u8>,
}

impl View for DebankTransaction {
    type V = DebankTransactionView;

    open spec fn view(&self) -> DebankTransactionView {
        DebankTransactionView {
            id: self.id@,
            from_addr: self.from_addr@,
            to_addr: self.to_addr@,
            gas_limit: self.gas_limit,
            gas_price: self.gas_price,
            gas_used: self.gas_used,
            status: self.status,
            max_fee_per_gas: self.max_fee_per_gas,
            max_priority_fee_per_gas: self.max_priority_fee_per_gas,
            input: self.input@,
            nonce: self.nonce,
            idx: self.idx,
            value: self.value@,
        }
    }
}

/// The content of a [`BlockFile`].
#[verifier::ext_equal]
pub struct BlockFileView {
    pub block: DebankBlockView,
    pub txs: Seq<DebankTransactionView>,
    pub events: Seq<DebankEventView>,
    pub traces: Seq<DebankTraceView>,
    pub error_events: Seq<DebankEventView>,
    pub error_traces: Seq<DebankTraceView>,
    pub storage_contracts: Seq<Seq<char>>,
}

impl View for BlockFile {
    type V = BlockFileView;

    open spec fn view(&self) -> BlockFileView {
        BlockFileView {
            block: self.block@,
            txs: self.txs@.map_values(|t: DebankTransaction| t@),
            events: events_view(self.events@),
            traces: traces_view(self.traces@),
            error_events: events_view(self.error_events@),
            error_traces: traces_view(self.error_traces@),
            storage_contracts: self.storage_contracts@.map_values(|s: String| s@),
        }
    }
}

/// The identifiers that the validation hash of a block file's content covers.
pub open spec fn block_file_view_ids(f: BlockFileView) -> Seq<Seq<char>> {
    seq![f.block.id] + f.txs.map_values(|t: DebankTransactionView| t.id) + f.events.map_values(
        |e: DebankEventView| e.id,
    ) + f.traces.map_values(|t: DebankTraceView| t.id) + f.error_events.map_values(
        |e: DebankEventView| e.id,
    ) + f.error_traces.map_values(|t: DebankTraceView| t.id)
}

/// The identifiers of a block file are those of its content.
pub proof fn lemma_block_file_ids_view(f: BlockFile)
    ensures
        block_file_ids(f) == block_file_view_ids(f@),
{
    assert(tx_ids(f.txs@) =~= f@.txs.map_values(|t: DebankTransactionView| t.id));
    assert(event_ids(f.events@) =~= f@.events.map_values(|e: DebankEventView| e.id));
    assert(trace_ids(f.traces@) =~= f@.traces.map_values(|t: DebankTraceView| t.id));
    assert(event_ids(f.error_events@) =~= f@.error_events.map_values(|e: DebankEventView| e.id));
    assert(trace_ids(f.error_traces@) =~= f@.error_traces.map_values(|t: DebankTraceView| t.id));
}

/// The contents of traces.
pub open spec fn traces_view(ts: Seq<DebankTrace>) -> Seq<DebankTraceView> {
    ts.map_values(|t: DebankTrace| t@)
}

/// The contents of events.
pub open spec fn events_view(es: Seq<DebankEvent>) -> Seq<DebankEventView> {
    es.map_values(|e: DebankEvent| e@)
}

/// The identifiers of transactions.
pub open spec fn tx_ids(txs: Seq<DebankTransaction>) -> Seq<Seq<char>> {
    txs.map_values(|t: DebankTransaction| t.id@)
}

/// The identifiers of events.
pub open spec fn event_ids(events: Seq<DebankEvent>) -> Seq<Seq<char>> {
    events.map_values(|e: DebankEvent| e.id@)
}

/// The identifiers of traces.
pub open spec fn trace_ids(traces: Seq<DebankTrace>) -> Seq<Seq<char>> {
    traces.map_values(|t: DebankTrace| t.id@)
}

/// The identifiers that a block file's validation hash covers, in order: the
/// block, its transactions, events, traces, error events and error traces.
pub open spec fn block_file_ids(f: BlockFile) -> Seq<Seq<char>> {
    seq![f.block.id@] + tx_ids(f.txs@) + event_ids(f.events@) + trace_ids(f.traces@) + event_ids(
        f.error_events@,
    ) + trace_ids(f.error_traces@)
}

fn push_event_ids(ids: &mut Vec<String>, events: &Vec<DebankEvent>)
    ensures
        strings_view(final(ids)@) == strings_view(old(ids)@) + event_ids(events@),
{
    let ghost start = strings_view(ids@);
    let mut i: usize = 0;
    while i < events.len()
        invariant
            i <= events@.len(),
            strings_view(ids@) == start + event_ids(events@.take(i as int)),
        decreases events.len() - i,
    {
        let ghost prev = ids@;
        ids.push(events[i].id.clone());
        proof {
            assert(event_ids(events@.take(i + 1)) =~= event_ids(events@.take(i as int)).push(
                events@[i as int].id@,
            ));
            assert(strings_view(ids@) =~= strings_view(prev).push(events@[i as int].id@));
        }
        i += 1;
    }
    proof {
        assert(events@.take(events@.len() as int) =~= events@);
    }
}

fn push_trace_ids(ids: &mut Vec<String>, traces: &Vec<DebankTrace>)
    ensures
        strings_view(final(ids)@) == strings_view(old(ids)@) + trace_ids(traces@),
{
    let ghost start = strings_view(ids@);
    let mut i: usize = 0;
    while i < traces.len()
        invariant
            i <= traces@.len(),
            strings_view(ids@) == start + trace_ids(traces@.take(i as int)),
        decreases traces.len() - i,
    {
        let ghost prev = ids@;
        ids.push(traces[i].id.clone());
        proof {
            assert(strings_view(ids@) =~= strings_view(prev).push(traces@[i as int].id@));
            assert(trace_ids(traces@.take(i + 1)) =~= trace_ids(traces@.take(i as int)).push(
                traces@[i as int].id@,
            ));
        }
        i += 1;
    }
    proof {
        assert(traces@.take(traces@.len() as int) =~= traces@);
    }
}

fn push_tx_ids(ids: &mut Vec<String>, txs: &Vec<DebankTransaction>)
    ensures
        strings_view(final(ids)@) == strings_view(old(ids)@) + tx_ids(txs@),
{
    let ghost start = strings_view(ids@);
    let mut i: usize = 0;
    while i < txs.len()
        invariant
            i <= txs@.len(),
            strings_view(ids@) == start + tx_ids(txs@.take(i as int)),
        decreases txs.len() - i,
    {
        let ghost prev = ids@;
        ids.push(txs[i].id.clone());
        proof {
            assert(strings_view(ids@) =~= strings_view(prev).push(txs@[i as int].id@));
            assert(tx_ids(txs@.take(i + 1)) =~= tx_ids(txs@.take(i as int)).push(
                txs@[i as int].id@,
            ));
        }
        i += 1;
    }
    proof {
        assert(txs@.take(txs@.len() as int) =~= txs@);
    }
}

impl BlockFile {
    /// Computes the block validation from the block file: the validation hash of
    /// all identifiers, and the number of records of each kind.
    pub fn validation(&self) -> (v: BlockValidation)
        ensures
            v.validation_hash == validation_hash_spec(block_file_ids(*self)),
            0 <= v.validation_hash < 1_000_000,
            !v.is_fork,
            v.txs_count == self.txs@.len(),
            v.events_count == self.events@.len(),
            v.traces_count == self.traces@.len(),
            v.error_events_count == self.error_events@.len(),
            v.error_traces_count == self.error_traces@.len(),
            v.storage_contracts_count == self.storage_contracts@.len(),
    {
        let mut ids: Vec<String> = Vec::new();
        ids.push(self.block.id.clone());
        proof {
            assert(strings_view(ids@) =~= seq![self.block.id@]);
        }
        push_tx_ids(&mut ids, &self.txs);
        push_event_ids(&mut ids, &self.events);
        push_trace_ids(&mut ids, &self.traces);
        push_event_ids(&mut ids, &self.error_events);
        push_trace_ids(&mut ids, &self.error_traces);
        let validation_hash = calc_validation_hash(ids.as_slice());
        BlockValidation {
            validation_hash,
            is_fork: false,
            txs_count: self.txs.len(),
            events_count: self.events.len(),
            traces_count: self.traces.len(),
            error_events_count: self.error_events.len(),
            error_traces_count: self.error_traces.len(),
            storage_contracts_count: self.storage_contracts.len(),
        }
    }
}

} // verus!
