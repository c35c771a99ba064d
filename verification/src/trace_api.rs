//! Choices the trace RPC methods make: which transaction of a block a hash
//! names, which trace of a transaction an index list names, and which entries
//! of a block's traces set an authorization.

use vstd::prelude::*;
use crate::bytes::bytes32_eq;
use crate::debank::H256;
use crate::parity::{Action, ExecTrace, TransactionExecTraces};

verus! {

/// The position of the first transaction hash equal to `h`, if any.
pub fn find_transaction_index(hashes: &Vec<H256>, h: &H256) -> (r: Option<usize>)
    ensures
        match r {
            Some(i) => i < hashes@.len() && hashes@[i as int]@ == h@ && forall|k: int|
                0 <= k < i ==> (#[trigger] hashes@[k])@ != h@,
            None => forall|k: int| 0 <= k < hashes@.len() ==> (#[trigger] hashes@[k])@ != h@,
        },
{
    let mut i: usize = 0;
    while i < hashes.len()
        invariant
            i <= hashes@.len(),
            forall|k: int| 0 <= k < i ==> (#[trigger] hashes@[k])@ != h@,
        decreases hashes.len() - i,
    {
        if bytes32_eq(&hashes[i], h) {
            return Some(i);
        }
        i += 1;
    }
    None
}

/// The trace that the first of `indices` names: none when there is no index or
/// the index is past the last trace.
pub fn select_trace<T>(traces: Vec<T>, indices: &[usize]) -> (r: Option<T>)
    ensures
        indices@.len() == 0 ==> r is None,
        indices@.len() > 0 && indices@[0] < traces@.len() ==> r == Some(traces@[indices@[0] as int]),
        indices@.len() > 0 && indices@[0] >= traces@.len() ==> r is None,
{
    if indices.len() == 0 {
        return None;
    }
    let index = indices[0];
    if index < traces.len() {
        let mut traces = traces;
        Some(traces.swap_remove(index))
    } else {
        None
    }
}

/// The set-auth entries of one transaction's trace, each as the pair of the
/// transaction's index and the entry's index, in trace order.
pub open spec fn tx_set_auth_positions(tx: int, entries: Seq<ExecTrace>) -> Seq<(int, int)>
    decreases entries.len(),
{
    if entries.len() == 0 {
        Seq::empty()
    } else {
        let before = tx_set_auth_positions(tx, entries.drop_last());
        if entries.last().action is SetAuth {
            before.push((tx, entries.len() - 1))
        } else {
            before
        }
    }
}

/// The set-auth entries of a block's traces, transaction by transaction.
pub open spec fn block_set_auth_positions(txs: Seq<TransactionExecTraces>) -> Seq<(int, int)>
    decreases txs.len(),
{
    if txs.len() == 0 {
        Seq::empty()
    } else {
        block_set_auth_positions(txs.drop_last()) + tx_set_auth_positions(
            txs.len() - 1,
            txs.last().0@,
        )
    }
}

/// A list of index pairs read as integers.
pub open spec fn index_pairs(s: Seq<(usize, usize)>) -> Seq<(int, int)> {
    s.map_values(|p: (usize, usize)| (p.0 as int, p.1 as int))
}

/// Where the set-auth entries of a block's traces stand: for each, the index
/// of its transaction and its index in that transaction's trace, in block order.
pub fn set_auth_positions(block_traces: &Vec<TransactionExecTraces>) -> (r: Vec<(usize, usize)>)
    ensures
        index_pairs(r@) == block_set_auth_positions(block_traces@),
{
    let mut r: Vec<(usize, usize)> = Vec::new();
    let mut t: usize = 0;
    while t < block_traces.len()
        invariant
            t <= block_traces@.len(),
            index_pairs(r@) == block_set_auth_positions(block_traces@.take(t as int)),
        decreases block_traces.len() - t,
    {
        let entries = &block_traces[t].0;
        let ghost done = block_set_auth_positions(block_traces@.take(t as int));
        let mut k: usize = 0;
        while k < entries.len()
            invariant
                t < block_traces@.len(),
                *entries == block_traces@[t as int].0,
                k <= entries@.len(),
                index_pairs(r@) == done + tx_set_auth_positions(t as int, entries@.take(k as int)),
            decreases entries.len() - k,
        {
            proof {
                assert(entries@.take(k + 1).drop_last() =~= entries@.take(k as int));
                assert(entries@.take(k + 1).last() == entries@[k as int]);
            }
            match &entries[k].action {
                Action::SetAuth => {
                    let ghost before = r@;
                    r.push((t, k));
                    proof {
                        assert(index_pairs(r@) =~= index_pairs(before).push((t as int, k as int)));
                    }
                },
                _ => {},
            }
            k += 1;
        }
        proof {
            assert(entries@.take(entries@.len() as int) =~= entries@);
            assert(block_traces@.take(t + 1).drop_last() =~= block_traces@.take(t as int));
            assert(block_traces@.take(t + 1).last() == block_traces@[t as int]);
        }
        t += 1;
    }
    proof {
        assert(block_traces@.take(block_traces@.len() as int) =~= block_traces@);
    }
    r
}

} // verus!
