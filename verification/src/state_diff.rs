//! State diffs: what a block changed in the Ethereum space, and its hashed
//! storage-diff form.

use vstd::prelude::*;
use crate::bytes::{
    bytes20_eq, bytes32_eq, copy_bytes, law_trimmed_value_canonical, trim_leading_zeros, trim_zeros,
    u256_as_u64,
};
use crate::debank::{
    AccountStorageDiff, AccountStorageDiffView, BlockStorageDiff, BlockStorageDiffView,
    IndexValuePair, IndexValueView, NewAccount, NewAccountView, NewCode, NewCodeView, H160, H256,
    U256,
};
use crate::hashing::{be_value, keccak256, keccak_empty, keccak_spec};

verus! {

/// Raw account diff data.
pub struct DebankAccountDiff {
    pub address: H160,
    pub balance: U256,
    pub nonce: U256,
    pub code_hash: H256,
    pub code: Option<Vec<u8>>,
    pub storage_changes: Vec<(Vec<u8>, U256)>,
    pub is_new: bool,
}

/// Raw state diff collected after block execution.
pub struct DebankStateDiff {
    pub accounts: Vec<DebankAccountDiff>,
    pub deleted_accounts: Vec<H160>,
}

impl Default for DebankStateDiff {
    fn default() -> (r: Self)
        ensures
            r.accounts@.len() == 0,
            r.deleted_accounts@.len() == 0,
    {
        DebankStateDiff { accounts: Vec::new(), deleted_accounts: Vec::new() }
    }
}

// ------------------------------------------------------------
// Hashed storage diff
// ------------------------------------------------------------

/// The hashed slot changes of an account: each slot key is hashed, each value
/// written big-endian without leading zero bytes.
pub open spec fn storage_values_spec(changes: Seq<(Vec<u8>, U256)>) -> Seq<IndexValueView> {
    changes.map_values(
        |p: (Vec<u8>, U256)|
            IndexValueView { index: keccak_spec(p.0@), value: trim_leading_zeros(p.1@) },
    )
}

/// The new accounts of a diff, in order.
pub open spec fn new_accounts_spec(accs: Seq<DebankAccountDiff>) -> Seq<NewAccountView>
    decreases accs.len(),
{
    if accs.len() == 0 {
        seq![]
    } else {
        let prev = new_accounts_spec(accs.drop_last());
        let a = accs.last();
        if a.is_new {
            prev.push(
                NewAccountView {
                    address_hash: keccak_spec(a.address@),
                    balance: a.balance@,
                    nonce: be_value(a.nonce@) as u64,
                    code_hash: a.code_hash@,
                },
            )
        } else {
            prev
        }
    }
}

/// The storage diffs of a diff: one for each account with slot changes, in order.
pub open spec fn storage_diffs_spec(accs: Seq<DebankAccountDiff>) -> Seq<AccountStorageDiffView>
    decreases accs.len(),
{
    if accs.len() == 0 {
        seq![]
    } else {
        let prev = storage_diffs_spec(accs.drop_last());
        let a = accs.last();
        if a.storage_changes@.len() > 0 {
            prev.push(
                AccountStorageDiffView {
                    address_hash: keccak_spec(a.address@),
                    values: storage_values_spec(a.storage_changes@),
                },
            )
        } else {
            prev
        }
    }
}

/// Whether some account of `accs` carries code under the code hash `h`.
pub open spec fn code_hash_seen(accs: Seq<DebankAccountDiff>, h: Seq<u8>) -> bool {
    exists|i: int| 0 <= i < accs.len() && (#[trigger] accs[i]).code is Some && accs[i].code_hash@ == h
}

/// The new codes of a diff: the code of each account that carries code, unless
/// an earlier account carried code under the same code hash.
pub open spec fn new_codes_spec(accs: Seq<DebankAccountDiff>) -> Seq<NewCodeView>
    decreases accs.len(),
{
    if accs.len() == 0 {
        seq![]
    } else {
        let prev = new_codes_spec(accs.drop_last());
        let a = accs.last();
        match a.code {
            Some(c) => if code_hash_seen(accs.drop_last(), a.code_hash@) {
                prev
            } else {
                prev.push(NewCodeView { code_hash: a.code_hash@, code: c@ })
            },
            None => prev,
        }
    }
}

/// The hashed storage diff of a block.
pub open spec fn block_storage_diff_spec(
    block_hash: Seq<u8>,
    parent_hash: Seq<u8>,
    raw: DebankStateDiff,
) -> BlockStorageDiffView {
    BlockStorageDiffView {
        hash: block_hash,
        parent_hash,
        new_accounts: new_accounts_spec(raw.accounts@),
        deleted_accounts: raw.deleted_accounts@.map_values(|a: H160| keccak_spec(a@)),
        storage_diff: storage_diffs_spec(raw.accounts@),
        new_codes: new_codes_spec(raw.accounts@),
    }
}

proof fn lemma_new_codes_seen(accs: Seq<DebankAccountDiff>)
    ensures
        forall|k: int|
            0 <= k < new_codes_spec(accs).len() ==> code_hash_seen(
                accs,
                #[trigger] new_codes_spec(accs)[k].code_hash,
            ),
    decreases accs.len(),
{
    if accs.len() > 0 {
        let dl = accs.drop_last();
        lemma_new_codes_seen(dl);
        let nc = new_codes_spec(accs);
        assert forall|k: int| 0 <= k < nc.len() implies code_hash_seen(
            accs,
            #[trigger] nc[k].code_hash,
        ) by {
            if k < new_codes_spec(dl).len() {
                assert(nc[k] == new_codes_spec(dl)[k]);
                assert(code_hash_seen(dl, nc[k].code_hash));
                let i = choose|i: int| 0 <= i < dl.len() && (#[trigger] dl[i]).code is Some && dl[i].code_hash@ == nc[k].code_hash;
                assert(accs[i] == dl[i]);
            } else {
                assert(accs[accs.len() - 1] == accs.last());
            }
        }
    }
}

/// The new codes of a diff never repeat a code hash.
pub proof fn law_new_codes_distinct(accs: Seq<DebankAccountDiff>)
    ensures
        forall|i: int, j: int|
            0 <= i < j < new_codes_spec(accs).len() ==> (#[trigger] new_codes_spec(accs)[i]).code_hash
                != (#[trigger] new_codes_spec(accs)[j]).code_hash,
    decreases accs.len(),
{
    if accs.len() > 0 {
        let dl = accs.drop_last();
        law_new_codes_distinct(dl);
        lemma_new_codes_seen(dl);
        let nc = new_codes_spec(accs);
        let pc = new_codes_spec(dl);
        assert forall|i: int, j: int| 0 <= i < j < nc.len() implies (#[trigger] nc[i]).code_hash
            != (#[trigger] nc[j]).code_hash by {
            if j < pc.len() {
                assert(nc[i] == pc[i] && nc[j] == pc[j]);
            } else {
                assert(nc[i] == pc[i]);
                assert(code_hash_seen(dl, pc[i].code_hash));
            }
        }
    }
}

/// Every code that an account of the diff carries is among the new codes, under
/// its code hash.
pub proof fn law_new_codes_complete(accs: Seq<DebankAccountDiff>)
    ensures
        forall|i: int|
            0 <= i < accs.len() && (#[trigger] accs[i]).code is Some ==> exists|k: int|
                0 <= k < new_codes_spec(accs).len() && new_codes_spec(accs)[k].code_hash
                    == accs[i].code_hash@,
    decreases accs.len(),
{
    if accs.len() > 0 {
        let dl = accs.drop_last();
        law_new_codes_complete(dl);
        lemma_new_codes_seen(dl);
        let nc = new_codes_spec(accs);
        let pc = new_codes_spec(dl);
        assert forall|i: int| 0 <= i < accs.len() && (#[trigger] accs[i]).code is Some implies exists|k: int|
            0 <= k < nc.len() && nc[k].code_hash == accs[i].code_hash@ by {
            if i < dl.len() {
                assert(accs[i] == dl[i]);
                let k = choose|k: int| 0 <= k < pc.len() && pc[k].code_hash == dl[i].code_hash@;
                assert(nc[k] == pc[k]);
            } else {
                let h = accs.last().code_hash@;
                if code_hash_seen(dl, h) {
                    let i2 = choose|i2: int| 0 <= i2 < dl.len() && (#[trigger] dl[i2]).code is Some && dl[i2].code_hash@ == h;
                    let k = choose|k: int| 0 <= k < pc.len() && pc[k].code_hash == dl[i2].code_hash@;
                    assert(nc[k] == pc[k]);
                } else {
                    assert(nc[nc.len() - 1].code_hash == h);
                }
            }
        }
    }
}

/// Account `j` carries code, and no earlier account carries code under the same
/// code hash.
pub open spec fn first_code_at(accs: Seq<DebankAccountDiff>, j: int) -> bool {
    &&& 0 <= j < accs.len()
    &&& accs[j].code is Some
    &&& forall|i: int| 0 <= i < j ==> !((#[trigger] accs[i]).code is Some && accs[i].code_hash@ == accs[j].code_hash@)
}

/// The new code `c` is the code of an account that is the first to carry code
/// under that code hash.
pub open spec fn code_of_first_carrier(accs: Seq<DebankAccountDiff>, c: NewCodeView) -> bool {
    exists|j: int|
        #![trigger first_code_at(accs, j)]
        first_code_at(accs, j) && c.code_hash == accs[j].code_hash@ && c.code == accs[j].code->0@
}

/// Each new code is the code that the first account carrying code under its
/// code hash carries.
pub proof fn law_new_codes_first(accs: Seq<DebankAccountDiff>)
    ensures
        forall|k: int|
            0 <= k < new_codes_spec(accs).len() ==> #[trigger] code_of_first_carrier(
                accs,
                new_codes_spec(accs)[k],
            ),
    decreases accs.len(),
{
    if accs.len() > 0 {
        let dl = accs.drop_last();
        law_new_codes_first(dl);
        let n = accs.len() - 1;
        let nc = new_codes_spec(accs);
        let pc = new_codes_spec(dl);
        assert forall|j: int| first_code_at(dl, j) implies first_code_at(accs, j) by {
            assert forall|i: int| 0 <= i < j implies !((#[trigger] accs[i]).code is Some && accs[i].code_hash@
                == accs[j].code_hash@) by {
                assert(accs[i] == dl[i]);
                assert(accs[j] == dl[j]);
            }
            assert(accs[j] == dl[j]);
        }
        assert forall|k: int| 0 <= k < nc.len() implies #[trigger] code_of_first_carrier(accs, nc[k]) by {
            if k < pc.len() {
                assert(nc[k] == pc[k]);
                assert(code_of_first_carrier(dl, pc[k]));
                let j = choose|j: int|
                    #![trigger first_code_at(dl, j)]
                    first_code_at(dl, j) && pc[k].code_hash == dl[j].code_hash@ && pc[k].code == dl[j].code->0@;
                assert(first_code_at(accs, j));
                assert(accs[j] == dl[j]);
            } else {
                let a = accs.last();
                assert(accs[n] == a);
                assert(a.code is Some);
                assert(!code_hash_seen(dl, a.code_hash@));
                assert forall|i: int| 0 <= i < n implies !((#[trigger] accs[i]).code is Some && accs[i].code_hash@
                    == accs[n].code_hash@) by {
                    assert(accs[i] == dl[i]);
                }
                assert(first_code_at(accs, n));
            }
        }
    }
}

/// How many accounts of `accs` are new.
pub open spec fn new_count(accs: Seq<DebankAccountDiff>) -> nat
    decreases accs.len(),
{
    if accs.len() == 0 {
        0
    } else {
        new_count(accs.drop_last()) + if accs.last().is_new {
            1nat
        } else {
            0nat
        }
    }
}

/// How many accounts of `accs` have slot changes.
pub open spec fn changed_count(accs: Seq<DebankAccountDiff>) -> nat
    decreases accs.len(),
{
    if accs.len() == 0 {
        0
    } else {
        changed_count(accs.drop_last()) + if accs.last().storage_changes@.len() > 0 {
            1nat
        } else {
            0nat
        }
    }
}

/// The storage diff holds one new-account record per new account, in order:
/// the record of account `j` (the `n`-th new one) is the `n`-th record, with the
/// Keccak hash of its address, its balance, its nonce and its code hash.
pub proof fn law_new_accounts(accs: Seq<DebankAccountDiff>)
    ensures
        new_accounts_spec(accs).len() == new_count(accs),
        forall|j: int|
            0 <= j < accs.len() && (#[trigger] accs[j]).is_new ==> {
                let r = new_accounts_spec(accs)[new_count(accs.take(j)) as int];
                &&& new_count(accs.take(j)) < new_accounts_spec(accs).len()
                &&& r.address_hash == keccak_spec(accs[j].address@)
                &&& r.balance == accs[j].balance@
                &&& r.nonce == be_value(accs[j].nonce@) as u64
                &&& r.code_hash == accs[j].code_hash@
            },
    decreases accs.len(),
{
    if accs.len() > 0 {
        let dl = accs.drop_last();
        law_new_accounts(dl);
        let n = accs.len() - 1;
        assert(accs.take(n) =~= dl);
        assert forall|j: int| 0 <= j < accs.len() && (#[trigger] accs[j]).is_new implies {
            let r = new_accounts_spec(accs)[new_count(accs.take(j)) as int];
            &&& new_count(accs.take(j)) < new_accounts_spec(accs).len()
            &&& r.address_hash == keccak_spec(accs[j].address@)
            &&& r.balance == accs[j].balance@
            &&& r.nonce == be_value(accs[j].nonce@) as u64
            &&& r.code_hash == accs[j].code_hash@
        } by {
            if j < n {
                assert(accs.take(j) =~= dl.take(j));
                assert(accs[j] == dl[j]);
            } else {
                assert(accs[j] == accs.last());
            }
        }
    }
}

/// The storage diff holds one slot diff per account with slot changes, in
/// order: that of account `j` (the `n`-th such) is the `n`-th, with the Keccak
/// hash of its address and one entry per slot change, in order, holding the
/// Keccak hash of the slot key and the value's big-endian bytes without leading
/// zero bytes (empty for zero).
pub proof fn law_storage_diffs(accs: Seq<DebankAccountDiff>)
    ensures
        storage_diffs_spec(accs).len() == changed_count(accs),
        forall|j: int|
            0 <= j < accs.len() && (#[trigger] accs[j]).storage_changes@.len() > 0 ==> {
                let d = storage_diffs_spec(accs)[changed_count(accs.take(j)) as int];
                &&& changed_count(accs.take(j)) < storage_diffs_spec(accs).len()
                &&& d.address_hash == keccak_spec(accs[j].address@)
                &&& d.values.len() == accs[j].storage_changes@.len()
                &&& forall|m: int|
                    0 <= m < d.values.len() ==> {
                        &&& (#[trigger] d.values[m]).index == keccak_spec(accs[j].storage_changes@[m].0@)
                        &&& be_value(d.values[m].value) == be_value(accs[j].storage_changes@[m].1@)
                        &&& (d.values[m].value.len() > 0 ==> d.values[m].value[0] != 0)
                    }
            },
    decreases accs.len(),
{
    if accs.len() > 0 {
        let dl = accs.drop_last();
        law_storage_diffs(dl);
        let n = accs.len() - 1;
        assert(accs.take(n) =~= dl);
        assert forall|j: int| 0 <= j < accs.len() && (#[trigger] accs[j]).storage_changes@.len() > 0 implies {
            let d = storage_diffs_spec(accs)[changed_count(accs.take(j)) as int];
            &&& changed_count(accs.take(j)) < storage_diffs_spec(accs).len()
            &&& d.address_hash == keccak_spec(accs[j].address@)
            &&& d.values.len() == accs[j].storage_changes@.len()
            &&& forall|m: int|
                0 <= m < d.values.len() ==> {
                    &&& (#[trigger] d.values[m]).index == keccak_spec(accs[j].storage_changes@[m].0@)
                    &&& be_value(d.values[m].value) == be_value(accs[j].storage_changes@[m].1@)
                    &&& (d.values[m].value.len() > 0 ==> d.values[m].value[0] != 0)
                }
        } by {
            if j < n {
                assert(accs.take(j) =~= dl.take(j));
                assert(accs[j] == dl[j]);
            } else {
                let a = accs.last();
                assert(accs[j] == a);
                let d = storage_diffs_spec(accs)[changed_count(accs.take(j)) as int];
                assert forall|m: int| 0 <= m < d.values.len() implies {
                    &&& (#[trigger] d.values[m]).index == keccak_spec(accs[j].storage_changes@[m].0@)
                    &&& be_value(d.values[m].value) == be_value(accs[j].storage_changes@[m].1@)
                    &&& (d.values[m].value.len() > 0 ==> d.values[m].value[0] != 0)
                } by {
                    law_trimmed_value_canonical(a.storage_changes@[m].1@);
                }
            }
        }
    }
}

/// How many entries of a write cache are writes.
pub open spec fn writes_count(wc: Seq<(Vec<u8>, WriteCacheItem)>) -> nat
    decreases wc.len(),
{
    if wc.len() == 0 {
        0
    } else {
        writes_count(wc.drop_last()) + if wc.last().1 is Write {
            1nat
        } else {
            0nat
        }
    }
}

/// An account's slot changes hold one entry per write of its write cache, in
/// order: the write at entry `j` (the `n`-th write) gives the `n`-th slot change,
/// with that entry's key and written value; unwritten entries give nothing.
pub proof fn law_written_slots(wc: Seq<(Vec<u8>, WriteCacheItem)>)
    ensures
        written_slots(wc).len() == writes_count(wc),
        forall|j: int|
            0 <= j < wc.len() ==> match (#[trigger] wc[j]).1 {
                WriteCacheItem::Write(v) => writes_count(wc.take(j)) < written_slots(wc).len()
                    && written_slots(wc)[writes_count(wc.take(j)) as int] == (wc[j].0@, v@),
                WriteCacheItem::Unwritten => true,
            },
    decreases wc.len(),
{
    if wc.len() > 0 {
        let dl = wc.drop_last();
        law_written_slots(dl);
        let n = wc.len() - 1;
        assert(wc.take(n) =~= dl);
        assert forall|j: int| 0 <= j < wc.len() implies match (#[trigger] wc[j]).1 {
            WriteCacheItem::Write(v) => writes_count(wc.take(j)) < written_slots(wc).len()
                && written_slots(wc)[writes_count(wc.take(j)) as int] == (wc[j].0@, v@),
            WriteCacheItem::Unwritten => true,
        } by {
            if j < n {
                assert(wc.take(j) =~= dl.take(j));
                assert(wc[j] == dl[j]);
            } else {
                assert(wc[j] == wc.last());
            }
        }
    }
}

/// The nonce of every new account of the diff fits in 64 bits (only new
/// accounts have their nonce written out).
pub open spec fn new_nonces_fit(accs: Seq<DebankAccountDiff>) -> bool {
    forall|i: int| 0 <= i < accs.len() && (#[trigger] accs[i]).is_new ==> be_value(accs[i].nonce@) <= u64::MAX
}

fn hashed_storage_values(changes: &Vec<(Vec<u8>, U256)>) -> (r: Vec<IndexValuePair>)
    ensures
        r@.map_values(|p: IndexValuePair| p@) == storage_values_spec(changes@),
{
    let mut r: Vec<IndexValuePair> = Vec::new();
    let mut i: usize = 0;
    while i < changes.len()
        invariant
            i <= changes@.len(),
            r@.map_values(|p: IndexValuePair| p@) == storage_values_spec(changes@.take(i as int)),
        decreases changes.len() - i,
    {
        let (key, value) = &changes[i];
        let index = keccak256(key.as_slice());
        let trimmed = trim_zeros(value.as_slice());
        let ghost prev = r@;
        r.push(IndexValuePair { index, value: trimmed });
        proof {
            assert(r@.map_values(|p: IndexValuePair| p@) =~= prev.map_values(
                |p: IndexValuePair| p@,
            ).push(r@.last()@));
            assert(storage_values_spec(changes@.take(i + 1)) =~= storage_values_spec(
                changes@.take(i as int),
            ).push(storage_values_spec(changes@)[i as int]));
        }
        i += 1;
    }
    proof {
        assert(changes@.take(changes@.len() as int) =~= changes@);
    }
    r
}

/// Whether one of the hashes is `h`.
pub open spec fn seen_has(seen: Seq<H256>, h: Seq<u8>) -> bool {
    exists|j: int| 0 <= j < seen.len() && (#[trigger] seen[j])@ == h
}

/// Whether `seen` holds `h`.
fn contains_hash(seen: &Vec<H256>, h: &H256) -> (r: bool)
    ensures
        r == exists|j: int| 0 <= j < seen@.len() && (#[trigger] seen@[j])@ == h@,
{
    let mut j: usize = 0;
    while j < seen.len()
        invariant
            j <= seen@.len(),
            forall|k: int| 0 <= k < j ==> (#[trigger] seen@[k])@ != h@,
        decreases seen.len() - j,
    {
        if bytes32_eq(&seen[j], h) {
            return true;
        }
        j += 1;
    }
    false
}

/// Converts raw state diff data to the hashed storage diff of a block: new
/// accounts, deleted accounts, slot changes and new code, with addresses and slot
/// keys hashed with Keccak-256.
pub fn build_block_storage_diff(
    block_hash: &H256,
    parent_hash: &H256,
    raw_diff: DebankStateDiff,
) -> (res: BlockStorageDiff)
    requires
        new_nonces_fit(raw_diff.accounts@),
    ensures
        res@ == block_storage_diff_spec(block_hash@, parent_hash@, raw_diff),
{
    let ghost accs = raw_diff.accounts@;
    let mut new_accounts: Vec<NewAccount> = Vec::new();
    let mut storage_diffs: Vec<AccountStorageDiff> = Vec::new();
    let mut new_codes: Vec<NewCode> = Vec::new();
    let mut seen_code_hashes: Vec<H256> = Vec::new();
    let mut i: usize = 0;
    while i < raw_diff.accounts.len()
        invariant
            i <= accs.len(),
            accs == raw_diff.accounts@,
            new_nonces_fit(accs),
            new_accounts@.map_values(|a: NewAccount| a@) == new_accounts_spec(accs.take(i as int)),
            storage_diffs@.map_values(|d: AccountStorageDiff| d@) == storage_diffs_spec(
                accs.take(i as int),
            ),
            new_codes@.map_values(|c: NewCode| c@) == new_codes_spec(accs.take(i as int)),
            forall|h: Seq<u8>|
                #![trigger seen_has(seen_code_hashes@, h)]
                #![trigger code_hash_seen(accs.take(i as int), h)]
                seen_has(seen_code_hashes@, h) <==> code_hash_seen(accs.take(i as int), h),
            forall|j: int, k: int|
                0 <= j < k < seen_code_hashes@.len() ==> (#[trigger] seen_code_hashes@[j])@
                    != (#[trigger] seen_code_hashes@[k])@,
        decreases raw_diff.accounts.len() - i,
    {
        let acc = &raw_diff.accounts[i];
        let ghost taken = accs.take(i as int);
        proof {
            assert(accs.take(i + 1).drop_last() =~= taken);
            assert(accs.take(i + 1).last() == accs[i as int]);
        }
        let addr_hash = keccak256(acc.address.as_slice());

        if acc.is_new {
            let ghost prev = new_accounts@;
            let nonce = u256_as_u64(&acc.nonce);
            new_accounts.push(
                NewAccount {
                    address_hash: addr_hash,
                    balance: acc.balance,
                    nonce,
                    code_hash: acc.code_hash,
                },
            );
            proof {
                assert(new_accounts@.map_values(|a: NewAccount| a@) =~= prev.map_values(
                    |a: NewAccount| a@,
                ).push(new_accounts@.last()@));
            }
        }
        if acc.storage_changes.len() > 0 {
            let values = hashed_storage_values(&acc.storage_changes);
            let ghost prev = storage_diffs@;
            storage_diffs.push(AccountStorageDiff { address_hash: addr_hash, values });
            proof {
                assert(storage_diffs@.map_values(|d: AccountStorageDiff| d@) =~= prev.map_values(
                    |d: AccountStorageDiff| d@,
                ).push(storage_diffs@.last()@));
            }
        }
        let ghost seen_before = seen_code_hashes@;
        match &acc.code {
            Some(code) => {
                let already = contains_hash(&seen_code_hashes, &acc.code_hash);
                if !already {
                    seen_code_hashes.push(acc.code_hash);
                    let ghost prev = new_codes@;
                    new_codes.push(NewCode { code_hash: acc.code_hash, code: copy_bytes(code.as_slice()) });
                    proof {
                        assert(new_codes@.map_values(|c: NewCode| c@) =~= prev.map_values(
                            |c: NewCode| c@,
                        ).push(new_codes@.last()@));
                    }
                }
                proof {
                    assert forall|h: Seq<u8>|
                        #![trigger seen_has(seen_code_hashes@, h)]
                        #![trigger code_hash_seen(accs.take(i + 1), h)]
                        seen_has(seen_code_hashes@, h) <==> code_hash_seen(accs.take(i + 1), h) by {
                        if code_hash_seen(accs.take(i + 1), h) {
                            let k = choose|k: int| 0 <= k < accs.take(i + 1).len() && (#[trigger] accs.take(i + 1)[k]).code is Some && accs.take(i + 1)[k].code_hash@ == h;
                            if k < i {
                                assert(taken[k] == accs.take(i + 1)[k]);
                                assert(code_hash_seen(taken, h));
                                let j = choose|j: int| 0 <= j < seen_before.len() && (#[trigger] seen_before[j])@ == h;
                                assert(seen_code_hashes@[j] == seen_before[j]);
                            } else if !already {
                                assert(seen_code_hashes@[seen_before.len() as int]@ == h);
                            } else {
                                let j = choose|j: int| 0 <= j < seen_before.len() && (#[trigger] seen_before[j])@ == acc.code_hash@;
                            }
                        }
                        if seen_has(seen_code_hashes@, h) {
                            let j = choose|j: int| 0 <= j < seen_code_hashes@.len() && (#[trigger] seen_code_hashes@[j])@ == h;
                            if j < seen_before.len() {
                                assert(seen_before[j] == seen_code_hashes@[j]);
                                assert(code_hash_seen(taken, h));
                                let k = choose|k: int| 0 <= k < taken.len() && (#[trigger] taken[k]).code is Some && taken[k].code_hash@ == h;
                                assert(accs.take(i + 1)[k] == taken[k]);
                            } else {
                                assert(accs.take(i + 1)[i as int] == accs[i as int]);
                            }
                        }
                    }
                    if already {
                        let j = choose|j: int| 0 <= j < seen_before.len() && (#[trigger] seen_before[j])@ == acc.code_hash@;
                        assert(code_hash_seen(taken, acc.code_hash@));
                    }
                }
            },
            None => {
                proof {
                    assert forall|h: Seq<u8>| #[trigger] code_hash_seen(accs.take(i + 1), h) implies code_hash_seen(taken, h) by {
                        let k = choose|k: int| 0 <= k < accs.take(i + 1).len() && (#[trigger] accs.take(i + 1)[k]).code is Some && accs.take(i + 1)[k].code_hash@ == h;
                        assert(taken[k] == accs.take(i + 1)[k]);
                    }
                    assert forall|h: Seq<u8>| #[trigger] code_hash_seen(taken, h) implies code_hash_seen(accs.take(i + 1), h) by {
                        let k = choose|k: int| 0 <= k < taken.len() && (#[trigger] taken[k]).code is Some && taken[k].code_hash@ == h;
                        assert(taken[k] == accs.take(i + 1)[k]);
                    }
                }
            },
        }
        i += 1;
    }
    proof {
        assert(accs.take(accs.len() as int) =~= accs);
    }
    let mut deleted: Vec<H256> = Vec::new();
    let mut k: usize = 0;
    while k < raw_diff.deleted_accounts.len()
        invariant
            k <= raw_diff.deleted_accounts@.len(),
            deleted@.map_values(|h: H256| h@) == raw_diff.deleted_accounts@.take(k as int).map_values(
                |a: H160| keccak_spec(a@),
            ),
        decreases raw_diff.deleted_accounts.len() - k,
    {
        let ghost prev = deleted@;
        deleted.push(keccak256(raw_diff.deleted_accounts[k].as_slice()));
        proof {
            assert(deleted@.map_values(|h: H256| h@) =~= prev.map_values(|h: H256| h@).push(
                deleted@.last()@,
            ));
            assert(raw_diff.deleted_accounts@.take(k + 1).map_values(|a: H160| keccak_spec(a@))
                =~= raw_diff.deleted_accounts@.take(k as int).map_values(|a: H160| keccak_spec(a@)).push(
                keccak_spec(raw_diff.deleted_accounts@[k as int]@),
            ));
        }
        k += 1;
    }
    proof {
        assert(raw_diff.deleted_accounts@.take(raw_diff.deleted_accounts@.len() as int)
            =~= raw_diff.deleted_accounts@);
    }
    BlockStorageDiff {
        hash: *block_hash,
        parent_hash: *parent_hash,
        new_accounts,
        deleted_accounts: deleted,
        storage_diff: storage_diffs,
        new_codes,
    }
}


// ------------------------------------------------------------
// Extraction from the state cache
// ------------------------------------------------------------

/// The space an account lives in.
pub enum Space {
    Native,
    Ethereum,
}

/// An address together with its space.
pub struct AddressWithSpace {
    pub address: H160,
    pub space: Space,
}

/// An entry of an account's storage write cache.
pub enum WriteCacheItem {
    /// The slot was written with this value.
    Write(U256),
    /// The slot was not written.
    Unwritten,
}

/// An account as the state cache holds it after execution.
pub struct OverlayAccount {
    pub balance: U256,
    pub nonce: U256,
    pub code_hash: H256,
    pub code: Option<Vec<u8>>,
    pub removed_without_update: bool,
    pub storage_write_cache: Vec<(Vec<u8>, WriteCacheItem)>,
}

/// A cache entry: absent from the database, or cached with a dirty flag.
pub enum AccountEntry {
    DbAbsent,
    Cached(OverlayAccount, bool),
}

/// The state after a block's re-execution: the cache of touched accounts, and
/// the code hashes of the accounts that the database held before execution.
pub struct State {
    pub cache: Vec<(AddressWithSpace, AccountEntry)>,
    pub db: Vec<(AddressWithSpace, H256)>,
}

/// The content of a [`DebankAccountDiff`].
#[verifier::ext_equal]
pub struct AccountDiffView {
    pub address: Seq<u8>,
    pub balance: Seq<u8>,
    pub nonce: Seq<u8>,
    pub code_hash: Seq<u8>,
    pub code: Option<Seq<u8>>,
    pub storage_changes: Seq<(Seq<u8>, Seq<u8>)>,
    pub is_new: bool,
}

/// The content of optional bytes.
pub open spec fn opt_bytes_view(o: Option<Vec<u8>>) -> Option<Seq<u8>> {
    match o {
        Some(v) => Some(v@),
        None => None,
    }
}

impl View for DebankAccountDiff {
    type V = AccountDiffView;

    open spec fn view(&self) -> AccountDiffView {
        AccountDiffView {
            address: self.address@,
            balance: self.balance@,
            nonce: self.nonce@,
            code_hash: self.code_hash@,
            code: opt_bytes_view(self.code),
            storage_changes: self.storage_changes@.map_values(|p: (Vec<u8>, U256)| (p.0@, p.1@)),
            is_new: self.is_new,
        }
    }
}

/// Whether two addresses with space are the same.
pub open spec fn same_address(a: AddressWithSpace, b: AddressWithSpace) -> bool {
    a.address@ == b.address@ && (a.space is Ethereum <==> b.space is Ethereum)
}

/// The code hash the database held for an address before execution, if it held
/// the account (the first matching record).
pub open spec fn db_code_hash(db: Seq<(AddressWithSpace, H256)>, addr: AddressWithSpace) -> Option<
    Seq<u8>,
>
    decreases db.len(),
{
    if db.len() == 0 {
        None
    } else if same_address(db[0].0, addr) {
        Some(db[0].1@)
    } else {
        db_code_hash(db.drop_first(), addr)
    }
}

/// The written slots of a write cache, in order, with their values.
pub open spec fn written_slots(wc: Seq<(Vec<u8>, WriteCacheItem)>) -> Seq<(Seq<u8>, Seq<u8>)>
    decreases wc.len(),
{
    if wc.len() == 0 {
        seq![]
    } else {
        let prev = written_slots(wc.drop_last());
        match wc.last().1 {
            WriteCacheItem::Write(v) => prev.push((wc.last().0@, v@)),
            WriteCacheItem::Unwritten => prev,
        }
    }
}

/// The code reported for a changed account: for a new account, its code unless
/// its code hash is that of empty code; for an existing one, its code only when
/// the code hash changed and is not that of empty code.
pub open spec fn reported_code(acc: OverlayAccount, stored: Option<Seq<u8>>) -> Option<Seq<u8>> {
    let empty = keccak_spec(Seq::<u8>::empty());
    match stored {
        None => if acc.code_hash@ != empty {
            opt_bytes_view(acc.code)
        } else {
            None
        },
        Some(orig) => if acc.code_hash@ != orig && acc.code_hash@ != empty {
            opt_bytes_view(acc.code)
        } else {
            None
        },
    }
}

/// What one cache entry contributes to the state diff.
pub enum EntryOutcome {
    Skipped,
    Deleted(Seq<u8>),
    Changed(AccountDiffView),
}

/// What a cache entry contributes: nothing unless it is a dirty Ethereum-space
/// account; its address when it was removed; else its account diff.
pub open spec fn entry_outcome(
    db: Seq<(AddressWithSpace, H256)>,
    key: AddressWithSpace,
    entry: AccountEntry,
) -> EntryOutcome {
    if !(key.space is Ethereum) {
        EntryOutcome::Skipped
    } else {
        match entry {
            AccountEntry::Cached(acc, dirty) => if !dirty {
                EntryOutcome::Skipped
            } else if acc.removed_without_update {
                EntryOutcome::Deleted(key.address@)
            } else {
                let stored = db_code_hash(db, key);
                EntryOutcome::Changed(
                    AccountDiffView {
                        address: key.address@,
                        balance: acc.balance@,
                        nonce: acc.nonce@,
                        code_hash: acc.code_hash@,
                        code: reported_code(acc, stored),
                        storage_changes: written_slots(acc.storage_write_cache@),
                        is_new: stored is None,
                    },
                )
            },
            AccountEntry::DbAbsent => EntryOutcome::Skipped,
        }
    }
}

/// The account diffs of the cache entries, in order.
pub open spec fn changed_accounts_spec(
    db: Seq<(AddressWithSpace, H256)>,
    cache: Seq<(AddressWithSpace, AccountEntry)>,
) -> Seq<AccountDiffView>
    decreases cache.len(),
{
    if cache.len() == 0 {
        seq![]
    } else {
        let prev = changed_accounts_spec(db, cache.drop_last());
        match entry_outcome(db, cache.last().0, cache.last().1) {
            EntryOutcome::Changed(v) => prev.push(v),
            _ => prev,
        }
    }
}

/// The removed addresses of the cache entries, in order.
pub open spec fn deleted_accounts_spec(
    db: Seq<(AddressWithSpace, H256)>,
    cache: Seq<(AddressWithSpace, AccountEntry)>,
) -> Seq<Seq<u8>>
    decreases cache.len(),
{
    if cache.len() == 0 {
        seq![]
    } else {
        let prev = deleted_accounts_spec(db, cache.drop_last());
        match entry_outcome(db, cache.last().0, cache.last().1) {
            EntryOutcome::Deleted(a) => prev.push(a),
            _ => prev,
        }
    }
}

/// Each cache entry gives at most one account diff or one deleted address.
pub proof fn law_extract_size(
    db: Seq<(AddressWithSpace, H256)>,
    cache: Seq<(AddressWithSpace, AccountEntry)>,
)
    ensures
        changed_accounts_spec(db, cache).len() + deleted_accounts_spec(db, cache).len()
            <= cache.len(),
    decreases cache.len(),
{
    if cache.len() > 0 {
        law_extract_size(db, cache.drop_last());
    }
}

/// Code is reported only under a code hash other than that of empty code.
pub proof fn law_reported_code_not_empty(
    db: Seq<(AddressWithSpace, H256)>,
    cache: Seq<(AddressWithSpace, AccountEntry)>,
)
    ensures
        forall|k: int|
            0 <= k < changed_accounts_spec(db, cache).len() && (
            #[trigger] changed_accounts_spec(db, cache)[k]).code is Some
                ==> changed_accounts_spec(db, cache)[k].code_hash != keccak_spec(
                Seq::<u8>::empty(),
            ),
    decreases cache.len(),
{
    if cache.len() > 0 {
        law_reported_code_not_empty(db, cache.drop_last());
        let prev = changed_accounts_spec(db, cache.drop_last());
        let cur = changed_accounts_spec(db, cache);
        assert forall|k: int|
            0 <= k < cur.len() && (#[trigger] cur[k]).code is Some implies cur[k].code_hash
                != keccak_spec(Seq::<u8>::empty()) by {
            if k < prev.len() {
                assert(cur[k] == prev[k]);
            }
        }
    }
}

/// The database held no account for the address before execution.
pub open spec fn absent_from_db(db: Seq<(AddressWithSpace, H256)>, key: AddressWithSpace) -> bool {
    forall|r: int| 0 <= r < db.len() ==> !same_address(#[trigger] db[r].0, key)
}

proof fn lemma_db_code_hash_absent(db: Seq<(AddressWithSpace, H256)>, key: AddressWithSpace)
    ensures
        db_code_hash(db, key) is None <==> absent_from_db(db, key),
    decreases db.len(),
{
    if db.len() > 0 {
        lemma_db_code_hash_absent(db.drop_first(), key);
        if absent_from_db(db, key) {
            assert forall|r: int| 0 <= r < db.drop_first().len() implies !same_address(#[trigger] db.drop_first()[r].0, key) by {
                assert(db.drop_first()[r] == db[r + 1]);
            }
        }
        if !same_address(db[0].0, key) && absent_from_db(db.drop_first(), key) {
            assert forall|r: int| 0 <= r < db.len() implies !same_address(#[trigger] db[r].0, key) by {
                if r > 0 {
                    assert(db[r] == db.drop_first()[r - 1]);
                }
            }
        }
    }
}

/// The account diff `d` was made from the cache entry `(key, entry)`: a dirty,
/// not removed, Ethereum-space account, whose address, balance, nonce, code hash
/// and written slots it carries; it is new exactly when the database held no
/// account for the address; and any code it reports is the account's code, under
/// a code hash other than that of empty code.
pub open spec fn diff_from_entry(
    db: Seq<(AddressWithSpace, H256)>,
    d: AccountDiffView,
    key: AddressWithSpace,
    entry: AccountEntry,
) -> bool {
    &&& key.space is Ethereum
    &&& entry matches AccountEntry::Cached(acc, dirty) && {
        &&& dirty
        &&& !acc.removed_without_update
        &&& d.address == key.address@
        &&& d.balance == acc.balance@
        &&& d.nonce == acc.nonce@
        &&& d.code_hash == acc.code_hash@
        &&& d.storage_changes == written_slots(acc.storage_write_cache@)
        &&& (d.is_new <==> absent_from_db(db, key))
        &&& (d.code is Some ==> d.code == opt_bytes_view(acc.code) && acc.code_hash@ != keccak_spec(
            Seq::<u8>::empty(),
        ))
    }
}

/// The address `a` was deleted by the cache entry `(key, entry)`: a dirty,
/// removed, Ethereum-space account at that address.
pub open spec fn deleted_by_entry(a: Seq<u8>, key: AddressWithSpace, entry: AccountEntry) -> bool {
    &&& key.space is Ethereum
    &&& entry matches AccountEntry::Cached(acc, dirty) && dirty && acc.removed_without_update
    &&& a == key.address@
}

/// The account diff was made from one of the cache entries.
pub open spec fn diff_has_source(
    db: Seq<(AddressWithSpace, H256)>,
    cache: Seq<(AddressWithSpace, AccountEntry)>,
    d: AccountDiffView,
) -> bool {
    exists|k: int| 0 <= k < cache.len() && diff_from_entry(db, d, (#[trigger] cache[k]).0, cache[k].1)
}

/// The address was deleted by one of the cache entries.
pub open spec fn deletion_has_source(cache: Seq<(AddressWithSpace, AccountEntry)>, a: Seq<u8>) -> bool {
    exists|k: int| 0 <= k < cache.len() && deleted_by_entry(a, (#[trigger] cache[k]).0, cache[k].1)
}

/// Every account diff of the extraction is made from a cache entry as
/// `diff_from_entry` says, and every deleted address comes from a removed dirty
/// Ethereum-space entry.
pub proof fn law_extract_sources(
    db: Seq<(AddressWithSpace, H256)>,
    cache: Seq<(AddressWithSpace, AccountEntry)>,
)
    ensures
        forall|x: int|
            0 <= x < changed_accounts_spec(db, cache).len() ==> #[trigger] diff_has_source(
                db,
                cache,
                changed_accounts_spec(db, cache)[x],
            ),
        forall|x: int|
            0 <= x < deleted_accounts_spec(db, cache).len() ==> #[trigger] deletion_has_source(
                cache,
                deleted_accounts_spec(db, cache)[x],
            ),
    decreases cache.len(),
{
    if cache.len() > 0 {
        let dl = cache.drop_last();
        law_extract_sources(db, dl);
        let n = cache.len() - 1;
        let e = cache.last();
        assert(cache[n] == e);
        let pc = changed_accounts_spec(db, dl);
        let pd = deleted_accounts_spec(db, dl);
        let c = changed_accounts_spec(db, cache);
        let d = deleted_accounts_spec(db, cache);
        lemma_db_code_hash_absent(db, e.0);
        assert forall|x: int| 0 <= x < c.len() implies #[trigger] diff_has_source(db, cache, c[x]) by {
            if x < pc.len() {
                match entry_outcome(db, e.0, e.1) {
                    EntryOutcome::Changed(v) => { assert(c[x] == pc[x]); },
                    _ => { assert(c == pc); },
                }
                assert(diff_has_source(db, dl, pc[x]));
                let k = choose|k: int| 0 <= k < dl.len() && diff_from_entry(db, pc[x], (#[trigger] dl[k]).0, dl[k].1);
                assert(cache[k] == dl[k]);
            } else {
                assert(diff_from_entry(db, c[x], cache[n].0, cache[n].1));
            }
        }
        assert forall|x: int| 0 <= x < d.len() implies #[trigger] deletion_has_source(cache, d[x]) by {
            if x < pd.len() {
                match entry_outcome(db, e.0, e.1) {
                    EntryOutcome::Deleted(a) => { assert(d[x] == pd[x]); },
                    _ => { assert(d == pd); },
                }
                assert(deletion_has_source(dl, pd[x]));
                let k = choose|k: int| 0 <= k < dl.len() && deleted_by_entry(pd[x], (#[trigger] dl[k]).0, dl[k].1);
                assert(cache[k] == dl[k]);
            } else {
                assert(deleted_by_entry(d[x], cache[n].0, cache[n].1));
            }
        }
    }
}

/// No two cache entries are for the same address (the cache is a map).
pub open spec fn cache_keys_distinct(cache: Seq<(AddressWithSpace, AccountEntry)>) -> bool {
    forall|i: int, j: int|
        0 <= i < j < cache.len() ==> !same_address(#[trigger] cache[i].0, #[trigger] cache[j].0)
}

/// The address is that of an Ethereum-space entry of the cache.
pub open spec fn from_ethereum_entry(cache: Seq<(AddressWithSpace, AccountEntry)>, a: Seq<u8>) -> bool {
    exists|k: int| 0 <= k < cache.len() && (#[trigger] cache[k]).0.space is Ethereum && cache[k].0.address@ == a
}

/// The addresses of account diffs.
pub open spec fn diff_addresses(v: Seq<AccountDiffView>) -> Seq<Seq<u8>> {
    v.map_values(|a: AccountDiffView| a.address)
}

/// Every address the extraction gives is that of an Ethereum-space entry, and
/// with distinct cache keys no address is given twice, in either list or across
/// them.
proof fn lemma_extract_addresses(
    db: Seq<(AddressWithSpace, H256)>,
    cache: Seq<(AddressWithSpace, AccountEntry)>,
)
    requires
        cache_keys_distinct(cache),
    ensures
        forall|k: int|
            0 <= k < changed_accounts_spec(db, cache).len() ==> from_ethereum_entry(
                cache,
                (#[trigger] changed_accounts_spec(db, cache)[k]).address,
            ),
        forall|k: int|
            0 <= k < deleted_accounts_spec(db, cache).len() ==> from_ethereum_entry(
                cache,
                #[trigger] deleted_accounts_spec(db, cache)[k],
            ),
        diff_addresses(changed_accounts_spec(db, cache)).no_duplicates(),
        deleted_accounts_spec(db, cache).no_duplicates(),
        forall|i: int, j: int|
            0 <= i < changed_accounts_spec(db, cache).len() && 0 <= j < deleted_accounts_spec(
                db,
                cache,
            ).len() ==> (#[trigger] changed_accounts_spec(db, cache)[i]).address
                != #[trigger] deleted_accounts_spec(db, cache)[j],
    decreases cache.len(),
{
    if cache.len() > 0 {
        let dl = cache.drop_last();
        assert(cache_keys_distinct(dl)) by {
            assert forall|i: int, j: int| 0 <= i < j < dl.len() implies !same_address(
                #[trigger] dl[i].0,
                #[trigger] dl[j].0,
            ) by {
                assert(dl[i] == cache[i] && dl[j] == cache[j]);
            }
        }
        lemma_extract_addresses(db, dl);
        let pc = changed_accounts_spec(db, dl);
        let pd = deleted_accounts_spec(db, dl);
        let c = changed_accounts_spec(db, cache);
        let d = deleted_accounts_spec(db, cache);
        let e = cache.last();
        let n = cache.len() - 1;
        assert(e == cache[n]);
        // an earlier address never equals the new entry's
        assert forall|a: Seq<u8>| from_ethereum_entry(dl, a) && e.0.space is Ethereum implies a
            != e.0.address@ by {
            let k = choose|k: int| 0 <= k < dl.len() && (#[trigger] dl[k]).0.space is Ethereum && dl[k].0.address@ == a;
            assert(dl[k] == cache[k]);
            assert(!same_address(cache[k].0, cache[n].0));
        }
        assert forall|a: Seq<u8>| from_ethereum_entry(dl, a) implies from_ethereum_entry(cache, a) by {
            let k = choose|k: int| 0 <= k < dl.len() && (#[trigger] dl[k]).0.space is Ethereum && dl[k].0.address@ == a;
            assert(cache[k] == dl[k]);
        }
        assert(diff_addresses(pc).len() == pc.len());
        match entry_outcome(db, e.0, e.1) {
            EntryOutcome::Changed(v) => {
                assert(c == pc.push(v));
                assert(d == pd);
                assert(v.address == e.0.address@);
                assert(from_ethereum_entry(cache, v.address));
                assert(diff_addresses(c) =~= diff_addresses(pc).push(v.address));
                assert forall|k: int| 0 <= k < pc.len() implies (#[trigger] pc[k]).address != v.address by {
                    assert(from_ethereum_entry(dl, pc[k].address));
                }
                assert forall|x: int, y: int| 0 <= x < y < diff_addresses(c).len() implies diff_addresses(c)[x]
                    != diff_addresses(c)[y] by {
                    if y == pc.len() {
                        assert(diff_addresses(c)[x] == pc[x].address);
                    } else {
                        assert(diff_addresses(c)[x] == diff_addresses(pc)[x]);
                        assert(diff_addresses(c)[y] == diff_addresses(pc)[y]);
                    }
                }
                assert forall|j: int| 0 <= j < pd.len() implies v.address != #[trigger] pd[j] by {
                    assert(from_ethereum_entry(dl, pd[j]));
                }
                assert forall|k: int| 0 <= k < c.len() implies from_ethereum_entry(cache, (#[trigger] c[k]).address) by {
                    if k < pc.len() {
                        assert(c[k] == pc[k]);
                        assert(from_ethereum_entry(dl, pc[k].address));
                    }
                }
                assert forall|k: int| 0 <= k < d.len() implies from_ethereum_entry(cache, #[trigger] d[k]) by {
                    assert(from_ethereum_entry(dl, pd[k]));
                }
            },
            EntryOutcome::Deleted(a) => {
                assert(d == pd.push(a));
                assert(c == pc);
                assert(a == e.0.address@);
                assert(from_ethereum_entry(cache, a));
                assert forall|k: int| 0 <= k < pd.len() implies (#[trigger] pd[k]) != a by {
                    assert(from_ethereum_entry(dl, pd[k]));
                }
                assert forall|i: int| 0 <= i < pc.len() implies (#[trigger] pc[i]).address != a by {
                    assert(from_ethereum_entry(dl, pc[i].address));
                }
                assert forall|x: int, y: int| 0 <= x < y < d.len() implies d[x] != d[y] by {
                    if y == pd.len() {
                        assert(d[x] == pd[x]);
                    } else {
                        assert(d[x] == pd[x] && d[y] == pd[y]);
                    }
                }
                assert forall|k: int| 0 <= k < c.len() implies from_ethereum_entry(cache, (#[trigger] c[k]).address) by {
                    assert(from_ethereum_entry(dl, pc[k].address));
                }
                assert forall|k: int| 0 <= k < d.len() implies from_ethereum_entry(cache, #[trigger] d[k]) by {
                    if k < pd.len() {
                        assert(from_ethereum_entry(dl, pd[k]));
                    }
                }
            },
            EntryOutcome::Skipped => {
                assert(c == pc && d == pd);
                assert forall|k: int| 0 <= k < c.len() implies from_ethereum_entry(cache, (#[trigger] c[k]).address) by {
                    assert(from_ethereum_entry(dl, pc[k].address));
                }
                assert forall|k: int| 0 <= k < d.len() implies from_ethereum_entry(cache, #[trigger] d[k]) by {
                    assert(from_ethereum_entry(dl, pd[k]));
                }
            },
        }
    }
}

/// Every dirty Ethereum-space entry of the cache shows in the extraction: among
/// the deleted addresses when it was removed, else among the account diffs.
proof fn lemma_extract_complete(
    db: Seq<(AddressWithSpace, H256)>,
    cache: Seq<(AddressWithSpace, AccountEntry)>,
)
    ensures
        forall|k: int|
            0 <= k < cache.len() ==> match entry_outcome(db, (#[trigger] cache[k]).0, cache[k].1) {
                EntryOutcome::Changed(v) => changed_accounts_spec(db, cache).contains(v),
                EntryOutcome::Deleted(a) => deleted_accounts_spec(db, cache).contains(a),
                EntryOutcome::Skipped => true,
            },
    decreases cache.len(),
{
    if cache.len() > 0 {
        let dl = cache.drop_last();
        lemma_extract_complete(db, dl);
        let pc = changed_accounts_spec(db, dl);
        let pd = deleted_accounts_spec(db, dl);
        let c = changed_accounts_spec(db, cache);
        let d = deleted_accounts_spec(db, cache);
        let n = cache.len() - 1;
        assert forall|k: int| 0 <= k < cache.len() implies match entry_outcome(db, (#[trigger] cache[k]).0, cache[k].1) {
            EntryOutcome::Changed(v) => c.contains(v),
            EntryOutcome::Deleted(a) => d.contains(a),
            EntryOutcome::Skipped => true,
        } by {
            if k < n {
                assert(cache[k] == dl[k]);
                match entry_outcome(db, cache[k].0, cache[k].1) {
                    EntryOutcome::Changed(v) => {
                        let x = choose|x: int| 0 <= x < pc.len() && pc[x] == v;
                        match entry_outcome(db, cache.last().0, cache.last().1) {
                            EntryOutcome::Changed(w) => { assert(c == pc.push(w)); assert(c[x] == v); },
                            _ => { assert(c == pc); },
                        }
                    },
                    EntryOutcome::Deleted(a) => {
                        let x = choose|x: int| 0 <= x < pd.len() && pd[x] == a;
                        match entry_outcome(db, cache.last().0, cache.last().1) {
                            EntryOutcome::Deleted(b) => { assert(d == pd.push(b)); assert(d[x] == a); },
                            _ => { assert(d == pd); },
                        }
                    },
                    EntryOutcome::Skipped => {},
                }
            } else {
                assert(cache[k] == cache.last());
                match entry_outcome(db, cache[k].0, cache[k].1) {
                    EntryOutcome::Changed(v) => { assert(c[pc.len() as int] == v); },
                    EntryOutcome::Deleted(a) => { assert(d[pd.len() as int] == a); },
                    EntryOutcome::Skipped => {},
                }
            }
        }
    }
}

/// With one cache entry per address, the state diff names each dirty
/// Ethereum-space account of the cache exactly once: a removed one among the
/// deleted addresses, any other among the account diffs; no address occurs
/// twice in either list, none is in both, and every address given is that of an
/// Ethereum-space entry.
pub proof fn law_extract_each_account_once(
    db: Seq<(AddressWithSpace, H256)>,
    cache: Seq<(AddressWithSpace, AccountEntry)>,
)
    requires
        cache_keys_distinct(cache),
    ensures
        forall|k: int|
            0 <= k < cache.len() ==> match entry_outcome(db, (#[trigger] cache[k]).0, cache[k].1) {
                EntryOutcome::Changed(v) => changed_accounts_spec(db, cache).contains(v),
                EntryOutcome::Deleted(a) => deleted_accounts_spec(db, cache).contains(a),
                EntryOutcome::Skipped => true,
            },
        diff_addresses(changed_accounts_spec(db, cache)).no_duplicates(),
        deleted_accounts_spec(db, cache).no_duplicates(),
        forall|i: int, j: int|
            0 <= i < changed_accounts_spec(db, cache).len() && 0 <= j < deleted_accounts_spec(
                db,
                cache,
            ).len() ==> (#[trigger] changed_accounts_spec(db, cache)[i]).address
                != #[trigger] deleted_accounts_spec(db, cache)[j],
        forall|k: int|
            0 <= k < changed_accounts_spec(db, cache).len() ==> from_ethereum_entry(
                cache,
                (#[trigger] changed_accounts_spec(db, cache)[k]).address,
            ),
        forall|k: int|
            0 <= k < deleted_accounts_spec(db, cache).len() ==> from_ethereum_entry(
                cache,
                #[trigger] deleted_accounts_spec(db, cache)[k],
            ),
{
    lemma_extract_addresses(db, cache);
    lemma_extract_complete(db, cache);
}

fn is_ethereum(s: &Space) -> (r: bool)
    ensures
        r == (*s is Ethereum),
{
    match s {
        Space::Ethereum => true,
        Space::Native => false,
    }
}

fn db_lookup(db: &Vec<(AddressWithSpace, H256)>, addr: &AddressWithSpace) -> (r: Option<H256>)
    ensures
        match r {
            Some(h) => db_code_hash(db@, *addr) == Some(h@),
            None => db_code_hash(db@, *addr) is None,
        },
{
    let mut i: usize = 0;
    proof {
        assert(db@.skip(0) =~= db@);
    }
    while i < db.len()
        invariant
            i <= db@.len(),
            db_code_hash(db@, *addr) == db_code_hash(db@.skip(i as int), *addr),
        decreases db.len() - i,
    {
        let rec = &db[i];
        proof {
            assert(db@.skip(i as int)[0] == db@[i as int]);
            assert(db@.skip(i as int).drop_first() =~= db@.skip(i + 1));
        }
        if bytes20_eq(&rec.0.address, &addr.address) && is_ethereum(&rec.0.space) == is_ethereum(
            &addr.space,
        ) {
            return Some(rec.1);
        }
        i += 1;
    }
    None
}

fn collect_written_slots(wc: &Vec<(Vec<u8>, WriteCacheItem)>) -> (r: Vec<(Vec<u8>, U256)>)
    ensures
        r@.map_values(|p: (Vec<u8>, U256)| (p.0@, p.1@)) == written_slots(wc@),
{
    let mut r: Vec<(Vec<u8>, U256)> = Vec::new();
    let mut i: usize = 0;
    while i < wc.len()
        invariant
            i <= wc@.len(),
            r@.map_values(|p: (Vec<u8>, U256)| (p.0@, p.1@)) == written_slots(wc@.take(i as int)),
        decreases wc.len() - i,
    {
        let (key, item) = &wc[i];
        proof {
            assert(wc@.take(i + 1).drop_last() =~= wc@.take(i as int));
        }
        match item {
            WriteCacheItem::Write(v) => {
                let ghost prev = r@;
                r.push((copy_bytes(key.as_slice()), *v));
                proof {
                    assert(r@.map_values(|p: (Vec<u8>, U256)| (p.0@, p.1@)) =~= prev.map_values(
                        |p: (Vec<u8>, U256)| (p.0@, p.1@),
                    ).push((key@, v@)));
                }
            },
            WriteCacheItem::Unwritten => {},
        }
        i += 1;
    }
    proof {
        assert(wc@.take(wc@.len() as int) =~= wc@);
    }
    r
}

fn copy_opt_bytes(o: &Option<Vec<u8>>) -> (r: Option<Vec<u8>>)
    ensures
        opt_bytes_view(r) == opt_bytes_view(*o),
{
    match o {
        Some(v) => Some(copy_bytes(v.as_slice())),
        None => None,
    }
}

impl State {
    /// Extracts the state diff after a block's re-execution: every dirty
    /// Ethereum-space account of the cache becomes a deleted address when it was
    /// removed, else an account diff with its balance, nonce, code hash, written
    /// slots, whether the database lacked it before, and its code when that is new.
    /// The cache holds one entry per address, so no address is given twice and
    /// none is both deleted and changed.
    pub fn extract_debank_state_diff(&self) -> (diff: DebankStateDiff)
        requires
            cache_keys_distinct(self.cache@),
        ensures
            diff.accounts@.map_values(|a: DebankAccountDiff| a@) == changed_accounts_spec(
                self.db@,
                self.cache@,
            ),
            diff.deleted_accounts@.map_values(|a: H160| a@) == deleted_accounts_spec(
                self.db@,
                self.cache@,
            ),
            diff_addresses(changed_accounts_spec(self.db@, self.cache@)).no_duplicates(),
            deleted_accounts_spec(self.db@, self.cache@).no_duplicates(),
            forall|i: int, j: int|
                0 <= i < diff.accounts@.len() && 0 <= j < diff.deleted_accounts@.len() ==> (
                #[trigger] diff.accounts@[i]).address@ != (#[trigger] diff.deleted_accounts@[j])@,
    {
        proof {
            law_extract_each_account_once(self.db@, self.cache@);
        }
        let ghost cache = self.cache@;
        let ghost db = self.db@;
        let mut accounts: Vec<DebankAccountDiff> = Vec::new();
        let mut deleted: Vec<H160> = Vec::new();
        let empty = keccak_empty();
        let mut i: usize = 0;
        while i < self.cache.len()
            invariant
                i <= cache.len(),
                cache == self.cache@,
                db == self.db@,
                empty@ == keccak_spec(Seq::<u8>::empty()),
                accounts@.map_values(|a: DebankAccountDiff| a@) == changed_accounts_spec(
                    db,
                    cache.take(i as int),
                ),
                deleted@.map_values(|a: H160| a@) == deleted_accounts_spec(db, cache.take(i as int)),
            decreases self.cache.len() - i,
        {
            let (addr, entry) = &self.cache[i];
            proof {
                assert(cache.take(i + 1).drop_last() =~= cache.take(i as int));
                assert(cache.take(i + 1).last() == cache[i as int]);
            }
            if is_ethereum(&addr.space) {
                match entry {
                    AccountEntry::Cached(acc, dirty) => {
                        if *dirty {
                            if acc.removed_without_update {
                                let ghost prev = deleted@;
                                deleted.push(addr.address);
                                proof {
                                    assert(deleted@.map_values(|a: H160| a@) =~= prev.map_values(
                                        |a: H160| a@,
                                    ).push(addr.address@));
                                }
                            } else {
                                let stored = db_lookup(&self.db, addr);
                                let is_new = stored.is_none();
                                let storage_changes = collect_written_slots(&acc.storage_write_cache);
                                let not_empty = !bytes32_eq(&acc.code_hash, &empty);
                                let code = match stored {
                                    None => if not_empty {
                                        copy_opt_bytes(&acc.code)
                                    } else {
                                        None
                                    },
                                    Some(orig) => if !bytes32_eq(&acc.code_hash, &orig) && not_empty {
                                        copy_opt_bytes(&acc.code)
                                    } else {
                                        None
                                    },
                                };
                                let ghost prev = accounts@;
                                accounts.push(
                                    DebankAccountDiff {
                                        address: addr.address,
                                        balance: acc.balance,
                                        nonce: acc.nonce,
                                        code_hash: acc.code_hash,
                                        code,
                                        storage_changes,
                                        is_new,
                                    },
                                );
                                proof {
                                    assert(accounts@.map_values(|a: DebankAccountDiff| a@)
                                        =~= prev.map_values(|a: DebankAccountDiff| a@).push(
                                        accounts@.last()@,
                                    ));
                                }
                            }
                        }
                    },
                    AccountEntry::DbAbsent => {},
                }
            }
            i += 1;
        }
        proof {
            assert(cache.take(cache.len() as int) =~= cache);
            let ca = changed_accounts_spec(db, cache);
            let de = deleted_accounts_spec(db, cache);
            assert forall|i: int, j: int| 0 <= i < accounts@.len() && 0 <= j < deleted@.len() implies (
            #[trigger] accounts@[i]).address@ != (#[trigger] deleted@[j])@ by {
                assert(accounts@.map_values(|a: DebankAccountDiff| a@)[i] == ca[i]);
                assert(deleted@.map_values(|a: H160| a@)[j] == de[j]);
            }
        }
        DebankStateDiff { accounts, deleted_accounts: deleted }
    }
}

} // verus!
