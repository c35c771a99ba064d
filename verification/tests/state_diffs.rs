use debank_trace::debank::BlockStorageDiff;
use debank_trace::state_diff::{
    build_block_storage_diff, AccountEntry, AddressWithSpace, DebankAccountDiff, DebankStateDiff,
    OverlayAccount, Space, State, WriteCacheItem,
};

fn u256(v: u64) -> [u8; 32] {
    let mut b = [0u8; 32];
    b[24..].copy_from_slice(&v.to_be_bytes());
    b
}

fn account(address: u8, is_new: bool, code: Option<Vec<u8>>, code_hash: u8) -> DebankAccountDiff {
    DebankAccountDiff {
        address: [address; 20],
        balance: u256(1000),
        nonce: u256(7),
        code_hash: [code_hash; 32],
        code,
        storage_changes: vec![],
        is_new,
    }
}

#[test]
fn storage_diff_hashes_addresses_and_keeps_new_accounts() {
    let raw = DebankStateDiff {
        accounts: vec![account(1, true, None, 9), account(2, false, None, 9)],
        deleted_accounts: vec![[3u8; 20]],
    };
    let d = build_block_storage_diff(&[0xaa; 32], &[0xbb; 32], raw);
    assert_eq!(d.hash, [0xaa; 32]);
    assert_eq!(d.parent_hash, [0xbb; 32]);
    assert_eq!(d.new_accounts.len(), 1);
    assert_eq!(d.new_accounts[0].address_hash, keccak_hash::keccak([1u8; 20]).0);
    assert_ne!(d.new_accounts[0].address_hash[..20], [1u8; 20]);
    assert_eq!(d.new_accounts[0].nonce, 7);
    assert_eq!(d.new_accounts[0].balance, u256(1000));
    assert_eq!(d.deleted_accounts, vec![keccak_hash::keccak([3u8; 20]).0]);
    assert!(d.storage_diff.is_empty());
    assert!(d.new_codes.is_empty());
}

#[test]
fn storage_values_are_hashed_and_trimmed() {
    let mut acc = account(4, false, None, 9);
    acc.storage_changes = vec![(vec![1, 2, 3], u256(0x0102)), (vec![9], [0u8; 32])];
    let raw = DebankStateDiff { accounts: vec![acc], deleted_accounts: vec![] };
    let d = build_block_storage_diff(&[0; 32], &[0; 32], raw);
    assert_eq!(d.storage_diff.len(), 1);
    let s = &d.storage_diff[0];
    assert_eq!(s.address_hash, keccak_hash::keccak([4u8; 20]).0);
    assert_eq!(s.values.len(), 2);
    assert_eq!(s.values[0].index, keccak_hash::keccak([1u8, 2, 3]).0);
    assert_eq!(s.values[0].value, vec![0x01, 0x02]);
    assert_eq!(s.values[1].index, keccak_hash::keccak([9u8]).0);
    assert!(s.values[1].value.is_empty());
}

#[test]
fn new_codes_are_deduplicated_by_code_hash() {
    let raw = DebankStateDiff {
        accounts: vec![
            account(1, true, Some(vec![0x60, 0x00]), 5),
            account(2, true, Some(vec![0x60, 0x01]), 5),
            account(3, true, Some(vec![0x61]), 6),
            account(4, true, None, 7),
        ],
        deleted_accounts: vec![],
    };
    let d = build_block_storage_diff(&[0; 32], &[0; 32], raw);
    assert_eq!(d.new_codes.len(), 2);
    assert_eq!(d.new_codes[0].code_hash, [5; 32]);
    assert_eq!(d.new_codes[0].code, vec![0x60, 0x00]);
    assert_eq!(d.new_codes[1].code_hash, [6; 32]);
    assert_eq!(d.new_accounts.len(), 4);
}

#[test]
fn default_storage_diff_is_empty_with_zero_hashes() {
    let d = BlockStorageDiff::default();
    assert_eq!(d.hash, [0; 32]);
    assert_eq!(d.parent_hash, [0; 32]);
    assert!(d.new_accounts.is_empty() && d.deleted_accounts.is_empty());
    assert!(d.storage_diff.is_empty() && d.new_codes.is_empty());
}

fn overlay(code_hash: [u8; 32], code: Option<Vec<u8>>, removed: bool) -> OverlayAccount {
    OverlayAccount {
        balance: u256(5),
        nonce: u256(1),
        code_hash,
        code,
        removed_without_update: removed,
        storage_write_cache: vec![
            (vec![1], WriteCacheItem::Write(u256(2))),
            (vec![2], WriteCacheItem::Unwritten),
        ],
    }
}

fn eth(a: u8) -> AddressWithSpace {
    AddressWithSpace { address: [a; 20], space: Space::Ethereum }
}

#[test]
fn extract_keeps_dirty_ethereum_accounts_only() {
    let empty = keccak_hash::KECCAK_EMPTY.0;
    let state = State {
        cache: vec![
            (eth(1), AccountEntry::Cached(overlay([8; 32], Some(vec![1, 2]), false), true)),
            (eth(2), AccountEntry::Cached(overlay([8; 32], None, false), false)),
            (
                AddressWithSpace { address: [3; 20], space: Space::Native },
                AccountEntry::Cached(overlay([8; 32], None, false), true),
            ),
            (eth(4), AccountEntry::DbAbsent),
            (eth(5), AccountEntry::Cached(overlay(empty, None, true), true)),
            (eth(6), AccountEntry::Cached(overlay([8; 32], Some(vec![3]), false), true)),
            (eth(7), AccountEntry::Cached(overlay([9; 32], Some(vec![4]), false), true)),
        ],
        db: vec![(eth(6), [8; 32]), (eth(7), [8; 32])],
    };
    let diff = state.extract_debank_state_diff();
    assert_eq!(diff.deleted_accounts, vec![[5u8; 20]]);
    assert_eq!(diff.accounts.len(), 3);
    let a = &diff.accounts[0];
    assert_eq!(a.address, [1; 20]);
    assert!(a.is_new);
    assert_eq!(a.code, Some(vec![1, 2]));
    assert_eq!(a.storage_changes, vec![(vec![1], u256(2))]);
    // existing account whose code hash did not change: no code
    assert!(!diff.accounts[1].is_new);
    assert_eq!(diff.accounts[1].code, None);
    // existing account whose code hash changed: code reported
    assert_eq!(diff.accounts[2].code, Some(vec![4]));
}

#[test]
fn extract_reports_no_code_under_the_empty_code_hash() {
    let empty = keccak_hash::KECCAK_EMPTY.0;
    let state = State {
        cache: vec![(eth(1), AccountEntry::Cached(overlay(empty, Some(vec![]), false), true))],
        db: vec![],
    };
    let diff = state.extract_debank_state_diff();
    assert_eq!(diff.accounts.len(), 1);
    assert!(diff.accounts[0].is_new);
    assert_eq!(diff.accounts[0].code, None);
}

#[test]
fn default_state_diff_is_empty() {
    let d = DebankStateDiff::default();
    assert!(d.accounts.is_empty() && d.deleted_accounts.is_empty());
}

#[test]
fn existing_account_with_a_wide_nonce_is_accepted() {
    let mut old = account(5, false, Some(vec![0x60]), 4);
    old.nonce = [0xff; 32];
    old.storage_changes = vec![(vec![1], u256(3))];
    let raw = DebankStateDiff { accounts: vec![old], deleted_accounts: vec![] };
    let d = build_block_storage_diff(&[0; 32], &[0; 32], raw);
    assert!(d.new_accounts.is_empty());
    assert_eq!(d.storage_diff.len(), 1);
    assert_eq!(d.new_codes.len(), 1);
    assert_eq!(d.new_codes[0].code_hash, [4u8; 32]);
}
