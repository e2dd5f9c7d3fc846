use stratum_pool::pplns::{PplnsQueue, ShareEntry};
use stratum_pool::ttlmap::TtlMap;

fn entry(addr: &[u8], weight: u64) -> ShareEntry {
    ShareEntry { address: addr.to_vec(), weight, epoch_hash: b"aa".to_vec() }
}

#[test]
fn window_evicts_oldest_first() {
    let mut q = PplnsQueue::new(100);
    q.new_share(entry(b"a", 40));
    q.new_share(entry(b"b", 40));
    q.new_share(entry(b"c", 40));
    // 40 + 40 + 40 > 100: the oldest share (a) must have left
    let totals = q.aggregate();
    assert_eq!(totals.len(), 2);
    assert!(totals.iter().all(|t| t.0 != b"a".to_vec()));
    let sum: u64 = totals.iter().map(|t| t.1).sum();
    assert!(sum <= 100);
}

#[test]
fn aggregate_sums_per_address() {
    let mut q = PplnsQueue::new(1000);
    q.new_share(entry(b"a", 10));
    q.new_share(entry(b"b", 20));
    q.new_share(entry(b"a", 30));
    let totals = q.aggregate();
    assert_eq!(totals.len(), 2);
    let a = totals.iter().find(|t| t.0 == b"a".to_vec()).unwrap();
    let b = totals.iter().find(|t| t.0 == b"b".to_vec()).unwrap();
    assert_eq!(a.1, 40);
    assert_eq!(b.1, 20);
}

#[test]
fn set_n_shrinks_from_the_oldest_end() {
    let mut q = PplnsQueue::new(100);
    q.new_share(entry(b"a", 30));
    q.new_share(entry(b"b", 30));
    q.new_share(entry(b"c", 30));
    q.set_n(60);
    let totals = q.aggregate();
    assert!(totals.iter().all(|t| t.0 != b"a".to_vec()));
    let sum: u64 = totals.iter().map(|t| t.1).sum();
    assert!(sum <= 60);
}

#[test]
fn block_credit_splits_reward_proportionally() {
    let mut q = PplnsQueue::new(1000);
    q.new_share(entry(b"a", 30));
    q.new_share(entry(b"b", 10));
    let rows = q.new_block(1_000, b"blockhash1".to_vec(), 1_000_000).expect("fresh block");
    assert_eq!(rows.len(), 2);
    let a = rows.iter().find(|r| r.address == b"a".to_vec()).unwrap();
    let b = rows.iter().find(|r| r.address == b"b".to_vec()).unwrap();
    assert_eq!(a.amount, 750_000);
    assert_eq!(b.amount, 250_000);
}

#[test]
fn duplicate_block_within_ttl_credits_once() {
    let mut q = PplnsQueue::new(1000);
    q.new_share(entry(b"a", 30));
    let first = q.new_block(1_000, b"bh".to_vec(), 500);
    assert!(first.is_some());
    // the same block hash inside the ten-minute window is a no-op
    let dup = q.new_block(600_999, b"bh".to_vec(), 500);
    assert!(dup.is_none());
    // a different hash is credited
    let other = q.new_block(601_000, b"bh2".to_vec(), 500);
    assert!(other.is_some());
    // the original hash is credited again once its entry expired
    let late = q.new_block(1_000_000, b"bh".to_vec(), 500);
    assert!(late.is_some());
}

#[test]
fn empty_window_yields_no_payouts() {
    let mut q = PplnsQueue::new(1000);
    let rows = q.new_block(0, b"bh".to_vec(), 500).expect("fresh block");
    assert_eq!(rows.len(), 0);
}

#[test]
fn snapshot_restore_resnapshot_is_byte_identical() {
    let mut q = PplnsQueue::new(12345);
    q.new_share(entry(b"aleo1aaa", 10));
    q.new_share(entry(b"aleo1bbb", 20));
    q.new_share(entry(b"aleo1aaa", 5));
    let kv1 = q.snapshot();
    let q2 = PplnsQueue::restore(&kv1).expect("a snapshot must restore");
    let kv2 = q2.snapshot();
    assert_eq!(kv1, kv2);
    // entry keys carry the zero prefix, the trailer the one prefix
    assert_eq!(kv1[0].0[0], 0);
    assert_eq!(kv1[3].0, vec![1u8]);
}

#[test]
fn restore_rejects_garbage() {
    assert!(PplnsQueue::restore(&Vec::new()).is_none());
    let kv = vec![(vec![9u8], vec![0u8; 8])];
    assert!(PplnsQueue::restore(&kv).is_none());
}

#[test]
fn ttl_map_expires_lazily() {
    let mut m: TtlMap<u64> = TtlMap::new(1_000);
    m.set(b"k".to_vec(), 7, 100);
    assert_eq!(m.get(&b"k".to_vec(), 1_100), Some(7));
    assert_eq!(m.get(&b"k".to_vec(), 1_101), None);
    m.set(b"k".to_vec(), 8, 2_000);
    assert_eq!(m.get(&b"k".to_vec(), 2_500), Some(8));
    assert_eq!(m.get(&b"other".to_vec(), 2_500), None);
}
