use rust_state_machine::mempool::Mempool;

#[test]
fn mempool_new_is_empty() {
    let pool: Mempool<i32> = Mempool::new();
    assert!(pool.is_empty());
    assert_eq!(pool.len(), 0);
}

#[test]
fn mempool_submit_and_drain_all() {
    let mut pool: Mempool<i32> = Mempool::new();
    pool.submit(1).unwrap();
    pool.submit(2).unwrap();
    pool.submit(3).unwrap();
    let batch = pool.drain_for_block(10);
    assert_eq!(batch, vec![1, 2, 3]);
    assert!(pool.is_empty());
}

#[test]
fn mempool_drain_partial_leaves_remainder() {
    let mut pool: Mempool<i32> = Mempool::new();
    for i in 0..5 {
        pool.submit(i).unwrap();
    }
    let batch = pool.drain_for_block(3);
    assert_eq!(batch, vec![0, 1, 2]);
    assert_eq!(pool.len(), 2);
}

#[test]
fn mempool_drain_from_empty_returns_empty_vec() {
    let mut pool: Mempool<i32> = Mempool::new();
    assert_eq!(pool.drain_for_block(10), Vec::<i32>::new());
}

#[test]
fn mempool_capacity_rejects_overflow() {
    let mut pool: Mempool<i32> = Mempool::with_capacity(2);
    assert!(pool.submit(1).is_ok());
    assert!(pool.submit(2).is_ok());
    assert!(pool.submit(3).is_err());
    assert_eq!(pool.len(), 2);
}

#[test]
fn mempool_block_limit_signals_correctly() {
    let mut pool: Mempool<i32> = Mempool::with_block_limit(2);
    assert!(!pool.is_block_ready());
    pool.submit(1).unwrap();
    assert!(!pool.is_block_ready());
    pool.submit(2).unwrap();
    assert!(pool.is_block_ready());
    pool.drain_for_block(2);
    assert!(!pool.is_block_ready());
}

#[test]
fn mempool_retain_evicts_matching() {
    let mut pool: Mempool<i32> = Mempool::new();
    for i in 0..5 {
        pool.submit(i).unwrap();
    }
    pool.retain(|x| x % 2 == 0); // keep evens
    let batch = pool.drain_for_block(10);
    assert_eq!(batch, vec![0, 2, 4]);
}

#[test]
fn mempool_remove_by_index() {
    let mut pool: Mempool<i32> = Mempool::new();
    pool.submit(10).unwrap();
    pool.submit(20).unwrap();
    pool.submit(30).unwrap();
    assert_eq!(pool.remove(1), Some(20));
    assert_eq!(pool.len(), 2);
    assert_eq!(pool.drain_for_block(10), vec![10, 30]);
}

#[test]
fn mempool_remove_out_of_bounds_returns_none() {
    let mut pool: Mempool<i32> = Mempool::new();
    pool.submit(1).unwrap();
    assert_eq!(pool.remove(5), None);
    assert_eq!(pool.len(), 1);
}

#[test]
fn mempool_pending_extrinsics_iter() {
    let mut pool: Mempool<i32> = Mempool::new();
    pool.submit(10).unwrap();
    pool.submit(20).unwrap();
    let items: Vec<_> = pool.pending_extrinsics();
    assert_eq!(items, vec![&10, &20]);
}
