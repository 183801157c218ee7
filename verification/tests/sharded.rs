use gil::sharded::{
    channel, claim_outcome, join_admitted, next_shard, scan_done, ConsumerCount, ShardRegistry,
};

#[test]
fn sharded_test_valid_try_sends() {
    let (mut shards, mut tx, mut rx) = channel::<usize>(1, 4);
    for _ in 0..4 {
        assert!(shards.try_recv(&mut rx).is_none());
    }
    for i in 0..4 {
        shards.try_send(&mut tx, i).unwrap();
    }
    assert!(shards.try_send(&mut tx, 5).is_err());

    for i in 0..4 {
        assert_eq!(shards.try_recv(&mut rx), Some(i));
    }
    assert!(shards.try_recv(&mut rx).is_none());
    for i in 0..4 {
        shards.try_send(&mut tx, i).unwrap();
    }
}

#[test]
fn clone_fails_when_all_shards_are_taken() {
    let (mut shards, tx, _rx) = channel::<u8>(2, 4);
    assert_eq!(tx.shard(), 0);
    let second = shards.try_clone_sender().unwrap();
    assert_eq!(second.shard(), 1);
    assert!(shards.try_clone_sender().is_none());
    // dropping a producer does not free its shard
    assert!(!shards.drop_sender(second));
    assert!(shards.try_clone_sender().is_none());
    assert!(shards.drop_sender(tx));
}

#[test]
fn scan_visits_shards_in_turn() {
    let (mut shards, mut s0, mut rx) = channel::<u32>(4, 4);
    let mut s1 = shards.try_clone_sender().unwrap();
    let mut s2 = shards.try_clone_sender().unwrap();
    let mut s3 = shards.try_clone_sender().unwrap();
    shards.try_send(&mut s2, 20).unwrap();
    shards.try_send(&mut s2, 21).unwrap();
    shards.try_send(&mut s0, 0).unwrap();
    shards.try_send(&mut s3, 30).unwrap();
    // the scan starts at shard 0
    assert_eq!(shards.try_recv(&mut rx), Some(0));
    // shard 0 is now empty: the next scan finds shard 2 and stays there
    assert_eq!(shards.try_recv(&mut rx), Some(20));
    assert_eq!(shards.try_recv(&mut rx), Some(21));
    assert_eq!(shards.try_recv(&mut rx), Some(30));
    assert_eq!(shards.try_recv(&mut rx), None);
    // after shard 3 the scan wraps round to shard 1
    shards.try_send(&mut s1, 10).unwrap();
    assert_eq!(shards.try_recv(&mut rx), Some(10));
}

#[test]
fn shared_consumers_take_turns() {
    let (mut shards, mut s0, rx) = channel::<u32>(2, 4);
    let mut s1 = shards.try_clone_sender().unwrap();
    let mut a = rx;
    let mut b = shards.try_clone_receiver(&a).unwrap();
    assert!(shards.try_clone_receiver(&a).is_none());
    for i in 0..3 {
        shards.try_send(&mut s0, i).unwrap();
        shards.try_send(&mut s1, 100 + i).unwrap();
    }
    assert_eq!(shards.try_recv_shared(&mut a), Some(0));
    assert_eq!(shards.try_recv_shared(&mut b), Some(1));
    assert_eq!(shards.try_recv_shared(&mut a), Some(2));
    assert_eq!(shards.try_recv_shared(&mut b), Some(100));
    assert_eq!(shards.try_recv_shared(&mut a), Some(101));
    assert_eq!(shards.try_recv_shared(&mut a), Some(102));
    assert_eq!(shards.try_recv_shared(&mut b), None);
    assert!(!shards.drop_receiver(b));
    assert!(shards.drop_receiver(a));
}

#[test]
fn test_batched_sharded_send_recv() {
    const SHARDS: usize = 4;
    const TOTAL_ITEMS_PER_THREAD: usize = 1024;
    let (mut shards, first, mut rx) = channel::<usize>(SHARDS, 256);
    let mut senders = vec![first];
    for _ in 1..SHARDS {
        senders.push(shards.try_clone_sender().unwrap());
    }
    let mut sent = vec![0usize; SHARDS];
    let mut received_counts = vec![0usize; SHARDS];
    let mut total_received = 0;
    let total_expected = SHARDS * TOTAL_ITEMS_PER_THREAD;
    while total_received < total_expected {
        for thread_id in 0..SHARDS {
            if sent[thread_id] < TOTAL_ITEMS_PER_THREAD {
                let batch = 100.min(TOTAL_ITEMS_PER_THREAD - sent[thread_id]);
                let mut values: Vec<usize> =
                    (0..batch).map(|i| thread_id * 10000 + sent[thread_id] + i).collect();
                let n = shards.send_batch(&mut senders[thread_id], &mut values);
                sent[thread_id] += n;
            }
        }
        let buffer = shards.recv_batch(&mut rx, usize::MAX);
        for &value in buffer.iter() {
            let thread_id = value / 10000;
            let sent_id = value % 10000;
            assert_eq!(sent_id, received_counts[thread_id]);
            received_counts[thread_id] += 1;
            total_received += 1;
        }
    }
    assert_eq!(total_received, total_expected);
    for count in received_counts {
        assert_eq!(count, TOTAL_ITEMS_PER_THREAD);
    }
}

#[test]
fn registry_hands_out_each_shard_once() {
    let mut registry = ShardRegistry::new(3);
    assert_eq!(registry.try_register(), Some(0));
    assert_eq!(registry.try_register(), Some(1));
    assert!(!registry.release());
    assert_eq!(registry.try_register(), Some(2));
    assert_eq!(registry.try_register(), None);
    assert_eq!(registry.try_register(), None);
    assert!(!registry.release());
    assert!(registry.release());
}

#[test]
fn consumer_count_is_bounded_by_shards() {
    let mut count = ConsumerCount::new(2);
    assert!(count.try_join());
    assert!(!count.try_join());
    assert!(!count.leave());
    assert!(count.try_join());
    assert!(!count.leave());
    assert!(count.leave());
}

struct DropCounter(std::sync::Arc<std::sync::atomic::AtomicUsize>);

impl Drop for DropCounter {
    fn drop(&mut self) {
        self.0.fetch_add(1, std::sync::atomic::Ordering::SeqCst);
    }
}

#[test]
fn sharded_test_drop_full_capacity() {
    let dropped_count = std::sync::Arc::new(std::sync::atomic::AtomicUsize::new(0));
    {
        let (mut shards, mut tx, _rx) = channel::<DropCounter>(1, 4);
        for _ in 0..4 {
            assert!(shards.try_send(&mut tx, DropCounter(dropped_count.clone())).is_ok());
        }
    }
    let count = dropped_count.load(std::sync::atomic::Ordering::SeqCst);
    assert_eq!(count, 4, "Expected 4 items to be dropped, but got {}", count);
}

#[test]
fn each_clone_binds_another_shard() {
    let (mut shards, mut tx, mut rx) = channel::<i32>(2, 16);
    let mut tx2 = shards.try_clone_sender().expect("shard available");
    shards.try_send(&mut tx, 1).unwrap();
    shards.try_send(&mut tx2, 2).unwrap();
    let mut values = [shards.try_recv(&mut rx).unwrap(), shards.try_recv(&mut rx).unwrap()];
    values.sort();
    assert_eq!(values, [1, 2]);
    // only 2 shards, so the third clone fails
    assert!(shards.try_clone_sender().is_none());
}

#[test]
fn sharded_write_then_commit() {
    let (mut shards, mut tx, mut rx) = channel::<usize>(1, 128);
    let mut values = vec![10, 20];
    assert_eq!(shards.send_batch(&mut tx, &mut values), 2);
    assert!(values.is_empty());
    assert_eq!(shards.try_recv(&mut rx), Some(10));
    assert_eq!(shards.try_recv(&mut rx), Some(20));
}

#[test]
fn batch_send_stops_at_the_end_of_the_slots() {
    let (mut shards, mut tx, mut rx) = channel::<u32>(1, 4);
    let mut first = vec![1, 2, 3];
    assert_eq!(shards.send_batch(&mut tx, &mut first), 3);
    assert_eq!(shards.recv_batch(&mut rx, usize::MAX), vec![1, 2, 3]);
    // the tail is at slot 3: one contiguous slot before the end
    let mut more = vec![4, 5, 6];
    assert_eq!(shards.send_batch(&mut tx, &mut more), 1);
    assert_eq!(more, vec![5, 6]);
    assert_eq!(shards.send_batch(&mut tx, &mut more), 2);
    assert_eq!(shards.recv_batch(&mut rx, usize::MAX), vec![4]);
    assert_eq!(shards.recv_batch(&mut rx, 1), vec![5]);
    assert_eq!(shards.recv_batch(&mut rx, usize::MAX), vec![6]);
    assert!(shards.recv_batch(&mut rx, usize::MAX).is_empty());
}

#[test]
fn shared_consumers_read_batches_in_turn() {
    let (mut shards, mut s0, rx) = channel::<u32>(2, 8);
    let mut s1 = shards.try_clone_sender().unwrap();
    let mut a = rx;
    let mut b = shards.try_clone_receiver(&a).unwrap();
    for i in 0..3 {
        shards.try_send(&mut s0, i).unwrap();
        shards.try_send(&mut s1, 100 + i).unwrap();
    }
    assert_eq!(shards.recv_batch_shared(&mut a, 2), vec![0, 1]);
    // b's cursor on shard 0 lags behind a's reads: it is brought up to date
    assert_eq!(shards.recv_batch_shared(&mut b, usize::MAX), vec![2]);
    assert_eq!(shards.recv_batch_shared(&mut a, usize::MAX), vec![100, 101, 102]);
    assert!(shards.recv_batch_shared(&mut b, usize::MAX).is_empty());
}

#[test]
fn dropped_consumer_frees_a_place() {
    let (mut shards, _tx, a) = channel::<u8>(2, 4);
    let b = shards.try_clone_receiver(&a).unwrap();
    assert!(shards.try_clone_receiver(&a).is_none());
    assert!(!shards.drop_receiver(b));
    let c = shards.try_clone_receiver(&a);
    assert!(c.is_some());
}

#[test]
fn fetch_and_add_outcomes() {
    assert_eq!(claim_outcome(0, 2), Some(0));
    assert_eq!(claim_outcome(1, 2), Some(1));
    assert_eq!(claim_outcome(2, 2), None);
    assert_eq!(claim_outcome(7, 2), None);
    assert!(join_admitted(1, 2));
    assert!(!join_admitted(2, 2));
}

#[test]
fn round_robin_steps() {
    assert_eq!(next_shard(0, 3), 1);
    assert_eq!(next_shard(1, 3), 2);
    assert_eq!(next_shard(2, 3), 0);
    assert_eq!(next_shard(0, 1), 0);
    assert!(scan_done(2, 2));
    assert!(!scan_done(0, 2));
}

#[test]
fn batch_read_reloads_the_tail_only_when_it_shows_no_item() {
    let (mut shards, mut tx, mut rx) = channel::<u32>(1, 8);
    shards.try_send(&mut tx, 1).unwrap();
    shards.try_send(&mut tx, 2).unwrap();
    // the cached tail shows nothing: it is reloaded, and one item is taken
    assert_eq!(shards.recv_batch(&mut rx, 1), vec![1]);
    shards.try_send(&mut tx, 3).unwrap();
    // the cached tail still shows item 2: no reload, so item 3 is not seen
    assert_eq!(shards.recv_batch(&mut rx, usize::MAX), vec![2]);
    assert_eq!(shards.recv_batch(&mut rx, usize::MAX), vec![3]);
}
