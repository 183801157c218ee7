use gil::sequenced::{
    holds_written_item, probe, CellRing, ConsumerCursor, Probe,
    ProducerCursor,
};
use std::sync::atomic::{AtomicUsize, Ordering};
use std::sync::Arc;

#[test]
fn mpsc_test_valid_try_sends() {
    let mut q = CellRing::<usize>::with_size(4);
    let mut tx = ProducerCursor::at(0);
    let mut rx = ConsumerCursor::at(0);
    for _ in 0..4 {
        assert!(q.try_recv_exclusive(&mut rx).is_none());
    }
    for i in 0..4 {
        q.try_send_contended(&mut tx, i).unwrap();
    }
    assert!(q.try_send_contended(&mut tx, 5).is_err());

    for i in 0..4 {
        assert_eq!(q.try_recv_exclusive(&mut rx), Some(i));
    }
    assert!(q.try_recv_exclusive(&mut rx).is_none());
    for i in 0..4 {
        q.try_send_contended(&mut tx, i).unwrap();
    }
}

#[test]
fn mpmc_test_valid_try_sends() {
    let mut q = CellRing::<usize>::with_size(4);
    let mut tx = ProducerCursor::at(0);
    let mut rx = ConsumerCursor::at(0);
    for _ in 0..4 {
        assert!(q.try_recv_contended(&mut rx).is_none());
    }
    for i in 0..4 {
        q.try_send_contended(&mut tx, i).unwrap();
    }
    assert!(q.try_send_contended(&mut tx, 5).is_err());

    for i in 0..4 {
        assert_eq!(q.try_recv_contended(&mut rx), Some(i));
    }
    assert!(q.try_recv_contended(&mut rx).is_none());
    for i in 0..4 {
        q.try_send_contended(&mut tx, i).unwrap();
    }
}

#[test]
fn test_valid_try_receives() {
    let mut q = CellRing::<usize>::with_size(4);
    let mut tx = ProducerCursor::at(0);
    let mut rx = ConsumerCursor::at(0);
    for _ in 0..4 {
        assert!(q.try_recv_contended(&mut rx).is_none());
    }
    for i in 0..4 {
        q.try_send_exclusive(&mut tx, i).unwrap();
    }
    assert!(q.try_send_exclusive(&mut tx, 5).is_err());

    for i in 0..4 {
        assert_eq!(q.try_recv_contended(&mut rx), Some(i));
    }
    assert!(q.try_recv_contended(&mut rx).is_none());
}

#[test]
fn capacity_is_rounded_up_for_cells() {
    // Request size 3. Capacity will be 4.
    let mut q = CellRing::<u8>::with_size(3);
    assert_eq!(q.capacity(), 4);
    let mut tx = ProducerCursor::at(0);
    for i in 0..4 {
        assert!(q.try_send_contended(&mut tx, i).is_ok());
    }
    assert_eq!(q.try_send_contended(&mut tx, 9), Err(9));
}

struct DropCounter(Arc<AtomicUsize>);

impl Drop for DropCounter {
    fn drop(&mut self) {
        self.0.fetch_add(1, Ordering::SeqCst);
    }
}

#[test]
fn test_drop_full_capacity() {
    let dropped_count = Arc::new(AtomicUsize::new(0));
    {
        // Request size 3. Capacity will be 4.
        let mut q = CellRing::<DropCounter>::with_size(3);
        let mut tx = ProducerCursor::at(0);
        // Push 4 items.
        for _ in 0..4 {
            q.send_contended(&mut tx, DropCounter(dropped_count.clone()));
        }
        let remaining = q.into_remaining();
        assert_eq!(remaining.len(), 4);
    }
    let count = dropped_count.load(Ordering::SeqCst);
    assert_eq!(count, 4, "Expected 4 items to be dropped, but got {}", count);
}

#[test]
fn into_remaining_takes_newest_first() {
    let mut q = CellRing::<u32>::with_size(4);
    let mut tx = ProducerCursor::at(0);
    let mut rx = ConsumerCursor::at(0);
    for i in 0..4 {
        q.send_contended(&mut tx, i);
    }
    assert_eq!(q.recv_exclusive(&mut rx), 0);
    assert_eq!(q.recv_exclusive(&mut rx), 1);
    q.send_contended(&mut tx, 4);
    assert_eq!(q.into_remaining(), vec![4, 3, 2]);
}

#[test]
fn stale_producer_reloads_the_tail() {
    let mut q = CellRing::<u32>::with_size(4);
    let mut first = ProducerCursor::at(0);
    let mut second = first;
    q.try_send_contended(&mut first, 10).unwrap();
    q.try_send_contended(&mut first, 11).unwrap();
    // `second` still points at position 0, whose cell is taken
    q.try_send_contended(&mut second, 12).unwrap();
    assert_eq!(second.current(), 3);
    let mut rx = ConsumerCursor::at(0);
    assert_eq!(q.try_recv_exclusive(&mut rx), Some(10));
    assert_eq!(q.try_recv_exclusive(&mut rx), Some(11));
    assert_eq!(q.try_recv_exclusive(&mut rx), Some(12));
}

#[test]
fn stale_consumer_reloads_the_head() {
    let mut q = CellRing::<u32>::with_size(2);
    let mut tx = ProducerCursor::at(0);
    let mut a = ConsumerCursor::at(0);
    let mut b = a;
    q.send_exclusive(&mut tx, 1);
    q.send_exclusive(&mut tx, 2);
    assert_eq!(q.try_recv_contended(&mut a), Some(1));
    assert_eq!(q.try_recv_contended(&mut b), Some(2));
    assert_eq!(b.current(), 2);
    assert_eq!(q.try_recv_contended(&mut a), None);
    q.send_exclusive(&mut tx, 3);
    assert_eq!(q.recv_contended(&mut a), 3);
}

#[test]
fn epochs_follow_the_laps() {
    let mut q = CellRing::<u32>::with_size(2);
    let mut tx = ProducerCursor::at(0);
    let mut rx = ConsumerCursor::at(0);
    for lap in 0..10u32 {
        q.send_exclusive(&mut tx, 2 * lap);
        q.send_exclusive(&mut tx, 2 * lap + 1);
        assert!(q.try_send_exclusive(&mut tx, 99).is_err());
        assert_eq!(q.recv_exclusive(&mut rx), 2 * lap);
        assert_eq!(q.recv_exclusive(&mut rx), 2 * lap + 1);
    }
    assert_eq!(q.head(), 20);
    assert_eq!(q.tail(), 20);
}

#[test]
fn probe_and_cursor_epochs() {
    assert_eq!(probe(3, 4), Probe::Behind);
    assert_eq!(probe(4, 4), Probe::Ready);
    assert_eq!(probe(5, 4), Probe::Ahead);
    let mut tx = ProducerCursor::at(7);
    assert_eq!(tx.expected_epoch(), 7);
    assert_eq!(tx.claim(), 8);
    let mut rx = ConsumerCursor::at(7);
    assert_eq!(rx.expected_epoch(), 8);
    assert_eq!(rx.claim(4), 11);
    assert_eq!(rx.current(), 8);
    tx.observe_tail(2);
    rx.observe_head(1);
    assert_eq!((tx.current(), rx.current()), (2, 1));
}

#[test]
fn mod_test_drop_full_capacity() {
    let dropped_count = Arc::new(AtomicUsize::new(0));
    {
        // Request size 3. Capacity will be 4.
        let mut q = CellRing::<DropCounter>::with_size(3);
        let mut tx = ProducerCursor::at(0);
        // Push 4 items; dropping the queue drops them.
        for _ in 0..4 {
            q.send_contended(&mut tx, DropCounter(dropped_count.clone()));
        }
    }
    let count = dropped_count.load(Ordering::SeqCst);
    assert_eq!(count, 4, "Expected 4 items to be dropped, but got {}", count);
}

#[test]
fn drop_scan_tests() {
    // a written cell of position 5 has epoch 6
    assert!(holds_written_item(6, 5));
    assert!(!holds_written_item(5, 5));
    assert!(!holds_written_item(9, 5));
    assert!(holds_written_item(0, usize::MAX));
}

#[test]
fn drop_from_the_head_takes_every_item() {
    let mut q = CellRing::<u32>::with_size(4);
    let mut tx = ProducerCursor::at(0);
    let mut rx = ConsumerCursor::at(0);
    for i in 0..4 {
        q.send_exclusive(&mut tx, i);
    }
    assert_eq!(q.recv_contended(&mut rx), 0);
    q.send_exclusive(&mut tx, 4);
    assert_eq!(q.into_remaining_from_head(), vec![1, 2, 3, 4]);
}

#[test]
fn spmc_drop_full_capacity() {
    let dropped_count = Arc::new(AtomicUsize::new(0));
    {
        let mut q = CellRing::<DropCounter>::with_size(4);
        let mut tx = ProducerCursor::at(0);
        for _ in 0..4 {
            q.send_exclusive(&mut tx, DropCounter(dropped_count.clone()));
        }
        assert_eq!(q.into_remaining_from_head().len(), 4);
    }
    let count = dropped_count.load(Ordering::SeqCst);
    assert_eq!(count, 4, "Expected 4 items to be dropped, but got {}", count);
}
