use gil::ring::{next_power_of_two, Geometry};
use gil::spsc::{ReceiverCursor, Ring, SenderCursor};
use std::sync::atomic::{AtomicUsize, Ordering};
use std::sync::Arc;

#[test]
fn test_valid_try_sends() {
    let (mut q, mut tx, mut rx) = Ring::<usize>::with_size(4);
    for _ in 0..4 {
        assert!(q.try_recv(&mut rx).is_none());
    }
    for i in 0..4 {
        q.try_send(&mut tx, i).unwrap();
    }
    assert!(q.try_send(&mut tx, 5).is_err());

    for i in 0..4 {
        assert_eq!(q.try_recv(&mut rx), Some(i));
    }
    assert!(q.try_recv(&mut rx).is_none());
    for i in 0..4 {
        q.try_send(&mut tx, i).unwrap();
    }
}

#[test]
fn try_send_hands_back_the_value_when_full() {
    let (mut q, mut tx, _rx) = Ring::<String>::with_size(1);
    q.try_send(&mut tx, "a".to_string()).unwrap();
    assert_eq!(q.try_send(&mut tx, "b".to_string()), Err("b".to_string()));
}

#[test]
fn size_is_not_rounded_for_the_ring() {
    // a ring of size 3 has 4 slots but holds 3 items
    let (mut q, mut tx, mut rx) = Ring::<u32>::with_size(3);
    assert_eq!(q.size(), 3);
    for i in 0..3 {
        assert!(q.try_send(&mut tx, i).is_ok());
    }
    assert!(q.try_send(&mut tx, 3).is_err());
    assert_eq!(q.try_recv(&mut rx), Some(0));
    assert!(q.try_send(&mut tx, 3).is_ok());
    for i in 1..4 {
        assert_eq!(q.try_recv(&mut rx), Some(i));
    }
    assert_eq!(q.try_recv(&mut rx), None);
}

#[test]
fn wraps_around_many_laps() {
    let (mut q, mut tx, mut rx) = Ring::<usize>::with_size(4);
    for i in 0..1000 {
        q.try_send(&mut tx, i).unwrap();
        if i % 3 == 2 {
            q.try_send(&mut tx, i + 1_000_000).unwrap();
            assert_eq!(q.try_recv(&mut rx), Some(i));
            assert_eq!(q.try_recv(&mut rx), Some(i + 1_000_000));
        } else {
            assert_eq!(q.try_recv(&mut rx), Some(i));
        }
    }
    assert_eq!(q.head(), q.tail());
}

struct DropCounter(Arc<AtomicUsize>);

impl Drop for DropCounter {
    fn drop(&mut self) {
        self.0.fetch_add(1, Ordering::SeqCst);
    }
}

#[test]
fn test_drop_remaining_elements() {
    let dropped = Arc::new(AtomicUsize::new(0));
    {
        let (mut q, mut tx, _rx) = Ring::<DropCounter>::with_size(16);
        // Send 5 items but don't receive them
        for _ in 0..5 {
            assert!(q.try_send(&mut tx, DropCounter(dropped.clone())).is_ok());
        }
        let remaining = q.into_remaining();
        assert_eq!(remaining.len(), 5);
    }
    // All 5 items should have been dropped
    assert_eq!(dropped.load(Ordering::SeqCst), 5);
}

#[test]
fn into_remaining_returns_items_oldest_first() {
    let (mut q, mut tx, mut rx) = Ring::<u8>::with_size(4);
    for i in 0..4 {
        q.try_send(&mut tx, i).unwrap();
    }
    assert_eq!(q.try_recv(&mut rx), Some(0));
    assert_eq!(q.try_recv(&mut rx), Some(1));
    q.try_send(&mut tx, 4).unwrap();
    q.try_send(&mut tx, 5).unwrap();
    assert_eq!(q.into_remaining(), vec![2, 3, 4, 5]);
}

#[test]
fn test_batched_send_recv() {
    const TOTAL_ITEMS: usize = 1024 << 4;
    let (mut q, mut tx, mut rx) = Ring::<usize>::with_size(1024);
    let mut sent = 0;
    let mut received = 0;
    let mut expected = 0;
    while received < TOTAL_ITEMS {
        if sent < TOTAL_ITEMS {
            let batch: usize = 700.min(TOTAL_ITEMS - sent);
            let mut values: Vec<usize> = (sent..sent + batch).collect();
            let n = q.send_batch(&mut tx, &mut values);
            assert_eq!(values.len(), batch - n);
            sent += n;
        }
        let buffer = q.recv_batch(&mut rx, usize::MAX);
        for value in buffer.iter() {
            assert_eq!(*value, expected);
            expected += 1;
        }
        received += buffer.len();
    }
    assert_eq!(received, TOTAL_ITEMS);
}

#[test]
fn batch_stops_at_the_end_of_the_slots() {
    let (mut q, mut tx, mut rx) = Ring::<u32>::with_size(8);
    let mut first: Vec<u32> = (0..6).collect();
    assert_eq!(q.send_batch(&mut tx, &mut first), 6);
    assert_eq!(q.recv_batch(&mut rx, usize::MAX), vec![0, 1, 2, 3, 4, 5]);
    // tail is at slot 6: only two contiguous slots remain before the end
    let mut second: Vec<u32> = (6..12).collect();
    assert_eq!(q.send_batch(&mut tx, &mut second), 2);
    assert_eq!(second, vec![8, 9, 10, 11]);
    assert_eq!(q.send_batch(&mut tx, &mut second), 4);
    assert!(second.is_empty());
    assert_eq!(q.recv_batch(&mut rx, usize::MAX), vec![6, 7]);
    assert_eq!(q.recv_batch(&mut rx, usize::MAX), vec![8, 9, 10, 11]);
    assert!(q.recv_batch(&mut rx, usize::MAX).is_empty());
}

#[test]
fn receiver_is_empty_and_refresh() {
    let (mut q, mut tx, mut rx) = Ring::<u32>::with_size(4);
    assert!(q.receiver_is_empty(&rx));
    let mut lagging = rx;
    q.try_send(&mut tx, 7).unwrap();
    q.try_send(&mut tx, 8).unwrap();
    assert!(!q.receiver_is_empty(&rx));
    assert_eq!(q.try_recv(&mut rx), Some(7));
    // a copy taken before the receive is behind the head
    q.refresh_receiver(&mut lagging);
    assert_eq!(q.try_recv(&mut lagging), Some(8));
}

#[test]
fn next_power_of_two_values() {
    assert_eq!(next_power_of_two(1), 1);
    assert_eq!(next_power_of_two(2), 2);
    assert_eq!(next_power_of_two(3), 4);
    assert_eq!(next_power_of_two(4), 4);
    assert_eq!(next_power_of_two(1000), 1024);
    assert_eq!(next_power_of_two(4097), 8192);
}

#[test]
fn geometry_of_three() {
    let g = Geometry::with_size(3);
    assert_eq!(g.size(), 3);
    assert_eq!(g.capacity(), 4);
    assert_eq!(g.mask(), 3);
    assert_eq!(g.slot(0), 0);
    assert_eq!(g.slot(5), 1);
    assert_eq!(g.slot(usize::MAX), 3);
}

#[test]
fn sender_cursor_decisions() {
    let g = Geometry::with_size(4);
    let mut tx = SenderCursor::new(g);
    assert_eq!(tx.max_tail(), 4);
    assert!(tx.has_room());
    assert_eq!(tx.publish(4), 4);
    assert!(!tx.has_room());
    assert_eq!(tx.free_slots(), 0);
    tx.observe_head(3);
    assert!(tx.has_room());
    assert_eq!(tx.write_slot(), 0);
    assert_eq!(tx.write_region(), (0, 3));
    tx.observe_head(2);
    assert_eq!(tx.publish(1), 5);
    assert_eq!(tx.free_slots(), 1);
    assert_eq!(tx.write_region(), (1, 1));
}

#[test]
fn receiver_cursor_decisions() {
    let g = Geometry::with_size(4);
    let mut rx = ReceiverCursor::new(g);
    assert!(rx.is_drained());
    assert!(rx.is_empty_given(0));
    assert!(!rx.is_empty_given(1));
    rx.observe_tail(6);
    assert_eq!(rx.available(), 6);
    assert_eq!(rx.read_region(), (0, 4));
    assert_eq!(rx.consume(3), 3);
    assert_eq!(rx.read_slot(), 3);
    assert_eq!(rx.read_region(), (3, 1));
    rx.observe_head(7);
    assert!(rx.tail_is_stale());
}

#[test]
fn partial_advance_takes_a_prefix_of_the_run() {
    let (mut q, mut tx, mut rx) = Ring::<u32>::with_size(8);
    let mut values: Vec<u32> = (0..5).collect();
    assert_eq!(q.send_batch(&mut tx, &mut values), 5);
    assert_eq!(q.recv_batch(&mut rx, 2), vec![0, 1]);
    assert_eq!(q.recv_batch(&mut rx, 0), Vec::<u32>::new());
    assert_eq!(q.try_recv(&mut rx), Some(2));
    assert_eq!(q.recv_batch(&mut rx, 10), vec![3, 4]);
}

#[test]
fn items_leave_in_the_order_they_entered() {
    let (mut q, mut tx, mut rx) = Ring::<u32>::with_size(3);
    let mut out = Vec::new();
    q.try_send(&mut tx, 10).unwrap();
    q.try_send(&mut tx, 11).unwrap();
    out.push(q.try_recv(&mut rx).unwrap());
    q.try_send(&mut tx, 12).unwrap();
    q.try_send(&mut tx, 13).unwrap();
    while let Some(v) = q.try_recv(&mut rx) {
        out.push(v);
    }
    assert_eq!(out, vec![10, 11, 12, 13]);
}

#[test]
fn power_of_two_size_keeps_its_capacity() {
    let g = Geometry::with_size(8);
    assert_eq!(g.size(), 8);
    assert_eq!(g.capacity(), 8);
    assert_eq!(g.mask(), 7);
}

#[test]
fn try_ops_parking() {
    // the parking channel's non-blocking operations are those of the ring
    let (mut q, mut tx, mut rx) = Ring::<usize>::with_size(4);
    for _ in 0..4 {
        assert!(q.try_recv(&mut rx).is_none());
    }
    for i in 0..4 {
        q.try_send(&mut tx, i).unwrap();
    }
    assert!(q.try_send(&mut tx, 5).is_err());

    for i in 0..4 {
        assert_eq!(q.try_recv(&mut rx), Some(i));
    }
    assert!(q.try_recv(&mut rx).is_none());
}
