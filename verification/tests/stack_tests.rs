use ringmpsc::{StackChannel, StackChannelError, StackRing};
use std::cell::Cell;
use std::rc::Rc;

struct DropTracker {
    _id: u64,
    drops: Rc<Cell<usize>>,
}

impl Drop for DropTracker {
    fn drop(&mut self) {
        self.drops.set(self.drops.get() + 1);
    }
}

fn put(ring: &mut StackRing<u64, 8>, value: u64) {
    let (run, len) = ring.reserve(1).unwrap();
    run[0] = Some(value);
    ring.commit(len);
}

#[test]
fn test_capacity_must_be_power_of_two() {
    let ring: StackRing<u64, 4> = StackRing::new();
    assert_eq!(ring.capacity(), 4);
    let ring: StackRing<u64, 16> = StackRing::new();
    assert_eq!(ring.capacity(), 16);
    let ring: StackRing<u64, 1024> = StackRing::new();
    assert_eq!(ring.capacity(), 1024);
    let ring: StackRing<u64, 4096> = StackRing::new();
    assert_eq!(ring.capacity(), 4096);
}

#[test]
fn test_basic_reserve_commit_consume() {
    let mut ring: StackRing<u64, 16> = StackRing::new();

    // Write 4 items
    {
        let (run, len) = ring.reserve(4).expect("reserve failed");
        assert_eq!(len, 4);
        for i in 0..len {
            run[i] = Some((i * 100) as u64);
        }
        ring.commit(len);
    }

    assert_eq!(ring.len(), 4);
    assert!(!ring.is_empty());
    assert!(!ring.is_full());

    // Consume and verify
    let mut values = Vec::new();
    ring.consume_batch(&mut values);

    assert_eq!(values, vec![0, 100, 200, 300]);
    assert!(ring.is_empty());
}

#[test]
fn stack_ring_test_wrap_around() {
    let mut ring: StackRing<u64, 8> = StackRing::new();

    // Fill to near capacity
    for i in 0..6 {
        put(&mut ring, i);
    }

    // Consume some
    let mut out = Vec::new();
    ring.consume_up_to(4, &mut out);
    let sum: u64 = out.iter().sum();
    assert_eq!(sum, 6); // 0 + 1 + 2 + 3

    // Add more (should wrap around)
    for i in 10..14 {
        put(&mut ring, i);
    }

    // Consume all remaining
    let mut values = Vec::new();
    ring.consume_batch(&mut values);
    assert_eq!(values, vec![4, 5, 10, 11, 12, 13]);
}

#[test]
fn test_full_ring() {
    let mut ring: StackRing<u64, 8> = StackRing::new();

    // Fill completely
    for i in 0..8 {
        put(&mut ring, i);
    }

    assert!(ring.is_full());
    assert_eq!(ring.len(), 8);

    // Reserve should fail when full
    assert!(ring.reserve(1).is_none());
}

#[test]
fn test_close() {
    let mut ring: StackRing<u64, 8> = StackRing::new();

    assert!(!ring.is_closed());
    ring.close();
    assert!(ring.is_closed());

    // Reserve should fail when closed
    assert!(ring.reserve(1).is_none());
}

#[test]
fn test_contiguous_reservation() {
    let mut ring: StackRing<u64, 8> = StackRing::new();

    // Position at index 6
    for i in 0..6 {
        put(&mut ring, i);
    }
    let mut gone = Vec::new();
    ring.consume_batch(&mut gone);

    // Now head and tail are at 6. Reserve 4 should return 2 (wrap).
    {
        let (run, len) = ring.reserve(4).unwrap();
        assert_eq!(len, 2); // Only 2 contiguous slots before wrap
        assert_eq!(run.len(), 2);
        run[0] = Some(100);
        run[1] = Some(101);
        ring.commit(len);
    }

    // Reserve remaining 2
    {
        let (run, len) = ring.reserve(2).unwrap();
        assert_eq!(len, 2);
        run[0] = Some(102);
        run[1] = Some(103);
        ring.commit(len);
    }

    // Verify all values
    let mut values = Vec::new();
    ring.consume_batch(&mut values);
    assert_eq!(values, vec![100, 101, 102, 103]);
}

#[test]
fn test_drop_unconsumed_items() {
    let drops = Rc::new(Cell::new(0usize));

    {
        let mut ring: StackRing<DropTracker, 16> = StackRing::new();

        // Write 5 items
        for i in 0..5 {
            let (run, _) = ring.reserve(1).unwrap();
            run[0] = Some(DropTracker { _id: i, drops: Rc::clone(&drops) });
            ring.commit(1);
        }

        // Consume only 2
        let mut out = Vec::new();
        ring.consume_up_to_owned(2, &mut out);
        drop(out);
        assert_eq!(drops.get(), 2);

        // Ring drops with 3 unconsumed items
    }

    // All 5 should be dropped now
    assert_eq!(drops.get(), 5);
}

#[test]
fn test_peek_and_advance() {
    let mut ring: StackRing<u64, 8> = StackRing::new();

    // Write items
    for i in 0..4 {
        put(&mut ring, i * 10);
    }

    // Peek should show items
    {
        let (run, len) = ring.peek().unwrap();
        assert!(len >= 1);
        assert_eq!(len, 4);
        assert_eq!(run[0], Some(0));
    }

    // Advance by 2
    ring.advance(2);
    assert_eq!(ring.len(), 2);

    // Peek again
    {
        let (run, _) = ring.peek().unwrap();
        assert_eq!(run[0], Some(20));
    }
}

#[test]
fn test_consume_batch_owned() {
    let mut ring: StackRing<String, 8> = StackRing::new();

    // Write strings
    for i in 0..3 {
        let (run, _) = ring.reserve(1).unwrap();
        run[0] = Some(format!("item_{}", i));
        ring.commit(1);
    }

    // Consume with ownership transfer
    let mut collected = Vec::new();
    ring.consume_batch_owned(&mut collected);

    assert_eq!(collected, vec!["item_0", "item_1", "item_2"]);
    assert!(ring.is_empty());
}

#[test]
fn test_stack_ring_batch_wrap() {
    let mut ring: StackRing<u64, 64> = StackRing::new();
    let mut total_sent = 0u64;
    let mut total_received = 0u64;
    let mut seen = Vec::new();

    // Multiple rounds of write-read to exercise wrap-around
    for round in 0..100 {
        // Write a batch
        let batch_size = (round % 30) + 1;
        let mut sent_this_batch = 0;

        while sent_this_batch < batch_size {
            let mut granted = 0;
            if let Some((run, len)) = ring.reserve(batch_size - sent_this_batch) {
                for i in 0..len {
                    run[i] = Some(total_sent + i as u64);
                }
                granted = len;
            }
            ring.commit(granted);
            sent_this_batch += granted;
            total_sent += granted as u64;
        }

        // Read all
        let mut out = Vec::new();
        ring.consume_batch(&mut out);
        total_received += out.len() as u64;
        seen.extend(out);
    }

    assert_eq!(total_sent, total_received);
    let expected: Vec<u64> = (0..total_sent).collect();
    assert_eq!(seen, expected);
}

#[test]
fn test_stack_ring_string_type() {
    let drops = Rc::new(Cell::new(0usize));

    {
        let mut ring: StackRing<DropTracker, 64> = StackRing::new();

        // Write 20 items
        for i in 0..20 {
            let (run, _) = ring.reserve(1).unwrap();
            run[0] = Some(DropTracker { _id: i, drops: Rc::clone(&drops) });
            ring.commit(1);
        }

        // Consume 10
        let mut out = Vec::new();
        ring.consume_up_to_owned(10, &mut out);
        drop(out);
        assert_eq!(drops.get(), 10);

        // Ring drops with 10 remaining
    }

    assert_eq!(drops.get(), 20);
}

#[test]
fn stack_ring_new_slots_are_vacant() {
    let mut ring: StackRing<u64, 4> = StackRing::new();
    assert!(ring.is_empty());
    assert!(ring.peek().is_none());
    let (run, len) = ring.reserve(4).unwrap();
    assert_eq!(len, 4);
    assert_eq!(run.to_vec(), vec![None, None, None, None]);
    // Dropped without a commit: nothing is published.
    assert!(ring.is_empty());
    let mut out: Vec<u64> = Vec::new();
    assert_eq!(ring.consume_batch(&mut out), 0);
    assert_eq!(ring.consume_up_to(3, &mut out), 0);
    assert_eq!(ring.consume_batch_owned(&mut out), 0);
    assert!(out.is_empty());
}

#[test]
fn stack_ring_refuses_zero_and_more_than_capacity() {
    let mut ring: StackRing<u64, 4> = StackRing::new();
    assert!(ring.reserve(0).is_none());
    assert!(ring.reserve(5).is_none());
    assert!(ring.reserve(4).is_some());
}

// ----- stack channel -----

#[test]
fn test_basic_single_producer() {
    let mut channel: StackChannel<u64, 16, 4> = StackChannel::new();
    let producer = channel.register().unwrap();

    assert!(producer.push(&mut channel, 10));
    assert!(producer.push(&mut channel, 20));
    assert!(producer.push(&mut channel, 30));

    let mut values = Vec::new();
    let consumed = channel.consume_all(&mut values);

    assert_eq!(consumed, 3);
    assert_eq!(values, vec![10, 20, 30]);
}

#[test]
fn test_multi_producer() {
    let mut channel: StackChannel<u64, 16, 4> = StackChannel::new();

    let one = channel.register().unwrap();
    let two = channel.register().unwrap();
    let three = channel.register().unwrap();

    assert_eq!(one.id(), 0);
    assert_eq!(two.id(), 1);
    assert_eq!(three.id(), 2);

    one.push(&mut channel, 100);
    two.push(&mut channel, 200);
    three.push(&mut channel, 300);

    let mut out = Vec::new();
    let consumed = channel.consume_all(&mut out);
    let sum: u64 = out.iter().sum();

    assert_eq!(consumed, 3);
    assert_eq!(sum, 600);
}

#[test]
fn test_too_many_producers() {
    let mut channel: StackChannel<u64, 16, 2> = StackChannel::new();

    let _p1 = channel.register().unwrap();
    let _p2 = channel.register().unwrap();

    // Third should fail
    let result = channel.register();
    assert!(matches!(
        result,
        Err(StackChannelError::TooManyProducers { max: 2 })
    ));
}

#[test]
fn test_closed_channel() {
    let mut channel: StackChannel<u64, 16, 4> = StackChannel::new();

    let producer = channel.register().unwrap();
    assert!(producer.push(&mut channel, 42));

    channel.close();

    // New registration should fail
    assert!(matches!(
        channel.register(),
        Err(StackChannelError::Closed)
    ));

    // Existing producer can't push
    assert!(!producer.push(&mut channel, 99));

    // But we can still consume existing items
    let mut values = Vec::new();
    channel.consume_all(&mut values);
    assert_eq!(values, vec![42]);
}

#[test]
fn test_batch_send() {
    let mut channel: StackChannel<u64, 16, 4> = StackChannel::new();
    let producer = channel.register().unwrap();

    let items = [1, 2, 3, 4, 5];
    let sent = producer.send(&mut channel, &items);
    assert_eq!(sent, 5);

    let mut received = Vec::new();
    channel.consume_all(&mut received);
    assert_eq!(received, vec![1, 2, 3, 4, 5]);
}

#[test]
fn test_consume_all_owned() {
    let mut channel: StackChannel<String, 16, 4> = StackChannel::new();
    let producer = channel.register().unwrap();

    producer.push(&mut channel, "hello".to_string());
    producer.push(&mut channel, "world".to_string());

    let mut owned: Vec<String> = Vec::new();
    channel.consume_all_owned(&mut owned);

    assert_eq!(owned, vec!["hello".to_string(), "world".to_string()]);
}

#[test]
fn test_consume_up_to() {
    let mut channel: StackChannel<u64, 16, 4> = StackChannel::new();

    let one = channel.register().unwrap();
    let two = channel.register().unwrap();

    // one sends 3, two sends 3
    one.send(&mut channel, &[1, 2, 3]);
    two.send(&mut channel, &[4, 5, 6]);

    // Consume at most 4
    let mut out = Vec::new();
    let consumed = channel.consume_all_up_to(4, &mut out);
    let sum: u64 = out.iter().sum();

    assert_eq!(consumed, 4);
    // Should get all 3 from one (1+2+3=6) + 1 from two (4) = 10
    assert_eq!(sum, 10);
}

#[test]
fn test_producer_count() {
    let mut channel: StackChannel<u64, 16, 4> = StackChannel::new();

    assert_eq!(channel.producer_count(), 0);

    let _p1 = channel.register().unwrap();
    assert_eq!(channel.producer_count(), 1);

    let _p2 = channel.register().unwrap();
    assert_eq!(channel.producer_count(), 2);
}

#[test]
fn test_get_ring() {
    let channel: StackChannel<u64, 16, 4> = StackChannel::new();

    // All rings accessible even before registration
    assert!(channel.get_ring(0).is_some());
    assert!(channel.get_ring(3).is_some());
    assert!(channel.get_ring(4).is_none()); // Out of bounds
    // Every ring is new: empty and open.
    for i in 0..4 {
        let ring = channel.get_ring(i).unwrap();
        assert!(ring.is_empty());
        assert!(!ring.is_closed());
        assert_eq!(ring.capacity(), 16);
    }
}

#[test]
fn test_stack_channel_registration_limit() {
    let mut channel: StackChannel<u64, 16, 3> = StackChannel::new();

    let one = channel.register();
    let two = channel.register();
    let three = channel.register();
    let four = channel.register();

    assert!(one.is_ok());
    assert!(two.is_ok());
    assert!(three.is_ok());
    assert!(matches!(
        four,
        Err(StackChannelError::TooManyProducers { max: 3 })
    ));
}

#[test]
fn test_stack_channel_close() {
    let mut channel: StackChannel<u64, 64, 4> = StackChannel::new();

    let producer = channel.register().unwrap();
    producer.push(&mut channel, 100);
    producer.push(&mut channel, 200);

    channel.close();

    // New registration should fail
    assert!(matches!(
        channel.register(),
        Err(StackChannelError::Closed)
    ));

    // Existing producer can't push new items
    assert!(!producer.push(&mut channel, 300));

    // But we can still drain existing items
    let mut values = Vec::new();
    channel.consume_all(&mut values);
    assert_eq!(values, vec![100, 200]);
}

#[test]
fn test_stack_channel_batch_reserve_commit() {
    let mut channel: StackChannel<u64, 128, 2> = StackChannel::new();
    let producer = channel.register().unwrap();

    // Reserve and write a batch
    let mut written = 0;
    if let Some((run, len)) = producer.reserve(&mut channel, 50) {
        assert!(len > 0 && len <= 50);
        for i in 0..len {
            run[i] = Some((i * 10) as u64);
        }
        written = len;
    }
    producer.commit(&mut channel, written);

    let mut values = Vec::new();
    channel.consume_all(&mut values);

    // Verify sequential values
    assert_eq!(values.len(), 50);
    for (i, v) in values.iter().enumerate() {
        assert_eq!(*v, (i * 10) as u64);
    }
}

#[test]
fn test_stack_channel_consume_up_to_limit() {
    let mut channel: StackChannel<u64, 128, 2> = StackChannel::new();

    let one = channel.register().unwrap();
    let two = channel.register().unwrap();

    // one sends 10 items, two sends 10 items
    for i in 0..10 {
        one.push(&mut channel, i);
        two.push(&mut channel, 100 + i);
    }

    // Consume at most 5
    let mut batch1 = Vec::new();
    let consumed1 = channel.consume_all_up_to(5, &mut batch1);
    assert_eq!(consumed1, 5);
    assert_eq!(batch1.len(), 5);

    // Consume another 10
    let mut batch2 = Vec::new();
    let consumed2 = channel.consume_all_up_to(10, &mut batch2);
    assert_eq!(consumed2, 10);

    // Consume rest
    let mut batch3 = Vec::new();
    let consumed3 = channel.consume_all_up_to(100, &mut batch3);
    assert_eq!(consumed3, 5); // 20 total - 5 - 10 = 5 remaining
    assert_eq!(batch1, vec![0, 1, 2, 3, 4]);
    assert_eq!(batch2, vec![5, 6, 7, 8, 9, 100, 101, 102, 103, 104]);
    assert_eq!(batch3, vec![105, 106, 107, 108, 109]);
}

#[test]
fn stack_channel_shape_and_status() {
    let mut channel: StackChannel<u64, 8, 2> = StackChannel::new();
    assert_eq!(channel.ring_capacity(), 8);
    assert_eq!(channel.max_producers(), 2);
    assert!(!channel.is_closed());
    let p = channel.register().unwrap();
    assert_eq!(p.capacity(), 8);
    assert!(p.is_empty(&channel));
    assert_eq!(p.len(&channel), 0);
    assert!(!p.is_closed(&channel));
    assert!(p.push(&mut channel, 1));
    assert_eq!(p.len(&channel), 1);
    assert!(!p.is_empty(&channel));
    p.close(&mut channel);
    assert!(p.is_closed(&channel));
    assert!(!channel.is_closed());
    assert!(!p.push(&mut channel, 2));
}

#[test]
fn stack_channel_send_is_all_or_nothing_across_the_wrap() {
    let mut channel: StackChannel<u64, 8, 1> = StackChannel::new();
    let p = channel.register().unwrap();
    assert_eq!(p.send(&mut channel, &[1, 2, 3, 4, 5, 6]), 6);
    let mut out = Vec::new();
    assert_eq!(channel.consume_all_up_to(4, &mut out), 4);
    // Six slots are free, two of them before the end of the buffer.
    assert_eq!(p.send(&mut channel, &[7, 8, 9, 10, 11, 12, 13]), 0);
    assert_eq!(p.send(&mut channel, &[7, 8, 9, 10]), 4);
    assert_eq!(p.send(&mut channel, &[]), 0);
    let mut out = Vec::new();
    assert_eq!(channel.consume_all_owned(&mut out), 6);
    assert_eq!(out, vec![5, 6, 7, 8, 9, 10]);
}

#[test]
fn test_stack_channel_per_producer_fifo() {
    const NUM_PRODUCERS: usize = 4;
    const ITEMS_PER_PRODUCER: usize = 1000;

    let mut channel: StackChannel<(usize, usize), 256, 4> = StackChannel::new();
    let mut producers = Vec::new();
    for _ in 0..NUM_PRODUCERS {
        producers.push(channel.register().unwrap());
    }

    // Track last seen sequence per producer
    let mut last_seq: Vec<Option<usize>> = vec![None; NUM_PRODUCERS];
    let mut total_received = 0;

    // The producers take turns; the consumer runs when a ring is full.
    for seq in 0..ITEMS_PER_PRODUCER {
        for producer in &producers {
            while !producer.push(&mut channel, (producer.id(), seq)) {
                let mut out = Vec::new();
                total_received += channel.consume_all(&mut out);
                for (producer_id, seq) in out {
                    match last_seq[producer_id] {
                        Some(prev) => assert_eq!(seq, prev + 1),
                        None => assert_eq!(seq, 0),
                    }
                    last_seq[producer_id] = Some(seq);
                }
            }
        }
    }
    let mut out = Vec::new();
    total_received += channel.consume_all(&mut out);
    for (producer_id, seq) in out {
        match last_seq[producer_id] {
            Some(prev) => assert_eq!(seq, prev + 1),
            None => assert_eq!(seq, 0),
        }
        last_seq[producer_id] = Some(seq);
    }

    assert_eq!(total_received, NUM_PRODUCERS * ITEMS_PER_PRODUCER);
    for producer_id in 0..NUM_PRODUCERS {
        assert_eq!(last_seq[producer_id], Some(ITEMS_PER_PRODUCER - 1));
    }
}

#[test]
fn test_stack_channel_owned_strings() {
    let mut channel: StackChannel<String, 64, 4> = StackChannel::new();
    let mut producers = Vec::new();
    for _ in 0..4 {
        producers.push(channel.register().unwrap());
    }

    let mut owned_messages: Vec<String> = Vec::new();
    let mut count = 0;
    for j in 0..100 {
        for (i, producer) in producers.iter().enumerate() {
            let msg = format!("producer_{}_msg_{}", i, j);
            while !producer.push(&mut channel, msg.clone()) {
                count += channel.consume_all_owned(&mut owned_messages);
            }
        }
    }
    count += channel.consume_all_owned(&mut owned_messages);

    assert_eq!(count, 400);
    assert_eq!(owned_messages.len(), 400);

    // Verify format
    for msg in &owned_messages {
        assert!(msg.starts_with("producer_"));
        assert!(msg.contains("_msg_"));
    }
}

#[test]
fn test_stack_ring_fifo_order() {
    let mut ring: StackRing<u64, 1024> = StackRing::new();
    let mut expected = 0u64;
    let mut violations = 0u64;

    for i in 0..10_000u64 {
        loop {
            let mut granted = 0;
            if let Some((run, len)) = ring.reserve(1) {
                run[0] = Some(i);
                granted = len;
            }
            if granted > 0 {
                ring.commit(granted);
                break;
            }
            // The ring is full: the consumer runs.
            let mut out = Vec::new();
            ring.consume_batch(&mut out);
            for v in out {
                if v != expected {
                    violations += 1;
                }
                expected += 1;
            }
        }
    }
    ring.close();
    loop {
        let mut out = Vec::new();
        let consumed = ring.consume_batch(&mut out);
        for v in out {
            if v != expected {
                violations += 1;
            }
            expected += 1;
        }
        if consumed == 0 && ring.is_closed() && ring.is_empty() {
            break;
        }
    }

    assert_eq!(violations, 0, "FIFO order violated");
    assert_eq!(expected, 10_000);
}
