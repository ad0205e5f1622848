use ringmpsc::{Channel, ChannelError, Config, Ring};

#[test]
fn channel_test_channel_multi_producer() {
    let mut ch = Channel::<u64>::new(Config::default());

    let one = ch.register().unwrap();
    let two = ch.register().unwrap();

    assert_eq!(one.send(&mut ch, &[10, 11]), 2);
    assert_eq!(two.send(&mut ch, &[20, 21]), 2);

    let mut out = [0u64; 10];
    let n = ch.recv(&mut out);
    assert_eq!(n, 4);
    assert_eq!(out, [10, 11, 20, 21, 0, 0, 0, 0, 0, 0]);
}

#[test]
fn test_channel_multi_producer() {
    let mut ch = Channel::<u64>::new(Config::default());

    let one = ch.register().unwrap();
    let two = ch.register().unwrap();

    assert_eq!(one.send(&mut ch, &[10, 11]), 2);
    assert_eq!(two.send(&mut ch, &[20, 21]), 2);

    let mut out = [0u64; 10];
    let n = ch.recv(&mut out);
    assert_eq!(n, 4);
}

#[test]
fn channel_test_channel_consume_all() {
    let mut ch = Channel::<u64>::new(Config::default());

    let one = ch.register().unwrap();
    let two = ch.register().unwrap();

    assert_eq!(one.send(&mut ch, &[1, 2, 3]), 3);
    assert_eq!(two.send(&mut ch, &[4, 5, 6]), 3);

    let mut out = Vec::new();
    let consumed = ch.consume_all(&mut out);
    let sum: u64 = out.iter().sum();

    assert_eq!(consumed, 6);
    assert_eq!(sum, 21);
}

#[test]
fn test_channel_consume_all() {
    let mut ch = Channel::<u64>::new(Config::default());

    let one = ch.register().unwrap();
    let two = ch.register().unwrap();

    assert_eq!(one.send(&mut ch, &[1, 2, 3]), 3);
    assert_eq!(two.send(&mut ch, &[4, 5, 6]), 3);

    let mut out = Vec::new();
    let consumed = ch.consume_all_owned(&mut out);
    let sum: u64 = out.iter().sum();

    assert_eq!(consumed, 6);
    assert_eq!(sum, 21);
}

#[test]
fn channel_test_channel_consume_up_to() {
    let mut ch = Channel::<u64>::new(Config::default());

    let one = ch.register().unwrap();
    let two = ch.register().unwrap();

    assert_eq!(one.send(&mut ch, &[1, 2, 3]), 3);
    assert_eq!(two.send(&mut ch, &[4, 5, 6]), 3);

    let mut out = Vec::new();
    let consumed = ch.consume_all_up_to(4, &mut out);
    let sum: u64 = out.iter().sum();

    assert_eq!(consumed, 4);
    // one first: 1+2+3+4=10
    assert!(sum >= 10);
    assert_eq!(out, vec![1, 2, 3, 4]);
}

#[test]
fn test_channel_consume_up_to() {
    let mut ch = Channel::<u64>::new(Config::default());

    let one = ch.register().unwrap();
    let two = ch.register().unwrap();

    assert_eq!(one.send(&mut ch, &[1, 2, 3]), 3);
    assert_eq!(two.send(&mut ch, &[4, 5, 6]), 3);

    let mut out = Vec::new();
    let consumed = ch.consume_all_up_to_owned(4, &mut out);
    let sum: u64 = out.iter().sum();

    assert_eq!(consumed, 4);
    assert!(sum >= 10);
}

#[test]
fn channel_test_channel_too_many_producers() {
    let config = Config::new(16, 2, false); // max 2 producers
    let mut ch = Channel::<u64>::new(config);

    let _p1 = ch.register().unwrap();
    let _p2 = ch.register().unwrap();

    // Should fail
    assert!(matches!(ch.register(), Err(ChannelError::TooManyProducers { max: 2 })));
}

#[test]
fn test_channel_too_many_producers() {
    let config = Config::new(16, 2, false); // max 2 producers
    let mut ch = Channel::<u64>::new(config);

    let _p1 = ch.register().unwrap();
    let _p2 = ch.register().unwrap();

    // Should fail, and a refusal keeps the count where it was
    assert!(matches!(ch.register(), Err(ChannelError::TooManyProducers { max: 2 })));
    assert_eq!(ch.producer_count(), 2);
}

#[test]
fn channel_test_channel_closed() {
    let mut ch = Channel::<u64>::new(Config::default());
    ch.close();

    assert!(matches!(ch.register(), Err(ChannelError::Closed)));
}

#[test]
fn test_channel_closed() {
    let mut ch = Channel::<u64>::new(Config::default());
    assert!(!ch.is_closed());
    ch.close();
    assert!(ch.is_closed());

    assert!(matches!(ch.register(), Err(ChannelError::Closed)));
}

#[test]
fn test_ring_full() {
    let config = Config::new(4, 16, false); // 16 slots
    let mut ring = Ring::<u64>::new(config);

    // Fill it
    for i in 0..16 {
        if let Some(mut r) = ring.reserve(1) {
            r.as_mut_slice()[0] = Some(i);
            r.commit();
        }
    }
    assert!(ring.is_full());

    // Should fail
    assert!(ring.reserve(1).is_none());
}

#[test]
fn miri_channel_multi_producer() {
    let config = Config::new(4, 4, false);
    let mut channel = Channel::<u64>::new(config);

    // Register multiple producers
    let one = channel.register().unwrap();
    let two = channel.register().unwrap();

    // Send from both
    assert!(one.push(&mut channel, 1));
    assert!(one.push(&mut channel, 2));
    assert!(two.push(&mut channel, 10));
    assert!(two.push(&mut channel, 20));

    // Consume all
    let mut out = Vec::new();
    channel.consume_all(&mut out);
    let sum: u64 = out.iter().sum();
    assert_eq!(sum, 33);
}

#[test]
fn integration_tests_test_fifo_ordering_single_producer() {
    let mut channel = Channel::<u64>::new(Config::default());
    let producer = channel.register().unwrap();

    const N: u64 = 10_000;

    // Send N items
    for i in 0..N {
        if let Some(mut r) = producer.reserve(&mut channel, 1) {
            r.as_mut_slice()[0] = Some(i);
            r.commit();
        }
    }

    // Verify FIFO order
    let mut out = Vec::new();
    let consumed = channel.consume_all(&mut out);
    let mut expected = 0;
    for item in &out {
        assert_eq!(*item, expected, "FIFO violation: expected {}, got {}", expected, item);
        expected += 1;
    }

    assert_eq!(consumed, N as usize);
    assert_eq!(expected, N);
}

#[test]
fn test_fifo_ordering_single_producer() {
    let mut channel = Channel::<u64>::new(Config::default());
    let producer = channel.register().unwrap();

    const N: u64 = 10_000;

    for i in 0..N {
        assert!(producer.push(&mut channel, i));
    }

    let mut out = Vec::new();
    let consumed = channel.consume_all_owned(&mut out);
    let expected: Vec<u64> = (0..N).collect();
    assert_eq!(consumed, N as usize);
    assert_eq!(out, expected);
}

#[test]
fn test_fifo_ordering_multi_producer() {
    const N_PRODUCERS: usize = 4;
    const ITEMS_PER_PRODUCER: u64 = 5_000;

    let mut channel = Channel::<(usize, u64)>::new(Config::default());
    let mut producers = Vec::new();
    for _ in 0..N_PRODUCERS {
        producers.push(channel.register().unwrap());
    }

    // The producers take turns
    for i in 0..ITEMS_PER_PRODUCER {
        for producer in &producers {
            if let Some(mut r) = producer.reserve(&mut channel, 1) {
                r.as_mut_slice()[0] = Some((producer.id(), i));
                r.commit();
            }
        }
    }

    // Verify per-producer FIFO
    let mut last_seen = vec![0u64; N_PRODUCERS];
    let mut out = Vec::new();
    let consumed = channel.consume_all(&mut out);
    for (producer_id, value) in &out {
        assert_eq!(
            *value, last_seen[*producer_id],
            "FIFO violation for producer {}: expected {}, got {}",
            producer_id, last_seen[*producer_id], value
        );
        last_seen[*producer_id] += 1;
    }

    assert_eq!(consumed, N_PRODUCERS * ITEMS_PER_PRODUCER as usize);
    for (id, &count) in last_seen.iter().enumerate() {
        assert_eq!(
            count, ITEMS_PER_PRODUCER,
            "Producer {} sent {} items instead of {}",
            id, count, ITEMS_PER_PRODUCER
        );
    }
}

#[test]
fn test_batch_operations() {
    let mut channel = Channel::<u64>::new(Config::default());
    let producer = channel.register().unwrap();

    // Send in batches
    const BATCH_SIZE: usize = 100;
    const N_BATCHES: usize = 100;

    for batch in 0..N_BATCHES {
        if let Some(mut r) = producer.reserve(&mut channel, BATCH_SIZE) {
            let slice = r.as_mut_slice();
            for i in 0..slice.len() {
                slice[i] = Some((batch * BATCH_SIZE + i) as u64);
            }
            r.commit();
        }
    }

    // Consume in batches
    let mut received = vec![];
    let consumed = channel.consume_all(&mut received);

    assert_eq!(consumed, BATCH_SIZE * N_BATCHES);
    assert_eq!(received.len(), BATCH_SIZE * N_BATCHES);

    // Verify order
    for (i, &val) in received.iter().enumerate() {
        assert_eq!(val, i as u64);
    }
}

#[test]
fn integration_tests_test_wrap_around() {
    // Small ring to force wrap-around
    let config = Config::new(8, 16, false); // 256 slots
    let mut channel = Channel::<u64>::new(config);
    let producer = channel.register().unwrap();

    const N: usize = 10_000; // Much larger than capacity

    // Interleaved send/receive to force wrapping
    let mut drained = Vec::new();
    for i in 0..N {
        if let Some(mut r) = producer.reserve(&mut channel, 1) {
            r.as_mut_slice()[0] = Some(i as u64);
            r.commit();
        }

        if i % 10 == 0 {
            channel.consume_all(&mut drained);
        }
    }

    // Consume remaining
    let mut rest = Vec::new();
    let received = channel.consume_all(&mut rest);

    assert!(received > 0);
    assert_eq!(received, 9);
    drained.extend(rest);
    let expected: Vec<u64> = (0..N as u64).collect();
    assert_eq!(drained, expected);
}

#[test]
fn test_consume_up_to_limit() {
    let mut channel = Channel::<u64>::new(Config::default());
    let producer = channel.register().unwrap();

    // Send 1000 items
    for i in 0..1000 {
        if let Some(mut r) = producer.reserve(&mut channel, 1) {
            r.as_mut_slice()[0] = Some(i);
            r.commit();
        }
    }

    // Consume in chunks of 100
    let mut total = 0;
    let mut out = Vec::new();
    for _ in 0..10 {
        let consumed = channel.consume_all_up_to(100, &mut out);
        assert!(consumed <= 100);
        total += consumed;
    }

    assert_eq!(total, 1000);
    let expected: Vec<u64> = (0..1000).collect();
    assert_eq!(out, expected);
}

// ----- the rules of the channel -----

#[test]
fn channel_starts_open_with_no_producer() {
    let mut ch = Channel::<u64>::new(Config::new(2, 3, false));
    assert!(!ch.is_closed());
    assert_eq!(ch.producer_count(), 0);
    let mut out = vec![1];
    assert_eq!(ch.consume_all(&mut out), 0);
    assert_eq!(ch.consume_all_up_to(5, &mut out), 0);
    assert_eq!(ch.consume_all_owned(&mut out), 0);
    assert_eq!(ch.consume_all_up_to_owned(5, &mut out), 0);
    assert_eq!(out, vec![1]);
    assert!(ch.get_ring(0).is_some());
    assert!(ch.get_ring(2).is_some());
    assert!(ch.get_ring(3).is_none());
    assert_eq!(ch.get_ring(1).unwrap().capacity(), 4);
}

#[test]
fn channel_registration_at_the_cap_and_one_past_it() {
    let mut ch = Channel::<u64>::new(Config::new(2, 3, false));
    let zero = ch.register().unwrap();
    let one = ch.register().unwrap();
    assert_eq!(ch.producer_count(), 2);
    let two = ch.register().unwrap();
    assert_eq!(ch.producer_count(), 3);
    assert_eq!((zero.id(), one.id(), two.id()), (0, 1, 2));
    assert_eq!(ch.register().err(), Some(ChannelError::TooManyProducers { max: 3 }));
    assert_eq!(ch.register().err(), Some(ChannelError::TooManyProducers { max: 3 }));
    assert_eq!(ch.producer_count(), 3);
    // A closed channel says so, whatever its count.
    ch.close();
    assert_eq!(ch.register().err(), Some(ChannelError::Closed));
}

#[test]
fn channel_two_producers_drain_in_ring_order() {
    let mut ch = Channel::<u64>::new(Config::new(4, 2, false)); // capacity 16
    let one = ch.register().unwrap();
    let two = ch.register().unwrap();
    // The sends interleave in time; the drain goes ring by ring.
    assert!(two.push(&mut ch, 4));
    assert!(one.push(&mut ch, 1));
    assert!(two.push(&mut ch, 5));
    assert!(one.push(&mut ch, 2));
    assert!(one.push(&mut ch, 3));
    assert!(two.push(&mut ch, 6));
    let mut out = Vec::new();
    assert_eq!(ch.consume_all(&mut out), 6);
    assert_eq!(out, vec![1, 2, 3, 4, 5, 6]);
}

#[test]
fn channel_closed_after_items_yields_them_then_nothing() {
    let mut ch = Channel::<u64>::new(Config::new(3, 2, false));
    let one = ch.register().unwrap();
    let two = ch.register().unwrap();
    assert_eq!(one.send(&mut ch, &[1, 2, 3]), 3);
    assert_eq!(two.send(&mut ch, &[4, 5]), 2);
    ch.close();
    assert!(one.is_closed(&ch));
    assert!(two.is_closed(&ch));
    assert!(!one.push(&mut ch, 9));
    assert_eq!(two.send(&mut ch, &[9]), 0);
    assert!(one.reserve(&mut ch, 1).is_none());
    assert!(one.reserve_with_backoff(&mut ch, 1).is_none());
    // Closing again changes nothing.
    ch.close();
    let mut out = Vec::new();
    assert_eq!(ch.consume_all_up_to_owned(2, &mut out), 2);
    assert_eq!(ch.consume_all_owned(&mut out), 3);
    assert_eq!(out, vec![1, 2, 3, 4, 5]);
    assert_eq!(ch.consume_all_owned(&mut out), 0);
    assert_eq!(out.len(), 5);
}

#[test]
fn channel_producer_close_closes_its_ring_alone() {
    let mut ch = Channel::<u64>::new(Config::new(3, 2, false));
    let one = ch.register().unwrap();
    let two = ch.register().unwrap();
    assert!(!one.is_closed(&ch));
    one.close(&mut ch);
    assert!(one.is_closed(&ch));
    assert!(!two.is_closed(&ch));
    assert!(!ch.is_closed());
    assert!(!one.push(&mut ch, 1));
    assert!(two.push(&mut ch, 2));
    assert!(ch.get_ring(0).unwrap().is_closed());
    assert!(!ch.get_ring(1).unwrap().is_closed());
}

#[test]
fn channel_refuses_a_handle_it_did_not_hand_out() {
    let mut wide = Channel::<u64>::new(Config::new(2, 3, false));
    let _a = wide.register().unwrap();
    let b = wide.register().unwrap();
    let mut narrow = Channel::<u64>::new(Config::new(2, 3, false));
    let _c = narrow.register().unwrap();
    assert_eq!(b.id(), 1);
    assert!(!b.push(&mut narrow, 1));
    assert_eq!(b.send(&mut narrow, &[1, 2]), 0);
    assert!(b.reserve(&mut narrow, 1).is_none());
    assert!(b.is_closed(&narrow));
    b.close(&mut narrow);
    assert!(narrow.get_ring(1).unwrap().is_empty());
    assert!(!narrow.get_ring(1).unwrap().is_closed());
}

#[test]
fn channel_recv_fills_the_buffer_ring_by_ring() {
    let mut ch = Channel::<u64>::new(Config::new(3, 3, false));
    let one = ch.register().unwrap();
    let two = ch.register().unwrap();
    let three = ch.register().unwrap();
    assert_eq!(one.send(&mut ch, &[1, 2]), 2);
    assert_eq!(two.send(&mut ch, &[3, 4, 5]), 3);
    assert_eq!(three.send(&mut ch, &[6]), 1);
    let mut out = [0u64; 4];
    assert_eq!(ch.recv(&mut out), 4);
    assert_eq!(out, [1, 2, 3, 4]);
    let mut out = [0u64; 4];
    assert_eq!(ch.recv(&mut out), 2);
    assert_eq!(out, [5, 6, 0, 0]);
}

#[test]
fn channel_metrics_sum_over_registered_rings() {
    let mut ch = Channel::<u64>::new(Config::new(3, 2, true));
    let one = ch.register().unwrap();
    let two = ch.register().unwrap();
    assert_eq!(one.send(&mut ch, &[1, 2, 3]), 3);
    assert!(two.push(&mut ch, 4));
    assert!(two.push(&mut ch, 5));
    let mut out = Vec::new();
    assert_eq!(ch.consume_all(&mut out), 5);
    let m = ch.metrics();
    assert_eq!(m.messages_sent, 5);
    assert_eq!(m.batches_sent, 3);
    assert_eq!(m.messages_received, 5);
    assert_eq!(m.batches_received, 2);
}
