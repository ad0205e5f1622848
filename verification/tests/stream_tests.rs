use ringmpsc::stream::{
    channel, channel_with_stream_config, NextStep, RingReceiver, SendProgress, SenderFactory,
    ShutdownState, StreamConfig, StreamError,
};
use ringmpsc::{ChannelError, Config};

/// What a task that awaits the next item of the stream would get: `Some(Some(item))`
/// for an item, `Some(None)` at the end of the stream, `None` where the task would
/// sleep. The timer is taken to have fired whenever the receiver looks at it.
fn next<T>(rx: &mut RingReceiver<T>, hub: &mut SenderFactory<T>) -> Option<Option<T>> {
    loop {
        match rx.poll_next(hub) {
            NextStep::Item(item) => return Some(Some(item)),
            NextStep::End => return Some(None),
            NextStep::Repoll => continue,
            NextStep::Pending => return None,
            NextStep::Timer => match rx.after_timer(hub, true) {
                NextStep::Item(item) => return Some(Some(item)),
                NextStep::End => return Some(None),
                _ => return None,
            },
        }
    }
}

/// Everything the stream yields until it ends or would sleep.
fn collect<T>(rx: &mut RingReceiver<T>, hub: &mut SenderFactory<T>) -> (Vec<T>, bool) {
    let mut received = Vec::new();
    loop {
        match next(rx, hub) {
            Some(Some(item)) => received.push(item),
            Some(None) => return (received, true),
            None => return (received, false),
        }
    }
}

fn sent<T>(progress: SendProgress<T>) -> bool {
    matches!(progress, SendProgress::Done(Ok(())))
}

#[test]
fn test_basic_send_receive() {
    let (mut factory, mut rx) = channel::<u64>(Config::default());
    let tx = factory.register().expect("registration failed");

    // Send items
    assert!(sent(tx.send(&mut factory, 1)));
    assert!(sent(tx.send(&mut factory, 2)));
    assert!(sent(tx.send(&mut factory, 3)));

    // Close sender to signal no more items
    tx.close(&mut factory);
    factory.close();

    // Receive items
    let (received, ended) = collect(&mut rx, &mut factory);

    assert_eq!(received, vec![1, 2, 3]);
    assert!(ended);
}

#[test]
fn test_try_send_preserves_item_on_full() {
    // Create a small ring buffer
    let config = Config::new(2, 1, false); // 4 slots, 1 producer, no metrics
    let (mut factory, _rx) = channel::<u64>(config);
    let tx = factory.register().expect("registration failed");

    // Fill the ring
    for i in 0..4 {
        tx.try_send(&mut factory, i).expect("should succeed");
    }

    // Next send should fail and return the item
    let result = tx.try_send(&mut factory, 100);
    assert!(result.is_err());
    assert_eq!(result.unwrap_err(), 100); // Item preserved!
}

#[test]
fn test_multiple_producers() {
    let (mut factory, mut rx) = channel::<u64>(Config::default());

    // Register multiple senders
    let tx1 = factory.register().expect("registration failed");
    let tx2 = factory.register().expect("registration failed");

    // Send from both producers
    assert!(sent(tx1.send(&mut factory, 10)));
    assert!(sent(tx2.send(&mut factory, 20)));
    assert!(sent(tx1.send(&mut factory, 11)));
    assert!(sent(tx2.send(&mut factory, 21)));

    // Close senders
    tx1.close(&mut factory);
    tx2.close(&mut factory);
    factory.close();

    // Receive all items
    let (received, ended) = collect(&mut rx, &mut factory);
    assert!(ended);

    assert_eq!(received.len(), 4);
    assert!(received.contains(&10));
    assert!(received.contains(&11));
    assert!(received.contains(&20));
    assert!(received.contains(&21));
    // Ring by ring, each producer's items in its order.
    assert_eq!(received, vec![10, 11, 20, 21]);
}

#[test]
fn test_sink_trait() {
    let (mut factory, mut rx) = channel::<u64>(Config::default());
    let mut tx = factory.register().expect("registration failed");

    // The rounds of a sink send: ready, start, flush
    assert_eq!(tx.poll_ready(&mut factory), Some(Ok(())));
    assert_eq!(tx.start_send(&mut factory, 42), Ok(()));
    assert_eq!(tx.poll_flush(&mut factory), Some(Ok(())));
    tx.close(&mut factory);

    factory.close();

    // Receive
    let item = next(&mut rx, &mut factory);
    assert_eq!(item, Some(Some(42)));
}

#[test]
fn test_graceful_shutdown() {
    let (mut factory, mut rx) = channel::<u64>(Config::default());
    let tx = factory.register().expect("registration failed");

    // Send some items
    assert!(sent(tx.send(&mut factory, 1)));
    assert!(sent(tx.send(&mut factory, 2)));

    // Trigger shutdown
    rx.shutdown(&mut factory);
    assert!(rx.is_shutdown(&factory));

    // Should still receive items
    let (received, ended) = collect(&mut rx, &mut factory);

    assert_eq!(received, vec![1, 2]);
    assert!(ended);
    // The stream stays ended.
    assert_eq!(next(&mut rx, &mut factory), Some(None));
}

#[test]
fn test_stream_config() {
    let config = StreamConfig::low_latency();
    assert_eq!(config.poll_interval_ms, 1);
    assert_eq!(config.batch_hint, 16);

    let config = StreamConfig::high_throughput();
    assert_eq!(config.poll_interval_ms, 50);
    assert_eq!(config.batch_hint, 256);

    let config = StreamConfig::default().with_poll_interval(5).with_batch_hint(128);
    assert_eq!(config.poll_interval_ms, 5);
    assert_eq!(config.batch_hint, 128);

    let config = StreamConfig::default();
    assert_eq!(config.poll_interval_ms, 10);
    assert_eq!(config.batch_hint, 64);
}

#[test]
fn test_closed_channel_error() {
    let (mut factory, _rx) = channel::<u64>(Config::default());
    let tx = factory.register().expect("registration failed");

    // Close the factory
    factory.close();
    assert!(factory.is_closed());

    // New registrations should fail
    let result = factory.register();
    assert!(result.is_err());
    assert_eq!(result.err(), Some(StreamError::Closed));

    // Existing sender detects closure
    assert!(tx.is_closed(&factory));
    assert_eq!(tx.try_send(&mut factory, 7), Err(7));
    assert!(matches!(tx.send(&mut factory, 7), SendProgress::Done(Err(StreamError::Closed))));
    tx.close(&mut factory);
}

#[test]
fn integration_test_fifo_ordering_single_producer() {
    let (mut factory, mut rx) = channel::<u64>(Config::default());
    let tx = factory.register().expect("registration failed");

    // Send items in order
    for i in 0..100 {
        assert!(sent(tx.send(&mut factory, i)));
    }

    tx.close(&mut factory);
    factory.close();

    // Receive and verify order
    let mut prev = None;
    while let Some(Some(item)) = next(&mut rx, &mut factory) {
        if let Some(p) = prev {
            assert!(item > p, "FIFO violation: {} came after {}", item, p);
        }
        prev = Some(item);
    }

    assert_eq!(prev, Some(99));
}

// ----- the steps of the adapter -----

#[test]
fn stream_error_kinds() {
    assert!(StreamError::Full.is_recoverable());
    assert!(!StreamError::Closed.is_recoverable());
    assert!(!StreamError::ShutDown.is_recoverable());
    assert!(!StreamError::RegistrationFailed(ChannelError::Closed).is_recoverable());
    assert!(!StreamError::Full.is_terminal());
    assert!(StreamError::Closed.is_terminal());
    assert!(StreamError::ShutDown.is_terminal());
    assert!(!StreamError::RegistrationFailed(ChannelError::Closed).is_terminal());
    assert_eq!(
        StreamError::from(ChannelError::TooManyProducers { max: 3 }),
        StreamError::RegistrationFailed(ChannelError::TooManyProducers { max: 3 })
    );
}

#[test]
fn shutdown_state_flags_are_set_once() {
    let mut state = ShutdownState::new();
    assert!(!state.is_closed());
    assert!(!state.is_shutdown_initiated());
    state.close();
    assert!(state.is_closed());
    assert!(!state.is_shutdown_initiated());
    state.initiate_shutdown();
    state.close();
    assert!(state.is_closed());
    assert!(state.is_shutdown_initiated());
}

#[test]
fn stream_registration_passes_the_channel_refusal_on() {
    let (mut factory, _rx) = channel::<u64>(Config::new(2, 2, false));
    let a = factory.register().unwrap();
    let b = factory.register().unwrap();
    assert_eq!(factory.producer_count(), 2);
    assert!(!a.is_closed(&factory));
    assert!(!b.is_closed(&factory));
    assert_eq!(
        factory.register().err(),
        Some(StreamError::RegistrationFailed(ChannelError::TooManyProducers { max: 2 }))
    );
    assert_eq!(factory.producer_count(), 2);
}

#[test]
fn stream_successful_send_pulses_data_arrived() {
    let (mut factory, mut rx) = channel::<u64>(Config::new(2, 1, false));
    let tx = factory.register().unwrap();
    assert!(!factory.data_arrived());
    assert_eq!(tx.try_send(&mut factory, 1), Ok(()));
    assert!(factory.data_arrived());
    // The receiver takes the pulse, then takes the item.
    assert!(matches!(rx.poll_next(&mut factory), NextStep::Repoll));
    assert!(!factory.data_arrived());
    assert!(matches!(rx.poll_next(&mut factory), NextStep::Item(1)));
    // A refused send pulses nothing.
    for i in 0..4 {
        assert_eq!(tx.try_send(&mut factory, i), Ok(()));
    }
    assert!(factory.data_arrived());
    assert!(matches!(rx.poll_next(&mut factory), NextStep::Repoll));
    assert_eq!(tx.try_send(&mut factory, 9), Err(9));
    assert!(!factory.data_arrived());
}

#[test]
fn stream_drain_pulses_space_available() {
    let (mut factory, mut rx) = channel::<u64>(Config::new(2, 1, false));
    let tx = factory.register().unwrap();
    // Nothing in flight: a poll drains nothing and pulses nothing.
    assert!(matches!(rx.poll_next(&mut factory), NextStep::Timer));
    assert!(matches!(rx.after_timer(&mut factory, true), NextStep::Pending));
    assert!(!factory.take_space_available());

    assert_eq!(tx.try_send(&mut factory, 1), Ok(()));
    assert_eq!(tx.try_send(&mut factory, 2), Ok(()));
    assert!(matches!(rx.poll_next(&mut factory), NextStep::Repoll));
    assert!(!factory.take_space_available());
    assert!(matches!(rx.poll_next(&mut factory), NextStep::Item(1)));
    assert_eq!(rx.buffered_count(), 1);
    // The drain of two items pulsed once; the pulse is taken once.
    assert!(factory.take_space_available());
    assert!(!factory.take_space_available());
    // An item from the buffer comes without a drain.
    assert!(matches!(rx.poll_next(&mut factory), NextStep::Item(2)));
    assert!(!factory.take_space_available());
    assert_eq!(rx.buffered_count(), 0);
}

#[test]
fn stream_timer_drains_without_a_pulse() {
    let (mut factory, mut rx) = channel::<u64>(Config::new(2, 1, false));
    let tx = factory.register().unwrap();
    assert!(matches!(rx.poll_next(&mut factory), NextStep::Timer));
    assert_eq!(tx.try_send(&mut factory, 5), Ok(()));
    // The timer has not fired and the stream is open: the receiver sleeps.
    assert!(matches!(rx.after_timer(&mut factory, false), NextStep::Pending));
    // The timer has fired: the receiver drains.
    assert!(matches!(rx.after_timer(&mut factory, true), NextStep::Item(5)));
    assert!(factory.take_space_available());
}

#[test]
fn stream_batch_hint_caps_a_drain() {
    let settings = StreamConfig::default().with_batch_hint(3);
    let (mut factory, mut rx) = channel_with_stream_config::<u64>(Config::new(3, 1, false), settings);
    let tx = factory.register().unwrap();
    for i in 0..8 {
        assert_eq!(tx.try_send(&mut factory, i), Ok(()));
    }
    assert!(matches!(rx.poll_next(&mut factory), NextStep::Repoll));
    assert!(matches!(rx.poll_next(&mut factory), NextStep::Item(0)));
    assert_eq!(rx.buffered_count(), 2);
    // Five are still in the ring: three slots are free.
    assert_eq!(tx.try_send(&mut factory, 8), Ok(()));
    assert_eq!(tx.try_send(&mut factory, 9), Ok(()));
    assert_eq!(tx.try_send(&mut factory, 10), Ok(()));
    assert_eq!(tx.try_send(&mut factory, 11), Err(11));
    let (received, ended) = collect(&mut rx, &mut factory);
    assert_eq!(received, vec![1, 2, 3, 4, 5, 6, 7, 8, 9, 10]);
    assert!(!ended);
}

#[test]
fn stream_blocked_sender_completes_after_a_drain() {
    let (mut factory, mut rx) = channel::<u64>(Config::new(2, 1, false)); // capacity 4
    let tx = factory.register().unwrap();
    for i in 0..4 {
        assert!(sent(tx.send(&mut factory, i)));
    }
    // The ring is full: the send is blocked and the item comes back.
    let item = match tx.send(&mut factory, 4) {
        SendProgress::Blocked(item) => item,
        _ => panic!("the send should be blocked"),
    };
    assert_eq!(item, 4);
    // The consumer drains and pulses space-available.
    assert_eq!(next(&mut rx, &mut factory), Some(Some(0)));
    assert!(factory.take_space_available());
    // The sender wakes and completes.
    assert!(sent(tx.send(&mut factory, item)));
    let (received, ended) = collect(&mut rx, &mut factory);
    assert_eq!(received, vec![1, 2, 3, 4]);
    assert!(!ended);
}

#[test]
fn stream_twenty_items_through_a_ring_of_four() {
    let (mut factory, mut rx) = channel::<u64>(Config::new(2, 1, false)); // capacity 4
    let tx = factory.register().unwrap();
    let mut received = Vec::new();
    let mut blocked = 0;
    for i in 0..20u64 {
        let mut item = i;
        loop {
            match tx.send(&mut factory, item) {
                SendProgress::Done(result) => {
                    assert_eq!(result, Ok(()));
                    break;
                }
                SendProgress::Blocked(back) => {
                    // The sender waits; the consumer runs.
                    assert_eq!(back, i);
                    item = back;
                    blocked += 1;
                    let buffered = rx.buffered_count();
                    match next(&mut rx, &mut factory) {
                        Some(Some(value)) => received.push(value),
                        _ => panic!("the stream should yield an item"),
                    }
                    // An item from the buffer comes without a drain and without a
                    // pulse; an item from the rings comes with both.
                    assert_eq!(factory.take_space_available(), buffered == 0);
                }
            }
        }
    }
    let (rest, ended) = collect(&mut rx, &mut factory);
    received.extend(rest);
    let expected: Vec<u64> = (0..20).collect();
    assert_eq!(received, expected);
    assert!(blocked > 0);
    assert!(!ended);
}

#[test]
fn stream_shutdown_while_sender_is_blocked() {
    let (mut factory, mut rx) = channel::<u64>(Config::new(2, 1, false)); // capacity 4
    let tx = factory.register().unwrap();
    for i in 0..4 {
        assert!(sent(tx.send(&mut factory, i)));
    }
    let item = match tx.send(&mut factory, 4) {
        SendProgress::Blocked(item) => item,
        _ => panic!("the send should be blocked"),
    };
    // Shutdown pulses space-available so that the blocked sender looks again.
    rx.shutdown(&mut factory);
    assert!(factory.take_space_available());
    assert!(factory.is_closed());
    // The sender sees the closure: Closed, not Full.
    assert!(matches!(tx.send(&mut factory, item), SendProgress::Done(Err(StreamError::Closed))));
    assert_eq!(tx.try_send(&mut factory, 4), Err(4));
    // The stream drains what was in flight, then ends.
    let (received, ended) = collect(&mut rx, &mut factory);
    assert_eq!(received, vec![0, 1, 2, 3]);
    assert!(ended);
    assert!(factory.take_space_available());
}

#[test]
fn stream_shutdown_twice_is_a_no_op() {
    let (mut factory, mut rx) = channel::<u64>(Config::new(2, 1, false));
    let signal = rx.shutdown_signal();
    assert!(!signal.is_shutdown(&factory));
    signal.shutdown(&mut factory);
    assert!(signal.is_shutdown(&factory));
    assert!(rx.is_shutdown(&factory));
    assert!(factory.is_closed());
    assert!(factory.take_space_available());
    // The second signal does nothing: no further pulse.
    let copy = signal;
    copy.shutdown(&mut factory);
    signal.shutdown(&mut factory);
    assert!(!factory.take_space_available());
    // The receiver's own shutdown acts once.
    rx.shutdown(&mut factory);
    assert!(factory.take_space_available());
    rx.shutdown(&mut factory);
    assert!(!factory.take_space_available());
    assert_eq!(next(&mut rx, &mut factory), Some(None));
}

#[test]
fn stream_signal_shutdown_drains_then_ends() {
    let (mut factory, mut rx) = channel::<u64>(Config::new(2, 2, false));
    let tx = factory.register().unwrap();
    assert_eq!(tx.try_send(&mut factory, 1), Ok(()));
    assert_eq!(tx.try_send(&mut factory, 2), Ok(()));
    rx.shutdown_signal().shutdown(&mut factory);
    assert_eq!(factory.register().err(), Some(StreamError::Closed));
    let (received, ended) = collect(&mut rx, &mut factory);
    assert_eq!(received, vec![1, 2]);
    assert!(ended);
}

#[test]
fn sink_keeps_one_pending_item_until_there_is_room() {
    let (mut factory, mut rx) = channel::<u64>(Config::new(1, 1, false)); // capacity 2
    let mut tx = factory.register().unwrap();
    assert_eq!(tx.poll_ready(&mut factory), Some(Ok(())));
    assert_eq!(tx.start_send(&mut factory, 1), Ok(()));
    assert_eq!(tx.poll_ready(&mut factory), Some(Ok(())));
    assert_eq!(tx.start_send(&mut factory, 2), Ok(()));
    // The ring is full: the third item is kept as pending.
    assert_eq!(tx.poll_ready(&mut factory), Some(Ok(())));
    assert_eq!(tx.start_send(&mut factory, 3), Ok(()));
    assert_eq!(tx.poll_ready(&mut factory), None);
    assert_eq!(tx.poll_flush(&mut factory), None);
    assert_eq!(tx.poll_close(&mut factory), None);
    // The consumer makes room.
    assert_eq!(next(&mut rx, &mut factory), Some(Some(1)));
    assert!(factory.take_space_available());
    assert_eq!(tx.poll_flush(&mut factory), Some(Ok(())));
    assert_eq!(tx.poll_ready(&mut factory), Some(Ok(())));
    assert_eq!(tx.poll_close(&mut factory), Some(Ok(())));
    assert!(tx.is_closed(&factory));
    assert_eq!(tx.poll_ready(&mut factory), Some(Err(StreamError::Closed)));
    assert_eq!(tx.start_send(&mut factory, 4), Err(StreamError::Closed));
    assert_eq!(tx.poll_flush(&mut factory), Some(Err(StreamError::Closed)));
    assert_eq!(tx.poll_close(&mut factory), Some(Err(StreamError::Closed)));
    let (received, ended) = collect(&mut rx, &mut factory);
    assert_eq!(received, vec![2, 3]);
    assert!(!ended);
}
