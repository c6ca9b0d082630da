//! The broadcaster's delivery rules, and the forwarding loop that
//! feeds it.

use oddbot::broadcast::Broadcaster;
use oddbot::broadcast::SendOutcome;
use oddbot::gateway::gateway_step;
use oddbot::gateway::GatewayAction;
use oddbot::gateway::GatewayEvent;
use oddbot::gateway::GatewayPhase;
use oddbot::gateway::forward_batch;
use oddbot::message::EventMessage;
use oddbot::squeak::Squeak;
use oddbot::stream::DeliverPolicy;
use oddbot::stream::EventStream;

fn squeak(id: u128, content: &str) -> Squeak {
    Squeak::builder()
        .content(content.to_string())
        .user("bob".to_string())
        .build_with_id(id)
        .expect("both fields were set")
}

#[test]
fn send_with_zero_subscribers_discards() {
    let mut b = Broadcaster::new(100);
    assert_eq!(b.receiver_count(), 0);
    let outcome = b.send(&squeak(1, "into the void"));
    assert_eq!(outcome, SendOutcome::Discarded);
    assert_eq!(b.receiver_count(), 0);
}

#[test]
fn send_reaches_every_live_subscriber() {
    let mut b = Broadcaster::new(100);
    let s1 = b.subscribe();
    let s2 = b.subscribe();
    assert_eq!(b.receiver_count(), 2);
    let outcome = b.send(&squeak(1, "hello"));
    assert_eq!(outcome, SendOutcome::Delivered(2));
    let got1 = b.recv(s1).expect("first subscriber got the event");
    let got2 = b.recv(s2).expect("second subscriber got the event");
    assert_eq!(got1.content, "hello");
    assert_eq!(got2.content, "hello");
}

#[test]
fn subscriber_buffer_is_fifo() {
    let mut b = Broadcaster::new(100);
    let s = b.subscribe();
    b.send(&squeak(1, "one"));
    b.send(&squeak(2, "two"));
    b.send(&squeak(3, "three"));
    assert_eq!(b.recv(s).unwrap().content, "one");
    assert_eq!(b.recv(s).unwrap().content, "two");
    assert_eq!(b.recv(s).unwrap().content, "three");
    assert!(b.recv(s).is_none());
}

#[test]
fn overflow_drops_oldest_not_sender() {
    let mut b = Broadcaster::new(2);
    let s = b.subscribe();
    b.send(&squeak(1, "one"));
    b.send(&squeak(2, "two"));
    b.send(&squeak(3, "three"));
    assert_eq!(b.recv(s).unwrap().content, "two");
    assert_eq!(b.recv(s).unwrap().content, "three");
    assert!(b.recv(s).is_none());
}

#[test]
fn unsubscribed_connection_stops_counting() {
    let mut b = Broadcaster::new(10);
    let s1 = b.subscribe();
    let _s2 = b.subscribe();
    b.unsubscribe(s1);
    assert_eq!(b.receiver_count(), 1);
    assert_eq!(b.send(&squeak(1, "late")), SendOutcome::Delivered(1));
    assert!(b.recv(s1).is_none());
}

#[test]
fn scenario_b_forwarding_with_no_connections_acks_everything() {
    let mut stream = EventStream::new_stream(
        "test".to_string(),
        vec!["test.>".to_string()],
        None,
    )
    .expect("stream creation should succeed");
    for i in 0..10u128 {
        stream
            .publish(EventMessage {
                subject: "test.post".to_string(),
                payload: squeak(i + 1, "r"),
            })
            .expect("subject should match");
    }
    let c = stream
        .create_consumer(
            Some("oblivion_websocket_main_consumer".to_string()),
            "test.>".to_string(),
            DeliverPolicy::All,
        )
        .expect("consumer creation should succeed");
    let mut b = Broadcaster::new(100);

    // The forwarding loop with zero live connections: no error, the
    // receiver count stays zero, and every record is acknowledged.
    let mut total = 0;
    loop {
        assert_eq!(b.receiver_count(), 0);
        let n = forward_batch(&mut stream, c, &mut b, 20);
        total += n;
        if n < 20 {
            break;
        }
    }
    assert_eq!(total, 10);
    assert_eq!(stream.fetch(c, 100).len(), 0);
    assert_eq!(b.receiver_count(), 0);
}

#[test]
fn forwarding_delivers_decoded_records_to_subscribers() {
    let mut stream = EventStream::new_stream(
        "test".to_string(),
        vec!["test.>".to_string()],
        None,
    )
    .expect("stream creation should succeed");
    stream
        .publish(EventMessage {
            subject: "test.post".to_string(),
            payload: squeak(7, "live one"),
        })
        .expect("subject should match");
    let c = stream
        .create_consumer(None, "test.>".to_string(), DeliverPolicy::All)
        .expect("consumer creation should succeed");
    let mut b = Broadcaster::new(100);
    let s = b.subscribe();
    let n = forward_batch(&mut stream, c, &mut b, 20);
    assert_eq!(n, 1);
    let got = b.recv(s).expect("the decoded record reached the subscriber");
    assert_eq!(got.content, "live one");
    assert_eq!(got.id, 7);
}

#[test]
fn a_connection_replays_history_before_going_live() {
    let mut stream = EventStream::new_stream(
        "test".to_string(),
        vec!["test.>".to_string()],
        None,
    )
    .expect("stream creation should succeed");
    for i in 0..3u128 {
        stream
            .publish(EventMessage {
                subject: "test.post".to_string(),
                payload: squeak(i + 1, "historic"),
            })
            .expect("subject should match");
    }

    // Replay phase: an ephemeral consumer from the start of the
    // stream; the short batch is the signal that history is done.
    let replay_consumer = stream
        .create_consumer(None, "test.>".to_string(), DeliverPolicy::All)
        .expect("consumer creation should succeed");
    let frames = oddbot::gateway::replay_frames(&mut stream, replay_consumer, 10)
        .expect("every stored payload decodes");
    assert_eq!(frames.len(), 3);
    let (phase, _) = gateway_step(
        GatewayPhase::Replay,
        GatewayEvent::HistoryBatch(frames.len()),
        10,
    );
    assert_eq!(phase, GatewayPhase::Live);

    // Live phase: the first live event arrives only now, after all
    // three historical frames.
    let (phase, action) = gateway_step(phase, GatewayEvent::LiveEvent(squeak(9, "live")), 10);
    assert_eq!(phase, GatewayPhase::Live);
    match action {
        GatewayAction::SendFrame(frame) => {
            let sq = oddbot::codec::decode_squeak(&frame).expect("a frame decodes");
            assert_eq!(sq.content, "live");
        }
        _ => panic!("a live event should be relayed"),
    }
}

#[test]
fn forwarding_keeps_publish_order_per_subscriber() {
    let mut stream = EventStream::new_stream(
        "test".to_string(),
        vec!["test.>".to_string()],
        None,
    )
    .expect("stream creation should succeed");
    let contents = ["one", "two", "three"];
    for (i, content) in contents.iter().enumerate() {
        stream
            .publish(EventMessage {
                subject: "test.post".to_string(),
                payload: squeak((i + 1) as u128, content),
            })
            .expect("subject should match");
    }
    let c = stream
        .create_consumer(None, "test.>".to_string(), DeliverPolicy::All)
        .expect("consumer creation should succeed");
    let mut b = Broadcaster::new(100);
    let s1 = b.subscribe();
    let s2 = b.subscribe();
    assert_eq!(forward_batch(&mut stream, c, &mut b, 20), 3);
    for subscriber in [s1, s2] {
        for content in contents {
            assert_eq!(b.recv(subscriber).unwrap().content, content);
        }
        assert!(b.recv(subscriber).is_none());
    }
}
