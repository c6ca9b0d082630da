//! The stream and consumer semantics, exercised end to end.

use oddbot::message::EventMessage;
use oddbot::squeak::Squeak;
use oddbot::stream::DeliverPolicy;
use oddbot::stream::EventStream;

fn test_stream(subjects: &[&str]) -> EventStream {
    EventStream::new_stream(
        "test".to_string(),
        subjects.iter().map(|s| s.to_string()).collect(),
        Some("a stream for the tests".to_string()),
    )
    .expect("stream creation should succeed")
}

fn squeak(id: u128, content: &str, author: &str) -> Squeak {
    Squeak::builder()
        .content(content.to_string())
        .user(author.to_string())
        .build_with_id(id)
        .expect("both fields were set")
}

fn publish_to(stream: &mut EventStream, subject: &str, id: u128, content: &str) {
    let msg = EventMessage {
        subject: subject.to_string(),
        payload: squeak(id, content, "bob"),
    };
    stream.publish(msg).expect("subject should match the stream");
}

#[test]
fn scenario_a_publish_fetch_ack() {
    let mut stream = test_stream(&["test.>"]);
    publish_to(&mut stream, "test.post", 1, "hello");

    let c1 = stream
        .create_consumer(Some("c1".to_string()), "test.>".to_string(), DeliverPolicy::All)
        .expect("consumer creation should succeed");

    let batch = stream.fetch(c1, 10);
    assert_eq!(batch.len(), 1);
    assert_eq!(batch[0].subject, "test.post");
    assert_eq!(batch[0].deliveries, 1);
    stream.ack(c1, batch[0].seq);

    let again = stream.fetch(c1, 10);
    assert_eq!(again.len(), 0);
}

#[test]
fn durable_reattach_keeps_cursor() {
    let mut stream = test_stream(&["test.>"]);
    publish_to(&mut stream, "test.post", 1, "one");
    publish_to(&mut stream, "test.post", 2, "two");

    let c1 = stream
        .create_consumer(Some("c1".to_string()), "test.>".to_string(), DeliverPolicy::All)
        .expect("consumer creation should succeed");
    let batch = stream.fetch(c1, 10);
    assert_eq!(batch.len(), 2);
    for d in &batch {
        stream.ack(c1, d.seq);
    }

    // Re-creating under the same name reattaches to the same cursor:
    // same handle, and nothing is replayed from the beginning.
    let c1_again = stream
        .create_consumer(Some("c1".to_string()), "test.>".to_string(), DeliverPolicy::All)
        .expect("reattach should succeed");
    assert_eq!(c1_again, c1);
    assert_eq!(stream.fetch(c1_again, 10).len(), 0);
}

#[test]
fn durable_reattach_rejects_mismatched_config() {
    let mut stream = test_stream(&["test.>"]);
    let _ = stream
        .create_consumer(Some("c1".to_string()), "test.>".to_string(), DeliverPolicy::All)
        .expect("consumer creation should succeed");
    let err = stream.create_consumer(
        Some("c1".to_string()),
        "test.other".to_string(),
        DeliverPolicy::All,
    );
    assert!(matches!(err, Err(oddbot::error::OddbotError::StreamConsumerCreate)));
}

#[test]
fn acked_record_never_redelivered() {
    let mut stream = test_stream(&["test.>"]);
    publish_to(&mut stream, "test.post", 1, "only");
    let c = stream
        .create_consumer(None, "test.>".to_string(), DeliverPolicy::All)
        .expect("consumer creation should succeed");
    let batch = stream.fetch(c, 1);
    assert_eq!(batch.len(), 1);
    stream.ack(c, batch[0].seq);
    for _ in 0..5 {
        assert_eq!(stream.fetch(c, 10).len(), 0);
    }
}

#[test]
fn redelivered_three_times_never_a_fourth() {
    let mut stream = test_stream(&["test.>"]);
    publish_to(&mut stream, "test.post", 1, "stubborn");
    let c = stream
        .create_consumer(None, "test.>".to_string(), DeliverPolicy::All)
        .expect("consumer creation should succeed");

    // Three deliveries without acknowledgment, counted one by one.
    for expected in 1..=3u32 {
        let batch = stream.fetch(c, 10);
        assert_eq!(batch.len(), 1);
        assert_eq!(batch[0].deliveries, expected);
    }
    // Never a fourth.
    assert_eq!(stream.fetch(c, 10).len(), 0);
}

#[test]
fn scenario_c_clear_stream_batches() {
    let mut stream = test_stream(&["test.>"]);
    for i in 0..5u128 {
        publish_to(&mut stream, "test.post", i + 1, "r");
    }
    let c = stream
        .create_consumer(None, "test.>".to_string(), DeliverPolicy::All)
        .expect("consumer creation should succeed");
    let (records, batches) = stream.drain(c, 2);
    assert_eq!(batches, vec![2, 2, 1]);
    assert_eq!(records.len(), 5);
    assert_eq!(stream.fetch(c, 10).len(), 0);
}

#[test]
fn scenario_d_replay_in_publish_order() {
    let mut stream = test_stream(&["test.>"]);
    let contents = ["first", "second", "third", "fourth"];
    for (i, content) in contents.iter().enumerate() {
        publish_to(&mut stream, "test.post", (i + 1) as u128, content);
    }
    // A per-connection replay: an ephemeral consumer from the start.
    let c = stream
        .create_consumer(None, "test.>".to_string(), DeliverPolicy::All)
        .expect("consumer creation should succeed");
    let (records, _) = stream.drain(c, 100);
    assert_eq!(records.len(), contents.len());
    for (i, d) in records.iter().enumerate() {
        let sq = oddbot::codec::decode_squeak(&d.payload).expect("stored payload decodes");
        assert_eq!(sq.content, contents[i]);
        assert_eq!(sq.id, (i + 1) as u128);
    }
}

#[test]
fn deliver_policy_new_skips_history() {
    let mut stream = test_stream(&["test.>"]);
    publish_to(&mut stream, "test.post", 1, "old");
    let c = stream
        .create_consumer(None, "test.>".to_string(), DeliverPolicy::New)
        .expect("consumer creation should succeed");
    assert_eq!(stream.fetch(c, 10).len(), 0);
    publish_to(&mut stream, "test.post", 2, "new");
    let batch = stream.fetch(c, 10);
    assert_eq!(batch.len(), 1);
    let sq = oddbot::codec::decode_squeak(&batch[0].payload).expect("stored payload decodes");
    assert_eq!(sq.content, "new");
}

#[test]
fn consumer_filter_narrows_what_is_seen() {
    let mut stream = test_stream(&["test.>"]);
    publish_to(&mut stream, "test.post", 1, "seen");
    publish_to(&mut stream, "test.noise", 2, "unseen");
    let c = stream
        .create_consumer(None, "test.post".to_string(), DeliverPolicy::All)
        .expect("consumer creation should succeed");
    let batch = stream.fetch(c, 10);
    assert_eq!(batch.len(), 1);
    assert_eq!(batch[0].subject, "test.post");
}

#[test]
fn publish_unmatched_subject_fails() {
    let mut stream = test_stream(&["test.>"]);
    let msg = EventMessage {
        subject: "other.post".to_string(),
        payload: squeak(1, "lost", "bob"),
    };
    assert!(matches!(
        stream.publish(msg),
        Err(oddbot::error::OddbotError::StreamPublish)
    ));
}

#[test]
fn new_stream_rejects_bad_subjects() {
    let none: Vec<String> = Vec::new();
    assert!(matches!(
        EventStream::new_stream("s".to_string(), none, None),
        Err(oddbot::error::OddbotError::StreamCreate)
    ));
    assert!(matches!(
        EventStream::new_stream("s".to_string(), vec!["a..b".to_string()], None),
        Err(oddbot::error::OddbotError::StreamCreate)
    ));
    assert!(matches!(
        EventStream::new_stream("s".to_string(), vec!["a.>.b".to_string()], None),
        Err(oddbot::error::OddbotError::StreamCreate)
    ));
}

#[test]
fn new_stream_keeps_thirty_day_retention() {
    let stream = test_stream(&["test.>"]);
    assert_eq!(stream.max_age_secs, 30 * 24 * 60 * 60);
    assert_eq!(stream.stream_name, "test");
}

#[test]
fn replay_hands_back_the_frames_in_order() {
    let mut stream = test_stream(&["test.>"]);
    let contents = ["first", "second", "third"];
    for (i, content) in contents.iter().enumerate() {
        publish_to(&mut stream, "test.post", (i + 1) as u128, content);
    }
    let c = stream
        .create_consumer(None, "test.>".to_string(), DeliverPolicy::All)
        .expect("consumer creation should succeed");
    let frames = oddbot::gateway::replay_frames(&mut stream, c, 2)
        .expect("every stored payload decodes");
    assert_eq!(frames.len(), 3);
    for (i, frame) in frames.iter().enumerate() {
        let sq = oddbot::codec::decode_squeak(frame).expect("a frame decodes");
        assert_eq!(sq.content, contents[i]);
        assert_eq!(sq.id, (i + 1) as u128);
    }
    // Nothing is left to replay.
    assert_eq!(stream.fetch(c, 10).len(), 0);
}

#[test]
fn replay_fails_on_an_undecodable_record() {
    let mut stream = test_stream(&["test.>"]);
    publish_to(&mut stream, "test.post", 1, "fine");
    // A record that is not a wire frame at all.
    stream
        .publish_raw("test.post".to_string(), "not a frame".to_string())
        .expect("subject should match the stream");
    let c = stream
        .create_consumer(None, "test.>".to_string(), DeliverPolicy::All)
        .expect("consumer creation should succeed");
    assert!(matches!(
        oddbot::gateway::replay_frames(&mut stream, c, 10),
        Err(oddbot::error::OddbotError::SerdeError)
    ));
}
