//! Builders, configuration, subjects, the gateway step, and the
//! handler decisions.

use oddbot::character::Character;
use oddbot::character::OblivionError;
use oddbot::config::OddbotConfig;
use oddbot::error::OblivionServerError;
use oddbot::error::OddbotError;
use oddbot::gateway::gateway_step;
use oddbot::gateway::GatewayAction;
use oddbot::gateway::GatewayEvent;
use oddbot::gateway::GatewayPhase;
use oddbot::gateway::WebSocketConfig;
use oddbot::handler::prepare_squeak;
use oddbot::handler::should_process_message;
use oddbot::message::EventMessage;
use oddbot::squeak::Squeak;
use oddbot::squeak::SqueakError;
use oddbot::subject::filter_matches;

fn config() -> OddbotConfig {
    OddbotConfig {
        screenshot_channel_id: Some(10),
        screenshot_role_id: Some(11),
        published_member_role_id: Some(12),
        guild_id: Some(13),
        oblivion_social_channel_id: Some(14),
        oblivion_social_role_id: Some(15),
        event_stream_name: Some("events".to_string()),
        event_stream_prefix: None,
        nats_url: "nats://localhost:4222".to_string(),
    }
}

#[test]
fn squeak_builder_requires_author_then_content() {
    assert_eq!(
        Squeak::builder().content("hi".to_string()).build().unwrap_err(),
        SqueakError::UserNameRequired
    );
    assert_eq!(
        Squeak::builder().user("bob".to_string()).build().unwrap_err(),
        SqueakError::ContentRequired
    );
    assert_eq!(Squeak::builder().build().unwrap_err(), SqueakError::UserNameRequired);
    let sq = Squeak::builder()
        .content("hi".to_string())
        .user("bob".to_string())
        .build()
        .expect("both fields were set");
    assert_eq!(sq.content, "hi");
    assert_eq!(sq.author.name, "bob");
}

#[test]
fn character_builder_reports_first_missing_field() {
    let missing = |r: Result<Character, OblivionError>| match r.unwrap_err() {
        OblivionError::CharacterMissingData(f) => f,
        other => panic!("unexpected error {:?}", other),
    };
    assert_eq!(missing(Character::builder().build()), "discord_id");
    assert_eq!(
        missing(Character::builder().discord_id("1".to_string()).build()),
        "name"
    );
    assert_eq!(
        missing(
            Character::builder()
                .discord_id("1".to_string())
                .name("Rat".to_string())
                .build()
        ),
        "description"
    );
    let c = Character::builder()
        .discord_id("1".to_string())
        .name("Rat".to_string())
        .description("A rat.".to_string())
        .build()
        .expect("all fields were set");
    assert_eq!(c.name, "Rat");
    assert_eq!(c.description, "A rat.");
    assert_eq!(c.discord_id, "1");
}

#[test]
fn config_getters_answer_from_their_fields() {
    let c = config();
    assert_eq!(c.get_screenshot_channel_id(), Some(10));
    assert_eq!(c.get_screenshot_role_id(), Some(11));
    assert_eq!(c.get_published_member_role_id(), Some(12));
    assert_eq!(c.get_guild_id(), Some(13));
    assert_eq!(c.get_oblivion_social_channel_id(), Some(14));
    assert_eq!(c.get_oblivion_social_role_id(), Some(15));
    assert_eq!(c.get_event_stream_name(), Some("events".to_string()));
    assert_eq!(c.get_event_stream_prefix(), None);
    assert_eq!(c.get_nats_url(), "nats://localhost:4222");
}

#[test]
fn parse_u64_reads_decimal_and_only_decimal() {
    assert_eq!(oddbot::config::parse_u64("0"), Some(0));
    assert_eq!(oddbot::config::parse_u64("429503"), Some(429503));
    assert_eq!(oddbot::config::parse_u64("18446744073709551615"), Some(u64::MAX));
    assert_eq!(oddbot::config::parse_u64("18446744073709551616"), None);
    assert_eq!(oddbot::config::parse_u64(""), None);
    assert_eq!(oddbot::config::parse_u64("12a"), None);
    assert_eq!(oddbot::config::parse_u64("-3"), None);
    assert_eq!(OddbotConfig::parse_optional_u64(Some("77")), Some(77));
    assert_eq!(OddbotConfig::parse_optional_u64(None), None);
}

#[test]
fn subjects_match_by_trailing_wildcard() {
    assert!(filter_matches("test.>", "test.post"));
    assert!(filter_matches("test.>", "test.a.b"));
    assert!(!filter_matches("test.>", "test"));
    assert!(!filter_matches("test.>", "toast.post"));
    assert!(filter_matches("oddlaws.events.>", "oddlaws.events.skeever.post"));
    assert!(filter_matches("test.post", "test.post"));
    assert!(!filter_matches("test.post", "test.posts"));
    assert!(filter_matches(">", "anything.at.all"));
}

#[test]
fn default_subject_carries_the_prefix() {
    assert_eq!(Squeak::get_subject(None), "oddlaws.events.skeever.post");
    assert_eq!(Squeak::get_subject(Some("custom.prefix")), "custom.prefix.skeever.post");
    let sq = Squeak::builder()
        .content("hi".to_string())
        .user("bob".to_string())
        .build()
        .unwrap();
    let msg = EventMessage::from(sq);
    assert_eq!(msg.subject, "oddlaws.events.skeever.post");
}

#[test]
fn gateway_goes_live_after_a_short_replay_batch() {
    let (p, a) = gateway_step(GatewayPhase::Replay, GatewayEvent::HistoryBatch(100), 100);
    assert_eq!(p, GatewayPhase::Replay);
    assert!(matches!(a, GatewayAction::DoNothing));
    let (p, a) = gateway_step(GatewayPhase::Replay, GatewayEvent::HistoryBatch(3), 100);
    assert_eq!(p, GatewayPhase::Live);
    assert!(matches!(a, GatewayAction::DoNothing));
}

#[test]
fn gateway_relays_live_events_and_tears_down_once() {
    let sq = Squeak::builder()
        .content("hi".to_string())
        .user("bob".to_string())
        .build_with_id(1)
        .unwrap();
    let (p, a) = gateway_step(GatewayPhase::Live, GatewayEvent::LiveEvent(sq), 100);
    assert_eq!(p, GatewayPhase::Live);
    match a {
        GatewayAction::SendFrame(f) => assert_eq!(
            f,
            "{\"id\":\"00000000000000000000000001\",\"content\":\"hi\",\"author\":{\"name\":\"bob\"}}"
        ),
        other => panic!("unexpected action {:?}", matches!(other, GatewayAction::DoNothing)),
    }
    let (p, a) = gateway_step(GatewayPhase::Live, GatewayEvent::ClientClose, 100);
    assert_eq!(p, GatewayPhase::Closed);
    assert!(matches!(a, GatewayAction::Teardown));
    let (p, a) = gateway_step(GatewayPhase::Closed, GatewayEvent::HistoryBatch(0), 100);
    assert_eq!(p, GatewayPhase::Closed);
    assert!(matches!(a, GatewayAction::DoNothing));
    let (p, _) = gateway_step(GatewayPhase::Live, GatewayEvent::WriteFailed, 100);
    assert_eq!(p, GatewayPhase::Closed);
    let (p, _) = gateway_step(GatewayPhase::Live, GatewayEvent::SubscriptionEnded, 100);
    assert_eq!(p, GatewayPhase::Closed);
    let (p, a) = gateway_step(
        GatewayPhase::Live,
        GatewayEvent::ClientText("ping".to_string()),
        100,
    );
    assert_eq!(p, GatewayPhase::Live);
    assert!(matches!(a, GatewayAction::DoNothing));
}

#[test]
fn websocket_config_defaults() {
    let c = WebSocketConfig::default();
    assert_eq!(c.historical_batch_size, 100);
    assert_eq!(c.historical_max_age_secs, Some(24 * 60 * 60));
    assert_eq!(c.historical_batch_delay_ms, 50);
}

#[test]
fn message_gate_needs_channel_and_role() {
    let roles = vec![5u64, 15];
    assert!(should_process_message(14, Some(&roles), 15, 14));
    assert!(!should_process_message(9, Some(&roles), 15, 14));
    assert!(!should_process_message(14, Some(&roles), 99, 14));
    assert!(!should_process_message(14, None, 15, 14));
}

#[test]
fn squeaks_come_from_characters() {
    let c = Character::builder()
        .discord_id("42".to_string())
        .name("Rat".to_string())
        .description("A rat.".to_string())
        .build()
        .unwrap();
    let sq = prepare_squeak(Some(&c), "squeak!".to_string(), "42").expect("a character can squeak");
    assert_eq!(sq.content, "squeak!");
    assert_eq!(sq.author.name, "Rat");

    match prepare_squeak(None, "squeak!".to_string(), "42").unwrap_err() {
        OddbotError::OblivionError(OblivionError::NoCharacterFound(who)) => {
            assert_eq!(who, "42")
        },
        other => panic!("unexpected error {:?}", other),
    }
}

#[test]
fn server_errors_map_to_internal_faults() {
    let (code, msg) = OblivionServerError::FailedToSaveEvent.response_parts();
    assert_eq!(code, 500);
    assert_eq!(msg, "Failed to save event");
    let (code, msg) = OblivionServerError::FailedToPublishEvent.response_parts();
    assert_eq!(code, 500);
    assert_eq!(msg, "Failed to publish event");
}
