//! Lifecycle tests: plant and water, staleness, tend, prune, persistence of
//! the store's parts, several channels, out-of-order arrival, the
//! promise-gate scenarios, the prune race, disposition history, bounded text
//! values and the per-branch cap.

use entmoot::{
    Author, ChannelId, ChannelName, Content, Disposition, EntmootError, InvalidChannelId, InvalidText, Message, Span,
    Store, Timestamp, MAX_AUTHOR_LEN, MAX_CHANNEL_NAME_LEN, MAX_CONTENT_LEN,
};

fn ts(seconds: i64) -> Timestamp {
    Timestamp::from_secs(seconds)
}

fn msg(id: u64, seconds: i64, author: &str, content: &str) -> Message {
    Message::new(id, ts(seconds), author, content).unwrap()
}

fn cn(s: &str) -> ChannelName {
    ChannelName::parse(s).unwrap()
}

/// The library's half of a save followed by a load: the store's parts, as a
/// ledger holds them, rebuilt into a store.
fn reload(store: &Store) -> Store {
    Store::restore(store.branch_parts(), store.history().to_vec(), store.max_messages_per_branch())
}

const CH1: ChannelId = ChannelId(1001);
const CH2: ChannelId = ChannelId(1002);
const CH_STALE: ChannelId = ChannelId(2001);
const CH_FRESH: ChannelId = ChannelId(2002);
const CH_Z: ChannelId = ChannelId(3001);
const CH_A: ChannelId = ChannelId(3002);
const CH_M: ChannelId = ChannelId(3003);
const CH_EMPTIED: ChannelId = ChannelId(4001);
const CH_OPEN: ChannelId = ChannelId(4002);
const CH_NOSUCH: ChannelId = ChannelId(9999);

#[test]
fn plant_and_show() {
    let mut store = Store::new();
    assert!(store.is_empty());

    store.water(CH1, cn("general"), msg(1, 0, "lina", "hello"));

    assert_eq!(store.channel_count(), 1);
    let status = store.status(ts(0));
    assert_eq!(status.len(), 1);
    assert_eq!(status[0].channel_id, CH1);
    assert_eq!(status[0].channel_name.as_str(), "general");
    assert_eq!(status[0].message_count, 1);
    assert_eq!(status[0].latest.as_ref().unwrap().content.as_str(), "hello");
}

#[test]
fn staleness_computation() {
    let mut store = Store::new();
    store.water(CH1, cn("general"), msg(1, 0, "lina", "hello"));

    let now = ts(600);
    let status = store.status(now);
    assert_eq!(status[0].staleness, Span::minutes(10));

    let now_later = ts(3600);
    let status = store.status(now_later);
    assert_eq!(status[0].staleness, Span::hours(1));
}

#[test]
fn activity_resets_staleness() {
    let mut store = Store::new();
    store.water(CH1, cn("general"), msg(1, 0, "lina", "hello"));

    assert_eq!(store.status(ts(500))[0].staleness, Span::seconds(500));

    store.water(CH1, cn("general"), msg(2, 500, "ari", "still here"));

    assert_eq!(store.status(ts(500))[0].staleness, Span::zero());
    assert_eq!(store.status(ts(700))[0].staleness, Span::seconds(200));
}

#[test]
fn water_updates_channel_name_on_existing_branch() {
    let mut store = Store::new();
    store.water(CH1, cn("general"), msg(1, 0, "lina", "hello"));
    assert_eq!(store.branch(CH1).unwrap().channel_name.as_str(), "general");

    store.water(CH1, cn("general-chat"), msg(2, 10, "ari", "hi"));
    assert_eq!(store.branch(CH1).unwrap().channel_name.as_str(), "general-chat");

    let reloaded = reload(&store);
    assert_eq!(reloaded.branch(CH1).unwrap().channel_name.as_str(), "general-chat");
}

#[test]
fn out_of_order_arrival_is_ordered_by_id_and_never_rewinds_the_clock() {
    let mut store = Store::new();
    store.water(CH1, cn("general"), msg(3, 30, "lina", "third"));
    store.water(CH1, cn("general"), msg(1, 0, "lina", "first"));
    store.water(CH1, cn("general"), msg(2, 10, "ari", "second"));

    let branch = store.branch(CH1).unwrap();
    assert_eq!(branch.earliest_unpruned().unwrap().id, 1);
    assert_eq!(branch.latest().unwrap().id, 3);
    assert_eq!(branch.message_count, 3);
    assert_eq!(branch.staleness(ts(30)), Span::zero());
    assert_eq!(store.latest_known_id(CH1).unwrap(), 3);

    store.prune(CH1, 2, Disposition::Done, ts(30)).unwrap();
    let branch = store.branch(CH1).unwrap();
    assert_eq!(branch.earliest_unpruned().unwrap().id, 3);
}

#[test]
fn tend_surfaces_stale_not_fresh() {
    let mut store = Store::new();
    store.water(CH_STALE, cn("quiet-room"), msg(1, 0, "lina", "anyone there?"));
    store.water(CH_FRESH, cn("busy-room"), msg(1, 590, "ari", "just said this"));

    let now = ts(600);
    let threshold = Span::minutes(10);
    let tended = store.tend(now, threshold);

    assert_eq!(tended.len(), 1);
    assert_eq!(tended[0].channel_id, CH_STALE);
    assert_eq!(tended[0].idle, Span::minutes(10));
}

#[test]
fn prune_removes_with_disposition() {
    let mut store = Store::new();
    store.water(CH1, cn("general"), msg(1, 0, "lina", "first"));
    store.water(CH1, cn("general"), msg(2, 10, "lina", "second"));

    let record = store.prune_latest(CH1, Disposition::Done, ts(10)).unwrap();
    assert_eq!(record.disposition, Disposition::Done);
    assert_eq!(record.message_id, 2);
    assert_eq!(record.pruned_at, ts(10));

    let branch = store.branch(CH1).unwrap();
    assert!(branch.is_empty_of_unpruned());
    assert_eq!(branch.message_count, 2);
}

#[test]
fn multiple_channels_independent_staleness() {
    let mut store = Store::new();
    store.water(CH_Z, cn("alpha"), msg(1, 0, "lina", "a"));
    store.water(CH_A, cn("beta"), msg(1, 300, "lina", "b"));
    store.water(CH_M, cn("gamma"), msg(1, 590, "lina", "c"));

    let now = ts(600);
    let status = store.status(now);
    assert_eq!(status.len(), 3);

    let by_id = |id: ChannelId| status.iter().find(|s| s.channel_id == id).unwrap();
    assert_eq!(by_id(CH_Z).staleness, Span::seconds(600));
    assert_eq!(by_id(CH_A).staleness, Span::seconds(300));
    assert_eq!(by_id(CH_M).staleness, Span::seconds(10));

    let tended = store.tend(now, Span::minutes(5));
    let tended_ids: Vec<_> = tended.iter().map(|t| t.channel_id).collect();
    assert_eq!(tended_ids, vec![CH_Z, CH_A]);
}

#[test]
fn persistence_round_trip() {
    let mut store = Store::new();
    store.water(CH1, cn("general"), msg(1, 0, "lina", "first"));
    store.water(CH1, cn("general"), msg(2, 10, "ari", "second"));
    store.water(CH2, cn("random"), msg(1, 5, "pace", "hi"));
    store.prune(CH1, 1, Disposition::Parked, ts(10)).unwrap();

    let reloaded = reload(&store);
    assert_eq!(reloaded.channel_count(), 2);

    let chan1 = reloaded.branch(CH1).unwrap();
    assert_eq!(chan1.channel_name.as_str(), "general");
    assert_eq!(chan1.message_count, 2);
    let survivor = chan1.earliest_unpruned().unwrap();
    assert_eq!(survivor.id, 2);
    assert_eq!(survivor.content.as_str(), "second");
    assert_eq!(survivor.author.as_str(), "ari");
    assert_eq!(survivor.timestamp, ts(10));

    let chan2 = reloaded.branch(CH2).unwrap();
    assert_eq!(chan2.channel_name.as_str(), "random");
    assert_eq!(chan2.message_count, 1);
    let only = chan2.earliest_unpruned().unwrap();
    assert_eq!(only.content.as_str(), "hi");
    assert_eq!(only.author.as_str(), "pace");

    let history = reloaded.history_for(CH1);
    assert_eq!(history.len(), 1);
    assert_eq!(history[0].disposition, Disposition::Parked);
    assert_eq!(history[0].message_id, 1);
    assert!(reloaded.history_for(CH2).is_empty());
}

#[test]
fn pruning_an_unknown_channel_is_an_error() {
    let mut store = Store::new();
    store.water(CH1, cn("general"), msg(1, 0, "lina", "hello"));

    match store.prune(CH_NOSUCH, 1, Disposition::Done, ts(0)) {
        Err(EntmootError::UnknownChannel(id)) => assert_eq!(id, CH_NOSUCH),
        other => panic!("expected UnknownChannel, got {other:?}"),
    }
    match store.prune_latest(CH_NOSUCH, Disposition::Done, ts(0)) {
        Err(EntmootError::UnknownChannel(id)) => assert_eq!(id, CH_NOSUCH),
        other => panic!("expected UnknownChannel, got {other:?}"),
    }

    assert!(store.history().is_empty());
    assert_eq!(store.branch(CH1).unwrap().earliest_unpruned().unwrap().id, 1);
}

#[test]
fn tend_skips_a_stale_branch_with_nothing_left_unpruned() {
    let mut store = Store::new();
    store.water(CH_EMPTIED, cn("quiet-room"), msg(1, 0, "lina", "handled"));
    store.water(CH_OPEN, cn("loud-room"), msg(1, 0, "lina", "not handled"));

    let now = ts(3600);
    assert_eq!(store.tend(now, Span::minutes(10)).len(), 2);

    store.prune_latest(CH_EMPTIED, Disposition::Done, ts(3600)).unwrap();

    let tended = store.tend(now, Span::minutes(10));
    let ids: Vec<_> = tended.iter().map(|t| t.channel_id).collect();
    assert_eq!(ids, vec![CH_OPEN]);
    assert!(store.branch(CH_EMPTIED).unwrap().is_empty_of_unpruned());
    assert_eq!(store.status(now).len(), 2);
}

#[test]
fn empty_state_is_clean() {
    let store = Store::new();
    assert!(store.is_empty());
    assert_eq!(store.status(ts(0)).len(), 0);
    assert_eq!(store.tend(ts(0), Span::minutes(10)).len(), 0);
    assert_eq!(store.history().len(), 0);
}

#[test]
fn hadamard_gate_promise_is_last_message() {
    let mut store = Store::new();
    store.water(CH1, cn("general"), msg(1, 0, "lina", "small talk"));
    store.water(
        CH1,
        cn("general"),
        msg(2, 30, "ari", "I'll look into the Fredkin gate design and get back to you"),
    );

    let now = ts(30 + 600);
    let tended = store.tend(now, Span::minutes(10));

    assert_eq!(tended.len(), 1);
    assert_eq!(tended[0].earliest_unpruned.content.as_str(), "small talk");
    drop(tended);
    store.prune(CH1, 1, Disposition::Done, now).unwrap();
    let tended = store.tend(now, Span::minutes(10));
    assert_eq!(tended.len(), 1);
    assert_eq!(
        tended[0].earliest_unpruned.content.as_str(),
        "I'll look into the Fredkin gate design and get back to you"
    );
}

#[test]
fn clifford_gate_earliest_not_latest() {
    let mut store = Store::new();
    store.water(CH1, cn("general"), msg(1, 0, "ari", "I promise to send the doc"));
    store.water(CH1, cn("general"), msg(2, 30, "lina", "unrelated chatter"));
    store.water(CH1, cn("general"), msg(3, 60, "ari", "more chatter"));

    let now = ts(60 + 600);
    let tended = store.tend(now, Span::minutes(10));

    assert_eq!(tended.len(), 1);
    assert_eq!(tended[0].earliest_unpruned.id, 1);
    assert_eq!(tended[0].earliest_unpruned.content.as_str(), "I promise to send the doc");
}

#[test]
fn fredkin_gate_promise_floats_to_top_after_prune() {
    let mut store = Store::new();
    store.water(CH1, cn("general"), msg(1, 0, "lina", "blah1"));
    store.water(CH1, cn("general"), msg(2, 10, "lina", "blah2"));
    store.water(CH1, cn("general"), msg(3, 20, "ari", "I'll circle back on the schema"));
    store.water(CH1, cn("general"), msg(4, 30, "lina", "more blah"));

    assert_eq!(store.branch(CH1).unwrap().earliest_unpruned().unwrap().id, 1);

    store.prune(CH1, 2, Disposition::Dropped, ts(20)).unwrap();

    let branch = store.branch(CH1).unwrap();
    assert_eq!(branch.earliest_unpruned().unwrap().id, 3);
    assert_eq!(branch.earliest_unpruned().unwrap().content.as_str(), "I'll circle back on the schema");

    let now = ts(30 + 600);
    let tended = store.tend(now, Span::minutes(10));
    assert_eq!(tended[0].earliest_unpruned.content.as_str(), "I'll circle back on the schema");
}

#[test]
fn race_condition_late_arrival_survives_cursor() {
    let mut store = Store::new();
    store.water(CH1, cn("general"), msg(1, 0, "lina", "blah1"));
    store.water(CH1, cn("general"), msg(2, 10, "lina", "blah2"));

    let cursor = store.latest_known_id(CH1).unwrap();
    assert_eq!(cursor, 2);

    store.water(CH1, cn("general"), msg(3, 20, "ari", "wait, one more thing"));

    store.prune(CH1, cursor, Disposition::Done, ts(20)).unwrap();

    let branch = store.branch(CH1).unwrap();
    assert_eq!(branch.earliest_unpruned().unwrap().id, 3);
    assert_eq!(branch.earliest_unpruned().unwrap().content.as_str(), "wait, one more thing");
}

#[test]
fn prune_disposition_retrievable_from_history() {
    let mut store = Store::new();
    store.water(CH1, cn("general"), msg(1, 0, "lina", "a"));
    store.water(CH1, cn("general"), msg(2, 10, "lina", "b"));
    store.water(CH1, cn("general"), msg(3, 20, "lina", "c"));

    store.prune(CH1, 1, Disposition::Parked, ts(100)).unwrap();
    store.prune(CH1, 2, Disposition::Dropped, ts(200)).unwrap();
    store.prune(CH1, 3, Disposition::Done, ts(300)).unwrap();

    let history = store.history_for(CH1);
    assert_eq!(history.len(), 3);
    assert_eq!(history[0].disposition, Disposition::Parked);
    assert_eq!(history[1].disposition, Disposition::Dropped);
    assert_eq!(history[2].disposition, Disposition::Done);

    assert_eq!(store.history().len(), 3);
}

#[test]
fn prune_latest_matches_explicit_prune_with_latest_known_id() {
    let mut store_a = Store::new();
    store_a.water(CH1, cn("general"), msg(1, 0, "lina", "a"));
    store_a.water(CH1, cn("general"), msg(2, 10, "lina", "b"));

    let mut store_b = store_a.clone();

    let latest = store_a.latest_known_id(CH1).unwrap();
    let now = ts(10);
    store_a.prune(CH1, latest, Disposition::Done, now).unwrap();
    store_b.prune_latest(CH1, Disposition::Done, now).unwrap();

    assert!(store_a.branch(CH1).unwrap().is_empty_of_unpruned());
    assert!(store_b.branch(CH1).unwrap().is_empty_of_unpruned());
    assert_eq!(store_a.history()[0].message_id, latest);
    assert_eq!(store_b.history()[0].message_id, latest);
}

#[test]
fn self_contained_full_lifecycle_needs_nothing_external() {
    let mut store = Store::new();
    store.water(CH1, cn("general"), msg(1, 0, "lina", "hi"));

    let status = store.status(ts(10));
    assert_eq!(status.len(), 1);
    assert_eq!(status[0].message_count, 1);

    let tended = store.tend(ts(700), Span::minutes(10));
    assert_eq!(tended.len(), 1);
    assert_eq!(tended[0].earliest_unpruned.content.as_str(), "hi");

    store.prune_latest(CH1, Disposition::Done, ts(700)).unwrap();
    assert_eq!(store.history().len(), 1);
    assert!(store.branch(CH1).unwrap().is_empty_of_unpruned());
}

#[test]
fn channel_id_parse_valid_snowflakes() {
    assert_eq!(ChannelId::parse("0").unwrap().as_u64(), 0);
    assert_eq!(ChannelId::parse("1").unwrap().as_u64(), 1);
    assert_eq!(ChannelId::parse("1507753511155405011").unwrap().as_u64(), 1507753511155405011);
    assert_eq!(ChannelId::parse("18446744073709551615").unwrap().as_u64(), u64::MAX);
}

#[test]
fn channel_id_rejects_empty() {
    assert_eq!(ChannelId::parse(""), Err(InvalidChannelId::Empty));
}

#[test]
fn channel_id_rejects_too_long() {
    assert_eq!(ChannelId::parse("123456789012345678901"), Err(InvalidChannelId::TooLong));

    let huge = "9".repeat(1_000_000);
    assert_eq!(ChannelId::parse(&huge), Err(InvalidChannelId::TooLong));
}

#[test]
fn channel_id_rejects_non_numeric() {
    assert_eq!(ChannelId::parse("chan-1"), Err(InvalidChannelId::NotNumeric));
    assert_eq!(ChannelId::parse("abc"), Err(InvalidChannelId::NotNumeric));
    assert_eq!(ChannelId::parse("-1"), Err(InvalidChannelId::NotNumeric));
    assert_eq!(ChannelId::parse("12 34"), Err(InvalidChannelId::NotNumeric));
    assert_eq!(ChannelId::parse("12.34"), Err(InvalidChannelId::NotNumeric));
    assert_eq!(ChannelId::parse(" 123"), Err(InvalidChannelId::NotNumeric));
    assert_eq!(ChannelId::parse("123 "), Err(InvalidChannelId::NotNumeric));
}

#[test]
fn channel_id_rejects_overflow() {
    assert_eq!(ChannelId::parse("18446744073709551616"), Err(InvalidChannelId::NotNumeric));
    assert_eq!(ChannelId::parse("99999999999999999999"), Err(InvalidChannelId::NotNumeric));
}

#[test]
fn channel_id_display_is_decimal() {
    let id = ChannelId::new(1507753511155405011);
    assert_eq!(id.to_string(), "1507753511155405011");
}

#[test]
fn channel_id_rejects_pathological_size() {
    let payload = "1".repeat(1_048_576);
    assert_eq!(ChannelId::parse(&payload), Err(InvalidChannelId::TooLong));
}

#[test]
fn author_accepts_valid_values() {
    assert_eq!(Author::parse("a").unwrap().as_str(), "a");
    assert_eq!(Author::parse("lina").unwrap().as_str(), "lina");
    let at_max = "x".repeat(MAX_AUTHOR_LEN);
    assert_eq!(Author::parse(&at_max).unwrap().as_str(), at_max);
}

#[test]
fn author_rejects_empty() {
    assert_eq!(Author::parse(""), Err(InvalidText::Empty));
}

#[test]
fn author_rejects_too_long() {
    let over = "x".repeat(MAX_AUTHOR_LEN + 1);
    assert_eq!(Author::parse(&over), Err(InvalidText::TooLong));
}

#[test]
fn author_rejects_pathological_size() {
    let payload = "a".repeat(1_048_576);
    assert_eq!(Author::parse(&payload), Err(InvalidText::TooLong));
}

#[test]
fn content_accepts_valid_values() {
    assert_eq!(Content::parse("").unwrap().as_str(), "");
    assert_eq!(Content::parse("x").unwrap().as_str(), "x");
    let at_max = "x".repeat(MAX_CONTENT_LEN);
    assert_eq!(Content::parse(&at_max).unwrap().as_str(), at_max);
}

#[test]
fn content_rejects_too_long() {
    let over = "x".repeat(MAX_CONTENT_LEN + 1);
    assert_eq!(Content::parse(&over), Err(InvalidText::TooLong));
}

#[test]
fn content_rejects_pathological_size() {
    let payload = "a".repeat(1_048_576);
    assert_eq!(Content::parse(&payload), Err(InvalidText::TooLong));
}

#[test]
fn channel_name_accepts_valid_values() {
    assert_eq!(ChannelName::parse("g").unwrap().as_str(), "g");
    assert_eq!(ChannelName::parse("general").unwrap().as_str(), "general");
    let at_max = "x".repeat(MAX_CHANNEL_NAME_LEN);
    assert_eq!(ChannelName::parse(&at_max).unwrap().as_str(), at_max);
}

#[test]
fn channel_name_rejects_empty() {
    assert_eq!(ChannelName::parse(""), Err(InvalidText::Empty));
}

#[test]
fn channel_name_rejects_too_long() {
    let over = "x".repeat(MAX_CHANNEL_NAME_LEN + 1);
    assert_eq!(ChannelName::parse(&over), Err(InvalidText::TooLong));
}

#[test]
fn channel_name_rejects_pathological_size() {
    let payload = "a".repeat(1_048_576);
    assert_eq!(ChannelName::parse(&payload), Err(InvalidText::TooLong));
}

#[test]
fn message_new_validates_author() {
    match Message::new(1, ts(0), "", "hello") {
        Err(EntmootError::InvalidAuthor(InvalidText::Empty)) => {}
        other => panic!("expected InvalidAuthor(Empty), got {other:?}"),
    }

    let long_author = "x".repeat(MAX_AUTHOR_LEN + 1);
    match Message::new(1, ts(0), &long_author, "hello") {
        Err(EntmootError::InvalidAuthor(InvalidText::TooLong)) => {}
        other => panic!("expected InvalidAuthor(TooLong), got {other:?}"),
    }
}

#[test]
fn message_new_validates_content() {
    let long_content = "x".repeat(MAX_CONTENT_LEN + 1);
    match Message::new(1, ts(0), "lina", &long_content) {
        Err(EntmootError::InvalidContent(InvalidText::TooLong)) => {}
        other => panic!("expected InvalidContent(TooLong), got {other:?}"),
    }

    let msg = Message::new(1, ts(0), "lina", "").unwrap();
    assert_eq!(msg.content.as_str(), "");
}

#[test]
fn message_new_validates_author_before_content() {
    let long = "x".repeat(MAX_CONTENT_LEN + 1);
    match Message::new(1, ts(0), "", &long) {
        Err(EntmootError::InvalidAuthor(InvalidText::Empty)) => {}
        other => panic!("expected InvalidAuthor(Empty), got {other:?}"),
    }
}

#[test]
fn no_cap_by_default() {
    let store = Store::new();
    assert_eq!(store.max_messages_per_branch(), None);
}

#[test]
fn cap_evicts_oldest_first() {
    let mut store = Store::new();
    store.set_max_messages_per_branch(3);

    store.water(CH1, cn("general"), msg(1, 0, "lina", "first"));
    store.water(CH1, cn("general"), msg(2, 10, "lina", "second"));
    store.water(CH1, cn("general"), msg(3, 20, "lina", "third"));
    assert_eq!(store.branch(CH1).unwrap().unpruned_count(), 3);

    store.water(CH1, cn("general"), msg(4, 30, "lina", "fourth"));
    let branch = store.branch(CH1).unwrap();
    assert_eq!(branch.unpruned_count(), 3);
    assert_eq!(branch.earliest_unpruned().unwrap().id, 2);
    assert_eq!(branch.latest().unwrap().id, 4);

    assert_eq!(branch.message_count, 4);
}

#[test]
fn cap_enforced_on_existing_branches() {
    let mut store = Store::new();

    for i in 1..=5 {
        store.water(CH1, cn("general"), msg(i, i as i64 * 10, "lina", "msg"));
    }
    assert_eq!(store.branch(CH1).unwrap().unpruned_count(), 5);

    store.set_max_messages_per_branch(2);
    let branch = store.branch(CH1).unwrap();
    assert_eq!(branch.unpruned_count(), 2);
    assert_eq!(branch.earliest_unpruned().unwrap().id, 4);
    assert_eq!(branch.latest().unwrap().id, 5);
}

#[test]
fn cap_of_one_keeps_only_latest() {
    let mut store = Store::new();
    store.set_max_messages_per_branch(1);

    store.water(CH1, cn("general"), msg(1, 0, "lina", "first"));
    store.water(CH1, cn("general"), msg(2, 10, "lina", "second"));
    store.water(CH1, cn("general"), msg(3, 20, "lina", "third"));

    let branch = store.branch(CH1).unwrap();
    assert_eq!(branch.unpruned_count(), 1);
    assert_eq!(branch.earliest_unpruned().unwrap().id, 3);
    assert_eq!(branch.message_count, 3);
}

#[test]
fn cap_of_zero_evicts_everything() {
    let mut store = Store::new();
    store.set_max_messages_per_branch(0);

    store.water(CH1, cn("general"), msg(1, 0, "lina", "hello"));

    let branch = store.branch(CH1).unwrap();
    assert!(branch.is_empty_of_unpruned());
    assert_eq!(branch.message_count, 1);

    assert!(store.tend(ts(3600), Span::minutes(10)).is_empty());
}

#[test]
fn cap_persists_and_enforces_on_load() {
    let mut store = Store::new();
    store.set_max_messages_per_branch(3);
    for i in 1..=5 {
        store.water(CH1, cn("general"), msg(i, i as i64 * 10, "lina", "msg"));
    }

    let reloaded = reload(&store);
    assert_eq!(reloaded.max_messages_per_branch(), Some(3));
    assert_eq!(reloaded.branch(CH1).unwrap().unpruned_count(), 3);
    assert_eq!(reloaded.branch(CH1).unwrap().earliest_unpruned().unwrap().id, 3);
}

#[test]
fn cap_does_not_create_prune_records() {
    let mut store = Store::new();
    store.set_max_messages_per_branch(2);

    for i in 1..=5 {
        store.water(CH1, cn("general"), msg(i, i as i64 * 10, "lina", "msg"));
    }

    assert!(store.history().is_empty());
    assert_eq!(store.branch(CH1).unwrap().unpruned_count(), 2);
}

#[test]
fn cap_preserves_last_activity_and_latest_known_id() {
    let mut store = Store::new();
    store.set_max_messages_per_branch(1);

    store.water(CH1, cn("general"), msg(1, 0, "lina", "first"));
    store.water(CH1, cn("general"), msg(2, 100, "lina", "second"));

    let branch = store.branch(CH1).unwrap();
    assert_eq!(branch.last_activity, ts(100));
    assert_eq!(store.latest_known_id(CH1).unwrap(), 2);
}

#[test]
fn cap_works_across_multiple_branches() {
    let mut store = Store::new();
    store.set_max_messages_per_branch(2);

    for i in 1..=4 {
        store.water(CH1, cn("general"), msg(i, i as i64 * 10, "lina", "msg"));
    }
    for i in 1..=4 {
        store.water(CH2, cn("random"), msg(i + 100, i as i64 * 10, "ari", "msg"));
    }

    assert_eq!(store.branch(CH1).unwrap().unpruned_count(), 2);
    assert_eq!(store.branch(CH2).unwrap().unpruned_count(), 2);
    assert_eq!(store.branch(CH1).unwrap().earliest_unpruned().unwrap().id, 3);
    assert_eq!(store.branch(CH2).unwrap().earliest_unpruned().unwrap().id, 103);
}

#[test]
fn cap_bounds_growth_under_sustained_load() {
    let mut store = Store::new();
    store.set_max_messages_per_branch(100);

    for i in 1..=10_000u64 {
        store.water(CH1, cn("general"), msg(i, i as i64, "lina", "msg"));
    }

    assert_eq!(store.branch(CH1).unwrap().unpruned_count(), 100);
    assert_eq!(store.branch(CH1).unwrap().earliest_unpruned().unwrap().id, 9901);
    assert_eq!(store.branch(CH1).unwrap().latest().unwrap().id, 10000);
    assert_eq!(store.branch(CH1).unwrap().message_count, 10_000);
}
