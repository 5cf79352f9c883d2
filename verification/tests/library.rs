//! Tests of the library's own surface: ids and their text, time arithmetic,
//! rebuilding a store from ledger parts, the ordering promises of `status`
//! and `tend`, and concrete instances of the laws the library proves.

use entmoot::{
    default_stale_threshold, Author, BranchParts, ChannelId, ChannelName, Content, Disposition, EntmootError,
    InvalidText, Message, PruneRecord, Span, Store, Timestamp, MAX_AUTHOR_LEN,
};

fn ts(seconds: i64) -> Timestamp {
    Timestamp::from_secs(seconds)
}

fn msg(id: u64, seconds: i64, content: &str) -> Message {
    Message::new(id, ts(seconds), "lina", content).unwrap()
}

fn cn(s: &str) -> ChannelName {
    ChannelName::parse(s).unwrap()
}

fn unpruned_ids(store: &Store, id: ChannelId) -> Vec<u64> {
    store.branch(id).unwrap().unpruned().iter().map(|m| m.id).collect()
}

#[test]
fn channel_id_text_round_trips() {
    for v in [0u64, 7, 10, 99, 100, 1001, 1507753511155405011, u64::MAX] {
        let id = ChannelId::new(v);
        let text = id.to_string();
        assert_eq!(text, v.to_string());
        assert_eq!(ChannelId::parse(&text), Ok(id));
    }
}

#[test]
fn channel_id_rejects_plus_sign_and_leading_non_digits() {
    assert_eq!(ChannelId::parse("+1"), Err(entmoot::InvalidChannelId::NotNumeric));
    assert_eq!(ChannelId::parse("٣"), Err(entmoot::InvalidChannelId::NotNumeric));
    assert_eq!(ChannelId::parse("007").unwrap().as_u64(), 7);
}

#[test]
fn timestamps_and_spans_compute_exactly() {
    let a = Timestamp::new(10, 250_000_000);
    let b = Timestamp::new(12, 0);
    assert_eq!(a.since(&ts(0)), Span::nanoseconds(10_250_000_000));
    assert_eq!(b.since(&a), Span::nanoseconds(1_750_000_000));
    assert_eq!(a.since(&b), Span::nanoseconds(-1_750_000_000));
    assert!(b.is_after(&a));
    assert!(!a.is_after(&b));
    assert!(!a.is_after(&a));
    assert_eq!(Span::seconds(90), Span::nanoseconds(90_000_000_000));
    assert_eq!(Span::minutes(2), Span::seconds(120));
    assert_eq!(Span::hours(1), Span::minutes(60));
    assert_eq!(default_stale_threshold(), Span::minutes(10));
    assert!(Span::minutes(10).at_least(&Span::seconds(600)));
    assert!(!Span::seconds(599).at_least(&Span::minutes(10)));
    assert_eq!(Timestamp::new(i64::MIN, 0).since(&ts(0)).nanos, i64::MIN as i128 * 1_000_000_000);
    assert_eq!(ts(i64::MAX).since(&ts(i64::MIN)).nanos, (u64::MAX as i128) * 1_000_000_000);
}

#[test]
fn leap_seconds_order_and_subtract_as_chrono_does() {
    let leap = Timestamp::new(59, 1_000_000_000);
    let deep_leap = Timestamp::new(59, 1_500_000_000);
    // The leap second belongs to second 59: after it only within that second.
    assert!(leap.is_after(&ts(59)));
    assert!(ts(60).is_after(&deep_leap));
    assert!(!deep_leap.is_after(&ts(60)));
    // Counting from a leap second to a later second adds the leap second.
    assert_eq!(ts(60).since(&leap), Span::seconds(1));
    assert_eq!(leap.since(&ts(60)), Span::seconds(-1));
    assert_eq!(deep_leap.since(&ts(59)), Span::nanoseconds(1_500_000_000));
    assert_eq!(
        Timestamp::new(10_859, 1_000_000_000).since(&Timestamp::new(10_799, 1_000_000_000)),
        Span::seconds(61)
    );
    // Across days the second of the day decides, not the raw count.
    assert_eq!(ts(86_400).since(&Timestamp::new(86_399, 1_000_000_000)), Span::seconds(0));
}

#[test]
fn disposition_names() {
    assert_eq!(Disposition::Done.as_str(), "done");
    assert_eq!(Disposition::Dropped.as_str(), "dropped");
    assert_eq!(Disposition::Parked.as_str(), "parked");
}

#[test]
fn text_limits_count_bytes_not_characters() {
    let fits = "é".repeat(MAX_AUTHOR_LEN / 2);
    assert_eq!(Author::parse(&fits).unwrap().as_str(), fits);
    let over = "é".repeat(MAX_AUTHOR_LEN / 2 + 1);
    assert_eq!(Author::parse(&over), Err(InvalidText::TooLong));
    assert_eq!(Content::parse("").unwrap().as_str(), "");
}

#[test]
fn message_new_keeps_its_fields() {
    let m = Message::new(42, Timestamp::new(5, 6), "ari", "hello").unwrap();
    assert_eq!(m.id, 42);
    assert_eq!(m.timestamp, Timestamp::new(5, 6));
    assert_eq!(m.author.as_str(), "ari");
    assert_eq!(m.content.as_str(), "hello");
    assert_eq!(m.clone(), m);
}

#[test]
fn equal_ids_keep_arrival_order() {
    let mut store = Store::new();
    let ch = ChannelId(5);
    store.water(ch, cn("general"), msg(2, 0, "first two"));
    store.water(ch, cn("general"), msg(1, 1, "one"));
    store.water(ch, cn("general"), msg(2, 2, "second two"));
    let contents: Vec<String> =
        store.branch(ch).unwrap().unpruned().iter().map(|m| m.content.as_str().to_string()).collect();
    assert_eq!(contents, vec!["one", "first two", "second two"]);
}

#[test]
fn arrival_order_does_not_change_the_branch() {
    let ch = ChannelId(5);
    let mut a = Store::new();
    let mut b = Store::new();
    for id in [4u64, 1, 3, 2] {
        a.water(ch, cn("general"), msg(id, id as i64, "m"));
    }
    for id in [2u64, 3, 1, 4] {
        b.water(ch, cn("general"), msg(id, id as i64, "m"));
    }
    assert_eq!(unpruned_ids(&a, ch), vec![1, 2, 3, 4]);
    assert_eq!(unpruned_ids(&b, ch), vec![1, 2, 3, 4]);
    assert_eq!(a.branch(ch).unwrap().last_activity, b.branch(ch).unwrap().last_activity);
    assert_eq!(a.latest_known_id(ch), b.latest_known_id(ch));
    assert_eq!(a.branch(ch).unwrap().message_count, 4);
}

#[test]
fn a_late_old_message_does_not_rewind_clock_or_latest_id() {
    let ch = ChannelId(5);
    let mut store = Store::new();
    store.water(ch, cn("general"), msg(9, 100, "new"));
    store.water(ch, cn("general"), msg(3, 10, "old"));
    let b = store.branch(ch).unwrap();
    assert_eq!(b.last_activity, ts(100));
    assert_eq!(b.latest_known_id(), 9);
    assert_eq!(b.earliest_unpruned().unwrap().id, 3);
    assert_eq!(b.latest().unwrap().id, 9);
}

#[test]
fn prune_spares_later_ids_and_keeps_clocks() {
    let ch = ChannelId(5);
    let mut store = Store::new();
    for id in 1..=5u64 {
        store.water(ch, cn("general"), msg(id, id as i64 * 10, "m"));
    }
    let record = store.prune(ch, 3, Disposition::Parked, ts(77)).unwrap();
    assert_eq!(
        record,
        PruneRecord { channel_id: ch, message_id: 3, disposition: Disposition::Parked, pruned_at: ts(77) }
    );
    assert_eq!(unpruned_ids(&store, ch), vec![4, 5]);
    let b = store.branch(ch).unwrap();
    assert_eq!(b.message_count, 5);
    assert_eq!(b.last_activity, ts(50));
    assert_eq!(b.latest_known_id(), 5);
    assert_eq!(b.channel_name.as_str(), "general");
    // A cursor below everything clears nothing but is still recorded.
    store.prune(ch, 0, Disposition::Done, ts(78)).unwrap();
    assert_eq!(unpruned_ids(&store, ch), vec![4, 5]);
    assert_eq!(store.history().len(), 2);
}

#[test]
fn prune_latest_on_a_pruned_branch_still_records() {
    let ch = ChannelId(5);
    let mut store = Store::new();
    store.water(ch, cn("general"), msg(1, 0, "m"));
    store.prune_latest(ch, Disposition::Done, ts(1)).unwrap();
    let again = store.prune_latest(ch, Disposition::Dropped, ts(2)).unwrap();
    assert_eq!(again.message_id, 1);
    assert_eq!(store.history().len(), 2);
    assert!(store.branch(ch).unwrap().is_empty_of_unpruned());
}

#[test]
fn history_for_filters_by_channel_in_order() {
    let (a, b) = (ChannelId(1), ChannelId(2));
    let mut store = Store::new();
    store.water(a, cn("a"), msg(1, 0, "m"));
    store.water(b, cn("b"), msg(1, 0, "m"));
    store.prune(a, 1, Disposition::Done, ts(1)).unwrap();
    store.prune(b, 1, Disposition::Dropped, ts(2)).unwrap();
    store.prune(a, 1, Disposition::Parked, ts(3)).unwrap();
    let for_a: Vec<Disposition> = store.history_for(a).iter().map(|r| r.disposition).collect();
    assert_eq!(for_a, vec![Disposition::Done, Disposition::Parked]);
    let for_b: Vec<Disposition> = store.history_for(b).iter().map(|r| r.disposition).collect();
    assert_eq!(for_b, vec![Disposition::Dropped]);
    assert!(store.history_for(ChannelId(3)).is_empty());
    assert_eq!(store.history().len(), 3);
}

#[test]
fn status_is_sorted_by_channel_id() {
    let mut store = Store::new();
    for id in [30u64, 10, 20] {
        store.water(ChannelId(id), cn("c"), msg(1, 0, "m"));
    }
    let ids: Vec<u64> = store.status(ts(0)).iter().map(|s| s.channel_id.0).collect();
    assert_eq!(ids, vec![10, 20, 30]);
    let listed: Vec<u64> = store.channel_ids().iter().map(|c| c.0).collect();
    assert_eq!(listed, vec![10, 20, 30]);
}

#[test]
fn status_of_a_fully_pruned_branch_has_no_messages() {
    let ch = ChannelId(5);
    let mut store = Store::new();
    store.water(ch, cn("general"), msg(1, 0, "m"));
    store.prune_latest(ch, Disposition::Done, ts(0)).unwrap();
    let status = store.status(ts(60));
    assert!(status[0].earliest_unpruned.is_none());
    assert!(status[0].latest.is_none());
    assert_eq!(status[0].message_count, 1);
    assert_eq!(status[0].staleness, Span::seconds(60));
}

#[test]
fn tend_breaks_ties_by_channel_id() {
    let mut store = Store::new();
    for id in [7u64, 3, 5] {
        store.water(ChannelId(id), cn("c"), msg(1, 0, "m"));
    }
    store.water(ChannelId(9), cn("c"), msg(1, -100, "older"));
    let ids: Vec<u64> = store.tend(ts(1000), Span::minutes(1)).iter().map(|t| t.channel_id.0).collect();
    assert_eq!(ids, vec![9, 3, 5, 7]);
}

#[test]
fn tend_threshold_is_inclusive() {
    let mut store = Store::new();
    store.water(ChannelId(1), cn("c"), msg(1, 0, "m"));
    assert_eq!(store.tend(ts(600), Span::minutes(10)).len(), 1);
    assert_eq!(store.tend(ts(599), Span::minutes(10)).len(), 0);
}

#[test]
fn restore_keeps_the_ledger_as_written() {
    let ch = ChannelId(8);
    let parts = BranchParts {
        channel_id: ch,
        channel_name: cn("general"),
        messages: vec![msg(5, 50, "e"), msg(2, 20, "b"), msg(9, 90, "i")],
        message_count: 12,
        last_activity: ts(95),
        latest_known_id: 4,
    };
    let store = Store::restore(vec![parts], Vec::new(), None);
    assert_eq!(unpruned_ids(&store, ch), vec![5, 2, 9]);
    assert_eq!(store.latest_known_id(ch), Some(4));
    let b = store.branch(ch).unwrap();
    assert_eq!(b.message_count(), 12);
    assert_eq!(b.last_activity(), ts(95));
    assert_eq!(b.channel_id(), ch);
    assert_eq!(b.channel_name().as_str(), "general");
}

#[test]
fn restore_applies_the_cap_and_keeps_history() {
    let ch = ChannelId(8);
    let parts = BranchParts {
        channel_id: ch,
        channel_name: cn("general"),
        messages: (1..=5u64).map(|i| msg(i, i as i64, "m")).collect(),
        message_count: 5,
        last_activity: ts(5),
        latest_known_id: 5,
    };
    let record = PruneRecord { channel_id: ch, message_id: 0, disposition: Disposition::Done, pruned_at: ts(1) };
    let store = Store::restore(vec![parts], vec![record], Some(2));
    assert_eq!(unpruned_ids(&store, ch), vec![4, 5]);
    assert_eq!(store.max_messages_per_branch(), Some(2));
    assert_eq!(store.history(), &[record]);
}

#[test]
fn restore_lets_a_later_part_replace_an_earlier_one() {
    let ch = ChannelId(8);
    let first = BranchParts {
        channel_id: ch,
        channel_name: cn("old-name"),
        messages: vec![msg(1, 1, "m")],
        message_count: 1,
        last_activity: ts(1),
        latest_known_id: 1,
    };
    let second = BranchParts {
        channel_id: ch,
        channel_name: cn("new-name"),
        messages: vec![],
        message_count: 3,
        last_activity: ts(3),
        latest_known_id: 3,
    };
    let store = Store::restore(vec![first, second], Vec::new(), None);
    assert_eq!(store.channel_count(), 1);
    assert_eq!(store.branch(ch).unwrap().channel_name.as_str(), "new-name");
    assert!(store.branch(ch).unwrap().is_empty_of_unpruned());
}

#[test]
fn parts_and_restore_round_trip() {
    let mut store = Store::new();
    store.set_max_messages_per_branch(3);
    for id in [4u64, 1, 6, 2, 8] {
        store.water(ChannelId(id % 3), cn("c"), msg(id, id as i64, "m"));
    }
    store.prune(ChannelId(1), 2, Disposition::Parked, ts(9)).unwrap();
    let back = Store::restore(store.branch_parts(), store.history().to_vec(), store.max_messages_per_branch());
    assert_eq!(back.channel_ids(), store.channel_ids());
    for id in store.channel_ids() {
        let (x, y) = (store.branch(id).unwrap(), back.branch(id).unwrap());
        assert_eq!(x.unpruned(), y.unpruned());
        assert_eq!(x.message_count, y.message_count);
        assert_eq!(x.last_activity, y.last_activity);
        assert_eq!(x.latest_known_id(), y.latest_known_id());
        assert_eq!(x.channel_name, y.channel_name);
    }
    assert_eq!(back.history(), store.history());
}

#[test]
fn set_cap_keeps_clocks_and_history() {
    let ch = ChannelId(1);
    let mut store = Store::default();
    for id in 1..=4u64 {
        store.water(ch, cn("c"), msg(id, id as i64, "m"));
    }
    store.prune(ch, 1, Disposition::Done, ts(5)).unwrap();
    store.set_max_messages_per_branch(1);
    assert_eq!(unpruned_ids(&store, ch), vec![4]);
    let b = store.branch(ch).unwrap();
    assert_eq!(b.message_count, 4);
    assert_eq!(b.latest_known_id(), 4);
    assert_eq!(store.history().len(), 1);
    // Raising the cap brings nothing back.
    store.set_max_messages_per_branch(10);
    assert_eq!(unpruned_ids(&store, ch), vec![4]);
}

#[test]
fn errors_name_the_channel() {
    let mut store = Store::new();
    assert_eq!(
        store.prune(ChannelId(3), 1, Disposition::Done, ts(0)),
        Err(EntmootError::UnknownChannel(ChannelId(3)))
    );
    assert_eq!(store.latest_known_id(ChannelId(3)), None);
    assert!(store.branch(ChannelId(3)).is_none());
}

#[test]
fn latest_known_id_is_the_highest_ever_watered() {
    let ch = ChannelId(4);
    let mut store = Store::new();
    assert!(store.is_empty());
    store.water(ch, cn("c"), msg(1, 0, "m"));
    assert!(!store.is_empty());
    store.water(ch, cn("c"), msg(2, 1, "m"));
    store.prune(ch, 2, Disposition::Done, ts(2)).unwrap();
    assert!(store.branch(ch).unwrap().is_empty_of_unpruned());
    assert_eq!(store.latest_known_id(ch), Some(2));
    store.water(ch, cn("c"), msg(1, 3, "late"));
    assert_eq!(store.latest_known_id(ch), Some(2));
    assert_eq!(store.latest_known_id(ChannelId(5)), None);
}

#[test]
fn history_lists_exactly_the_answered_records() {
    let (a, b) = (ChannelId(1), ChannelId(2));
    let mut store = Store::new();
    let mut answered = Vec::new();
    store.water(a, cn("a"), msg(3, 0, "m"));
    answered.push(store.prune(a, 1, Disposition::Done, ts(1)).unwrap());
    assert!(store.prune(b, 1, Disposition::Done, ts(2)).is_err());
    assert!(store.prune_latest(b, Disposition::Done, ts(3)).is_err());
    store.water(b, cn("b"), msg(7, 0, "m"));
    store.set_max_messages_per_branch(1);
    answered.push(store.prune_latest(b, Disposition::Parked, ts(4)).unwrap());
    answered.push(store.prune_latest(a, Disposition::Dropped, ts(5)).unwrap());
    assert_eq!(store.history(), answered.as_slice());
    assert_eq!(answered[1].message_id, 7);
    assert_eq!(answered[2].message_id, 3);
}

#[test]
fn channel_count_is_the_distinct_channels_watered() {
    let mut store = Store::new();
    for (ch, id) in [(3u64, 1u64), (1, 2), (3, 3), (2, 4), (1, 5)] {
        store.water(ChannelId(ch), cn("c"), msg(id, 0, "m"));
    }
    store.prune_latest(ChannelId(3), Disposition::Done, ts(1)).unwrap();
    store.set_max_messages_per_branch(0);
    assert_eq!(store.channel_count(), 3);
    assert!(!store.is_empty());
}

#[test]
fn a_cap_keeps_the_highest_ids_whatever_the_arrival_order() {
    let ch = ChannelId(6);
    let mut capped = Store::new();
    capped.set_max_messages_per_branch(2);
    let mut free = Store::new();
    for id in [5u64, 1, 9, 3] {
        capped.water(ch, cn("c"), msg(id, id as i64, "m"));
        free.water(ch, cn("c"), msg(id, id as i64, "m"));
    }
    assert_eq!(unpruned_ids(&free, ch), vec![1, 3, 5, 9]);
    assert_eq!(unpruned_ids(&capped, ch), vec![5, 9]);
    let (c, f) = (capped.branch(ch).unwrap(), free.branch(ch).unwrap());
    assert_eq!(c.message_count(), f.message_count());
    assert_eq!(c.last_activity(), f.last_activity());
    assert_eq!(c.latest_known_id(), f.latest_known_id());
    assert!(capped.history().is_empty());
}

#[test]
fn a_cap_keeps_the_highest_ids_of_a_ledger_out_of_order() {
    let ch = ChannelId(6);
    let parts = BranchParts {
        channel_id: ch,
        channel_name: cn("c"),
        messages: vec![msg(5, 5, "e"), msg(2, 2, "b"), msg(9, 9, "i")],
        message_count: 3,
        last_activity: ts(9),
        latest_known_id: 9,
    };
    let mut store = Store::restore(vec![parts], Vec::new(), Some(2));
    assert_eq!(unpruned_ids(&store, ch), vec![2, 9]);
    store.water(ch, cn("c"), msg(7, 7, "g"));
    assert_eq!(unpruned_ids(&store, ch), vec![7, 9]);
    assert_eq!(store.branch(ch).unwrap().message_count(), 4);
    assert!(store.history().is_empty());
}

#[test]
fn timestamps_hold_leap_seconds_only_at_a_minutes_end() {
    let t = Timestamp::new(119, 1_999_999_999);
    assert_eq!(t.subsec_nanos, 1_999_999_999);
    assert!(Timestamp::new(120, 0).is_after(&t));
}
