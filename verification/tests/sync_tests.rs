use sliding_sync::conn::{ConnKey, ConnectionCache, ExtensionsConfig, SyncList, SyncRequest};
use sliding_sync::counter::Counter;
use sliding_sync::lists::{RoomTypeRow, RoomTypeTag, TypeLookup, clamp_range, filter_rooms};
use sliding_sync::rooms::{
    AvatarLookup, MemberInfo, MemberProfile, RoomInputs, RoomOutcome, SkipReason, TimelineEvent,
    TimelineFetch, bump_stamp, collect_heroes, hero_fallback_name, prev_batch,
};
use sliding_sync::sync::{SyncError, SyncStorage, sync_events};
use sliding_sync::typing::TypingRegistry;

fn s(x: &str) -> String {
    x.to_string()
}

fn empty_extensions() -> ExtensionsConfig {
    ExtensionsConfig {
        account_data_enabled: None,
        account_data_rooms: None,
        e2ee_enabled: None,
        to_device_enabled: None,
        receipts_enabled: None,
        typing_enabled: None,
        typing_rooms: None,
        typing_lists: None,
    }
}

fn empty_request(pos: u64) -> SyncRequest {
    SyncRequest {
        txn_id: None,
        pos,
        conn_id: Some(s("conn")),
        timeout: None,
        lists: Vec::new(),
        subscriptions: Vec::new(),
        extensions: empty_extensions(),
    }
}

fn empty_storage() -> SyncStorage {
    SyncStorage {
        joined: Vec::new(),
        invited: Vec::new(),
        knocked: Vec::new(),
        room_types: Vec::new(),
        sub_meta: Vec::new(),
        room_inputs: Vec::new(),
        ignored: Vec::new(),
        account_global: Vec::new(),
        account_rooms: Vec::new(),
        e2ee_rooms: Vec::new(),
        keys_changed: Vec::new(),
        share_any: Vec::new(),
        one_time_key_counts: Vec::new(),
        now: 0,
    }
}

fn plain_inputs() -> RoomInputs {
    RoomInputs {
        is_invite: false,
        invite_state: None,
        timeline: Some(TimelineFetch { events: Vec::new(), limited: false }),
        account_data_enabled: false,
        account_data: Vec::new(),
        receipts: Vec::new(),
        private_read: None,
        name: None,
        members: Vec::new(),
        state_results: Vec::new(),
        highlight_count: 0,
        notification_count: 0,
        joined_count: 0,
        invited_count: 0,
        avatar: AvatarLookup::Unset,
    }
}

fn member(id: &str) -> MemberInfo {
    MemberInfo {
        user_id: s(id),
        profile: Some(MemberProfile { displayname: None, avatar_url: None }),
    }
}

#[test]
fn window_clamp_floor_and_ceiling() {
    // range (5, 1000) against an active set of size 7 yields [0, 7)
    let r = clamp_range((5, 1000), 7);
    assert_eq!(r, (0, 7));
    let r = clamp_range((0, 3), 7);
    assert_eq!(r, (0, 3));
}

#[test]
fn window_clamp_count_reports_active_set_size() {
    let mut cache = ConnectionCache::new();
    let mut counter = Counter::new();
    let reg = TypingRegistry::new();
    let mut queue = Vec::new();
    let mut storage = empty_storage();
    for i in 0..7 {
        storage.joined.push(format!("!room{i}:x"));
    }
    let mut req = empty_request(0);
    req.lists.push(SyncList {
        name: s("all"),
        ranges: vec![(5, 1000)],
        filter_invite: None,
        not_room_types: Vec::new(),
        required_state: Vec::new(),
        timeline_limit: 10,
    });
    let out = sync_events(
        &s("@me:x"),
        &s("DEV"),
        req,
        &mut cache,
        &mut counter,
        &reg,
        &mut queue,
        storage,
    )
    .map_err(|_| "unknown pos").expect("initial sync succeeds");
    assert_eq!(out.0.lists.len(), 1);
    assert_eq!(out.0.lists[0].name, s("all"));
    assert_eq!(out.0.lists[0].count, 7);
}

#[test]
fn restart_safety_initial_sync_always_succeeds() {
    let mut cache = ConnectionCache::new();
    let mut counter = Counter::new();
    let reg = TypingRegistry::new();
    let mut queue = Vec::new();
    let out = sync_events(
        &s("@me:x"),
        &s("DEV"),
        empty_request(0),
        &mut cache,
        &mut counter,
        &reg,
        &mut queue,
        empty_storage(),
    );
    assert!(out.is_ok());
}

#[test]
fn restart_safety_unknown_position_is_rejected() {
    let mut cache = ConnectionCache::new();
    let mut counter = Counter::new();
    let reg = TypingRegistry::new();
    let mut queue = Vec::new();
    let out = sync_events(
        &s("@me:x"),
        &s("DEV"),
        empty_request(42),
        &mut cache,
        &mut counter,
        &reg,
        &mut queue,
        empty_storage(),
    );
    assert!(matches!(out, Err(SyncError::UnknownPos)));
}

#[test]
fn monotonic_cursor_over_one_connection() {
    let mut cache = ConnectionCache::new();
    let mut counter = Counter::new();
    let reg = TypingRegistry::new();
    let mut queue = Vec::new();
    let first = sync_events(
        &s("@me:x"),
        &s("DEV"),
        empty_request(0),
        &mut cache,
        &mut counter,
        &reg,
        &mut queue,
        empty_storage(),
    )
    .map_err(|_| "unknown pos").expect("initial sync");
    let pos1: u64 = first.0.pos.parse().expect("decimal cursor");
    let mut queue2 = Vec::new();
    let second = sync_events(
        &s("@me:x"),
        &s("DEV"),
        empty_request(pos1),
        &mut cache,
        &mut counter,
        &reg,
        &mut queue2,
        empty_storage(),
    )
    .map_err(|_| "unknown pos").expect("continuation succeeds");
    let pos2: u64 = second.0.pos.parse().expect("decimal cursor");
    assert!(pos2 > pos1);
}

#[test]
fn minimality_unchanged_room_is_omitted() {
    let inputs = plain_inputs();
    let out = sliding_sync::rooms::build_room_view(7, &s("@me:x"), &Vec::new(), inputs);
    assert!(matches!(out, RoomOutcome::Skip(SkipReason::Unchanged)));
}

#[test]
fn minimality_initial_sync_room_is_kept() {
    let inputs = plain_inputs();
    let out = sliding_sync::rooms::build_room_view(0, &s("@me:x"), &Vec::new(), inputs);
    match out {
        RoomOutcome::View(v) => {
            assert!(v.initial);
            assert!(v.prev_batch.is_none());
        },
        RoomOutcome::Skip(_) => panic!("initial-sync room must be emitted"),
    }
}

#[test]
fn heroes_capped_at_five() {
    let mut members = Vec::new();
    for i in 0..10 {
        members.push(member(&format!("@u{i}:x")));
    }
    let heroes = collect_heroes(members, &s("@me:x"));
    assert_eq!(heroes.len(), 5);
    assert_eq!(heroes[0].user_id, s("@u0:x"));
}

#[test]
fn heroes_exclude_requester_and_failed_lookups() {
    let mut members = vec![member("@me:x"), member("@a:x")];
    members.push(MemberInfo { user_id: s("@broken:x"), profile: None });
    let heroes = collect_heroes(members, &s("@me:x"));
    assert_eq!(heroes.len(), 1);
    assert_eq!(heroes[0].user_id, s("@a:x"));
}

#[test]
fn hero_naming_renders_first_hero_last() {
    let members = vec![member("@b"), member("@c"), member("@a")];
    let heroes = collect_heroes(members, &s("@me:x"));
    let name = hero_fallback_name(&heroes).expect("two or more heroes");
    assert_eq!(name, s("@c, @a and @b"));
}

#[test]
fn hero_naming_single_hero() {
    let heroes = collect_heroes(vec![member("@only:x")], &s("@me:x"));
    assert_eq!(hero_fallback_name(&heroes), Some(s("@only:x")));
    let none: Vec<sliding_sync::rooms::Hero> = Vec::new();
    assert_eq!(hero_fallback_name(&none), None);
}

fn ev(count: u64, kind: &str, ts: u64) -> TimelineEvent {
    TimelineEvent {
        count,
        backfilled: false,
        kind: s(kind),
        sender: s("@a:x"),
        origin_server_ts: ts,
        payload: s("{}"),
    }
}

#[test]
fn bump_stamp_takes_latest_allowlisted_timestamp() {
    let events = vec![
        ev(1, "m.room.message", 10),
        ev(2, "m.room.topic", 99),
        ev(3, "m.room.message", 20),
    ];
    assert_eq!(bump_stamp(&events), Some(20));
    let none = vec![ev(1, "m.room.topic", 10)];
    assert_eq!(bump_stamp(&none), None);
}

#[test]
fn prev_batch_rules() {
    let events = vec![ev(17, "m.room.message", 10)];
    assert_eq!(prev_batch(&events, 5), Some(s("17")));
    let empty: Vec<TimelineEvent> = Vec::new();
    assert_eq!(prev_batch(&empty, 5), Some(s("5")));
    assert_eq!(prev_batch(&empty, 0), None);
    let mut backfilled = vec![ev(17, "m.room.message", 10)];
    backfilled[0].backfilled = true;
    assert_eq!(prev_batch(&backfilled, 5), Some(s("0")));
}

#[test]
fn decimal_rendering() {
    assert_eq!(sliding_sync::strutil::u64_to_dec(0), s("0"));
    assert_eq!(sliding_sync::strutil::u64_to_dec(12345), s("12345"));
    assert_eq!(
        sliding_sync::strutil::u64_to_dec(u64::MAX),
        s("18446744073709551615")
    );
}

#[test]
fn minimality_through_full_sync() {
    let mut cache = ConnectionCache::new();
    let mut counter = Counter::new();
    let reg = TypingRegistry::new();
    let mut queue = Vec::new();

    // first sync: one joined room in a window, one event in its timeline
    let mut storage = empty_storage();
    storage.joined.push(s("!r:x"));
    let mut inputs = plain_inputs();
    inputs.timeline = Some(TimelineFetch {
        events: vec![ev(9, "m.room.message", 30)],
        limited: false,
    });
    storage.room_inputs.push(sliding_sync::sync::RoomData { room: s("!r:x"), inputs });
    let mut req = empty_request(0);
    req.lists.push(SyncList {
        name: s("all"),
        ranges: vec![(0, 10)],
        filter_invite: None,
        not_room_types: Vec::new(),
        required_state: Vec::new(),
        timeline_limit: 10,
    });
    let out = sync_events(
        &s("@me:x"), &s("DEV"), req, &mut cache, &mut counter, &reg, &mut queue, storage,
    )
    .map_err(|_| "unknown pos")
    .expect("first sync");
    assert_eq!(out.0.rooms.len(), 1);
    assert_eq!(out.0.rooms[0].room, s("!r:x"));
    assert_eq!(out.0.rooms[0].view.timeline.len(), 1);
    assert!(out.1.is_none(), "a response with timeline changes does not long-poll");
    let pos1: u64 = out.0.pos.parse().expect("decimal cursor");

    // second sync: the room's recorded watermark is still 0 ("unknown"),
    // so it is resent in full even though nothing changed
    let mut storage = empty_storage();
    storage.joined.push(s("!r:x"));
    storage.room_inputs.push(sliding_sync::sync::RoomData {
        room: s("!r:x"),
        inputs: plain_inputs(),
    });
    let mut req = empty_request(pos1);
    req.lists.push(SyncList {
        name: s("all"),
        ranges: vec![(0, 10)],
        filter_invite: None,
        not_room_types: Vec::new(),
        required_state: Vec::new(),
        timeline_limit: 10,
    });
    let out = sync_events(
        &s("@me:x"), &s("DEV"), req, &mut cache, &mut counter, &reg, &mut queue, storage,
    )
    .map_err(|_| "unknown pos")
    .expect("second sync");
    assert_eq!(out.0.rooms.len(), 1, "a room with a zero watermark is resent in full");
    let pos2: u64 = out.0.pos.parse().expect("decimal cursor");

    // third sync: the watermark recorded at the second request is nonzero
    // and nothing changed, so the room must be omitted entirely
    let mut storage = empty_storage();
    storage.joined.push(s("!r:x"));
    storage.room_inputs.push(sliding_sync::sync::RoomData {
        room: s("!r:x"),
        inputs: plain_inputs(),
    });
    let mut req = empty_request(pos2);
    req.lists.push(SyncList {
        name: s("all"),
        ranges: vec![(0, 10)],
        filter_invite: None,
        not_room_types: Vec::new(),
        required_state: Vec::new(),
        timeline_limit: 10,
    });
    let out = sync_events(
        &s("@me:x"), &s("DEV"), req, &mut cache, &mut counter, &reg, &mut queue, storage,
    )
    .map_err(|_| "unknown pos")
    .expect("third sync");
    assert!(out.0.rooms.is_empty(), "an unchanged room must be absent from the rooms map");
    assert!(out.1.is_some(), "an empty response asks the shell to long-poll");
}

#[test]
fn sticky_lists_inherited_on_later_request() {
    let mut cache = ConnectionCache::new();
    let mut counter = Counter::new();
    let reg = TypingRegistry::new();
    let mut queue = Vec::new();
    let mut storage = empty_storage();
    storage.joined.push(s("!r:x"));
    let mut req = empty_request(0);
    req.lists.push(SyncList {
        name: s("all"),
        ranges: vec![(0, 10)],
        filter_invite: None,
        not_room_types: Vec::new(),
        required_state: Vec::new(),
        timeline_limit: 10,
    });
    let out = sync_events(
        &s("@me:x"), &s("DEV"), req, &mut cache, &mut counter, &reg, &mut queue, storage,
    )
    .map_err(|_| "unknown pos")
    .expect("first sync");
    let pos1: u64 = out.0.pos.parse().expect("decimal cursor");

    // the second request sends no lists at all: the sticky one is reused
    let mut storage = empty_storage();
    storage.joined.push(s("!r:x"));
    let out = sync_events(
        &s("@me:x"), &s("DEV"), empty_request(pos1), &mut cache, &mut counter, &reg, &mut queue,
        storage,
    )
    .map_err(|_| "unknown pos")
    .expect("second sync");
    assert_eq!(out.0.lists.len(), 1);
    assert_eq!(out.0.lists[0].name, s("all"));
    assert_eq!(out.0.lists[0].count, 1);
}

#[test]
fn typing_extension_through_full_sync() {
    let mut cache = ConnectionCache::new();
    let mut counter = Counter::new();
    let mut reg = TypingRegistry::new();
    let mut queue = Vec::new();
    reg.typing_add(&s("@a:x"), &s("!r:x"), 500, &mut counter, false, false);
    let mut storage = empty_storage();
    storage.joined.push(s("!r:x"));
    storage.now = 100;
    let mut req = empty_request(0);
    req.lists.push(SyncList {
        name: s("all"),
        ranges: vec![(0, 10)],
        filter_invite: None,
        not_room_types: Vec::new(),
        required_state: Vec::new(),
        timeline_limit: 10,
    });
    req.extensions.typing_enabled = Some(true);
    req.extensions.typing_rooms = Some(vec![s("!r:x")]);
    let out = sync_events(
        &s("@me:x"), &s("DEV"), req, &mut cache, &mut counter, &reg, &mut queue, storage,
    )
    .map_err(|_| "unknown pos")
    .expect("sync with typing");
    assert_eq!(out.0.extensions.typing.len(), 1);
    assert_eq!(out.0.extensions.typing[0].room, s("!r:x"));
    assert_eq!(out.0.extensions.typing[0].event.user_ids, vec![s("@a:x")]);
}

#[test]
fn unknown_position_is_per_connection_id() {
    let mut cache = ConnectionCache::new();
    let mut counter = Counter::new();
    let reg = TypingRegistry::new();
    let mut queue = Vec::new();
    let first = sync_events(
        &s("@me:x"), &s("DEV"), empty_request(0), &mut cache, &mut counter, &reg, &mut queue,
        empty_storage(),
    )
    .map_err(|_| "unknown pos")
    .expect("initial sync");
    let pos1: u64 = first.0.pos.parse().expect("decimal cursor");

    // the same cursor under a connection id never seen before is rejected
    let mut other = empty_request(pos1);
    other.conn_id = Some(s("other"));
    let out = sync_events(
        &s("@me:x"), &s("DEV"), other, &mut cache, &mut counter, &reg, &mut queue,
        empty_storage(),
    );
    assert!(matches!(out, Err(SyncError::UnknownPos)));
}

#[test]
fn restart_discards_sticky_state() {
    let mut cache = ConnectionCache::new();
    let mut counter = Counter::new();
    let reg = TypingRegistry::new();
    let mut queue = Vec::new();
    let mut storage = empty_storage();
    storage.joined.push(s("!r:x"));
    let mut req = empty_request(0);
    req.lists.push(SyncList {
        name: s("all"),
        ranges: vec![(0, 10)],
        filter_invite: None,
        not_room_types: Vec::new(),
        required_state: Vec::new(),
        timeline_limit: 10,
    });
    sync_events(
        &s("@me:x"), &s("DEV"), req, &mut cache, &mut counter, &reg, &mut queue, storage,
    )
    .map_err(|_| "unknown pos")
    .expect("first sync");

    // a restart (cursor 0) forgets the sticky list instead of inheriting it
    let mut storage = empty_storage();
    storage.joined.push(s("!r:x"));
    let out = sync_events(
        &s("@me:x"), &s("DEV"), empty_request(0), &mut cache, &mut counter, &reg, &mut queue,
        storage,
    )
    .map_err(|_| "unknown pos")
    .expect("restart succeeds");
    assert!(out.0.lists.is_empty());
}

#[test]
fn type_filter_excludes_listed_types_and_failed_probes() {
    let rooms = vec![s("!plain:x"), s("!space:x"), s("!broken:x"), s("!unknown:x")];
    let table = vec![
        RoomTypeRow { room: s("!plain:x"), lookup: TypeLookup::Found(RoomTypeTag::Untyped) },
        RoomTypeRow {
            room: s("!space:x"),
            lookup: TypeLookup::Found(RoomTypeTag::Typed(s("m.space"))),
        },
        RoomTypeRow { room: s("!broken:x"), lookup: TypeLookup::Failed },
    ];
    let filter = vec![RoomTypeTag::Typed(s("m.space"))];
    let kept = filter_rooms(rooms, &table, &filter, true);
    // the space is excluded by the filter, the failed probe conservatively
    // drops its room, and a room with no row counts as untyped
    assert_eq!(kept, vec![s("!plain:x"), s("!unknown:x")]);
}

#[test]
fn connection_cache_forget_clears_watermarks() {
    let mut cache = ConnectionCache::new();
    let key = ConnKey { user: s("@me:x"), device: s("DEV"), conn_id: Some(s("c")) };
    cache.update_known_rooms(&key, &s("all"), &vec![s("!r:x")], 7);
    assert_eq!(cache.get_known_mark(&key, &s("all"), &s("!r:x")), 7);
    assert_eq!(cache.get_known_mark(&key, &s("all"), &s("!other:x")), 0);
    cache.forget(&key);
    assert_eq!(cache.get_known_mark(&key, &s("all"), &s("!r:x")), 0);
}

#[test]
fn receipts_surface_in_the_room_and_suppress_long_poll() {
    let mut cache = ConnectionCache::new();
    let mut counter = Counter::new();
    let reg = TypingRegistry::new();
    let mut queue = Vec::new();
    let mut storage = empty_storage();
    storage.joined.push(s("!r:x"));
    storage.ignored.push(s("@noise:x"));
    let mut inputs = plain_inputs();
    inputs.receipts.push(sliding_sync::rooms::ReceiptEvent {
        sender: s("@friend:x"),
        payload: s("{\"read\":1}"),
    });
    inputs.receipts.push(sliding_sync::rooms::ReceiptEvent {
        sender: s("@noise:x"),
        payload: s("{\"read\":2}"),
    });
    storage.room_inputs.push(sliding_sync::sync::RoomData { room: s("!r:x"), inputs });
    let mut req = empty_request(0);
    req.lists.push(SyncList {
        name: s("all"),
        ranges: vec![(0, 10)],
        filter_invite: None,
        not_room_types: Vec::new(),
        required_state: Vec::new(),
        timeline_limit: 10,
    });
    let out = sync_events(
        &s("@me:x"), &s("DEV"), req, &mut cache, &mut counter, &reg, &mut queue, storage,
    )
    .map_err(|_| "unknown pos")
    .expect("sync with receipts");
    assert_eq!(out.0.rooms.len(), 1);
    let view = &out.0.rooms[0].view;
    assert_eq!(view.receipts.len(), 1);
    assert_eq!(view.receipts[0].sender, s("@friend:x"));
    assert!(view.private_read.is_none());
    assert!(out.1.is_none(), "a response carrying receipts does not long-poll");
}

#[test]
fn private_read_marker_carried_when_fresh() {
    let mut inputs = plain_inputs();
    inputs.timeline = Some(TimelineFetch { events: vec![ev(3, "m.room.message", 9)], limited: false });
    inputs.private_read = Some(sliding_sync::rooms::PrivateRead {
        update_count: 8,
        payload: s("{\"marker\":3}"),
    });
    match sliding_sync::rooms::build_room_view(5, &s("@me:x"), &Vec::new(), inputs) {
        RoomOutcome::View(v) => assert_eq!(v.private_read, Some(s("{\"marker\":3}"))),
        RoomOutcome::Skip(_) => panic!("room with timeline must be emitted"),
    }
    let mut stale = plain_inputs();
    stale.timeline = Some(TimelineFetch { events: vec![ev(3, "m.room.message", 9)], limited: false });
    stale.private_read = Some(sliding_sync::rooms::PrivateRead {
        update_count: 4,
        payload: s("{\"marker\":3}"),
    });
    match sliding_sync::rooms::build_room_view(5, &s("@me:x"), &Vec::new(), stale) {
        RoomOutcome::View(v) => assert!(v.private_read.is_none()),
        RoomOutcome::Skip(_) => panic!("room with timeline must be emitted"),
    }
}

#[test]
fn per_room_account_data_reaches_the_extension() {
    let mut cache = ConnectionCache::new();
    let mut counter = Counter::new();
    let reg = TypingRegistry::new();
    let mut queue = Vec::new();
    let mut storage = empty_storage();
    storage.joined.push(s("!r:x"));
    let mut inputs = plain_inputs();
    inputs.account_data_enabled = true;
    inputs.account_data.push(s("{\"tag\":\"fav\"}"));
    storage.room_inputs.push(sliding_sync::sync::RoomData { room: s("!r:x"), inputs });
    let mut req = empty_request(0);
    req.extensions.account_data_enabled = Some(true);
    req.lists.push(SyncList {
        name: s("all"),
        ranges: vec![(0, 10)],
        filter_invite: None,
        not_room_types: Vec::new(),
        required_state: Vec::new(),
        timeline_limit: 10,
    });
    let out = sync_events(
        &s("@me:x"), &s("DEV"), req, &mut cache, &mut counter, &reg, &mut queue, storage,
    )
    .map_err(|_| "unknown pos")
    .expect("sync with account data");
    let rooms = &out.0.extensions.account_data.rooms;
    assert!(rooms.iter().any(|(room, events)| room == "!r:x" && events == &vec![s("{\"tag\":\"fav\"}")]));
}

#[test]
fn typing_extension_omits_rooms_without_typing_users() {
    let mut cache = ConnectionCache::new();
    let mut counter = Counter::new();
    let mut reg = TypingRegistry::new();
    let mut queue = Vec::new();
    reg.typing_add(&s("@a:x"), &s("!busy:x"), 500, &mut counter, false, false);
    let mut storage = empty_storage();
    storage.joined.push(s("!busy:x"));
    storage.joined.push(s("!quiet:x"));
    storage.now = 100;
    let mut req = empty_request(0);
    req.extensions.typing_enabled = Some(true);
    req.extensions.typing_rooms = Some(vec![s("!busy:x")]);
    let out = sync_events(
        &s("@me:x"), &s("DEV"), req, &mut cache, &mut counter, &reg, &mut queue, storage,
    )
    .map_err(|_| "unknown pos")
    .expect("sync with typing");
    assert_eq!(out.0.extensions.typing.len(), 1);
    assert_eq!(out.0.extensions.typing[0].room, s("!busy:x"));
}

#[test]
fn typing_cursor_never_decreases() {
    let mut reg = TypingRegistry::new();
    let mut counter = Counter::new();
    let c1 = reg.last_typing_update(&s("!r:x"), 0, &mut counter).0;
    reg.typing_add(&s("@a:x"), &s("!r:x"), 100, &mut counter, false, false);
    let c2 = reg.last_typing_update(&s("!r:x"), 0, &mut counter).0;
    reg.typing_remove(&s("@a:x"), &s("!r:x"), &mut counter, false, false);
    let c3 = reg.last_typing_update(&s("!r:x"), 0, &mut counter).0;
    assert!(c1 <= c2 && c2 <= c3);
}

#[test]
fn known_rooms_recorded_only_with_a_connection_id() {
    let key = ConnKey { user: s("@me:x"), device: s("DEV"), conn_id: Some(s("c")) };
    let lists = vec![SyncList {
        name: s("all"),
        ranges: vec![(0, 10)],
        filter_invite: None,
        not_room_types: Vec::new(),
        required_state: Vec::new(),
        timeline_limit: 10,
    }];
    let joined = vec![s("!r:x")];
    let none: Vec<String> = Vec::new();
    let types = Vec::new();

    let mut cache = ConnectionCache::new();
    let mut todo = sliding_sync::todo::TodoTable::new();
    sliding_sync::sync::handle_lists(
        &lists, &key, 7, false, &joined, &none, &none, &types, &mut todo, &mut cache,
    );
    assert_eq!(cache.get_known_mark(&key, &s("all"), &s("!r:x")), 0);

    let mut cache = ConnectionCache::new();
    let mut todo = sliding_sync::todo::TodoTable::new();
    let summaries = sliding_sync::sync::handle_lists(
        &lists, &key, 7, true, &joined, &none, &none, &types, &mut todo, &mut cache,
    );
    assert_eq!(summaries.len(), 1);
    assert_eq!(cache.get_known_mark(&key, &s("all"), &s("!r:x")), 7);
}
