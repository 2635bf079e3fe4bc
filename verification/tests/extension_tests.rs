use sliding_sync::e2ee::{
    E2eeRoomInput, Membership, PduInfo, StateEntry, collect_e2ee, collect_e2ee_room,
};
use sliding_sync::todevice::{ToDeviceMsg, collect_to_device};

fn s(x: &str) -> String {
    x.to_string()
}

fn msg(count: u64, payload: &str) -> ToDeviceMsg {
    ToDeviceMsg { count, payload: s(payload) }
}

#[test]
fn to_device_disabled_touches_nothing() {
    let mut queue = vec![msg(1, "a"), msg(2, "b")];
    let out = collect_to_device(false, &mut queue, 1, 5);
    assert!(out.is_none());
    assert_eq!(queue.len(), 2);
}

#[test]
fn to_device_acknowledges_up_to_watermark() {
    let mut queue = vec![msg(1, "a"), msg(2, "b"), msg(3, "c")];
    let out = collect_to_device(true, &mut queue, 1, 2).expect("enabled");
    assert_eq!(out.next_batch, s("2"));
    assert_eq!(out.events.len(), 1);
    assert_eq!(out.events[0].count, 2);
    // message 1 was acknowledged and deleted; 2 and 3 remain queued
    assert_eq!(queue.len(), 2);
    assert_eq!(queue[0].count, 2);
    assert_eq!(queue[1].count, 3);
}

#[test]
fn to_device_at_most_once_across_syncs() {
    let mut queue = vec![msg(1, "a"), msg(2, "b"), msg(3, "c")];
    let first = collect_to_device(true, &mut queue, 0, 2).expect("enabled");
    let first_counts: Vec<u64> = first.events.iter().map(|e| e.count).collect();
    assert_eq!(first_counts, vec![1, 2]);
    let second = collect_to_device(true, &mut queue, 2, 3).expect("enabled");
    let second_counts: Vec<u64> = second.events.iter().map(|e| e.count).collect();
    assert_eq!(second_counts, vec![3]);
    for c in &first_counts {
        assert!(!second_counts.contains(c));
    }
}

fn diffable_room(current_state: Vec<StateEntry>, pdus: Vec<PduInfo>) -> E2eeRoomInput {
    E2eeRoomInput {
        room: s("!r:x"),
        has_state: true,
        current_hash: 2,
        since_hash: Some(1),
        encrypted: true,
        since_encryption: true,
        since_sender_membership: Some(Membership::Join),
        current_state,
        since_state: Vec::new(),
        pdus,
        members: Vec::new(),
        share_other: Vec::new(),
        room_keys_changed: Vec::new(),
    }
}

fn member_entry(user: &str, event_id: &str) -> StateEntry {
    StateEntry { ev_type: s("m.room.member"), state_key: s(user), event_id: s(event_id) }
}

fn member_pdu(user: &str, event_id: &str, membership: Membership) -> PduInfo {
    PduInfo {
        event_id: s(event_id),
        kind: s("m.room.member"),
        state_key: Some(s(user)),
        membership,
    }
}

#[test]
fn e2ee_join_without_shared_room_is_reported_changed() {
    let room = diffable_room(
        vec![member_entry("@x:x", "$j")],
        vec![member_pdu("@x:x", "$j", Membership::Join)],
    );
    let (changed, left) = collect_e2ee_room(&room, &s("@me:x"));
    assert_eq!(changed, vec![s("@x:x")]);
    assert!(left.is_empty());
}

#[test]
fn e2ee_join_with_shared_room_is_not_reported() {
    let mut room = diffable_room(
        vec![member_entry("@x:x", "$j")],
        vec![member_pdu("@x:x", "$j", Membership::Join)],
    );
    room.share_other.push(s("@x:x"));
    let (changed, left) = collect_e2ee_room(&room, &s("@me:x"));
    assert!(changed.is_empty());
    assert!(left.is_empty());
}

#[test]
fn e2ee_invalid_state_key_is_ignored() {
    let room = diffable_room(
        vec![member_entry("not-a-user-id", "$j")],
        vec![member_pdu("not-a-user-id", "$j", Membership::Join)],
    );
    let (changed, left) = collect_e2ee_room(&room, &s("@me:x"));
    assert!(changed.is_empty());
    assert!(left.is_empty());
}

#[test]
fn e2ee_diff_symmetry_join_then_leave() {
    // both transitions observed in the window, no other shared encrypted room
    let room = diffable_room(
        vec![member_entry("@x:x", "$j"), member_entry("@x:x", "$l")],
        vec![
            member_pdu("@x:x", "$j", Membership::Join),
            member_pdu("@x:x", "$l", Membership::Leave),
        ],
    );
    let out = collect_e2ee(
        true,
        &s("@me:x"),
        &Vec::new(),
        &vec![room],
        &Vec::new(),
        Vec::new(),
    );
    assert_eq!(out.changed, vec![s("@x:x")]);
    assert_eq!(out.left, vec![s("@x:x")]);
}

#[test]
fn e2ee_leave_dropped_when_another_room_is_still_shared() {
    let room = diffable_room(
        vec![member_entry("@x:x", "$l")],
        vec![member_pdu("@x:x", "$l", Membership::Leave)],
    );
    let out = collect_e2ee(
        true,
        &s("@me:x"),
        &Vec::new(),
        &vec![room],
        &vec![s("@x:x")],
        Vec::new(),
    );
    assert!(out.left.is_empty());
}

#[test]
fn e2ee_disabled_is_neutral() {
    let out = collect_e2ee(
        false,
        &s("@me:x"),
        &vec![s("@k:x")],
        &Vec::new(),
        &Vec::new(),
        vec![sliding_sync::e2ee::KeyAlgorithmCount { algorithm: s("signed_curve"), count: 7 }],
    );
    assert!(out.changed.is_empty());
    assert!(out.left.is_empty());
    assert!(out.one_time_key_counts.is_empty());
}

#[test]
fn e2ee_own_key_uploads_are_merged() {
    let out = collect_e2ee(
        true,
        &s("@me:x"),
        &vec![s("@k:x")],
        &Vec::new(),
        &Vec::new(),
        Vec::new(),
    );
    assert_eq!(out.changed, vec![s("@k:x")]);
}

#[test]
fn e2ee_full_rekey_on_newly_encrypted_room() {
    let mut room = diffable_room(Vec::new(), Vec::new());
    room.since_encryption = false;
    room.members = vec![s("@me:x"), s("@y:x"), s("@z:x")];
    room.share_other = vec![s("@z:x")];
    let (changed, _) = collect_e2ee_room(&room, &s("@me:x"));
    assert_eq!(changed, vec![s("@y:x")]);
}
