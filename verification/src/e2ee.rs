//! The end-to-end-encryption device-list diff: for every joined room, compare
//! the resolved-state snapshot at the connection's watermark with the current
//! one, and report which users' device lists the requester must refetch
//! (`changed`) and which it may forget (`left`).

use vstd::prelude::*;

use crate::ids::{is_valid_user_id, user_id_ok};
use crate::strutil::{seq_has, seq_has_before};

verus! {

/// A membership state as far as the diff cares.
#[derive(PartialEq, Eq, Structural, Clone, Copy)]
pub enum Membership {
    Join,
    Leave,
    Other,
}

/// One (type, state key) -> event id row of a state snapshot.
pub struct StateEntry {
    pub ev_type: String,
    pub state_key: String,
    pub event_id: String,
}

/// The looked-up event behind a state entry.
pub struct PduInfo {
    pub event_id: String,
    pub kind: String,
    pub state_key: Option<String>,
    pub membership: Membership,
}

/// Everything the diff needs for one joined room.
pub struct E2eeRoomInput {
    pub room: String,
    /// the room's current state snapshot was found
    pub has_state: bool,
    /// identity of the current snapshot
    pub current_hash: u64,
    /// identity of the snapshot at the watermark, when one was recorded
    pub since_hash: Option<u64>,
    /// the current state carries an encryption event
    pub encrypted: bool,
    /// the watermark state carried an encryption event
    pub since_encryption: bool,
    /// the requester's membership at the watermark
    pub since_sender_membership: Option<Membership>,
    pub current_state: Vec<StateEntry>,
    pub since_state: Vec<StateEntry>,
    /// event lookup table; an id missing here is a logged, skipped entry
    pub pdus: Vec<PduInfo>,
    /// current members of the room
    pub members: Vec<String>,
    /// users sharing another encrypted room with the requester
    pub share_other: Vec<String>,
    /// users whose device keys changed in this room since the watermark
    pub room_keys_changed: Vec<String>,
}

/// One one-time-key algorithm count, carried through.
pub struct KeyAlgorithmCount {
    pub algorithm: String,
    pub count: u64,
}

pub struct E2eeOutput {
    pub changed: Vec<String>,
    pub left: Vec<String>,
    pub one_time_key_counts: Vec<KeyAlgorithmCount>,
}

/// The watermark snapshot maps this entry's key to this entry's id.
pub open spec fn since_matches(s: Seq<StateEntry>, e: StateEntry) -> bool {
    exists|i: int|
        0 <= i < s.len() && s[i].ev_type@ == e.ev_type@ && s[i].state_key@ == e.state_key@
            && s[i].event_id@ == e.event_id@
}

/// The pdu is a membership event for user `u` with membership `mem`, under a
/// state key the outside parser accepts as a user id.
pub open spec fn is_member_pdu(p: PduInfo, u: Seq<char>, mem: Membership) -> bool {
    &&& p.kind@ == "m.room.member"@
    &&& p.state_key matches Some(sk) && sk@ == u && user_id_ok(u)
    &&& p.membership == mem
}

/// The state entry changed since the watermark and resolves to a membership
/// event for `u` with membership `mem`.
pub open spec fn entry_member_event(
    r: E2eeRoomInput,
    e: StateEntry,
    u: Seq<char>,
    mem: Membership,
) -> bool {
    &&& !since_matches(r.since_state@, e)
    &&& exists|p: int|
        0 <= p < r.pdus@.len() && r.pdus@[p].event_id@ == e.event_id@ && is_member_pdu(
            r.pdus@[p],
            u,
            mem,
        )
}

/// The room's state diff is inspected at all: state known, a watermark
/// snapshot recorded that differs from the current one, room encrypted.
pub open spec fn room_diffable(r: E2eeRoomInput) -> bool {
    &&& r.has_state
    &&& r.since_hash matches Some(h) && h != r.current_hash
    &&& r.encrypted
}

/// The requester joined since the watermark.
pub open spec fn joined_since(r: E2eeRoomInput) -> bool {
    match r.since_sender_membership {
        Some(m) => m != Membership::Join,
        None => true,
    }
}

/// The room became encrypted since the watermark.
pub open spec fn newly_encrypted(r: E2eeRoomInput) -> bool {
    r.encrypted && !r.since_encryption
}

/// A join transition of `u` in this room makes the requester refetch `u`'s
/// devices, unless they already share another encrypted room.
pub open spec fn join_in_prefix(r: E2eeRoomInput, sender: Seq<char>, u: Seq<char>, i: int) -> bool {
    &&& u != sender
    &&& !seq_has(r.share_other@, u)
    &&& exists|ii: int|
        0 <= ii < i && entry_member_event(r, #[trigger] r.current_state@[ii], u, Membership::Join)
}

/// A leave transition of `u` in this room marks `u` as provisionally left.
pub open spec fn leave_in_prefix(r: E2eeRoomInput, sender: Seq<char>, u: Seq<char>, i: int) -> bool {
    &&& u != sender
    &&& exists|ii: int|
        0 <= ii < i && entry_member_event(r, #[trigger] r.current_state@[ii], u, Membership::Leave)
}

pub open spec fn join_recorded(r: E2eeRoomInput, sender: Seq<char>, u: Seq<char>) -> bool {
    room_diffable(r) && join_in_prefix(r, sender, u, r.current_state@.len() as int)
}

pub open spec fn leave_recorded(r: E2eeRoomInput, sender: Seq<char>, u: Seq<char>) -> bool {
    room_diffable(r) && leave_in_prefix(r, sender, u, r.current_state@.len() as int)
}

/// When the room is newly encrypted, or the requester newly joined, every
/// other current member not already shared with is refetched (full re-key).
pub open spec fn rekey_recorded(r: E2eeRoomInput, sender: Seq<char>, u: Seq<char>) -> bool {
    &&& room_diffable(r)
    &&& (joined_since(r) || newly_encrypted(r))
    &&& seq_has(r.members@, u)
    &&& u != sender
    &&& !seq_has(r.share_other@, u)
}

/// Per-room key-change source: collected unless the room was skipped outright
/// (no state) or its snapshot is unchanged.
pub open spec fn room_keys_recorded(r: E2eeRoomInput, u: Seq<char>) -> bool {
    &&& r.has_state
    &&& !(r.since_hash matches Some(h) && h == r.current_hash)
    &&& seq_has(r.room_keys_changed@, u)
}

/// Everything one room contributes to `changed`.
pub open spec fn room_changed(r: E2eeRoomInput, sender: Seq<char>, u: Seq<char>) -> bool {
    join_recorded(r, sender, u) || rekey_recorded(r, sender, u) || room_keys_recorded(r, u)
}

/// `u`'s devices changed in some room.
pub open spec fn changed_somewhere(rooms: Seq<E2eeRoomInput>, sender: Seq<char>, u: Seq<char>) -> bool {
    exists|k: int| 0 <= k < rooms.len() && room_changed(#[trigger] rooms[k], sender, u)
}

/// `u` left some encrypted room of the requester's in this window.
pub open spec fn left_somewhere(rooms: Seq<E2eeRoomInput>, sender: Seq<char>, u: Seq<char>) -> bool {
    exists|k: int| 0 <= k < rooms.len() && leave_recorded(#[trigger] rooms[k], sender, u)
}

/// Event ids form a lookup table: no id appears twice.
pub open spec fn unique_pdu_ids(pdus: Seq<PduInfo>) -> bool {
    forall|i: int, j: int| 0 <= i < j < pdus.len() ==> pdus[i].event_id@ != pdus[j].event_id@
}

/// Whether the watermark snapshot already maps this entry's key to this id.
fn since_has_match(s: &Vec<StateEntry>, e: &StateEntry) -> (r: bool)
    ensures
        r == since_matches(s@, *e),
{
    let mut i: usize = 0;
    while i < s.len()
        invariant
            0 <= i <= s@.len(),
            forall|j: int|
                0 <= j < i ==> !(s@[j].ev_type@ == e.ev_type@ && s@[j].state_key@ == e.state_key@
                    && s@[j].event_id@ == e.event_id@),
        decreases s@.len() - i,
    {
        if s[i].ev_type.eq(&e.ev_type) && s[i].state_key.eq(&e.state_key) && s[i].event_id.eq(
            &e.event_id,
        ) {
            return true;
        }
        i = i + 1;
    }
    false
}

/// The position of the event in the lookup table, if it is there.
fn find_pdu(pdus: &Vec<PduInfo>, id: &String) -> (r: Option<usize>)
    ensures
        r matches Some(p) ==> p < pdus@.len() && pdus@[p as int].event_id@ == id@,
        r is None ==> forall|p: int| 0 <= p < pdus@.len() ==> pdus@[p].event_id@ != id@,
{
    let mut i: usize = 0;
    while i < pdus.len()
        invariant
            0 <= i <= pdus@.len(),
            forall|j: int| 0 <= j < i ==> pdus@[j].event_id@ != id@,
        decreases pdus@.len() - i,
    {
        if pdus[i].event_id.eq(id) {
            return Some(i);
        }
        i = i + 1;
    }
    None
}

/// Push a user to a device-list set unless already present.
fn push_user(set: &mut Vec<String>, user: &String)
    ensures
        forall|u: Seq<char>| seq_has(final(set)@, u) <==> (seq_has(old(set)@, u) || u == user@),
{
    let ghost s0 = set@;
    if !crate::strutil::vec_has_string(set, user) {
        set.push(user.clone());
        proof {
            assert forall|u: Seq<char>|
                seq_has(set@, u) <==> (seq_has(s0, u) || u == user@) by {
                if seq_has(set@, u) {
                    let m = choose|m: int| 0 <= m < set@.len() && set@[m]@ == u;
                    if m < s0.len() {
                        assert(s0[m]@ == u);
                    }
                }
                if seq_has(s0, u) {
                    let m = choose|m: int| 0 <= m < s0.len() && s0[m]@ == u;
                    assert(set@[m]@ == u);
                }
                if u == user@ {
                    assert(set@[set@.len() - 1]@ == u);
                }
            }
        }
    }
}

/// What one room adds to `changed` and to the provisional `left` set.
pub fn collect_e2ee_room(r: &E2eeRoomInput, sender: &String) -> (out: (Vec<String>, Vec<String>))
    requires
        unique_pdu_ids(r.pdus@),
    ensures
        forall|u: Seq<char>| seq_has(out.0@, u) <==> room_changed(*r, sender@, u),
        forall|u: Seq<char>| seq_has(out.1@, u) <==> leave_recorded(*r, sender@, u),
{
    let mut changed: Vec<String> = Vec::new();
    let mut left: Vec<String> = Vec::new();
    if !r.has_state {
        return (changed, left);
    }
    let (snapshot_known, snapshot_unchanged) = match r.since_hash {
        Some(h) => (true, h == r.current_hash),
        None => (false, false),
    };
    if snapshot_unchanged {
        return (changed, left);
    }
    let diffable = snapshot_known && r.encrypted;
    if diffable {
        let mut i: usize = 0;
        while i < r.current_state.len()
            invariant
                0 <= i <= r.current_state@.len(),
                unique_pdu_ids(r.pdus@),
                room_diffable(*r),
                forall|u: Seq<char>|
                    seq_has(changed@, u) <==> join_in_prefix(*r, sender@, u, i as int),
                forall|u: Seq<char>|
                    seq_has(left@, u) <==> leave_in_prefix(*r, sender@, u, i as int),
            decreases r.current_state@.len() - i,
        {
            let ghost changed0 = changed@;
            let ghost left0 = left@;
            let e = &r.current_state[i];
            let mut join_user: Option<&String> = None;
            let mut leave_user: Option<&String> = None;
            if !since_has_match(&r.since_state, e) {
                match find_pdu(&r.pdus, &e.event_id) {
                    Some(p) => {
                        let pdu = &r.pdus[p];
                        if pdu.kind.eq(&String::from_str("m.room.member")) {
                            match &pdu.state_key {
                                Some(sk) => {
                                    if is_valid_user_id(sk) && !sk.eq(sender) {
                                        match pdu.membership {
                                            Membership::Join => {
                                                if !crate::strutil::vec_has_string(
                                                    &r.share_other,
                                                    sk,
                                                ) {
                                                    join_user = Some(sk);
                                                }
                                            },
                                            Membership::Leave => {
                                                leave_user = Some(sk);
                                            },
                                            Membership::Other => {},
                                        }
                                    }
                                },
                                None => {},
                            }
                        }
                    },
                    None => {},
                }
            }
            match join_user {
                Some(sk) => {
                    push_user(&mut changed, sk);
                },
                None => {},
            }
            match leave_user {
                Some(sk) => {
                    push_user(&mut left, sk);
                },
                None => {},
            }
            proof {
                assert forall|u: Seq<char>|
                    seq_has(changed@, u) <==> join_in_prefix(*r, sender@, u, i as int + 1) by {
                    if join_in_prefix(*r, sender@, u, i as int + 1) && !join_in_prefix(
                        *r,
                        sender@,
                        u,
                        i as int,
                    ) {
                        let ii = choose|ii: int|
                            0 <= ii < i + 1 && entry_member_event(
                                *r,
                                r.current_state@[ii],
                                u,
                                Membership::Join,
                            );
                        assert(ii == i as int);
                        let p = choose|p: int|
                            0 <= p < r.pdus@.len() && r.pdus@[p].event_id@
                                == r.current_state@[ii].event_id@ && is_member_pdu(
                                r.pdus@[p],
                                u,
                                Membership::Join,
                            );
                        assert(join_user matches Some(sk2) && sk2@ == u);
                    }
                    if seq_has(changed@, u) && !seq_has(changed0, u) {
                        assert(join_user matches Some(sk2) && sk2@ == u);
                        let p = choose|p: int|
                            0 <= p < r.pdus@.len() && r.pdus@[p].event_id@ == r.current_state@[
                            i as int].event_id@;
                        assert(entry_member_event(
                            *r,
                            r.current_state@[i as int],
                            u,
                            Membership::Join,
                        ));
                    }
                }
                assert forall|u: Seq<char>|
                    seq_has(left@, u) <==> leave_in_prefix(*r, sender@, u, i as int + 1) by {
                    if leave_in_prefix(*r, sender@, u, i as int + 1) && !leave_in_prefix(
                        *r,
                        sender@,
                        u,
                        i as int,
                    ) {
                        let ii = choose|ii: int|
                            0 <= ii < i + 1 && entry_member_event(
                                *r,
                                r.current_state@[ii],
                                u,
                                Membership::Leave,
                            );
                        assert(ii == i as int);
                        let p = choose|p: int|
                            0 <= p < r.pdus@.len() && r.pdus@[p].event_id@
                                == r.current_state@[ii].event_id@ && is_member_pdu(
                                r.pdus@[p],
                                u,
                                Membership::Leave,
                            );
                        assert(leave_user matches Some(sk2) && sk2@ == u);
                    }
                    if seq_has(left@, u) && !seq_has(left0, u) {
                        assert(leave_user matches Some(sk2) && sk2@ == u);
                        let p = choose|p: int|
                            0 <= p < r.pdus@.len() && r.pdus@[p].event_id@ == r.current_state@[
                            i as int].event_id@;
                        assert(entry_member_event(
                            *r,
                            r.current_state@[i as int],
                            u,
                            Membership::Leave,
                        ));
                    }
                }
            }
            i = i + 1;
        }
        let rekey = {
            let joined = match r.since_sender_membership {
                Some(m) => !(m == Membership::Join),
                None => true,
            };
            joined || (r.encrypted && !r.since_encryption)
        };
        if rekey {
            let mut i: usize = 0;
            while i < r.members.len()
                invariant
                    0 <= i <= r.members@.len(),
                    room_diffable(*r),
                    joined_since(*r) || newly_encrypted(*r),
                    forall|u: Seq<char>|
                        seq_has(changed@, u) <==> (join_recorded(*r, sender@, u) || (u != sender@
                            && !seq_has(r.share_other@, u) && (exists|m: int|
                            0 <= m < i && #[trigger] r.members@[m]@ == u))),
                    forall|u: Seq<char>| seq_has(left@, u) <==> leave_recorded(*r, sender@, u),
                decreases r.members@.len() - i,
            {
                let ghost changed0 = changed@;
                let m = &r.members[i];
                let qualifies = !m.eq(sender) && !crate::strutil::vec_has_string(&r.share_other, m);
                if qualifies {
                    push_user(&mut changed, m);
                }
                proof {
                    assert forall|u: Seq<char>|
                        seq_has(changed@, u) <==> (join_recorded(*r, sender@, u) || (u != sender@
                            && !seq_has(r.share_other@, u) && (exists|m2: int|
                            0 <= m2 < i + 1 && #[trigger] r.members@[m2]@ == u))) by {
                        if u != sender@ && !seq_has(r.share_other@, u) && (exists|m2: int|
                            0 <= m2 < i + 1 && r.members@[m2]@ == u) && !seq_has(changed0, u) {
                            let m2 = choose|m2: int| 0 <= m2 < i + 1 && r.members@[m2]@ == u;
                            assert(m2 == i as int);
                            assert(qualifies && m@ == u);
                        }
                        if seq_has(changed@, u) && !seq_has(changed0, u) {
                            assert(qualifies && m@ == u);
                            assert(r.members@[i as int]@ == u);
                        }
                    }
                }
                i = i + 1;
            }
        }
    }
    let mut i: usize = 0;
    while i < r.room_keys_changed.len()
        invariant
            0 <= i <= r.room_keys_changed@.len(),
            r.has_state,
            !(r.since_hash matches Some(h) && h == r.current_hash),
            forall|u: Seq<char>|
                seq_has(changed@, u) <==> (join_recorded(*r, sender@, u) || rekey_recorded(
                    *r,
                    sender@,
                    u,
                ) || (exists|m: int| 0 <= m < i && #[trigger] r.room_keys_changed@[m]@ == u)),
            forall|u: Seq<char>| seq_has(left@, u) <==> leave_recorded(*r, sender@, u),
        decreases r.room_keys_changed@.len() - i,
    {
        let ghost changed0 = changed@;
        let m = &r.room_keys_changed[i];
        push_user(&mut changed, m);
        proof {
            assert forall|u: Seq<char>|
                seq_has(changed@, u) <==> (join_recorded(*r, sender@, u) || rekey_recorded(
                    *r,
                    sender@,
                    u,
                ) || (exists|m2: int| 0 <= m2 < i + 1 && #[trigger] r.room_keys_changed@[m2]@
                    == u)) by {
                if (exists|m2: int| 0 <= m2 < i + 1 && r.room_keys_changed@[m2]@ == u) && !seq_has(
                    changed0,
                    u,
                ) && !join_recorded(*r, sender@, u) && !rekey_recorded(*r, sender@, u) {
                    let m2 = choose|m2: int| 0 <= m2 < i + 1 && r.room_keys_changed@[m2]@ == u;
                    assert(m2 == i as int);
                    assert(m@ == u);
                }
                if seq_has(changed@, u) && !seq_has(changed0, u) {
                    assert(m@ == u);
                    assert(r.room_keys_changed@[i as int]@ == u);
                }
            }
        }
        i = i + 1;
    }
    (changed, left)
}

/// Collect the whole device-list diff.  Disabled requests return the neutral
/// structure.  `keys_changed` is the requester's own key-upload source;
/// `share_any` are the users still sharing any encrypted room with the
/// requester once every room is processed.
pub fn collect_e2ee(
    enabled: bool,
    sender: &String,
    keys_changed: &Vec<String>,
    rooms: &Vec<E2eeRoomInput>,
    share_any: &Vec<String>,
    one_time_key_counts: Vec<KeyAlgorithmCount>,
) -> (out: E2eeOutput)
    requires
        forall|k: int| 0 <= k < rooms@.len() ==> unique_pdu_ids(#[trigger] rooms@[k].pdus@),
    ensures
        !enabled ==> out.changed@.len() == 0 && out.left@.len() == 0
            && out.one_time_key_counts@.len() == 0,
        enabled ==> out.one_time_key_counts == one_time_key_counts,
        enabled ==> forall|u: Seq<char>|
            seq_has(out.changed@, u) <==> (seq_has(keys_changed@, u) || changed_somewhere(
                rooms@,
                sender@,
                u,
            )),
        enabled ==> forall|u: Seq<char>|
            seq_has(out.left@, u) <==> (left_somewhere(rooms@, sender@, u) && !seq_has(
                share_any@,
                u,
            )),
{
    let mut changed: Vec<String> = Vec::new();
    let mut left_cand: Vec<String> = Vec::new();
    let mut left: Vec<String> = Vec::new();
    if !enabled {
        return E2eeOutput { changed, left, one_time_key_counts: Vec::new() };
    }
    let mut i: usize = 0;
    while i < keys_changed.len()
        invariant
            0 <= i <= keys_changed@.len(),
            forall|u: Seq<char>|
                seq_has(changed@, u) <==> (exists|m: int|
                    0 <= m < i && #[trigger] keys_changed@[m]@ == u),
        decreases keys_changed@.len() - i,
    {
        let ghost c0 = changed@;
        push_user(&mut changed, &keys_changed[i]);
        proof {
            assert forall|u: Seq<char>|
                seq_has(changed@, u) <==> (exists|m: int|
                    0 <= m < i + 1 && #[trigger] keys_changed@[m]@ == u) by {
                if seq_has(changed@, u) && !seq_has(c0, u) {
                    assert(keys_changed@[i as int]@ == u);
                }
                if (exists|m: int| 0 <= m < i + 1 && keys_changed@[m]@ == u) && !seq_has(c0, u) {
                    let m = choose|m: int| 0 <= m < i + 1 && keys_changed@[m]@ == u;
                    assert(m == i as int);
                }
            }
        }
        i = i + 1;
    }
    let mut k: usize = 0;
    while k < rooms.len()
        invariant
            0 <= k <= rooms@.len(),
            forall|k2: int| 0 <= k2 < rooms@.len() ==> unique_pdu_ids(#[trigger] rooms@[k2].pdus@),
            forall|u: Seq<char>|
                seq_has(changed@, u) <==> (seq_has(keys_changed@, u) || (exists|k2: int|
                    0 <= k2 < k && room_changed(#[trigger] rooms@[k2], sender@, u))),
            forall|u: Seq<char>|
                seq_has(left_cand@, u) <==> (exists|k2: int|
                    0 <= k2 < k && leave_recorded(#[trigger] rooms@[k2], sender@, u)),
        decreases rooms@.len() - k,
    {
        let (room_changed_out, room_left_out) = collect_e2ee_room(&rooms[k], sender);
        let ghost c0 = changed@;
        let mut m: usize = 0;
        while m < room_changed_out.len()
            invariant
                0 <= m <= room_changed_out@.len(),
                forall|u: Seq<char>| #![trigger seq_has(changed@, u)]
                    seq_has(changed@, u) <==> (seq_has(c0, u) || seq_has_before(
                        room_changed_out@,
                        u,
                        m as int,
                    )),
            decreases room_changed_out@.len() - m,
        {
            let ghost c1 = changed@;
            push_user(&mut changed, &room_changed_out[m]);
            proof {
                assert forall|u: Seq<char>| #![trigger seq_has(changed@, u)]
                    seq_has(changed@, u) <==> (seq_has(c0, u) || seq_has_before(
                        room_changed_out@,
                        u,
                        m as int + 1,
                    )) by {
                    if seq_has(changed@, u) {
                        if !seq_has(c1, u) {
                            assert(room_changed_out@[m as int]@ == u);
                        } else if !seq_has(c0, u) {
                            assert(seq_has_before(room_changed_out@, u, m as int));
                            let m2 = choose|m2: int|
                                0 <= m2 < m && m2 < room_changed_out@.len()
                                    && room_changed_out@[m2]@ == u;
                            assert(0 <= m2 < m + 1 && m2 < room_changed_out@.len()
                                && room_changed_out@[m2]@ == u);
                        }
                    }
                    if seq_has(c0, u) {
                        assert(seq_has(c1, u));
                        assert(seq_has(changed@, u));
                    }
                    if seq_has_before(room_changed_out@, u, m as int + 1) {
                        let m2 = choose|m2: int|
                            0 <= m2 < m + 1 && m2 < room_changed_out@.len()
                                && room_changed_out@[m2]@ == u;
                        if m2 < m as int {
                            assert(seq_has(c1, u));
                            assert(seq_has(changed@, u));
                        } else {
                            assert(u == room_changed_out@[m as int]@);
                            assert(seq_has(changed@, u));
                        }
                    }
                }
            }
            m = m + 1;
        }
        let ghost l0 = left_cand@;
        let mut m3: usize = 0;
        while m3 < room_left_out.len()
            invariant
                0 <= m3 <= room_left_out@.len(),
                forall|u: Seq<char>| #![trigger seq_has(left_cand@, u)]
                    seq_has(left_cand@, u) <==> (seq_has(l0, u) || seq_has_before(
                        room_left_out@,
                        u,
                        m3 as int,
                    )),
            decreases room_left_out@.len() - m3,
        {
            let ghost l1 = left_cand@;
            push_user(&mut left_cand, &room_left_out[m3]);
            proof {
                assert forall|u: Seq<char>| #![trigger seq_has(left_cand@, u)]
                    seq_has(left_cand@, u) <==> (seq_has(l0, u) || seq_has_before(
                        room_left_out@,
                        u,
                        m3 as int + 1,
                    )) by {
                    if seq_has(left_cand@, u) {
                        if !seq_has(l1, u) {
                            assert(room_left_out@[m3 as int]@ == u);
                        } else if !seq_has(l0, u) {
                            assert(seq_has_before(room_left_out@, u, m3 as int));
                            let m2 = choose|m2: int|
                                0 <= m2 < m3 && m2 < room_left_out@.len() && room_left_out@[m2]@
                                    == u;
                            assert(0 <= m2 < m3 + 1 && m2 < room_left_out@.len()
                                && room_left_out@[m2]@ == u);
                        }
                    }
                    if seq_has(l0, u) {
                        assert(seq_has(l1, u));
                        assert(seq_has(left_cand@, u));
                    }
                    if seq_has_before(room_left_out@, u, m3 as int + 1) {
                        let m2 = choose|m2: int|
                            0 <= m2 < m3 + 1 && m2 < room_left_out@.len() && room_left_out@[m2]@
                                == u;
                        if m2 < m3 as int {
                            assert(seq_has(l1, u));
                            assert(seq_has(left_cand@, u));
                        } else {
                            assert(u == room_left_out@[m3 as int]@);
                            assert(seq_has(left_cand@, u));
                        }
                    }
                }
            }
            m3 = m3 + 1;
        }
        proof {
            assert forall|u: Seq<char>|
                seq_has(changed@, u) <==> (seq_has(keys_changed@, u) || (exists|k2: int|
                    0 <= k2 < k + 1 && room_changed(#[trigger] rooms@[k2], sender@, u))) by {
                if seq_has(changed@, u) && !seq_has(c0, u) {
                    assert(room_changed(rooms@[k as int], sender@, u));
                }
                if (exists|k2: int| 0 <= k2 < k + 1 && room_changed(rooms@[k2], sender@, u))
                    && !seq_has(c0, u) {
                    let k2 = choose|k2: int|
                        0 <= k2 < k + 1 && room_changed(rooms@[k2], sender@, u);
                    assert(k2 == k as int);
                    assert(seq_has(room_changed_out@, u));
                }
            }
            assert forall|u: Seq<char>|
                seq_has(left_cand@, u) <==> (exists|k2: int|
                    0 <= k2 < k + 1 && leave_recorded(#[trigger] rooms@[k2], sender@, u)) by {
                if seq_has(left_cand@, u) && !seq_has(l0, u) {
                    assert(leave_recorded(rooms@[k as int], sender@, u));
                }
                if (exists|k2: int| 0 <= k2 < k + 1 && leave_recorded(rooms@[k2], sender@, u))
                    && !seq_has(l0, u) {
                    let k2 = choose|k2: int|
                        0 <= k2 < k + 1 && leave_recorded(rooms@[k2], sender@, u);
                    assert(k2 == k as int);
                    assert(seq_has(room_left_out@, u));
                }
            }
        }
        k = k + 1;
    }
    let mut m4: usize = 0;
    while m4 < left_cand.len()
        invariant
            0 <= m4 <= left_cand@.len(),
            forall|u: Seq<char>|
                seq_has(left_cand@, u) <==> left_somewhere(rooms@, sender@, u),
            forall|u: Seq<char>| #![trigger seq_has(left@, u)]
                seq_has(left@, u) <==> (seq_has_before(left_cand@, u, m4 as int) && !seq_has(
                    share_any@,
                    u,
                )),
        decreases left_cand@.len() - m4,
    {
        let ghost lf0 = left@;
        if !crate::strutil::vec_has_string(share_any, &left_cand[m4]) {
            push_user(&mut left, &left_cand[m4]);
        }
        proof {
            assert forall|u: Seq<char>| #![trigger seq_has(left@, u)]
                seq_has(left@, u) <==> (seq_has_before(left_cand@, u, m4 as int + 1) && !seq_has(
                    share_any@,
                    u,
                )) by {
                if seq_has(left@, u) {
                    if !seq_has(lf0, u) {
                        assert(left_cand@[m4 as int]@ == u);
                    } else {
                        assert(seq_has_before(left_cand@, u, m4 as int));
                        let m2 = choose|m2: int|
                            0 <= m2 < m4 && m2 < left_cand@.len() && left_cand@[m2]@ == u;
                        assert(0 <= m2 < m4 + 1 && m2 < left_cand@.len() && left_cand@[m2]@ == u);
                    }
                }
                if seq_has_before(left_cand@, u, m4 as int + 1) && !seq_has(share_any@, u) {
                    let m2 = choose|m2: int|
                        0 <= m2 < m4 + 1 && m2 < left_cand@.len() && left_cand@[m2]@ == u;
                    if m2 < m4 as int {
                        assert(seq_has(lf0, u));
                        assert(seq_has(left@, u));
                    } else {
                        assert(left_cand@[m4 as int]@ == u);
                        assert(seq_has(left@, u));
                    }
                }
            }
        }
        m4 = m4 + 1;
    }
    proof {
        assert forall|u: Seq<char>|
            seq_has(left@, u) <==> (left_somewhere(rooms@, sender@, u) && !seq_has(
                share_any@,
                u,
            )) by {
            if seq_has(left@, u) {
                let m2 = choose|m2: int|
                    0 <= m2 < m4 && m2 < left_cand@.len() && left_cand@[m2]@ == u;
                assert(seq_has(left_cand@, u));
            }
            if left_somewhere(rooms@, sender@, u) && !seq_has(share_any@, u) {
                assert(seq_has(left_cand@, u));
                let m2 = choose|m2: int| 0 <= m2 < left_cand@.len() && left_cand@[m2]@ == u;
                assert(seq_has_before(left_cand@, u, m4 as int));
            }
        }
    }
    E2eeOutput { changed, left, one_time_key_counts }
}

/// Device-list diff symmetry: a user seen joining an encrypted room in the
/// window is reported in `changed`, and one seen leaving is finally reported
/// in `left` exactly when no shared encrypted room remains at the end.
pub proof fn lemma_device_list_diff_symmetry(
    rooms: Seq<E2eeRoomInput>,
    sender: Seq<char>,
    u: Seq<char>,
    changed: Seq<String>,
    left: Seq<String>,
    keys_changed: Seq<String>,
    share_any: Seq<String>,
    kj: int,
    kl: int,
)
    requires
        forall|u2: Seq<char>|
            seq_has(changed, u2) <==> (seq_has(keys_changed, u2) || changed_somewhere(
                rooms,
                sender,
                u2,
            )),
        forall|u2: Seq<char>|
            seq_has(left, u2) <==> (left_somewhere(rooms, sender, u2) && !seq_has(share_any, u2)),
        0 <= kj < rooms.len(),
        0 <= kl < rooms.len(),
        join_recorded(rooms[kj], sender, u),
        leave_recorded(rooms[kl], sender, u),
    ensures
        seq_has(changed, u),
        seq_has(left, u) <==> !seq_has(share_any, u),
{
    assert(room_changed(rooms[kj], sender, u));
    assert(changed_somewhere(rooms, sender, u));
    assert(left_somewhere(rooms, sender, u));
}

} // verus!
