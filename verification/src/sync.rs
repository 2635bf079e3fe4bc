//! The sync orchestrator: one request/response cycle.  It checks the
//! presented cursor, merges sticky parameters, selects rooms per list,
//! builds the to-do table, aggregates per-room data, runs the extension
//! collectors, and decides whether the shell must long-poll before replying.

use vstd::prelude::*;

use crate::conn::{
    ConnKey, ConnectionCache, RoomSubscription, SyncRequest, has_mark, has_row, key_view,
    merge_requests,
};
use crate::counter::Counter;
use crate::lists::{RoomTypeRow, clamp_range, filter_rooms};
use crate::rooms::{
    MAX_WIRE_COUNT, RoomInputs, RoomOutcome, RoomView, build_room_view, room_unchanged, view_ok,
};
use crate::strutil::{dec_of, seq_has, u64_to_dec};
use crate::todevice::{ToDeviceMsg, ToDeviceResult, collect_to_device};
use crate::todo::TodoTable;
use crate::typing::{TypingEvent, TypingRegistry};

verus! {

/// The one protocol error: a nonzero cursor for a connection unknown to the
/// cache.  The client must restart its sync stream from scratch.
#[derive(Debug)]
pub enum SyncError {
    UnknownPos,
}

/// One list's reply: the size of its active set, not of its window.
pub struct ListSummary {
    pub name: String,
    pub count: u64,
}

pub struct RoomEntry {
    pub room: String,
    pub view: RoomView,
}

pub struct AccountData {
    pub global: Vec<String>,
    pub rooms: Vec<(String, Vec<String>)>,
}

pub struct TypingEntryOut {
    pub room: String,
    pub event: TypingEvent,
}

pub struct ExtensionsOut {
    pub account_data: AccountData,
    pub e2ee: crate::e2ee::E2eeOutput,
    pub to_device: Option<ToDeviceResult>,
    /// structurally empty at this protocol revision: room-level read
    /// receipts surface in the per-room payload instead
    pub receipts: Vec<(String, String)>,
    pub typing: Vec<TypingEntryOut>,
}

pub struct SyncResponse {
    pub txn_id: Option<String>,
    pub pos: String,
    pub lists: Vec<ListSummary>,
    pub rooms: Vec<RoomEntry>,
    pub extensions: ExtensionsOut,
}

/// One room's aggregation job: its to-do data paired with its inputs.
pub struct RoomWork {
    pub room: String,
    pub mark: u64,
    pub inputs: RoomInputs,
}

/// One room's gathered inputs, as the storage collaborators hand them over.
pub struct RoomData {
    pub room: String,
    pub inputs: RoomInputs,
}

/// A room's work yields a response entry unless the timeline is missing or
/// the room is unchanged.
pub open spec fn kept_room(w: RoomWork, ignored: Seq<String>) -> bool {
    (w.inputs.is_invite || w.inputs.timeline is Some) && !room_unchanged(
        w.inputs,
        ignored,
        w.mark,
    )
}

/// Some emitted entry names this room.
pub open spec fn emits_room(r: Seq<RoomEntry>, rm: Seq<char>) -> bool {
    exists|m: int| 0 <= m < r.len() && r[m].room@ == rm
}

/// A kept work item with this room stands among the first `j`.
pub open spec fn kept_before(s: Seq<RoomWork>, ignored: Seq<String>, rm: Seq<char>, j: int) -> bool {
    exists|k: int| 0 <= k < j && k < s.len() && s[k].room@ == rm && kept_room(s[k], ignored)
}

/// Aggregate every room of the to-do table, skipping missing timelines and
/// unchanged rooms; rooms are processed independently and a skip never
/// aborts the others.
pub fn process_rooms(work: Vec<RoomWork>, sender: &String, ignored: &Vec<String>) -> (r:
    Vec<RoomEntry>)
    requires
        forall|k: int|
            0 <= k < work@.len() ==> (#[trigger] work@[k].inputs.highlight_count)
                <= MAX_WIRE_COUNT && work@[k].inputs.notification_count <= MAX_WIRE_COUNT,
    ensures
        forall|rm: Seq<char>| #![trigger emits_room(r@, rm)]
            emits_room(r@, rm) <==> kept_before(work@, ignored@, rm, work@.len() as int),
        forall|m: int| #![trigger r@[m]]
            0 <= m < r@.len() ==> exists|k: int|
                0 <= k < work@.len() && (#[trigger] work@[k]).room@ == r@[m].room@ && kept_room(
                    work@[k],
                    ignored@,
                ) && view_ok(work@[k].mark, sender@, ignored@, work@[k].inputs, r@[m].view),
{
    let ghost w0 = work@;
    let mut work = work;
    let mut r: Vec<RoomEntry> = Vec::new();
    let n = work.len();
    let mut j: usize = 0;
    while j < n
        invariant
            n == w0.len(),
            0 <= j <= w0.len(),
            work@ == w0.skip(j as int),
            forall|k: int|
                0 <= k < w0.len() ==> (#[trigger] w0[k].inputs.highlight_count) <= MAX_WIRE_COUNT
                    && w0[k].inputs.notification_count <= MAX_WIRE_COUNT,
            forall|rm: Seq<char>| #![trigger emits_room(r@, rm)]
                emits_room(r@, rm) <==> kept_before(w0, ignored@, rm, j as int),
            forall|m: int| #![trigger r@[m]]
                0 <= m < r@.len() ==> exists|k: int|
                    0 <= k < w0.len() && (#[trigger] w0[k]).room@ == r@[m].room@ && kept_room(
                        w0[k],
                        ignored@,
                    ) && view_ok(w0[k].mark, sender@, ignored@, w0[k].inputs, r@[m].view),
        decreases w0.len() - j,
    {
        proof {
            assert(w0.skip(j as int)[0] == w0[j as int]);
            assert(w0.skip(j as int).remove(0) =~= w0.skip(j as int + 1));
        }
        let ghost r0 = r@;
        let w = work.remove(0);
        let ghost wg = w;
        proof {
            assert(wg == w0[j as int]);
            assert(w0[j as int].inputs.highlight_count <= MAX_WIRE_COUNT && w0[
            j as int].inputs.notification_count <= MAX_WIRE_COUNT);
        }
        let room = w.room;
        let mark = w.mark;
        match build_room_view(mark, sender, ignored, w.inputs) {
            RoomOutcome::Skip(_) => {
                proof {
                    assert(!kept_room(w0[j as int], ignored@));
                }
            },
            RoomOutcome::View(view) => {
                let ghost viewg = view;
                r.push(RoomEntry { room, view });
                proof {
                    assert(kept_room(w0[j as int], ignored@));
                    assert(r@[r@.len() - 1].room@ == w0[j as int].room@);
                    assert(view_ok(
                        w0[j as int].mark,
                        sender@,
                        ignored@,
                        w0[j as int].inputs,
                        viewg,
                    ));
                    assert forall|m: int| #![trigger r@[m]]
                        0 <= m < r@.len() implies exists|k: int|
                            0 <= k < w0.len() && (#[trigger] w0[k]).room@ == r@[m].room@
                                && kept_room(w0[k], ignored@) && view_ok(
                                w0[k].mark,
                                sender@,
                                ignored@,
                                w0[k].inputs,
                                r@[m].view,
                            ) by {
                        if m < r0.len() {
                            assert(r@[m] == r0[m]);
                            let k = choose|k: int|
                                0 <= k < w0.len() && w0[k].room@ == r0[m].room@ && kept_room(
                                    w0[k],
                                    ignored@,
                                ) && view_ok(
                                    w0[k].mark,
                                    sender@,
                                    ignored@,
                                    w0[k].inputs,
                                    r0[m].view,
                                );
                            assert(0 <= k < w0.len() && w0[k].room@ == r@[m].room@ && kept_room(
                                w0[k],
                                ignored@,
                            ) && view_ok(w0[k].mark, sender@, ignored@, w0[k].inputs, r@[m].view));
                        } else {
                            assert(r@[m].room@ == w0[j as int].room@ && r@[m].view == viewg);
                            assert(0 <= j < w0.len() && w0[j as int].room@ == r@[m].room@
                                && kept_room(w0[j as int], ignored@) && view_ok(
                                w0[j as int].mark,
                                sender@,
                                ignored@,
                                w0[j as int].inputs,
                                r@[m].view,
                            ));
                        }
                    }
                }
            },
        }
        proof {
            assert forall|rm: Seq<char>| #![trigger emits_room(r@, rm)]
                emits_room(r@, rm) <==> kept_before(w0, ignored@, rm, j as int + 1) by {
                if emits_room(r@, rm) {
                    let m = choose|m: int| 0 <= m < r@.len() && r@[m].room@ == rm;
                    if m < r0.len() {
                        assert(emits_room(r0, rm));
                        let k = choose|k: int|
                            0 <= k < j && k < w0.len() && w0[k].room@ == rm && kept_room(
                                w0[k],
                                ignored@,
                            );
                        assert(0 <= k < j + 1 && k < w0.len() && w0[k].room@ == rm && kept_room(
                            w0[k],
                            ignored@,
                        ));
                    } else {
                        assert(rm == w0[j as int].room@ && kept_room(w0[j as int], ignored@));
                    }
                }
                if kept_before(w0, ignored@, rm, j as int + 1) {
                    let k = choose|k: int|
                        0 <= k < j + 1 && k < w0.len() && w0[k].room@ == rm && kept_room(
                            w0[k],
                            ignored@,
                        );
                    if k < j as int {
                        assert(kept_before(w0, ignored@, rm, j as int));
                        assert(emits_room(r0, rm));
                        let m = choose|m: int| 0 <= m < r0.len() && r0[m].room@ == rm;
                        assert(r@[m].room@ == rm);
                    } else {
                        assert(r@[r@.len() - 1].room@ == rm);
                    }
                }
            }
        }
        j = j + 1;
    }
    r
}

/// The global and per-room account-data deltas; disabled requests get the
/// neutral structure without any storage being consulted.
pub fn collect_account_data(
    enabled: bool,
    global: Vec<String>,
    rooms: Vec<(String, Vec<String>)>,
) -> (r: AccountData)
    ensures
        !enabled ==> r.global@.len() == 0 && r.rooms@.len() == 0,
        enabled ==> r.global == global && r.rooms == rooms,
{
    if !enabled {
        AccountData { global: Vec::new(), rooms: Vec::new() }
    } else {
        AccountData { global, rooms }
    }
}

/// One emitted typing event is faithful: it is nonempty and lists exactly
/// the users the requester may see typing in that room at `now`.
pub open spec fn typing_entry_ok(
    reg: TypingRegistry,
    e: TypingEntryOut,
    now: u64,
    ignored: Seq<String>,
) -> bool {
    e.event.user_ids@.len() > 0 && (forall|u: Seq<char>| #![trigger seq_has(e.event.user_ids@, u)]
        seq_has(e.event.user_ids@, u) <==> (reg.typing_at(e.room@, u, now) && !seq_has(ignored, u)))
}

/// Some user the requester does not ignore is typing in the room at `now`.
pub open spec fn room_has_typing(
    reg: TypingRegistry,
    rm: Seq<char>,
    now: u64,
    ignored: Seq<String>,
) -> bool {
    exists|u: Seq<char>| reg.typing_at(rm, u, now) && !seq_has(ignored, u)
}

/// Some emitted typing entry names this room.
pub open spec fn emits_typing(r: Seq<TypingEntryOut>, rm: Seq<char>) -> bool {
    exists|m: int| 0 <= m < r.len() && r[m].room@ == rm
}

/// The receipts extension never carries anything at this protocol revision.
pub fn collect_receipts() -> (r: Vec<(String, String)>)
    ensures
        r@.len() == 0,
{
    Vec::new()
}

/// The typing extension: disabled, or out-of-scope, requests get the empty
/// structure; otherwise every visible room with any typing user (as the
/// requester may see them at `now`) contributes one event.
pub fn collect_typing_events(
    enabled: bool,
    in_scope: bool,
    registry: &TypingRegistry,
    all_rooms: &Vec<String>,
    now: u64,
    ignored: &Vec<String>,
) -> (r: Vec<TypingEntryOut>)
    requires
        registry.wf(),
    ensures
        !(enabled && in_scope) ==> r@.len() == 0,
        forall|m: int|
            0 <= m < r@.len() ==> typing_entry_ok(*registry, #[trigger] r@[m], now, ignored@),
        forall|m: int, n: int| 0 <= m < n < r@.len() ==> r@[m].room@ != r@[n].room@,
        forall|m: int| #![trigger r@[m]]
            0 <= m < r@.len() ==> seq_has(all_rooms@, r@[m].room@),
        enabled && in_scope ==> forall|k: int|
            0 <= k < all_rooms@.len() ==> (emits_typing(r@, #[trigger] all_rooms@[k]@)
                <==> room_has_typing(*registry, all_rooms@[k]@, now, ignored@)),
{
    let mut r: Vec<TypingEntryOut> = Vec::new();
    if !(enabled && in_scope) {
        return r;
    }
    let mut k: usize = 0;
    while k < all_rooms.len()
        invariant
            registry.wf(),
            0 <= k <= all_rooms@.len(),
            forall|m: int|
                0 <= m < r@.len() ==> typing_entry_ok(*registry, #[trigger] r@[m], now, ignored@),
            forall|m: int, n: int| 0 <= m < n < r@.len() ==> r@[m].room@ != r@[n].room@,
            forall|m: int| #![trigger r@[m]]
                0 <= m < r@.len() ==> seq_has(all_rooms@, r@[m].room@),
            forall|k2: int|
                0 <= k2 < k ==> (emits_typing(r@, #[trigger] all_rooms@[k2]@) <==> room_has_typing(
                    *registry,
                    all_rooms@[k2]@,
                    now,
                    ignored@,
                )),
        decreases all_rooms@.len() - k,
    {
        let ghost r0 = r@;
        let room = &all_rooms[k];
        let mut already = false;
        let mut m: usize = 0;
        while m < r.len()
            invariant
                r@ == r0,
                0 <= m <= r0.len(),
                already ==> emits_typing(r0, room@),
                !already ==> forall|m2: int| 0 <= m2 < m ==> r0[m2].room@ != room@,
            decreases r0.len() - m,
        {
            if !already && r[m].room.eq(room) {
                proof {
                    assert(r0[m as int].room@ == room@);
                }
                already = true;
            }
            m = m + 1;
        }
        if !already {
            let ev = registry.typings_event_for_user(room, now, ignored);
            proof {
                assert(forall|u: Seq<char>|
                    seq_has(ev.user_ids@, u) <==> (registry.typing_at(room@, u, now) && !seq_has(
                        ignored@,
                        u,
                    )));
            }
            let ghost evg = ev;
            if ev.user_ids.len() > 0 {
                r.push(TypingEntryOut { room: room.clone(), event: ev });
                proof {
                    let e = r@[r@.len() - 1];
                    assert(e.event == evg && e.room@ == room@);
                    assert forall|u: Seq<char>|
                        seq_has(e.event.user_ids@, u) <==> (registry.typing_at(e.room@, u, now)
                            && !seq_has(ignored@, u)) by {
                        assert(seq_has(evg.user_ids@, u) <==> (registry.typing_at(room@, u, now)
                            && !seq_has(ignored@, u)));
                    }
                    assert(typing_entry_ok(*registry, e, now, ignored@));
                    assert forall|m2: int|
                        0 <= m2 < r@.len() implies typing_entry_ok(
                        *registry,
                        #[trigger] r@[m2],
                        now,
                        ignored@,
                    ) by {
                        if m2 < r0.len() {
                            assert(r@[m2] == r0[m2]);
                        } else {
                            assert(r@[m2] == e);
                        }
                    }
                    assert forall|m2: int, n2: int|
                        0 <= m2 < n2 < r@.len() implies r@[m2].room@ != r@[n2].room@ by {
                        if n2 == r@.len() - 1 {
                            assert(r@[m2] == r0[m2]);
                        } else {
                            assert(r@[m2] == r0[m2] && r@[n2] == r0[n2]);
                        }
                    }
                    assert forall|m2: int| #![trigger r@[m2]]
                        0 <= m2 < r@.len() implies seq_has(all_rooms@, r@[m2].room@) by {
                        if m2 < r0.len() {
                            assert(r@[m2] == r0[m2]);
                            assert(seq_has(all_rooms@, r0[m2].room@));
                        } else {
                            assert(all_rooms@[k as int]@ == r@[m2].room@);
                        }
                    }
                }
            }
        }
        proof {
            let has = room_has_typing(*registry, room@, now, ignored@);
            if already {
                assert(r@ == r0);
                let m2 = choose|m2: int| 0 <= m2 < r0.len() && r0[m2].room@ == room@;
                assert(typing_entry_ok(*registry, r0[m2], now, ignored@));
                let u = r0[m2].event.user_ids@[0]@;
                assert(seq_has(r0[m2].event.user_ids@, u));
                assert(registry.typing_at(room@, u, now) && !seq_has(ignored@, u));
                assert(has);
            } else if r@.len() > r0.len() {
                assert(emits_typing(r@, room@));
                let e = r@[r@.len() - 1];
                let u = e.event.user_ids@[0]@;
                assert(seq_has(e.event.user_ids@, u));
                assert(registry.typing_at(room@, u, now) && !seq_has(ignored@, u));
                assert(has);
            } else {
                if has {
                    let u = choose|u: Seq<char>|
                        registry.typing_at(room@, u, now) && !seq_has(ignored@, u);
                    assert(false);
                }
                assert forall|m2: int| 0 <= m2 < r@.len() implies r@[m2].room@ != room@ by {
                    assert(r@[m2] == r0[m2]);
                }
                assert(!emits_typing(r@, room@));
            }
            assert forall|k2: int|
                0 <= k2 < k + 1 implies (emits_typing(r@, #[trigger] all_rooms@[k2]@)
                <==> room_has_typing(*registry, all_rooms@[k2]@, now, ignored@)) by {
                if all_rooms@[k2]@ == room@ {
                    if has {
                        assert(emits_typing(r@, room@));
                    } else {
                        assert(!emits_typing(r@, room@));
                    }
                } else {
                    if emits_typing(r@, all_rooms@[k2]@) {
                        let m2 = choose|m2: int|
                            0 <= m2 < r@.len() && r@[m2].room@ == all_rooms@[k2]@;
                        assert(m2 < r0.len());
                        assert(emits_typing(r0, all_rooms@[k2]@));
                    }
                    if emits_typing(r0, all_rooms@[k2]@) {
                        let m2 = choose|m2: int|
                            0 <= m2 < r0.len() && r0[m2].room@ == all_rooms@[k2]@;
                        assert(r@[m2].room@ == all_rooms@[k2]@);
                    }
                }
            }
        }
        k = k + 1;
    }
    r
}

/// Whether the assembled response says nothing new, so that the shell must
/// hold the request on the long-poll waiter: no room carries timeline or
/// state changes, and the to-device extension (if present) has no events.
pub open spec fn response_is_empty(resp: SyncResponse) -> bool {
    &&& forall|m: int|
        0 <= m < resp.rooms@.len() ==> (#[trigger] resp.rooms@[m].view).timeline@.len() == 0
            && resp.rooms@[m].view.required_state@.len() == 0 && resp.rooms@[m].view.receipts@.len()
            == 0 && resp.rooms@[m].view.private_read is None
    &&& match resp.extensions.to_device {
        Some(td) => td.events@.len() == 0,
        None => true,
    }
}

/// The long-poll bound: the client's requested timeout, capped at the
/// server's thirty-second ceiling.
pub const LONG_POLL_CAP_MS: u64 = 30000;

pub fn long_poll_duration(requested: Option<u64>) -> (r: u64)
    ensures
        r == (match requested {
            Some(t) => if t <= LONG_POLL_CAP_MS {
                t
            } else {
                LONG_POLL_CAP_MS
            },
            None => LONG_POLL_CAP_MS,
        }),
{
    match requested {
        Some(t) => if t <= LONG_POLL_CAP_MS {
            t
        } else {
            LONG_POLL_CAP_MS
        },
        None => LONG_POLL_CAP_MS,
    }
}

/// The views of a list of strings.
pub open spec fn views_of(s: Seq<String>) -> Seq<Seq<char>> {
    s.map_values(|x: String| x@)
}

/// The type filter over room-id views.
pub open spec fn passing_views(
    rooms: Seq<Seq<char>>,
    table: Seq<RoomTypeRow>,
    filter: Seq<crate::lists::RoomTypeTag>,
    negate: bool,
) -> Seq<Seq<char>> {
    rooms.filter(|rv: Seq<char>| crate::lists::room_passes(table, filter, negate, rv))
}

proof fn lemma_passing_views(
    rooms: Seq<String>,
    table: Seq<RoomTypeRow>,
    filter: Seq<crate::lists::RoomTypeTag>,
    negate: bool,
)
    ensures
        views_of(crate::lists::passing_rooms(rooms, table, filter, negate)) == passing_views(
            views_of(rooms),
            table,
            filter,
            negate,
        ),
    decreases rooms.len(),
{
    reveal(Seq::filter);
    if rooms.len() == 0 {
        assert(views_of(rooms) =~= Seq::<Seq<char>>::empty());
        assert(views_of(crate::lists::passing_rooms(rooms, table, filter, negate))
            =~= Seq::<Seq<char>>::empty());
        assert(passing_views(views_of(rooms), table, filter, negate) =~= Seq::<Seq<char>>::empty());
    } else {
        lemma_passing_views(rooms.drop_last(), table, filter, negate);
        assert(views_of(rooms).drop_last() =~= views_of(rooms.drop_last()));
        assert(views_of(rooms).last() == rooms.last()@);
        if crate::lists::room_passes(table, filter, negate, rooms.last()@) {
            assert(views_of(
                crate::lists::passing_rooms(rooms.drop_last(), table, filter, negate).push(
                    rooms.last(),
                ),
            ) =~= views_of(crate::lists::passing_rooms(rooms.drop_last(), table, filter, negate)).push(
                rooms.last()@,
            ));
        }
    }
}

/// The active room set of one list: all rooms, only the invited, or only the
/// joined, then the type filter when one is given.
pub open spec fn active_views_of(
    l: crate::conn::SyncList,
    joined: Seq<String>,
    invited: Seq<String>,
    knocked: Seq<String>,
    table: Seq<RoomTypeRow>,
) -> Seq<Seq<char>> {
    let base = match l.filter_invite {
        None => views_of(joined) + views_of(invited) + views_of(knocked),
        Some(true) => views_of(invited),
        Some(false) => views_of(joined),
    };
    if l.not_room_types@.len() == 0 {
        base
    } else {
        passing_views(base, table, l.not_room_types@, true)
    }
}

/// The clamped ceiling of one requested window over an active set: the floor
/// is forced to the window's beginning, the ceiling to the set's size.
pub open spec fn clamped_end(range_end: u64, active_len: int) -> int {
    if range_end as int <= active_len {
        range_end as int
    } else {
        active_len
    }
}

/// The room stands inside some clamped window of the list.
pub open spec fn in_list_window(l: crate::conn::SyncList, views: Seq<Seq<char>>, rm: Seq<char>) -> bool {
    exists|ri: int, wi: int|
        0 <= ri < l.ranges@.len() && 0 <= wi < clamped_end(
            (#[trigger] l.ranges@[ri]).1,
            views.len() as int,
        ) && #[trigger] views[wi] == rm
}

/// The room stands inside some clamped window of the first `ri` ranges.
pub open spec fn in_windows_before(
    l: crate::conn::SyncList,
    views: Seq<Seq<char>>,
    rm: Seq<char>,
    ri: int,
) -> bool {
    exists|r2: int, wi: int|
        0 <= r2 < ri && r2 < l.ranges@.len() && 0 <= wi < clamped_end(
            (#[trigger] l.ranges@[r2]).1,
            views.len() as int,
        ) && #[trigger] views[wi] == rm
}

/// The room stands among the first `wi` slots of the clamped range `ri`.
pub open spec fn in_range_prefix(
    l: crate::conn::SyncList,
    views: Seq<Seq<char>>,
    rm: Seq<char>,
    ri: int,
    wi: int,
) -> bool {
    exists|w2: int|
        0 <= w2 < wi && w2 < clamped_end(l.ranges@[ri].1, views.len() as int) && views[w2] == rm
}

/// A list's per-room timeline limit, capped at one hundred.
pub open spec fn list_cap(l: crate::conn::SyncList) -> u64 {
    if l.timeline_limit <= 100 {
        l.timeline_limit
    } else {
        100
    }
}

/// One list's effect on one covered room of the to-do table: state keys
/// unioned, the limit raised to the list's capped limit, the watermark
/// lowered to the one this list last recorded for the room (`0`, "unknown,
/// resend everything", when none).
pub open spec fn list_merged(
    before: TodoTable,
    after: TodoTable,
    marks: Seq<crate::conn::KnownMark>,
    kv: (Seq<char>, Seq<char>, Option<Seq<char>>),
    l: crate::conn::SyncList,
    rm: Seq<char>,
) -> bool {
    &&& after.entry(rm) is Some
    &&& after.limit_of(rm) == (if before.limit_of(rm) >= list_cap(l) {
        before.limit_of(rm)
    } else {
        list_cap(l)
    })
    &&& after.mark_of(rm) == (if before.mark_of(rm) <= crate::conn::mark_row_of(
        marks,
        kv,
        l.name@,
        rm,
    ) {
        before.mark_of(rm)
    } else {
        crate::conn::mark_row_of(marks, kv, l.name@, rm)
    })
    &&& forall|t: Seq<char>, k: Seq<char>| #![trigger after.has_pair(rm, t, k)]
        after.has_pair(rm, t, k) <==> (before.has_pair(rm, t, k) || crate::todo::pair_in(
            l.required_state@,
            t,
            k,
        ))
}

/// Merge every room of the list's clamped windows into the to-do table and
/// return the covered set; a room outside every window is left untouched.
pub fn merge_list_windows(
    l: &crate::conn::SyncList,
    active: &Vec<String>,
    key: &ConnKey,
    todo: &mut TodoTable,
    cache: &ConnectionCache,
) -> (covered: Vec<String>)
    requires
        old(todo).wf(),
        cache.wf(),
    ensures
        final(todo).wf(),
        forall|rm: Seq<char>| #![trigger seq_has(covered@, rm)]
            seq_has(covered@, rm) <==> in_list_window(*l, views_of(active@), rm),
        forall|rm: Seq<char>|
            !in_list_window(*l, views_of(active@), rm) ==> final(todo).entry(rm) == old(
                todo,
            ).entry(rm),
        forall|rm: Seq<char>|
            in_list_window(*l, views_of(active@), rm) ==> list_merged(
                *old(todo),
                *final(todo),
                cache.marks@,
                key_view(*key),
                *l,
                rm,
            ),
{
    let ghost todo0 = *todo;
    let ghost views = views_of(active@);
    let mut covered: Vec<String> = Vec::new();
    let mut ri: usize = 0;
    while ri < l.ranges.len()
        invariant
            todo0 == *old(todo),
            views == views_of(active@),
            todo.wf(),
            cache.wf(),
            0 <= ri <= l.ranges@.len(),
            forall|rm: Seq<char>| #![trigger seq_has(covered@, rm)]
                seq_has(covered@, rm) <==> in_windows_before(*l, views, rm, ri as int),
            forall|rm: Seq<char>|
                !seq_has(covered@, rm) ==> todo.entry(rm) == todo0.entry(rm),
            forall|rm: Seq<char>|
                seq_has(covered@, rm) ==> list_merged(
                    todo0,
                    *todo,
                    cache.marks@,
                    key_view(*key),
                    *l,
                    rm,
                ),
        decreases l.ranges@.len() - ri,
    {
        let range = clamp_range(l.ranges[ri], active.len());
        let limit = if l.timeline_limit <= 100 {
            l.timeline_limit
        } else {
            100
        };
        let mut wi: usize = range.0;
        proof {
            assert(range.1 as int == clamped_end(l.ranges@[ri as int].1, views.len() as int));
        }
        while wi < range.1
            invariant
                todo0 == *old(todo),
                views == views_of(active@),
                todo.wf(),
                cache.wf(),
                0 <= ri < l.ranges@.len(),
                limit == list_cap(*l),
                range.1 <= active@.len(),
                range.1 as int == clamped_end(l.ranges@[ri as int].1, views.len() as int),
                0 <= wi <= range.1,
                forall|rm: Seq<char>| #![trigger seq_has(covered@, rm)]
                    seq_has(covered@, rm) <==> (in_windows_before(*l, views, rm, ri as int)
                        || in_range_prefix(*l, views, rm, ri as int, wi as int)),
                forall|rm: Seq<char>|
                    !seq_has(covered@, rm) ==> todo.entry(rm) == todo0.entry(rm),
                forall|rm: Seq<char>|
                    seq_has(covered@, rm) ==> list_merged(
                        todo0,
                        *todo,
                        cache.marks@,
                        key_view(*key),
                        *l,
                        rm,
                    ),
            decreases range.1 - wi,
        {
            let ghost covered0 = covered@;
            let ghost todo_pre = *todo;
            let room = &active[wi];
            proof {
                assert(views[wi as int] == room@);
            }
            let mark = cache.get_known_mark(key, &l.name, room);
            todo.merge(room, &l.required_state, limit, mark);
            let fresh = !crate::strutil::vec_has_string(&covered, room);
            if fresh {
                covered.push(room.clone());
            }
            proof {
                assert forall|rm: Seq<char>| #![trigger seq_has(covered@, rm)]
                    seq_has(covered@, rm) <==> (in_windows_before(*l, views, rm, ri as int)
                        || in_range_prefix(*l, views, rm, ri as int, wi as int + 1)) by {
                    if seq_has(covered@, rm) {
                        if seq_has(covered0, rm) {
                        } else {
                            let m2 = choose|m2: int|
                                0 <= m2 < covered@.len() && covered@[m2]@ == rm;
                            assert(m2 == covered@.len() - 1);
                            assert(rm == room@);
                            assert(views[wi as int] == rm);
                            assert(in_range_prefix(*l, views, rm, ri as int, wi as int + 1));
                        }
                    }
                    if in_windows_before(*l, views, rm, ri as int) || in_range_prefix(
                        *l,
                        views,
                        rm,
                        ri as int,
                        wi as int + 1,
                    ) {
                        if in_windows_before(*l, views, rm, ri as int) || in_range_prefix(
                            *l,
                            views,
                            rm,
                            ri as int,
                            wi as int,
                        ) {
                            assert(seq_has(covered0, rm));
                            let m2 = choose|m2: int|
                                0 <= m2 < covered0.len() && covered0[m2]@ == rm;
                            assert(covered@[m2]@ == rm);
                        } else {
                            let w2 = choose|w2: int|
                                0 <= w2 < wi + 1 && w2 < clamped_end(
                                    l.ranges@[ri as int].1,
                                    views.len() as int,
                                ) && views[w2] == rm;
                            assert(w2 == wi as int);
                            assert(rm == room@);
                            if fresh {
                                assert(covered@[covered@.len() - 1]@ == rm);
                            } else {
                                assert(seq_has(covered0, rm));
                                let m2 = choose|m2: int|
                                    0 <= m2 < covered0.len() && covered0[m2]@ == rm;
                                assert(covered@[m2]@ == rm);
                            }
                        }
                    }
                }
                assert forall|rm: Seq<char>|
                    !seq_has(covered@, rm) implies todo.entry(rm) == todo0.entry(rm) by {
                    assert(!seq_has(covered0, rm)) by {
                        if seq_has(covered0, rm) {
                            let m2 = choose|m2: int|
                                0 <= m2 < covered0.len() && covered0[m2]@ == rm;
                            assert(covered@[m2]@ == rm);
                        }
                    }
                    if rm == room@ {
                        if fresh {
                            assert(covered@[covered@.len() - 1]@ == rm);
                        } else {
                            assert(seq_has(covered0, rm));
                        }
                    } else {
                        assert(todo.entry(rm) == todo_pre.entry(rm));
                    }
                }
                assert forall|rm: Seq<char>|
                    seq_has(covered@, rm) implies list_merged(
                    todo0,
                    *todo,
                    cache.marks@,
                    key_view(*key),
                    *l,
                    rm,
                ) by {
                    let mko = crate::conn::mark_row_of(cache.marks@, key_view(*key), l.name@, rm);
                    if rm == room@ {
                        if seq_has(covered0, rm) {
                            assert(list_merged(
                                todo0,
                                todo_pre,
                                cache.marks@,
                                key_view(*key),
                                *l,
                                rm,
                            ));
                            assert forall|t: Seq<char>, kk: Seq<char>| #![trigger todo.has_pair(rm, t, kk)]
                                todo.has_pair(rm, t, kk) <==> (todo0.has_pair(rm, t, kk)
                                    || crate::todo::pair_in(l.required_state@, t, kk)) by {
                                assert(todo.has_pair(room@, t, kk) <==> (todo_pre.has_pair(
                                    room@,
                                    t,
                                    kk,
                                ) || crate::todo::pair_in(l.required_state@, t, kk)));
                            }
                        } else {
                            assert(todo_pre.entry(rm) == todo0.entry(rm));
                            assert forall|t: Seq<char>, kk: Seq<char>| #![trigger todo.has_pair(rm, t, kk)]
                                todo.has_pair(rm, t, kk) <==> (todo0.has_pair(rm, t, kk)
                                    || crate::todo::pair_in(l.required_state@, t, kk)) by {
                                assert(todo_pre.has_pair(rm, t, kk) == todo0.has_pair(rm, t, kk));
                                assert(todo.has_pair(room@, t, kk) <==> (todo_pre.has_pair(
                                    room@,
                                    t,
                                    kk,
                                ) || crate::todo::pair_in(l.required_state@, t, kk)));
                            }
                        }
                    } else {
                        assert(seq_has(covered0, rm)) by {
                            let m2 = choose|m2: int|
                                0 <= m2 < covered@.len() && covered@[m2]@ == rm;
                            if m2 < covered0.len() {
                            } else {
                                assert(covered@[m2]@ == room@);
                            }
                        }
                        assert(list_merged(todo0, todo_pre, cache.marks@, key_view(*key), *l, rm));
                        assert(todo.entry(rm) == todo_pre.entry(rm));
                        assert forall|t: Seq<char>, kk: Seq<char>| #![trigger todo.has_pair(rm, t, kk)]
                            todo.has_pair(rm, t, kk) <==> (todo0.has_pair(rm, t, kk)
                                || crate::todo::pair_in(l.required_state@, t, kk)) by {
                            assert(todo.has_pair(rm, t, kk) == todo_pre.has_pair(rm, t, kk));
                            assert(todo_pre.has_pair(rm, t, kk) <==> (todo0.has_pair(rm, t, kk)
                                || crate::todo::pair_in(l.required_state@, t, kk)));
                        }
                    }
                }
            }
            wi = wi + 1;
        }
        proof {
            assert forall|rm: Seq<char>| #![trigger seq_has(covered@, rm)]
                seq_has(covered@, rm) <==> in_windows_before(*l, views, rm, ri as int + 1) by {
                if seq_has(covered@, rm) {
                    if in_windows_before(*l, views, rm, ri as int) {
                        let (r2, w2) = choose|r2: int, w2: int|
                            0 <= r2 < ri && r2 < l.ranges@.len() && 0 <= w2 < clamped_end(
                                (#[trigger] l.ranges@[r2]).1,
                                views.len() as int,
                            ) && #[trigger] views[w2] == rm;
                        assert(0 <= r2 < ri + 1 && r2 < l.ranges@.len() && 0 <= w2 < clamped_end(
                            l.ranges@[r2].1,
                            views.len() as int,
                        ) && views[w2] == rm);
                    } else {
                        let w2 = choose|w2: int|
                            0 <= w2 < range.1 && w2 < clamped_end(
                                l.ranges@[ri as int].1,
                                views.len() as int,
                            ) && views[w2] == rm;
                        assert(0 <= ri < ri + 1 && (ri as int) < l.ranges@.len() && 0 <= w2
                            < clamped_end(l.ranges@[ri as int].1, views.len() as int)
                            && views[w2] == rm);
                    }
                }
                if in_windows_before(*l, views, rm, ri as int + 1) {
                    let (r2, w2) = choose|r2: int, w2: int|
                        0 <= r2 < ri + 1 && r2 < l.ranges@.len() && 0 <= w2 < clamped_end(
                            (#[trigger] l.ranges@[r2]).1,
                            views.len() as int,
                        ) && #[trigger] views[w2] == rm;
                    if r2 < ri as int {
                        assert(in_windows_before(*l, views, rm, ri as int));
                    } else {
                        assert(in_range_prefix(*l, views, rm, ri as int, range.1 as int));
                    }
                }
            }
        }
        ri = ri + 1;
    }
    proof {
        let views2 = views_of(active@);
        assert forall|rm: Seq<char>| #![trigger seq_has(covered@, rm)]
            seq_has(covered@, rm) <==> in_list_window(*l, views2, rm) by {
            if seq_has(covered@, rm) {
                let (r2, w2) = choose|r2: int, w2: int|
                    0 <= r2 < l.ranges@.len() && r2 < l.ranges@.len() && 0 <= w2 < clamped_end(
                        (#[trigger] l.ranges@[r2]).1,
                        views2.len() as int,
                    ) && #[trigger] views2[w2] == rm;
                assert(0 <= r2 < l.ranges@.len() && 0 <= w2 < clamped_end(
                    l.ranges@[r2].1,
                    views2.len() as int,
                ) && views2[w2] == rm);
            }
            if in_list_window(*l, views2, rm) {
                let (r2, w2) = choose|r2: int, w2: int|
                    0 <= r2 < l.ranges@.len() && 0 <= w2 < clamped_end(
                        (#[trigger] l.ranges@[r2]).1,
                        views2.len() as int,
                    ) && #[trigger] views2[w2] == rm;
                assert(0 <= r2 < l.ranges@.len() as int && r2 < l.ranges@.len() && 0 <= w2
                    < clamped_end(l.ranges@[r2].1, views2.len() as int) && views2[w2] == rm);
                assert(in_windows_before(*l, views2, rm, l.ranges@.len() as int));
            }
        }
        assert forall|rm: Seq<char>|
            in_list_window(*l, views2, rm) implies list_merged(
            *old(todo),
            *todo,
            cache.marks@,
            key_view(*key),
            *l,
            rm,
        ) by {
            assert(seq_has(covered@, rm));
        }
        assert forall|rm: Seq<char>|
            !in_list_window(*l, views2, rm) implies todo.entry(rm) == old(todo).entry(rm) by {
            assert(!seq_has(covered@, rm));
        }
    }
    covered
}

fn clone_strings(v: &Vec<String>) -> (r: Vec<String>)
    ensures
        views_of(r@) == views_of(v@),
{
    let mut r: Vec<String> = Vec::new();
    let mut i: usize = 0;
    while i < v.len()
        invariant
            0 <= i <= v@.len(),
            r@.len() == i,
            forall|j: int| 0 <= j < i ==> r@[j]@ == v@[j]@,
        decreases v@.len() - i,
    {
        r.push(v[i].clone());
        i = i + 1;
    }
    proof {
        assert(views_of(r@) =~= views_of(v@));
    }
    r
}

/// List names are pairwise distinct: the request field encodes a map.
pub open spec fn unique_list_names(lists: Seq<crate::conn::SyncList>) -> bool {
    forall|i: int, j: int| 0 <= i < j < lists.len() ==> lists[i].name@ != lists[j].name@
}

/// The name belongs to one of the first `n` lists.
pub open spec fn is_list_name_before(
    lists: Seq<crate::conn::SyncList>,
    l2: Seq<char>,
    n: int,
) -> bool {
    exists|i: int| 0 <= i < n && i < lists.len() && (#[trigger] lists[i]).name@ == l2
}

/// The room falls inside a clamped window of one of the first `n` lists.
pub open spec fn windowed_before(
    lists: Seq<crate::conn::SyncList>,
    joined: Seq<String>,
    invited: Seq<String>,
    knocked: Seq<String>,
    table: Seq<RoomTypeRow>,
    rm: Seq<char>,
    n: int,
) -> bool {
    exists|i: int|
        0 <= i < n && i < lists.len() && in_list_window(
            #[trigger] lists[i],
            active_views_of(lists[i], joined, invited, knocked, table),
            rm,
        )
}

/// Every list's reply names the list and carries its active-set size.
pub open spec fn lists_counted(
    resp_lists: Seq<ListSummary>,
    lists: Seq<crate::conn::SyncList>,
    joined: Seq<String>,
    invited: Seq<String>,
    knocked: Seq<String>,
    table: Seq<RoomTypeRow>,
) -> bool {
    resp_lists.len() == lists.len() && (forall|i: int|
        0 <= i < lists.len() ==> (#[trigger] resp_lists[i].name)@ == lists[i].name@
            && resp_lists[i].count == active_views_of(lists[i], joined, invited, knocked, table).len())
}

/// A (type, state key) pair is demanded for the room by one of the first
/// `n` lists whose clamped windows cover it.
pub open spec fn pair_windowed_before(
    lists: Seq<crate::conn::SyncList>,
    joined: Seq<String>,
    invited: Seq<String>,
    knocked: Seq<String>,
    table: Seq<RoomTypeRow>,
    rm: Seq<char>,
    t: Seq<char>,
    k2: Seq<char>,
    n: int,
) -> bool {
    exists|i: int|
        0 <= i < n && i < lists.len() && in_list_window(
            #[trigger] lists[i],
            active_views_of(lists[i], joined, invited, knocked, table),
            rm,
        ) && crate::todo::pair_in(lists[i].required_state@, t, k2)
}

/// Compute each list's active set, record its size, clamp the requested
/// windows, merge the covered rooms into the to-do table, and, when the
/// request carries a connection id, record each list's covered set in the
/// connection cache at the request's watermark.
#[verifier::rlimit(60)]
pub fn handle_lists(
    lists: &Vec<crate::conn::SyncList>,
    key: &ConnKey,
    since: u64,
    record: bool,
    joined: &Vec<String>,
    invited: &Vec<String>,
    knocked: &Vec<String>,
    room_types: &Vec<RoomTypeRow>,
    todo: &mut TodoTable,
    cache: &mut ConnectionCache,
) -> (summaries: Vec<ListSummary>)
    requires
        old(todo).wf(),
        old(cache).wf(),
    ensures
        final(todo).wf(),
        final(cache).wf(),
        final(cache).sticky@ == old(cache).sticky@,
        summaries@.len() == lists@.len(),
        forall|i: int|
            0 <= i < lists@.len() ==> (#[trigger] summaries@[i].name)@ == lists@[i].name@
                && summaries@[i].count == active_views_of(
                lists@[i],
                joined@,
                invited@,
                knocked@,
                room_types@,
            ).len(),
        forall|rm: Seq<char>| #![trigger final(todo).entry(rm)]
            (final(todo).entry(rm) is Some) <==> ((old(todo).entry(rm) is Some) || windowed_before(
                lists@,
                joined@,
                invited@,
                knocked@,
                room_types@,
                rm,
                lists@.len() as int,
            )),
        forall|rm: Seq<char>|
            !windowed_before(lists@, joined@, invited@, knocked@, room_types@, rm, lists@.len() as int)
                ==> final(todo).entry(rm) == old(todo).entry(rm),
        forall|rm: Seq<char>, t: Seq<char>, k2: Seq<char>| #![trigger final(todo).has_pair(rm, t, k2)]
            final(todo).has_pair(rm, t, k2) <==> (old(todo).has_pair(rm, t, k2)
                || pair_windowed_before(
                lists@,
                joined@,
                invited@,
                knocked@,
                room_types@,
                rm,
                t,
                k2,
                lists@.len() as int,
            )),
        forall|rm: Seq<char>| #![trigger final(todo).limit_of(rm)]
            final(todo).limit_of(rm) >= old(todo).limit_of(rm),
        forall|i: int, rm: Seq<char>|
            0 <= i < lists@.len() && #[trigger] in_list_window(
                lists@[i],
                active_views_of(lists@[i], joined@, invited@, knocked@, room_types@),
                rm,
            ) ==> final(todo).limit_of(rm) >= list_cap(lists@[i]),
        forall|rm: Seq<char>| #![trigger final(todo).limit_of(rm)]
            final(todo).limit_of(rm) == old(todo).limit_of(rm) || exists|i: int|
                0 <= i < lists@.len() && in_list_window(
                    #[trigger] lists@[i],
                    active_views_of(lists@[i], joined@, invited@, knocked@, room_types@),
                    rm,
                ) && final(todo).limit_of(rm) == list_cap(lists@[i]),
        !record ==> final(cache).marks@ == old(cache).marks@,
        record && unique_list_names(lists@) ==> forall|i: int, rm: Seq<char>, m: u64|
            0 <= i < lists@.len() ==> (#[trigger] has_mark(
                final(cache).marks@,
                key_view(*key),
                lists@[i].name@,
                rm,
                m,
            ) <==> (in_list_window(
                lists@[i],
                active_views_of(lists@[i], joined@, invited@, knocked@, room_types@),
                rm,
            ) && m == since)),
        record ==> forall|kv: (Seq<char>, Seq<char>, Option<Seq<char>>), l2: Seq<char>,
            ro: Seq<char>, m: u64|
            !(kv == key_view(*key) && is_list_name_before(lists@, l2, lists@.len() as int))
                ==> has_mark(final(cache).marks@, kv, l2, ro, m) == has_mark(
                old(cache).marks@,
                kv,
                l2,
                ro,
                m,
            ),
{
    let ghost todo0 = *todo;
    let mut summaries: Vec<ListSummary> = Vec::new();
    let mut li: usize = 0;
    while li < lists.len()
        invariant
            todo0 == *old(todo),
            todo.wf(),
            cache.wf(),
            cache.sticky@ == old(cache).sticky@,
            0 <= li <= lists@.len(),
            summaries@.len() == li,
            forall|i: int|
                0 <= i < li ==> (#[trigger] summaries@[i].name)@ == lists@[i].name@
                    && summaries@[i].count == active_views_of(
                    lists@[i],
                    joined@,
                    invited@,
                    knocked@,
                    room_types@,
                ).len(),
            forall|rm: Seq<char>| #![trigger todo.entry(rm)]
                (todo.entry(rm) is Some) <==> ((todo0.entry(rm) is Some) || windowed_before(
                    lists@,
                    joined@,
                    invited@,
                    knocked@,
                    room_types@,
                    rm,
                    li as int,
                )),
            forall|rm: Seq<char>|
                !windowed_before(lists@, joined@, invited@, knocked@, room_types@, rm, li as int)
                    ==> todo.entry(rm) == todo0.entry(rm),
            forall|rm: Seq<char>, t: Seq<char>, k2: Seq<char>| #![trigger todo.has_pair(rm, t, k2)]
                todo.has_pair(rm, t, k2) <==> (todo0.has_pair(rm, t, k2) || pair_windowed_before(
                    lists@,
                    joined@,
                    invited@,
                    knocked@,
                    room_types@,
                    rm,
                    t,
                    k2,
                    li as int,
                )),
            forall|rm: Seq<char>| #![trigger todo.limit_of(rm)]
                todo.limit_of(rm) >= todo0.limit_of(rm),
            forall|i: int, rm: Seq<char>|
                0 <= i < li && #[trigger] in_list_window(
                    lists@[i],
                    active_views_of(lists@[i], joined@, invited@, knocked@, room_types@),
                    rm,
                ) ==> todo.limit_of(rm) >= list_cap(lists@[i]),
            forall|rm: Seq<char>| #![trigger todo.limit_of(rm)]
                todo.limit_of(rm) == todo0.limit_of(rm) || exists|i: int|
                    0 <= i < li && i < lists@.len() && in_list_window(
                        #[trigger] lists@[i],
                        active_views_of(lists@[i], joined@, invited@, knocked@, room_types@),
                        rm,
                    ) && todo.limit_of(rm) == list_cap(lists@[i]),
            !record ==> cache.marks@ == old(cache).marks@,
            record && unique_list_names(lists@) ==> forall|i: int, rm: Seq<char>, m: u64|
                0 <= i < li ==> (#[trigger] has_mark(
                    cache.marks@,
                    key_view(*key),
                    lists@[i].name@,
                    rm,
                    m,
                ) <==> (in_list_window(
                    lists@[i],
                    active_views_of(lists@[i], joined@, invited@, knocked@, room_types@),
                    rm,
                ) && m == since)),
            record ==> forall|kv: (Seq<char>, Seq<char>, Option<Seq<char>>), l2: Seq<char>,
                ro: Seq<char>, m: u64|
                !(kv == key_view(*key) && is_list_name_before(lists@, l2, li as int)) ==> has_mark(
                    cache.marks@,
                    kv,
                    l2,
                    ro,
                    m,
                ) == has_mark(old(cache).marks@, kv, l2, ro, m),
        decreases lists@.len() - li,
    {
        let ghost todo_pre = *todo;
        let ghost marks_pre = cache.marks@;
        let l = &lists[li];
        let mut base: Vec<String> = match l.filter_invite {
            None => {
                let mut b = clone_strings(joined);
                let mut b2 = clone_strings(invited);
                let mut b3 = clone_strings(knocked);
                b.append(&mut b2);
                b.append(&mut b3);
                proof {
                    assert(views_of(b@) =~= views_of(joined@) + views_of(invited@) + views_of(
                        knocked@,
                    ));
                }
                b
            },
            Some(true) => clone_strings(invited),
            Some(false) => clone_strings(joined),
        };
        let active: Vec<String> = if l.not_room_types.len() == 0 {
            base
        } else {
            let ghost base0 = base@;
            let filtered = filter_rooms(base, room_types, &l.not_room_types, true);
            proof {
                lemma_passing_views(base0, room_types@, l.not_room_types@, true);
            }
            filtered
        };
        let ghost lviews = active_views_of(lists@[li as int], joined@, invited@, knocked@, room_types@);
        proof {
            assert(views_of(active@) == lviews);
            assert(active@.len() == lviews.len());
        }
        let count = active.len() as u64;
        let covered = merge_list_windows(l, &active, key, todo, cache);
        if record {
            cache.update_known_rooms(key, &l.name, &covered, since);
        }
        let ghost sums0 = summaries@;
        summaries.push(ListSummary { name: l.name.clone(), count });
        proof {
            let s1 = summaries@;
            assert(s1[s1.len() - 1].name@ == lists@[li as int].name@);
            assert(s1[s1.len() - 1].count == lviews.len());
            assert forall|i: int|
                0 <= i < li + 1 implies (#[trigger] s1[i].name)@ == lists@[i].name@ && s1[i].count
                == active_views_of(lists@[i], joined@, invited@, knocked@, room_types@).len() by {
                if i < li as int {
                    assert(s1[i] == sums0[i]);
                    assert((sums0[i].name)@ == lists@[i].name@);
                    assert(sums0[i].count == active_views_of(
                        lists@[i],
                        joined@,
                        invited@,
                        knocked@,
                        room_types@,
                    ).len());
                } else {
                    assert(s1[i] == s1[s1.len() - 1]);
                    assert(s1[i].count == lviews.len());
                    assert(lviews == active_views_of(
                        lists@[li as int],
                        joined@,
                        invited@,
                        knocked@,
                        room_types@,
                    ));
                }
            }
            assert forall|rm: Seq<char>| #![trigger todo.entry(rm)]
                (todo.entry(rm) is Some) <==> ((todo0.entry(rm) is Some) || windowed_before(
                    lists@,
                    joined@,
                    invited@,
                    knocked@,
                    room_types@,
                    rm,
                    li as int + 1,
                )) by {
                if in_list_window(lists@[li as int], lviews, rm) {
                    assert(list_merged(
                        todo_pre,
                        *todo,
                        marks_pre,
                        key_view(*key),
                        lists@[li as int],
                        rm,
                    ));
                    assert(todo.entry(rm) is Some);
                    assert(windowed_before(
                        lists@,
                        joined@,
                        invited@,
                        knocked@,
                        room_types@,
                        rm,
                        li as int + 1,
                    ));
                } else {
                    assert(todo.entry(rm) == todo_pre.entry(rm));
                    if windowed_before(
                        lists@,
                        joined@,
                        invited@,
                        knocked@,
                        room_types@,
                        rm,
                        li as int + 1,
                    ) && !windowed_before(
                        lists@,
                        joined@,
                        invited@,
                        knocked@,
                        room_types@,
                        rm,
                        li as int,
                    ) {
                        let i = choose|i: int|
                            0 <= i < li + 1 && i < lists@.len() && in_list_window(
                                #[trigger] lists@[i],
                                active_views_of(lists@[i], joined@, invited@, knocked@, room_types@),
                                rm,
                            );
                        assert(i == li as int);
                        assert(false);
                    }
                    if windowed_before(
                        lists@,
                        joined@,
                        invited@,
                        knocked@,
                        room_types@,
                        rm,
                        li as int,
                    ) {
                        let i = choose|i: int|
                            0 <= i < li && i < lists@.len() && in_list_window(
                                #[trigger] lists@[i],
                                active_views_of(lists@[i], joined@, invited@, knocked@, room_types@),
                                rm,
                            );
                        assert(0 <= i < li + 1 && i < lists@.len() && in_list_window(
                            lists@[i],
                            active_views_of(lists@[i], joined@, invited@, knocked@, room_types@),
                            rm,
                        ));
                    }
                }
            }
            assert forall|rm: Seq<char>|
                !windowed_before(
                    lists@,
                    joined@,
                    invited@,
                    knocked@,
                    room_types@,
                    rm,
                    li as int + 1,
                ) implies todo.entry(rm) == todo0.entry(rm) by {
                assert(!windowed_before(lists@, joined@, invited@, knocked@, room_types@, rm, li as int))
                    by {
                    if windowed_before(lists@, joined@, invited@, knocked@, room_types@, rm, li as int) {
                        let i = choose|i: int|
                            0 <= i < li && i < lists@.len() && in_list_window(
                                #[trigger] lists@[i],
                                active_views_of(lists@[i], joined@, invited@, knocked@, room_types@),
                                rm,
                            );
                        assert(0 <= i < li + 1 && i < lists@.len() && in_list_window(
                            lists@[i],
                            active_views_of(lists@[i], joined@, invited@, knocked@, room_types@),
                            rm,
                        ));
                    }
                }
                if in_list_window(lists@[li as int], lviews, rm) {
                    assert(windowed_before(
                        lists@,
                        joined@,
                        invited@,
                        knocked@,
                        room_types@,
                        rm,
                        li as int + 1,
                    ));
                } else {
                    assert(todo.entry(rm) == todo_pre.entry(rm));
                }
            }
            assert forall|rm: Seq<char>, t: Seq<char>, k2: Seq<char>| #![trigger todo.has_pair(rm, t, k2)]
                todo.has_pair(rm, t, k2) <==> (todo0.has_pair(rm, t, k2) || pair_windowed_before(
                    lists@,
                    joined@,
                    invited@,
                    knocked@,
                    room_types@,
                    rm,
                    t,
                    k2,
                    li as int + 1,
                )) by {
                if in_list_window(lists@[li as int], lviews, rm) {
                    assert(list_merged(
                        todo_pre,
                        *todo,
                        marks_pre,
                        key_view(*key),
                        lists@[li as int],
                        rm,
                    ));
                    assert(todo.has_pair(rm, t, k2) <==> (todo_pre.has_pair(rm, t, k2)
                        || crate::todo::pair_in(lists@[li as int].required_state@, t, k2)));
                } else {
                    assert(todo.entry(rm) == todo_pre.entry(rm));
                    assert(todo.has_pair(rm, t, k2) == todo_pre.has_pair(rm, t, k2));
                }
                if todo.has_pair(rm, t, k2) && !todo0.has_pair(rm, t, k2) {
                    if todo_pre.has_pair(rm, t, k2) {
                        let i = choose|i: int|
                            0 <= i < li && i < lists@.len() && in_list_window(
                                #[trigger] lists@[i],
                                active_views_of(lists@[i], joined@, invited@, knocked@, room_types@),
                                rm,
                            ) && crate::todo::pair_in(lists@[i].required_state@, t, k2);
                        assert(0 <= i < li + 1 && i < lists@.len() && in_list_window(
                            lists@[i],
                            active_views_of(lists@[i], joined@, invited@, knocked@, room_types@),
                            rm,
                        ) && crate::todo::pair_in(lists@[i].required_state@, t, k2));
                    } else {
                        assert(in_list_window(lists@[li as int], lviews, rm)
                            && crate::todo::pair_in(lists@[li as int].required_state@, t, k2));
                    }
                }
                if pair_windowed_before(
                    lists@,
                    joined@,
                    invited@,
                    knocked@,
                    room_types@,
                    rm,
                    t,
                    k2,
                    li as int + 1,
                ) && !todo0.has_pair(rm, t, k2) {
                    let i = choose|i: int|
                        0 <= i < li + 1 && i < lists@.len() && in_list_window(
                            #[trigger] lists@[i],
                            active_views_of(lists@[i], joined@, invited@, knocked@, room_types@),
                            rm,
                        ) && crate::todo::pair_in(lists@[i].required_state@, t, k2);
                    if i < li as int {
                        assert(pair_windowed_before(
                            lists@,
                            joined@,
                            invited@,
                            knocked@,
                            room_types@,
                            rm,
                            t,
                            k2,
                            li as int,
                        ));
                        assert(todo_pre.has_pair(rm, t, k2));
                        assert(in_list_window(lists@[i], active_views_of(lists@[i], joined@, invited@, knocked@, room_types@), rm));
                        assert(windowed_before(lists@, joined@, invited@, knocked@, room_types@, rm, li as int));
                        if !in_list_window(lists@[li as int], lviews, rm) {
                            assert(todo.has_pair(rm, t, k2) == todo_pre.has_pair(rm, t, k2));
                        }
                        assert(todo.has_pair(rm, t, k2));
                    } else {
                        assert(todo.has_pair(rm, t, k2));
                    }
                }
            }
            assert forall|rm: Seq<char>| #![trigger todo.limit_of(rm)]
                todo.limit_of(rm) >= todo0.limit_of(rm) by {
                if in_list_window(lists@[li as int], lviews, rm) {
                    assert(list_merged(
                        todo_pre,
                        *todo,
                        marks_pre,
                        key_view(*key),
                        lists@[li as int],
                        rm,
                    ));
                } else {
                    assert(todo.entry(rm) == todo_pre.entry(rm));
                }
            }
            assert forall|i: int, rm: Seq<char>|
                0 <= i < li + 1 && #[trigger] in_list_window(
                    lists@[i],
                    active_views_of(lists@[i], joined@, invited@, knocked@, room_types@),
                    rm,
                ) implies todo.limit_of(rm) >= list_cap(lists@[i]) by {
                if i < li as int {
                    assert(todo_pre.limit_of(rm) >= list_cap(lists@[i]));
                    if in_list_window(lists@[li as int], lviews, rm) {
                        assert(list_merged(
                            todo_pre,
                            *todo,
                            marks_pre,
                            key_view(*key),
                            lists@[li as int],
                            rm,
                        ));
                    } else {
                        assert(todo.entry(rm) == todo_pre.entry(rm));
                    }
                } else {
                    assert(list_merged(
                        todo_pre,
                        *todo,
                        marks_pre,
                        key_view(*key),
                        lists@[li as int],
                        rm,
                    ));
                }
            }
            assert forall|rm: Seq<char>| #![trigger todo.limit_of(rm)]
                todo.limit_of(rm) == todo0.limit_of(rm) || exists|i: int|
                    0 <= i < li + 1 && i < lists@.len() && in_list_window(
                        #[trigger] lists@[i],
                        active_views_of(lists@[i], joined@, invited@, knocked@, room_types@),
                        rm,
                    ) && todo.limit_of(rm) == list_cap(lists@[i]) by {
                if in_list_window(lists@[li as int], lviews, rm) {
                    assert(list_merged(
                        todo_pre,
                        *todo,
                        marks_pre,
                        key_view(*key),
                        lists@[li as int],
                        rm,
                    ));
                    if todo.limit_of(rm) == todo_pre.limit_of(rm) {
                        if todo_pre.limit_of(rm) != todo0.limit_of(rm) {
                            let i = choose|i: int|
                                0 <= i < li && i < lists@.len() && in_list_window(
                                    #[trigger] lists@[i],
                                    active_views_of(lists@[i], joined@, invited@, knocked@, room_types@),
                                    rm,
                                ) && todo_pre.limit_of(rm) == list_cap(lists@[i]);
                            assert(0 <= i < li + 1 && i < lists@.len() && in_list_window(
                                lists@[i],
                                active_views_of(lists@[i], joined@, invited@, knocked@, room_types@),
                                rm,
                            ) && todo.limit_of(rm) == list_cap(lists@[i]));
                        }
                    } else {
                        assert(todo.limit_of(rm) == list_cap(lists@[li as int]));
                        assert(0 <= li < li + 1 && (li as int) < lists@.len() && in_list_window(
                            lists@[li as int],
                            active_views_of(lists@[li as int], joined@, invited@, knocked@, room_types@),
                            rm,
                        ) && todo.limit_of(rm) == list_cap(lists@[li as int]));
                    }
                } else {
                    assert(todo.entry(rm) == todo_pre.entry(rm));
                    if todo_pre.limit_of(rm) != todo0.limit_of(rm) {
                        let i = choose|i: int|
                            0 <= i < li && i < lists@.len() && in_list_window(
                                #[trigger] lists@[i],
                                active_views_of(lists@[i], joined@, invited@, knocked@, room_types@),
                                rm,
                            ) && todo_pre.limit_of(rm) == list_cap(lists@[i]);
                        assert(0 <= i < li + 1 && i < lists@.len() && in_list_window(
                            lists@[i],
                            active_views_of(lists@[i], joined@, invited@, knocked@, room_types@),
                            rm,
                        ) && todo.limit_of(rm) == list_cap(lists@[i]));
                    }
                }
            }
            if record && unique_list_names(lists@) {
                assert forall|i: int, rm: Seq<char>, m: u64|
                    0 <= i < li + 1 implies (#[trigger] has_mark(
                    cache.marks@,
                    key_view(*key),
                    lists@[i].name@,
                    rm,
                    m,
                ) <==> (in_list_window(
                    lists@[i],
                    active_views_of(lists@[i], joined@, invited@, knocked@, room_types@),
                    rm,
                ) && m == since)) by {
                    if i < li as int {
                        assert(lists@[i].name@ != lists@[li as int].name@);
                        assert(!is_list_name_before(lists@, lists@[i].name@, li as int) ==> false);
                        assert(has_mark(cache.marks@, key_view(*key), lists@[i].name@, rm, m)
                            == has_mark(marks_pre, key_view(*key), lists@[i].name@, rm, m));
                    } else {
                        assert(has_mark(cache.marks@, key_view(*key), lists@[li as int].name@, rm, m)
                            <==> (seq_has(covered@, rm) && m == since));
                        assert(seq_has(covered@, rm) <==> in_list_window(
                            lists@[li as int],
                            lviews,
                            rm,
                        ));
                    }
                }
            }
            if record {
                assert forall|kv: (Seq<char>, Seq<char>, Option<Seq<char>>), l2: Seq<char>,
                    ro: Seq<char>, m: u64|
                    !(kv == key_view(*key) && is_list_name_before(
                        lists@,
                        l2,
                        li as int + 1,
                    )) implies has_mark(cache.marks@, kv, l2, ro, m) == has_mark(
                    old(cache).marks@,
                    kv,
                    l2,
                    ro,
                    m,
                ) by {
                    assert(!(kv == key_view(*key) && is_list_name_before(lists@, l2, li as int)));
                    assert(!(kv == key_view(*key) && l2 == lists@[li as int].name@));
                    assert(has_mark(cache.marks@, kv, l2, ro, m) == has_mark(
                        marks_pre,
                        kv,
                        l2,
                        ro,
                        m,
                    ));
                }
            }
        }
        li = li + 1;
    }
    summaries
}

/// One subscription's admissibility: the room exists and is neither disabled
/// nor banned; anything else is silently dropped.
pub struct SubMeta {
    pub room: String,
    pub ok: bool,
}

/// The admissibility table clears this room.
pub open spec fn sub_admissible(meta: Seq<SubMeta>, rm: Seq<char>) -> bool {
    exists|i: int| 0 <= i < meta.len() && (#[trigger] meta[i].room)@ == rm && meta[i].ok
}

/// The room is named by some subscription and is admissible.
pub open spec fn subscribed(subs: Seq<RoomSubscription>, meta: Seq<SubMeta>, rm: Seq<char>) -> bool {
    (exists|k: int| 0 <= k < subs.len() && (#[trigger] subs[k].room)@ == rm) && sub_admissible(
        meta,
        rm,
    )
}

/// The room is named by a subscription among the first `j` and is admissible.
pub open spec fn subscribed_before(
    subs: Seq<RoomSubscription>,
    meta: Seq<SubMeta>,
    rm: Seq<char>,
    j: int,
) -> bool {
    (exists|k: int| 0 <= k < j && k < subs.len() && (#[trigger] subs[k].room)@ == rm)
        && sub_admissible(meta, rm)
}

/// Subscriptions name each room once: the request field encodes a map.
pub open spec fn unique_sub_rooms(subs: Seq<RoomSubscription>) -> bool {
    forall|i: int, j: int| 0 <= i < j < subs.len() ==> subs[i].room@ != subs[j].room@
}

/// The stored watermark for a row, with the "unknown, resend everything"
/// default of `0` when the table holds none.
pub open spec fn known_mark_is(
    marks: Seq<crate::conn::KnownMark>,
    kv: (Seq<char>, Seq<char>, Option<Seq<char>>),
    list: Seq<char>,
    rm: Seq<char>,
    mk: u64,
) -> bool {
    has_mark(marks, kv, list, rm, mk) || (mk == 0 && !has_row(marks, kv, list, rm))
}

fn sub_is_ok(meta: &Vec<SubMeta>, room: &String) -> (r: bool)
    ensures
        r == sub_admissible(meta@, room@),
{
    let mut i: usize = 0;
    while i < meta.len()
        invariant
            0 <= i <= meta@.len(),
            forall|j: int| 0 <= j < i ==> !((#[trigger] meta@[j].room)@ == room@ && meta@[j].ok),
        decreases meta@.len() - i,
    {
        if meta[i].room.eq(room) && meta[i].ok {
            return true;
        }
        i = i + 1;
    }
    false
}

/// Merge each admissible room subscription into the to-do table: state keys
/// unioned, largest limit, smallest watermark (the recorded one, `0` when
/// none); an inadmissible or unnamed room leaves the table untouched.  When
/// the request carries a connection id, the admissible set is recorded under
/// the reserved subscriptions name at the request's watermark.
pub fn fetch_subscriptions(
    subscriptions: &Vec<RoomSubscription>,
    meta: &Vec<SubMeta>,
    key: &ConnKey,
    since: u64,
    record: bool,
    todo: &mut TodoTable,
    cache: &mut ConnectionCache,
)
    requires
        old(todo).wf(),
        old(cache).wf(),
    ensures
        final(todo).wf(),
        final(cache).wf(),
        final(cache).sticky@ == old(cache).sticky@,
        forall|rm: Seq<char>|
            !subscribed(subscriptions@, meta@, rm) ==> final(todo).entry(rm) == old(todo).entry(rm),
        unique_sub_rooms(subscriptions@) ==> forall|k: int|
            0 <= k < subscriptions@.len() && sub_admissible(
                meta@,
                (#[trigger] subscriptions@[k]).room@,
            ) ==> sub_merged(*old(todo), *final(todo), old(cache).marks@, key_view(*key), subscriptions@[k]),
        record ==> forall|rm: Seq<char>, m: u64|
            has_mark(final(cache).marks@, key_view(*key), "subscriptions"@, rm, m) <==> (subscribed(
                subscriptions@,
                meta@,
                rm,
            ) && m == since),
        record ==> forall|kv: (Seq<char>, Seq<char>, Option<Seq<char>>), l: Seq<char>,
            ro: Seq<char>, m: u64|
            !(kv == key_view(*key) && l == "subscriptions"@) ==> has_mark(
                final(cache).marks@,
                kv,
                l,
                ro,
                m,
            ) == has_mark(old(cache).marks@, kv, l, ro, m),
        !record ==> final(cache).marks@ == old(cache).marks@,
{
    let subs_name = String::from_str("subscriptions");
    let ghost todo0 = *todo;
    let mut covered: Vec<String> = Vec::new();
    let mut k: usize = 0;
    while k < subscriptions.len()
        invariant
            todo0 == *old(todo),
            todo.wf(),
            cache.wf(),
            *cache == *old(cache),
            0 <= k <= subscriptions@.len(),
            subs_name@ == "subscriptions"@,
            forall|rm: Seq<char>|
                !subscribed_before(subscriptions@, meta@, rm, k as int) ==> todo.entry(rm)
                    == todo0.entry(rm),
            forall|rm: Seq<char>| #![trigger seq_has(covered@, rm)]
                seq_has(covered@, rm) <==> subscribed_before(subscriptions@, meta@, rm, k as int),
            unique_sub_rooms(subscriptions@) ==> forall|k2: int|
                0 <= k2 < k && sub_admissible(meta@, (#[trigger] subscriptions@[k2]).room@)
                    ==> sub_merged(
                    todo0,
                    *todo,
                    old(cache).marks@,
                    key_view(*key),
                    subscriptions@[k2],
                ),
        decreases subscriptions@.len() - k,
    {
        let ghost covered0 = covered@;
        let ghost todo_pre = *todo;
        let ghost mut markg: u64 = 0;
        let sub = &subscriptions[k];
        let admissible = sub_is_ok(meta, &sub.room);
        if admissible {
            let mark = cache.get_known_mark(key, &subs_name, &sub.room);
            proof {
                markg = mark;
                assert(known_mark_is(
                    old(cache).marks@,
                    key_view(*key),
                    "subscriptions"@,
                    sub.room@,
                    markg,
                ));
            }
            todo.merge(&sub.room, &sub.required_state, sub.timeline_limit, mark);
            if !crate::strutil::vec_has_string(&covered, &sub.room) {
                covered.push(sub.room.clone());
            }
        }
        proof {
            let rmj = subscriptions@[k as int].room@;
            assert forall|rm: Seq<char>| #![trigger seq_has(covered@, rm)]
                seq_has(covered@, rm) <==> subscribed_before(
                subscriptions@,
                meta@,
                rm,
                k as int + 1,
            ) by {
                if seq_has(covered@, rm) {
                    if seq_has(covered0, rm) {
                        assert(subscribed_before(subscriptions@, meta@, rm, k as int));
                        let kk = choose|kk: int|
                            0 <= kk < k && kk < subscriptions@.len() && subscriptions@[kk].room@
                                == rm;
                        assert(0 <= kk < k + 1 && kk < subscriptions@.len()
                            && subscriptions@[kk].room@ == rm);
                    } else {
                        let m2 = choose|m2: int| 0 <= m2 < covered@.len() && covered@[m2]@ == rm;
                        assert(m2 == covered@.len() - 1);
                        assert(rm == rmj && admissible);
                        assert(0 <= k < k + 1 && (k as int) < subscriptions@.len()
                            && subscriptions@[k as int].room@ == rm);
                    }
                }
                if subscribed_before(subscriptions@, meta@, rm, k as int + 1) {
                    let kk = choose|kk: int|
                        0 <= kk < k + 1 && kk < subscriptions@.len() && subscriptions@[kk].room@
                            == rm;
                    if kk < k as int {
                        assert(subscribed_before(subscriptions@, meta@, rm, k as int));
                        assert(seq_has(covered0, rm));
                        let m2 = choose|m2: int| 0 <= m2 < covered0.len() && covered0[m2]@ == rm;
                        assert(covered@[m2]@ == rm);
                    } else {
                        assert(rm == rmj && sub_admissible(meta@, rm));
                        if seq_has(covered0, rm) {
                            let m2 = choose|m2: int|
                                0 <= m2 < covered0.len() && covered0[m2]@ == rm;
                            assert(covered@[m2]@ == rm);
                        } else {
                            assert(covered@[covered@.len() - 1]@ == rm);
                        }
                        assert(seq_has(covered@, rm));
                    }
                }
            }
            assert forall|rm: Seq<char>|
                !subscribed_before(subscriptions@, meta@, rm, k as int + 1) implies todo.entry(rm)
                == todo0.entry(rm) by {
                assert(!subscribed_before(subscriptions@, meta@, rm, k as int));
                if admissible && rm == rmj {
                    assert(subscribed_before(subscriptions@, meta@, rm, k as int + 1));
                }
            }
            if unique_sub_rooms(subscriptions@) {
                assert forall|k2: int|
                    0 <= k2 < k + 1 && sub_admissible(
                        meta@,
                        (#[trigger] subscriptions@[k2]).room@,
                    ) implies sub_merged(
                    todo0,
                    *todo,
                    old(cache).marks@,
                    key_view(*key),
                    subscriptions@[k2],
                ) by {
                    let rm2 = subscriptions@[k2].room@;
                    if k2 < k as int {
                        assert(sub_merged(
                            todo0,
                            todo_pre,
                            old(cache).marks@,
                            key_view(*key),
                            subscriptions@[k2],
                        ));
                        if admissible {
                            assert(rm2 != rmj);
                            assert(todo.entry(rm2) == todo_pre.entry(rm2));
                        } else {
                            assert(todo.entry(rm2) == todo_pre.entry(rm2));
                        }
                        let mk = choose|mk: u64|
                            #[trigger] known_mark_is(
                                old(cache).marks@,
                                key_view(*key),
                                "subscriptions"@,
                                rm2,
                                mk,
                            ) && todo_pre.mark_of(rm2) == (if todo0.mark_of(rm2) <= mk {
                                todo0.mark_of(rm2)
                            } else {
                                mk
                            });
                        assert(known_mark_is(
                            old(cache).marks@,
                            key_view(*key),
                            "subscriptions"@,
                            rm2,
                            mk,
                        ) && todo.mark_of(rm2) == (if todo0.mark_of(rm2) <= mk {
                            todo0.mark_of(rm2)
                        } else {
                            mk
                        }));
                        assert forall|t: Seq<char>, kk: Seq<char>|
                            todo.has_pair(rm2, t, kk) <==> (todo0.has_pair(rm2, t, kk)
                                || crate::todo::pair_in(
                                subscriptions@[k2].required_state@,
                                t,
                                kk,
                            )) by {
                            assert(todo.has_pair(rm2, t, kk) == todo_pre.has_pair(rm2, t, kk));
                            assert(todo_pre.has_pair(rm2, t, kk) <==> (todo0.has_pair(rm2, t, kk)
                                || crate::todo::pair_in(
                                subscriptions@[k2].required_state@,
                                t,
                                kk,
                            )));
                        }
                    } else {
                        assert(admissible);
                        assert(!subscribed_before(subscriptions@, meta@, rm2, k as int));
                        assert(todo_pre.entry(rm2) == todo0.entry(rm2));
                        assert(todo_pre.limit_of(rm2) == todo0.limit_of(rm2));
                        assert(todo_pre.mark_of(rm2) == todo0.mark_of(rm2));
                        assert(known_mark_is(
                            old(cache).marks@,
                            key_view(*key),
                            "subscriptions"@,
                            rm2,
                            markg,
                        ) && todo.mark_of(rm2) == (if todo0.mark_of(rm2) <= markg {
                            todo0.mark_of(rm2)
                        } else {
                            markg
                        }));
                        assert forall|t: Seq<char>, kk: Seq<char>|
                            todo.has_pair(rm2, t, kk) <==> (todo0.has_pair(rm2, t, kk)
                                || crate::todo::pair_in(
                                subscriptions@[k2].required_state@,
                                t,
                                kk,
                            )) by {
                            assert(todo_pre.has_pair(rm2, t, kk) == todo0.has_pair(rm2, t, kk));
                            assert(subscriptions@[k2].room@ == sub.room@);
                            assert(todo.has_pair(sub.room@, t, kk) <==> (todo_pre.has_pair(
                                sub.room@,
                                t,
                                kk,
                            ) || crate::todo::pair_in(sub.required_state@, t, kk)));
                        }
                    }
                }
            }
        }
        k = k + 1;
    }
    if record {
        cache.update_known_rooms(key, &subs_name, &covered, since);
        proof {
            assert forall|rm: Seq<char>, m: u64|
                has_mark(cache.marks@, key_view(*key), "subscriptions"@, rm, m) <==> (subscribed(
                    subscriptions@,
                    meta@,
                    rm,
                ) && m == since) by {
                assert(seq_has(covered@, rm) <==> subscribed_before(
                    subscriptions@,
                    meta@,
                    rm,
                    subscriptions@.len() as int,
                ));
            }
        }
    }
}

/// One admissible subscription's effect on the to-do table: state keys
/// unioned, the largest limit, the smallest of the prior and the recorded
/// watermark (`0` standing in when none was recorded).
pub open spec fn sub_merged(
    before: TodoTable,
    after: TodoTable,
    marks: Seq<crate::conn::KnownMark>,
    kv: (Seq<char>, Seq<char>, Option<Seq<char>>),
    sub: RoomSubscription,
) -> bool {
    let rm = sub.room@;
    &&& after.entry(rm) is Some
    &&& after.limit_of(rm) == (if before.limit_of(rm) >= sub.timeline_limit {
        before.limit_of(rm)
    } else {
        sub.timeline_limit
    })
    &&& exists|mk: u64|
        #[trigger] known_mark_is(marks, kv, "subscriptions"@, rm, mk) && after.mark_of(rm) == (
        if before.mark_of(rm) <= mk {
            before.mark_of(rm)
        } else {
            mk
        })
    &&& forall|t: Seq<char>, k2: Seq<char>|
        after.has_pair(rm, t, k2) <==> (before.has_pair(rm, t, k2) || crate::todo::pair_in(
            sub.required_state@,
            t,
            k2,
        ))
}

/// The connection-id part of a key view.
pub open spec fn conn_view(c: Option<String>) -> Option<Seq<char>> {
    match c {
        Some(x) => Some(x@),
        None => None,
    }
}

fn clone_opt(c: &Option<String>) -> (r: Option<String>)
    ensures
        conn_view(r) == conn_view(*c),
{
    match c {
        Some(x) => Some(x.clone()),
        None => None,
    }
}

/// Everything the storage collaborators hand one request.
pub struct SyncStorage {
    pub joined: Vec<String>,
    pub invited: Vec<String>,
    pub knocked: Vec<String>,
    pub room_types: Vec<RoomTypeRow>,
    pub sub_meta: Vec<SubMeta>,
    pub room_inputs: Vec<RoomData>,
    pub ignored: Vec<String>,
    pub account_global: Vec<String>,
    pub account_rooms: Vec<(String, Vec<String>)>,
    pub e2ee_rooms: Vec<crate::e2ee::E2eeRoomInput>,
    pub keys_changed: Vec<String>,
    pub share_any: Vec<String>,
    pub one_time_key_counts: Vec<crate::e2ee::KeyAlgorithmCount>,
    /// wall-clock time of the request, for lazy typing expiry
    pub now: u64,
}

fn opt_enabled(o: &Option<bool>) -> (r: bool)
    ensures
        r == (o matches Some(true)),
{
    match o {
        Some(b) => *b,
        None => false,
    }
}

fn rooms_all_quiet(rooms: &Vec<RoomEntry>) -> (r: bool)
    ensures
        r == (forall|m: int|
            0 <= m < rooms@.len() ==> (#[trigger] rooms@[m].view).timeline@.len() == 0
                && rooms@[m].view.required_state@.len() == 0 && rooms@[m].view.receipts@.len() == 0
                && rooms@[m].view.private_read is None),
{
    let mut m: usize = 0;
    while m < rooms.len()
        invariant
            0 <= m <= rooms@.len(),
            forall|j: int|
                0 <= j < m ==> (#[trigger] rooms@[j].view).timeline@.len() == 0
                    && rooms@[j].view.required_state@.len() == 0 && rooms@[j].view.receipts@.len()
                    == 0 && rooms@[j].view.private_read is None,
        decreases rooms@.len() - m,
    {
        if rooms[m].view.timeline.len() > 0 || rooms[m].view.required_state.len() > 0
            || rooms[m].view.receipts.len() > 0 || rooms[m].view.private_read.is_some() {
            return false;
        }
        m = m + 1;
    }
    true
}

/// Pair every to-do room with its gathered inputs; a room the storage could
/// not describe is skipped like a missing timeline.
fn zip_room_work(todo: TodoTable, mut table: Vec<RoomData>) -> (work: Vec<RoomWork>)
    requires
        forall|k: int|
            0 <= k < table@.len() ==> (#[trigger] table@[k].inputs.highlight_count)
                <= MAX_WIRE_COUNT && table@[k].inputs.notification_count <= MAX_WIRE_COUNT,
    ensures
        forall|k: int|
            0 <= k < work@.len() ==> (#[trigger] work@[k].inputs.highlight_count)
                <= MAX_WIRE_COUNT && work@[k].inputs.notification_count <= MAX_WIRE_COUNT,
{
    let mut todo = todo;
    let mut work: Vec<RoomWork> = Vec::new();
    while todo.rooms.len() > 0
        invariant
            forall|k: int|
                0 <= k < table@.len() ==> (#[trigger] table@[k].inputs.highlight_count)
                    <= MAX_WIRE_COUNT && table@[k].inputs.notification_count <= MAX_WIRE_COUNT,
            forall|k: int|
                0 <= k < work@.len() ==> (#[trigger] work@[k].inputs.highlight_count)
                    <= MAX_WIRE_COUNT && work@[k].inputs.notification_count <= MAX_WIRE_COUNT,
        decreases todo.rooms@.len(),
    {
        let t = todo.rooms.remove(0);
        let mut found: Option<usize> = None;
        let mut i: usize = 0;
        while i < table.len()
            invariant
                0 <= i <= table@.len(),
                found matches Some(ix) ==> ix < table@.len(),
            decreases table@.len() - i,
        {
            if found.is_none() && table[i].room.eq(&t.room) {
                found = Some(i);
            }
            i = i + 1;
        }
        match found {
            Some(ix) => {
                let ghost tb0 = table@;
                let rd = table.remove(ix);
                proof {
                    assert(rd == tb0[ix as int]);
                    assert forall|k: int|
                        0 <= k < table@.len() implies (#[trigger] table@[k].inputs.highlight_count)
                        <= MAX_WIRE_COUNT && table@[k].inputs.notification_count
                        <= MAX_WIRE_COUNT by {
                        let k0 = if k < ix as int {
                            k
                        } else {
                            k + 1
                        };
                        assert(table@[k] == tb0[k0]);
                    }
                }
                let ghost wk0 = work@;
                work.push(RoomWork { room: t.room, mark: t.mark, inputs: rd.inputs });
                proof {
                    assert forall|k: int|
                        0 <= k < work@.len() implies (#[trigger] work@[k].inputs.highlight_count)
                        <= MAX_WIRE_COUNT && work@[k].inputs.notification_count
                        <= MAX_WIRE_COUNT by {
                        if k < wk0.len() {
                            assert(work@[k] == wk0[k]);
                        }
                    }
                }
            },
            None => {},
        }
    }
    work
}

/// One full request/response cycle.  The returned duration, when present,
/// is how long the shell must hold the request on the long-poll waiter
/// before replying with this same response.
#[verifier::rlimit(60)]
pub fn sync_events(
    sender_user: &String,
    sender_device: &String,
    req: SyncRequest,
    cache: &mut ConnectionCache,
    counter: &mut Counter,
    registry: &TypingRegistry,
    to_device_queue: &mut Vec<ToDeviceMsg>,
    storage: SyncStorage,
) -> (r: Result<(SyncResponse, Option<u64>), SyncError>)
    requires
        old(counter).last < u64::MAX,
        old(cache).wf(),
        registry.wf(),
        forall|k: int|
            0 <= k < storage.room_inputs@.len() ==> (
            #[trigger] storage.room_inputs@[k].inputs.highlight_count) <= MAX_WIRE_COUNT
                && storage.room_inputs@[k].inputs.notification_count <= MAX_WIRE_COUNT,
        forall|k: int|
            0 <= k < storage.e2ee_rooms@.len() ==> crate::e2ee::unique_pdu_ids(
                (#[trigger] storage.e2ee_rooms@[k]).pdus@,
            ),
    ensures
        final(counter).last == old(counter).last + 1,
        final(cache).wf(),
        (req.pos != 0 && !old(cache).cached(
            (sender_user@, sender_device@, conn_view(req.conn_id)),
        )) <==> r is Err,
        req.pos == 0 ==> r is Ok,
        r is Err ==> *final(cache) == *old(cache) && final(to_device_queue)@ == old(
            to_device_queue,
        )@,
        r is Ok ==> final(cache).cached((sender_user@, sender_device@, conn_view(req.conn_id))),
        r matches Ok(p) ==> p.0.pos@ == dec_of(final(counter).last as nat) && (p.1 is Some
            <==> response_is_empty(p.0)) && (req.txn_id matches Some(t) ==> p.0.txn_id matches Some(
            t2,
        ) && t2@ == t@) && (req.txn_id is None ==> p.0.txn_id is None),
        r matches Ok(p) ==> (p.1 matches Some(d) ==> d <= LONG_POLL_CAP_MS),
        r matches Ok(p) ==> (p.1 matches Some(d) ==> (req.timeout matches Some(t) ==> d == (if t
            <= LONG_POLL_CAP_MS {
            t
        } else {
            LONG_POLL_CAP_MS
        }))),
        r matches Ok(p) ==> (p.1 matches Some(d) ==> (!old(cache).cached(
            (sender_user@, sender_device@, conn_view(req.conn_id)),
        ) ==> d == (match req.timeout {
            Some(t) => if t <= LONG_POLL_CAP_MS {
                t
            } else {
                LONG_POLL_CAP_MS
            },
            None => LONG_POLL_CAP_MS,
        }))),
        r matches Ok(p) ==> p.0.extensions.receipts@.len() == 0,
        req.extensions.e2ee_enabled matches Some(false) ==> (r matches Ok(p)
            ==> p.0.extensions.e2ee.changed@.len() == 0 && p.0.extensions.e2ee.left@.len() == 0
            && p.0.extensions.e2ee.one_time_key_counts@.len() == 0),
        req.extensions.account_data_enabled matches Some(false) ==> (r matches Ok(p)
            ==> p.0.extensions.account_data.global@.len() == 0
            && p.0.extensions.account_data.rooms@.len() == 0),
        req.extensions.to_device_enabled matches Some(false) ==> (r matches Ok(p)
            ==> p.0.extensions.to_device is None && final(to_device_queue)@ == old(
            to_device_queue,
        )@),
        req.extensions.typing_enabled matches Some(false) ==> (r matches Ok(p)
            ==> p.0.extensions.typing@.len() == 0),
        !old(cache).cached((sender_user@, sender_device@, conn_view(req.conn_id))) ==> (r matches Ok(
            p,
        ) ==> lists_counted(
            p.0.lists@,
            req.lists@,
            storage.joined@,
            storage.invited@,
            storage.knocked@,
            storage.room_types@,
        )),
{
    let ghost req0 = req;
    let next_batch = counter.next_count();
    let key = ConnKey {
        user: sender_user.clone(),
        device: sender_device.clone(),
        conn_id: clone_opt(&req.conn_id),
    };
    proof {
        assert(key_view(key) == (sender_user@, sender_device@, conn_view(req.conn_id)));
    }
    if req.pos != 0 && !cache.exists_conn(&key) {
        return Err(SyncError::UnknownPos);
    }
    if req.pos == 0 {
        cache.forget(&key);
    }
    let cached = cache.take_sticky(&key);
    let req = merge_requests(cached, req);
    let since = req.pos;
    let SyncStorage {
        joined,
        invited,
        knocked,
        room_types,
        sub_meta,
        room_inputs,
        ignored,
        account_global,
        account_rooms,
        e2ee_rooms,
        keys_changed,
        share_any,
        one_time_key_counts,
        now,
    } = storage;
    let record = req.conn_id.is_some();
    let mut todo = TodoTable::new();
    let summaries = handle_lists(
        &req.lists,
        &key,
        since,
        record,
        &joined,
        &invited,
        &knocked,
        &room_types,
        &mut todo,
        cache,
    );
    fetch_subscriptions(&req.subscriptions, &sub_meta, &key, since, record, &mut todo, cache);
    let enabled_account = opt_enabled(&req.extensions.account_data_enabled);
    let account_data = collect_account_data(enabled_account, account_global, account_rooms);
    let e2ee = crate::e2ee::collect_e2ee(
        opt_enabled(&req.extensions.e2ee_enabled),
        sender_user,
        &keys_changed,
        &e2ee_rooms,
        &share_any,
        one_time_key_counts,
    );
    let to_device = collect_to_device(
        opt_enabled(&req.extensions.to_device_enabled),
        to_device_queue,
        since,
        next_batch,
    );
    let rooms_scope_len = match &req.extensions.typing_rooms {
        Some(v) => v.len(),
        None => req.subscriptions.len(),
    };
    let lists_scope_len = match &req.extensions.typing_lists {
        Some(v) => v.len(),
        None => req.lists.len(),
    };
    let mut all_rooms = clone_strings(&joined);
    let mut more = clone_strings(&invited);
    let mut more2 = clone_strings(&knocked);
    all_rooms.append(&mut more);
    all_rooms.append(&mut more2);
    let typing = collect_typing_events(
        opt_enabled(&req.extensions.typing_enabled),
        rooms_scope_len > 0 || lists_scope_len > 0,
        registry,
        &all_rooms,
        now,
        &ignored,
    );
    let work = zip_room_work(todo, room_inputs);
    let mut account_data = account_data;
    if enabled_account {
        let mut wi: usize = 0;
        while wi < work.len()
            invariant
                0 <= wi <= work@.len(),
            decreases work@.len() - wi,
        {
            account_data.rooms.push((work[wi].room.clone(), clone_strings(&work[wi].inputs.account_data)));
            wi = wi + 1;
        }
    }
    let rooms_out = process_rooms(work, sender_user, &ignored);
    let quiet = rooms_all_quiet(&rooms_out) && (match &to_device {
        Some(td) => td.events.len() == 0,
        None => true,
    });
    let wait = if quiet {
        Some(long_poll_duration(req.timeout))
    } else {
        None
    };
    proof {
        if !old(cache).cached((sender_user@, sender_device@, conn_view(req0.conn_id))) {
            assert(cached is None);
            assert(req == req0);
            assert(summaries@.len() == req0.lists@.len());
            assert forall|i: int|
                0 <= i < req0.lists@.len() implies (#[trigger] summaries@[i].name)@
                == req0.lists@[i].name@ && summaries@[i].count == active_views_of(
                req0.lists@[i],
                joined@,
                invited@,
                knocked@,
                room_types@,
            ).len() by {
                assert((summaries@[i].name)@ == req.lists@[i].name@);
                assert(summaries@[i].count == active_views_of(
                    req.lists@[i],
                    joined@,
                    invited@,
                    knocked@,
                    room_types@,
                ).len());
            }
            assert(lists_counted(summaries@, req0.lists@, joined@, invited@, knocked@, room_types@));
        }
    }
    let response = SyncResponse {
        txn_id: clone_opt(&req.txn_id),
        pos: u64_to_dec(next_batch),
        lists: summaries,
        rooms: rooms_out,
        extensions: ExtensionsOut {
            account_data,
            e2ee,
            to_device,
            receipts: collect_receipts(),
            typing,
        },
    };
    cache.put_sticky(key, req);
    proof {
        assert(response_is_empty(response) == quiet);
    }
    Ok((response, wait))
}

/// Monotonic cursor: the position returned by a later request on the same
/// connection is strictly above any earlier one, because every response's
/// position is a fresh counter token and the counter only grows.
pub proof fn lemma_monotonic_cursor(
    before1: Counter,
    after1: Counter,
    pos1: u64,
    before2: Counter,
    after2: Counter,
    pos2: u64,
)
    requires
        pos1 == after1.last,
        after1.last == before1.last + 1,
        before2.last >= after1.last,
        pos2 == after2.last,
        after2.last == before2.last + 1,
    ensures
        pos2 > pos1,
{
}

} // verus!
