//! The per-room data aggregator: from one to-do entry and the storage-derived
//! inputs for that room, build the room's part of the response, or say why
//! the room is skipped.  Rooms are processed independently; a skip never
//! aborts the rest of the response.

use vstd::prelude::*;

use crate::strutil::{dec_of, seq_has, u64_to_dec};

verus! {

/// The largest count the wire representation can carry.
pub const MAX_WIRE_COUNT: u64 = 9007199254740991;

/// One timeline event, as the delta fetch returns it.
pub struct TimelineEvent {
    /// position of the event in the global order
    pub count: u64,
    /// internal marker: the event came from backfill, not normal progression
    pub backfilled: bool,
    /// event type
    pub kind: String,
    /// sender user id
    pub sender: String,
    /// origin server timestamp
    pub origin_server_ts: u64,
    /// the formatted payload, carried through opaquely
    pub payload: String,
}

/// The timeline delta for a room, when the fetch succeeded.
pub struct TimelineFetch {
    pub events: Vec<TimelineEvent>,
    pub limited: bool,
}

/// One read receipt as stored, before the requester's ignore list is applied.
pub struct ReceiptEvent {
    pub sender: String,
    pub payload: String,
}

/// A private read marker: carried when its update stamp is fresh enough.
pub struct PrivateRead {
    pub update_count: u64,
    pub payload: String,
}

/// One room member with the result of the profile lookup; a failed lookup
/// drops the member from hero selection silently.
pub struct MemberInfo {
    pub user_id: String,
    pub profile: Option<MemberProfile>,
}

pub struct MemberProfile {
    pub displayname: Option<String>,
    pub avatar_url: Option<String>,
}

/// A display fallback derived from one member.
pub struct Hero {
    pub user_id: String,
    pub name: Option<String>,
    pub avatar: Option<String>,
}

/// An avatar lookup result: set to a URL, explicitly removed, or never set.
pub enum AvatarLookup {
    Url(String),
    Removed,
    Unset,
}

/// Everything the aggregator needs for one room, gathered by the shell.
pub struct RoomInputs {
    /// the room is a pending invite for the requester
    pub is_invite: bool,
    /// invite-state events for an invite room, when available
    pub invite_state: Option<Vec<String>>,
    /// the timeline delta; `None` means the load failed and the room is skipped
    pub timeline: Option<TimelineFetch>,
    /// whether the account-data extension was enabled for this request
    pub account_data_enabled: bool,
    /// room-scoped account-data changes since the watermark
    pub account_data: Vec<String>,
    /// read receipts since the watermark, unfiltered
    pub receipts: Vec<ReceiptEvent>,
    /// the requester's private read marker and its update stamp
    pub private_read: Option<PrivateRead>,
    /// the room's explicit name, if set
    pub name: Option<String>,
    /// the room's members, in membership-table order
    pub members: Vec<MemberInfo>,
    /// resolved required-state events, one slot per requested pair
    pub state_results: Vec<Option<String>>,
    pub highlight_count: u64,
    pub notification_count: u64,
    pub joined_count: u64,
    pub invited_count: u64,
    pub avatar: AvatarLookup,
}

/// The room's part of the response.
pub struct RoomView {
    pub name: Option<String>,
    pub avatar: AvatarLookup,
    pub initial: bool,
    pub invite_state: Option<Vec<String>>,
    pub highlight_count: u64,
    pub notification_count: u64,
    pub timeline: Vec<TimelineEvent>,
    pub required_state: Vec<String>,
    pub prev_batch: Option<String>,
    pub limited: bool,
    pub joined_count: u64,
    pub invited_count: u64,
    pub bump_stamp: Option<u64>,
    pub heroes: Vec<Hero>,
    /// read receipts since the watermark, minus ignored senders
    pub receipts: Vec<ReceiptEvent>,
    /// the requester's own private read marker, when fresh enough
    pub private_read: Option<String>,
}

/// Why a room is left out of the response.
pub enum SkipReason {
    /// the timeline delta could not be loaded; logged, not fatal
    MissingTimeline,
    /// watermark nonzero, no timeline, no account data, no receipts:
    /// the room is unchanged and must be omitted to keep responses minimal
    Unchanged,
}

pub enum RoomOutcome {
    Skip(SkipReason),
    View(RoomView),
}

/// The event types that may reorder a room in client interfaces,
/// lexicographically sorted.
pub open spec fn is_bump_kind(kind: Seq<char>) -> bool {
    ||| kind == "m.beacon"@
    ||| kind == "m.call.invite"@
    ||| kind == "m.poll.start"@
    ||| kind == "m.room.encrypted"@
    ||| kind == "m.room.message"@
    ||| kind == "m.sticker"@
}

fn is_bump_type(kind: &String) -> (r: bool)
    ensures
        r == is_bump_kind(kind@),
{
    kind.eq(&String::from_str("m.beacon")) || kind.eq(&String::from_str("m.call.invite"))
        || kind.eq(&String::from_str("m.poll.start")) || kind.eq(&String::from_str(
        "m.room.encrypted",
    )) || kind.eq(&String::from_str("m.room.message")) || kind.eq(&String::from_str("m.sticker"))
}

/// The latest origin timestamp among bump-type events, if any.
pub open spec fn bump_stamp_of(events: Seq<TimelineEvent>) -> Option<u64>
    decreases events.len(),
{
    if events.len() == 0 {
        None
    } else {
        let rest = bump_stamp_of(events.drop_last());
        if is_bump_kind(events.last().kind@) {
            match rest {
                None => Some(events.last().origin_server_ts),
                Some(m) => if m <= events.last().origin_server_ts {
                    Some(events.last().origin_server_ts)
                } else {
                    Some(m)
                },
            }
        } else {
            rest
        }
    }
}

/// Compute the bump stamp exactly as specified.
pub fn bump_stamp(events: &Vec<TimelineEvent>) -> (r: Option<u64>)
    ensures
        r == bump_stamp_of(events@),
{
    let mut r: Option<u64> = None;
    let mut j: usize = 0;
    while j < events.len()
        invariant
            0 <= j <= events@.len(),
            r == bump_stamp_of(events@.take(j as int)),
        decreases events@.len() - j,
    {
        proof {
            assert(events@.take(j as int + 1).drop_last() =~= events@.take(j as int));
            assert(events@.take(j as int + 1).last() == events@[j as int]);
        }
        let e = &events[j];
        if is_bump_type(&e.kind) {
            r = match r {
                None => Some(e.origin_server_ts),
                Some(m) => if m <= e.origin_server_ts {
                    Some(e.origin_server_ts)
                } else {
                    Some(m)
                },
            };
        }
        j = j + 1;
    }
    proof {
        assert(events@.take(events@.len() as int) =~= events@);
    }
    r
}

/// The cursor string sent as `prev_batch`: the position just before the
/// earliest returned event (a backfilled marker is coerced to the origin),
/// or the room's watermark when nothing was returned but the watermark is
/// nonzero, or absent on true initial sync.
pub open spec fn prev_batch_of(events: Seq<TimelineEvent>, since: u64) -> Option<Seq<char>> {
    if events.len() > 0 {
        if events[0].backfilled {
            Some(dec_of(0))
        } else {
            Some(dec_of(events[0].count as nat))
        }
    } else if since != 0 {
        Some(dec_of(since as nat))
    } else {
        None
    }
}

pub fn prev_batch(events: &Vec<TimelineEvent>, since: u64) -> (r: Option<String>)
    ensures
        (r matches Some(s) && prev_batch_of(events@, since) matches Some(v) && s@ == v) || (r
            is None && prev_batch_of(events@, since) is None),
{
    if events.len() > 0 {
        if events[0].backfilled {
            Some(u64_to_dec(0))
        } else {
            Some(u64_to_dec(events[0].count))
        }
    } else if since != 0 {
        Some(u64_to_dec(since))
    } else {
        None
    }
}

/// The timeline events a requester sees: events from ignored senders drop.
pub open spec fn visible_events(events: Seq<TimelineEvent>, ignored: Seq<String>) -> Seq<
    TimelineEvent,
> {
    events.filter(|e: TimelineEvent| !seq_has(ignored, e.sender@))
}

pub fn filter_ignored_events(events: Vec<TimelineEvent>, ignored: &Vec<String>) -> (r: Vec<
    TimelineEvent,
>)
    ensures
        r@ == visible_events(events@, ignored@),
{
    let ghost e0 = events@;
    let mut events = events;
    let mut r: Vec<TimelineEvent> = Vec::new();
    let n = events.len();
    let mut j: usize = 0;
    while j < n
        invariant
            n == e0.len(),
            0 <= j <= e0.len(),
            events@ == e0.skip(j as int),
            r@ == visible_events(e0.take(j as int), ignored@),
        decreases e0.len() - j,
    {
        proof {
            broadcast use Seq::lemma_filter_push;

            assert(e0.skip(j as int)[0] == e0[j as int]);
            assert(e0.skip(j as int).remove(0) =~= e0.skip(j as int + 1));
            let prefix = e0.take(j as int);
            let pushed = prefix.push(e0[j as int]);
            assert(e0.take(j as int + 1) =~= pushed);
            if !seq_has(ignored@, e0[j as int].sender@) {
                assert(visible_events(pushed, ignored@) == visible_events(prefix, ignored@).push(
                    e0[j as int],
                ));
            } else {
                assert(visible_events(pushed, ignored@) == visible_events(prefix, ignored@));
            }
            assert(visible_events(e0.take(j as int + 1), ignored@) == visible_events(
                pushed,
                ignored@,
            ));
        }
        let e = events.remove(0);
        if !crate::strutil::vec_has_string(ignored, &e.sender) {
            r.push(e);
        }
        j = j + 1;
    }
    proof {
        assert(e0.take(e0.len() as int) =~= e0);
    }
    r
}

/// The receipts a requester sees: receipts from ignored senders drop.
pub open spec fn visible_receipts(receipts: Seq<ReceiptEvent>, ignored: Seq<String>) -> Seq<
    ReceiptEvent,
> {
    receipts.filter(|e: ReceiptEvent| !seq_has(ignored, e.sender@))
}

pub fn filter_ignored_receipts(receipts: Vec<ReceiptEvent>, ignored: &Vec<String>) -> (r: Vec<
    ReceiptEvent,
>)
    ensures
        r@ == visible_receipts(receipts@, ignored@),
{
    let ghost e0 = receipts@;
    let mut receipts = receipts;
    let mut r: Vec<ReceiptEvent> = Vec::new();
    let n = receipts.len();
    let mut j: usize = 0;
    while j < n
        invariant
            n == e0.len(),
            0 <= j <= e0.len(),
            receipts@ == e0.skip(j as int),
            r@ == visible_receipts(e0.take(j as int), ignored@),
        decreases e0.len() - j,
    {
        proof {
            broadcast use Seq::lemma_filter_push;

            assert(e0.skip(j as int)[0] == e0[j as int]);
            assert(e0.skip(j as int).remove(0) =~= e0.skip(j as int + 1));
            let prefix = e0.take(j as int);
            let pushed = prefix.push(e0[j as int]);
            assert(e0.take(j as int + 1) =~= pushed);
            if !seq_has(ignored@, e0[j as int].sender@) {
                assert(visible_receipts(pushed, ignored@) == visible_receipts(
                    prefix,
                    ignored@,
                ).push(e0[j as int]));
            } else {
                assert(visible_receipts(pushed, ignored@) == visible_receipts(prefix, ignored@));
            }
            assert(visible_receipts(e0.take(j as int + 1), ignored@) == visible_receipts(
                pushed,
                ignored@,
            ));
        }
        let e = receipts.remove(0);
        if !crate::strutil::vec_has_string(ignored, &e.sender) {
            r.push(e);
        }
        j = j + 1;
    }
    proof {
        assert(e0.take(e0.len() as int) =~= e0);
    }
    r
}

/// The hero derived from one member whose profile lookup succeeded.
pub open spec fn hero_of(m: MemberInfo) -> Hero {
    Hero {
        user_id: m.user_id,
        name: match m.profile {
            Some(p) => p.displayname,
            None => None,
        },
        avatar: match m.profile {
            Some(p) => p.avatar_url,
            None => None,
        },
    }
}

/// Members eligible as heroes: everyone but the requester whose profile
/// lookup succeeded, in membership-table order.
pub open spec fn all_heroes_of(members: Seq<MemberInfo>, sender: Seq<char>) -> Seq<Hero> {
    members.filter(|m: MemberInfo| m.user_id@ != sender && m.profile is Some).map_values(
        |m: MemberInfo| hero_of(m),
    )
}

/// At most five heroes are ever emitted.
pub open spec fn heroes_of(members: Seq<MemberInfo>, sender: Seq<char>) -> Seq<Hero> {
    let a = all_heroes_of(members, sender);
    if a.len() <= 5 {
        a
    } else {
        a.take(5)
    }
}

/// Collect the room's heroes: eligible members in order, capped at five.
pub fn collect_heroes(members: Vec<MemberInfo>, sender: &String) -> (r: Vec<Hero>)
    ensures
        r@ == heroes_of(members@, sender@),
{
    let ghost m0 = members@;
    let mut members = members;
    let mut r: Vec<Hero> = Vec::new();
    let n = members.len();
    let mut j: usize = 0;
    while j < n
        invariant
            n == m0.len(),
            0 <= j <= m0.len(),
            members@ == m0.skip(j as int),
            r@ == heroes_of(m0.take(j as int), sender@),
            r@.len() <= 5,
        decreases m0.len() - j,
    {
        proof {
            broadcast use Seq::lemma_filter_push;

            assert(m0.skip(j as int)[0] == m0[j as int]);
            assert(m0.skip(j as int).remove(0) =~= m0.skip(j as int + 1));
            let prefix = m0.take(j as int);
            let pushed = prefix.push(m0[j as int]);
            assert(m0.take(j as int + 1) =~= pushed);
            if m0[j as int].user_id@ != sender@ && m0[j as int].profile is Some {
                assert(all_heroes_of(pushed, sender@) =~= all_heroes_of(prefix, sender@).push(
                    hero_of(m0[j as int]),
                ));
                if all_heroes_of(prefix, sender@).len() >= 5 {
                    assert(all_heroes_of(pushed, sender@).take(5) =~= all_heroes_of(
                        prefix,
                        sender@,
                    ).take(5));
                }
            } else {
                assert(all_heroes_of(pushed, sender@) =~= all_heroes_of(prefix, sender@));
            }
            assert(all_heroes_of(m0.take(j as int + 1), sender@) == all_heroes_of(pushed, sender@));
        }
        let m = members.remove(0);
        let eligible = !m.user_id.eq(sender) && m.profile.is_some();
        if eligible && r.len() < 5 {
            let ghost mg = m;
            let (name, avatar) = match m.profile {
                Some(p) => (p.displayname, p.avatar_url),
                None => (None, None),
            };
            let h = Hero { user_id: m.user_id, name, avatar };
            proof {
                assert(h == hero_of(mg));
            }
            r.push(h);
        }
        j = j + 1;
    }
    proof {
        assert(m0.take(m0.len() as int) =~= m0);
    }
    r
}

/// A hero's display text: the display name, or the user id as fallback.
pub open spec fn hero_display(h: Hero) -> Seq<char> {
    match h.name {
        Some(n) => n@,
        None => h.user_id@,
    }
}

/// The display texts of heroes `1..m`, joined with ", ".
pub open spec fn join_upto(h: Seq<Hero>, m: int) -> Seq<char>
    recommends
        2 <= m <= h.len(),
    decreases m,
{
    if m <= 2 {
        hero_display(h[1])
    } else {
        join_upto(h, m - 1) + ", "@ + hero_display(h[m - 1])
    }
}

/// The fallback room name derived from the heroes: none without heroes, the
/// single hero's display text, or, for two or more, all but the first joined
/// with ", ", then " and ", then the first — the first collected hero is
/// rendered last, a deterministic tie-break of this protocol revision.
pub open spec fn hero_name_of(h: Seq<Hero>) -> Option<Seq<char>> {
    if h.len() == 0 {
        None
    } else if h.len() == 1 {
        Some(hero_display(h[0]))
    } else {
        Some(join_upto(h, h.len() as int) + " and "@ + hero_display(h[0]))
    }
}

fn hero_display_name(h: &Hero) -> (r: String)
    ensures
        r@ == hero_display(*h),
{
    match &h.name {
        Some(n) => n.clone(),
        None => h.user_id.clone(),
    }
}

/// Render the fallback room name exactly as [`hero_name_of`] states it.
pub fn hero_fallback_name(heroes: &Vec<Hero>) -> (r: Option<String>)
    ensures
        (r matches Some(s) && hero_name_of(heroes@) matches Some(v) && s@ == v) || (r is None
            && hero_name_of(heroes@) is None),
{
    if heroes.len() == 0 {
        return None;
    }
    if heroes.len() == 1 {
        return Some(hero_display_name(&heroes[0]));
    }
    let mut s = hero_display_name(&heroes[1]);
    let mut m: usize = 2;
    while m < heroes.len()
        invariant
            2 <= m <= heroes@.len(),
            heroes@.len() >= 2,
            s@ == join_upto(heroes@, m as int),
        decreases heroes@.len() - m,
    {
        s.append(", ");
        let name = hero_display_name(&heroes[m]);
        s.append(name.as_str());
        proof {
            assert(s@ =~= join_upto(heroes@, m as int + 1));
        }
        m = m + 1;
    }
    s.append(" and ");
    let first = hero_display_name(&heroes[0]);
    s.append(first.as_str());
    proof {
        assert(s@ =~= join_upto(heroes@, heroes@.len() as int) + " and "@ + hero_display(
            heroes@[0],
        ));
    }
    Some(s)
}

/// The required-state events that resolved, in request order; lookup misses
/// are omitted silently.
pub open spec fn found_state_of(rs: Seq<Option<String>>) -> Seq<String>
    decreases rs.len(),
{
    if rs.len() == 0 {
        Seq::empty()
    } else {
        let rest = found_state_of(rs.drop_last());
        match rs.last() {
            Some(s) => rest.push(s),
            None => rest,
        }
    }
}

pub fn found_state(rs: Vec<Option<String>>) -> (r: Vec<String>)
    ensures
        r@ == found_state_of(rs@),
{
    let ghost r0 = rs@;
    let mut rs = rs;
    let mut out: Vec<String> = Vec::new();
    let n = rs.len();
    let mut j: usize = 0;
    while j < n
        invariant
            n == r0.len(),
            0 <= j <= r0.len(),
            rs@ == r0.skip(j as int),
            out@ == found_state_of(r0.take(j as int)),
        decreases r0.len() - j,
    {
        proof {
            assert(r0.skip(j as int)[0] == r0[j as int]);
            assert(r0.skip(j as int).remove(0) =~= r0.skip(j as int + 1));
            assert(r0.take(j as int + 1).drop_last() =~= r0.take(j as int));
            assert(r0.take(j as int + 1).last() == r0[j as int]);
        }
        let e = rs.remove(0);
        match e {
            Some(s) => out.push(s),
            None => (),
        }
        j = j + 1;
    }
    proof {
        assert(r0.take(r0.len() as int) =~= r0);
    }
    out
}

/// The timeline delta the room contributes: empty for an invite room, the
/// fetched events otherwise.
pub open spec fn effective_events(inputs: RoomInputs) -> Seq<TimelineEvent> {
    if inputs.is_invite {
        Seq::empty()
    } else {
        match inputs.timeline {
            Some(tf) => tf.events@,
            None => Seq::empty(),
        }
    }
}

/// Whether the private read marker is fresh enough to surface.
pub open spec fn private_read_included(inputs: RoomInputs, since: u64) -> bool {
    match inputs.private_read {
        Some(pr) => pr.update_count > since,
        None => false,
    }
}

/// The avatar fallback: only a lone hero's avatar is ever borrowed.
pub open spec fn hero_avatar_of(heroes: Seq<Hero>) -> Option<String> {
    if heroes.len() == 1 {
        heroes[0].avatar
    } else {
        None
    }
}

/// The room is unchanged: nonzero watermark, empty timeline delta, no
/// account-data delta, and no receipts.  Such a room must be omitted.
pub open spec fn room_unchanged(inputs: RoomInputs, ignored: Seq<String>, since: u64) -> bool {
    &&& since != 0
    &&& effective_events(inputs).len() == 0
    &&& (!inputs.account_data_enabled || inputs.account_data@.len() == 0)
    &&& visible_receipts(inputs.receipts@, ignored).len() == 0
    &&& !private_read_included(inputs, since)
}

/// Everything a room's emitted view promises, given its watermark and the
/// gathered inputs.
pub open spec fn view_ok(
    since: u64,
    sender: Seq<char>,
    ignored: Seq<String>,
    inputs: RoomInputs,
    v: RoomView,
) -> bool {

            &&& v.initial == (since == 0)
            &&& (inputs.is_invite ==> v.limited)
            &&& (!inputs.is_invite ==> (inputs.timeline matches Some(tf) && v.limited
                == tf.limited))
            &&& (inputs.is_invite ==> v.invite_state == inputs.invite_state)
            &&& (!inputs.is_invite ==> v.invite_state is None)
            &&& v.timeline@ == visible_events(effective_events(inputs), ignored)
            &&& ((v.prev_batch matches Some(s) && prev_batch_of(effective_events(inputs), since)
                matches Some(w) && s@ == w) || (v.prev_batch is None && prev_batch_of(
                effective_events(inputs),
                since,
            ) is None))
            &&& v.bump_stamp == bump_stamp_of(effective_events(inputs))
            &&& v.required_state@ == found_state_of(inputs.state_results@)
            &&& v.highlight_count == inputs.highlight_count
            &&& v.notification_count == inputs.notification_count
            &&& v.joined_count == (if inputs.joined_count <= MAX_WIRE_COUNT {
                inputs.joined_count
            } else {
                0
            })
            &&& v.invited_count == (if inputs.invited_count <= MAX_WIRE_COUNT {
                inputs.invited_count
            } else {
                0
            })
            &&& (inputs.name is Some ==> v.heroes@.len() == 0 && v.name == inputs.name && v.avatar
                == inputs.avatar)
            &&& (inputs.name is None ==> v.heroes@ == heroes_of(inputs.members@, sender))
            &&& (inputs.name is None ==> ((v.name matches Some(s) && hero_name_of(
                heroes_of(inputs.members@, sender),
            ) matches Some(w) && s@ == w) || (v.name is None && hero_name_of(
                heroes_of(inputs.members@, sender),
            ) is None)))
            &&& (inputs.name is None ==> ((hero_avatar_of(heroes_of(inputs.members@, sender))
                matches Some(u) && v.avatar matches AvatarLookup::Url(w) && w@ == u@) || (
            hero_avatar_of(heroes_of(inputs.members@, sender)) is None && v.avatar is Unset)))
        
    &&& v.receipts@ == visible_receipts(inputs.receipts@, ignored)
    &&& ((inputs.private_read matches Some(pr) && private_read_included(inputs, since)
        && v.private_read == Some(pr.payload)) || (!private_read_included(inputs, since)
        && v.private_read is None))
}

/// Build one room's view, or say why the room is omitted.
pub fn build_room_view(since: u64, sender: &String, ignored: &Vec<String>, inputs: RoomInputs) -> (r:
    RoomOutcome)
    requires
        inputs.highlight_count <= MAX_WIRE_COUNT,
        inputs.notification_count <= MAX_WIRE_COUNT,
    ensures
        (r == RoomOutcome::Skip(SkipReason::MissingTimeline)) <==> (!inputs.is_invite
            && inputs.timeline is None),
        (inputs.is_invite || inputs.timeline is Some) ==> ((r == RoomOutcome::Skip(
            SkipReason::Unchanged,
        )) <==> room_unchanged(inputs, ignored@, since)),
        r matches RoomOutcome::View(v) ==> view_ok(since, sender@, ignored@, inputs, v),
{
    let ghost inputs0 = inputs;
    let RoomInputs {
        is_invite,
        invite_state,
        timeline,
        account_data_enabled,
        account_data,
        receipts,
        private_read,
        name,
        members,
        state_results,
        highlight_count,
        notification_count,
        joined_count,
        invited_count,
        avatar,
    } = inputs;
    let (events, limited, invite_state_out): (Vec<TimelineEvent>, bool, Option<Vec<String>>) =
        if is_invite {
        (Vec::new(), true, invite_state)
    } else {
        match timeline {
            None => {
                return RoomOutcome::Skip(SkipReason::MissingTimeline);
            },
            Some(tf) => (tf.events, tf.limited, None),
        }
    };
    proof {
        assert(events@ == effective_events(inputs0));
    }
    let kept_receipts = filter_ignored_receipts(receipts, ignored);
    let private_payload: Option<String> = match private_read {
        Some(pr) => if pr.update_count > since {
            Some(pr.payload)
        } else {
            None
        },
        None => None,
    };
    let private_included = private_payload.is_some();
    let no_receipts = kept_receipts.len() == 0 && !private_included;
    if since != 0 && events.len() == 0 && (!account_data_enabled || account_data.len() == 0)
        && no_receipts {
        return RoomOutcome::Skip(SkipReason::Unchanged);
    }
    let prev = prev_batch(&events, since);
    let bump = bump_stamp(&events);
    let visible = filter_ignored_events(events, ignored);
    let required_state = found_state(state_results);
    let heroes = if name.is_some() {
        Vec::new()
    } else {
        collect_heroes(members, sender)
    };
    let hero_name = hero_fallback_name(&heroes);
    let heroes_avatar: Option<String> = if heroes.len() == 1 {
        match &heroes[0].avatar {
            Some(u) => Some(u.clone()),
            None => None,
        }
    } else {
        None
    };
    let name_is_some = name.is_some();
    let out_name = match name {
        Some(n) => Some(n),
        None => hero_name,
    };
    let out_avatar = if name_is_some {
        avatar
    } else {
        match heroes_avatar {
            Some(u) => AvatarLookup::Url(u),
            None => AvatarLookup::Unset,
        }
    };
    RoomOutcome::View(
        RoomView {
            name: out_name,
            avatar: out_avatar,
            initial: since == 0,
            invite_state: invite_state_out,
            highlight_count,
            notification_count,
            timeline: visible,
            required_state,
            prev_batch: prev,
            limited,
            joined_count: if joined_count <= MAX_WIRE_COUNT {
                joined_count
            } else {
                0
            },
            invited_count: if invited_count <= MAX_WIRE_COUNT {
                invited_count
            } else {
                0
            },
            bump_stamp: bump,
            heroes,
            receipts: kept_receipts,
            private_read: private_payload,
        },
    )
}

} // verus!
