//! The typing-indicator registry: per-room sets of currently-typing users
//! with expiry timeouts, a last-update stamp per room, and the federation
//! fan-out decision for local changes.
//!
//! Reads use lazy expiry: an entry is live at `now` only while `now` is
//! before its timeout, whether or not a sweep has removed it yet.

use vstd::prelude::*;

use crate::counter::Counter;
use crate::edu::{typing_edu_bytes, typing_edu_json};
use crate::strutil::seq_has;

verus! {

/// One (room, user) typing claim, live until `timeout`.
pub struct TypingEntry {
    pub room: String,
    pub user: String,
    pub timeout: u64,
}

/// The last-update stamp of one room.
pub struct RoomStamp {
    pub room: String,
    pub stamp: u64,
}

/// What the caller must do after a mutation: broadcast a change notification
/// for the room, and, when the change concerns a local user and outgoing
/// typing broadcast is allowed, hand the serialized record to the federation
/// queue of the room.
pub struct TypingActions {
    pub notify_room: String,
    pub federation: Option<Vec<u8>>,
}

/// No two entries claim the same (room, user) pair.
pub open spec fn unique_pairs(s: Seq<TypingEntry>) -> bool {
    forall|i: int, j: int|
        0 <= i < j < s.len() ==> !(s[i].room@ == s[j].room@ && s[i].user@ == s[j].user@)
}

/// No two stamps name the same room.
pub open spec fn unique_rooms(s: Seq<RoomStamp>) -> bool {
    forall|i: int, j: int| 0 <= i < j < s.len() ==> s[i].room@ != s[j].room@
}

/// The stamp stored for a room, `0` when the room was never stamped.
pub open spec fn stamp_of(s: Seq<RoomStamp>, room: Seq<char>) -> u64
    decreases s.len(),
{
    if s.len() == 0 {
        0
    } else if s[0].room@ == room {
        s[0].stamp
    } else {
        stamp_of(s.skip(1), room)
    }
}

/// The entries that survive a sweep of `room` at time `now`.
pub open spec fn swept(s: Seq<TypingEntry>, room: Seq<char>, now: u64) -> Seq<TypingEntry> {
    s.filter(|e: TypingEntry| !(e.room@ == room && e.timeout <= now))
}

/// Some claim for (room, user) stands in the entry list.
pub open spec fn present_in(es: Seq<TypingEntry>, room: Seq<char>, user: Seq<char>) -> bool {
    exists|i: int| 0 <= i < es.len() && es[i].room@ == room && es[i].user@ == user
}

/// A claim for (room, user) stands in the entry list and is live at `now`.
pub open spec fn live_in(es: Seq<TypingEntry>, room: Seq<char>, user: Seq<char>, now: u64) -> bool {
    exists|i: int|
        0 <= i < es.len() && es[i].room@ == room && es[i].user@ == user && now < es[i].timeout
}

/// A claim for (room, user) stands in the entry list with its timeout
/// elapsed at `now`.
pub open spec fn expired_in(es: Seq<TypingEntry>, room: Seq<char>, user: Seq<char>, now: u64) -> bool {
    exists|i: int|
        0 <= i < es.len() && es[i].room@ == room && es[i].user@ == user && es[i].timeout <= now
}

proof fn lemma_stamp_of_update(s: Seq<RoomStamp>, i: int, st: RoomStamp, room: Seq<char>)
    requires
        0 <= i < s.len(),
        st.room@ == s[i].room@,
        forall|j: int| 0 <= j < s.len() && j != i ==> s[j].room@ != s[i].room@,
    ensures
        stamp_of(s.update(i, st), room) == if room == s[i].room@ {
            st.stamp
        } else {
            stamp_of(s, room)
        },
    decreases s.len(),
{
    let s2 = s.update(i, st);
    if i == 0 {
        assert(s2.skip(1) =~= s.skip(1));
    } else {
        assert(s2[0] == s[0]);
        assert(s2.skip(1) =~= s.skip(1).update(i - 1, st));
        lemma_stamp_of_update(s.skip(1), i - 1, st, room);
    }
}

proof fn lemma_stamp_of_push(s: Seq<RoomStamp>, st: RoomStamp, room: Seq<char>)
    requires
        forall|j: int| 0 <= j < s.len() ==> s[j].room@ != st.room@,
    ensures
        stamp_of(s.push(st), room) == if room == st.room@ {
            st.stamp
        } else {
            stamp_of(s, room)
        },
    decreases s.len(),
{
    reveal_with_fuel(stamp_of, 3);
    if s.len() == 0 {
        assert(s.push(st)[0] == st);
        assert(s.push(st).skip(1) =~= Seq::<RoomStamp>::empty());
    } else {
        assert(s.push(st)[0] == s[0]);
        assert(s.push(st).skip(1) =~= s.skip(1).push(st));
        assert(forall|j: int|
            0 <= j < s.skip(1).len() ==> s.skip(1)[j] == s[j + 1]);
        lemma_stamp_of_push(s.skip(1), st, room);
    }
}

/// Every entry that survives a sweep stands in the original list.
proof fn lemma_swept_in_orig(s: Seq<TypingEntry>, room: Seq<char>, now: u64)
    ensures
        forall|m: int|
            0 <= m < swept(s, room, now).len() ==> s.contains(#[trigger] swept(s, room, now)[m]),
    decreases s.len(),
{
    reveal(Seq::filter);
    if s.len() > 0 {
        lemma_swept_in_orig(s.drop_last(), room, now);
        let f = swept(s, room, now);
        let df = swept(s.drop_last(), room, now);
        assert forall|m: int| 0 <= m < f.len() implies s.contains(f[m]) by {
            if m < df.len() {
                assert(f[m] == df[m]);
                assert(s.drop_last().contains(df[m]));
                let k = choose|k: int| 0 <= k < s.drop_last().len() && s.drop_last()[k] == df[m];
                assert(s[k] == f[m]);
            } else {
                assert(s[s.len() - 1] == f[m]);
            }
        }
    }
}

/// A sweep keeps the entry pairs distinct.
proof fn lemma_swept_unique(s: Seq<TypingEntry>, room: Seq<char>, now: u64)
    requires
        unique_pairs(s),
    ensures
        unique_pairs(swept(s, room, now)),
    decreases s.len(),
{
    reveal(Seq::filter);
    if s.len() > 0 {
        lemma_swept_unique(s.drop_last(), room, now);
        lemma_swept_in_orig(s.drop_last(), room, now);
        let f = swept(s, room, now);
        let df = swept(s.drop_last(), room, now);
        assert forall|a: int, b: int|
            0 <= a < b < f.len() implies !(f[a].room@ == f[b].room@ && f[a].user@
            == f[b].user@) by {
            if b < df.len() {
                assert(f[a] == df[a] && f[b] == df[b]);
            } else {
                assert(f[b] == s.last());
                assert(f[a] == df[a]);
                assert(s.drop_last().contains(df[a]));
                let k = choose|k: int| 0 <= k < s.drop_last().len() && s.drop_last()[k] == df[a];
                assert(s[k] == f[a]);
                assert(!(s[k].room@ == s[s.len() - 1].room@ && s[k].user@ == s[s.len()
                    - 1].user@));
            }
        }
    }
}

/// Every stored stamp was issued by the counter: nothing stored runs ahead
/// of it.  This is what makes every room's last-update stamp monotonic.
pub open spec fn stamps_bounded(s: Seq<RoomStamp>, c: Counter) -> bool {
    forall|i: int| 0 <= i < s.len() ==> (#[trigger] s[i].stamp) <= c.last
}

proof fn lemma_stamp_of_bounded(s: Seq<RoomStamp>, room: Seq<char>, b: u64)
    requires
        forall|i: int| 0 <= i < s.len() ==> (#[trigger] s[i].stamp) <= b,
    ensures
        stamp_of(s, room) <= b,
    decreases s.len(),
{
    if s.len() > 0 {
        assert(forall|j: int| 0 <= j < s.skip(1).len() ==> s.skip(1)[j] == s[j + 1]);
        lemma_stamp_of_bounded(s.skip(1), room, b);
    }
}

/// A sweep of a room at time `now` changes no read made at `now` or later:
/// every claim it removes was already dead at such a time.  This is what
/// makes lazy expiry sound whatever the sweep cadence is.
pub proof fn lemma_sweep_transparent(
    pre: Seq<TypingEntry>,
    room: Seq<char>,
    now: u64,
    n: u64,
    r: Seq<char>,
    u: Seq<char>,
)
    requires
        n >= now,
    ensures
        live_in(swept(pre, room, now), r, u, n) == live_in(pre, r, u, n),
{
    let post = swept(pre, room, now);
    broadcast use vstd::seq_lib::group_filter_ensures;

    if live_in(pre, r, u, n) {
        let k = choose|k: int|
            0 <= k < pre.len() && pre[k].room@ == r && pre[k].user@ == u && n < pre[k].timeout;
        assert(!(pre[k].room@ == room && pre[k].timeout <= now));
        assert(post.contains(pre[k]));
        let m = choose|m: int| 0 <= m < post.len() && post[m] == pre[k];
        assert(post[m].room@ == r && post[m].user@ == u && n < post[m].timeout);
    }
    if live_in(post, r, u, n) {
        let m = choose|m: int|
            0 <= m < post.len() && post[m].room@ == r && post[m].user@ == u && n
                < post[m].timeout;
        lemma_swept_in_orig(pre, room, now);
        assert(pre.contains(post[m]));
        let k = choose|k: int| 0 <= k < pre.len() && pre[k] == post[m];
        assert(pre[k].room@ == r && pre[k].user@ == u && n < pre[k].timeout);
    }
}

/// The registry: process-wide state, lock-guarded by the shell around it.
pub struct TypingRegistry {
    pub entries: Vec<TypingEntry>,
    pub stamps: Vec<RoomStamp>,
}

impl TypingRegistry {
    pub open spec fn wf(self) -> bool {
        unique_pairs(self.entries@) && unique_rooms(self.stamps@)
    }

    /// The registry holds some claim for (room, user).
    pub open spec fn is_present(self, room: Seq<char>, user: Seq<char>) -> bool {
        present_in(self.entries@, room, user)
    }

    /// Lazy-expiry read: the user counts as typing in the room at `now`
    /// exactly when some claim for the pair is still live.
    pub open spec fn typing_at(self, room: Seq<char>, user: Seq<char>, now: u64) -> bool {
        live_in(self.entries@, room, user, now)
    }

    /// The room's last-update stamp, `0` when nothing ever changed.
    pub open spec fn last_update(self, room: Seq<char>) -> u64 {
        stamp_of(self.stamps@, room)
    }

    pub fn new() -> (r: TypingRegistry)
        ensures
            r.wf(),
            r.entries@.len() == 0,
            forall|room: Seq<char>| r.last_update(room) == 0,
    {
        TypingRegistry { entries: Vec::new(), stamps: Vec::new() }
    }

    /// Record a fresh stamp for the room.
    fn bump(&mut self, room: &String, stamp: u64)
        requires
            old(self).wf(),
            forall|i: int| 0 <= i < old(self).stamps@.len() ==> (#[trigger] old(
                self,
            ).stamps@[i].stamp) <= stamp,
        ensures
            final(self).wf(),
            final(self).entries@ == old(self).entries@,
            final(self).last_update(room@) == stamp,
            forall|r: Seq<char>|
                r != room@ ==> final(self).last_update(r) == old(self).last_update(r),
            forall|i: int|
                0 <= i < final(self).stamps@.len() ==> (#[trigger] final(self).stamps@[i].stamp)
                    <= stamp,
            forall|r: Seq<char>| final(self).last_update(r) >= old(self).last_update(r),
    {
        proof {
            lemma_stamp_of_bounded(self.stamps@, room@, stamp);
        }
        let ghost s0 = self.stamps@;
        let mut i: usize = 0;
        while i < self.stamps.len()
            invariant
                s0 == old(self).stamps@,
                self.stamps@ == s0,
                self.entries@ == old(self).entries@,
                0 <= i <= s0.len(),
                forall|j: int| 0 <= j < i ==> s0[j].room@ != room@,
                unique_rooms(s0),
                unique_pairs(self.entries@),
                forall|j: int| 0 <= j < s0.len() ==> (#[trigger] s0[j].stamp) <= stamp,
                stamp_of(s0, room@) <= stamp,
            decreases s0.len() - i,
        {
            if self.stamps[i].room.eq(room) {
                let mut st = self.stamps.remove(i);
                st.stamp = stamp;
                proof {
                    assert(st.room@ == s0[i as int].room@);
                }
                self.stamps.insert(i, st);
                proof {
                    assert(self.stamps@ =~= s0.update(i as int, st));
                    lemma_stamp_of_update(s0, i as int, st, room@);
                    assert forall|r: Seq<char>| r != room@ implies stamp_of(
                        s0.update(i as int, st),
                        r,
                    ) == stamp_of(s0, r) by {
                        lemma_stamp_of_update(s0, i as int, st, r);
                    }
                    assert forall|a: int, b: int|
                        0 <= a < b < self.stamps@.len() implies self.stamps@[a].room@
                        != self.stamps@[b].room@ by {
                        assert(s0[a].room@ != s0[b].room@);
                    }
                }
                return ;
            }
            i = i + 1;
        }
        let st = RoomStamp { room: room.clone(), stamp };
        self.stamps.push(st);
        proof {
            lemma_stamp_of_push(s0, st, room@);
            assert forall|r: Seq<char>| r != room@ implies stamp_of(s0.push(st), r) == stamp_of(
                s0,
                r,
            ) by {
                lemma_stamp_of_push(s0, st, r);
            }
            assert forall|a: int, b: int|
                0 <= a < b < self.stamps@.len() implies self.stamps@[a].room@
                != self.stamps@[b].room@ by {
                if b < s0.len() {
                    assert(s0[a].room@ != s0[b].room@);
                }
            }
        }
    }

    /// The position of the claim for (room, user), if one is held.
    fn find_pair(&self, room: &String, user: &String) -> (r: (bool, usize))
        ensures
            r.0 ==> r.1 < self.entries@.len() && self.entries@[r.1 as int].room@ == room@
                && self.entries@[r.1 as int].user@ == user@,
            !r.0 ==> forall|j: int|
                0 <= j < self.entries@.len() ==> !(self.entries@[j].room@ == room@
                    && self.entries@[j].user@ == user@),
    {
        let mut i: usize = 0;
        while i < self.entries.len()
            invariant
                0 <= i <= self.entries@.len(),
                forall|j: int|
                    0 <= j < i ==> !(self.entries@[j].room@ == room@ && self.entries@[j].user@
                        == user@),
            decreases self.entries@.len() - i,
        {
            if self.entries[i].room.eq(room) && self.entries[i].user.eq(user) {
                return (true, i);
            }
            i = i + 1;
        }
        (false, 0)
    }

    /// Set a user as typing in the room until the timeout stamp, bump the
    /// room's last-update stamp, and decide the notification and federation
    /// actions.  A fresh start for a pair already present supersedes the old
    /// timeout.
    pub fn typing_add(
        &mut self,
        user: &String,
        room: &String,
        timeout: u64,
        counter: &mut Counter,
        user_is_local: bool,
        allow_outgoing_typing: bool,
    ) -> (actions: TypingActions)
        requires
            old(self).wf(),
            old(counter).last < u64::MAX,
            stamps_bounded(old(self).stamps@, *old(counter)),
        ensures
            final(self).wf(),
            stamps_bounded(final(self).stamps@, *final(counter)),
            forall|r: Seq<char>| final(self).last_update(r) >= old(self).last_update(r),
            forall|now: u64| final(self).typing_at(room@, user@, now) == (now < timeout),
            forall|r: Seq<char>, u: Seq<char>, now: u64|
                !(r == room@ && u == user@) ==> final(self).typing_at(r, u, now) == old(
                    self,
                ).typing_at(r, u, now),
            final(counter).last == old(counter).last + 1,
            final(self).last_update(room@) == final(counter).last,
            forall|r: Seq<char>|
                r != room@ ==> final(self).last_update(r) == old(self).last_update(r),
            actions.notify_room@ == room@,
            user_is_local && allow_outgoing_typing ==> (actions.federation matches Some(b)
                && b@ == typing_edu_bytes(room@, user@, true)),
            !(user_is_local && allow_outgoing_typing) ==> actions.federation is None,
    {
        let ghost e0 = self.entries@;
        let (updated, i) = self.find_pair(room, user);
        if updated {
            let mut e = self.entries.remove(i);
            e.timeout = timeout;
            self.entries.insert(i, e);
            proof {
                assert(self.entries@ =~= e0.update(
                    i as int,
                    (TypingEntry { room: e0[i as int].room, user: e0[i as int].user, timeout }),
                ));
            }
        } else {
            self.entries.push(TypingEntry { room: room.clone(), user: user.clone(), timeout });
        }
        proof {
            let e1 = self.entries@;
            if updated {
                assert forall|a: int, b: int|
                    0 <= a < b < e1.len() implies !(e1[a].room@ == e1[b].room@ && e1[a].user@
                    == e1[b].user@) by {
                    assert(e1.len() == e0.len());
                    assert(e1[a].room@ == e0[a].room@ && e1[a].user@ == e0[a].user@);
                    assert(e1[b].room@ == e0[b].room@ && e1[b].user@ == e0[b].user@);
                    assert(!(e0[a].room@ == e0[b].room@ && e0[a].user@ == e0[b].user@));
                }
            } else {
                assert forall|a: int, b: int|
                    0 <= a < b < e1.len() implies !(e1[a].room@ == e1[b].room@ && e1[a].user@
                    == e1[b].user@) by {
                    if b < e0.len() {
                        assert(e0[a].room@ != e0[b].room@ || e0[a].user@ != e0[b].user@);
                    } else {
                        assert(e1[b].room@ == room@ && e1[b].user@ == user@);
                        assert(!(e0[a].room@ == room@ && e0[a].user@ == user@));
                    }
                }
            }
            assert forall|now: u64| live_in(e1, room@, user@, now) == (now < timeout) by {
                if updated {
                    if now < timeout {
                        assert(e1[i as int].room@ == room@ && e1[i as int].user@ == user@
                            && now < e1[i as int].timeout);
                    } else {
                        assert forall|k: int|
                            0 <= k < e1.len() && e1[k].room@ == room@ && e1[k].user@
                                == user@ implies !(now < e1[k].timeout) by {
                            if k != i as int {
                                assert(e0[k].room@ == room@ && e0[k].user@ == user@);
                            }
                        }
                    }
                } else {
                    let last = e1.len() - 1;
                    if now < timeout {
                        assert(e1[last].room@ == room@ && e1[last].user@ == user@ && now
                            < e1[last].timeout);
                    } else {
                        assert forall|k: int|
                            0 <= k < e1.len() && e1[k].room@ == room@ && e1[k].user@
                                == user@ implies !(now < e1[k].timeout) by {
                            if k != last {
                                assert(!(e0[k].room@ == room@ && e0[k].user@ == user@));
                            }
                        }
                    }
                }
            }
            assert forall|r: Seq<char>, u: Seq<char>, now: u64|
                !(r == room@ && u == user@) implies live_in(e1, r, u, now) == live_in(
                e0,
                r,
                u,
                now,
            ) by {
                if live_in(e0, r, u, now) {
                    let k = choose|k: int|
                        0 <= k < e0.len() && e0[k].room@ == r && e0[k].user@ == u && now
                            < e0[k].timeout;
                    assert(e1[k].room@ == r && e1[k].user@ == u && now < e1[k].timeout);
                }
                if live_in(e1, r, u, now) {
                    let k = choose|k: int|
                        0 <= k < e1.len() && e1[k].room@ == r && e1[k].user@ == u && now
                            < e1[k].timeout;
                    assert(k < e0.len());
                    assert(e0[k].room@ == r && e0[k].user@ == u && now < e0[k].timeout);
                }
            }
        }
        let stamp = counter.next_count();
        proof {
            assert forall|i: int|
                0 <= i < self.stamps@.len() implies (#[trigger] self.stamps@[i].stamp)
                <= stamp by {
                assert(self.stamps@[i].stamp <= old(counter).last);
            }
        }
        self.bump(room, stamp);
        let federation = if user_is_local && allow_outgoing_typing {
            Some(typing_edu_json(room, user, true))
        } else {
            None
        };
        TypingActions { notify_room: room.clone(), federation }
    }

    /// Remove a user's typing claim before its timeout.  Stopping a user who
    /// is not typing is a no-op on the claims, yet still bumps the room's
    /// last-update stamp exactly once and never fails.
    pub fn typing_remove(
        &mut self,
        user: &String,
        room: &String,
        counter: &mut Counter,
        user_is_local: bool,
        allow_outgoing_typing: bool,
    ) -> (actions: TypingActions)
        requires
            old(self).wf(),
            old(counter).last < u64::MAX,
            stamps_bounded(old(self).stamps@, *old(counter)),
        ensures
            final(self).wf(),
            stamps_bounded(final(self).stamps@, *final(counter)),
            forall|r: Seq<char>| final(self).last_update(r) >= old(self).last_update(r),
            !final(self).is_present(room@, user@),
            forall|r: Seq<char>, u: Seq<char>, now: u64|
                !(r == room@ && u == user@) ==> final(self).typing_at(r, u, now) == old(
                    self,
                ).typing_at(r, u, now),
            !old(self).is_present(room@, user@) ==> final(self).entries@ == old(self).entries@,
            final(counter).last == old(counter).last + 1,
            final(self).last_update(room@) == final(counter).last,
            forall|r: Seq<char>|
                r != room@ ==> final(self).last_update(r) == old(self).last_update(r),
            actions.notify_room@ == room@,
            user_is_local && allow_outgoing_typing ==> (actions.federation matches Some(b)
                && b@ == typing_edu_bytes(room@, user@, false)),
            !(user_is_local && allow_outgoing_typing) ==> actions.federation is None,
    {
        let ghost e0 = self.entries@;
        let (found, i) = self.find_pair(room, user);
        if found {
            self.entries.remove(i);
        }
        proof {
            let e1 = self.entries@;
            if found {
                assert(e1 =~= e0.remove(i as int));
                assert forall|a: int, b: int|
                    0 <= a < b < e1.len() implies !(e1[a].room@ == e1[b].room@ && e1[a].user@
                    == e1[b].user@) by {
                    let a0 = if a < i as int {
                        a
                    } else {
                        a + 1
                    };
                    let b0 = if b < i as int {
                        b
                    } else {
                        b + 1
                    };
                    assert(e1[a] == e0[a0] && e1[b] == e0[b0]);
                    assert(!(e0[a0].room@ == e0[b0].room@ && e0[a0].user@ == e0[b0].user@));
                }
                assert forall|k: int|
                    0 <= k < e1.len() implies !(e1[k].room@ == room@ && e1[k].user@
                    == user@) by {
                    let k0 = if k < i as int {
                        k
                    } else {
                        k + 1
                    };
                    assert(e1[k] == e0[k0]);
                    if k0 != i as int {
                        assert(!(e0[k0].room@ == e0[i as int].room@ && e0[k0].user@ == e0[
                            i as int].user@));
                    }
                }
            } else {
                assert(!present_in(e0, room@, user@));
            }
            assert forall|r: Seq<char>, u: Seq<char>, now: u64|
                !(r == room@ && u == user@) implies live_in(e1, r, u, now) == live_in(
                e0,
                r,
                u,
                now,
            ) by {
                if found {
                    if live_in(e0, r, u, now) {
                        let k = choose|k: int|
                            0 <= k < e0.len() && e0[k].room@ == r && e0[k].user@ == u && now
                                < e0[k].timeout;
                        assert(k != i as int);
                        let k1 = if k < i as int {
                            k
                        } else {
                            k - 1
                        };
                        assert(e1[k1] == e0[k]);
                        assert(e1[k1].room@ == r && e1[k1].user@ == u && now < e1[k1].timeout);
                    }
                    if live_in(e1, r, u, now) {
                        let k = choose|k: int|
                            0 <= k < e1.len() && e1[k].room@ == r && e1[k].user@ == u && now
                                < e1[k].timeout;
                        let k0 = if k < i as int {
                            k
                        } else {
                            k + 1
                        };
                        assert(e1[k] == e0[k0]);
                        assert(e0[k0].room@ == r && e0[k0].user@ == u && now < e0[k0].timeout);
                    }
                }
            }
        }
        let stamp = counter.next_count();
        proof {
            assert forall|i: int|
                0 <= i < self.stamps@.len() implies (#[trigger] self.stamps@[i].stamp)
                <= stamp by {
                assert(self.stamps@[i].stamp <= old(counter).last);
            }
        }
        self.bump(room, stamp);
        let federation = if user_is_local && allow_outgoing_typing {
            Some(typing_edu_json(room, user, false))
        } else {
            None
        };
        TypingActions { notify_room: room.clone(), federation }
    }

    /// Sweep one room: drop every claim whose timeout has elapsed at `now`.
    /// Returns the removed users; the stamp is bumped, and a notification is
    /// owed, exactly when something was removed.
    pub fn typings_maintain(&mut self, room: &String, now: u64, counter: &mut Counter) -> (removed:
        Vec<String>)
        requires
            old(self).wf(),
            old(counter).last < u64::MAX,
            stamps_bounded(old(self).stamps@, *old(counter)),
        ensures
            final(self).wf(),
            stamps_bounded(final(self).stamps@, *final(counter)),
            forall|r: Seq<char>| final(self).last_update(r) >= old(self).last_update(r),
            final(self).entries@ == swept(old(self).entries@, room@, now),
            forall|u: Seq<char>|
                seq_has(removed@, u) <==> expired_in(old(self).entries@, room@, u, now),
            forall|m: int, n: int| 0 <= m < n < removed@.len() ==> removed@[m]@ != removed@[n]@,
            removed@.len() > 0 ==> final(counter).last == old(counter).last + 1
                && final(self).last_update(room@) == final(counter).last && (forall|r: Seq<char>|
                r != room@ ==> final(self).last_update(r) == old(self).last_update(r)),
            removed@.len() == 0 ==> final(counter).last == old(counter).last && final(self).stamps@
                == old(self).stamps@,
    {
        broadcast use vstd::seq_lib::group_filter_ensures;

        let ghost e0 = self.entries@;
        let mut kept: Vec<TypingEntry> = Vec::new();
        let mut removed: Vec<String> = Vec::new();
        let n = self.entries.len();
        let mut j: usize = 0;
        while j < n
            invariant
                e0 == old(self).entries@,
                n == e0.len(),
                self.entries@ == e0.skip(j as int),
                self.stamps@ == old(self).stamps@,
                unique_pairs(e0),
                unique_rooms(self.stamps@),
                stamps_bounded(self.stamps@, *old(counter)),
                0 <= j <= e0.len(),
                kept@ == swept(e0.take(j as int), room@, now),
                forall|m: int|
                    0 <= m < removed@.len() ==> expired_in(
                        e0.take(j as int),
                        room@,
                        #[trigger] removed@[m]@,
                        now,
                    ),
                forall|k: int|
                    0 <= k < j && e0[k].room@ == room@ && e0[k].timeout <= now ==> seq_has(
                        removed@,
                        e0[k].user@,
                    ),
                forall|m: int, n2: int|
                    0 <= m < n2 < removed@.len() ==> removed@[m]@ != removed@[n2]@,
            decreases e0.len() - j,
        {
            proof {
                broadcast use vstd::seq_lib::group_filter_ensures;
                broadcast use Seq::lemma_filter_push;

                assert(e0.skip(j as int)[0] == e0[j as int]);
                assert(e0.skip(j as int).remove(0) =~= e0.skip(j as int + 1));
                let prefix = e0.take(j as int);
                let pushed = prefix.push(e0[j as int]);
                assert(e0.take(j as int + 1) =~= pushed);
                if !(e0[j as int].room@ == room@ && e0[j as int].timeout <= now) {
                    assert(swept(pushed, room@, now) == swept(prefix, room@, now).push(
                        e0[j as int],
                    ));
                } else {
                    assert(swept(pushed, room@, now) == swept(prefix, room@, now));
                }
                assert(swept(e0.take(j as int + 1), room@, now) == swept(pushed, room@, now));
            }
            let ghost removed0 = removed@;
            let e = self.entries.remove(0);
            if e.room.eq(room) && e.timeout <= now {
                removed.push(e.user);
                proof {
                    let prefix = e0.take(j as int);
                    let prefix1 = e0.take(j as int + 1);
                    assert(forall|k: int| 0 <= k < j + 1 ==> prefix1[k] == e0[k]);
                    assert(forall|k: int| 0 <= k < j ==> prefix[k] == e0[k]);
                    assert forall|m: int, n2: int|
                        0 <= m < n2 < removed@.len() implies removed@[m]@ != removed@[n2]@ by {
                        if n2 == removed@.len() - 1 {
                            assert(removed@[m]@ == removed0[m]@);
                            let k = choose|k: int|
                                0 <= k < prefix.len() && prefix[k].room@ == room@ && prefix[k].user@
                                    == removed0[m]@ && prefix[k].timeout <= now;
                            assert(!(e0[k].room@ == e0[j as int].room@ && e0[k].user@ == e0[
                                j as int].user@));
                        } else {
                            assert(removed@[m]@ == removed0[m]@ && removed@[n2]@ == removed0[n2]@);
                        }
                    }
                    assert forall|m: int|
                        0 <= m < removed@.len() implies expired_in(
                        prefix1,
                        room@,
                        #[trigger] removed@[m]@,
                        now,
                    ) by {
                        if m < removed0.len() {
                            assert(removed@[m]@ == removed0[m]@);
                            let k = choose|k: int|
                                0 <= k < prefix.len() && prefix[k].room@ == room@ && prefix[k].user@
                                    == removed0[m]@ && prefix[k].timeout <= now;
                            assert(prefix1[k].room@ == room@ && prefix1[k].user@ == removed@[m]@
                                && prefix1[k].timeout <= now);
                        } else {
                            assert(removed@[m]@ == e0[j as int].user@);
                            assert(prefix1[j as int].room@ == room@ && prefix1[j as int].user@
                                == removed@[m]@ && prefix1[j as int].timeout <= now);
                        }
                    }
                    assert forall|k: int|
                        0 <= k < j + 1 && e0[k].room@ == room@ && e0[k].timeout
                            <= now implies seq_has(removed@, e0[k].user@) by {
                        if k < j {
                            assert(seq_has(removed0, e0[k].user@));
                            let m = choose|m: int| 0 <= m < removed0.len() && removed0[m]@ == e0[
                                k].user@;
                            assert(removed@[m]@ == e0[k].user@);
                        } else {
                            assert(removed@[removed@.len() - 1]@ == e0[k].user@);
                        }
                    }
                }
            } else {
                kept.push(e);
                proof {
                    assert forall|k: int|
                        0 <= k < j + 1 && e0[k].room@ == room@ && e0[k].timeout
                            <= now implies seq_has(removed@, e0[k].user@) by {
                        assert(k < j);
                    }
                }
            }
            j = j + 1;
        }
        proof {
            assert(e0.take(e0.len() as int) =~= e0);
            lemma_swept_unique(e0, room@, now);
            assert forall|u: Seq<char>|
                seq_has(removed@, u) <==> expired_in(e0, room@, u, now) by {
                if seq_has(removed@, u) {
                    let m = choose|m: int| 0 <= m < removed@.len() && removed@[m]@ == u;
                    assert(expired_in(e0.take(e0.len() as int), room@, removed@[m]@, now));
                }
                if expired_in(e0, room@, u, now) {
                    let k = choose|k: int|
                        0 <= k < e0.len() && e0[k].room@ == room@ && e0[k].user@ == u
                            && e0[k].timeout <= now;
                    assert(seq_has(removed@, e0[k].user@));
                }
            }
        }
        self.entries = kept;
        if removed.len() > 0 {
            let stamp = counter.next_count();
            proof {
                assert forall|i: int|
                    0 <= i < self.stamps@.len() implies (#[trigger] self.stamps@[i].stamp)
                    <= stamp by {
                    assert(self.stamps@[i].stamp <= old(counter).last);
                }
            }
            self.bump(room, stamp);
        }
        removed
    }

    /// The room's last-update stamp after a sweep at `now`, with the users
    /// the sweep removed.
    pub fn last_typing_update(&mut self, room: &String, now: u64, counter: &mut Counter) -> (r: (
        u64,
        Vec<String>,
    ))
        requires
            old(self).wf(),
            old(counter).last < u64::MAX,
            stamps_bounded(old(self).stamps@, *old(counter)),
        ensures
            final(self).wf(),
            stamps_bounded(final(self).stamps@, *final(counter)),
            forall|r: Seq<char>| final(self).last_update(r) >= old(self).last_update(r),
            r.0 == final(self).last_update(room@),
            final(self).entries@ == swept(old(self).entries@, room@, now),
            forall|u: Seq<char>|
                seq_has(r.1@, u) <==> (exists|k: int|
                    0 <= k < old(self).entries@.len() && old(self).entries@[k].room@ == room@
                        && old(self).entries@[k].user@ == u && old(self).entries@[k].timeout
                        <= now),
            r.1@.len() == 0 ==> final(counter).last == old(counter).last && r.0 == old(
                self,
            ).last_update(room@),
            r.1@.len() > 0 ==> final(counter).last == old(counter).last + 1,
    {
        let removed = self.typings_maintain(room, now, counter);
        let stamp = self.get_stamp(room);
        (stamp, removed)
    }

    /// The room's stored last-update stamp, without sweeping.
    fn get_stamp(&self, room: &String) -> (r: u64)
        ensures
            r == self.last_update(room@),
    {
        let mut i: usize = 0;
        proof {
            assert(self.stamps@.skip(0) =~= self.stamps@);
        }
        while i < self.stamps.len()
            invariant
                0 <= i <= self.stamps@.len(),
                stamp_of(self.stamps@, room@) == stamp_of(self.stamps@.skip(i as int), room@),
            decreases self.stamps@.len() - i,
        {
            let ghost s = self.stamps@;
            proof {
                assert(s.skip(i as int)[0] == s[i as int]);
                assert(s.skip(i as int).skip(1) =~= s.skip(i as int + 1));
            }
            if self.stamps[i].room.eq(room) {
                return self.stamps[i].stamp;
            }
            i = i + 1;
        }
        0
    }

    /// The users currently typing in a room as seen by one requester at
    /// `now`: live claims only (lazy expiry), minus users the requester
    /// ignores.
    pub fn typing_users_for_user(&self, room: &String, now: u64, ignored: &Vec<String>) -> (r: Vec<
        String,
    >)
        requires
            self.wf(),
        ensures
            forall|u: Seq<char>| #![trigger seq_has(r@, u)]
                seq_has(r@, u) <==> (self.typing_at(room@, u, now) && !seq_has(ignored@, u)),
            forall|m: int, n: int| 0 <= m < n < r@.len() ==> r@[m]@ != r@[n]@,
    {
        let ghost e0 = self.entries@;
        let mut r: Vec<String> = Vec::new();
        let mut j: usize = 0;
        while j < self.entries.len()
            invariant
                e0 == self.entries@,
                unique_pairs(e0),
                0 <= j <= e0.len(),
                forall|m: int|
                    0 <= m < r@.len() ==> live_in(e0.take(j as int), room@, #[trigger] r@[m]@, now)
                        && !seq_has(ignored@, r@[m]@),
                forall|k: int|
                    0 <= k < j && e0[k].room@ == room@ && now < e0[k].timeout && !seq_has(
                        ignored@,
                        e0[k].user@,
                    ) ==> seq_has(r@, e0[k].user@),
                forall|m: int, n: int| 0 <= m < n < r@.len() ==> r@[m]@ != r@[n]@,
            decreases e0.len() - j,
        {
            let ghost r0 = r@;
            let e = &self.entries[j];
            if e.room.eq(room) && now < e.timeout && !crate::strutil::vec_has_string(
                ignored,
                &e.user,
            ) {
                r.push(e.user.clone());
                proof {
                    let prefix = e0.take(j as int);
                    let prefix1 = e0.take(j as int + 1);
                    assert(forall|k: int| 0 <= k < j + 1 ==> prefix1[k] == e0[k]);
                    assert(forall|k: int| 0 <= k < j ==> prefix[k] == e0[k]);
                    assert(r@[r@.len() - 1]@ == e0[j as int].user@);
                    assert forall|m: int, n: int|
                        0 <= m < n < r@.len() implies r@[m]@ != r@[n]@ by {
                        if n == r@.len() - 1 {
                            assert(r@[m]@ == r0[m]@);
                            let k = choose|k: int|
                                0 <= k < prefix.len() && prefix[k].room@ == room@ && prefix[k].user@
                                    == r0[m]@ && now < prefix[k].timeout;
                            assert(!(e0[k].room@ == e0[j as int].room@ && e0[k].user@ == e0[
                                j as int].user@));
                        } else {
                            assert(r@[m]@ == r0[m]@ && r@[n]@ == r0[n]@);
                        }
                    }
                    assert forall|m: int|
                        0 <= m < r@.len() implies live_in(prefix1, room@, #[trigger] r@[m]@, now)
                            && !seq_has(ignored@, r@[m]@) by {
                        if m < r0.len() {
                            assert(r@[m]@ == r0[m]@);
                            let k = choose|k: int|
                                0 <= k < prefix.len() && prefix[k].room@ == room@ && prefix[k].user@
                                    == r0[m]@ && now < prefix[k].timeout;
                            assert(prefix1[k].room@ == room@ && prefix1[k].user@ == r@[m]@ && now
                                < prefix1[k].timeout);
                        } else {
                            assert(prefix1[j as int].room@ == room@ && prefix1[j as int].user@
                                == r@[m]@ && now < prefix1[j as int].timeout);
                        }
                    }
                    assert forall|k: int|
                        0 <= k < j + 1 && e0[k].room@ == room@ && now < e0[k].timeout && !seq_has(
                            ignored@,
                            e0[k].user@,
                        ) implies seq_has(r@, e0[k].user@) by {
                        if k < j {
                            let m = choose|m: int| 0 <= m < r0.len() && r0[m]@ == e0[k].user@;
                            assert(r@[m]@ == e0[k].user@);
                        } else {
                            assert(r@[r@.len() - 1]@ == e0[k].user@);
                        }
                    }
                }
            } else {
                proof {
                    let prefix1 = e0.take(j as int + 1);
                    assert(forall|k: int| 0 <= k < j + 1 ==> prefix1[k] == e0[k]);
                    assert forall|m: int|
                        0 <= m < r@.len() implies live_in(prefix1, room@, #[trigger] r@[m]@, now)
                            && !seq_has(ignored@, r@[m]@) by {
                        let prefix = e0.take(j as int);
                        assert(forall|k: int| 0 <= k < j ==> prefix[k] == e0[k]);
                        let k = choose|k: int|
                            0 <= k < prefix.len() && prefix[k].room@ == room@ && prefix[k].user@
                                == r@[m]@ && now < prefix[k].timeout;
                        assert(prefix1[k].room@ == room@ && prefix1[k].user@ == r@[m]@ && now
                            < prefix1[k].timeout);
                    }
                    assert forall|k: int|
                        0 <= k < j + 1 && e0[k].room@ == room@ && now < e0[k].timeout && !seq_has(
                            ignored@,
                            e0[k].user@,
                        ) implies seq_has(r@, e0[k].user@) by {
                        assert(k < j);
                    }
                }
            }
            j = j + 1;
        }
        proof {
            assert(e0.take(e0.len() as int) =~= e0);
            assert forall|u: Seq<char>|
                seq_has(r@, u) <==> (live_in(e0, room@, u, now) && !seq_has(
                    ignored@,
                    u,
                )) by {
                if seq_has(r@, u) {
                    let m = choose|m: int| 0 <= m < r@.len() && r@[m]@ == u;
                    assert(live_in(e0.take(e0.len() as int), room@, r@[m]@, now));
                    assert(!seq_has(ignored@, r@[m]@));
                }
                if live_in(e0, room@, u, now) && !seq_has(ignored@, u) {
                    let k = choose|k: int|
                        0 <= k < e0.len() && e0[k].room@ == room@ && e0[k].user@ == u && now
                            < e0[k].timeout;
                    assert(seq_has(r@, e0[k].user@));
                }
            }
        }
        r
    }

    /// The typing event for a room as one requester sees it at `now`.
    pub fn typings_event_for_user(&self, room: &String, now: u64, ignored: &Vec<String>) -> (ev:
        TypingEvent)
        requires
            self.wf(),
        ensures
            forall|u: Seq<char>| #![trigger seq_has(ev.user_ids@, u)]
                seq_has(ev.user_ids@, u) <==> (self.typing_at(room@, u, now) && !seq_has(
                    ignored@,
                    u,
                )),
            forall|m: int, n: int|
                0 <= m < n < ev.user_ids@.len() ==> ev.user_ids@[m]@ != ev.user_ids@[n]@,
    {
        TypingEvent { user_ids: self.typing_users_for_user(room, now, ignored) }
    }
}

/// The ephemeral typing event handed back to a sync response: the users
/// typing in one room, as one requester may see them.
pub struct TypingEvent {
    pub user_ids: Vec<String>,
}

/// The removed users that are local to this server, in removal order.
pub open spec fn local_removed(removed: Seq<String>, local: Seq<String>) -> Seq<String> {
    removed.filter(|u: String| seq_has(local, u@))
}

/// The federation "stop typing" records owed after a sweep: one per removed
/// user local to this server, none at all when outgoing typing broadcast is
/// administratively disabled.
pub fn stop_signals(
    room: &String,
    removed: &Vec<String>,
    local_users: &Vec<String>,
    allow_outgoing_typing: bool,
) -> (r: Vec<Vec<u8>>)
    ensures
        !allow_outgoing_typing ==> r@.len() == 0,
        allow_outgoing_typing ==> r@.len() == local_removed(removed@, local_users@).len() && (
        forall|m: int|
            0 <= m < r@.len() ==> r@[m]@ == typing_edu_bytes(
                room@,
                local_removed(removed@, local_users@)[m]@,
                false,
            )),
{
    let mut r: Vec<Vec<u8>> = Vec::new();
    if !allow_outgoing_typing {
        return r;
    }
    let mut j: usize = 0;
    while j < removed.len()
        invariant
            0 <= j <= removed@.len(),
            r@.len() == local_removed(removed@.take(j as int), local_users@).len(),
            forall|m: int|
                0 <= m < r@.len() ==> r@[m]@ == typing_edu_bytes(
                    room@,
                    local_removed(removed@.take(j as int), local_users@)[m]@,
                    false,
                ),
        decreases removed@.len() - j,
    {
        proof {
            broadcast use vstd::seq_lib::group_filter_ensures;
            broadcast use Seq::lemma_filter_push;

            assert(removed@.take(j as int + 1) =~= removed@.take(j as int).push(
                removed@[j as int],
            ));
            assert(local_removed(removed@.take(j as int + 1), local_users@) == if seq_has(
                local_users@,
                removed@[j as int]@,
            ) {
                local_removed(removed@.take(j as int), local_users@).push(removed@[j as int])
            } else {
                local_removed(removed@.take(j as int), local_users@)
            });
        }
        if crate::strutil::vec_has_string(local_users, &removed[j]) {
            r.push(crate::edu::typing_edu_json(room, &removed[j], false));
        }
        j = j + 1;
    }
    proof {
        assert(removed@.take(removed@.len() as int) =~= removed@);
    }
    r
}

} // verus!
