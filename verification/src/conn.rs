//! The connection cache: sticky per-connection request parameters and the
//! known-rooms watermark table, keyed by (user, device, connection id).

use vstd::prelude::*;

use crate::lists::RoomTypeTag;
use crate::strutil::seq_has;

verus! {

/// One sliding window over the room list.
pub struct SyncList {
    pub name: String,
    pub ranges: Vec<(u64, u64)>,
    /// restrict the active set to invited (`true`) or joined (`false`) rooms
    pub filter_invite: Option<bool>,
    /// room types to exclude
    pub not_room_types: Vec<RoomTypeTag>,
    pub required_state: Vec<(String, String)>,
    pub timeline_limit: u64,
}

/// One ad-hoc room subscription.
pub struct RoomSubscription {
    pub room: String,
    pub required_state: Vec<(String, String)>,
    pub timeline_limit: u64,
}

/// Per-extension toggles and scoping; absent fields inherit sticky values.
pub struct ExtensionsConfig {
    pub account_data_enabled: Option<bool>,
    pub account_data_rooms: Option<Vec<String>>,
    pub e2ee_enabled: Option<bool>,
    pub to_device_enabled: Option<bool>,
    pub receipts_enabled: Option<bool>,
    pub typing_enabled: Option<bool>,
    pub typing_rooms: Option<Vec<String>>,
    pub typing_lists: Option<Vec<String>>,
}

/// One request body, after transport decoding.
pub struct SyncRequest {
    pub txn_id: Option<String>,
    /// the presented cursor, already parsed; absent or unparsable means `0`
    pub pos: u64,
    pub conn_id: Option<String>,
    pub timeout: Option<u64>,
    pub lists: Vec<SyncList>,
    pub subscriptions: Vec<RoomSubscription>,
    pub extensions: ExtensionsConfig,
}

/// A connection key: one long-lived sliding-sync session.
pub struct ConnKey {
    pub user: String,
    pub device: String,
    pub conn_id: Option<String>,
}

pub open spec fn key_view(k: ConnKey) -> (Seq<char>, Seq<char>, Option<Seq<char>>) {
    (
        k.user@,
        k.device@,
        match k.conn_id {
            Some(c) => Some(c@),
            None => None,
        },
    )
}

fn key_matches(a: &ConnKey, b: &ConnKey) -> (r: bool)
    ensures
        r == (key_view(*a) == key_view(*b)),
{
    let conn_eq = match (&a.conn_id, &b.conn_id) {
        (Some(x), Some(y)) => x.eq(y),
        (None, None) => true,
        _ => false,
    };
    a.user.eq(&b.user) && a.device.eq(&b.device) && conn_eq
}

/// One cached sticky request.
pub struct StickyEntry {
    pub key: ConnKey,
    pub request: SyncRequest,
}

/// One known-rooms row: the watermark one list of one connection last
/// recorded for one room.
pub struct KnownMark {
    pub key: ConnKey,
    pub list: String,
    pub room: String,
    pub mark: u64,
}

/// No two sticky entries share a key.
pub open spec fn unique_keys(s: Seq<StickyEntry>) -> bool {
    forall|i: int, j: int| 0 <= i < j < s.len() ==> key_view(s[i].key) != key_view(s[j].key)
}

/// No two rows name the same (key, list, room).
pub open spec fn unique_marks(s: Seq<KnownMark>) -> bool {
    forall|i: int, j: int|
        0 <= i < j < s.len() ==> !(key_view(s[i].key) == key_view(s[j].key) && s[i].list@
            == s[j].list@ && s[i].room@ == s[j].room@)
}

/// The watermark table holds this row.
pub open spec fn has_mark(
    s: Seq<KnownMark>,
    kv: (Seq<char>, Seq<char>, Option<Seq<char>>),
    list: Seq<char>,
    room: Seq<char>,
    mark: u64,
) -> bool {
    exists|i: int|
        0 <= i < s.len() && key_view(s[i].key) == kv && s[i].list@ == list && s[i].room@ == room
            && s[i].mark == mark
}

pub open spec fn has_row(
    s: Seq<KnownMark>,
    kv: (Seq<char>, Seq<char>, Option<Seq<char>>),
    list: Seq<char>,
    room: Seq<char>,
) -> bool {
    exists|i: int|
        0 <= i < s.len() && key_view(s[i].key) == kv && s[i].list@ == list && s[i].room@ == room
}

/// A sticky request is cached for the key.
pub open spec fn has_sticky(
    s: Seq<StickyEntry>,
    kv: (Seq<char>, Seq<char>, Option<Seq<char>>),
) -> bool {
    exists|i: int| 0 <= i < s.len() && key_view(s[i].key) == kv
}

/// The watermark stored for (key, list, room), `0` when the table holds no
/// row for it.
pub open spec fn mark_row_of(
    s: Seq<KnownMark>,
    kv: (Seq<char>, Seq<char>, Option<Seq<char>>),
    list: Seq<char>,
    room: Seq<char>,
) -> u64
    decreases s.len(),
{
    if s.len() == 0 {
        0
    } else if key_view(s[0].key) == kv && s[0].list@ == list && s[0].room@ == room {
        s[0].mark
    } else {
        mark_row_of(s.skip(1), kv, list, room)
    }
}

/// The connection cache: process-wide state, lock-guarded by the shell.
pub struct ConnectionCache {
    pub sticky: Vec<StickyEntry>,
    pub marks: Vec<KnownMark>,
}

impl ConnectionCache {
    pub open spec fn wf(self) -> bool {
        unique_keys(self.sticky@) && unique_marks(self.marks@)
    }

    pub open spec fn cached(self, kv: (Seq<char>, Seq<char>, Option<Seq<char>>)) -> bool {
        has_sticky(self.sticky@, kv)
    }

    pub fn new() -> (r: ConnectionCache)
        ensures
            r.wf(),
            forall|kv: (Seq<char>, Seq<char>, Option<Seq<char>>)| !r.cached(kv),
            forall|kv: (Seq<char>, Seq<char>, Option<Seq<char>>), l: Seq<char>, ro: Seq<char>|
                !has_row(r.marks@, kv, l, ro),
    {
        ConnectionCache { sticky: Vec::new(), marks: Vec::new() }
    }

    /// A brand-new connection id is never cached, whatever other connections
    /// the same user and device hold.
    pub fn exists_conn(&self, key: &ConnKey) -> (r: bool)
        ensures
            r == self.cached(key_view(*key)),
    {
        let mut i: usize = 0;
        while i < self.sticky.len()
            invariant
                0 <= i <= self.sticky@.len(),
                forall|j: int| 0 <= j < i ==> key_view(self.sticky@[j].key) != key_view(*key),
            decreases self.sticky@.len() - i,
        {
            if key_matches(&self.sticky[i].key, key) {
                return true;
            }
            i = i + 1;
        }
        false
    }

    /// Discard every trace of the connection: its sticky request and its
    /// whole known-rooms table.  A cursor of `0` always leads here.
    pub fn forget(&mut self, key: &ConnKey)
        requires
            old(self).wf(),
        ensures
            final(self).wf(),
            !final(self).cached(key_view(*key)),
            forall|kv: (Seq<char>, Seq<char>, Option<Seq<char>>)|
                kv != key_view(*key) ==> final(self).cached(kv) == old(self).cached(kv),
            forall|l: Seq<char>, ro: Seq<char>, m: u64|
                !has_mark(final(self).marks@, key_view(*key), l, ro, m),
            forall|kv: (Seq<char>, Seq<char>, Option<Seq<char>>), l: Seq<char>, ro: Seq<char>,
                m: u64|
                kv != key_view(*key) ==> has_mark(final(self).marks@, kv, l, ro, m) == has_mark(
                    old(self).marks@,
                    kv,
                    l,
                    ro,
                    m,
                ),
    {
        let ghost s0 = self.sticky@;
        let ghost m0 = self.marks@;
        let mut kept_sticky: Vec<StickyEntry> = Vec::new();
        let n = self.sticky.len();
        let mut j: usize = 0;
        while j < n
            invariant
                s0 == old(self).sticky@,
                m0 == old(self).marks@,
                n == s0.len(),
                0 <= j <= s0.len(),
                self.sticky@ == s0.skip(j as int),
                self.marks@ == m0,
                unique_keys(s0),
                unique_marks(m0),
                forall|kv: (Seq<char>, Seq<char>, Option<Seq<char>>)|
                    has_sticky(kept_sticky@, kv) <==> (kv != key_view(*key) && exists|i: int|
                        0 <= i < j && key_view(#[trigger] s0[i].key) == kv),
                forall|a: int, b: int|
                    0 <= a < b < kept_sticky@.len() ==> key_view(kept_sticky@[a].key) != key_view(
                        kept_sticky@[b].key,
                    ),
            decreases s0.len() - j,
        {
            proof {
                assert(s0.skip(j as int)[0] == s0[j as int]);
                assert(s0.skip(j as int).remove(0) =~= s0.skip(j as int + 1));
            }
            let ghost k0 = kept_sticky@;
            let e = self.sticky.remove(0);
            let keep = !key_matches(&e.key, key);
            if keep {
                kept_sticky.push(e);
            }
            proof {
                assert forall|kv: (Seq<char>, Seq<char>, Option<Seq<char>>)|
                    has_sticky(kept_sticky@, kv) <==> (kv != key_view(*key) && exists|i: int|
                        0 <= i < j + 1 && key_view(#[trigger] s0[i].key) == kv) by {
                    if has_sticky(kept_sticky@, kv) {
                        let m = choose|m: int|
                            0 <= m < kept_sticky@.len() && key_view(kept_sticky@[m].key) == kv;
                        if m < k0.len() {
                            assert(has_sticky(k0, kv));
                        } else {
                            assert(key_view(s0[j as int].key) == kv);
                        }
                    }
                    if kv != key_view(*key) && (exists|i: int|
                        0 <= i < j + 1 && key_view(s0[i].key) == kv) {
                        let i = choose|i: int| 0 <= i < j + 1 && key_view(s0[i].key) == kv;
                        if i < j {
                            assert(has_sticky(k0, kv));
                            let m = choose|m: int|
                                0 <= m < k0.len() && key_view(k0[m].key) == kv;
                            assert(key_view(kept_sticky@[m].key) == kv);
                        } else {
                            assert(keep && key_view(kept_sticky@[kept_sticky@.len() - 1].key)
                                == kv);
                        }
                    }
                }
                assert forall|a: int, b: int|
                    0 <= a < b < kept_sticky@.len() implies key_view(kept_sticky@[a].key)
                    != key_view(kept_sticky@[b].key) by {
                    if b == kept_sticky@.len() - 1 && kept_sticky@.len() > k0.len() {
                        assert(has_sticky(k0, key_view(kept_sticky@[a].key)));
                        let i = choose|i: int|
                            0 <= i < j && key_view(s0[i].key) == key_view(kept_sticky@[a].key);
                        assert(key_view(s0[i].key) != key_view(s0[j as int].key));
                    }
                }
            }
            j = j + 1;
        }
        self.sticky = kept_sticky;
        let ghost sticky1 = self.sticky@;
        proof {
            assert(forall|kv: (Seq<char>, Seq<char>, Option<Seq<char>>)|
                has_sticky(sticky1, kv) <==> (kv != key_view(*key) && has_sticky(s0, kv)));
        }
        let mut kept_marks: Vec<KnownMark> = Vec::new();
        let nm = self.marks.len();
        let mut j2: usize = 0;
        while j2 < nm
            invariant
                s0 == old(self).sticky@,
                m0 == old(self).marks@,
                self.sticky@ == sticky1,
                unique_keys(sticky1),
                forall|kv: (Seq<char>, Seq<char>, Option<Seq<char>>)|
                    has_sticky(sticky1, kv) <==> (kv != key_view(*key) && has_sticky(s0, kv)),
                nm == m0.len(),
                0 <= j2 <= m0.len(),
                self.marks@ == m0.skip(j2 as int),
                unique_marks(m0),
                forall|kv: (Seq<char>, Seq<char>, Option<Seq<char>>), l: Seq<char>, ro: Seq<char>,
                    m: u64|
                    has_mark(kept_marks@, kv, l, ro, m) <==> (kv != key_view(*key) && exists|i: int|
                        0 <= i < j2 && key_view(#[trigger] m0[i].key) == kv && m0[i].list@ == l
                            && m0[i].room@ == ro && m0[i].mark == m),
                forall|a: int, b: int|
                    0 <= a < b < kept_marks@.len() ==> !(key_view(kept_marks@[a].key) == key_view(
                        kept_marks@[b].key,
                    ) && kept_marks@[a].list@ == kept_marks@[b].list@ && kept_marks@[a].room@
                        == kept_marks@[b].room@),
            decreases m0.len() - j2,
        {
            proof {
                assert(m0.skip(j2 as int)[0] == m0[j2 as int]);
                assert(m0.skip(j2 as int).remove(0) =~= m0.skip(j2 as int + 1));
            }
            let ghost k0 = kept_marks@;
            let e = self.marks.remove(0);
            let keep = !key_matches(&e.key, key);
            if keep {
                kept_marks.push(e);
            }
            proof {
                assert forall|kv: (Seq<char>, Seq<char>, Option<Seq<char>>), l: Seq<char>,
                    ro: Seq<char>, m: u64|
                    has_mark(kept_marks@, kv, l, ro, m) <==> (kv != key_view(*key) && exists|i: int|
                        0 <= i < j2 + 1 && key_view(#[trigger] m0[i].key) == kv && m0[i].list@ == l
                            && m0[i].room@ == ro && m0[i].mark == m) by {
                    if has_mark(kept_marks@, kv, l, ro, m) {
                        let mm = choose|mm: int|
                            0 <= mm < kept_marks@.len() && key_view(kept_marks@[mm].key) == kv
                                && kept_marks@[mm].list@ == l && kept_marks@[mm].room@ == ro
                                && kept_marks@[mm].mark == m;
                        if mm < k0.len() {
                            assert(has_mark(k0, kv, l, ro, m));
                        } else {
                            assert(key_view(m0[j2 as int].key) == kv);
                        }
                    }
                    if kv != key_view(*key) && (exists|i: int|
                        0 <= i < j2 + 1 && key_view(m0[i].key) == kv && m0[i].list@ == l
                            && m0[i].room@ == ro && m0[i].mark == m) {
                        let i = choose|i: int|
                            0 <= i < j2 + 1 && key_view(m0[i].key) == kv && m0[i].list@ == l
                                && m0[i].room@ == ro && m0[i].mark == m;
                        if i < j2 {
                            assert(has_mark(k0, kv, l, ro, m));
                            let mm = choose|mm: int|
                                0 <= mm < k0.len() && key_view(k0[mm].key) == kv && k0[mm].list@
                                    == l && k0[mm].room@ == ro && k0[mm].mark == m;
                            assert(key_view(kept_marks@[mm].key) == kv);
                        } else {
                            assert(keep && key_view(kept_marks@[kept_marks@.len() - 1].key) == kv);
                        }
                    }
                }
                assert forall|a: int, b: int|
                    0 <= a < b < kept_marks@.len() implies !(key_view(kept_marks@[a].key)
                    == key_view(kept_marks@[b].key) && kept_marks@[a].list@ == kept_marks@[b].list@
                    && kept_marks@[a].room@ == kept_marks@[b].room@) by {
                    if b == kept_marks@.len() - 1 && kept_marks@.len() > k0.len() {
                        assert(has_mark(
                            k0,
                            key_view(kept_marks@[a].key),
                            kept_marks@[a].list@,
                            kept_marks@[a].room@,
                            kept_marks@[a].mark,
                        ));
                        let i = choose|i: int|
                            0 <= i < j2 && key_view(m0[i].key) == key_view(kept_marks@[a].key)
                                && m0[i].list@ == kept_marks@[a].list@ && m0[i].room@
                                == kept_marks@[a].room@ && m0[i].mark == kept_marks@[a].mark;
                        assert(!(key_view(m0[i].key) == key_view(m0[j2 as int].key) && m0[i].list@
                            == m0[j2 as int].list@ && m0[i].room@ == m0[j2 as int].room@));
                    }
                }
            }
            j2 = j2 + 1;
        }
        self.marks = kept_marks;
    }
}

impl ConnectionCache {
    /// Take the cached sticky request out for merging; the caller stores the
    /// merged request back with [`ConnectionCache::put_sticky`].
    pub fn take_sticky(&mut self, key: &ConnKey) -> (r: Option<SyncRequest>)
        requires
            old(self).wf(),
        ensures
            final(self).wf(),
            final(self).marks@ == old(self).marks@,
            !final(self).cached(key_view(*key)),
            forall|kv: (Seq<char>, Seq<char>, Option<Seq<char>>)|
                kv != key_view(*key) ==> final(self).cached(kv) == old(self).cached(kv),
            r is None ==> !old(self).cached(key_view(*key)),
            r matches Some(req) ==> exists|i: int|
                0 <= i < old(self).sticky@.len() && key_view(#[trigger] old(self).sticky@[i].key)
                    == key_view(*key) && old(self).sticky@[i].request == req,
    {
        let ghost s0 = self.sticky@;
        let mut i: usize = 0;
        while i < self.sticky.len()
            invariant
                s0 == old(self).sticky@,
                self.sticky@ == s0,
                self.marks@ == old(self).marks@,
                unique_keys(s0),
                unique_marks(self.marks@),
                0 <= i <= s0.len(),
                forall|j: int| 0 <= j < i ==> key_view(s0[j].key) != key_view(*key),
            decreases s0.len() - i,
        {
            if key_matches(&self.sticky[i].key, key) {
                let e = self.sticky.remove(i);
                proof {
                    let s1 = self.sticky@;
                    assert(s1 =~= s0.remove(i as int));
                    assert forall|kv: (Seq<char>, Seq<char>, Option<Seq<char>>)|
                        kv != key_view(*key) implies has_sticky(s1, kv) == has_sticky(s0, kv) by {
                        if has_sticky(s0, kv) {
                            let m = choose|m: int|
                                0 <= m < s0.len() && key_view(s0[m].key) == kv;
                            assert(m != i as int);
                            let m1 = if m < i as int {
                                m
                            } else {
                                m - 1
                            };
                            assert(s1[m1] == s0[m]);
                        }
                        if has_sticky(s1, kv) {
                            let m = choose|m: int|
                                0 <= m < s1.len() && key_view(s1[m].key) == kv;
                            let m0i = if m < i as int {
                                m
                            } else {
                                m + 1
                            };
                            assert(s1[m] == s0[m0i]);
                        }
                    }
                    assert forall|kv: (Seq<char>, Seq<char>, Option<Seq<char>>)|
                        !has_sticky(s1, kv) || kv != key_view(*key) by {
                        if has_sticky(s1, kv) && kv == key_view(*key) {
                            let m = choose|m: int|
                                0 <= m < s1.len() && key_view(s1[m].key) == kv;
                            let m0i = if m < i as int {
                                m
                            } else {
                                m + 1
                            };
                            assert(s1[m] == s0[m0i]);
                            assert(key_view(s0[m0i].key) != key_view(s0[i as int].key));
                        }
                    }
                    assert forall|a: int, b: int|
                        0 <= a < b < s1.len() implies key_view(s1[a].key) != key_view(
                        s1[b].key,
                    ) by {
                        let a0 = if a < i as int {
                            a
                        } else {
                            a + 1
                        };
                        let b0 = if b < i as int {
                            b
                        } else {
                            b + 1
                        };
                        assert(s1[a] == s0[a0] && s1[b] == s0[b0]);
                    }
                }
                return Some(e.request);
            }
            i = i + 1;
        }
        None
    }

    /// Store the merged request as the connection's sticky state.
    pub fn put_sticky(&mut self, key: ConnKey, request: SyncRequest)
        requires
            old(self).wf(),
            !old(self).cached(key_view(key)),
        ensures
            final(self).wf(),
            final(self).marks@ == old(self).marks@,
            final(self).cached(key_view(key)),
            forall|kv: (Seq<char>, Seq<char>, Option<Seq<char>>)|
                kv != key_view(key) ==> final(self).cached(kv) == old(self).cached(kv),
    {
        let ghost s0 = self.sticky@;
        let ghost kv0 = key_view(key);
        self.sticky.push(StickyEntry { key, request });
        proof {
            let s1 = self.sticky@;
            assert(key_view(s1[s1.len() - 1].key) == kv0);
            assert forall|kv: (Seq<char>, Seq<char>, Option<Seq<char>>)|
                kv != kv0 implies has_sticky(s1, kv) == has_sticky(s0, kv) by {
                if has_sticky(s1, kv) {
                    let m = choose|m: int| 0 <= m < s1.len() && key_view(s1[m].key) == kv;
                    assert(m < s0.len() && s1[m] == s0[m]);
                }
                if has_sticky(s0, kv) {
                    let m = choose|m: int| 0 <= m < s0.len() && key_view(s0[m].key) == kv;
                    assert(key_view(s1[m].key) == kv);
                }
            }
            assert forall|a: int, b: int|
                0 <= a < b < s1.len() implies key_view(s1[a].key) != key_view(s1[b].key) by {
                if b == s1.len() - 1 {
                    assert(key_view(s0[a].key) == key_view(s1[a].key));
                    assert(has_sticky(s0, key_view(s1[a].key)));
                } else {
                    assert(key_view(s0[a].key) != key_view(s0[b].key));
                }
            }
        }
    }

    /// The watermark one list last recorded for one room, `0` ("unknown,
    /// resend everything") when the table holds none.
    pub fn get_known_mark(&self, key: &ConnKey, list: &String, room: &String) -> (r: u64)
        requires
            self.wf(),
        ensures
            r == mark_row_of(self.marks@, key_view(*key), list@, room@),
            has_mark(self.marks@, key_view(*key), list@, room@, r) || (r == 0 && !has_row(
                self.marks@,
                key_view(*key),
                list@,
                room@,
            )),
    {
        let mut i: usize = 0;
        proof {
            assert(self.marks@.skip(0) =~= self.marks@);
        }
        while i < self.marks.len()
            invariant
                0 <= i <= self.marks@.len(),
                mark_row_of(self.marks@, key_view(*key), list@, room@) == mark_row_of(
                    self.marks@.skip(i as int),
                    key_view(*key),
                    list@,
                    room@,
                ),
                forall|j: int|
                    0 <= j < i ==> !(key_view(self.marks@[j].key) == key_view(*key)
                        && self.marks@[j].list@ == list@ && self.marks@[j].room@ == room@),
            decreases self.marks@.len() - i,
        {
            proof {
                assert(self.marks@.skip(i as int)[0] == self.marks@[i as int]);
                assert(self.marks@.skip(i as int).skip(1) =~= self.marks@.skip(i as int + 1));
            }
            if key_matches(&self.marks[i].key, key) && self.marks[i].list.eq(list)
                && self.marks[i].room.eq(room) {
                return self.marks[i].mark;
            }
            i = i + 1;
        }
        0
    }

    /// Record the set of rooms a list now covers, at the given watermark:
    /// the list's previous rows are dropped and one row per covered room is
    /// written.
    pub fn update_known_rooms(&mut self, key: &ConnKey, list: &String, rooms: &Vec<String>, mark: u64)
        requires
            old(self).wf(),
        ensures
            final(self).wf(),
            final(self).sticky@ == old(self).sticky@,
            forall|ro: Seq<char>, m: u64|
                has_mark(final(self).marks@, key_view(*key), list@, ro, m) <==> (seq_has(rooms@, ro)
                    && m == mark),
            forall|kv: (Seq<char>, Seq<char>, Option<Seq<char>>), l: Seq<char>, ro: Seq<char>,
                m: u64|
                !(kv == key_view(*key) && l == list@) ==> has_mark(final(self).marks@, kv, l, ro, m)
                    == has_mark(old(self).marks@, kv, l, ro, m),
    {
        let ghost m0 = self.marks@;
        let mut kept: Vec<KnownMark> = Vec::new();
        let n = self.marks.len();
        let mut j: usize = 0;
        while j < n
            invariant
                m0 == old(self).marks@,
                n == m0.len(),
                0 <= j <= m0.len(),
                self.marks@ == m0.skip(j as int),
                self.sticky@ == old(self).sticky@,
                unique_keys(self.sticky@),
                unique_marks(m0),
                forall|kv: (Seq<char>, Seq<char>, Option<Seq<char>>), l: Seq<char>, ro: Seq<char>,
                    m: u64|
                    has_mark(kept@, kv, l, ro, m) <==> (!(kv == key_view(*key) && l == list@) && (
                    exists|i: int|
                        0 <= i < j && key_view(#[trigger] m0[i].key) == kv && m0[i].list@ == l
                            && m0[i].room@ == ro && m0[i].mark == m)),
                forall|a: int, b: int|
                    0 <= a < b < kept@.len() ==> !(key_view(kept@[a].key) == key_view(kept@[b].key)
                        && kept@[a].list@ == kept@[b].list@ && kept@[a].room@ == kept@[b].room@),
            decreases m0.len() - j,
        {
            proof {
                assert(m0.skip(j as int)[0] == m0[j as int]);
                assert(m0.skip(j as int).remove(0) =~= m0.skip(j as int + 1));
            }
            let ghost k0 = kept@;
            let e = self.marks.remove(0);
            let keep = !(key_matches(&e.key, key) && e.list.eq(list));
            if keep {
                kept.push(e);
            }
            proof {
                assert forall|kv: (Seq<char>, Seq<char>, Option<Seq<char>>), l: Seq<char>,
                    ro: Seq<char>, m: u64|
                    has_mark(kept@, kv, l, ro, m) <==> (!(kv == key_view(*key) && l == list@) && (
                    exists|i: int|
                        0 <= i < j + 1 && key_view(#[trigger] m0[i].key) == kv && m0[i].list@ == l
                            && m0[i].room@ == ro && m0[i].mark == m)) by {
                    if has_mark(kept@, kv, l, ro, m) {
                        let mm = choose|mm: int|
                            0 <= mm < kept@.len() && key_view(kept@[mm].key) == kv && kept@[mm].list@
                                == l && kept@[mm].room@ == ro && kept@[mm].mark == m;
                        if mm < k0.len() {
                            assert(has_mark(k0, kv, l, ro, m));
                        } else {
                            assert(key_view(m0[j as int].key) == kv);
                        }
                    }
                    if !(kv == key_view(*key) && l == list@) && (exists|i: int|
                        0 <= i < j + 1 && key_view(m0[i].key) == kv && m0[i].list@ == l
                            && m0[i].room@ == ro && m0[i].mark == m) {
                        let i = choose|i: int|
                            0 <= i < j + 1 && key_view(m0[i].key) == kv && m0[i].list@ == l
                                && m0[i].room@ == ro && m0[i].mark == m;
                        if i < j {
                            assert(has_mark(k0, kv, l, ro, m));
                            let mm = choose|mm: int|
                                0 <= mm < k0.len() && key_view(k0[mm].key) == kv && k0[mm].list@
                                    == l && k0[mm].room@ == ro && k0[mm].mark == m;
                            assert(key_view(kept@[mm].key) == kv);
                        } else {
                            assert(keep && key_view(kept@[kept@.len() - 1].key) == kv);
                        }
                    }
                }
                assert forall|a: int, b: int|
                    0 <= a < b < kept@.len() implies !(key_view(kept@[a].key) == key_view(
                    kept@[b].key,
                ) && kept@[a].list@ == kept@[b].list@ && kept@[a].room@ == kept@[b].room@) by {
                    if b == kept@.len() - 1 && kept@.len() > k0.len() {
                        assert(has_mark(
                            k0,
                            key_view(kept@[a].key),
                            kept@[a].list@,
                            kept@[a].room@,
                            kept@[a].mark,
                        ));
                        let i = choose|i: int|
                            0 <= i < j && key_view(m0[i].key) == key_view(kept@[a].key)
                                && m0[i].list@ == kept@[a].list@ && m0[i].room@ == kept@[a].room@
                                && m0[i].mark == kept@[a].mark;
                        assert(!(key_view(m0[i].key) == key_view(m0[j as int].key) && m0[i].list@
                            == m0[j as int].list@ && m0[i].room@ == m0[j as int].room@));
                    }
                }
            }
            j = j + 1;
        }
        let ghost base = kept@;
        let mut j2: usize = 0;
        while j2 < rooms.len()
            invariant
                m0 == old(self).marks@,
                self.sticky@ == old(self).sticky@,
                unique_keys(self.sticky@),
                forall|kv: (Seq<char>, Seq<char>, Option<Seq<char>>), l: Seq<char>, ro: Seq<char>,
                    m: u64|
                    has_mark(base, kv, l, ro, m) <==> (!(kv == key_view(*key) && l == list@)
                        && has_mark(m0, kv, l, ro, m)),
                forall|kv: (Seq<char>, Seq<char>, Option<Seq<char>>), l: Seq<char>, ro: Seq<char>,
                    m: u64|
                    !(kv == key_view(*key) && l == list@) ==> (has_mark(kept@, kv, l, ro, m)
                        == has_mark(base, kv, l, ro, m)),
                forall|ro: Seq<char>, m: u64| !has_mark(base, key_view(*key), list@, ro, m),
                0 <= j2 <= rooms@.len(),
                forall|ro: Seq<char>, m: u64|
                    has_mark(kept@, key_view(*key), list@, ro, m) <==> ((exists|i: int|
                        0 <= i < j2 && #[trigger] rooms@[i]@ == ro) && m == mark),
                forall|a: int, b: int|
                    0 <= a < b < kept@.len() ==> !(key_view(kept@[a].key) == key_view(kept@[b].key)
                        && kept@[a].list@ == kept@[b].list@ && kept@[a].room@ == kept@[b].room@),
            decreases rooms@.len() - j2,
        {
            let ghost k0 = kept@;
            let room = &rooms[j2];
            let mut present = false;
            let mut i: usize = 0;
            while i < kept.len()
                invariant
                    kept@ == k0,
                    0 <= i <= k0.len(),
                    forall|ro: Seq<char>, m: u64|
                        has_mark(k0, key_view(*key), list@, ro, m) ==> m == mark,
                    present ==> has_mark(k0, key_view(*key), list@, room@, mark),
                    !present ==> forall|j3: int|
                        0 <= j3 < i ==> !(key_view(k0[j3].key) == key_view(*key) && k0[j3].list@
                            == list@ && k0[j3].room@ == room@),
                decreases k0.len() - i,
            {
                if !present && key_matches(&kept[i].key, key) && kept[i].list.eq(list)
                    && kept[i].room.eq(room) {
                    proof {
                        assert(has_mark(k0, key_view(*key), list@, room@, k0[i as int].mark));
                    }
                    present = true;
                }
                i = i + 1;
            }
            if !present {
                kept.push(
                    KnownMark {
                        key: ConnKey {
                            user: key.user.clone(),
                            device: key.device.clone(),
                            conn_id: match &key.conn_id {
                                Some(c) => Some(c.clone()),
                                None => None,
                            },
                        },
                        list: list.clone(),
                        room: room.clone(),
                        mark,
                    },
                );
                proof {
                    assert(key_view(kept@[kept@.len() - 1].key) == key_view(*key));
                    assert(kept@[kept@.len() - 1].list@ == list@ && kept@[kept@.len() - 1].room@
                        == room@ && kept@[kept@.len() - 1].mark == mark);
                }
            }
            proof {
                assert forall|kv: (Seq<char>, Seq<char>, Option<Seq<char>>), l: Seq<char>,
                    ro: Seq<char>, m: u64|
                    !(kv == key_view(*key) && l == list@) implies (has_mark(kept@, kv, l, ro, m)
                    == has_mark(base, kv, l, ro, m)) by {
                    if has_mark(kept@, kv, l, ro, m) {
                        let mm = choose|mm: int|
                            0 <= mm < kept@.len() && key_view(kept@[mm].key) == kv && kept@[mm].list@
                                == l && kept@[mm].room@ == ro && kept@[mm].mark == m;
                        if mm < k0.len() {
                            assert(has_mark(k0, kv, l, ro, m));
                        }
                    }
                    if has_mark(base, kv, l, ro, m) {
                        assert(has_mark(k0, kv, l, ro, m));
                        let mm = choose|mm: int|
                            0 <= mm < k0.len() && key_view(k0[mm].key) == kv && k0[mm].list@ == l
                                && k0[mm].room@ == ro && k0[mm].mark == m;
                        assert(key_view(kept@[mm].key) == kv);
                    }
                }
                assert forall|ro: Seq<char>, m: u64|
                    has_mark(kept@, key_view(*key), list@, ro, m) <==> ((exists|i2: int|
                        0 <= i2 < j2 + 1 && #[trigger] rooms@[i2]@ == ro) && m == mark) by {
                    if has_mark(kept@, key_view(*key), list@, ro, m) {
                        let mm = choose|mm: int|
                            0 <= mm < kept@.len() && key_view(kept@[mm].key) == key_view(*key)
                                && kept@[mm].list@ == list@ && kept@[mm].room@ == ro && kept@[mm].mark
                                == m;
                        if mm < k0.len() {
                            assert(has_mark(k0, key_view(*key), list@, ro, m));
                        } else {
                            assert(ro == room@ && m == mark);
                            assert(rooms@[j2 as int]@ == ro);
                        }
                    }
                    if (exists|i2: int| 0 <= i2 < j2 + 1 && rooms@[i2]@ == ro) && m == mark {
                        let i2 = choose|i2: int| 0 <= i2 < j2 + 1 && rooms@[i2]@ == ro;
                        if i2 < j2 {
                            assert(has_mark(k0, key_view(*key), list@, ro, m));
                            let mm = choose|mm: int|
                                0 <= mm < k0.len() && key_view(k0[mm].key) == key_view(*key)
                                    && k0[mm].list@ == list@ && k0[mm].room@ == ro && k0[mm].mark
                                    == m;
                            assert(key_view(kept@[mm].key) == key_view(*key));
                        } else {
                            assert(ro == room@);
                            if present {
                                assert(has_mark(k0, key_view(*key), list@, room@, mark));
                                let mm = choose|mm: int|
                                    0 <= mm < k0.len() && key_view(k0[mm].key) == key_view(*key)
                                        && k0[mm].list@ == list@ && k0[mm].room@ == room@
                                        && k0[mm].mark == mark;
                                assert(key_view(kept@[mm].key) == key_view(*key));
                            } else {
                                assert(key_view(kept@[kept@.len() - 1].key) == key_view(*key));
                            }
                        }
                    }
                }
                assert forall|a: int, b: int|
                    0 <= a < b < kept@.len() implies !(key_view(kept@[a].key) == key_view(
                    kept@[b].key,
                ) && kept@[a].list@ == kept@[b].list@ && kept@[a].room@ == kept@[b].room@) by {
                    if b == kept@.len() - 1 && kept@.len() > k0.len() {
                        if key_view(kept@[a].key) == key_view(*key) && kept@[a].list@ == list@
                            && kept@[a].room@ == room@ {
                            assert(has_mark(k0, key_view(*key), list@, room@, kept@[a].mark));
                        }
                    }
                }
            }
            j2 = j2 + 1;
        }
        self.marks = kept;
    }
}

/// Merge a request over the cached sticky one: fields present in the new
/// request overwrite the cached values, absent fields inherit them.
pub fn merge_requests(cached: Option<SyncRequest>, new: SyncRequest) -> (r: SyncRequest)
    ensures
        cached is None ==> r == new,
        cached matches Some(c) ==> {
            &&& r.txn_id == new.txn_id
            &&& r.pos == new.pos
            &&& r.conn_id == new.conn_id
            &&& r.timeout == (if new.timeout is Some {
                new.timeout
            } else {
                c.timeout
            })
            &&& r.lists == (if new.lists@.len() > 0 {
                new.lists
            } else {
                c.lists
            })
            &&& r.subscriptions == (if new.subscriptions@.len() > 0 {
                new.subscriptions
            } else {
                c.subscriptions
            })
            &&& r.extensions.account_data_enabled == (if new.extensions.account_data_enabled
                is Some {
                new.extensions.account_data_enabled
            } else {
                c.extensions.account_data_enabled
            })
            &&& r.extensions.account_data_rooms == (if new.extensions.account_data_rooms is Some {
                new.extensions.account_data_rooms
            } else {
                c.extensions.account_data_rooms
            })
            &&& r.extensions.e2ee_enabled == (if new.extensions.e2ee_enabled is Some {
                new.extensions.e2ee_enabled
            } else {
                c.extensions.e2ee_enabled
            })
            &&& r.extensions.to_device_enabled == (if new.extensions.to_device_enabled is Some {
                new.extensions.to_device_enabled
            } else {
                c.extensions.to_device_enabled
            })
            &&& r.extensions.receipts_enabled == (if new.extensions.receipts_enabled is Some {
                new.extensions.receipts_enabled
            } else {
                c.extensions.receipts_enabled
            })
            &&& r.extensions.typing_enabled == (if new.extensions.typing_enabled is Some {
                new.extensions.typing_enabled
            } else {
                c.extensions.typing_enabled
            })
            &&& r.extensions.typing_rooms == (if new.extensions.typing_rooms is Some {
                new.extensions.typing_rooms
            } else {
                c.extensions.typing_rooms
            })
            &&& r.extensions.typing_lists == (if new.extensions.typing_lists is Some {
                new.extensions.typing_lists
            } else {
                c.extensions.typing_lists
            })
        },
{
    match cached {
        None => new,
        Some(c) => {
            let timeout = if new.timeout.is_some() {
                new.timeout
            } else {
                c.timeout
            };
            let lists = if new.lists.len() > 0 {
                new.lists
            } else {
                c.lists
            };
            let subscriptions = if new.subscriptions.len() > 0 {
                new.subscriptions
            } else {
                c.subscriptions
            };
            let ne = new.extensions;
            let ce = c.extensions;
            let extensions = ExtensionsConfig {
                account_data_enabled: if ne.account_data_enabled.is_some() {
                    ne.account_data_enabled
                } else {
                    ce.account_data_enabled
                },
                account_data_rooms: if ne.account_data_rooms.is_some() {
                    ne.account_data_rooms
                } else {
                    ce.account_data_rooms
                },
                e2ee_enabled: if ne.e2ee_enabled.is_some() {
                    ne.e2ee_enabled
                } else {
                    ce.e2ee_enabled
                },
                to_device_enabled: if ne.to_device_enabled.is_some() {
                    ne.to_device_enabled
                } else {
                    ce.to_device_enabled
                },
                receipts_enabled: if ne.receipts_enabled.is_some() {
                    ne.receipts_enabled
                } else {
                    ce.receipts_enabled
                },
                typing_enabled: if ne.typing_enabled.is_some() {
                    ne.typing_enabled
                } else {
                    ce.typing_enabled
                },
                typing_rooms: if ne.typing_rooms.is_some() {
                    ne.typing_rooms
                } else {
                    ce.typing_rooms
                },
                typing_lists: if ne.typing_lists.is_some() {
                    ne.typing_lists
                } else {
                    ce.typing_lists
                },
            };
            SyncRequest {
                txn_id: new.txn_id,
                pos: new.pos,
                conn_id: new.conn_id,
                timeout,
                lists,
                subscriptions,
                extensions,
            }
        },
    }
}

} // verus!
