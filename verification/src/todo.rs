//! The per-request to-do table: for every room covered by a list window or a
//! subscription, the union of required state keys, the largest requested
//! timeline limit, and the most conservative (smallest) watermark.

use vstd::prelude::*;

verus! {

/// One requirement accumulator.
pub struct TodoRoom {
    pub room: String,
    pub required_state: Vec<(String, String)>,
    pub limit: u64,
    pub mark: u64,
}

pub struct TodoTable {
    pub rooms: Vec<TodoRoom>,
}

/// The first entry for a room, if the table holds one.
pub open spec fn entry_of(s: Seq<TodoRoom>, room: Seq<char>) -> Option<TodoRoom>
    decreases s.len(),
{
    if s.len() == 0 {
        None
    } else if s[0].room@ == room {
        Some(s[0])
    } else {
        entry_of(s.skip(1), room)
    }
}

/// A (type, state key) pair stands in a requirement list.
pub open spec fn pair_in(rs: Seq<(String, String)>, t: Seq<char>, k: Seq<char>) -> bool {
    exists|i: int| 0 <= i < rs.len() && rs[i].0@ == t && rs[i].1@ == k
}

pub open spec fn unique_todo_rooms(s: Seq<TodoRoom>) -> bool {
    forall|i: int, j: int| 0 <= i < j < s.len() ==> s[i].room@ != s[j].room@
}

/// The pair stands among the first `j` requested pairs.
pub open spec fn pair_before(rs: Seq<(String, String)>, t: Seq<char>, k: Seq<char>, j: int) -> bool {
    exists|m: int| 0 <= m < j && rs[m].0@ == t && rs[m].1@ == k
}

proof fn lemma_entry_of_index(s: Seq<TodoRoom>, i: int, room: Seq<char>)
    requires
        0 <= i < s.len(),
        s[i].room@ == room,
        forall|j: int| 0 <= j < s.len() && j != i ==> s[j].room@ != s[i].room@,
    ensures
        entry_of(s, room) == Some(s[i]),
    decreases s.len(),
{
    if i == 0 {
    } else {
        assert(s.skip(1)[i - 1] == s[i]);
        assert(forall|j: int|
            0 <= j < s.skip(1).len() ==> s.skip(1)[j] == s[j + 1]);
        lemma_entry_of_index(s.skip(1), i - 1, room);
    }
}

proof fn lemma_entry_of_absent(s: Seq<TodoRoom>, room: Seq<char>)
    requires
        forall|j: int| 0 <= j < s.len() ==> s[j].room@ != room,
    ensures
        entry_of(s, room) is None,
    decreases s.len(),
{
    if s.len() > 0 {
        assert(forall|j: int|
            0 <= j < s.skip(1).len() ==> s.skip(1)[j] == s[j + 1]);
        lemma_entry_of_absent(s.skip(1), room);
    }
}

proof fn lemma_entry_of_update(s: Seq<TodoRoom>, i: int, e: TodoRoom, room: Seq<char>)
    requires
        0 <= i < s.len(),
        e.room@ == s[i].room@,
        forall|j: int| 0 <= j < s.len() && j != i ==> s[j].room@ != s[i].room@,
    ensures
        entry_of(s.update(i, e), room) == if room == s[i].room@ {
            Some(e)
        } else {
            entry_of(s, room)
        },
    decreases s.len(),
{
    let s2 = s.update(i, e);
    if i == 0 {
        assert(s2.skip(1) =~= s.skip(1));
    } else {
        assert(s2[0] == s[0]);
        assert(s2.skip(1) =~= s.skip(1).update(i - 1, e));
        lemma_entry_of_update(s.skip(1), i - 1, e, room);
    }
}

proof fn lemma_entry_of_push(s: Seq<TodoRoom>, e: TodoRoom, room: Seq<char>)
    requires
        forall|j: int| 0 <= j < s.len() ==> s[j].room@ != e.room@,
    ensures
        entry_of(s.push(e), room) == if room == e.room@ {
            Some(e)
        } else {
            entry_of(s, room)
        },
    decreases s.len(),
{
    reveal_with_fuel(entry_of, 3);
    if s.len() == 0 {
        assert(s.push(e)[0] == e);
        assert(s.push(e).skip(1) =~= Seq::<TodoRoom>::empty());
    } else {
        assert(s.push(e)[0] == s[0]);
        assert(s.push(e).skip(1) =~= s.skip(1).push(e));
        assert(forall|j: int| 0 <= j < s.skip(1).len() ==> s.skip(1)[j] == s[j + 1]);
        lemma_entry_of_push(s.skip(1), e, room);
    }
}

impl TodoTable {
    pub open spec fn wf(self) -> bool {
        unique_todo_rooms(self.rooms@)
    }

    pub open spec fn entry(self, room: Seq<char>) -> Option<TodoRoom> {
        entry_of(self.rooms@, room)
    }

    /// The merged timeline limit: `0` before any requirement is recorded.
    pub open spec fn limit_of(self, room: Seq<char>) -> u64 {
        match self.entry(room) {
            Some(e) => e.limit,
            None => 0,
        }
    }

    /// The merged watermark: most conservative wins, starting from the top.
    pub open spec fn mark_of(self, room: Seq<char>) -> u64 {
        match self.entry(room) {
            Some(e) => e.mark,
            None => u64::MAX,
        }
    }

    pub open spec fn has_pair(self, room: Seq<char>, t: Seq<char>, k: Seq<char>) -> bool {
        match self.entry(room) {
            Some(e) => pair_in(e.required_state@, t, k),
            None => false,
        }
    }

    pub fn new() -> (r: TodoTable)
        ensures
            r.wf(),
            forall|room: Seq<char>| r.entry(room) is None,
            r.rooms@.len() == 0,
    {
        TodoTable { rooms: Vec::new() }
    }

    fn find_room(&self, room: &String) -> (r: (bool, usize))
        ensures
            r.0 ==> r.1 < self.rooms@.len() && self.rooms@[r.1 as int].room@ == room@,
            !r.0 ==> forall|j: int| 0 <= j < self.rooms@.len() ==> self.rooms@[j].room@ != room@,
    {
        let mut i: usize = 0;
        while i < self.rooms.len()
            invariant
                0 <= i <= self.rooms@.len(),
                forall|j: int| 0 <= j < i ==> self.rooms@[j].room@ != room@,
            decreases self.rooms@.len() - i,
        {
            if self.rooms[i].room.eq(room) {
                return (true, i);
            }
            i = i + 1;
        }
        (false, 0)
    }

    /// Merge one requirement: union the state keys, keep the largest limit
    /// and the smallest watermark; rooms merge independently.
    pub fn merge(
        &mut self,
        room: &String,
        required_state: &Vec<(String, String)>,
        limit: u64,
        mark: u64,
    )
        requires
            old(self).wf(),
        ensures
            final(self).wf(),
            final(self).entry(room@) is Some,
            final(self).limit_of(room@) == if old(self).limit_of(room@) >= limit {
                old(self).limit_of(room@)
            } else {
                limit
            },
            final(self).mark_of(room@) == if old(self).mark_of(room@) <= mark {
                old(self).mark_of(room@)
            } else {
                mark
            },
            forall|t: Seq<char>, k: Seq<char>| #![trigger final(self).has_pair(room@, t, k)]
                final(self).has_pair(room@, t, k) <==> (old(self).has_pair(room@, t, k) || pair_in(
                    required_state@,
                    t,
                    k,
                )),
            forall|r: Seq<char>| r != room@ ==> final(self).entry(r) == old(self).entry(r),
    {
        let ghost s0 = self.rooms@;
        let (found, i) = self.find_room(room);
        if found {
            let mut e = self.rooms.remove(i);
            let ghost e0 = e;
            if limit > e.limit {
                e.limit = limit;
            }
            if mark < e.mark {
                e.mark = mark;
            }
            let mut j: usize = 0;
            while j < required_state.len()
                invariant
                    0 <= j <= required_state@.len(),
                    e.room@ == e0.room@,
                    e.limit == if e0.limit >= limit {
                        e0.limit
                    } else {
                        limit
                    },
                    e.mark == if e0.mark <= mark {
                        e0.mark
                    } else {
                        mark
                    },
                    forall|t: Seq<char>, k: Seq<char>|
                        pair_in(e.required_state@, t, k) <==> (pair_in(e0.required_state@, t, k)
                            || pair_before(required_state@, t, k, j as int)),
                decreases required_state@.len() - j,
            {
                let ghost rs0 = e.required_state@;
                let p = &required_state[j];
                if !pair_present(&e.required_state, p) {
                    e.required_state.push((p.0.clone(), p.1.clone()));
                }
                proof {
                    assert forall|t: Seq<char>, k: Seq<char>|
                        pair_in(e.required_state@, t, k) <==> (pair_in(e0.required_state@, t, k)
                            || pair_before(required_state@, t, k, j as int + 1)) by {
                        if pair_in(e.required_state@, t, k) {
                            let m = choose|m: int|
                                0 <= m < e.required_state@.len() && e.required_state@[m].0@ == t
                                    && e.required_state@[m].1@ == k;
                            if m < rs0.len() {
                                assert(rs0[m].0@ == t && rs0[m].1@ == k);
                            } else {
                                assert(required_state@[j as int].0@ == t && required_state@[
                                j as int].1@ == k);
                            }
                        }
                        if pair_in(e0.required_state@, t, k) || pair_before(
                            required_state@,
                            t,
                            k,
                            j as int + 1,
                        ) {
                            if pair_in(rs0, t, k) {
                                let m = choose|m: int|
                                    0 <= m < rs0.len() && rs0[m].0@ == t && rs0[m].1@ == k;
                                assert(e.required_state@[m].0@ == t && e.required_state@[m].1@
                                    == k);
                            } else {
                                if pair_before(required_state@, t, k, j as int + 1) && !pair_before(
                                    required_state@,
                                    t,
                                    k,
                                    j as int,
                                ) {
                                    let m = choose|m: int|
                                        0 <= m < j + 1 && required_state@[m].0@ == t
                                            && required_state@[m].1@ == k;
                                    assert(m == j as int);
                                }
                                assert(required_state@[j as int].0@ == t && required_state@[
                                j as int].1@ == k);
                                assert(e.required_state@[e.required_state@.len() - 1].0@ == t
                                    && e.required_state@[e.required_state@.len() - 1].1@ == k);
                            }
                        }
                    }
                }
                j = j + 1;
            }
            self.rooms.insert(i, e);
            proof {
                assert(self.rooms@ =~= s0.update(i as int, e));
                lemma_entry_of_update(s0, i as int, e, room@);
                assert forall|r: Seq<char>| r != room@ implies entry_of(
                    s0.update(i as int, e),
                    r,
                ) == entry_of(s0, r) by {
                    lemma_entry_of_update(s0, i as int, e, r);
                }
                assert forall|a: int, b: int|
                    0 <= a < b < self.rooms@.len() implies self.rooms@[a].room@
                    != self.rooms@[b].room@ by {
                    assert(s0[a].room@ != s0[b].room@);
                }
                lemma_entry_of_index(s0, i as int, room@);
                assert(entry_of(s0, room@) == Some(e0));
            }
        } else {
            let mut rs: Vec<(String, String)> = Vec::new();
            let mut j: usize = 0;
            while j < required_state.len()
                invariant
                    0 <= j <= required_state@.len(),
                    forall|t: Seq<char>, k: Seq<char>|
                        pair_in(rs@, t, k) <==> pair_before(required_state@, t, k, j as int),
                decreases required_state@.len() - j,
            {
                let ghost rs0 = rs@;
                let p = &required_state[j];
                if !pair_present(&rs, p) {
                    rs.push((p.0.clone(), p.1.clone()));
                }
                proof {
                    assert forall|t: Seq<char>, k: Seq<char>|
                        pair_in(rs@, t, k) <==> pair_before(required_state@, t, k, j as int
                            + 1) by {
                        if pair_in(rs@, t, k) {
                            let m = choose|m: int|
                                0 <= m < rs@.len() && rs@[m].0@ == t && rs@[m].1@ == k;
                            if m < rs0.len() {
                                assert(rs0[m].0@ == t && rs0[m].1@ == k);
                                assert(pair_in(rs0, t, k));
                                assert(pair_before(required_state@, t, k, j as int));
                                let mm = choose|mm: int|
                                    0 <= mm < j && required_state@[mm].0@ == t
                                        && required_state@[mm].1@ == k;
                                assert(0 <= mm < j + 1 && required_state@[mm].0@ == t
                                    && required_state@[mm].1@ == k);
                            } else {
                                assert(required_state@[j as int].0@ == t && required_state@[
                                j as int].1@ == k);
                            }
                        }
                        if pair_before(required_state@, t, k, j as int + 1) {
                            if pair_before(required_state@, t, k, j as int) {
                                assert(pair_in(rs0, t, k));
                                let m = choose|m: int|
                                    0 <= m < rs0.len() && rs0[m].0@ == t && rs0[m].1@ == k;
                                assert(rs@[m].0@ == t && rs@[m].1@ == k);
                            } else {
                                let m = choose|m: int|
                                    0 <= m < j + 1 && required_state@[m].0@ == t
                                        && required_state@[m].1@ == k;
                                assert(m == j as int);
                                if !pair_in(rs0, t, k) {
                                    assert(rs@[rs@.len() - 1].0@ == t && rs@[rs@.len() - 1].1@
                                        == k);
                                } else {
                                    let m2 = choose|m2: int|
                                        0 <= m2 < rs0.len() && rs0[m2].0@ == t && rs0[m2].1@ == k;
                                    assert(rs@[m2].0@ == t && rs@[m2].1@ == k);
                                }
                            }
                        }
                    }
                }
                j = j + 1;
            }
            let e = TodoRoom { room: room.clone(), required_state: rs, limit, mark };
            self.rooms.push(e);
            proof {
                lemma_entry_of_push(s0, e, room@);
                assert forall|r: Seq<char>| r != room@ implies entry_of(s0.push(e), r) == entry_of(
                    s0,
                    r,
                ) by {
                    lemma_entry_of_push(s0, e, r);
                }
                assert forall|a: int, b: int|
                    0 <= a < b < self.rooms@.len() implies self.rooms@[a].room@
                    != self.rooms@[b].room@ by {
                    if b < s0.len() {
                        assert(s0[a].room@ != s0[b].room@);
                    }
                }
                lemma_entry_of_absent(s0, room@);
            }
        }
    }
}

/// Whether a requirement list holds the pair already.
fn pair_present(rs: &Vec<(String, String)>, p: &(String, String)) -> (r: bool)
    ensures
        r == pair_in(rs@, p.0@, p.1@),
{
    let mut i: usize = 0;
    while i < rs.len()
        invariant
            0 <= i <= rs@.len(),
            forall|j: int| 0 <= j < i ==> !(rs@[j].0@ == p.0@ && rs@[j].1@ == p.1@),
        decreases rs@.len() - i,
    {
        if rs[i].0.eq(&p.0) && rs[i].1.eq(&p.1) {
            return true;
        }
        i = i + 1;
    }
    false
}

} // verus!
