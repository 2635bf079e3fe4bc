//! The room selector: compute each list's active room set, clamp the
//! requested windows, and merge every covered room's requirements into the
//! per-request to-do table.

use vstd::prelude::*;

verus! {

/// A room type as the filter sees it: no type at all, or a named one.
pub enum RoomTypeTag {
    Untyped,
    Typed(String),
}

/// A room-type probe: the tag, or a failure that is not "not found", which
/// conservatively excludes the room without failing the request.
pub enum TypeLookup {
    Found(RoomTypeTag),
    Failed,
}

pub struct RoomTypeRow {
    pub room: String,
    pub lookup: TypeLookup,
}

pub open spec fn tag_view(t: RoomTypeTag) -> Option<Seq<char>> {
    match t {
        RoomTypeTag::Untyped => None,
        RoomTypeTag::Typed(s) => Some(s@),
    }
}

/// The probe result for a room; a room with no row counts as untyped.
pub open spec fn type_of(table: Seq<RoomTypeRow>, room: Seq<char>) -> TypeLookup
    decreases table.len(),
{
    if table.len() == 0 {
        TypeLookup::Found(RoomTypeTag::Untyped)
    } else if table[0].room@ == room {
        table[0].lookup
    } else {
        type_of(table.skip(1), room)
    }
}

/// The filter list holds a tag with this tag's meaning.
pub open spec fn tags_have(filter: Seq<RoomTypeTag>, t: RoomTypeTag) -> bool {
    exists|i: int| 0 <= i < filter.len() && tag_view(filter[i]) == tag_view(t)
}

/// Whether a room survives the type filter: a failed probe excludes it; with
/// `negate` the listed types are excluded, otherwise an empty filter accepts
/// everything and a non-empty one accepts only the listed types.
pub open spec fn room_passes(
    table: Seq<RoomTypeRow>,
    filter: Seq<RoomTypeTag>,
    negate: bool,
    room: Seq<char>,
) -> bool {
    match type_of(table, room) {
        TypeLookup::Failed => false,
        TypeLookup::Found(t) => if negate {
            !tags_have(filter, t)
        } else {
            filter.len() == 0 || tags_have(filter, t)
        },
    }
}

/// The rooms of a list that survive the type filter, in order.
pub open spec fn passing_rooms(
    rooms: Seq<String>,
    table: Seq<RoomTypeRow>,
    filter: Seq<RoomTypeTag>,
    negate: bool,
) -> Seq<String> {
    rooms.filter(|room: String| room_passes(table, filter, negate, room@))
}

fn tag_matches(a: &RoomTypeTag, b: &RoomTypeTag) -> (r: bool)
    ensures
        r == (tag_view(*a) == tag_view(*b)),
{
    match (a, b) {
        (RoomTypeTag::Untyped, RoomTypeTag::Untyped) => true,
        (RoomTypeTag::Typed(x), RoomTypeTag::Typed(y)) => x.eq(y),
        _ => false,
    }
}

fn tags_contain(filter: &Vec<RoomTypeTag>, t: &RoomTypeTag) -> (r: bool)
    ensures
        r == tags_have(filter@, *t),
{
    let mut i: usize = 0;
    while i < filter.len()
        invariant
            0 <= i <= filter@.len(),
            forall|j: int| 0 <= j < i ==> tag_view(filter@[j]) != tag_view(*t),
        decreases filter@.len() - i,
    {
        if tag_matches(&filter[i], t) {
            return true;
        }
        i = i + 1;
    }
    false
}

/// Decide the type filter for one room.
fn room_passes_filter(
    table: &Vec<RoomTypeRow>,
    filter: &Vec<RoomTypeTag>,
    negate: bool,
    room: &String,
) -> (r: bool)
    ensures
        r == room_passes(table@, filter@, negate, room@),
{
    let mut i: usize = 0;
    proof {
        assert(table@.skip(0) =~= table@);
    }
    while i < table.len()
        invariant
            0 <= i <= table@.len(),
            type_of(table@, room@) == type_of(table@.skip(i as int), room@),
        decreases table@.len() - i,
    {
        proof {
            assert(table@.skip(i as int)[0] == table@[i as int]);
            assert(table@.skip(i as int).skip(1) =~= table@.skip(i as int + 1));
        }
        if table[i].room.eq(room) {
            return match &table[i].lookup {
                TypeLookup::Failed => false,
                TypeLookup::Found(t) => if negate {
                    !tags_contain(filter, t)
                } else {
                    filter.len() == 0 || tags_contain(filter, t)
                },
            };
        }
        i = i + 1;
    }
    if negate {
        !tags_contain(filter, &RoomTypeTag::Untyped)
    } else {
        filter.len() == 0 || tags_contain(filter, &RoomTypeTag::Untyped)
    }
}

/// Apply the type filter to a list's active room set.
pub fn filter_rooms(
    rooms: Vec<String>,
    table: &Vec<RoomTypeRow>,
    filter: &Vec<RoomTypeTag>,
    negate: bool,
) -> (r: Vec<String>)
    ensures
        r@ == passing_rooms(rooms@, table@, filter@, negate),
{
    let ghost r0 = rooms@;
    let mut rooms = rooms;
    let mut out: Vec<String> = Vec::new();
    let n = rooms.len();
    let mut j: usize = 0;
    while j < n
        invariant
            n == r0.len(),
            0 <= j <= r0.len(),
            rooms@ == r0.skip(j as int),
            out@ == passing_rooms(r0.take(j as int), table@, filter@, negate),
        decreases r0.len() - j,
    {
        proof {
            broadcast use Seq::lemma_filter_push;

            assert(r0.skip(j as int)[0] == r0[j as int]);
            assert(r0.skip(j as int).remove(0) =~= r0.skip(j as int + 1));
            let prefix = r0.take(j as int);
            let pushed = prefix.push(r0[j as int]);
            assert(r0.take(j as int + 1) =~= pushed);
            if room_passes(table@, filter@, negate, r0[j as int]@) {
                assert(passing_rooms(pushed, table@, filter@, negate) == passing_rooms(
                    prefix,
                    table@,
                    filter@,
                    negate,
                ).push(r0[j as int]));
            } else {
                assert(passing_rooms(pushed, table@, filter@, negate) == passing_rooms(
                    prefix,
                    table@,
                    filter@,
                    negate,
                ));
            }
            assert(passing_rooms(r0.take(j as int + 1), table@, filter@, negate) == passing_rooms(
                pushed,
                table@,
                filter@,
                negate,
            ));
        }
        let room = rooms.remove(0);
        if room_passes_filter(table, filter, negate, &room) {
            out.push(room);
        }
        j = j + 1;
    }
    proof {
        assert(r0.take(r0.len() as int) =~= r0);
    }
    out
}

/// Clamp one requested window: the floor is forced to the window's beginning
/// and the ceiling to the active set's size.
pub fn clamp_range(range: (u64, u64), active_len: usize) -> (r: (usize, usize))
    ensures
        r.0 == 0,
        r.1 == if range.1 <= active_len as u64 {
            range.1 as usize
        } else {
            active_len
        },
{
    let end = if range.1 <= active_len as u64 {
        range.1 as usize
    } else {
        active_len
    };
    (0, end)
}

} // verus!
