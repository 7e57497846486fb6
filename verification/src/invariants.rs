//! What holds of every layout that generation builds, and of every layout
//! on the way there.

use vstd::multiset::Multiset;
use vstd::prelude::*;
use vstd::seq_lib::{to_multiset_build, to_multiset_contains, to_multiset_remove};
use crate::grid::{
    all_inner, covers_from, fills_rectangle, is_walk, lemma_rectangle, lists_touch, rectangle, Chunk,
};
use crate::layout::{holder_of, holds, is_populated, no_overlap, with_door_between};
use crate::room::{ComplexRoomDoor, ComplexRoomType, RoomView};
use crate::room_pool::{ticket_types, Ticket, MAX_ENEMY_SIZE};

verus! {

/// The chunk that the spawn room stands on.
pub open spec fn origin() -> Chunk {
    Chunk { x: 0, y: 0 }
}

/// A room has chunks, lists no chunk and no door twice, and all its chunks
/// have their four neighbours on the grid.
pub open spec fn room_well_formed(room: RoomView) -> bool {
    &&& room.chunks.len() > 0
    &&& room.chunks.no_duplicates()
    &&& room.doors.no_duplicates()
    &&& all_inner(room.chunks)
}

/// Every room is well formed.
pub open spec fn rooms_well_formed(rooms: Seq<RoomView>) -> bool {
    forall|i: int| 0 <= i < rooms.len() ==> room_well_formed(#[trigger] rooms[i])
}

/// A room has the shape of its type: the rectangle of its footprint, told
/// from its first chunk, or, for an enemy room, a walk of one to three
/// chunks.
pub open spec fn shaped(room: RoomView) -> bool {
    match room.room_type.footprint() {
        Some((width, height)) => room.chunks == rectangle(room.chunks[0], width, height),
        None => 1 <= room.chunks.len() <= MAX_ENEMY_SIZE && is_walk(room.chunks),
    }
}

/// Every room has the shape of its type.
pub open spec fn footprints_hold(rooms: Seq<RoomView>) -> bool {
    forall|i: int| 0 <= i < rooms.len() ==> shaped(#[trigger] rooms[i])
}

/// The first room is the spawn room, on the origin alone, and no other room
/// is a spawn room.
pub open spec fn spawn_first(rooms: Seq<RoomView>) -> bool {
    &&& rooms.len() > 0
    &&& rooms[0].room_type == ComplexRoomType::Spawn
    &&& rooms[0].chunks == seq![origin()]
    &&& forall|i: int| 0 < i < rooms.len() ==> (#[trigger] rooms[i]).room_type != ComplexRoomType::Spawn
}

/// A boss room stands nowhere but at index `last`.
pub open spec fn boss_only_at(rooms: Seq<RoomView>, last: int) -> bool {
    forall|i: int|
        0 <= i < rooms.len() && (#[trigger] rooms[i]).room_type == ComplexRoomType::Boss ==> i
            == last
}

/// No two treasure rooms share an edge.
pub open spec fn treasures_apart(rooms: Seq<RoomView>) -> bool {
    forall|i: int, j: int|
        0 <= i < rooms.len() && 0 <= j < rooms.len() && i != j && (#[trigger] rooms[i]).room_type
            == ComplexRoomType::Treasure && (#[trigger] rooms[j]).room_type
            == ComplexRoomType::Treasure ==> !lists_touch(rooms[i].chunks, rooms[j].chunks)
}

/// A door of room `index` is in order: its ends share an edge, it starts in
/// the room, and it ends in another room, which holds the same door with
/// the ends swapped.
pub open spec fn door_sound(rooms: Seq<RoomView>, index: int, door: ComplexRoomDoor) -> bool {
    &&& door.from.touches(door.to)
    &&& holds(rooms, index, door.from)
    &&& exists|other: int|
        other != index && #[trigger] holds(rooms, other, door.to) && rooms[other].doors.contains(
            door.reversed(),
        )
}

/// Every door of every room is in order.
pub open spec fn doors_sound(rooms: Seq<RoomView>) -> bool {
    forall|i: int, k: int|
        0 <= i < rooms.len() && 0 <= k < rooms[i].doors.len() ==> door_sound(
            rooms,
            i,
            #[trigger] rooms[i].doors[k],
        )
}

/// A door of room `from` leads into room `to`.
pub open spec fn linked(rooms: Seq<RoomView>, from: int, to: int) -> bool {
    &&& 0 <= from < rooms.len()
    &&& exists|k: int|
        0 <= k < rooms[from].doors.len() && holds(rooms, to, (#[trigger] rooms[from].doors[k]).to)
}

/// Room `index` has a door into a room that was placed before it.
pub open spec fn has_parent(rooms: Seq<RoomView>, index: int) -> bool {
    exists|earlier: int| 0 <= earlier < index && #[trigger] linked(rooms, index, earlier)
}

/// Each room but the first, up to index `count`, has a door into a room
/// that was placed before it.
pub open spec fn rooted_below(rooms: Seq<RoomView>, count: int) -> bool {
    forall|i: int| 0 < i < count ==> #[trigger] has_parent(rooms, i)
}

/// A route through the rooms: it starts at the spawn room, and each step
/// goes through a door of the room it leaves into the room it enters.
pub open spec fn is_route(rooms: Seq<RoomView>, route: Seq<int>) -> bool {
    &&& route.len() > 0
    &&& route[0] == 0
    &&& forall|k: int| 0 < k < route.len() ==> linked(rooms, route[k - 1], #[trigger] route[k])
}

/// Room `index` can be reached from the spawn room through doors.
pub open spec fn reachable(rooms: Seq<RoomView>, index: int) -> bool {
    exists|route: Seq<int>| #[trigger] is_route(rooms, route) && route.last() == index
}

/// Every room can be reached from the spawn room through doors.
pub open spec fn connected(rooms: Seq<RoomView>) -> bool {
    forall|i: int| 0 <= i < rooms.len() ==> #[trigger] reachable(rooms, i)
}

/// Everything that holds of a layout while it grows, but for the rule on
/// the parent of the newest `pending` rooms.
pub open spec fn sound_but(rooms: Seq<RoomView>, pending: int) -> bool {
    &&& rooms_well_formed(rooms)
    &&& no_overlap(rooms)
    &&& doors_sound(rooms)
    &&& rooted_below(rooms, rooms.len() - pending)
    &&& spawn_first(rooms)
    &&& treasures_apart(rooms)
    &&& footprints_hold(rooms)
}

/// Everything that holds of a layout while it grows.
pub open spec fn sound(rooms: Seq<RoomView>) -> bool {
    sound_but(rooms, 0)
}

/// Where a door of one room leads into another, a door of the other leads
/// back.
pub proof fn lemma_link_reverses(rooms: Seq<RoomView>, from: int, to: int)
    requires
        no_overlap(rooms),
        doors_sound(rooms),
        linked(rooms, from, to),
    ensures
        linked(rooms, to, from),
{
    let k = choose|k: int|
        0 <= k < rooms[from].doors.len() && holds(rooms, to, (#[trigger] rooms[from].doors[k]).to);
    let door = rooms[from].doors[k];
    assert(door_sound(rooms, from, door));
    let other = choose|other: int|
        other != from && #[trigger] holds(rooms, other, door.to) && rooms[other].doors.contains(
            door.reversed(),
        );
    assert(other == to);
    let m = choose|m: int| 0 <= m < rooms[to].doors.len() && rooms[to].doors[m] == door.reversed();
    assert(holds(rooms, from, rooms[to].doors[m].to));
}

/// A room that has a chain of parents down to the spawn room can be reached
/// from it.
pub proof fn lemma_rooted_room_is_reachable(rooms: Seq<RoomView>, index: int)
    requires
        no_overlap(rooms),
        doors_sound(rooms),
        rooted_below(rooms, rooms.len() as int),
        0 <= index < rooms.len(),
    ensures
        reachable(rooms, index),
    decreases index,
{
    if index == 0 {
        let route = seq![0int];
        assert(is_route(rooms, route));
        assert(route.last() == index);
    } else {
        assert(has_parent(rooms, index));
        let earlier = choose|earlier: int|
            0 <= earlier < index && #[trigger] linked(rooms, index, earlier);
        lemma_rooted_room_is_reachable(rooms, earlier);
        lemma_link_reverses(rooms, index, earlier);
        let before = choose|route: Seq<int>| #[trigger]
            is_route(rooms, route) && route.last() == earlier;
        let route = before.push(index);
        assert forall|k: int| 0 < k < route.len() implies linked(
            rooms,
            route[k - 1],
            #[trigger] route[k],
        ) by {
            if k < before.len() {
                assert(route[k] == before[k]);
                assert(route[k - 1] == before[k - 1]);
            }
        }
        assert(is_route(rooms, route));
        assert(route.last() == index);
    }
}

/// Connectivity: in a layout where every room but the spawn room has a door
/// into an earlier room, every room can be reached from the spawn room.
pub proof fn lemma_connected(rooms: Seq<RoomView>)
    requires
        no_overlap(rooms),
        doors_sound(rooms),
        rooted_below(rooms, rooms.len() as int),
    ensures
        connected(rooms),
{
    assert forall|i: int| 0 <= i < rooms.len() implies #[trigger] reachable(rooms, i) by {
        lemma_rooted_room_is_reachable(rooms, i);
    }
}

/// No overlap: two distinct rooms have no chunk in common.
pub proof fn lemma_rooms_disjoint(rooms: Seq<RoomView>, i: int, j: int)
    requires
        no_overlap(rooms),
        0 <= i < rooms.len(),
        0 <= j < rooms.len(),
        i != j,
    ensures
        rooms[i].chunks.disjoint(rooms[j].chunks),
{
    assert forall|k: int, l: int|
        0 <= k < rooms[i].chunks.len() && 0 <= l < rooms[j].chunks.len() implies rooms[i].chunks[k]
        != rooms[j].chunks[l] by {
        if rooms[i].chunks[k] == rooms[j].chunks[l] {
            assert(holds(rooms, i, rooms[i].chunks[k]));
            assert(holds(rooms, j, rooms[i].chunks[k]));
        }
    }
}

/// Treasure spacing: two distinct treasure rooms have no pair of chunks
/// that share an edge.
pub proof fn lemma_treasure_spacing(rooms: Seq<RoomView>, i: int, j: int, a: Chunk, b: Chunk)
    requires
        treasures_apart(rooms),
        0 <= i < rooms.len(),
        0 <= j < rooms.len(),
        i != j,
        rooms[i].room_type == ComplexRoomType::Treasure,
        rooms[j].room_type == ComplexRoomType::Treasure,
        rooms[i].chunks.contains(a),
        rooms[j].chunks.contains(b),
    ensures
        !a.touches(b),
{
    if a.touches(b) {
        let k = choose|k: int| 0 <= k < rooms[i].chunks.len() && rooms[i].chunks[k] == a;
        let l = choose|l: int| 0 <= l < rooms[j].chunks.len() && rooms[j].chunks[l] == b;
        assert(rooms[i].chunks[k].touches(rooms[j].chunks[l]));
        assert(lists_touch(rooms[i].chunks, rooms[j].chunks));
    }
}

/// Sharing an edge goes both ways.
pub proof fn lemma_lists_touch_symmetric(a: Seq<Chunk>, b: Seq<Chunk>)
    requires
        lists_touch(a, b),
    ensures
        lists_touch(b, a),
{
    let (i, j) = choose|i: int, j: int|
        0 <= i < a.len() && 0 <= j < b.len() && (#[trigger] a[i]).touches(#[trigger] b[j]);
    assert(b[j].touches(a[i]));
}

/// The two lists of rooms have the same chunks and types, room by room, and
/// the second has every door of the first.
pub open spec fn doors_added(before: Seq<RoomView>, after: Seq<RoomView>) -> bool {
    &&& after.len() == before.len()
    &&& forall|i: int|
        0 <= i < before.len() ==> (#[trigger] after[i]).chunks == before[i].chunks && after[i].room_type
            == before[i].room_type
    &&& forall|i: int, door: ComplexRoomDoor|
        0 <= i < before.len() && before[i].doors.contains(door) ==> #[trigger] after[i].doors.contains(
            door,
        )
}

/// A link between two rooms stays when doors are added.
pub proof fn lemma_link_stays(before: Seq<RoomView>, after: Seq<RoomView>, from: int, to: int)
    requires
        doors_added(before, after),
        linked(before, from, to),
    ensures
        linked(after, from, to),
{
    let k = choose|k: int|
        0 <= k < before[from].doors.len() && holds(
            before,
            to,
            (#[trigger] before[from].doors[k]).to,
        );
    let door = before[from].doors[k];
    assert(before[from].doors.contains(door));
    assert(after[from].doors.contains(door));
    let m = choose|m: int| 0 <= m < after[from].doors.len() && after[from].doors[m] == door;
    assert(after[to].chunks == before[to].chunks);
    assert(holds(after, to, after[from].doors[m].to));
}

/// If the two rooms share an edge, each has a door into the other.
pub open spec fn joined_if_touching(rooms: Seq<RoomView>, a: int, b: int) -> bool {
    lists_touch(rooms[a].chunks, rooms[b].chunks) ==> linked(rooms, a, b) && linked(rooms, b, a)
}

/// A new room keeps a layout in order, but for its own parent, if it stands
/// on free chunks, has the shape of its type, has no door yet, is no spawn
/// room and, as a treasure room, touches no treasure room.
pub proof fn lemma_push_keeps_sound(rooms: Seq<RoomView>, room: RoomView)
    requires
        sound(rooms),
        room_well_formed(room),
        shaped(room),
        room.doors.len() == 0,
        room.room_type != ComplexRoomType::Spawn,
        forall|chunk: Chunk| room.chunks.contains(chunk) ==> !is_populated(rooms, chunk),
        room.room_type == ComplexRoomType::Treasure ==> forall|i: int|
            0 <= i < rooms.len() && (#[trigger] rooms[i]).room_type == ComplexRoomType::Treasure
                ==> !lists_touch(room.chunks, rooms[i].chunks),
    ensures
        sound_but(rooms.push(room), 1),
{
    let after = rooms.push(room);
    let last = rooms.len() as int;
    assert forall|i: int, chunk: Chunk| holds(after, i, chunk) && i != last implies holds(
        rooms,
        i,
        chunk,
    ) by {
        assert(after[i] == rooms[i]);
    }
    assert forall|i: int, chunk: Chunk| holds(rooms, i, chunk) implies holds(after, i, chunk) by {
        assert(after[i] == rooms[i]);
    }
    assert(rooms_well_formed(after)) by {
        assert forall|i: int| 0 <= i < after.len() implies room_well_formed(
            #[trigger] after[i],
        ) by {
            if i < last {
                assert(after[i] == rooms[i]);
            }
        }
    }
    assert(no_overlap(after)) by {
        assert forall|i: int, j: int, chunk: Chunk|
            holds(after, i, chunk) && holds(after, j, chunk) implies i == j by {
            if i != last && j != last {
                assert(holds(rooms, i, chunk) && holds(rooms, j, chunk));
            } else if i != last {
                assert(holds(rooms, i, chunk));
                assert(is_populated(rooms, chunk));
            } else if j != last {
                assert(holds(rooms, j, chunk));
                assert(is_populated(rooms, chunk));
            }
        }
    }
    assert(doors_sound(after)) by {
        assert forall|i: int, k: int|
            0 <= i < after.len() && 0 <= k < after[i].doors.len() implies door_sound(
            after,
            i,
            #[trigger] after[i].doors[k],
        ) by {
            assert(i < last);
            assert(after[i] == rooms[i]);
            let door = rooms[i].doors[k];
            assert(door_sound(rooms, i, door));
            let other = choose|other: int|
                other != i && #[trigger] holds(rooms, other, door.to) && rooms[other].doors.contains(
                    door.reversed(),
                );
            assert(after[other] == rooms[other]);
            assert(holds(after, other, door.to));
            assert(holds(after, i, door.from));
        }
    }
    assert(rooted_below(after, after.len() - 1)) by {
        assert forall|i: int| 0 < i < after.len() - 1 implies #[trigger] has_parent(after, i) by {
            assert(has_parent(rooms, i));
            let earlier = choose|earlier: int|
                0 <= earlier < i && #[trigger] linked(rooms, i, earlier);
            let k = choose|k: int|
                0 <= k < rooms[i].doors.len() && holds(
                    rooms,
                    earlier,
                    (#[trigger] rooms[i].doors[k]).to,
                );
            assert(after[i] == rooms[i]);
            assert(holds(after, earlier, after[i].doors[k].to));
            assert(linked(after, i, earlier));
        }
    }
    assert(spawn_first(after)) by {
        assert(after[0] == rooms[0]);
        assert forall|i: int| 0 < i < after.len() implies (#[trigger] after[i]).room_type
            != ComplexRoomType::Spawn by {
            if i < last {
                assert(after[i] == rooms[i]);
            }
        }
    }
    assert(treasures_apart(after)) by {
        assert forall|i: int, j: int|
            0 <= i < after.len() && 0 <= j < after.len() && i != j && (#[trigger] after[i]).room_type
                == ComplexRoomType::Treasure && (#[trigger] after[j]).room_type
                == ComplexRoomType::Treasure implies !lists_touch(
            after[i].chunks,
            after[j].chunks,
        ) by {
            if i < last && j < last {
                assert(after[i] == rooms[i] && after[j] == rooms[j]);
            } else if i == last {
                assert(after[j] == rooms[j]);
            } else {
                assert(after[i] == rooms[i]);
                if lists_touch(after[i].chunks, after[j].chunks) {
                    lemma_lists_touch_symmetric(after[i].chunks, after[j].chunks);
                }
            }
        }
    }
    assert(footprints_hold(after)) by {
        assert forall|i: int| 0 <= i < after.len() implies shaped(#[trigger] after[i]) by {
            if i < last {
                assert(after[i] == rooms[i]);
            }
        }
    }
}

/// Doors that are added keep a layout in order as long as each new door is
/// in order itself.
pub proof fn lemma_doors_added_keep_sound(before: Seq<RoomView>, after: Seq<RoomView>, pending: int)
    requires
        sound_but(before, pending),
        doors_added(before, after),
        forall|i: int| 0 <= i < after.len() ==> (#[trigger] after[i]).doors.no_duplicates(),
        forall|i: int, k: int|
            0 <= i < after.len() && 0 <= k < after[i].doors.len() && !before[i].doors.contains(
                after[i].doors[k],
            ) ==> door_sound(after, i, #[trigger] after[i].doors[k]),
    ensures
        sound_but(after, pending),
{
    assert forall|i: int, chunk: Chunk| holds(after, i, chunk) <==> holds(before, i, chunk) by {
        if 0 <= i < before.len() {
            assert(after[i].chunks == before[i].chunks);
        }
    }
    assert(rooms_well_formed(after)) by {
        assert forall|i: int| 0 <= i < after.len() implies room_well_formed(
            #[trigger] after[i],
        ) by {
            assert(room_well_formed(before[i]));
        }
    }
    assert(doors_sound(after)) by {
        assert forall|i: int, k: int|
            0 <= i < after.len() && 0 <= k < after[i].doors.len() implies door_sound(
            after,
            i,
            #[trigger] after[i].doors[k],
        ) by {
            let door = after[i].doors[k];
            if before[i].doors.contains(door) {
                let m = choose|m: int| 0 <= m < before[i].doors.len() && before[i].doors[m] == door;
                assert(door_sound(before, i, before[i].doors[m]));
                let other = choose|other: int|
                    other != i && #[trigger] holds(before, other, door.to)
                        && before[other].doors.contains(door.reversed());
                assert(holds(after, other, door.to));
                assert(after[other].doors.contains(door.reversed()));
                assert(holds(after, i, door.from));
            }
        }
    }
    assert(rooted_below(after, after.len() - pending)) by {
        assert forall|i: int| 0 < i < after.len() - pending implies #[trigger] has_parent(
            after,
            i,
        ) by {
            assert(has_parent(before, i));
            let earlier = choose|earlier: int|
                0 <= earlier < i && #[trigger] linked(before, i, earlier);
            let k = choose|k: int|
                0 <= k < before[i].doors.len() && holds(
                    before,
                    earlier,
                    (#[trigger] before[i].doors[k]).to,
                );
            let door = before[i].doors[k];
            assert(before[i].doors.contains(door));
            assert(after[i].doors.contains(door));
            let m = choose|m: int| 0 <= m < after[i].doors.len() && after[i].doors[m] == door;
            assert(holds(after, earlier, after[i].doors[m].to));
            assert(linked(after, i, earlier));
        }
    }
    assert(spawn_first(after)) by {
        assert(after[0].chunks == before[0].chunks);
        assert forall|i: int| 0 < i < after.len() implies (#[trigger] after[i]).room_type
            != ComplexRoomType::Spawn by {
            assert(before[i].room_type != ComplexRoomType::Spawn);
        }
    }
    assert(treasures_apart(after)) by {
        assert forall|i: int, j: int|
            0 <= i < after.len() && 0 <= j < after.len() && i != j && (#[trigger] after[i]).room_type
                == ComplexRoomType::Treasure && (#[trigger] after[j]).room_type
                == ComplexRoomType::Treasure implies !lists_touch(
            after[i].chunks,
            after[j].chunks,
        ) by {
            assert(before[i].room_type == ComplexRoomType::Treasure);
            assert(before[j].room_type == ComplexRoomType::Treasure);
        }
    }
    assert(footprints_hold(after)) by {
        assert forall|i: int| 0 <= i < after.len() implies shaped(#[trigger] after[i]) by {
            assert(shaped(before[i]));
        }
    }
}

/// A door between two neighbouring chunks keeps a layout in order, and
/// links the two rooms that hold them in both directions.
pub proof fn lemma_door_between_keeps_sound(rooms: Seq<RoomView>, a: Chunk, b: Chunk, pending: int)
    requires
        sound_but(rooms, pending),
        a.touches(b),
        is_populated(rooms, a),
        is_populated(rooms, b),
    ensures
        sound_but(with_door_between(rooms, a, b), pending),
        doors_added(rooms, with_door_between(rooms, a, b)),
        holder_of(rooms, a) != holder_of(rooms, b) ==> linked(
            with_door_between(rooms, a, b),
            holder_of(rooms, a),
            holder_of(rooms, b),
        ) && linked(with_door_between(rooms, a, b), holder_of(rooms, b), holder_of(rooms, a)),
{
    let i = holder_of(rooms, a);
    let j = holder_of(rooms, b);
    let after = with_door_between(rooms, a, b);
    assert(holds(rooms, i, a));
    assert(holds(rooms, j, b));
    if i != j {
        let there = ComplexRoomDoor { from: a, to: b };
        let back = ComplexRoomDoor { from: b, to: a };
        assert(after[i] == rooms[i].with_door(there));
        assert(after[j] == rooms[j].with_door(back));
        assert(after[i].doors.contains(there)) by {
            if !rooms[i].doors.contains(there) {
                assert(after[i].doors[rooms[i].doors.len() as int] == there);
            }
        }
        assert(after[j].doors.contains(back)) by {
            if !rooms[j].doors.contains(back) {
                assert(after[j].doors[rooms[j].doors.len() as int] == back);
            }
        }
        assert(doors_added(rooms, after)) by {
            assert forall|r: int, door: ComplexRoomDoor|
                0 <= r < rooms.len() && rooms[r].doors.contains(door) implies #[trigger] after[r].doors.contains(
                door,
            ) by {
                let m = choose|m: int| 0 <= m < rooms[r].doors.len() && rooms[r].doors[m] == door;
                assert(after[r].doors[m] == door);
            }
        }
        assert forall|r: int, chunk: Chunk| holds(after, r, chunk) <==> holds(rooms, r, chunk) by {
            if 0 <= r < rooms.len() {
                assert(after[r].chunks == rooms[r].chunks);
            }
        }
        assert forall|r: int| 0 <= r < after.len() implies (#[trigger] after[r]).doors.no_duplicates() by {
            assert(room_well_formed(rooms[r]));
        }
        assert forall|r: int, k: int|
            0 <= r < after.len() && 0 <= k < after[r].doors.len() && !rooms[r].doors.contains(
                after[r].doors[k],
            ) implies door_sound(after, r, #[trigger] after[r].doors[k]) by {
            let door = after[r].doors[k];
            if k < rooms[r].doors.len() {
                assert(rooms[r].doors[k] == door);
            }
            if r == i {
                assert(door == there);
                assert(holds(after, j, door.to));
            } else {
                assert(r == j);
                assert(door == back);
                assert(holds(after, i, door.to));
            }
        }
        lemma_doors_added_keep_sound(rooms, after, pending);
        let m = choose|m: int| 0 <= m < after[i].doors.len() && after[i].doors[m] == there;
        assert(holds(after, j, after[i].doors[m].to));
        let n = choose|n: int| 0 <= n < after[j].doors.len() && after[j].doors[n] == back;
        assert(holds(after, i, after[j].doors[n].to));
    }
}

/// The types of the rooms, in the order of the rooms.
pub open spec fn room_types(rooms: Seq<RoomView>) -> Seq<ComplexRoomType> {
    rooms.map_values(|room: RoomView| room.room_type)
}

/// How often each type occurs among the rooms that stand and the tickets
/// that are left.
pub open spec fn type_census(rooms: Seq<RoomView>, tickets: Seq<Ticket>) -> Multiset<
    ComplexRoomType,
> {
    room_types(rooms).to_multiset().add(ticket_types(tickets).to_multiset())
}

/// A room that is placed for a ticket, which is then taken from the pool,
/// leaves the census as it was.
pub proof fn lemma_redeem(rooms: Seq<RoomView>, room: RoomView, tickets: Seq<Ticket>, ticket: Ticket)
    requires
        tickets.contains(ticket),
        room.room_type == ticket.room_type,
    ensures
        tickets.remove_value(ticket).len() + 1 == tickets.len(),
        type_census(rooms.push(room), tickets.remove_value(ticket)) == type_census(rooms, tickets),
        forall|other: Ticket| tickets.remove_value(ticket).contains(other) ==> tickets.contains(other),
{
    broadcast use vstd::multiset::group_multiset_axioms;

    tickets.index_of_first_ensures(ticket);
    let at = tickets.index_of_first(ticket).unwrap();
    let left = tickets.remove(at);
    assert(left == tickets.remove_value(ticket));
    let types = ticket_types(tickets);
    assert(ticket_types(left) == types.remove(at));
    to_multiset_remove(types, at);
    assert(room_types(rooms.push(room)) == room_types(rooms).push(room.room_type));
    to_multiset_build(room_types(rooms), room.room_type);
    assert(types.contains(types[at]));
    to_multiset_contains(types, ticket.room_type);
    assert(type_census(rooms.push(room), left) =~= type_census(rooms, tickets));
    assert forall|other: Ticket| left.contains(other) implies tickets.contains(other) by {
        let k = choose|k: int| 0 <= k < left.len() && left[k] == other;
        if k < at {
            assert(tickets[k] == other);
        } else {
            assert(tickets[k + 1] == other);
        }
    }
}

/// Singleton rooms: once every ticket of a pool without spawn tickets is
/// redeemed, exactly one room is a spawn room, and there are as many boss
/// rooms as the pool held boss tickets: exactly one for a pool with one.
pub proof fn lemma_singletons(rooms: Seq<RoomView>, tickets: Seq<Ticket>)
    requires
        room_types(rooms).to_multiset() == ticket_types(tickets).to_multiset().insert(
            ComplexRoomType::Spawn,
        ),
        forall|i: int| 0 <= i < tickets.len() ==> (#[trigger] tickets[i]).wf(),
    ensures
        room_types(rooms).to_multiset().count(ComplexRoomType::Spawn) == 1,
        room_types(rooms).to_multiset().count(ComplexRoomType::Boss) == ticket_types(
            tickets,
        ).to_multiset().count(ComplexRoomType::Boss),
{
    broadcast use vstd::multiset::group_multiset_axioms;

    let types = ticket_types(tickets);
    to_multiset_contains(types, ComplexRoomType::Spawn);
    if types.contains(ComplexRoomType::Spawn) {
        let k = choose|k: int| 0 <= k < types.len() && types[k] == ComplexRoomType::Spawn;
        assert(tickets[k].wf());
    }
}

/// Boss last: where exactly one room is a boss room and a boss room stands
/// nowhere but at the last index, the last room is the boss room and no
/// room before it is one.
pub proof fn lemma_boss_last(rooms: Seq<RoomView>)
    requires
        rooms.len() > 0,
        boss_only_at(rooms, rooms.len() - 1),
        room_types(rooms).to_multiset().count(ComplexRoomType::Boss) == 1,
    ensures
        rooms.last().room_type == ComplexRoomType::Boss,
        forall|i: int|
            0 <= i < rooms.len() - 1 ==> (#[trigger] rooms[i]).room_type != ComplexRoomType::Boss,
{
    let types = room_types(rooms);
    to_multiset_contains(types, ComplexRoomType::Boss);
    let k = choose|k: int| 0 <= k < types.len() && types[k] == ComplexRoomType::Boss;
    assert(rooms[k].room_type == ComplexRoomType::Boss);
}

/// Footprint correctness: a shop fills a rectangle of two by one chunks, a
/// boss room one of three by two, a treasure room and the spawn room stand
/// on one chunk, and an enemy room is a walk of one to three chunks.
pub proof fn lemma_footprint_correctness(room: RoomView)
    requires
        room_well_formed(room),
        shaped(room),
    ensures
        room.room_type == ComplexRoomType::Shop ==> fills_rectangle(room.chunks, 2, 1),
        room.room_type == ComplexRoomType::Boss ==> fills_rectangle(room.chunks, 3, 2),
        room.room_type == ComplexRoomType::Treasure ==> room.chunks.len() == 1,
        room.room_type == ComplexRoomType::Spawn ==> room.chunks.len() == 1,
        room.room_type == ComplexRoomType::Enemy ==> 1 <= room.chunks.len() <= 3 && is_walk(
            room.chunks,
        ),
{
    let corner = room.chunks[0];
    assert(corner.inner());
    match room.room_type {
        ComplexRoomType::Shop => {
            lemma_rectangle(corner, 2, 1);
            assert(covers_from(room.chunks, corner, 2, 1));
        },
        ComplexRoomType::Boss => {
            let cells = rectangle(corner, 3, 2);
            assert(cells.len() == 6);
            assert(cells[2] == Chunk { x: (corner.x - 1) as i32, y: corner.y });
            assert(room.chunks[2].inner());
            lemma_rectangle(corner, 3, 2);
            assert(covers_from(room.chunks, corner, 3, 2));
        },
        ComplexRoomType::Treasure => {
            lemma_rectangle(corner, 1, 1);
        },
        ComplexRoomType::Spawn => {
            lemma_rectangle(corner, 1, 1);
        },
        ComplexRoomType::Enemy => {},
    }
}

/// Door validity: a door joins two chunks at distance one, the first in the
/// room that holds the door, the second in another room.
pub proof fn lemma_door_validity(rooms: Seq<RoomView>, index: int, door: ComplexRoomDoor)
    requires
        doors_sound(rooms),
        0 <= index < rooms.len(),
        rooms[index].doors.contains(door),
    ensures
        door.from.distance_squared(door.to) == 1,
        rooms[index].chunks.contains(door.from),
        exists|other: int| other != index && #[trigger] holds(rooms, other, door.to),
{
    let k = choose|k: int| 0 <= k < rooms[index].doors.len() && rooms[index].doors[k] == door;
    assert(door_sound(rooms, index, rooms[index].doors[k]));
    crate::grid::lemma_touches_is_unit_distance(door.from, door.to);
}

/// Door symmetry: for a door from `a` to `b`, the room that holds `b` holds
/// the door from `b` to `a`.
pub proof fn lemma_door_symmetry(rooms: Seq<RoomView>, index: int, door: ComplexRoomDoor)
    requires
        doors_sound(rooms),
        0 <= index < rooms.len(),
        rooms[index].doors.contains(door),
    ensures
        exists|other: int| #[trigger]
            holds(rooms, other, door.to) && rooms[other].doors.contains(door.reversed()),
{
    let k = choose|k: int| 0 <= k < rooms[index].doors.len() && rooms[index].doors[k] == door;
    assert(door_sound(rooms, index, rooms[index].doors[k]));
}

} // verus!
