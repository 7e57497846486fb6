//! The layout: the rooms in the order in which they were placed.

use vstd::prelude::*;
use crate::grid::{lists_touch, Chunk};
use crate::random::RandomSource;
use crate::room::{ComplexRoom, ComplexRoomDoor, RoomView};

verus! {

/// What can go wrong while a layout is built.
#[derive(Clone, Copy, Debug, PartialEq, Eq, Hash, Structural)]
pub enum LayoutError {
    /// A door was asked for between two rooms that share no edge.
    NoPossibleDoor,
    /// Too many attempts in a row failed to place a room.
    RetryLimitReached,
    /// The pool holds more tickets than the grid has space for.
    PoolTooLarge,
}

/// Room `index` holds `chunk`.
pub open spec fn holds(rooms: Seq<RoomView>, index: int, chunk: Chunk) -> bool {
    0 <= index < rooms.len() && rooms[index].chunks.contains(chunk)
}

/// Some room holds `chunk`.
pub open spec fn is_populated(rooms: Seq<RoomView>, chunk: Chunk) -> bool {
    exists|i: int| holds(rooms, i, chunk)
}

/// Room `index` is the first room that holds `chunk`.
pub open spec fn first_holder(rooms: Seq<RoomView>, index: int, chunk: Chunk) -> bool {
    &&& holds(rooms, index, chunk)
    &&& forall|j: int| 0 <= j < index ==> !holds(rooms, j, chunk)
}

/// No chunk belongs to two rooms.
pub open spec fn no_overlap(rooms: Seq<RoomView>) -> bool {
    forall|i: int, j: int, chunk: Chunk|
        holds(rooms, i, chunk) && holds(rooms, j, chunk) ==> i == j
}

/// The room that holds `chunk`, where there is one.
pub open spec fn holder_of(rooms: Seq<RoomView>, chunk: Chunk) -> int {
    choose|i: int| holds(rooms, i, chunk)
}

/// The chunks of all rooms, room after room.
pub open spec fn populated_chunks(rooms: Seq<RoomView>) -> Seq<Chunk> {
    rooms.map_values(|room: RoomView| room.chunks).flatten()
}

/// The rooms after a door between the chunks `a` and `b` was registered on
/// the two rooms that hold them: on the one as leading from `a` to `b`, on
/// the other with the ends swapped. Nothing changes where one room holds
/// both chunks.
pub open spec fn with_door_between(rooms: Seq<RoomView>, a: Chunk, b: Chunk) -> Seq<RoomView> {
    let i = holder_of(rooms, a);
    let j = holder_of(rooms, b);
    if i == j {
        rooms
    } else {
        rooms.update(i, rooms[i].with_door(ComplexRoomDoor { from: a, to: b })).update(
            j,
            rooms[j].with_door(ComplexRoomDoor { from: b, to: a }),
        )
    }
}

/// `door` leads from a chunk of `from_chunks` to a neighbouring chunk of
/// `to_chunks`.
pub open spec fn joins(door: ComplexRoomDoor, from_chunks: Seq<Chunk>, to_chunks: Seq<Chunk>) -> bool {
    &&& from_chunks.contains(door.from)
    &&& to_chunks.contains(door.to)
    &&& door.from.touches(door.to)
}

/// The list of all populated chunks holds a chunk exactly when some room
/// holds it.
pub proof fn lemma_populated_chunks(rooms: Seq<RoomView>, chunk: Chunk)
    ensures
        populated_chunks(rooms).contains(chunk) <==> is_populated(rooms, chunk),
    decreases rooms.len(),
{
    let lists = rooms.map_values(|room: RoomView| room.chunks);
    if rooms.len() == 0 {
        assert(lists.flatten() == Seq::<Chunk>::empty());
        if is_populated(rooms, chunk) {
            let i = choose|i: int| holds(rooms, i, chunk);
            assert(false);
        }
    } else {
        let rest = rooms.drop_last();
        let last = rooms.last();
        let rest_lists = rest.map_values(|room: RoomView| room.chunks);
        assert(lists == rest_lists.push(last.chunks));
        rest_lists.lemma_flatten_push(last.chunks);
        lemma_populated_chunks(rest, chunk);
        let all = populated_chunks(rooms);
        let before = populated_chunks(rest);
        assert(all == before + last.chunks);
        vstd::seq_lib::lemma_seq_concat_contains_all_elements(before, last.chunks, chunk);
        if is_populated(rooms, chunk) {
            let i = choose|i: int| holds(rooms, i, chunk);
            if i < rest.len() {
                assert(holds(rest, i, chunk));
            }
        }
        if is_populated(rest, chunk) {
            let i = choose|i: int| holds(rest, i, chunk);
            assert(holds(rooms, i, chunk));
        }
        if last.chunks.contains(chunk) {
            assert(holds(rooms, rooms.len() - 1, chunk));
        }
    }
}

/// The rooms of a level, in the order in which they were placed.
#[derive(Clone, Debug, PartialEq, Eq)]
pub struct ComplexLayout {
    pub rooms: Vec<ComplexRoom>,
}

impl View for ComplexLayout {
    type V = Seq<RoomView>;

    open spec fn view(&self) -> Seq<RoomView> {
        self.rooms@.map_values(|room: ComplexRoom| room@)
    }
}

/// The doors that could join the two lists of chunks: one for each pair of
/// neighbouring chunks.
pub fn possible_doors(from_chunks: &Vec<Chunk>, to_chunks: &Vec<Chunk>) -> (doors: Vec<
    ComplexRoomDoor,
>)
    ensures
        forall|door: ComplexRoomDoor|
            doors@.contains(door) <==> joins(door, from_chunks@, to_chunks@),
        doors@.len() > 0 <==> lists_touch(from_chunks@, to_chunks@),
        from_chunks@.no_duplicates() && to_chunks@.no_duplicates() ==> doors@.no_duplicates(),
{
    let mut doors: Vec<ComplexRoomDoor> = Vec::new();
    let mut i: usize = 0;
    while i < from_chunks.len()
        invariant
            i <= from_chunks@.len(),
            from_chunks@.no_duplicates() && to_chunks@.no_duplicates() ==> doors@.no_duplicates(),
            forall|door: ComplexRoomDoor|
                doors@.contains(door) <==> joins(door, from_chunks@.take(i as int), to_chunks@),
        decreases from_chunks@.len() - i,
    {
        let mut j: usize = 0;
        while j < to_chunks.len()
            invariant
                i < from_chunks@.len(),
                j <= to_chunks@.len(),
                from_chunks@.no_duplicates() && to_chunks@.no_duplicates()
                    ==> doors@.no_duplicates(),
                forall|door: ComplexRoomDoor|
                    doors@.contains(door) <==> joins(door, from_chunks@.take(i as int), to_chunks@)
                        || (door.from == from_chunks@[i as int] && joins(
                        door,
                        from_chunks@,
                        to_chunks@.take(j as int),
                    )),
            decreases to_chunks@.len() - j,
        {
            proof {
                broadcast use vstd::seq_lib::lemma_seq_contains_after_push;

                assert(to_chunks@.take(j as int + 1) == to_chunks@.take(j as int).push(
                    to_chunks@[j as int],
                ));
                assert(from_chunks@.contains(from_chunks@[i as int]));
                if from_chunks@.no_duplicates() && to_chunks@.no_duplicates() {
                    let door = ComplexRoomDoor {
                        from: from_chunks@[i as int],
                        to: to_chunks@[j as int],
                    };
                    if from_chunks@.take(i as int).contains(door.from) {
                        let k = choose|k: int|
                            0 <= k < i && from_chunks@.take(i as int)[k] == door.from;
                        assert(from_chunks@[k] == from_chunks@[i as int]);
                    }
                    if to_chunks@.take(j as int).contains(door.to) {
                        let l = choose|l: int| 0 <= l < j && to_chunks@.take(j as int)[l] == door.to;
                        assert(to_chunks@[l] == to_chunks@[j as int]);
                    }
                    assert(!doors@.contains(door));
                }
            }
            if from_chunks[i].is_touching(&to_chunks[j]) {
                doors.push(ComplexRoomDoor { from: from_chunks[i], to: to_chunks[j] });
            }
            j += 1;
        }
        proof {
            broadcast use vstd::seq_lib::lemma_seq_contains_after_push;

            assert(to_chunks@.take(j as int) == to_chunks@);
            assert(from_chunks@.take(i as int + 1) == from_chunks@.take(i as int).push(
                from_chunks@[i as int],
            ));
            assert forall|door: ComplexRoomDoor|
                joins(door, from_chunks@, to_chunks@) && door.from == from_chunks@[i as int]
                    <==> joins(door, from_chunks@.take(i as int + 1), to_chunks@) && door.from
                    == from_chunks@[i as int] by {
                assert(from_chunks@.contains(from_chunks@[i as int]));
            }
        }
        i += 1;
    }
    proof {
        assert(from_chunks@.take(i as int) == from_chunks@);
        if doors@.len() > 0 {
            assert(doors@.contains(doors@[0]));
            let door = doors@[0];
            let k = choose|k: int| 0 <= k < from_chunks@.len() && from_chunks@[k] == door.from;
            let l = choose|l: int| 0 <= l < to_chunks@.len() && to_chunks@[l] == door.to;
            assert(from_chunks@[k].touches(to_chunks@[l]));
        }
        if lists_touch(from_chunks@, to_chunks@) {
            let (k, l) = choose|k: int, l: int|
                0 <= k < from_chunks@.len() && 0 <= l < to_chunks@.len() && (
                #[trigger] from_chunks@[k]).touches(#[trigger] to_chunks@[l]);
            let door = ComplexRoomDoor { from: from_chunks@[k], to: to_chunks@[l] };
            assert(joins(door, from_chunks@, to_chunks@));
            assert(doors@.contains(door));
        }
    }
    doors
}

impl ComplexLayout {
    /// A layout without rooms.
    pub fn new() -> (layout: ComplexLayout)
        ensures
            layout.rooms@.len() == 0,
            layout@ == Seq::<RoomView>::empty(),
    {
        ComplexLayout { rooms: Vec::new() }
    }

    /// The chunks of all rooms, room after room.
    pub fn get_populated_chunks(&self) -> (chunks: Vec<Chunk>)
        ensures
            chunks@ == populated_chunks(self@),
    {
        let mut chunks: Vec<Chunk> = Vec::new();
        let mut i: usize = 0;
        let ghost lists = self@.map_values(|room: RoomView| room.chunks);
        assert(lists.take(0) == Seq::<Seq<Chunk>>::empty());
        while i < self.rooms.len()
            invariant
                i <= self.rooms@.len(),
                lists == self@.map_values(|room: RoomView| room.chunks),
                chunks@ == lists.take(i as int).flatten(),
            decreases self.rooms@.len() - i,
        {
            let room = &self.rooms[i];
            let mut j: usize = 0;
            while j < room.chunks.len()
                invariant
                    j <= room.chunks@.len(),
                    i < self.rooms@.len(),
                    room == self.rooms@[i as int],
                    lists == self@.map_values(|room: RoomView| room.chunks),
                    chunks@ == lists.take(i as int).flatten() + room.chunks@.take(j as int),
                decreases room.chunks@.len() - j,
            {
                proof {
                    assert(room.chunks@.take(j as int + 1) == room.chunks@.take(j as int).push(
                        room.chunks@[j as int],
                    ));
                }
                chunks.push(room.chunks[j]);
                j += 1;
            }
            proof {
                assert(room.chunks@.take(j as int) == room.chunks@);
                assert(lists[i as int] == room.chunks@);
                assert(lists.take(i as int + 1) == lists.take(i as int).push(lists[i as int]));
                lists.take(i as int).lemma_flatten_push(lists[i as int]);
            }
            i += 1;
        }
        assert(lists.take(i as int) == lists);
        chunks
    }

    /// The index of the first room that holds `chunk`.
    pub fn chunk_to_index(&self, chunk: Chunk) -> (found: Option<usize>)
        ensures
            match found {
                Some(index) => first_holder(self@, index as int, chunk),
                None => !is_populated(self@, chunk),
            },
    {
        let mut i: usize = 0;
        while i < self.rooms.len()
            invariant
                i <= self.rooms@.len(),
                forall|j: int| 0 <= j < i ==> !holds(self@, j, chunk),
            decreases self.rooms@.len() - i,
        {
            if crate::grid::list_contains(&self.rooms[i].chunks, chunk) {
                return Some(i);
            }
            i += 1;
        }
        None
    }

    /// The first room that holds `chunk`.
    pub fn chunk_to_room(&self, chunk: Chunk) -> (found: Option<&ComplexRoom>)
        ensures
            match found {
                Some(room) => exists|index: int|
                    first_holder(self@, index, chunk) && room == self.rooms@[index],
                None => !is_populated(self@, chunk),
            },
    {
        match self.chunk_to_index(chunk) {
            Some(index) => Some(&self.rooms[index]),
            None => None,
        }
    }

    /// Registers a door between the two chunks on the rooms that hold them:
    /// from `chunk_a` to `chunk_b` on the one, from `chunk_b` to `chunk_a`
    /// on the other. Chunks of one room get no door.
    pub fn insert_door_by_chunks(&mut self, chunk_a: Chunk, chunk_b: Chunk)
        requires
            no_overlap(old(self)@),
            is_populated(old(self)@, chunk_a),
            is_populated(old(self)@, chunk_b),
        ensures
            final(self)@ == with_door_between(old(self)@, chunk_a, chunk_b),
    {
        let found_a = self.chunk_to_index(chunk_a);
        let found_b = self.chunk_to_index(chunk_b);
        if let (Some(index_a), Some(index_b)) = (found_a, found_b) {
            if index_a == index_b {
                return ;
            }
            self.rooms[index_a].add_door(ComplexRoomDoor { from: chunk_a, to: chunk_b });
            self.rooms[index_b].add_door(ComplexRoomDoor { from: chunk_b, to: chunk_a });
        }
    }

    /// Joins the two rooms by a door between a pair of neighbouring chunks,
    /// drawn uniformly from all such pairs. Rooms that share no edge cannot
    /// be joined.
    pub fn insert_door(
        &mut self,
        room_a: &ComplexRoom,
        room_b: &ComplexRoom,
        rng: &mut RandomSource,
    ) -> (result: Result<(), LayoutError>)
        requires
            no_overlap(old(self)@),
            forall|chunk: Chunk| room_a@.chunks.contains(chunk) ==> is_populated(old(self)@, chunk),
            forall|chunk: Chunk| room_b@.chunks.contains(chunk) ==> is_populated(old(self)@, chunk),
        ensures
            result is Ok <==> lists_touch(room_a@.chunks, room_b@.chunks),
            result matches Err(error) ==> error == LayoutError::NoPossibleDoor && final(self)@
                == old(self)@,
            result is Ok ==> exists|door: ComplexRoomDoor|
                joins(door, room_a@.chunks, room_b@.chunks) && final(self)@ == with_door_between(
                    old(self)@,
                    door.from,
                    door.to,
                ),
    {
        let doors = possible_doors(&room_a.chunks, &room_b.chunks);
        if doors.len() == 0 {
            return Err(LayoutError::NoPossibleDoor);
        }
        let choice = doors[rng.below(doors.len())];
        assert(doors@.contains(choice));
        self.insert_door_by_chunks(choice.from, choice.to);
        assert(joins(choice, room_a@.chunks, room_b@.chunks));
        Ok(())
    }
}

} // verus!
