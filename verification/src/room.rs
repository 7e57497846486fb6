//! Rooms: a list of chunks, the doors that lead out of them, and a type.

use vstd::prelude::*;
use crate::grid::{
    all_inner, borders, get_surrounding_chunks, lemma_surrounding_touches, list_contains,
    lists_touch, surrounding, Chunk,
};

verus! {

/// A directed door: it leads from a chunk of the room that holds it to a
/// neighbouring chunk of another room.
#[derive(Clone, Copy, Debug, PartialEq, Eq, Hash, Structural)]
pub struct ComplexRoomDoor {
    pub from: Chunk,
    pub to: Chunk,
}

impl ComplexRoomDoor {
    /// The same door seen from the other side.
    pub open spec fn reversed(self) -> ComplexRoomDoor {
        ComplexRoomDoor { from: self.to, to: self.from }
    }
}

/// What a room is for. A layout has one spawn room, where generation starts,
/// and places its boss room last.
#[derive(Clone, Copy, Debug, PartialEq, Eq, Hash, Structural)]
pub enum ComplexRoomType {
    Spawn,
    Enemy,
    Treasure,
    Shop,
    Boss,
}

impl ComplexRoomType {
    /// Width and height of the rectangle that a room of this type fills.
    /// Enemy rooms grow freely and have none.
    pub open spec fn footprint(self) -> Option<(nat, nat)> {
        match self {
            ComplexRoomType::Spawn => Some((1, 1)),
            ComplexRoomType::Enemy => None,
            ComplexRoomType::Treasure => Some((1, 1)),
            ComplexRoomType::Shop => Some((2, 1)),
            ComplexRoomType::Boss => Some((3, 2)),
        }
    }

    /// Width and height of the rectangle that a room of this type fills.
    pub fn dimensions(&self) -> (dims: Option<(u32, u32)>)
        ensures
            dims is Some == self.footprint() is Some,
            dims matches Some((width, height)) ==> self.footprint() == Some(
                (width as nat, height as nat),
            ),
    {
        match self {
            ComplexRoomType::Spawn => Some((1, 1)),
            ComplexRoomType::Enemy => None,
            ComplexRoomType::Treasure => Some((1, 1)),
            ComplexRoomType::Shop => Some((2, 1)),
            ComplexRoomType::Boss => Some((3, 2)),
        }
    }
}

/// The shape of a small room, named width by height; the L shapes are named
/// after the quadrant that their corner points to.
#[derive(Clone, Copy, Debug, PartialEq, Eq, Hash, Structural)]
pub enum ComplexRoomPermutation {
    OneByOne,
    OneByTwo,
    TwoByOne,
    OneByThree,
    ThreeByOne,
    LShapeQ1,
    LShapeQ2,
    LShapeQ3,
    LShapeQ4,
}

/// The mathematical content of a room.
pub struct RoomView {
    pub chunks: Seq<Chunk>,
    pub doors: Seq<ComplexRoomDoor>,
    pub room_type: ComplexRoomType,
}

impl RoomView {
    /// The room with `door` appended, unless the room holds it already.
    pub open spec fn with_door(self, door: ComplexRoomDoor) -> RoomView {
        if self.doors.contains(door) {
            self
        } else {
            RoomView { doors: self.doors.push(door), ..self }
        }
    }
}

/// A placed room: its chunks, the doors that lead out of it, and its type.
#[derive(Clone, Debug, PartialEq, Eq, Hash)]
pub struct ComplexRoom {
    pub chunks: Vec<Chunk>,
    pub doors: Vec<ComplexRoomDoor>,
    pub room_type: ComplexRoomType,
}

impl View for ComplexRoom {
    type V = RoomView;

    open spec fn view(&self) -> RoomView {
        RoomView { chunks: self.chunks@, doors: self.doors@, room_type: self.room_type }
    }
}

/// Smallest x coordinate of a non-empty list of chunks.
pub open spec fn min_x(chunks: Seq<Chunk>) -> int
    decreases chunks.len(),
{
    if chunks.len() == 0 {
        0
    } else if chunks.len() == 1 {
        chunks[0].x as int
    } else if chunks.last().x < min_x(chunks.drop_last()) {
        chunks.last().x as int
    } else {
        min_x(chunks.drop_last())
    }
}

/// Largest x coordinate of a non-empty list of chunks.
pub open spec fn max_x(chunks: Seq<Chunk>) -> int
    decreases chunks.len(),
{
    if chunks.len() == 0 {
        0
    } else if chunks.len() == 1 {
        chunks[0].x as int
    } else if chunks.last().x > max_x(chunks.drop_last()) {
        chunks.last().x as int
    } else {
        max_x(chunks.drop_last())
    }
}

/// Smallest y coordinate of a non-empty list of chunks.
pub open spec fn min_y(chunks: Seq<Chunk>) -> int
    decreases chunks.len(),
{
    if chunks.len() == 0 {
        0
    } else if chunks.len() == 1 {
        chunks[0].y as int
    } else if chunks.last().y < min_y(chunks.drop_last()) {
        chunks.last().y as int
    } else {
        min_y(chunks.drop_last())
    }
}

/// Largest y coordinate of a non-empty list of chunks.
pub open spec fn max_y(chunks: Seq<Chunk>) -> int
    decreases chunks.len(),
{
    if chunks.len() == 0 {
        0
    } else if chunks.len() == 1 {
        chunks[0].y as int
    } else if chunks.last().y > max_y(chunks.drop_last()) {
        chunks.last().y as int
    } else {
        max_y(chunks.drop_last())
    }
}

/// The shape that the bounding box of `chunks` stands for, if it is one of
/// the known shapes. A two by two box is an L; which one is told by the
/// first corner found missing, looking at bottom left, bottom right and top
/// left in turn.
pub open spec fn permutation_of(chunks: Seq<Chunk>) -> Option<ComplexRoomPermutation> {
    let width = max_x(chunks) - min_x(chunks) + 1;
    let height = max_y(chunks) - min_y(chunks) + 1;
    let left = min_x(chunks) as i32;
    let bottom = min_y(chunks) as i32;
    if chunks.len() == 0 {
        None
    } else if width == 1 && height == 1 {
        Some(ComplexRoomPermutation::OneByOne)
    } else if width == 1 && height == 2 {
        Some(ComplexRoomPermutation::OneByTwo)
    } else if width == 2 && height == 1 {
        Some(ComplexRoomPermutation::TwoByOne)
    } else if width == 1 && height == 3 {
        Some(ComplexRoomPermutation::OneByThree)
    } else if width == 3 && height == 1 {
        Some(ComplexRoomPermutation::ThreeByOne)
    } else if width == 2 && height == 2 {
        if !chunks.contains(Chunk { x: left, y: bottom }) {
            Some(ComplexRoomPermutation::LShapeQ3)
        } else if !chunks.contains(Chunk { x: (left + 1) as i32, y: bottom }) {
            Some(ComplexRoomPermutation::LShapeQ4)
        } else if !chunks.contains(Chunk { x: left, y: (bottom + 1) as i32 }) {
            Some(ComplexRoomPermutation::LShapeQ2)
        } else {
            Some(ComplexRoomPermutation::LShapeQ1)
        }
    } else {
        None
    }
}

/// Whether `list` holds `door`.
pub fn door_list_contains(list: &Vec<ComplexRoomDoor>, door: ComplexRoomDoor) -> (found: bool)
    ensures
        found == list@.contains(door),
{
    let mut i: usize = 0;
    while i < list.len()
        invariant
            i <= list@.len(),
            forall|k: int| 0 <= k < i ==> list@[k] != door,
        decreases list@.len() - i,
    {
        if list[i] == door {
            return true;
        }
        i += 1;
    }
    false
}

impl ComplexRoom {
    /// An enemy room on the given chunks, without doors.
    pub fn new(chunks: Vec<Chunk>) -> (room: ComplexRoom)
        ensures
            room@ == (RoomView {
                chunks: chunks@,
                doors: Seq::empty(),
                room_type: ComplexRoomType::Enemy,
            }),
    {
        ComplexRoom { chunks, doors: Vec::new(), room_type: ComplexRoomType::Enemy }
    }

    /// A room with the same chunks, doors and type.
    pub fn duplicate(&self) -> (copy: ComplexRoom)
        ensures
            copy@ == self@,
    {
        ComplexRoom {
            chunks: self.chunks.clone(),
            doors: self.doors.clone(),
            room_type: self.room_type,
        }
    }

    /// Appends `door` unless the room holds an equal door already.
    pub fn add_door(&mut self, door: ComplexRoomDoor)
        ensures
            final(self)@ == old(self)@.with_door(door),
    {
        if door_list_contains(&self.doors, door) {
            return ;
        }
        self.doors.push(door);
    }

    /// The chunks outside the room that share an edge with one of its
    /// chunks, each listed once.
    pub fn all_neighboring_chunks(&self) -> (around: Vec<Chunk>)
        requires
            all_inner(self.chunks@),
        ensures
            around@.no_duplicates(),
            forall|c: Chunk| around@.contains(c) <==> borders(self.chunks@, c),
    {
        let mut around: Vec<Chunk> = Vec::new();
        let mut i: usize = 0;
        while i < self.chunks.len()
            invariant
                i <= self.chunks@.len(),
                all_inner(self.chunks@),
                around@.no_duplicates(),
                forall|c: Chunk|
                    around@.contains(c) <==> !self.chunks@.contains(c) && exists|k: int|
                        0 <= k < i && (#[trigger] self.chunks@[k]).touches(c),
            decreases self.chunks@.len() - i,
        {
            let here = self.chunks[i];
            let ring = get_surrounding_chunks(here);
            let mut j: usize = 0;
            while j < ring.len()
                invariant
                    j <= ring@.len(),
                    i < self.chunks@.len(),
                    here == self.chunks@[i as int],
                    ring@ == surrounding(here),
                    around@.no_duplicates(),
                    forall|c: Chunk|
                        around@.contains(c) <==> !self.chunks@.contains(c) && ((exists|k: int|
                            0 <= k < i && (#[trigger] self.chunks@[k]).touches(c))
                            || ring@.take(j as int).contains(c)),
                decreases ring@.len() - j,
            {
                let candidate = ring[j];
                proof {
                    broadcast use vstd::seq_lib::lemma_seq_contains_after_push;

                    assert(ring@.take(j as int + 1) == ring@.take(j as int).push(candidate));
                }
                if !list_contains(&self.chunks, candidate) && !list_contains(&around, candidate) {
                    around.push(candidate);
                }
                j += 1;
            }
            proof {
                assert(ring@.take(j as int) == ring@);
                assert forall|c: Chunk|
                    around@.contains(c) <==> !self.chunks@.contains(c) && exists|k: int|
                        0 <= k < i + 1 && (#[trigger] self.chunks@[k]).touches(c) by {
                    lemma_surrounding_touches(here, c);
                    if ring@.contains(c) {
                        assert(self.chunks@[i as int].touches(c));
                    }
                }
            }
            i += 1;
        }
        around
    }

    /// Whether some chunk of this room shares an edge with some chunk of
    /// `other`.
    pub fn is_adjacent(&self, other: &ComplexRoom) -> (adjacent: bool)
        ensures
            adjacent == lists_touch(self.chunks@, other.chunks@),
    {
        let mut i: usize = 0;
        while i < self.chunks.len()
            invariant
                i <= self.chunks@.len(),
                forall|k: int, l: int|
                    0 <= k < i && 0 <= l < other.chunks@.len() ==> !(#[trigger] self.chunks@[k]).touches(
                        #[trigger] other.chunks@[l],
                    ),
            decreases self.chunks@.len() - i,
        {
            let mut j: usize = 0;
            while j < other.chunks.len()
                invariant
                    i < self.chunks@.len(),
                    j <= other.chunks@.len(),
                    forall|l: int|
                        0 <= l < j ==> !self.chunks@[i as int].touches(#[trigger] other.chunks@[l]),
                decreases other.chunks@.len() - j,
            {
                if self.chunks[i].is_touching(&other.chunks[j]) {
                    return true;
                }
                j += 1;
            }
            i += 1;
        }
        false
    }

    /// The shape of the room, told from its bounding box; none for a room
    /// without chunks or with a box that stands for no shape.
    pub fn try_get_permutation(&self) -> (shape: Option<ComplexRoomPermutation>)
        ensures
            shape == permutation_of(self.chunks@),
    {
        if self.chunks.len() == 0 {
            return None;
        }
        let mut left: i32 = self.chunks[0].x;
        let mut right: i32 = self.chunks[0].x;
        let mut bottom: i32 = self.chunks[0].y;
        let mut top: i32 = self.chunks[0].y;
        let mut i: usize = 1;
        assert(self.chunks@.take(1).len() == 1);
        while i < self.chunks.len()
            invariant
                1 <= i <= self.chunks@.len(),
                left == min_x(self.chunks@.take(i as int)),
                right == max_x(self.chunks@.take(i as int)),
                bottom == min_y(self.chunks@.take(i as int)),
                top == max_y(self.chunks@.take(i as int)),
            decreases self.chunks@.len() - i,
        {
            let chunk = self.chunks[i];
            proof {
                let next = self.chunks@.take(i as int + 1);
                assert(next.drop_last() == self.chunks@.take(i as int));
                assert(next.last() == chunk);
            }
            if chunk.x < left {
                left = chunk.x;
            }
            if chunk.x > right {
                right = chunk.x;
            }
            if chunk.y < bottom {
                bottom = chunk.y;
            }
            if chunk.y > top {
                top = chunk.y;
            }
            i += 1;
        }
        assert(self.chunks@.take(i as int) == self.chunks@);
        let width: i64 = right as i64 - left as i64 + 1;
        let height: i64 = top as i64 - bottom as i64 + 1;
        if width == 1 && height == 1 {
            Some(ComplexRoomPermutation::OneByOne)
        } else if width == 1 && height == 2 {
            Some(ComplexRoomPermutation::OneByTwo)
        } else if width == 2 && height == 1 {
            Some(ComplexRoomPermutation::TwoByOne)
        } else if width == 1 && height == 3 {
            Some(ComplexRoomPermutation::OneByThree)
        } else if width == 3 && height == 1 {
            Some(ComplexRoomPermutation::ThreeByOne)
        } else if width == 2 && height == 2 {
            if !list_contains(&self.chunks, Chunk { x: left, y: bottom }) {
                Some(ComplexRoomPermutation::LShapeQ3)
            } else if !list_contains(&self.chunks, Chunk { x: left + 1, y: bottom }) {
                Some(ComplexRoomPermutation::LShapeQ4)
            } else if !list_contains(&self.chunks, Chunk { x: left, y: bottom + 1 }) {
                Some(ComplexRoomPermutation::LShapeQ2)
            } else {
                Some(ComplexRoomPermutation::LShapeQ1)
            }
        } else {
            None
        }
    }

    /// The shape of a room whose bounding box stands for one.
    pub fn get_permutation(&self) -> (shape: ComplexRoomPermutation)
        requires
            permutation_of(self.chunks@) is Some,
        ensures
            Some(shape) == permutation_of(self.chunks@),
    {
        match self.try_get_permutation() {
            Some(shape) => shape,
            None => {
                proof {
                    assert(false);
                }
                ComplexRoomPermutation::OneByOne
            },
        }
    }
}

} // verus!
