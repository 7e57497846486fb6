//! Generation: rooms are drawn from the pool and placed next to the rooms
//! that stand already, each joined by a door to the room it grew from.

use vstd::arithmetic::div_mod::lemma_fundamental_div_mod_converse;
use vstd::prelude::*;
use crate::grid::{
    all_inner, all_within, borders, get_surrounding_chunks, is_walk, lemma_column_and_row,
    lemma_rectangle, lemma_surrounding_touches, list_contains, lists_touch, rectangle,
    rectangle_chunks, surrounding, Chunk,
};
use crate::invariants::{
    boss_only_at, connected, doors_added, doors_sound, footprints_hold, has_parent,
    joined_if_touching, lemma_boss_last, lemma_connected, lemma_door_between_keeps_sound,
    lemma_link_stays,
    lemma_push_keeps_sound, lemma_redeem, lemma_singletons, origin, room_types,
    room_well_formed, rooms_well_formed, shaped, sound, spawn_first, treasures_apart,
    type_census,
};
use crate::layout::{
    first_holder, holder_of, holds, is_populated, joins, no_overlap, with_door_between,
    ComplexLayout, LayoutError,
};
use crate::random::RandomSource;
use crate::room::{ComplexRoom, ComplexRoomDoor, ComplexRoomType, RoomView};
use crate::room_pool::{ticket_types, RoomPool, Ticket};

verus! {

/// The test that a chunk passes when a growing room may take it: the room
/// has not taken it yet and no room of the layout holds it.
pub open spec fn is_free(rooms: Seq<RoomView>, taken: Seq<Chunk>) -> spec_fn(Chunk) -> bool {
    |chunk: Chunk| !taken.contains(chunk) && !is_populated(rooms, chunk)
}

/// The neighbours of `here` that a growing room may take next.
pub open spec fn free_around(rooms: Seq<RoomView>, taken: Seq<Chunk>, here: Chunk) -> Seq<Chunk> {
    surrounding(here).filter(is_free(rooms, taken))
}

/// Each chunk after the first was, when the room took it, a free neighbour
/// of the chunk taken just before.
pub open spec fn grown(rooms: Seq<RoomView>, chunks: Seq<Chunk>) -> bool {
    forall|k: int|
        0 < k < chunks.len() ==> free_around(rooms, chunks.take(k), chunks[k - 1]).contains(
            #[trigger] chunks[k],
        )
}

/// The neighbours of `here` that are neither in `taken` nor in a room of
/// the layout.
pub fn free_neighbors(layout: &ComplexLayout, taken: &Vec<Chunk>, here: Chunk) -> (free: Vec<Chunk>)
    requires
        here.inner(),
    ensures
        free@ == free_around(layout@, taken@, here),
{
    let ring = get_surrounding_chunks(here);
    let mut free: Vec<Chunk> = Vec::new();
    let mut i: usize = 0;
    proof {
        assert(ring@.take(0) == Seq::<Chunk>::empty());
        reveal(Seq::filter);
    }
    while i < ring.len()
        invariant
            i <= ring@.len(),
            ring@ == surrounding(here),
            free@ == ring@.take(i as int).filter(is_free(layout@, taken@)),
        decreases ring@.len() - i,
    {
        let candidate = ring[i];
        proof {
            assert(ring@.take(i as int + 1) == ring@.take(i as int).push(candidate));
            ring@.take(i as int).lemma_filter_push(candidate, is_free(layout@, taken@));
        }
        if !list_contains(taken, candidate) && layout.chunk_to_index(candidate).is_none() {
            free.push(candidate);
        }
        i += 1;
    }
    proof {
        assert(ring@.take(i as int) == ring@);
    }
    free
}

/// A free neighbour of `here` shares an edge with it, is not taken and
/// belongs to no room.
pub proof fn lemma_free_step(rooms: Seq<RoomView>, taken: Seq<Chunk>, here: Chunk, next: Chunk)
    requires
        here.inner(),
        free_around(rooms, taken, here).contains(next),
    ensures
        here.touches(next),
        !taken.contains(next),
        !is_populated(rooms, next),
{
    let around = surrounding(here);
    let free = around.filter(is_free(rooms, taken));
    around.lemma_filter_contains_rev(is_free(rooms, taken), next);
    let at = choose|at: int| 0 <= at < free.len() && free[at] == next;
    around.lemma_filter_pred(is_free(rooms, taken), at);
    lemma_surrounding_touches(here, next);
}

/// One step of a grown room: the chunk taken shares an edge with the one
/// taken before, was not taken yet, and belongs to no room.
pub proof fn lemma_grown_step(rooms: Seq<RoomView>, chunks: Seq<Chunk>, k: int)
    requires
        grown(rooms, chunks),
        0 < k < chunks.len(),
        chunks[k - 1].inner(),
    ensures
        chunks[k - 1].touches(chunks[k]),
        !chunks.take(k).contains(chunks[k]),
        !is_populated(rooms, chunks[k]),
{
    assert(free_around(rooms, chunks.take(k), chunks[k - 1]).contains(chunks[k]));
    lemma_free_step(rooms, chunks.take(k), chunks[k - 1], chunks[k]);
}

/// A grown room strays from its first chunk by no more than one step per
/// chunk.
pub proof fn lemma_grown_reach(rooms: Seq<RoomView>, chunks: Seq<Chunk>, reach: int, k: int)
    requires
        grown(rooms, chunks),
        0 <= k < chunks.len(),
        chunks[0].within(reach),
        reach + chunks.len() <= i32::MAX,
    ensures
        chunks[k].within(reach + k),
    decreases k,
{
    if k > 0 {
        lemma_grown_reach(rooms, chunks, reach, k - 1);
        lemma_grown_step(rooms, chunks, k);
    }
}

/// What follows from the way a room was grown: it lists no chunk twice, it
/// is a walk, every chunk after the first was free, and it strays from its
/// first chunk by no more than one step per chunk.
pub proof fn lemma_grown_room(rooms: Seq<RoomView>, chunks: Seq<Chunk>, reach: int)
    requires
        grown(rooms, chunks),
        chunks.len() > 0,
        chunks[0].within(reach),
        reach + chunks.len() <= i32::MAX,
    ensures
        chunks.no_duplicates(),
        is_walk(chunks),
        forall|k: int| 0 < k < chunks.len() ==> !is_populated(rooms, #[trigger] chunks[k]),
        forall|k: int| 0 <= k < chunks.len() ==> (#[trigger] chunks[k]).within(reach + k),
{
    assert forall|k: int| 0 <= k < chunks.len() implies (#[trigger] chunks[k]).within(
        reach + k,
    ) by {
        lemma_grown_reach(rooms, chunks, reach, k);
    }
    assert forall|k: int| 0 < k < chunks.len() implies chunks[k - 1].touches(
        #[trigger] chunks[k],
    ) && !is_populated(rooms, chunks[k]) by {
        lemma_grown_reach(rooms, chunks, reach, k - 1);
        lemma_grown_step(rooms, chunks, k);
    }
    assert forall|i: int, j: int| 0 <= i < j < chunks.len() implies chunks[i] != chunks[j] by {
        lemma_grown_reach(rooms, chunks, reach, j - 1);
        lemma_grown_step(rooms, chunks, j);
        assert(chunks.take(j)[i] == chunks[i]);
    }
}

/// Grows an enemy room from `starting_chunk`: the room steps to a uniformly
/// drawn free neighbour of the chunk it took last, until it has `room_size`
/// chunks or no neighbour is free.
pub fn generate_room(
    starting_chunk: Chunk,
    room_size: usize,
    layout: &ComplexLayout,
    rng: &mut RandomSource,
) -> (room: ComplexRoom)
    requires
        starting_chunk.within(i32::MAX - room_size),
    ensures
        room@.room_type == ComplexRoomType::Enemy,
        room@.doors.len() == 0,
        room@.chunks.len() >= 1,
        room@.chunks[0] == starting_chunk,
        room@.chunks.len() <= room_size || room@.chunks.len() == 1,
        grown(layout@, room@.chunks),
        room@.chunks.len() >= room_size || free_around(
            layout@,
            room@.chunks,
            room@.chunks.last(),
        ).len() == 0,
{
    let mut room_chunks: Vec<Chunk> = Vec::new();
    room_chunks.push(starting_chunk);
    let mut active_chunk = starting_chunk;
    loop
        invariant
            1 <= room_chunks@.len(),
            room_chunks@.len() <= room_size || room_chunks@.len() == 1,
            room_chunks@[0] == starting_chunk,
            active_chunk == room_chunks@.last(),
            grown(layout@, room_chunks@),
            starting_chunk.within(i32::MAX - room_size),
        ensures
            room_chunks@.len() >= room_size || free_around(
                layout@,
                room_chunks@,
                room_chunks@.last(),
            ).len() == 0,
        decreases room_size - room_chunks@.len(),
    {
        if room_chunks.len() >= room_size {
            break ;
        }
        proof {
            lemma_grown_room(layout@, room_chunks@, i32::MAX - room_size);
        }
        let valid_chunks = free_neighbors(layout, &room_chunks, active_chunk);
        if valid_chunks.len() == 0 {
            break ;
        }
        let new_chunk = valid_chunks[rng.below(valid_chunks.len())];
        proof {
            let before = room_chunks@;
            let after = before.push(new_chunk);
            assert(valid_chunks@.contains(new_chunk));
            assert forall|k: int| 0 < k < after.len() implies free_around(
                layout@,
                after.take(k),
                after[k - 1],
            ).contains(#[trigger] after[k]) by {
                if k < before.len() {
                    assert(after.take(k) == before.take(k));
                } else {
                    assert(after.take(k) == before);
                }
            }
        }
        room_chunks.push(new_chunk);
        active_chunk = new_chunk;
    }
    ComplexRoom::new(room_chunks)
}

/// The `k`-th way to lay a rectangle over `start`: its top right corner
/// lies `k / height` columns to the right of `start` and `k % height` rows
/// above it.
pub open spec fn placement(start: Chunk, width: nat, height: nat, k: int) -> Seq<Chunk> {
    rectangle(
        Chunk {
            x: (start.x + k / (height as int)) as i32,
            y: (start.y + k % (height as int)) as i32,
        },
        width,
        height,
    )
}

/// Every way to lay a rectangle of the given width and height over `start`.
pub open spec fn placements(start: Chunk, width: nat, height: nat) -> Seq<Seq<Chunk>> {
    Seq::new(width * height, |k: int| placement(start, width, height, k))
}

/// The test that a list of chunks passes when no room holds any of them.
pub open spec fn is_vacant(rooms: Seq<RoomView>) -> spec_fn(Seq<Chunk>) -> bool {
    |cells: Seq<Chunk>|
        forall|i: int| 0 <= i < cells.len() ==> !is_populated(rooms, #[trigger] cells[i])
}

/// The ways to lay a rectangle over `start` that touch no room of the
/// layout.
pub open spec fn valid_placements(
    rooms: Seq<RoomView>,
    start: Chunk,
    width: nat,
    height: nat,
) -> Seq<Seq<Chunk>> {
    placements(start, width, height).filter(is_vacant(rooms))
}

/// The content of each list.
pub open spec fn views(lists: Seq<Vec<Chunk>>) -> Seq<Seq<Chunk>> {
    lists.map_values(|list: Vec<Chunk>| list@)
}

/// A rectangle of the given width and height can be laid over `start` in
/// every way without leaving the grid.
pub open spec fn rectangle_fits_grid(start: Chunk, width: int, height: int) -> bool {
    &&& i32::MIN <= start.x - width + 1
    &&& start.x + width - 1 <= i32::MAX
    &&& i32::MIN <= start.y - height + 1
    &&& start.y + height - 1 <= i32::MAX
    &&& width * height <= usize::MAX
}

/// Every way to lay a rectangle of the given width and height over `start`.
pub fn possible_positions(start: Chunk, width: u32, height: u32) -> (positions: Vec<Vec<Chunk>>)
    requires
        rectangle_fits_grid(start, width as int, height as int),
    ensures
        views(positions@) == placements(start, width as nat, height as nat),
{
    let mut positions: Vec<Vec<Chunk>> = Vec::new();
    let mut x: u32 = 0;
    while x < width
        invariant
            x <= width,
            rectangle_fits_grid(start, width as int, height as int),
            positions@.len() == x * height,
            forall|k: int|
                0 <= k < positions@.len() ==> (#[trigger] positions@[k])@ == placement(
                    start,
                    width as nat,
                    height as nat,
                    k,
                ),
        decreases width - x,
    {
        let mut y: u32 = 0;
        while y < height
            invariant
                x < width,
                y <= height,
                rectangle_fits_grid(start, width as int, height as int),
                positions@.len() == x * height + y,
                forall|k: int|
                    0 <= k < positions@.len() ==> (#[trigger] positions@[k])@ == placement(
                        start,
                        width as nat,
                        height as nat,
                        k,
                    ),
            decreases height - y,
        {
            proof {
                lemma_fundamental_div_mod_converse(
                    x * height + y,
                    height as int,
                    x as int,
                    y as int,
                );
            }
            let corner_x: i64 = start.x as i64 + x as i64;
            let corner_y: i64 = start.y as i64 + y as i64;
            let corner = Chunk { x: corner_x as i32, y: corner_y as i32 };
            positions.push(rectangle_chunks(corner, width, height));
            y += 1;
        }
        proof {
            assert((x + 1) * height == x * height + height) by (nonlinear_arith);
        }
        x += 1;
    }
    proof {
        assert(x == width);
        assert(views(positions@) =~= placements(start, width as nat, height as nat));
    }
    positions
}

/// Whether no room of the layout holds any of the chunks.
pub fn is_vacant_in(layout: &ComplexLayout, cells: &Vec<Chunk>) -> (vacant: bool)
    ensures
        vacant == is_vacant(layout@)(cells@),
{
    let mut i: usize = 0;
    while i < cells.len()
        invariant
            i <= cells@.len(),
            forall|k: int| 0 <= k < i ==> !is_populated(layout@, #[trigger] cells@[k]),
        decreases cells@.len() - i,
    {
        if layout.chunk_to_index(cells[i]).is_some() {
            return false;
        }
        i += 1;
    }
    true
}

/// The ways to lay a rectangle over `start` that touch no room of the
/// layout.
pub fn valid_positions(layout: &ComplexLayout, start: Chunk, width: u32, height: u32) -> (valid:
    Vec<Vec<Chunk>>)
    requires
        rectangle_fits_grid(start, width as int, height as int),
    ensures
        views(valid@) == valid_placements(layout@, start, width as nat, height as nat),
{
    let positions = possible_positions(start, width, height);
    let mut valid: Vec<Vec<Chunk>> = Vec::new();
    let mut i: usize = 0;
    proof {
        reveal(Seq::filter);
        assert(views(positions@).take(0) == Seq::<Seq<Chunk>>::empty());
        assert(views(valid@) == Seq::<Seq<Chunk>>::empty());
    }
    while i < positions.len()
        invariant
            i <= positions@.len(),
            views(valid@) == views(positions@).take(i as int).filter(is_vacant(layout@)),
        decreases positions@.len() - i,
    {
        let ghost kept = views(valid@);
        let ghost seen = views(positions@).take(i as int);
        proof {
            assert(views(positions@).take(i as int + 1) == seen.push(positions@[i as int]@));
            seen.lemma_filter_push(positions@[i as int]@, is_vacant(layout@));
        }
        if is_vacant_in(layout, &positions[i]) {
            let position = positions[i].clone();
            valid.push(position);
            proof {
                assert(views(valid@) == kept.push(position@));
            }
        }
        i += 1;
    }
    proof {
        assert(views(positions@).take(i as int) == views(positions@));
    }
    valid
}

/// Places a room with a fixed footprint over `starting_chunk`: one of the
/// ways to lay the rectangle that touch no room of the layout, drawn
/// uniformly. Without such a way the room comes back without chunks.
pub fn generate_specific_room(
    starting_chunk: Chunk,
    width: u32,
    height: u32,
    layout: &ComplexLayout,
    room_type: ComplexRoomType,
    rng: &mut RandomSource,
) -> (room: ComplexRoom)
    requires
        rectangle_fits_grid(starting_chunk, width as int, height as int),
    ensures
        room@.room_type == room_type,
        room@.doors.len() == 0,
        ({
            let valid = valid_placements(layout@, starting_chunk, width as nat, height as nat);
            if valid.len() == 0 {
                room@.chunks.len() == 0
            } else {
                valid.contains(room@.chunks)
            }
        }),
{
    let valid = valid_positions(layout, starting_chunk, width, height);
    if valid.len() == 0 {
        return ComplexRoom { chunks: Vec::new(), doors: Vec::new(), room_type };
    }
    let choice = rng.below(valid.len());
    let chunks = valid[choice].clone();
    proof {
        assert(views(valid@)[choice as int] == chunks@);
    }
    ComplexRoom { chunks, doors: Vec::new(), room_type }
}

/// What holds of a rectangle that was laid over `start` without touching a
/// room: it covers `start`, lists each of its chunks once, is the rectangle
/// told from its first chunk, stands on free chunks, and strays from
/// `start` by less than its width and height.
pub proof fn lemma_valid_placement(
    rooms: Seq<RoomView>,
    start: Chunk,
    width: nat,
    height: nat,
    cells: Seq<Chunk>,
)
    requires
        rectangle_fits_grid(start, width as int, height as int),
        valid_placements(rooms, start, width, height).contains(cells),
    ensures
        cells.len() == width * height,
        cells.len() > 0,
        cells.no_duplicates(),
        cells.contains(start),
        cells == rectangle(cells[0], width, height),
        forall|chunk: Chunk| cells.contains(chunk) ==> !is_populated(rooms, chunk),
        forall|chunk: Chunk|
            cells.contains(chunk) ==> start.x - width < chunk.x < start.x + width && start.y
                - height < chunk.y < start.y + height,
{
    let all = placements(start, width, height);
    let valid = all.filter(is_vacant(rooms));
    all.lemma_filter_contains_rev(is_vacant(rooms), cells);
    let k = choose|k: int| 0 <= k < all.len() && all[k] == cells;
    lemma_column_and_row(k, width, height);
    let corner = Chunk {
        x: (start.x + k / (height as int)) as i32,
        y: (start.y + k % (height as int)) as i32,
    };
    assert(cells == rectangle(corner, width, height));
    lemma_rectangle(corner, width, height);
    let at = choose|at: int| 0 <= at < valid.len() && valid[at] == cells;
    all.lemma_filter_pred(is_vacant(rooms), at);
    assert forall|chunk: Chunk| cells.contains(chunk) implies !is_populated(rooms, chunk) by {
        let i = choose|i: int| 0 <= i < cells.len() && cells[i] == chunk;
        assert(!is_populated(rooms, cells[i]));
    }
}

/// Next to the spawn room alone every footprint finds a place: the
/// rectangle can be laid over the anchor so that it points away from the
/// origin.
pub proof fn lemma_first_room_fits(rooms: Seq<RoomView>, anchor: Chunk, width: nat, height: nat)
    requires
        rooms.len() == 1,
        rooms[0].chunks == seq![origin()],
        origin().touches(anchor),
        width >= 1,
        height >= 1,
        rectangle_fits_grid(anchor, width as int, height as int),
    ensures
        valid_placements(rooms, anchor, width, height).len() > 0,
{
    let column: int = if anchor.x > 0 {
        width - 1
    } else {
        0
    };
    let row: int = if anchor.y > 0 {
        height - 1
    } else {
        0
    };
    let k = column * height + row;
    lemma_fundamental_div_mod_converse(k, height as int, column, row);
    assert(0 <= k < width * height) by (nonlinear_arith)
        requires
            k == column * height + row,
            0 <= column < width,
            0 <= row < height,
    ;
    let all = placements(anchor, width, height);
    let cells = all[k];
    let corner = Chunk { x: (anchor.x + column) as i32, y: (anchor.y + row) as i32 };
    assert(cells == rectangle(corner, width, height));
    lemma_rectangle(corner, width, height);
    assert forall|i: int| 0 <= i < cells.len() implies !is_populated(rooms, #[trigger] cells[i]) by {
        assert(cells.contains(cells[i]));
        if is_populated(rooms, cells[i]) {
            let holder = choose|holder: int| holds(rooms, holder, cells[i]);
            let at = choose|at: int|
                0 <= at < rooms[0].chunks.len() && rooms[0].chunks[at] == cells[i];
            assert(cells[i] == origin());
        }
    }
    assert(is_vacant(rooms)(all[k]));
    all.lemma_filter_contains(is_vacant(rooms), k);
}

/// Some chunk next to the list belongs to a treasure room.
pub open spec fn near_treasure(rooms: Seq<RoomView>, chunks: Seq<Chunk>) -> bool {
    exists|i: int, chunk: Chunk|
        #![trigger first_holder(rooms, i, chunk)]
        first_holder(rooms, i, chunk) && rooms[i].room_type == ComplexRoomType::Treasure
            && borders(chunks, chunk)
}

/// Whether a chunk next to `room` belongs to a treasure room of the layout.
pub fn is_near_treasure(layout: &ComplexLayout, room: &ComplexRoom) -> (near: bool)
    requires
        all_inner(room@.chunks),
    ensures
        near == near_treasure(layout@, room@.chunks),
{
    let around = room.all_neighboring_chunks();
    let mut i: usize = 0;
    while i < around.len()
        invariant
            i <= around@.len(),
            forall|chunk: Chunk| around@.contains(chunk) <==> borders(room@.chunks, chunk),
            forall|k: int, index: int|
                0 <= k < i && #[trigger] first_holder(layout@, index, around@[k])
                    ==> layout@[index].room_type != ComplexRoomType::Treasure,
        decreases around@.len() - i,
    {
        match layout.chunk_to_index(around[i]) {
            Some(index) => {
                if layout.rooms[index].room_type == ComplexRoomType::Treasure {
                    proof {
                        assert(around@.contains(around@[i as int]));
                    }
                    return true;
                }
                proof {
                    assert forall|other: int| #[trigger]
                        first_holder(layout@, other, around@[i as int]) implies other == index by {
                        assert(holds(layout@, other, around@[i as int]));
                        assert(holds(layout@, index as int, around@[i as int]));
                    }
                }
            },
            None => {
                proof {
                    assert forall|other: int| !#[trigger] first_holder(
                        layout@,
                        other,
                        around@[i as int],
                    ) by {
                        if first_holder(layout@, other, around@[i as int]) {
                            assert(holds(layout@, other, around@[i as int]));
                        }
                    }
                }
            },
        }
        i += 1;
    }
    proof {
        if near_treasure(layout@, room@.chunks) {
            let (index, chunk) = choose|index: int, chunk: Chunk|
                #![trigger first_holder(layout@, index, chunk)]
                first_holder(layout@, index, chunk) && layout@[index].room_type
                    == ComplexRoomType::Treasure && borders(room@.chunks, chunk);
            assert(around@.contains(chunk));
            let k = choose|k: int| 0 <= k < around@.len() && around@[k] == chunk;
            assert(first_holder(layout@, index, around@[k]));
        }
    }
    false
}

/// A list of free chunks that is not near a treasure room touches no
/// treasure room.
pub proof fn lemma_far_from_treasure(rooms: Seq<RoomView>, chunks: Seq<Chunk>, index: int)
    requires
        no_overlap(rooms),
        !near_treasure(rooms, chunks),
        forall|chunk: Chunk| chunks.contains(chunk) ==> !is_populated(rooms, chunk),
        0 <= index < rooms.len(),
        rooms[index].room_type == ComplexRoomType::Treasure,
    ensures
        !lists_touch(chunks, rooms[index].chunks),
{
    let theirs = rooms[index].chunks;
    if lists_touch(chunks, theirs) {
        let (i, j) = choose|i: int, j: int|
            0 <= i < chunks.len() && 0 <= j < theirs.len() && (#[trigger] chunks[i]).touches(
                #[trigger] theirs[j],
            );
        let chunk = theirs[j];
        assert(holds(rooms, index, chunk));
        assert(is_populated(rooms, chunk));
        assert(borders(chunks, chunk));
        assert(first_holder(rooms, index, chunk));
    }
}

/// The chunks next to `room` that no room of the layout holds, each listed
/// once.
pub fn free_placements(layout: &ComplexLayout, room: &ComplexRoom) -> (anchors: Vec<Chunk>)
    requires
        all_inner(room@.chunks),
    ensures
        anchors@.no_duplicates(),
        forall|chunk: Chunk|
            anchors@.contains(chunk) <==> borders(room@.chunks, chunk) && !is_populated(
                layout@,
                chunk,
            ),
{
    let around = room.all_neighboring_chunks();
    let mut anchors: Vec<Chunk> = Vec::new();
    let mut i: usize = 0;
    while i < around.len()
        invariant
            i <= around@.len(),
            around@.no_duplicates(),
            anchors@.no_duplicates(),
            forall|chunk: Chunk|
                anchors@.contains(chunk) <==> around@.take(i as int).contains(chunk)
                    && !is_populated(layout@, chunk),
        decreases around@.len() - i,
    {
        proof {
            broadcast use vstd::seq_lib::lemma_seq_contains_after_push;

            assert(around@.take(i as int + 1) == around@.take(i as int).push(around@[i as int]));
            if around@.take(i as int).contains(around@[i as int]) {
                let k = choose|k: int|
                    0 <= k < around@.take(i as int).len() && around@.take(i as int)[k]
                        == around@[i as int];
                assert(around@[k] == around@[i as int]);
            }
        }
        if layout.chunk_to_index(around[i]).is_none() {
            anchors.push(around[i]);
        }
        i += 1;
    }
    proof {
        assert(around@.take(i as int) == around@);
    }
    anchors
}

/// The farthest that a room reaches along an axis.
pub const MAX_ROOM_SPAN: usize = 3;

/// The most tickets that a pool may hold for generation: with more, rooms
/// that each add three to the reach of the layout could leave the grid.
pub const MAX_POOL_SIZE: usize = 715_827_881;

/// Every chunk of every room lies within `reach` of the origin.
pub open spec fn layout_within(rooms: Seq<RoomView>, reach: int) -> bool {
    forall|i: int| 0 <= i < rooms.len() ==> all_within((#[trigger] rooms[i]).chunks, reach)
}

/// What holds while a layout grows: the rooms are in order, each room added
/// at most three to the reach of the layout, the pool holds valid tickets,
/// and no boss room stands before the pool is empty.
pub open spec fn growing(rooms: Seq<RoomView>, tickets: Seq<Ticket>) -> bool {
    &&& sound(rooms)
    &&& layout_within(rooms, MAX_ROOM_SPAN * (rooms.len() - 1))
    &&& MAX_ROOM_SPAN * (rooms.len() + tickets.len()) < i32::MAX
    &&& boss_only_at(rooms, rooms.len() + tickets.len() - 1)
    &&& forall|i: int| 0 <= i < tickets.len() ==> (#[trigger] tickets[i]).wf()
}

/// A room that may be placed next to room `active` for `ticket`.
pub open spec fn placeable(
    rooms: Seq<RoomView>,
    tickets: Seq<Ticket>,
    active: int,
    room: RoomView,
    ticket: Ticket,
) -> bool {
    &&& 0 <= active < rooms.len()
    &&& tickets.contains(ticket)
    &&& ticket.room_type == ComplexRoomType::Boss ==> tickets.len() == 1
    &&& room.room_type == ticket.room_type
    &&& room.doors.len() == 0
    &&& room.chunks.len() > 0
    &&& room.chunks.no_duplicates()
    &&& shaped(room)
    &&& all_within(room.chunks, MAX_ROOM_SPAN * rooms.len())
    &&& forall|chunk: Chunk| room.chunks.contains(chunk) ==> !is_populated(rooms, chunk)
    &&& lists_touch(rooms[active].chunks, room.chunks)
    &&& room.room_type == ComplexRoomType::Treasure ==> !near_treasure(rooms, room.chunks)
}

/// Appends the room, joins it to room `active` by a door, and takes the
/// ticket from the pool.
fn place_room(
    layout: &mut ComplexLayout,
    room_pool: &mut RoomPool,
    active: usize,
    room: ComplexRoom,
    ticket: Ticket,
    rng: &mut RandomSource,
)
    requires
        growing(old(layout)@, old(room_pool)@),
        placeable(old(layout)@, old(room_pool)@, active as int, room@, ticket),
    ensures
        growing(final(layout)@, final(room_pool)@),
        final(layout)@.len() == old(layout)@.len() + 1,
        final(room_pool)@ == old(room_pool)@.remove_value(ticket),
        final(room_pool)@.len() + 1 == old(room_pool)@.len(),
        type_census(final(layout)@, final(room_pool)@) == type_census(
            old(layout)@,
            old(room_pool)@,
        ),
        exists|door: ComplexRoomDoor|
            joins(door, old(layout)@[active as int].chunks, room@.chunks) && final(layout)@
                == with_door_between(old(layout)@.push(room@), door.from, door.to),
{
    let ghost before = layout@;
    let ghost pushed = before.push(room@);
    let ghost last = before.len() as int;
    let active_room = layout.rooms[active].duplicate();
    let new_room = room.duplicate();
    proof {
        assert(room_well_formed(room@)) by {
            assert forall|i: int| 0 <= i < room@.chunks.len() implies (
            #[trigger] room@.chunks[i]).inner() by {
                assert(room@.chunks[i].within(MAX_ROOM_SPAN * before.len()));
            }
        }
        assert(ticket.wf()) by {
            let k = choose|k: int| 0 <= k < room_pool@.len() && room_pool@[k] == ticket;
            assert(room_pool@[k].wf());
        }
        assert forall|i: int|
            0 <= i < before.len() && (#[trigger] before[i]).room_type == ComplexRoomType::Treasure
                && room@.room_type == ComplexRoomType::Treasure implies !lists_touch(
            room@.chunks,
            before[i].chunks,
        ) by {
            lemma_far_from_treasure(before, room@.chunks, i);
        }
        lemma_push_keeps_sound(before, room@);
        lemma_redeem(before, room@, room_pool@, ticket);
    }
    layout.rooms.push(room);
    proof {
        assert(layout@ == pushed);
        assert forall|chunk: Chunk| active_room@.chunks.contains(chunk) implies is_populated(
            pushed,
            chunk,
        ) by {
            assert(pushed[active as int] == before[active as int]);
            assert(holds(pushed, active as int, chunk));
        }
        assert forall|chunk: Chunk| new_room@.chunks.contains(chunk) implies is_populated(
            pushed,
            chunk,
        ) by {
            assert(holds(pushed, last, chunk));
        }
    }
    match layout.insert_door(&active_room, &new_room, rng) {
        Ok(()) => {},
        Err(_) => {
            proof {
                assert(false);
            }
        },
    }
    room_pool.pop(ticket);
    proof {
        let door = choose|door: ComplexRoomDoor|
            joins(door, active_room@.chunks, new_room@.chunks) && layout@ == with_door_between(
                pushed,
                door.from,
                door.to,
            );
        assert(pushed[active as int] == before[active as int]);
        assert(holds(pushed, active as int, door.from));
        assert(holds(pushed, last, door.to));
        assert(holds(pushed, holder_of(pushed, door.from), door.from));
        assert(holds(pushed, holder_of(pushed, door.to), door.to));
        lemma_door_between_keeps_sound(pushed, door.from, door.to, 1);
        assert(holder_of(pushed, door.from) == active);
        assert(holder_of(pushed, door.to) == last);
        assert(has_parent(layout@, last));
        assert(sound(layout@));
        assert(layout_within(layout@, MAX_ROOM_SPAN * (layout@.len() - 1))) by {
            assert forall|i: int| 0 <= i < layout@.len() implies all_within(
                (#[trigger] layout@[i]).chunks,
                MAX_ROOM_SPAN * (layout@.len() - 1),
            ) by {
                assert(layout@[i].chunks == pushed[i].chunks);
                if i < last {
                    assert(pushed[i] == before[i]);
                    assert(all_within(before[i].chunks, MAX_ROOM_SPAN * (before.len() - 1)));
                }
            }
        }
        assert(boss_only_at(layout@, layout@.len() + room_pool@.len() - 1)) by {
            assert forall|i: int|
                0 <= i < layout@.len() && (#[trigger] layout@[i]).room_type
                    == ComplexRoomType::Boss implies i == layout@.len() + room_pool@.len() - 1 by {
                assert(layout@[i].room_type == pushed[i].room_type);
                if i < last {
                    assert(pushed[i] == before[i]);
                }
            }
        }
        assert(room_types(layout@) == room_types(pushed));
        assert(joins(door, before[active as int].chunks, room@.chunks));
    }
}

/// What the room built for `ticket` over `anchor` is. A room with a
/// footprint is one of the ways to lay the footprint over the anchor that
/// touch no room, and has no chunks where there is no such way. An enemy
/// room is grown from the anchor and stops only at the size on the ticket
/// or where no neighbour is free.
pub open spec fn built_for(rooms: Seq<RoomView>, anchor: Chunk, ticket: Ticket, room: RoomView) -> bool {
    &&& room.room_type == ticket.room_type
    &&& room.doors.len() == 0
    &&& match ticket.room_type.footprint() {
        Some((width, height)) => {
            let valid = valid_placements(rooms, anchor, width, height);
            if valid.len() == 0 {
                room.chunks.len() == 0
            } else {
                valid.contains(room.chunks)
            }
        },
        None => {
            &&& room.chunks.len() >= 1
            &&& room.chunks[0] == anchor
            &&& room.chunks.len() <= ticket.size || room.chunks.len() == 1
            &&& grown(rooms, room.chunks)
            &&& room.chunks.len() >= ticket.size || free_around(
                rooms,
                room.chunks,
                room.chunks.last(),
            ).len() == 0
        },
    }
}

/// Builds the room that `ticket` asks for over `anchor`: an enemy room is
/// grown from it, a room with a footprint is laid over it.
pub fn build_room(layout: &ComplexLayout, anchor: Chunk, ticket: Ticket, rng: &mut RandomSource) -> (room:
    ComplexRoom)
    requires
        ticket.wf(),
        anchor.within(i32::MAX - MAX_ROOM_SPAN),
    ensures
        built_for(layout@, anchor, ticket, room@),
{
    match ticket.room_type.dimensions() {
        None => generate_room(anchor, ticket.size, layout, rng),
        Some((width, height)) => generate_specific_room(
            anchor,
            width,
            height,
            layout,
            ticket.room_type,
            rng,
        ),
    }
}

/// Unless it has no chunks, the room stands on free chunks, some of them
/// next to room `active`, lists no chunk twice, has the shape of its type,
/// and adds no more than three to the reach of the layout.
pub open spec fn fits_beside(rooms: Seq<RoomView>, active: int, room: RoomView) -> bool {
    room.chunks.len() > 0 ==> {
        &&& room.chunks.no_duplicates()
        &&& shaped(room)
        &&& all_within(room.chunks, MAX_ROOM_SPAN * rooms.len())
        &&& forall|chunk: Chunk| room.chunks.contains(chunk) ==> !is_populated(rooms, chunk)
        &&& lists_touch(rooms[active].chunks, room.chunks)
    }
}

/// A room built over a free chunk next to room `active` fits beside it.
/// Next to the spawn room alone it always has chunks.
pub proof fn lemma_built_room(
    rooms: Seq<RoomView>,
    active: int,
    anchor: Chunk,
    ticket: Ticket,
    room: RoomView,
)
    requires
        built_for(rooms, anchor, ticket, room),
        ticket.wf(),
        0 <= active < rooms.len(),
        borders(rooms[active].chunks, anchor),
        !is_populated(rooms, anchor),
        layout_within(rooms, MAX_ROOM_SPAN * (rooms.len() - 1)),
        MAX_ROOM_SPAN * rooms.len() < i32::MAX,
    ensures
        fits_beside(rooms, active, room),
        rooms.len() == 1 && rooms[0].chunks == seq![origin()] ==> room.chunks.len() > 0,
{
    let home = rooms[active].chunks;
    let k = choose|k: int| 0 <= k < home.len() && (#[trigger] home[k]).touches(anchor);
    assert(home[k].within(MAX_ROOM_SPAN * (rooms.len() - 1)));
    let reach = MAX_ROOM_SPAN * (rooms.len() - 1) + 1;
    assert(anchor.within(reach));
    let chunks = room.chunks;
    match ticket.room_type.footprint() {
        None => {
            lemma_grown_room(rooms, chunks, reach);
            assert forall|chunk: Chunk| chunks.contains(chunk) implies !is_populated(
                rooms,
                chunk,
            ) by {
                let at = choose|at: int| 0 <= at < chunks.len() && chunks[at] == chunk;
                if at > 0 {
                    assert(!is_populated(rooms, chunks[at]));
                }
            }
            assert(home[k].touches(chunks[0]));
        },
        Some((width, height)) => {
            let valid = valid_placements(rooms, anchor, width, height);
            if rooms.len() == 1 && rooms[0].chunks == seq![origin()] {
                assert(home[0] == origin());
                lemma_first_room_fits(rooms, anchor, width, height);
            }
            if valid.len() > 0 {
                lemma_valid_placement(rooms, anchor, width, height, chunks);
                assert forall|i: int| 0 <= i < chunks.len() implies (#[trigger] chunks[i]).within(
                    MAX_ROOM_SPAN * rooms.len(),
                ) by {
                    assert(chunks.contains(chunks[i]));
                }
                let at = choose|at: int| 0 <= at < chunks.len() && chunks[at] == anchor;
                assert(home[k].touches(chunks[at]));
            }
        },
    }
}

/// One turn of the growth loop on what was drawn for it: the room built for
/// the ticket is placed next to room `active`, joined to it by a door, and
/// the ticket is taken from the pool. The turn fails, and changes nothing,
/// where the ticket has to wait, the room has no chunks, or a treasure room
/// would stand next to another.
pub fn settle(
    layout: &mut ComplexLayout,
    room_pool: &mut RoomPool,
    active: usize,
    ticket: Ticket,
    room: ComplexRoom,
    rng: &mut RandomSource,
) -> (placed: bool)
    requires
        growing(old(layout)@, old(room_pool)@),
        active < old(layout)@.len(),
        old(room_pool)@.contains(ticket),
        room@.room_type == ticket.room_type,
        room@.doors.len() == 0,
        fits_beside(old(layout)@, active as int, room@),
    ensures
        placed <==> !(ticket.room_type == ComplexRoomType::Boss && old(room_pool)@.len() > 1)
            && room@.chunks.len() > 0 && !(ticket.room_type == ComplexRoomType::Treasure
            && near_treasure(old(layout)@, room@.chunks)),
        placed ==> final(room_pool)@ == old(room_pool)@.remove_value(ticket) && exists|
            door: ComplexRoomDoor,
        |
            joins(door, old(layout)@[active as int].chunks, room@.chunks) && final(layout)@
                == with_door_between(old(layout)@.push(room@), door.from, door.to),
        placed ==> final(layout)@.len() == old(layout)@.len() + 1 && final(room_pool)@.len() + 1
            == old(room_pool)@.len(),
        !placed ==> final(layout)@ == old(layout)@ && final(room_pool)@ == old(room_pool)@,
        growing(final(layout)@, final(room_pool)@),
        type_census(final(layout)@, final(room_pool)@) == type_census(
            old(layout)@,
            old(room_pool)@,
        ),
{
    if ticket.must_wait(room_pool.len()) || room.chunks.len() == 0 {
        return false;
    }
    proof {
        assert forall|i: int| 0 <= i < room@.chunks.len() implies (
        #[trigger] room@.chunks[i]).inner() by {
            assert(room@.chunks[i].within(MAX_ROOM_SPAN * layout@.len()));
        }
    }
    if ticket.room_type == ComplexRoomType::Treasure && is_near_treasure(layout, &room) {
        return false;
    }
    place_room(layout, room_pool, active, room, ticket, rng);
    true
}

/// The count of failures in a row after a turn, or the error: a turn that
/// placed a room starts the count again, a failed turn adds to it, and a
/// failed turn at the limit ends generation.
pub fn after_turn(failures: usize, placed: bool, settings: &GenerationSettings) -> (next: Result<
    usize,
    LayoutError,
>)
    ensures
        placed ==> next == Ok::<usize, LayoutError>(0),
        !placed && failures < settings.retry_limit ==> next == Ok::<usize, LayoutError>(
            (failures + 1) as usize,
        ),
        !placed && failures >= settings.retry_limit ==> next == Err::<usize, LayoutError>(
            LayoutError::RetryLimitReached,
        ),
{
    if placed {
        Ok(0)
    } else if failures < settings.retry_limit {
        Ok(failures + 1)
    } else {
        Err(LayoutError::RetryLimitReached)
    }
}

/// The room that the next turn grows from: the newest room where the turn
/// placed one, else a uniformly drawn room.
pub fn next_room(placed: bool, rooms: usize, rng: &mut RandomSource) -> (active: usize)
    requires
        rooms > 0,
    ensures
        active < rooms,
        placed ==> active == rooms - 1,
{
    if placed {
        rooms - 1
    } else {
        rng.below(rooms)
    }
}

/// The odds that two rooms that share an edge get a door of their own, and
/// the number of failures in a row after which generation gives up.
#[derive(Clone, Copy, Debug, PartialEq, Eq, Structural)]
pub struct GenerationSettings {
    /// Rejected draws and abandoned attempts that may follow one another
    /// between two placements.
    pub retry_limit: usize,
    pub door_numerator: u32,
    pub door_denominator: u32,
}

impl GenerationSettings {
    /// The odds are a fraction between zero and one.
    pub open spec fn wf(&self) -> bool {
        0 < self.door_denominator && self.door_numerator <= self.door_denominator
    }

    /// Settings with even odds for an extra door.
    pub fn new(retry_limit: usize) -> (settings: GenerationSettings)
        ensures
            settings == (GenerationSettings {
                retry_limit,
                door_numerator: 1,
                door_denominator: 2,
            }),
            settings.wf(),
    {
        GenerationSettings { retry_limit, door_numerator: 1, door_denominator: 2 }
    }
}

/// Joins rooms `i` and `j` on the result of their coin: where it hit and the
/// rooms share an edge, they get a door between a uniformly drawn pair of
/// their neighbouring chunks; else nothing changes.
pub fn join_if(layout: &mut ComplexLayout, i: usize, j: usize, hit: bool, rng: &mut RandomSource)
    requires
        sound(old(layout)@),
        i < j < old(layout)@.len(),
    ensures
        !(hit && lists_touch(old(layout)@[i as int].chunks, old(layout)@[j as int].chunks))
            ==> final(layout)@ == old(layout)@,
        hit && lists_touch(old(layout)@[i as int].chunks, old(layout)@[j as int].chunks)
            ==> exists|door: ComplexRoomDoor|
            joins(door, old(layout)@[i as int].chunks, old(layout)@[j as int].chunks)
                && final(layout)@ == with_door_between(old(layout)@, door.from, door.to),
        sound(final(layout)@),
        doors_added(old(layout)@, final(layout)@),
        hit ==> joined_if_touching(final(layout)@, i as int, j as int),
{
    if !hit || !layout.rooms[i].is_adjacent(&layout.rooms[j]) {
        return ;
    }
    let ghost before = layout@;
    let room = layout.rooms[i].duplicate();
    let other_room = layout.rooms[j].duplicate();
    proof {
        assert forall|chunk: Chunk| room@.chunks.contains(chunk) implies is_populated(
            before,
            chunk,
        ) by {
            assert(holds(before, i as int, chunk));
        }
        assert forall|chunk: Chunk| other_room@.chunks.contains(chunk) implies is_populated(
            before,
            chunk,
        ) by {
            assert(holds(before, j as int, chunk));
        }
    }
    match layout.insert_door(&room, &other_room, rng) {
        Ok(()) => {},
        Err(_) => {
            proof {
                assert(false);
            }
        },
    }
    proof {
        let door = choose|door: ComplexRoomDoor|
            joins(door, room@.chunks, other_room@.chunks) && layout@ == with_door_between(
                before,
                door.from,
                door.to,
            );
        assert(holds(before, i as int, door.from));
        assert(holds(before, j as int, door.to));
        assert(holds(before, holder_of(before, door.from), door.from));
        assert(holds(before, holder_of(before, door.to), door.to));
        lemma_door_between_keeps_sound(before, door.from, door.to, 0);
        assert(joins(door, before[i as int].chunks, before[j as int].chunks));
    }
}

/// Gives each pair of rooms that share an edge a chance to get a door
/// between a uniformly drawn pair of their neighbouring chunks.
pub fn add_extra_doors(
    layout: &mut ComplexLayout,
    rng: &mut RandomSource,
    settings: &GenerationSettings,
)
    requires
        sound(old(layout)@),
        settings.wf(),
    ensures
        sound(final(layout)@),
        doors_added(old(layout)@, final(layout)@),
        settings.door_numerator == 0 ==> final(layout)@ == old(layout)@,
        settings.door_numerator == settings.door_denominator ==> forall|a: int, b: int|
            0 <= a < b < final(layout)@.len() ==> #[trigger] joined_if_touching(
                final(layout)@,
                a,
                b,
            ),
{
    let count = layout.rooms.len();
    let sure = settings.door_numerator == settings.door_denominator;
    let mut i: usize = 0;
    while i < count
        invariant
            count == layout@.len(),
            sound(layout@),
            settings.wf(),
            sure == (settings.door_numerator == settings.door_denominator),
            doors_added(old(layout)@, layout@),
            settings.door_numerator == 0 ==> layout@ == old(layout)@,
            sure ==> forall|a: int, b: int|
                0 <= a < i && a < b < count ==> #[trigger] joined_if_touching(layout@, a, b),
        decreases count - i,
    {
        let mut j: usize = i + 1;
        while j < count
            invariant
                i < j,
                i < count,
                count == layout@.len(),
                sound(layout@),
                settings.wf(),
                sure == (settings.door_numerator == settings.door_denominator),
                doors_added(old(layout)@, layout@),
                settings.door_numerator == 0 ==> layout@ == old(layout)@,
                sure ==> forall|a: int, b: int|
                    0 <= a < i && a < b < count ==> #[trigger] joined_if_touching(layout@, a, b),
                sure ==> forall|b: int|
                    i < b < j ==> #[trigger] joined_if_touching(layout@, i as int, b),
            decreases count - j,
        {
            if layout.rooms[i].is_adjacent(&layout.rooms[j]) {
                let ghost before = layout@;
                let hit = rng.chance(settings.door_numerator, settings.door_denominator);
                join_if(layout, i, j, hit, rng);
                proof {
                    assert forall|a: int, b: int|
                        0 <= a < b < count && joined_if_touching(
                            before,
                            a,
                            b,
                        ) implies #[trigger] joined_if_touching(layout@, a, b) by {
                        assert(layout@[a].chunks == before[a].chunks);
                        assert(layout@[b].chunks == before[b].chunks);
                        if lists_touch(before[a].chunks, before[b].chunks) {
                            lemma_link_stays(before, layout@, a, b);
                            lemma_link_stays(before, layout@, b, a);
                        }
                    }
                }
            }
            j += 1;
        }
        i += 1;
    }
}

/// The layout of the spawn room alone is in order.
pub proof fn lemma_spawn_alone(rooms: Seq<RoomView>)
    requires
        rooms.len() == 1,
        rooms[0] == (RoomView {
            chunks: seq![origin()],
            doors: Seq::empty(),
            room_type: ComplexRoomType::Spawn,
        }),
    ensures
        sound(rooms),
        layout_within(rooms, 0),
        boss_only_at(rooms, -1),
        room_types(rooms).to_multiset() == vstd::multiset::Multiset::<ComplexRoomType>::empty().insert(
            ComplexRoomType::Spawn,
        ),
{
    broadcast use vstd::multiset::group_multiset_axioms;

    let chunks = rooms[0].chunks;
    assert(chunks == rectangle(chunks[0], 1, 1));
    assert(shaped(rooms[0]));
    let none = Seq::<ComplexRoomType>::empty();
    assert(room_types(rooms) == none.push(ComplexRoomType::Spawn));
    vstd::seq_lib::to_multiset_build(none, ComplexRoomType::Spawn);
    assert(none.to_multiset() =~= vstd::multiset::Multiset::<ComplexRoomType>::empty()) by {
        vstd::seq_lib::to_multiset_len(none);
        assert forall|t: ComplexRoomType| none.to_multiset().count(t) == 0 by {
            vstd::seq_lib::to_multiset_contains(none, t);
        }
    }
}

/// Builds the layout: the spawn room on the origin, then one room for each
/// ticket of the pool, each next to a room that stands already and joined
/// to it by a door, the boss room last; at the end rooms that share an edge
/// get a chance of a door of their own.
///
/// A draw or an attempt that fails is tried again, from another room where
/// the room built did not fit. After `settings.retry_limit` failures in a
/// row generation gives up: the rooms placed so far stay, and so do the
/// tickets not yet redeemed. The first room never fails: next to the spawn
/// room alone there is space for every footprint. For a pool of more than
/// `MAX_POOL_SIZE` tickets nothing but the spawn room is placed.
pub fn generate(
    layout: &mut ComplexLayout,
    room_pool: &mut RoomPool,
    rng: &mut RandomSource,
    settings: &GenerationSettings,
) -> (result: Result<(), LayoutError>)
    requires
        old(layout)@.len() == 0,
        old(room_pool).wf(),
        settings.wf(),
    ensures
        rooms_well_formed(final(layout)@),
        no_overlap(final(layout)@),
        doors_sound(final(layout)@),
        connected(final(layout)@),
        spawn_first(final(layout)@),
        boss_only_at(final(layout)@, old(room_pool)@.len() as int),
        treasures_apart(final(layout)@),
        footprints_hold(final(layout)@),
        sound(final(layout)@),
        final(room_pool).wf(),
        final(layout)@.len() + final(room_pool)@.len() == old(room_pool)@.len() + 1,
        type_census(final(layout)@, final(room_pool)@) == ticket_types(
            old(room_pool)@,
        ).to_multiset().insert(ComplexRoomType::Spawn),
        result is Ok <==> final(room_pool)@.len() == 0,
        result is Ok ==> room_types(final(layout)@).to_multiset().count(ComplexRoomType::Spawn)
            == 1 && room_types(final(layout)@).to_multiset().count(ComplexRoomType::Boss)
            == ticket_types(old(room_pool)@).to_multiset().count(ComplexRoomType::Boss),
        result is Ok && ticket_types(old(room_pool)@).to_multiset().count(ComplexRoomType::Boss)
            == 1 ==> final(layout)@.last().room_type == ComplexRoomType::Boss,
        result == Err::<(), LayoutError>(LayoutError::PoolTooLarge) <==> old(room_pool)@.len()
            > MAX_POOL_SIZE,
        result matches Err(error) ==> error == LayoutError::PoolTooLarge || error
            == LayoutError::RetryLimitReached,
        old(room_pool)@.len() > MAX_POOL_SIZE ==> final(layout)@.len() == 1,
        old(room_pool)@.len() <= 1 ==> result is Ok,
        result is Ok && settings.door_numerator == settings.door_denominator ==> forall|
            a: int,
            b: int,
        | 0 <= a < b < final(layout)@.len() ==> #[trigger] joined_if_touching(final(layout)@, a, b),
{
    let mut spawn_chunks: Vec<Chunk> = Vec::new();
    spawn_chunks.push(Chunk { x: 0, y: 0 });
    layout.rooms.push(
        ComplexRoom { chunks: spawn_chunks, doors: Vec::new(), room_type: ComplexRoomType::Spawn },
    );
    proof {
        broadcast use vstd::multiset::group_multiset_axioms;

        lemma_spawn_alone(layout@);
        lemma_connected(layout@);
        assert(type_census(layout@, room_pool@) =~= ticket_types(
            room_pool@,
        ).to_multiset().insert(ComplexRoomType::Spawn));
    }
    if room_pool.len() > MAX_POOL_SIZE {
        return Err(LayoutError::PoolTooLarge);
    }
    let mut active: usize = 0;
    let mut failures: usize = 0;
    while room_pool.len() > 0
        invariant
            growing(layout@, room_pool@),
            settings.wf(),
            active < layout@.len(),
            failures <= settings.retry_limit,
            layout@.len() + room_pool@.len() == old(room_pool)@.len() + 1,
            type_census(layout@, room_pool@) == ticket_types(old(room_pool)@).to_multiset().insert(
                ComplexRoomType::Spawn,
            ),
        decreases room_pool@.len(), settings.retry_limit - failures,
    {
        let ghost failures_before = failures;
        proof {
            assert(room_well_formed(layout@[active as int]));
        }
        let anchors = free_placements(layout, &layout.rooms[active]);
        proof {
            if layout@.len() == 1 {
                let north = Chunk { x: 0, y: 1 };
                assert(layout@[0].chunks[0].touches(north));
                assert(borders(layout@[0].chunks, north));
                if is_populated(layout@, north) {
                    let holder = choose|holder: int| holds(layout@, holder, north);
                    assert(false);
                }
                assert(anchors@.contains(north));
            }
        }
        if anchors.len() == 0 {
            match after_turn(failures, false, settings) {
                Ok(count) => {
                    failures = count;
                },
                Err(error) => {
                    proof {
                        lemma_connected(layout@);
                    }
                    return Err(error);
                },
            }
            active = next_room(false, layout.rooms.len(), rng);
            continue ;
        }
        let anchor = anchors[rng.below(anchors.len())];
        let mut ticket = room_pool.fetch_random(rng);
        while ticket.must_wait(room_pool.len())
            invariant
                room_pool@.contains(ticket),
                failures_before <= failures <= settings.retry_limit,
                growing(layout@, room_pool@),
                layout@.len() + room_pool@.len() == old(room_pool)@.len() + 1,
                type_census(layout@, room_pool@) == ticket_types(
                    old(room_pool)@,
                ).to_multiset().insert(ComplexRoomType::Spawn),
            decreases settings.retry_limit - failures,
        {
            match after_turn(failures, false, settings) {
                Ok(count) => {
                    failures = count;
                },
                Err(error) => {
                    proof {
                        lemma_connected(layout@);
                    }
                    return Err(error);
                },
            }
            ticket = room_pool.fetch_random(rng);
        }
        proof {
            assert(anchors@.contains(anchor));
            let home = layout@[active as int].chunks;
            let k = choose|k: int| 0 <= k < home.len() && (#[trigger] home[k]).touches(anchor);
            assert(home[k].within(MAX_ROOM_SPAN * (layout@.len() - 1)));
            let at = choose|at: int| 0 <= at < room_pool@.len() && room_pool@[at] == ticket;
            assert(room_pool@[at].wf());
        }
        let room = build_room(layout, anchor, ticket, rng);
        proof {
            lemma_built_room(layout@, active as int, anchor, ticket, room@);
            if layout@.len() == 1 {
                if near_treasure(layout@, room@.chunks) {
                    let (i, chunk) = choose|i: int, chunk: Chunk|
                        #![trigger first_holder(layout@, i, chunk)]
                        first_holder(layout@, i, chunk) && layout@[i].room_type
                            == ComplexRoomType::Treasure && borders(room@.chunks, chunk);
                    assert(false);
                }
            }
        }
        let placed = settle(layout, room_pool, active, ticket, room, rng);
        match after_turn(failures, placed, settings) {
            Ok(count) => {
                failures = count;
            },
            Err(error) => {
                proof {
                    lemma_connected(layout@);
                }
                return Err(error);
            },
        }
        active = next_room(placed, layout.rooms.len(), rng);
    }
    let ghost grown_rooms = layout@;
    add_extra_doors(layout, rng, settings);
    proof {
        assert(room_types(layout@) == room_types(grown_rooms));
        assert(boss_only_at(layout@, old(room_pool)@.len() as int)) by {
            assert forall|i: int|
                0 <= i < layout@.len() && (#[trigger] layout@[i]).room_type
                    == ComplexRoomType::Boss implies i == old(room_pool)@.len() by {
                assert(grown_rooms[i].room_type == ComplexRoomType::Boss);
            }
        }
        lemma_connected(layout@);
        assert(ticket_types(room_pool@).to_multiset() =~= vstd::multiset::Multiset::<
            ComplexRoomType,
        >::empty()) by {
            broadcast use vstd::multiset::group_multiset_axioms;

            assert(ticket_types(room_pool@) == Seq::<ComplexRoomType>::empty());
            assert forall|t: ComplexRoomType| ticket_types(room_pool@).to_multiset().count(t)
                == 0 by {
                vstd::seq_lib::to_multiset_contains(ticket_types(room_pool@), t);
            }
        }
        assert(room_types(layout@).to_multiset() =~= type_census(layout@, room_pool@)) by {
            broadcast use vstd::multiset::group_multiset_axioms;

        }
        lemma_singletons(layout@, old(room_pool)@);
        if ticket_types(old(room_pool)@).to_multiset().count(ComplexRoomType::Boss) == 1 {
            lemma_boss_last(layout@);
        }
    }
    Ok(())
}

} // verus!
