use dungeon_layout::generator::{
    add_extra_doors, after_turn, build_room, free_neighbors, free_placements, generate_room,
    generate_specific_room, is_near_treasure, is_vacant_in, join_if, next_room,
    possible_positions, settle, valid_positions,
};
use dungeon_layout::{
    generate, Chunk, ComplexLayout, ComplexRoom, ComplexRoomDoor, ComplexRoomType,
    GenerationSettings, LayoutError, RandomSource, RoomPool, Ticket,
};

fn room_on(cells: &[(i32, i32)]) -> ComplexRoom {
    ComplexRoom::new(cells.iter().map(|&(x, y)| Chunk::new(x, y)).collect())
}

fn typed_room(room_type: ComplexRoomType, cells: &[(i32, i32)]) -> ComplexRoom {
    let mut room = room_on(cells);
    room.room_type = room_type;
    room
}

fn standard_pool(rng: &mut RandomSource, treasures: usize) -> RoomPool {
    let mut pool = RoomPool::new();
    pool.push(ComplexRoomType::Enemy, 12, rng);
    pool.push(ComplexRoomType::Shop, 1, rng);
    pool.push(ComplexRoomType::Treasure, treasures, rng);
    pool.push(ComplexRoomType::Boss, 1, rng);
    pool
}

fn generated(seed: u64, treasures: usize, settings: &GenerationSettings) -> ComplexLayout {
    let mut rng = RandomSource::seeded(seed);
    let mut pool = standard_pool(&mut rng, treasures);
    let mut layout = ComplexLayout::new();
    assert_eq!(generate(&mut layout, &mut pool, &mut rng, settings), Ok(()));
    assert_eq!(pool.len(), 0);
    layout
}

fn count_of(layout: &ComplexLayout, room_type: ComplexRoomType) -> usize {
    layout.rooms.iter().filter(|room| room.room_type == room_type).count()
}

fn owner(layout: &ComplexLayout, chunk: Chunk) -> Option<usize> {
    layout.rooms.iter().position(|room| room.chunks.contains(&chunk))
}

fn reachable_from_spawn(layout: &ComplexLayout) -> Vec<bool> {
    let mut seen = vec![false; layout.rooms.len()];
    let mut stack = vec![0usize];
    seen[0] = true;
    while let Some(index) = stack.pop() {
        for door in &layout.rooms[index].doors {
            let next = owner(layout, door.to).unwrap();
            if !seen[next] {
                seen[next] = true;
                stack.push(next);
            }
        }
    }
    seen
}

fn is_rectangle(chunks: &[Chunk], width: i32, height: i32) -> bool {
    let left = chunks.iter().map(|chunk| chunk.x).min().unwrap();
    let bottom = chunks.iter().map(|chunk| chunk.y).min().unwrap();
    if chunks.len() != (width * height) as usize {
        return false;
    }
    for dx in 0..width {
        for dy in 0..height {
            if !chunks.contains(&Chunk::new(left + dx, bottom + dy)) {
                return false;
            }
        }
    }
    true
}

fn check_layout(layout: &ComplexLayout) {
    // no chunk belongs to two rooms, and no room lists a chunk twice
    let all = layout.get_populated_chunks();
    for (at, chunk) in all.iter().enumerate() {
        assert!(!all[..at].contains(chunk));
    }
    // one spawn room, the first, on the origin
    assert_eq!(layout.rooms[0].room_type, ComplexRoomType::Spawn);
    assert_eq!(layout.rooms[0].chunks, vec![Chunk::new(0, 0)]);
    assert_eq!(count_of(layout, ComplexRoomType::Spawn), 1);
    // every room can be reached from the spawn room
    assert!(reachable_from_spawn(layout).iter().all(|&seen| seen));
    for (index, room) in layout.rooms.iter().enumerate() {
        assert!(!room.chunks.is_empty());
        for (at, door) in room.doors.iter().enumerate() {
            // doors are listed once, join neighbours and lead into another room,
            // which holds the door back
            assert!(!room.doors[..at].contains(door));
            assert!(door.from.is_touching(&door.to));
            assert_eq!(owner(layout, door.from), Some(index));
            let other = owner(layout, door.to).unwrap();
            assert_ne!(other, index);
            let back = ComplexRoomDoor { from: door.to, to: door.from };
            assert!(layout.rooms[other].doors.contains(&back));
        }
        match room.room_type {
            ComplexRoomType::Spawn | ComplexRoomType::Treasure => {
                assert_eq!(room.chunks.len(), 1)
            },
            ComplexRoomType::Shop => assert!(is_rectangle(&room.chunks, 2, 1)),
            ComplexRoomType::Boss => assert!(is_rectangle(&room.chunks, 3, 2)),
            ComplexRoomType::Enemy => {
                assert!(room.chunks.len() >= 1 && room.chunks.len() <= 3);
                for pair in room.chunks.windows(2) {
                    assert!(pair[0].is_touching(&pair[1]));
                }
            },
        }
        if room.room_type == ComplexRoomType::Treasure {
            for (other_index, other) in layout.rooms.iter().enumerate() {
                if other_index != index && other.room_type == ComplexRoomType::Treasure {
                    assert!(!room.is_adjacent(other));
                }
            }
        }
    }
}

#[test]
fn sixteen_tickets_give_seventeen_rooms() {
    let layout = generated(42, 2, &GenerationSettings::new(10_000));
    assert_eq!(layout.rooms.len(), 17);
    assert_eq!(layout.rooms[0].room_type, ComplexRoomType::Spawn);
    assert_eq!(layout.rooms[16].room_type, ComplexRoomType::Boss);
    assert_eq!(count_of(&layout, ComplexRoomType::Enemy), 12);
    assert_eq!(count_of(&layout, ComplexRoomType::Shop), 1);
    assert_eq!(count_of(&layout, ComplexRoomType::Treasure), 2);
    assert_eq!(count_of(&layout, ComplexRoomType::Boss), 1);
    assert_eq!(count_of(&layout, ComplexRoomType::Spawn), 1);
    check_layout(&layout);
}

#[test]
fn the_same_seed_gives_the_same_layout() {
    let settings = GenerationSettings::new(10_000);
    let first = generated(42, 2, &settings);
    let second = generated(42, 2, &settings);
    assert_eq!(first, second);
    let other = generated(43, 2, &settings);
    assert_ne!(first, other);
}

#[test]
fn a_boss_ticket_alone_is_placed_at_once() {
    let mut rng = RandomSource::seeded(5);
    let mut pool = RoomPool::new();
    pool.push(ComplexRoomType::Enemy, 0, &mut rng);
    pool.push(ComplexRoomType::Shop, 0, &mut rng);
    pool.push(ComplexRoomType::Treasure, 0, &mut rng);
    pool.push(ComplexRoomType::Boss, 1, &mut rng);
    let mut layout = ComplexLayout::new();
    // Around the spawn room alone every draw is the boss ticket and every
    // anchor takes the footprint: no retry is needed.
    let settings = GenerationSettings::new(0);
    assert_eq!(generate(&mut layout, &mut pool, &mut rng, &settings), Ok(()));
    assert_eq!(layout.rooms.len(), 2);
    assert_eq!(layout.rooms[0].room_type, ComplexRoomType::Spawn);
    assert_eq!(layout.rooms[1].room_type, ComplexRoomType::Boss);
    assert_eq!(pool.len(), 0);
    check_layout(&layout);
}

#[test]
fn an_empty_pool_leaves_the_spawn_room_alone() {
    let mut rng = RandomSource::seeded(5);
    let mut pool = RoomPool::new();
    let mut layout = ComplexLayout::new();
    let settings = GenerationSettings::new(0);
    assert_eq!(generate(&mut layout, &mut pool, &mut rng, &settings), Ok(()));
    assert_eq!(layout.rooms, vec![typed_room(ComplexRoomType::Spawn, &[(0, 0)])]);
}

#[test]
fn generated_layouts_are_in_order_for_many_seeds() {
    let settings = GenerationSettings::new(10_000);
    for seed in 0..60 {
        let treasures = 1 + (seed as usize % 3);
        let layout = generated(seed, treasures, &settings);
        assert_eq!(layout.rooms.len(), 15 + treasures);
        assert_eq!(layout.rooms[14 + treasures].room_type, ComplexRoomType::Boss);
        assert_eq!(count_of(&layout, ComplexRoomType::Boss), 1);
        assert_eq!(count_of(&layout, ComplexRoomType::Treasure), treasures);
        check_layout(&layout);
    }
}

#[test]
fn the_boss_room_is_placed_last() {
    let settings = GenerationSettings::new(10_000);
    for seed in 100..130 {
        let layout = generated(seed, 3, &settings);
        for (index, room) in layout.rooms.iter().enumerate() {
            assert_eq!(room.room_type == ComplexRoomType::Boss, index == layout.rooms.len() - 1);
        }
    }
}

#[test]
fn two_boss_tickets_run_into_the_retry_limit() {
    let mut rng = RandomSource::seeded(9);
    let mut pool = RoomPool::new();
    pool.push(ComplexRoomType::Boss, 2, &mut rng);
    let mut layout = ComplexLayout::new();
    let settings = GenerationSettings::new(25);
    assert_eq!(
        generate(&mut layout, &mut pool, &mut rng, &settings),
        Err(LayoutError::RetryLimitReached)
    );
    assert_eq!(layout.rooms.len(), 1);
    assert_eq!(pool.len(), 2);
    check_layout(&layout);
}

#[test]
fn what_was_placed_stays_when_the_retry_limit_is_reached() {
    let mut rng = RandomSource::seeded(13);
    let mut pool = RoomPool::new();
    pool.push(ComplexRoomType::Enemy, 3, &mut rng);
    pool.push(ComplexRoomType::Boss, 2, &mut rng);
    let mut layout = ComplexLayout::new();
    let settings = GenerationSettings::new(200);
    assert_eq!(
        generate(&mut layout, &mut pool, &mut rng, &settings),
        Err(LayoutError::RetryLimitReached)
    );
    assert_eq!(layout.rooms.len(), 4);
    assert_eq!(count_of(&layout, ComplexRoomType::Enemy), 3);
    assert_eq!(count_of(&layout, ComplexRoomType::Boss), 0);
    assert_eq!(pool.len(), 2);
    check_layout(&layout);
}

#[test]
fn without_extra_doors_each_room_has_one_door_to_its_parent() {
    let settings =
        GenerationSettings { retry_limit: 10_000, door_numerator: 0, door_denominator: 1 };
    for seed in 0..20 {
        let layout = generated(seed, 2, &settings);
        let doors: usize = layout.rooms.iter().map(|room| room.doors.len()).sum();
        assert_eq!(doors, 2 * (layout.rooms.len() - 1));
        check_layout(&layout);
    }
}

#[test]
fn with_sure_extra_doors_all_rooms_that_share_an_edge_are_joined() {
    let settings =
        GenerationSettings { retry_limit: 10_000, door_numerator: 1, door_denominator: 1 };
    for seed in 0..20 {
        let layout = generated(seed, 2, &settings);
        check_layout(&layout);
        for (index, room) in layout.rooms.iter().enumerate() {
            for (other_index, other) in layout.rooms.iter().enumerate() {
                if index != other_index && room.is_adjacent(other) {
                    assert!(room
                        .doors
                        .iter()
                        .any(|door| owner(&layout, door.to) == Some(other_index)));
                }
            }
        }
    }
}

#[test]
fn extra_doors_with_odds_of_zero_change_nothing() {
    let mut rng = RandomSource::seeded(3);
    let mut layout = ComplexLayout::new();
    layout.rooms.push(typed_room(ComplexRoomType::Spawn, &[(0, 0)]));
    layout.rooms.push(room_on(&[(1, 0)]));
    layout.insert_door_by_chunks(Chunk::new(0, 0), Chunk::new(1, 0));
    let before = layout.clone();
    let settings = GenerationSettings { retry_limit: 0, door_numerator: 0, door_denominator: 5 };
    add_extra_doors(&mut layout, &mut rng, &settings);
    assert_eq!(layout, before);
}

#[test]
fn extra_doors_join_rooms_that_share_an_edge() {
    let mut rng = RandomSource::seeded(3);
    let mut layout = ComplexLayout::new();
    layout.rooms.push(typed_room(ComplexRoomType::Spawn, &[(0, 0)]));
    layout.rooms.push(room_on(&[(1, 0), (1, 1)]));
    layout.rooms.push(room_on(&[(0, 1)]));
    layout.insert_door_by_chunks(Chunk::new(0, 0), Chunk::new(1, 0));
    layout.insert_door_by_chunks(Chunk::new(1, 1), Chunk::new(0, 1));
    let settings = GenerationSettings { retry_limit: 0, door_numerator: 1, door_denominator: 1 };
    add_extra_doors(&mut layout, &mut rng, &settings);
    // the spawn room and the third room share the edge between (0,0) and (0,1)
    assert!(layout.rooms[0].doors.contains(&ComplexRoomDoor {
        from: Chunk::new(0, 0),
        to: Chunk::new(0, 1)
    }));
    assert!(layout.rooms[2].doors.contains(&ComplexRoomDoor {
        from: Chunk::new(0, 1),
        to: Chunk::new(0, 0)
    }));
    check_layout(&layout);
}

#[test]
fn settings_default_to_even_odds() {
    assert_eq!(
        GenerationSettings::new(7),
        GenerationSettings { retry_limit: 7, door_numerator: 1, door_denominator: 2 }
    );
}

#[test]
fn free_neighbors_leave_out_taken_and_populated_chunks() {
    let mut layout = ComplexLayout::new();
    layout.rooms.push(room_on(&[(0, 1)]));
    let taken = vec![Chunk::new(0, 0), Chunk::new(1, 0)];
    // north is populated, east is taken: south and west are left, in that order
    assert_eq!(
        free_neighbors(&layout, &taken, Chunk::new(0, 0)),
        vec![Chunk::new(0, -1), Chunk::new(-1, 0)]
    );
    assert_eq!(
        free_neighbors(&ComplexLayout::new(), &Vec::new(), Chunk::new(0, 0)),
        vec![Chunk::new(0, 1), Chunk::new(0, -1), Chunk::new(1, 0), Chunk::new(-1, 0)]
    );
}

#[test]
fn an_enemy_room_grows_as_a_walk_on_free_chunks() {
    let mut layout = ComplexLayout::new();
    layout.rooms.push(typed_room(ComplexRoomType::Spawn, &[(0, 0)]));
    for seed in 0..40 {
        let mut rng = RandomSource::seeded(seed);
        let room = generate_room(Chunk::new(1, 0), 3, &layout, &mut rng);
        assert_eq!(room.room_type, ComplexRoomType::Enemy);
        assert!(room.doors.is_empty());
        assert_eq!(room.chunks.len(), 3);
        assert_eq!(room.chunks[0], Chunk::new(1, 0));
        for (at, chunk) in room.chunks.iter().enumerate() {
            assert!(!room.chunks[..at].contains(chunk));
            assert_ne!(*chunk, Chunk::new(0, 0));
            if at > 0 {
                assert!(room.chunks[at - 1].is_touching(chunk));
            }
        }
    }
}

#[test]
fn an_enemy_room_of_size_one_or_zero_is_its_starting_chunk() {
    let layout = ComplexLayout::new();
    let mut rng = RandomSource::seeded(1);
    assert_eq!(generate_room(Chunk::new(4, 4), 1, &layout, &mut rng).chunks, vec![Chunk::new(4, 4)]);
    assert_eq!(generate_room(Chunk::new(4, 4), 0, &layout, &mut rng).chunks, vec![Chunk::new(4, 4)]);
}

#[test]
fn an_enemy_room_stops_early_when_it_is_walled_in() {
    // (0,0) is free, all four neighbours are populated
    let mut layout = ComplexLayout::new();
    layout.rooms.push(room_on(&[(0, 1), (0, -1), (1, 0), (-1, 0)]));
    let mut rng = RandomSource::seeded(1);
    let room = generate_room(Chunk::new(0, 0), 3, &layout, &mut rng);
    assert_eq!(room.chunks, vec![Chunk::new(0, 0)]);
}

#[test]
fn an_enemy_room_takes_the_only_way_out() {
    // from (0,0) only east is free, from (1,0) only north
    let mut layout = ComplexLayout::new();
    layout.rooms.push(room_on(&[(0, 1), (0, -1), (-1, 0), (1, -1), (2, 0)]));
    let mut rng = RandomSource::seeded(8);
    let room = generate_room(Chunk::new(0, 0), 3, &layout, &mut rng);
    assert_eq!(room.chunks, vec![Chunk::new(0, 0), Chunk::new(1, 0), Chunk::new(1, 1)]);
}

#[test]
fn possible_positions_cover_the_starting_chunk_in_every_way() {
    let positions = possible_positions(Chunk::new(0, 0), 2, 1);
    assert_eq!(
        positions,
        vec![
            vec![Chunk::new(0, 0), Chunk::new(-1, 0)],
            vec![Chunk::new(1, 0), Chunk::new(0, 0)],
        ]
    );
    let boss = possible_positions(Chunk::new(3, 3), 3, 2);
    assert_eq!(boss.len(), 6);
    for position in &boss {
        assert_eq!(position.len(), 6);
        assert!(position.contains(&Chunk::new(3, 3)));
        assert!(is_rectangle(position, 3, 2));
    }
    // the first has the starting chunk as its top right corner, the last as
    // its bottom left corner
    assert_eq!(boss[0][0], Chunk::new(3, 3));
    assert_eq!(boss[5][0], Chunk::new(5, 4));
    assert!(possible_positions(Chunk::new(0, 0), 0, 3).is_empty());
}

#[test]
fn vacant_means_that_no_chunk_is_populated() {
    let mut layout = ComplexLayout::new();
    layout.rooms.push(room_on(&[(0, 0), (1, 0)]));
    assert!(is_vacant_in(&layout, &vec![Chunk::new(2, 0), Chunk::new(0, 1)]));
    assert!(!is_vacant_in(&layout, &vec![Chunk::new(2, 0), Chunk::new(1, 0)]));
    assert!(is_vacant_in(&layout, &Vec::new()));
}

#[test]
fn valid_positions_touch_no_room() {
    let mut layout = ComplexLayout::new();
    layout.rooms.push(typed_room(ComplexRoomType::Spawn, &[(0, 0)]));
    // a shop over (1,0): to the left it would cover the spawn room
    assert_eq!(
        valid_positions(&layout, Chunk::new(1, 0), 2, 1),
        vec![vec![Chunk::new(2, 0), Chunk::new(1, 0)]]
    );
    layout.rooms.push(room_on(&[(2, 0)]));
    assert!(valid_positions(&layout, Chunk::new(1, 0), 2, 1).is_empty());
}

#[test]
fn a_specific_room_takes_one_of_the_valid_positions() {
    let mut layout = ComplexLayout::new();
    layout.rooms.push(typed_room(ComplexRoomType::Spawn, &[(0, 0)]));
    let mut seen = Vec::new();
    for seed in 0..60 {
        let mut rng = RandomSource::seeded(seed);
        let room =
            generate_specific_room(Chunk::new(0, 1), 3, 2, &layout, ComplexRoomType::Boss, &mut rng);
        assert_eq!(room.room_type, ComplexRoomType::Boss);
        assert!(room.doors.is_empty());
        assert!(is_rectangle(&room.chunks, 3, 2));
        assert!(room.chunks.contains(&Chunk::new(0, 1)));
        assert!(!room.chunks.contains(&Chunk::new(0, 0)));
        if !seen.contains(&room.chunks) {
            seen.push(room.chunks);
        }
    }
    // three columns to put the starting chunk in, always in the bottom row
    assert_eq!(seen.len(), 3);
}

#[test]
fn a_specific_room_without_a_valid_position_has_no_chunks() {
    let mut layout = ComplexLayout::new();
    layout.rooms.push(room_on(&[(0, 0), (2, 0)]));
    let mut rng = RandomSource::seeded(1);
    let room =
        generate_specific_room(Chunk::new(1, 0), 2, 1, &layout, ComplexRoomType::Shop, &mut rng);
    assert!(room.chunks.is_empty());
    assert_eq!(room.room_type, ComplexRoomType::Shop);
}

#[test]
fn near_treasure_looks_at_the_chunks_around_the_room() {
    let mut layout = ComplexLayout::new();
    layout.rooms.push(typed_room(ComplexRoomType::Spawn, &[(0, 0)]));
    layout.rooms.push(typed_room(ComplexRoomType::Treasure, &[(2, 0)]));
    assert!(is_near_treasure(&layout, &room_on(&[(3, 0)])));
    assert!(is_near_treasure(&layout, &room_on(&[(1, 0)])));
    assert!(is_near_treasure(&layout, &room_on(&[(2, 2), (2, 1)])));
    // a corner is no edge, and the spawn room is no treasure room
    assert!(!is_near_treasure(&layout, &room_on(&[(3, 1)])));
    assert!(!is_near_treasure(&layout, &room_on(&[(0, 1)])));
    assert!(!is_near_treasure(&layout, &room_on(&[])));
}

#[test]
fn free_placements_are_the_free_chunks_around_the_room() {
    let mut layout = ComplexLayout::new();
    layout.rooms.push(typed_room(ComplexRoomType::Spawn, &[(0, 0)]));
    layout.rooms.push(room_on(&[(1, 0)]));
    layout.rooms.push(room_on(&[(0, 1)]));
    let anchors = free_placements(&layout, &layout.rooms[0]);
    assert_eq!(anchors.len(), 2);
    assert!(anchors.contains(&Chunk::new(0, -1)));
    assert!(anchors.contains(&Chunk::new(-1, 0)));
    layout.rooms.push(room_on(&[(0, -1), (-1, 0)]));
    assert!(free_placements(&layout, &layout.rooms[0]).is_empty());
}

#[test]
fn generation_escapes_from_a_room_that_is_walled_in() {
    // Treasure rooms of one chunk wall the active room in quickly; the
    // layout still completes by growing from another room.
    let settings = GenerationSettings::new(100_000);
    for seed in 0..10 {
        let mut rng = RandomSource::seeded(seed);
        let mut pool = RoomPool::new();
        pool.push(ComplexRoomType::Enemy, 30, &mut rng);
        pool.push(ComplexRoomType::Shop, 4, &mut rng);
        let mut layout = ComplexLayout::new();
        assert_eq!(generate(&mut layout, &mut pool, &mut rng, &settings), Ok(()));
        assert_eq!(layout.rooms.len(), 35);
        check_layout(&layout);
    }
}

#[test]
fn tickets_are_redeemed_one_per_room() {
    let mut rng = RandomSource::seeded(77);
    let mut pool = RoomPool::new();
    pool.push_ticket(Ticket::enemy(2));
    pool.push_ticket(Ticket::fixed(ComplexRoomType::Shop));
    let mut layout = ComplexLayout::new();
    assert_eq!(generate(&mut layout, &mut pool, &mut rng, &GenerationSettings::new(1000)), Ok(()));
    assert_eq!(layout.rooms.len(), 3);
    assert_eq!(count_of(&layout, ComplexRoomType::Enemy), 1);
    assert_eq!(count_of(&layout, ComplexRoomType::Shop), 1);
    assert_eq!(pool.len(), 0);
}

#[test]
fn a_single_ticket_needs_no_retry() {
    let settings = GenerationSettings::new(0);
    for seed in 0..40 {
        for ticket in [
            Ticket::enemy(0),
            Ticket::enemy(2),
            Ticket::fixed(ComplexRoomType::Shop),
            Ticket::fixed(ComplexRoomType::Treasure),
            Ticket::fixed(ComplexRoomType::Boss),
        ] {
            let mut rng = RandomSource::seeded(seed);
            let mut pool = RoomPool::new();
            pool.push_ticket(ticket);
            let mut layout = ComplexLayout::new();
            assert_eq!(generate(&mut layout, &mut pool, &mut rng, &settings), Ok(()));
            assert_eq!(layout.rooms.len(), 2);
            assert_eq!(layout.rooms[1].room_type, ticket.room_type);
            assert_eq!(layout.rooms[1].chunks.len(), ticket.size);
            check_layout(&layout);
        }
    }
}

/// The spawn room alone, as generation leaves it for an empty pool.
fn spawn_alone() -> ComplexLayout {
    let mut rng = RandomSource::seeded(0);
    let mut layout = ComplexLayout::new();
    let mut pool = RoomPool::new();
    assert_eq!(generate(&mut layout, &mut pool, &mut rng, &GenerationSettings::new(0)), Ok(()));
    layout
}

fn pool_of(tickets: &[Ticket]) -> RoomPool {
    let mut pool = RoomPool::new();
    for &ticket in tickets {
        pool.push_ticket(ticket);
    }
    pool
}

#[test]
fn build_room_grows_an_enemy_room_to_the_size_on_the_ticket() {
    let layout = spawn_alone();
    for seed in 0..20 {
        for roll in 0..3 {
            let mut rng = RandomSource::seeded(seed);
            let room = build_room(&layout, Chunk::new(0, 1), Ticket::enemy(roll), &mut rng);
            assert_eq!(room.room_type, ComplexRoomType::Enemy);
            assert!(room.doors.is_empty());
            assert_eq!(room.chunks.len(), roll + 1);
            assert_eq!(room.chunks[0], Chunk::new(0, 1));
            assert!(!room.chunks.contains(&Chunk::new(0, 0)));
        }
    }
}

#[test]
fn build_room_lays_the_footprint_of_the_type() {
    let layout = spawn_alone();
    let mut rng = RandomSource::seeded(4);
    let shop = build_room(&layout, Chunk::new(1, 0), Ticket::fixed(ComplexRoomType::Shop), &mut rng);
    assert_eq!(shop.room_type, ComplexRoomType::Shop);
    assert_eq!(shop.chunks, vec![Chunk::new(2, 0), Chunk::new(1, 0)]);
    let treasure =
        build_room(&layout, Chunk::new(0, -1), Ticket::fixed(ComplexRoomType::Treasure), &mut rng);
    assert_eq!(treasure.chunks, vec![Chunk::new(0, -1)]);
    let boss = build_room(&layout, Chunk::new(-1, 0), Ticket::fixed(ComplexRoomType::Boss), &mut rng);
    assert_eq!(boss.room_type, ComplexRoomType::Boss);
    assert!(is_rectangle(&boss.chunks, 3, 2));
    assert!(boss.chunks.contains(&Chunk::new(-1, 0)));
    assert!(!boss.chunks.contains(&Chunk::new(0, 0)));
}

#[test]
fn build_room_gives_no_chunks_where_the_footprint_fits_nowhere() {
    let mut layout = ComplexLayout::new();
    layout.rooms.push(room_on(&[(0, 0), (2, 0)]));
    let mut rng = RandomSource::seeded(4);
    let shop = build_room(&layout, Chunk::new(1, 0), Ticket::fixed(ComplexRoomType::Shop), &mut rng);
    assert!(shop.chunks.is_empty());
    assert_eq!(shop.room_type, ComplexRoomType::Shop);
}

#[test]
fn settle_places_the_room_and_joins_it_to_the_active_room() {
    let mut rng = RandomSource::seeded(6);
    let mut layout = spawn_alone();
    let ticket = Ticket::fixed(ComplexRoomType::Shop);
    let mut pool = pool_of(&[Ticket::enemy(0), ticket]);
    let room = build_room(&layout, Chunk::new(1, 0), ticket, &mut rng);
    assert!(settle(&mut layout, &mut pool, 0, ticket, room, &mut rng));
    assert_eq!(layout.rooms.len(), 2);
    assert_eq!(layout.rooms[1].room_type, ComplexRoomType::Shop);
    assert_eq!(layout.rooms[1].chunks, vec![Chunk::new(2, 0), Chunk::new(1, 0)]);
    assert_eq!(
        layout.rooms[0].doors,
        vec![ComplexRoomDoor { from: Chunk::new(0, 0), to: Chunk::new(1, 0) }]
    );
    assert_eq!(
        layout.rooms[1].doors,
        vec![ComplexRoomDoor { from: Chunk::new(1, 0), to: Chunk::new(0, 0) }]
    );
    assert_eq!(pool.len(), 1);
    assert_eq!(pool.ticket_at(0), Ticket::enemy(0));
    check_layout(&layout);
}

#[test]
fn settle_joins_the_room_to_the_room_it_grew_from() {
    let mut rng = RandomSource::seeded(6);
    let mut layout = spawn_alone();
    let mut pool = pool_of(&[Ticket::enemy(0), Ticket::enemy(0)]);
    let first = build_room(&layout, Chunk::new(1, 0), Ticket::enemy(0), &mut rng);
    assert!(settle(&mut layout, &mut pool, 0, Ticket::enemy(0), first, &mut rng));
    // the second room touches both rooms and grows from the first
    let second = build_room(&layout, Chunk::new(2, 0), Ticket::enemy(0), &mut rng);
    assert!(settle(&mut layout, &mut pool, 1, Ticket::enemy(0), second, &mut rng));
    assert_eq!(
        layout.rooms[2].doors,
        vec![ComplexRoomDoor { from: Chunk::new(2, 0), to: Chunk::new(1, 0) }]
    );
    assert_eq!(layout.rooms[0].doors.len(), 1);
    assert_eq!(layout.rooms[1].doors.len(), 2);
    assert_eq!(pool.len(), 0);
    check_layout(&layout);
}

#[test]
fn settle_lets_a_boss_ticket_wait() {
    let mut rng = RandomSource::seeded(6);
    let mut layout = spawn_alone();
    let boss = Ticket::fixed(ComplexRoomType::Boss);
    let mut pool = pool_of(&[Ticket::enemy(0), boss]);
    let room = build_room(&layout, Chunk::new(1, 0), boss, &mut rng);
    assert!(!settle(&mut layout, &mut pool, 0, boss, room, &mut rng));
    assert_eq!(layout, spawn_alone());
    assert_eq!(pool.len(), 2);
    // alone in the pool the same ticket is placed
    let mut last = pool_of(&[boss]);
    let room = build_room(&layout, Chunk::new(1, 0), boss, &mut rng);
    assert!(settle(&mut layout, &mut last, 0, boss, room, &mut rng));
    assert_eq!(layout.rooms.len(), 2);
    assert_eq!(last.len(), 0);
}

#[test]
fn settle_fails_on_a_room_without_chunks() {
    let mut rng = RandomSource::seeded(6);
    let mut layout = spawn_alone();
    let ticket = Ticket::fixed(ComplexRoomType::Shop);
    let mut pool = pool_of(&[ticket]);
    let room = typed_room(ComplexRoomType::Shop, &[]);
    assert!(!settle(&mut layout, &mut pool, 0, ticket, room, &mut rng));
    assert_eq!(layout, spawn_alone());
    assert_eq!(pool.len(), 1);
}

#[test]
fn settle_keeps_treasure_rooms_apart() {
    let mut rng = RandomSource::seeded(6);
    let mut layout = spawn_alone();
    let treasure = Ticket::fixed(ComplexRoomType::Treasure);
    let mut pool = pool_of(&[treasure, treasure]);
    let first = build_room(&layout, Chunk::new(0, 1), treasure, &mut rng);
    assert!(settle(&mut layout, &mut pool, 0, treasure, first, &mut rng));
    let before = layout.clone();
    // next to the first treasure room: refused
    let beside = build_room(&layout, Chunk::new(0, 2), treasure, &mut rng);
    assert!(!settle(&mut layout, &mut pool, 1, treasure, beside, &mut rng));
    assert_eq!(layout, before);
    assert_eq!(pool.len(), 1);
    // at a corner of it: placed
    let apart = build_room(&layout, Chunk::new(1, 0), treasure, &mut rng);
    assert!(settle(&mut layout, &mut pool, 0, treasure, apart, &mut rng));
    assert_eq!(layout.rooms.len(), 3);
    assert_eq!(pool.len(), 0);
    check_layout(&layout);
}

#[test]
fn after_turn_counts_failures_in_a_row() {
    let settings = GenerationSettings::new(2);
    assert_eq!(after_turn(0, false, &settings), Ok(1));
    assert_eq!(after_turn(1, false, &settings), Ok(2));
    assert_eq!(after_turn(2, false, &settings), Err(LayoutError::RetryLimitReached));
    assert_eq!(after_turn(7, false, &settings), Err(LayoutError::RetryLimitReached));
}

#[test]
fn after_turn_starts_again_after_a_placement() {
    let settings = GenerationSettings::new(2);
    assert_eq!(after_turn(0, true, &settings), Ok(0));
    assert_eq!(after_turn(2, true, &settings), Ok(0));
    assert_eq!(after_turn(0, true, &GenerationSettings::new(0)), Ok(0));
    assert_eq!(
        after_turn(0, false, &GenerationSettings::new(0)),
        Err(LayoutError::RetryLimitReached)
    );
}

#[test]
fn the_next_turn_grows_from_the_room_just_placed() {
    let mut rng = RandomSource::seeded(2);
    for rooms in 1..20 {
        assert_eq!(next_room(true, rooms, &mut rng), rooms - 1);
    }
}

#[test]
fn after_a_failure_the_next_turn_grows_from_any_room() {
    let mut rng = RandomSource::seeded(2);
    let mut seen = [false; 5];
    for _ in 0..200 {
        let active = next_room(false, 5, &mut rng);
        assert!(active < 5);
        seen[active] = true;
    }
    assert_eq!(seen, [true; 5]);
}

/// The spawn room with an enemy room on (1,0) and (1,1), and one on (0,1)
/// that grew from it: the spawn room and the third room share an edge and
/// have no door.
fn ring_of_three() -> ComplexLayout {
    let mut rng = RandomSource::seeded(1);
    let mut layout = spawn_alone();
    let mut pool = pool_of(&[Ticket::enemy(1), Ticket::enemy(0)]);
    let mut second = room_on(&[(1, 0), (1, 1)]);
    second.room_type = ComplexRoomType::Enemy;
    assert!(settle(&mut layout, &mut pool, 0, Ticket::enemy(1), second, &mut rng));
    let third = room_on(&[(0, 1)]);
    assert!(settle(&mut layout, &mut pool, 1, Ticket::enemy(0), third, &mut rng));
    assert!(layout.rooms[0].is_adjacent(&layout.rooms[2]));
    assert_eq!(layout.rooms[0].doors.len(), 1);
    layout
}

#[test]
fn join_if_adds_a_door_on_a_hit() {
    let mut rng = RandomSource::seeded(3);
    let mut layout = ring_of_three();
    join_if(&mut layout, 0, 2, true, &mut rng);
    assert!(layout.rooms[0].doors.contains(&ComplexRoomDoor {
        from: Chunk::new(0, 0),
        to: Chunk::new(0, 1)
    }));
    assert!(layout.rooms[2].doors.contains(&ComplexRoomDoor {
        from: Chunk::new(0, 1),
        to: Chunk::new(0, 0)
    }));
    assert_eq!(layout.rooms[0].doors.len(), 2);
    assert_eq!(layout.rooms[1].doors, ring_of_three().rooms[1].doors);
    check_layout(&layout);
}

#[test]
fn join_if_changes_nothing_on_a_miss() {
    let mut rng = RandomSource::seeded(3);
    let mut layout = ring_of_three();
    join_if(&mut layout, 0, 2, false, &mut rng);
    join_if(&mut layout, 0, 1, false, &mut rng);
    assert_eq!(layout, ring_of_three());
}

#[test]
fn join_if_changes_nothing_for_rooms_apart() {
    let mut rng = RandomSource::seeded(3);
    let mut layout = spawn_alone();
    let mut pool = pool_of(&[Ticket::enemy(0), Ticket::enemy(0)]);
    assert!(settle(&mut layout, &mut pool, 0, Ticket::enemy(0), room_on(&[(1, 0)]), &mut rng));
    assert!(settle(&mut layout, &mut pool, 1, Ticket::enemy(0), room_on(&[(2, 0)]), &mut rng));
    let before = layout.clone();
    join_if(&mut layout, 0, 2, true, &mut rng);
    assert_eq!(layout, before);
}
