use dungeon_layout::room_pool::MAX_ENEMY_SIZE;
use dungeon_layout::{ComplexRoomType, RandomSource, RoomPool, Ticket};

fn tickets_of(pool: &RoomPool) -> Vec<Ticket> {
    (0..pool.len()).map(|index| pool.ticket_at(index)).collect()
}

#[test]
fn a_new_pool_is_empty() {
    assert_eq!(RoomPool::new().len(), 0);
}

#[test]
fn push_adds_as_many_tickets_as_asked() {
    let mut rng = RandomSource::seeded(1);
    let mut pool = RoomPool::new();
    pool.push(ComplexRoomType::Enemy, 12, &mut rng);
    assert_eq!(pool.len(), 12);
    pool.push(ComplexRoomType::Shop, 1, &mut rng);
    pool.push(ComplexRoomType::Treasure, 2, &mut rng);
    pool.push(ComplexRoomType::Boss, 1, &mut rng);
    assert_eq!(pool.len(), 16);
    pool.push(ComplexRoomType::Treasure, 0, &mut rng);
    assert_eq!(pool.len(), 16);
}

#[test]
fn push_keeps_the_tickets_in_order() {
    let mut rng = RandomSource::seeded(1);
    let mut pool = RoomPool::new();
    pool.push(ComplexRoomType::Shop, 1, &mut rng);
    pool.push(ComplexRoomType::Boss, 2, &mut rng);
    pool.push(ComplexRoomType::Treasure, 1, &mut rng);
    let types: Vec<ComplexRoomType> =
        tickets_of(&pool).iter().map(|ticket| ticket.room_type).collect();
    assert_eq!(
        types,
        vec![
            ComplexRoomType::Shop,
            ComplexRoomType::Boss,
            ComplexRoomType::Boss,
            ComplexRoomType::Treasure,
        ]
    );
}

#[test]
fn enemy_tickets_ask_for_one_to_three_chunks() {
    let mut rng = RandomSource::seeded(17);
    let mut pool = RoomPool::new();
    pool.push(ComplexRoomType::Enemy, 300, &mut rng);
    let mut seen = [false; MAX_ENEMY_SIZE + 1];
    for ticket in tickets_of(&pool) {
        assert_eq!(ticket.room_type, ComplexRoomType::Enemy);
        assert!(ticket.size >= 1 && ticket.size <= 3);
        seen[ticket.size] = true;
    }
    assert_eq!(seen, [false, true, true, true]);
}

#[test]
fn fixed_tickets_ask_for_the_area_of_the_footprint() {
    assert_eq!(
        Ticket::fixed(ComplexRoomType::Treasure),
        Ticket { room_type: ComplexRoomType::Treasure, size: 1 }
    );
    assert_eq!(
        Ticket::fixed(ComplexRoomType::Shop),
        Ticket { room_type: ComplexRoomType::Shop, size: 2 }
    );
    assert_eq!(
        Ticket::fixed(ComplexRoomType::Boss),
        Ticket { room_type: ComplexRoomType::Boss, size: 6 }
    );
}

#[test]
fn enemy_ticket_from_a_roll() {
    assert_eq!(Ticket::enemy(0), Ticket { room_type: ComplexRoomType::Enemy, size: 1 });
    assert_eq!(Ticket::enemy(2), Ticket { room_type: ComplexRoomType::Enemy, size: 3 });
}

#[test]
fn fetch_random_leaves_the_pool_as_it_is() {
    let mut rng = RandomSource::seeded(23);
    let mut pool = RoomPool::new();
    pool.push(ComplexRoomType::Enemy, 4, &mut rng);
    pool.push(ComplexRoomType::Boss, 1, &mut rng);
    let before = tickets_of(&pool);
    for _ in 0..50 {
        let ticket = pool.fetch_random(&mut rng);
        assert!(before.contains(&ticket));
        assert_eq!(tickets_of(&pool), before);
    }
}

#[test]
fn fetch_random_reaches_every_ticket() {
    let mut rng = RandomSource::seeded(29);
    let mut pool = RoomPool::new();
    pool.push(ComplexRoomType::Shop, 1, &mut rng);
    pool.push(ComplexRoomType::Treasure, 1, &mut rng);
    pool.push(ComplexRoomType::Boss, 1, &mut rng);
    let mut seen = Vec::new();
    for _ in 0..200 {
        let ticket = pool.fetch_random(&mut rng);
        if !seen.contains(&ticket.room_type) {
            seen.push(ticket.room_type);
        }
    }
    assert_eq!(seen.len(), 3);
}

#[test]
fn pop_removes_one_matching_ticket() {
    let mut rng = RandomSource::seeded(31);
    let mut pool = RoomPool::new();
    pool.push(ComplexRoomType::Treasure, 2, &mut rng);
    pool.push(ComplexRoomType::Shop, 1, &mut rng);
    pool.pop(Ticket::fixed(ComplexRoomType::Treasure));
    assert_eq!(
        tickets_of(&pool),
        vec![Ticket::fixed(ComplexRoomType::Treasure), Ticket::fixed(ComplexRoomType::Shop)]
    );
    pool.pop(Ticket::fixed(ComplexRoomType::Shop));
    assert_eq!(tickets_of(&pool), vec![Ticket::fixed(ComplexRoomType::Treasure)]);
}

#[test]
fn pop_removes_the_first_of_equal_tickets() {
    let mut pool = RoomPool::new();
    pool.push_ticket(Ticket::enemy(0));
    pool.push_ticket(Ticket::enemy(1));
    pool.push_ticket(Ticket::enemy(0));
    pool.pop(Ticket::enemy(0));
    assert_eq!(tickets_of(&pool), vec![Ticket::enemy(1), Ticket::enemy(0)]);
}

#[test]
fn pop_of_a_missing_ticket_changes_nothing() {
    let mut rng = RandomSource::seeded(37);
    let mut pool = RoomPool::new();
    pool.push(ComplexRoomType::Shop, 1, &mut rng);
    pool.pop(Ticket::fixed(ComplexRoomType::Boss));
    assert_eq!(tickets_of(&pool), vec![Ticket::fixed(ComplexRoomType::Shop)]);
    let mut empty = RoomPool::new();
    empty.pop(Ticket::fixed(ComplexRoomType::Boss));
    assert_eq!(empty.len(), 0);
}

#[test]
fn pop_tells_tickets_of_one_type_by_size() {
    let mut pool = RoomPool::new();
    pool.push_ticket(Ticket::enemy(2));
    pool.pop(Ticket::enemy(1));
    assert_eq!(pool.len(), 1);
    pool.pop(Ticket::enemy(2));
    assert_eq!(pool.len(), 0);
}

#[test]
fn the_pool_of_a_level_holds_fifteen_to_seventeen_tickets() {
    let mut seen = [false; 4];
    for seed in 0..60 {
        let mut rng = RandomSource::seeded(seed);
        let pool = RoomPool::for_level(&mut rng);
        let types: Vec<ComplexRoomType> =
            tickets_of(&pool).iter().map(|ticket| ticket.room_type).collect();
        let treasures = types.len() - 14;
        assert!(treasures >= 1 && treasures <= 3);
        seen[treasures] = true;
        let mut expected = vec![ComplexRoomType::Enemy; 12];
        expected.push(ComplexRoomType::Shop);
        expected.extend(vec![ComplexRoomType::Treasure; treasures]);
        expected.push(ComplexRoomType::Boss);
        assert_eq!(types, expected);
    }
    assert_eq!(seen, [false, true, true, true]);
}

#[test]
fn a_boss_ticket_waits_unless_it_is_the_last() {
    let boss = Ticket::fixed(ComplexRoomType::Boss);
    assert!(boss.must_wait(16));
    assert!(boss.must_wait(2));
    assert!(!boss.must_wait(1));
    assert!(!Ticket::fixed(ComplexRoomType::Shop).must_wait(16));
    assert!(!Ticket::enemy(1).must_wait(2));
}
