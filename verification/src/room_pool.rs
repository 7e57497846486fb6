//! The pool of tickets that a generation run redeems, one per room.

use vstd::prelude::*;
use crate::random::RandomSource;
use crate::room::ComplexRoomType;

verus! {

/// Largest number of chunks that an enemy room is asked to have.
pub const MAX_ENEMY_SIZE: usize = 3;

/// One pending room: its type and the number of chunks it asks for.
#[derive(Clone, Copy, Debug, PartialEq, Eq, Hash, Structural)]
pub struct Ticket {
    pub room_type: ComplexRoomType,
    pub size: usize,
}

impl Ticket {
    /// A ticket that a pool may hold: never for the spawn room, between one
    /// and three chunks for an enemy room, and the area of the footprint for
    /// the other types.
    pub open spec fn wf(self) -> bool {
        match self.room_type.footprint() {
            Some((width, height)) => self.room_type != ComplexRoomType::Spawn && self.size
                == width * height,
            None => 1 <= self.size <= MAX_ENEMY_SIZE,
        }
    }

    /// Whether the ticket has to wait while `outstanding` tickets are in
    /// the pool: the boss room is placed last, when its ticket is the only
    /// one left.
    pub fn must_wait(&self, outstanding: usize) -> (wait: bool)
        ensures
            wait == (self.room_type == ComplexRoomType::Boss && outstanding > 1),
    {
        self.room_type == ComplexRoomType::Boss && outstanding > 1
    }

    /// The ticket of an enemy room whose size is told by `roll`, a draw from
    /// `0..MAX_ENEMY_SIZE`.
    pub fn enemy(roll: usize) -> (ticket: Ticket)
        requires
            roll < MAX_ENEMY_SIZE,
        ensures
            ticket == (Ticket { room_type: ComplexRoomType::Enemy, size: (roll + 1) as usize }),
            ticket.wf(),
    {
        Ticket { room_type: ComplexRoomType::Enemy, size: roll + 1 }
    }

    /// The one ticket of a type with a fixed footprint.
    pub fn fixed(room_type: ComplexRoomType) -> (ticket: Ticket)
        requires
            room_type != ComplexRoomType::Spawn,
            room_type != ComplexRoomType::Enemy,
        ensures
            ticket.room_type == room_type,
            ticket.wf(),
    {
        match room_type.dimensions() {
            Some((width, height)) => {
                assert(width * height <= 6) by (nonlinear_arith)
                    requires
                        width <= 3,
                        height <= 2,
                ;
                Ticket { room_type, size: (width * height) as usize }
            },
            None => Ticket { room_type, size: 1 },
        }
    }
}

/// The types of the tickets of a level with `treasures` treasure rooms:
/// twelve enemy rooms, a shop, the treasure rooms and a boss room.
pub open spec fn level_types(treasures: nat) -> Seq<ComplexRoomType> {
    Seq::new(12, |i: int| ComplexRoomType::Enemy).push(ComplexRoomType::Shop) + Seq::new(
        treasures,
        |i: int| ComplexRoomType::Treasure,
    ).push(ComplexRoomType::Boss)
}

/// The types of a list of tickets, in order.
pub open spec fn ticket_types(tickets: Seq<Ticket>) -> Seq<ComplexRoomType> {
    tickets.map_values(|ticket: Ticket| ticket.room_type)
}

/// The rooms still to be placed.
#[derive(Clone, Debug, PartialEq, Eq)]
pub struct RoomPool {
    tickets: Vec<Ticket>,
}

impl View for RoomPool {
    type V = Seq<Ticket>;

    closed spec fn view(&self) -> Seq<Ticket> {
        self.tickets@
    }
}

impl RoomPool {
    /// Every ticket of the pool is one that a pool may hold.
    pub open spec fn wf(&self) -> bool {
        forall|i: int| 0 <= i < self@.len() ==> (#[trigger] self@[i]).wf()
    }

    /// The empty pool.
    pub fn new() -> (pool: RoomPool)
        ensures
            pool@ == Seq::<Ticket>::empty(),
            pool.wf(),
    {
        RoomPool { tickets: Vec::new() }
    }

    /// Number of outstanding tickets.
    pub fn len(&self) -> (count: usize)
        ensures
            count == self@.len(),
    {
        self.tickets.len()
    }

    /// The ticket at `index`, left in the pool.
    pub fn ticket_at(&self, index: usize) -> (ticket: Ticket)
        requires
            index < self@.len(),
        ensures
            ticket == self@[index as int],
    {
        self.tickets[index]
    }

    /// Appends one ticket.
    pub fn push_ticket(&mut self, ticket: Ticket)
        requires
            old(self).wf(),
            ticket.wf(),
        ensures
            final(self).wf(),
            final(self)@ == old(self)@.push(ticket),
    {
        self.tickets.push(ticket);
    }

    /// Appends `count` tickets of the given type. Each enemy ticket asks for
    /// a size of its own, drawn uniformly from one to three.
    pub fn push(&mut self, room_type: ComplexRoomType, count: usize, rng: &mut RandomSource)
        requires
            old(self).wf(),
            room_type != ComplexRoomType::Spawn,
        ensures
            final(self).wf(),
            final(self)@.len() == old(self)@.len() + count,
            final(self)@.take(old(self)@.len() as int) == old(self)@,
            forall|i: int|
                old(self)@.len() <= i < final(self)@.len() ==> (#[trigger] final(self)@[i]).room_type
                    == room_type,
    {
        let mut added: usize = 0;
        while added < count
            invariant
                added <= count,
                self.wf(),
                room_type != ComplexRoomType::Spawn,
                self@.len() == old(self)@.len() + added,
                self@.take(old(self)@.len() as int) == old(self)@,
                forall|i: int|
                    old(self)@.len() <= i < self@.len() ==> (#[trigger] self@[i]).room_type
                        == room_type,
            decreases count - added,
        {
            let ticket = match room_type {
                ComplexRoomType::Enemy => Ticket::enemy(rng.below(MAX_ENEMY_SIZE)),
                _ => Ticket::fixed(room_type),
            };
            self.push_ticket(ticket);
            added += 1;
        }
    }

    /// The pool of a level: twelve enemy rooms, a shop, one to three
    /// treasure rooms, drawn uniformly, and a boss room.
    pub fn for_level(rng: &mut RandomSource) -> (pool: RoomPool)
        ensures
            pool.wf(),
            exists|treasures: nat|
                1 <= treasures <= 3 && ticket_types(pool@) == #[trigger] level_types(treasures),
    {
        let mut pool = RoomPool::new();
        pool.push(ComplexRoomType::Enemy, 12, rng);
        pool.push(ComplexRoomType::Shop, 1, rng);
        let treasures = 1 + rng.below(3);
        let ghost before = pool@;
        pool.push(ComplexRoomType::Treasure, treasures, rng);
        let ghost between = pool@;
        pool.push(ComplexRoomType::Boss, 1, rng);
        proof {
            assert forall|i: int| 0 <= i < pool@.len() implies ticket_types(pool@)[i]
                == level_types(treasures as nat)[i] by {
                if i < between.len() {
                    assert(between[i] == pool@.take(between.len() as int)[i]);
                    if i < before.len() {
                        assert(before[i] == between.take(before.len() as int)[i]);
                        if i < 12 {
                            assert(before.take(12)[i] == before[i]);
                        }
                    }
                }
            }
            assert(ticket_types(pool@) == level_types(treasures as nat));
        }
        pool
    }

    /// A uniformly drawn outstanding ticket, left in the pool.
    pub fn fetch_random(&self, rng: &mut RandomSource) -> (ticket: Ticket)
        requires
            self@.len() > 0,
        ensures
            self@.contains(ticket),
    {
        let index = rng.below(self.tickets.len());
        self.ticket_at(index)
    }

    /// Removes the first ticket equal to `ticket`; without one the pool
    /// stays as it is.
    pub fn pop(&mut self, ticket: Ticket)
        ensures
            final(self)@ == old(self)@.remove_value(ticket),
            !old(self)@.contains(ticket) ==> final(self)@ == old(self)@,
            old(self)@.contains(ticket) ==> exists|at: int|
                0 <= at < old(self)@.len() && old(self)@[at] == ticket && final(self)@
                    == #[trigger] old(self)@.remove(at) && forall|before: int|
                    0 <= before < at ==> old(self)@[before] != ticket,
            old(self).wf() ==> final(self).wf(),
    {
        let mut i: usize = 0;
        while i < self.tickets.len()
            invariant
                i <= self@.len(),
                self@ == old(self)@,
                forall|k: int| 0 <= k < i ==> self@[k] != ticket,
            decreases self@.len() - i,
        {
            if self.tickets[i] == ticket {
                proof {
                    self@.index_of_first_ensures(ticket);
                }
                self.tickets.remove(i);
                return ;
            }
            i += 1;
        }
        proof {
            self@.index_of_first_ensures(ticket);
        }
    }
}

} // verus!
