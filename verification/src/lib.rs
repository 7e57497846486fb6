//! Procedural layout of a dungeon on the integer grid: typed rooms drawn
//! from a pool of tickets, grown outward from a spawn room at the origin and
//! joined by doors.

pub mod generator;
pub mod grid;
pub mod invariants;
pub mod layout;
pub mod random;
pub mod room;
pub mod room_pool;

pub use generator::{generate, GenerationSettings};
pub use grid::{get_surrounding_chunks, Chunk};
pub use layout::{ComplexLayout, LayoutError};
pub use random::RandomSource;
pub use room::{ComplexRoom, ComplexRoomDoor, ComplexRoomPermutation, ComplexRoomType};
pub use room_pool::{RoomPool, Ticket};
