//! In-process runtime state for a two-player, session-based guessing game.
//!
//! The crate holds the three pieces of the game that carry real invariants:
//! a time-bounded session registry, a deduplicating asset cache fed by
//! uploaded image archives, and a per-session event bus that keeps the two
//! players' views synchronized.  All HTTP and socket plumbing lives outside;
//! the library works on plain values and returns typed outcomes.

use vstd::prelude::*;

verus! {

/// Number of rows on the game board.
pub const NUM_ROWS: usize = 4;

/// Number of columns on the game board.
pub const NUM_COLS: usize = 6;

/// Number of cells on the board, and so the number of character assets that
/// one archive upload must supply.
pub const NUM_CHARS: usize = NUM_ROWS * NUM_COLS;

/// Ceiling on the aggregate live size of the asset cache, in bytes.  Callers
/// are expected to reject new uploads once `cache_size` reaches this value.
pub const MAX_CHARACTER_PACK_CACHE_SIZE: u128 = 1024 * 1024 * 1024;

/// Default number of pending events each subscriber can lag behind before it
/// starts missing the oldest ones.
pub const DEFAULT_EVENT_BACKLOG: usize = 10;

/// Default session lifetime: four hours, in milliseconds.
pub const DEFAULT_SESSION_TTL_MILLIS: u64 = 1000 * 60 * 60 * 4;

/// Typed outcome of every core operation; no operation panics on
/// caller-supplied bad input.
#[derive(Clone, Copy, Debug, PartialEq, Eq, Structural)]
pub enum GameError {
    /// Unknown or expired session identifier.
    NotFound,
    /// The presented identity matches neither role of the session.
    Unauthorized,
    /// Malformed archive, insufficient qualifying images, malformed cell
    /// coordinates, or an event whose carried identity does not match the
    /// authenticated identity.
    InvalidInput,
    /// The aggregate cache size is at or above the ceiling.
    Overloaded,
    /// A failure not attributable to caller input.
    Internal,
}

/// Why an archive upload could not be turned into a character set.
#[derive(Clone, Copy, Debug, PartialEq, Eq, Structural)]
pub enum LoadError {
    /// The archive could not be parsed, or an entry could not be decoded.
    Corrupt,
    /// Fewer qualifying images than board cells.
    InsufficientImages,
}

impl LoadError {
    /// The general error kind this load failure maps to.
    pub fn general(&self) -> (r: GameError)
        ensures
            r == GameError::InvalidInput,
    {
        GameError::InvalidInput
    }
}

} // verus!

mod event;
mod game;
mod pack;
mod registry;
mod utils;

pub use event::{published_one, CallEvent, EventBus, GameEvent, Subscriber};
pub use game::{random_index, random_u64, GameState, PlayerState};
pub use pack::{CacheEntry, Character, CharacterCache, CharacterSet};
pub use registry::{Registry, SessionEntry};
pub use utils::{SyncMutex, TimedResource};
