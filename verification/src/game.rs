//! The live two-player game: identities, secret assignments, guess progress,
//! connection status, and the session's event bus.
//!
//! A session has exactly two roles, P0 and P1; the character index assigned
//! to P0 is the secret P1 must guess and vice versa.  Every mutating
//! operation publishes the matching event on the session's bus.

use vstd::prelude::*;

use crate::event::{published_one, EventBus, GameEvent};
use crate::pack::CharacterSet;
use crate::DEFAULT_EVENT_BACKLOG;
use crate::GameError;
use crate::NUM_CHARS;
use crate::NUM_COLS;
use crate::NUM_ROWS;

verus! {

/// Relies on rand::random: a uniformly random 64-bit value, used for
/// unpredictable session identifiers and player identities.
#[verifier::external_body]
pub fn random_u64() -> u64 {
    rand::random()
}

/// Relies on rand::random_range: a uniformly random index below `n`.
#[verifier::external_body]
pub fn random_index(n: usize) -> (r: usize)
    requires
        n >= 1,
    ensures
        r < n,
{
    rand::random_range(0..n)
}

/// One player role: its identity, whether a request has claimed it, its
/// secret assigned character, its guessing progress, and whether a live
/// connection is attached.
#[derive(Clone, Copy, Debug, PartialEq, Eq, Structural)]
pub struct PlayerState {
    pub id: u64,
    pub claimed: bool,
    pub character: usize,
    pub incorrect_count: u64,
    pub correct: bool,
    pub connected: bool,
}

impl PlayerState {
    /// The assigned character is a real board cell.
    pub open spec fn wf(&self) -> bool {
        self.character < NUM_CHARS
    }

    /// A fresh unclaimed, unconnected role with a random identity and a
    /// random assigned character, and no progress.
    pub fn random() -> (r: PlayerState)
        ensures
            r.wf(),
            !r.claimed,
            r.incorrect_count == 0,
            !r.correct,
            !r.connected,
    {
        PlayerState {
            id: random_u64(),
            claimed: false,
            character: random_index(NUM_CHARS),
            incorrect_count: 0,
            correct: false,
            connected: false,
        }
    }
}

/// A counter that sticks at its ceiling instead of wrapping.
pub open spec fn saturating_inc(x: u64) -> u64 {
    if x < u64::MAX {
        (x + 1) as u64
    } else {
        x
    }
}

/// One live game: the board's characters, the session's event bus, and the
/// two player roles.
pub struct GameState {
    pub characters: CharacterSet,
    pub events: EventBus,
    pub p0: PlayerState,
    pub p1: PlayerState,
}

/// What claiming an identity does: the matching role (P0 first) becomes
/// claimed and the claim is acknowledged; an identity matching neither role
/// changes nothing and is refused.
pub open spec fn claim_spec(s: GameState, id: u64) -> (GameState, bool) {
    if s.p0.id == id {
        (GameState { p0: PlayerState { claimed: true, ..s.p0 }, ..s }, true)
    } else if s.p1.id == id {
        (GameState { p1: PlayerState { claimed: true, ..s.p1 }, ..s }, true)
    } else {
        (s, false)
    }
}

/// What updating a connection flag does to the two roles: the matching
/// role's flag is set, and the other player's identity is reported exactly
/// when that other player is currently connected.
pub open spec fn connect_spec(p0: PlayerState, p1: PlayerState, id: u64, connected: bool) -> (
    PlayerState,
    PlayerState,
    Option<u64>,
) {
    if p0.id == id {
        (
            PlayerState { connected, ..p0 },
            p1,
            if p1.connected {
                Some(p1.id)
            } else {
                None
            },
        )
    } else if p1.id == id {
        (
            p0,
            PlayerState { connected, ..p1 },
            if p0.connected {
                Some(p0.id)
            } else {
                None
            },
        )
    } else {
        (p0, p1, None)
    }
}

/// The presence event a connection change publishes.
pub open spec fn connect_event(id: u64, connected: bool) -> GameEvent {
    if connected {
        GameEvent::Connected { user_id: id }
    } else {
        GameEvent::Disconnected { user_id: id }
    }
}

/// The linear cell index of board coordinates.
pub open spec fn cell_index(row: int, col: int) -> int {
    row * NUM_COLS + col
}

/// What one guess does to the guessing role: on a hit the role is marked
/// solved and a `Correct` event reports the try count (earlier misses plus
/// this hit); on a miss the miss counter grows and an `Incorrect` event is
/// published.
pub open spec fn guess_spec(p: PlayerState, opponent_character: usize, row: int, col: int) -> (
    PlayerState,
    bool,
    GameEvent,
) {
    if cell_index(row, col) == opponent_character {
        (
            PlayerState { correct: true, ..p },
            true,
            GameEvent::Correct { user_id: p.id, tries: saturating_inc(p.incorrect_count) },
        )
    } else {
        (
            PlayerState { incorrect_count: saturating_inc(p.incorrect_count), ..p },
            false,
            GameEvent::Incorrect { user_id: p.id },
        )
    }
}

/// The identity of the still-unclaimed role, P0 first, if any.
pub open spec fn spec_unclaimed(g: GameState) -> Option<u64> {
    if !g.p0.claimed {
        Some(g.p0.id)
    } else if !g.p1.claimed {
        Some(g.p1.id)
    } else {
        None
    }
}

/// The role an identity addresses, P0 first, if either matches.
pub open spec fn spec_player_for(g: GameState, id: u64) -> Option<PlayerState> {
    if g.p0.id == id {
        Some(g.p0)
    } else if g.p1.id == id {
        Some(g.p1)
    } else {
        None
    }
}

/// Progress only accumulates: a role's incorrect-guess count never
/// decreases, and `solved` never reverts to unsolved.
pub open spec fn progress_monotonic(pre: GameState, post: GameState) -> bool {
    &&& pre.p0.incorrect_count <= post.p0.incorrect_count
    &&& pre.p1.incorrect_count <= post.p1.incorrect_count
    &&& (pre.p0.correct ==> post.p0.correct)
    &&& (pre.p1.correct ==> post.p1.correct)
}

/// Exactly what one guess call does: malformed coordinates are refused as
/// invalid input and an identity matching neither role as unauthorized,
/// both without any other effect; otherwise the matching role's progress
/// is updated against the opponent's secret and the outcome event is
/// published.
pub open spec fn guess_rel(
    pre: GameState,
    post: GameState,
    id: u64,
    row: int,
    col: int,
    r: Result<bool, GameError>,
) -> bool {
    &&& !(row < NUM_ROWS && col < NUM_COLS) ==> r == Err::<bool, GameError>(
        GameError::InvalidInput,
    ) && post == pre
    &&& row < NUM_ROWS && col < NUM_COLS && pre.p0.id != id && pre.p1.id != id ==> r == Err::<
        bool,
        GameError,
    >(GameError::Unauthorized) && post == pre
    &&& row < NUM_ROWS && col < NUM_COLS && pre.p0.id == id ==> {
        let (p, correct, e) = guess_spec(pre.p0, pre.p1.character, row, col);
        &&& r == Ok::<bool, GameError>(correct)
        &&& post.p0 == p
        &&& post.p1 == pre.p1
        &&& post.characters == pre.characters
        &&& published_one(pre.events, post.events, e)
    }
    &&& row < NUM_ROWS && col < NUM_COLS && pre.p0.id != id && pre.p1.id == id ==> {
        let (p, correct, e) = guess_spec(pre.p1, pre.p0.character, row, col);
        &&& r == Ok::<bool, GameError>(correct)
        &&& post.p1 == p
        &&& post.p0 == pre.p0
        &&& post.characters == pre.characters
        &&& published_one(pre.events, post.events, e)
    }
}

/// Exactly what one connection-flag update does: the matching role's flag
/// is set, the presence event is always published, and the other player's
/// identity is reported exactly when that other player is connected.
pub open spec fn connect_rel(
    pre: GameState,
    post: GameState,
    id: u64,
    connected: bool,
    r: Option<u64>,
) -> bool {
    &&& (post.p0, post.p1, r) == connect_spec(pre.p0, pre.p1, id, connected)
    &&& post.characters == pre.characters
    &&& published_one(pre.events, post.events, connect_event(id, connected))
}

impl GameState {
    /// Both roles hold real board cells, the board is full-sized, and the
    /// bus is usable.
    pub open spec fn wf(&self) -> bool {
        &&& self.characters.wf()
        &&& self.events.wf()
        &&& self.p0.wf()
        &&& self.p1.wf()
    }

    /// A fresh game over the given board and roles, with an empty bus of
    /// the default backlog bound.
    pub fn new(characters: CharacterSet, p0: PlayerState, p1: PlayerState) -> (r: GameState)
        requires
            characters.wf(),
            p0.wf(),
            p1.wf(),
        ensures
            r.wf(),
            r.characters == characters,
            r.p0 == p0,
            r.p1 == p1,
            r.events.backlog() == Seq::<GameEvent>::empty(),
            r.events.spec_dropped() == 0,
            r.events.spec_capacity() == DEFAULT_EVENT_BACKLOG,
    {
        GameState { characters, events: EventBus::new(DEFAULT_EVENT_BACKLOG), p0, p1 }
    }

    /// Mark the role matching `id` as claimed; refuse an identity that
    /// matches neither role, leaving the game unchanged.
    pub fn claim(&mut self, id: u64) -> (r: bool)
        ensures
            (*final(self), r) == claim_spec(*old(self), id),
            progress_monotonic(*old(self), *final(self)),
            old(self).wf() ==> final(self).wf(),
    {
        if self.p0.id == id {
            self.p0.claimed = true;
            true
        } else if self.p1.id == id {
            self.p1.claimed = true;
            true
        } else {
            false
        }
    }

    /// Update the matching role's connection flag, publish the presence
    /// event unconditionally — even for an unmatched identity, so observers
    /// can detect cross-talk — and report the other player's identity when
    /// that other player is currently connected.
    pub fn set_connected(&mut self, id: u64, connected: bool) -> (r: Option<u64>)
        requires
            old(self).wf(),
        ensures
            final(self).wf(),
            connect_rel(*old(self), *final(self), id, connected, r),
            progress_monotonic(*old(self), *final(self)),
    {
        let res = if self.p0.id == id {
            self.p0.connected = connected;
            if self.p1.connected {
                Some(self.p1.id)
            } else {
                None
            }
        } else if self.p1.id == id {
            self.p1.connected = connected;
            if self.p0.connected {
                Some(self.p0.id)
            } else {
                None
            }
        } else {
            None
        };
        self.events.publish(
            if connected {
                GameEvent::Connected { user_id: id }
            } else {
                GameEvent::Disconnected { user_id: id }
            },
        );
        res
    }

    /// Record a guess at board coordinates by the role matching `id`:
    /// compare the cell against the *opponent's* secret assignment, update
    /// the guesser's progress, publish the outcome event, and acknowledge
    /// whether the guess was correct.  Malformed coordinates are refused as
    /// invalid input, an identity matching neither role as unauthorized;
    /// neither refusal changes the game or publishes anything.
    pub fn guess(&mut self, id: u64, row: usize, col: usize) -> (r: Result<bool, GameError>)
        requires
            old(self).wf(),
        ensures
            final(self).wf(),
            progress_monotonic(*old(self), *final(self)),
            guess_rel(*old(self), *final(self), id, row as int, col as int, r),
    {
        if !(row < NUM_ROWS && col < NUM_COLS) {
            return Err(GameError::InvalidInput);
        }
        let cell = row * NUM_COLS + col;
        if self.p0.id == id {
            let correct = cell == self.p1.character;
            if correct {
                self.p0.correct = true;
            } else if self.p0.incorrect_count < u64::MAX {
                self.p0.incorrect_count = self.p0.incorrect_count + 1;
            }
            let tries = if self.p0.incorrect_count < u64::MAX {
                self.p0.incorrect_count + 1
            } else {
                u64::MAX
            };
            self.events.publish(
                if correct {
                    GameEvent::Correct { user_id: id, tries }
                } else {
                    GameEvent::Incorrect { user_id: id }
                },
            );
            Ok(correct)
        } else if self.p1.id == id {
            let correct = cell == self.p0.character;
            if correct {
                self.p1.correct = true;
            } else if self.p1.incorrect_count < u64::MAX {
                self.p1.incorrect_count = self.p1.incorrect_count + 1;
            }
            let tries = if self.p1.incorrect_count < u64::MAX {
                self.p1.incorrect_count + 1
            } else {
                u64::MAX
            };
            self.events.publish(
                if correct {
                    GameEvent::Correct { user_id: id, tries }
                } else {
                    GameEvent::Incorrect { user_id: id }
                },
            );
            Ok(correct)
        } else {
            Err(GameError::Unauthorized)
        }
    }

    /// The identity of the still-unclaimed role, P0 first, if any: offered
    /// to a new, unidentified visitor.
    pub fn unclaimed_identity(&self) -> (r: Option<u64>)
        ensures
            r == spec_unclaimed(*self),
    {
        if !self.p0.claimed {
            Some(self.p0.id)
        } else if !self.p1.claimed {
            Some(self.p1.id)
        } else {
            None
        }
    }

    /// The role matching `id`, if either does (P0 first).
    pub fn player_for(&self, id: u64) -> (r: Option<PlayerState>)
        ensures
            r == spec_player_for(*self, id),
    {
        if self.p0.id == id {
            Some(self.p0)
        } else if self.p1.id == id {
            Some(self.p1)
        } else {
            None
        }
    }
}

/// Claiming is idempotent: a second claim with the same identity finds the
/// role already claimed and leaves the state exactly as the first claim
/// left it, acknowledged the same way.
pub proof fn lemma_claim_idempotent(s: GameState, id: u64)
    ensures
        claim_spec(claim_spec(s, id).0, id) == (claim_spec(s, id).0, claim_spec(s, id).1),
{
}

} // verus!
