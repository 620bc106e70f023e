//! The session registry: one process-wide mapping from session identifier
//! to a time-bounded game, together with the asset cache the games' boards
//! live in.
//!
//! Expiry is lazy: each session carries a deadline, and whichever call next
//! sweeps the registry removes the sessions whose deadline has passed,
//! releasing their boards' owner references in the cache.  The registry is
//! meant to be guarded as a single unit by one lock outside this crate;
//! every operation here is a short synchronous critical section.

use vstd::prelude::*;

use crate::event::{next_event_rel, published_one, GameEvent, Subscriber};
use crate::game::{cell_index, connect_rel, guess_rel, spec_player_for, spec_unclaimed, GameState};
use crate::pack::{
    count_ids, find_id, owners_of, release_all_spec, CacheEntry, Character, CharacterCache,
};
use crate::game::PlayerState;
use crate::utils::expiry_of;
use crate::GameError;
use crate::LoadError;
use crate::NUM_CHARS;
use crate::NUM_COLS;
use crate::NUM_ROWS;

verus! {

/// One registered session: its identifier, the moment it stops being
/// reachable, and the live game.
pub struct SessionEntry {
    pub sid: u64,
    pub expires_at: u64,
    pub game: GameState,
}

/// Sessions still within their lifetime at `now`.
pub open spec fn live_filter(now: u64) -> spec_fn(SessionEntry) -> bool {
    |e: SessionEntry| now < e.expires_at
}

/// Index of the session with identifier `sid`, if present.
pub open spec fn find_session(s: Seq<SessionEntry>, sid: u64) -> Option<int>
    decreases s.len(),
{
    if s.len() == 0 {
        None
    } else if s[0].sid == sid {
        Some(0)
    } else {
        match find_session(s.drop_first(), sid) {
            Some(i) => Some(i + 1),
            None => None,
        }
    }
}

/// The cache identifiers owned by the sessions whose deadline has passed:
/// their boards' entries, in registry order.
pub open spec fn dead_ids(s: Seq<SessionEntry>, now: u64) -> Seq<u64>
    decreases s.len(),
{
    if s.len() == 0 {
        Seq::empty()
    } else {
        dead_ids(s.drop_last(), now) + (if now >= s.last().expires_at {
            s.last().game.characters.0@
        } else {
            Seq::empty()
        })
    }
}

/// Does a game reference this identity in either role?
pub open spec fn references(g: GameState, id: u64) -> bool {
    g.p0.id == id || g.p1.id == id
}

/// Sessions kept when a new session arrives: they reference neither of its
/// two player identities and do not collide with its identifier.
pub open spec fn evict_filter(id0: u64, id1: u64, sid: u64) -> spec_fn(SessionEntry) -> bool {
    |e: SessionEntry| !references(e.game, id0) && !references(e.game, id1) && e.sid != sid
}

/// The cache identifiers owned by the sessions that such an arrival evicts.
pub open spec fn evicted_ids(s: Seq<SessionEntry>, id0: u64, id1: u64, sid: u64) -> Seq<u64>
    decreases s.len(),
{
    if s.len() == 0 {
        Seq::empty()
    } else {
        evicted_ids(s.drop_last(), id0, id1, sid) + (if !evict_filter(id0, id1, sid)(s.last()) {
            s.last().game.characters.0@
        } else {
            Seq::empty()
        })
    }
}

/// The owner references one session's board holds on a cache identifier.
pub open spec fn set_refs(e: SessionEntry, aid: u64) -> int {
    count_ids(e.game.characters.0@, 0, aid)
}

/// The owner references all registered sessions' boards hold together.
pub open spec fn total_refs(s: Seq<SessionEntry>, aid: u64) -> int
    decreases s.len(),
{
    if s.len() == 0 {
        0
    } else {
        total_refs(s.drop_last(), aid) + set_refs(s.last(), aid)
    }
}

/// The cache covers the sessions: every owner reference a registered board
/// holds is backed by the cache's owner count for that identifier, so no
/// live board's asset can have been dropped.
pub open spec fn covered(sessions: Seq<SessionEntry>, entries: Seq<CacheEntry>) -> bool {
    forall|aid: u64| #[trigger] total_refs(sessions, aid) <= owners_of(entries, aid)
}

/// The registry: the session table and the asset cache, guarded as one
/// unit.
pub struct Registry {
    sessions: Vec<SessionEntry>,
    cache: CharacterCache,
}

impl Registry {
    /// The registered sessions, in insertion order.
    pub closed spec fn spec_sessions(&self) -> Seq<SessionEntry> {
        self.sessions@
    }

    /// The asset cache.
    pub closed spec fn spec_cache(&self) -> CharacterCache {
        self.cache
    }

    /// Well-formedness: session identifiers are distinct, every registered
    /// game is well-formed, and so is the cache.
    pub open spec fn wf(&self) -> bool {
        &&& forall|i: int, j: int|
            0 <= i < j < self.spec_sessions().len() ==> self.spec_sessions()[i].sid
                != self.spec_sessions()[j].sid
        &&& forall|i: int|
            0 <= i < self.spec_sessions().len() ==> (#[trigger] self.spec_sessions()[i]).game.wf()
        &&& self.spec_cache().wf()
        &&& covered(self.spec_sessions(), self.spec_cache().spec_entries())
    }

    /// An empty registry.
    pub fn new() -> (r: Registry)
        ensures
            r.wf(),
            r.spec_sessions() == Seq::<SessionEntry>::empty(),
            r.spec_cache().spec_entries() == Seq::<CacheEntry>::empty(),
            r.spec_cache().spec_next_id() == 0,
    {
        Registry { sessions: Vec::new(), cache: CharacterCache::new() }
    }

    /// Drop every session whose deadline has passed, releasing its board's
    /// owner references in the cache; the surviving sessions keep their
    /// order and state.
    pub fn sweep(&mut self, now: u64)
        requires
            old(self).wf(),
        ensures
            final(self).wf(),
            final(self).spec_sessions() == old(self).spec_sessions().filter(live_filter(now)),
            final(self).spec_cache().spec_entries() == release_all_spec(
                old(self).spec_cache().spec_entries(),
                dead_ids(old(self).spec_sessions(), now),
                0,
            ),
            final(self).spec_cache().spec_next_id() == old(self).spec_cache().spec_next_id(),
            forall|j: int|
                0 <= j < final(self).spec_sessions().len() ==> now < (#[trigger] final(self).spec_sessions()[j]).expires_at,
    {
        let ghost orig_sessions = self.sessions@;
        let ghost orig_entries = self.cache.spec_entries();
        proof {
            assert(old(self).spec_sessions() == self.sessions@);
            assert(old(self).spec_cache() == self.cache);
        }
        let mut i: usize = 0;
        let ghost mut consumed: int = 0;
        while i < self.sessions.len()
            invariant
                old(self).wf(),
                forall|m: int, n: int|
                    0 <= m < n < self.sessions@.len() ==> (#[trigger] self.sessions@[m]).sid != (
                    #[trigger] self.sessions@[n]).sid,
                forall|m: int|
                    0 <= m < self.sessions@.len() ==> (#[trigger] self.sessions@[m]).game.wf(),
                self.cache.wf(),
                orig_sessions == old(self).spec_sessions(),
                orig_entries == old(self).spec_cache().spec_entries(),
                i <= self.sessions@.len(),
                0 <= consumed <= orig_sessions.len(),
                self.sessions@.subrange(0, i as int) == orig_sessions.subrange(
                    0,
                    consumed,
                ).filter(live_filter(now)),
                self.sessions@.subrange(i as int, self.sessions@.len() as int)
                    == orig_sessions.subrange(consumed, orig_sessions.len() as int),
                self.cache.spec_entries() == release_all_spec(
                    orig_entries,
                    dead_ids(orig_sessions.subrange(0, consumed), now),
                    0,
                ),
                self.cache.spec_next_id() == old(self).spec_cache().spec_next_id(),
                forall|j: int|
                    0 <= j < i ==> now < (#[trigger] self.sessions@[j]).expires_at,
            decreases self.sessions@.len() - i,
        {
            proof {
                let suf_a = self.sessions@.subrange(i as int, self.sessions@.len() as int);
                let suf_b = orig_sessions.subrange(consumed, orig_sessions.len() as int);
                assert(suf_a.len() == suf_b.len());
                assert(consumed < orig_sessions.len());
                assert(suf_a[0] == suf_b[0]);
                assert(self.sessions@[i as int] == orig_sessions[consumed]);
                assert(orig_sessions.subrange(0, consumed + 1).drop_last() =~= orig_sessions
                    .subrange(0, consumed));
                assert(orig_sessions.subrange(0, consumed + 1).last() == orig_sessions[consumed]);
            }
            if now >= self.sessions[i].expires_at {
                let ghost pre = self.sessions@;
                let entry = self.sessions.remove(i);
                self.cache.release_set(&entry.game.characters);
                proof {
                    crate::pack::lemma_release_all_concat(
                        orig_entries,
                        dead_ids(orig_sessions.subrange(0, consumed), now),
                        entry.game.characters.0@,
                    );
                    assert(forall|m: int| 0 <= m < i ==> self.sessions@[m] == pre[m]);
                    assert(forall|m: int|
                        i <= m < self.sessions@.len() ==> self.sessions@[m] == pre[m + 1]);
                    assert(self.sessions@.subrange(0, i as int) =~= pre.subrange(0, i as int));
                    assert(self.sessions@.subrange(i as int, self.sessions@.len() as int)
                        =~= pre.subrange(i + 1, pre.len() as int));
                    lemma_suffix_shift(pre, orig_sessions, i as int, consumed);
                    assert(forall|m: int, n: int|
                        0 <= m < n < self.sessions@.len() ==> (#[trigger] self.sessions@[m]).sid
                            != (#[trigger] self.sessions@[n]).sid);
                    assert(forall|m: int|
                        0 <= m < self.sessions@.len() ==> (#[trigger] self.sessions@[m]).game.wf());
                    lemma_filter_extend(orig_sessions.subrange(0, consumed + 1), live_filter(now));
                    assert(orig_sessions.subrange(0, consumed + 1).filter(live_filter(now))
                        == orig_sessions.subrange(0, consumed).filter(live_filter(now)));
                    consumed = consumed + 1;
                }
            } else {
                proof {
                    lemma_filter_extend(orig_sessions.subrange(0, consumed + 1), live_filter(now));
                    assert(orig_sessions.subrange(0, consumed + 1).filter(live_filter(now))
                        == orig_sessions.subrange(0, consumed).filter(live_filter(now)).push(
                        orig_sessions[consumed],
                    ));
                    assert(self.sessions@.subrange(0, i + 1) =~= self.sessions@.subrange(
                        0,
                        i as int,
                    ).push(self.sessions@[i as int]));
                    lemma_suffix_shift(self.sessions@, orig_sessions, i as int, consumed);
                    assert(dead_ids(orig_sessions.subrange(0, consumed + 1), now) =~= dead_ids(
                        orig_sessions.subrange(0, consumed),
                        now,
                    ));
                    consumed = consumed + 1;
                }
                i = i + 1;
            }
        }
        proof {
            assert(consumed == orig_sessions.len());
            assert(orig_sessions.subrange(0, orig_sessions.len() as int) =~= orig_sessions);
            assert(self.sessions@.subrange(0, self.sessions@.len() as int) =~= self.sessions@);
            assert(self.spec_sessions() == self.sessions@);
            assert(self.spec_cache() == self.cache);
            assert forall|aid: u64|
                total_refs(self.sessions@, aid) <= owners_of(
                    self.cache.spec_entries(),
                    aid,
                ) by {
                lemma_dead_split(orig_sessions, now, aid);
                crate::pack::lemma_release_all_owners(
                    orig_entries,
                    dead_ids(orig_sessions, now),
                    0,
                    aid,
                );
                assert(total_refs(orig_sessions, aid) <= owners_of(orig_entries, aid));
            }
            assert(self.wf());
        }
    }

    /// Is the session with this identifier registered and still alive?
    /// Touching the registry also sweeps out every dead session.
    pub fn lookup(&mut self, sid: u64, now: u64) -> (r: bool)
        requires
            old(self).wf(),
        ensures
            final(self).wf(),
            final(self).spec_sessions() == old(self).spec_sessions().filter(live_filter(now)),
            final(self).spec_cache().spec_entries() == release_all_spec(
                old(self).spec_cache().spec_entries(),
                dead_ids(old(self).spec_sessions(), now),
                0,
            ),
            final(self).spec_cache().spec_next_id() == old(self).spec_cache().spec_next_id(),
            r == (find_session(final(self).spec_sessions(), sid) is Some),
    {
        self.sweep(now);
        self.find_index(sid).is_some()
    }

    /// Aggregate live size of the asset cache, recomputed after sweeping
    /// out dead sessions.
    pub fn cache_size(&mut self, now: u64) -> (r: u128)
        requires
            old(self).wf(),
        ensures
            final(self).wf(),
            final(self).spec_sessions() == old(self).spec_sessions().filter(live_filter(now)),
            final(self).spec_cache().spec_entries() == release_all_spec(
                old(self).spec_cache().spec_entries(),
                dead_ids(old(self).spec_sessions(), now),
                0,
            ),
            final(self).spec_cache().spec_next_id() == old(self).spec_cache().spec_next_id(),
            crate::pack::sum_sizes(final(self).spec_cache().spec_entries()) <= u128::MAX ==> r
                == crate::pack::sum_sizes(final(self).spec_cache().spec_entries()),
            crate::pack::sum_sizes(final(self).spec_cache().spec_entries()) > u128::MAX ==> r
                == u128::MAX,
    {
        self.sweep(now);
        self.cache.size()
    }

    /// Whether a new session can still be created: the cache must be able
    /// to hand out identifiers for one more board.
    pub fn can_create(&self) -> (r: bool)
        ensures
            r == (self.spec_cache().spec_next_id() + crate::NUM_CHARS <= u64::MAX),
    {
        self.cache.can_allocate()
    }

    /// Index of the session with this identifier, if present.
    fn find_index(&self, sid: u64) -> (r: Option<usize>)
        ensures
            match find_session(self.spec_sessions(), sid) {
                Some(i) => r == Some(i as usize),
                None => r is None,
            },
    {
        let ghost orig = self.sessions@;
        let mut i: usize = 0;
        while i < self.sessions.len()
            invariant
                orig == self.spec_sessions(),
                self.sessions@ == orig,
                i <= orig.len(),
                forall|j: int| 0 <= j < i ==> orig[j].sid != sid,
            decreases orig.len() - i,
        {
            if self.sessions[i].sid == sid {
                proof {
                    lemma_find_session_at(orig, sid, i as int);
                }
                return Some(i);
            }
            i = i + 1;
        }
        proof {
            lemma_find_session_none(orig, sid, orig.len() as int);
        }
        None
    }

    /// Mark the matching role of a live session as claimed.  An unknown or
    /// expired session is `NotFound`; an identity matching neither role is
    /// acknowledged with `false`, as the session method does.
    pub fn claim(&mut self, sid: u64, identity: u64, now: u64) -> (r: Result<bool, GameError>)
        requires
            old(self).wf(),
        ensures
            final(self).wf(),
            final(self).spec_cache() == old(self).spec_cache(),
            match find_session(old(self).spec_sessions(), sid) {
                None => r == Err::<bool, GameError>(GameError::NotFound) && *final(self) == *old(
                    self,
                ),
                Some(j) => {
                    if now >= old(self).spec_sessions()[j].expires_at {
                        r == Err::<bool, GameError>(GameError::NotFound) && *final(self) == *old(
                            self,
                        )
                    } else {
                        {
                            let (g, ok) = crate::game::claim_spec(
                                old(self).spec_sessions()[j].game,
                                identity,
                            );
                            &&& r == Ok::<bool, GameError>(ok)
                            &&& final(self).spec_sessions() == old(self).spec_sessions().update(
                                j,
                                SessionEntry { game: g, ..old(self).spec_sessions()[j] },
                            )
                        }
                    }
                },
            },
    {
        let n = self.sessions.len();
        let i = match self.find_index(sid) {
            Some(i) => i,
            None => {
                return Err(GameError::NotFound);
            },
        };
        proof {
            lemma_find_session_in_range(self.spec_sessions(), sid);
            assert(self.sessions@.len() == n);
            assert(i as int == find_session(old(self).spec_sessions(), sid).unwrap());
        }
        if now >= self.sessions[i].expires_at {
            return Err(GameError::NotFound);
        }
        let ok = self.sessions[i].game.claim(identity);
        proof {
            assert forall|aid: u64|
                total_refs(self.spec_sessions(), aid) <= owners_of(
                    self.spec_cache().spec_entries(),
                    aid,
                ) by {
                lemma_total_refs_update_same_set(
                    old(self).spec_sessions(),
                    i as int,
                    self.spec_sessions()[i as int],
                    aid,
                );
                assert(total_refs(old(self).spec_sessions(), aid) <= owners_of(
                    old(self).spec_cache().spec_entries(),
                    aid,
                ));
            }
        }
        Ok(ok)
    }
}

/// Dropping the first element of two equal suffixes keeps them equal.
proof fn lemma_suffix_shift(a: Seq<SessionEntry>, b: Seq<SessionEntry>, i: int, c: int)
    requires
        0 <= i < a.len(),
        0 <= c <= b.len(),
        a.subrange(i, a.len() as int) == b.subrange(c, b.len() as int),
    ensures
        a.subrange(i + 1, a.len() as int) == b.subrange(c + 1, b.len() as int),
{
    let sa = a.subrange(i, a.len() as int);
    let sb = b.subrange(c, b.len() as int);
    assert(sa.len() == sb.len());
    let ta = a.subrange(i + 1, a.len() as int);
    let tb = b.subrange(c + 1, b.len() as int);
    assert forall|m: int| 0 <= m < ta.len() implies #[trigger] ta[m] == tb[m] by {
        assert(ta[m] == a[i + 1 + m]);
        assert(tb[m] == b[c + 1 + m]);
        assert(sa[m + 1] == a[i + 1 + m]);
        assert(sb[m + 1] == b[c + 1 + m]);
        assert(sa[m + 1] == sb[m + 1]);
    }
    assert(ta =~= tb);
}

/// One step of `Seq::filter`, unfolded from the back.
proof fn lemma_filter_extend(s: Seq<SessionEntry>, pred: spec_fn(SessionEntry) -> bool)
    requires
        s.len() > 0,
    ensures
        pred(s.last()) ==> s.filter(pred) == s.drop_last().filter(pred).push(s.last()),
        !pred(s.last()) ==> s.filter(pred) == s.drop_last().filter(pred),
{
    reveal_with_fuel(Seq::<SessionEntry>::filter, 2);
}

impl Registry {
    /// Record a guess in a live session: the outcome and every refusal are
    /// exactly those of the session's own `guess`; an unknown or expired
    /// session is `NotFound`.
    pub fn guess(&mut self, sid: u64, identity: u64, row: usize, col: usize, now: u64) -> (r: Result<bool, GameError>)
        requires
            old(self).wf(),
        ensures
            final(self).wf(),
            final(self).spec_cache() == old(self).spec_cache(),
            match find_session(old(self).spec_sessions(), sid) {
                None => r == Err::<bool, GameError>(GameError::NotFound) && *final(self) == *old(
                    self,
                ),
                Some(j) => {
                    if now >= old(self).spec_sessions()[j].expires_at {
                        r == Err::<bool, GameError>(GameError::NotFound) && *final(self) == *old(
                            self,
                        )
                    } else {
                        {
                            &&& final(self).spec_sessions() == old(self).spec_sessions().update(
                                j,
                                SessionEntry {
                                    game: final(self).spec_sessions()[j].game,
                                    ..old(self).spec_sessions()[j]
                                },
                            )
                            &&& guess_rel(
                                old(self).spec_sessions()[j].game,
                                final(self).spec_sessions()[j].game,
                                identity,
                                row as int,
                                col as int,
                                r,
                            )
                        }
                    }
                },
            },
    {
        let n = self.sessions.len();
        let i = match self.find_index(sid) {
            Some(i) => i,
            None => {
                return Err(GameError::NotFound);
            },
        };
        proof {
            lemma_find_session_in_range(self.spec_sessions(), sid);
            assert(self.sessions@.len() == n);
            assert(i as int == find_session(old(self).spec_sessions(), sid).unwrap());
            assert(self.spec_sessions()[i as int].game.wf());
        }
        if now >= self.sessions[i].expires_at {
            return Err(GameError::NotFound);
        }
        let r = self.sessions[i].game.guess(identity, row, col);
        proof {
            assert forall|aid: u64|
                total_refs(self.spec_sessions(), aid) <= owners_of(
                    self.spec_cache().spec_entries(),
                    aid,
                ) by {
                lemma_total_refs_update_same_set(
                    old(self).spec_sessions(),
                    i as int,
                    self.spec_sessions()[i as int],
                    aid,
                );
                assert(total_refs(old(self).spec_sessions(), aid) <= owners_of(
                    old(self).spec_cache().spec_entries(),
                    aid,
                ));
            }
        }
        r
    }

    /// Update a connection flag in a live session: the flag change, the
    /// presence event and the reported peer are exactly those of the
    /// session's own `set_connected`; an unknown or expired session is
    /// `NotFound`.
    pub fn set_connected(&mut self, sid: u64, identity: u64, connected: bool, now: u64) -> (r: Result<Option<u64>, GameError>)
        requires
            old(self).wf(),
        ensures
            final(self).wf(),
            final(self).spec_cache() == old(self).spec_cache(),
            match find_session(old(self).spec_sessions(), sid) {
                None => r == Err::<Option<u64>, GameError>(GameError::NotFound) && *final(self)
                    == *old(self),
                Some(j) => {
                    if now >= old(self).spec_sessions()[j].expires_at {
                        r == Err::<Option<u64>, GameError>(GameError::NotFound) && *final(self)
                            == *old(self)
                    } else {
                        {
                            &&& final(self).spec_sessions() == old(self).spec_sessions().update(
                                j,
                                SessionEntry {
                                    game: final(self).spec_sessions()[j].game,
                                    ..old(self).spec_sessions()[j]
                                },
                            )
                            &&& r matches Ok(peer)
                            &&& connect_rel(
                                old(self).spec_sessions()[j].game,
                                final(self).spec_sessions()[j].game,
                                identity,
                                connected,
                                peer,
                            )
                        }
                    }
                },
            },
    {
        let n = self.sessions.len();
        let i = match self.find_index(sid) {
            Some(i) => i,
            None => {
                return Err(GameError::NotFound);
            },
        };
        proof {
            lemma_find_session_in_range(self.spec_sessions(), sid);
            assert(self.sessions@.len() == n);
            assert(i as int == find_session(old(self).spec_sessions(), sid).unwrap());
            assert(self.spec_sessions()[i as int].game.wf());
        }
        if now >= self.sessions[i].expires_at {
            return Err(GameError::NotFound);
        }
        let peer = self.sessions[i].game.set_connected(identity, connected);
        proof {
            assert forall|aid: u64|
                total_refs(self.spec_sessions(), aid) <= owners_of(
                    self.spec_cache().spec_entries(),
                    aid,
                ) by {
                lemma_total_refs_update_same_set(
                    old(self).spec_sessions(),
                    i as int,
                    self.spec_sessions()[i as int],
                    aid,
                );
                assert(total_refs(old(self).spec_sessions(), aid) <= owners_of(
                    old(self).spec_cache().spec_entries(),
                    aid,
                ));
            }
        }
        Ok(peer)
    }

    /// Publish an already-validated event on a live session's bus; the
    /// session's roles and board stay untouched.
    pub fn publish(&mut self, sid: u64, e: GameEvent, now: u64) -> (r: Result<(), GameError>)
        requires
            old(self).wf(),
        ensures
            final(self).wf(),
            final(self).spec_cache() == old(self).spec_cache(),
            match find_session(old(self).spec_sessions(), sid) {
                None => r == Err::<(), GameError>(GameError::NotFound) && *final(self) == *old(
                    self,
                ),
                Some(j) => {
                    if now >= old(self).spec_sessions()[j].expires_at {
                        r == Err::<(), GameError>(GameError::NotFound) && *final(self) == *old(
                            self,
                        )
                    } else {
                        {
                            &&& r == Ok::<(), GameError>(())
                            &&& final(self).spec_sessions() == old(self).spec_sessions().update(
                                j,
                                SessionEntry {
                                    game: GameState {
                                        events: final(self).spec_sessions()[j].game.events,
                                        ..old(self).spec_sessions()[j].game
                                    },
                                    ..old(self).spec_sessions()[j]
                                },
                            )
                            &&& published_one(
                                old(self).spec_sessions()[j].game.events,
                                final(self).spec_sessions()[j].game.events,
                                e,
                            )
                        }
                    }
                },
            },
    {
        let n = self.sessions.len();
        let i = match self.find_index(sid) {
            Some(i) => i,
            None => {
                return Err(GameError::NotFound);
            },
        };
        proof {
            lemma_find_session_in_range(self.spec_sessions(), sid);
            assert(self.sessions@.len() == n);
            assert(i as int == find_session(old(self).spec_sessions(), sid).unwrap());
            assert(self.spec_sessions()[i as int].game.wf());
        }
        if now >= self.sessions[i].expires_at {
            return Err(GameError::NotFound);
        }
        self.sessions[i].game.events.publish(e);
        proof {
            assert forall|aid: u64|
                total_refs(self.spec_sessions(), aid) <= owners_of(
                    self.spec_cache().spec_entries(),
                    aid,
                ) by {
                lemma_total_refs_update_same_set(
                    old(self).spec_sessions(),
                    i as int,
                    self.spec_sessions()[i as int],
                    aid,
                );
                assert(total_refs(old(self).spec_sessions(), aid) <= owners_of(
                    old(self).spec_cache().spec_entries(),
                    aid,
                ));
            }
        }
        Ok(())
    }

    /// Attach a viewer to a live session's bus: it will see only events
    /// published after this call.
    pub fn subscribe(&self, sid: u64, identity: u64, now: u64) -> (r: Result<Subscriber, GameError>)
        requires
            self.wf(),
        ensures
            match find_session(self.spec_sessions(), sid) {
                None => r == Err::<Subscriber, GameError>(GameError::NotFound),
                Some(j) => {
                    if now >= self.spec_sessions()[j].expires_at {
                        r == Err::<Subscriber, GameError>(GameError::NotFound)
                    } else {
                        {
                            &&& r matches Ok(sub)
                            &&& sub.identity == identity
                            &&& sub.cursor == self.spec_sessions()[j].game.events.end_pos()
                        }
                    }
                },
            },
    {
        let n = self.sessions.len();
        let i = match self.find_index(sid) {
            Some(i) => i,
            None => {
                return Err(GameError::NotFound);
            },
        };
        proof {
            lemma_find_session_in_range(self.spec_sessions(), sid);
            assert(self.sessions@.len() == n);
            assert(i as int == find_session(self.spec_sessions(), sid).unwrap());
            assert(self.spec_sessions()[i as int].game.wf());
        }
        if now >= self.sessions[i].expires_at {
            return Err(GameError::NotFound);
        }
        Ok(self.sessions[i].game.events.subscribe(identity))
    }

    /// Deliver the next foreign event of a live session's bus to this
    /// subscriber, exactly as the bus's own `next_event` does.
    pub fn next_event(&self, sid: u64, sub: &mut Subscriber, now: u64) -> (r: Result<Option<GameEvent>, GameError>)
        requires
            self.wf(),
        ensures
            match find_session(self.spec_sessions(), sid) {
                None => r == Err::<Option<GameEvent>, GameError>(GameError::NotFound)
                    && *final(sub) == *old(sub),
                Some(j) => {
                    if now >= self.spec_sessions()[j].expires_at {
                        r == Err::<Option<GameEvent>, GameError>(GameError::NotFound)
                            && *final(sub) == *old(sub)
                    } else {
                        {
                            &&& r matches Ok(opt)
                            &&& next_event_rel(
                                self.spec_sessions()[j].game.events,
                                *old(sub),
                                *final(sub),
                                opt,
                            )
                        }
                    }
                },
            },
    {
        let n = self.sessions.len();
        let i = match self.find_index(sid) {
            Some(i) => i,
            None => {
                return Err(GameError::NotFound);
            },
        };
        proof {
            lemma_find_session_in_range(self.spec_sessions(), sid);
            assert(self.sessions@.len() == n);
            assert(i as int == find_session(self.spec_sessions(), sid).unwrap());
            assert(self.spec_sessions()[i as int].game.wf());
        }
        if now >= self.sessions[i].expires_at {
            return Err(GameError::NotFound);
        }
        Ok(self.sessions[i].game.events.next_event(sub))
    }

    /// The identity of the still-unclaimed role of a live session, if any:
    /// offered to a new, unidentified visitor.
    pub fn unclaimed_identity(&self, sid: u64, now: u64) -> (r: Result<Option<u64>, GameError>)
        requires
            self.wf(),
        ensures
            match find_session(self.spec_sessions(), sid) {
                None => r == Err::<Option<u64>, GameError>(GameError::NotFound),
                Some(j) => {
                    if now >= self.spec_sessions()[j].expires_at {
                        r == Err::<Option<u64>, GameError>(GameError::NotFound)
                    } else {
                        r == Ok::<Option<u64>, GameError>(
                            spec_unclaimed(self.spec_sessions()[j].game),
                        )
                    }
                },
            },
    {
        let n = self.sessions.len();
        let i = match self.find_index(sid) {
            Some(i) => i,
            None => {
                return Err(GameError::NotFound);
            },
        };
        proof {
            lemma_find_session_in_range(self.spec_sessions(), sid);
            assert(self.sessions@.len() == n);
            assert(i as int == find_session(self.spec_sessions(), sid).unwrap());
        }
        if now >= self.sessions[i].expires_at {
            return Err(GameError::NotFound);
        }
        Ok(self.sessions[i].game.unclaimed_identity())
    }

    /// The character asset shown at board coordinates of a live session.
    pub fn character_at(&self, sid: u64, row: usize, col: usize, now: u64) -> (r: Result<Character, GameError>)
        requires
            self.wf(),
        ensures
            match find_session(self.spec_sessions(), sid) {
                None => r == Err::<Character, GameError>(GameError::NotFound),
                Some(j) => {
                    if now >= self.spec_sessions()[j].expires_at {
                        r == Err::<Character, GameError>(GameError::NotFound)
                    } else if !(row < NUM_ROWS && col < NUM_COLS) {
                        r == Err::<Character, GameError>(GameError::InvalidInput)
                    } else {
                        {
                            let aid = self.spec_sessions()[j].game.characters.0@[cell_index(
                                row as int,
                                col as int,
                            )];
                            let hit = find_id(self.spec_cache().spec_entries(), aid);
                            &&& hit is Some
                            &&& (r matches Ok(c) && c.same_content(
                                &self.spec_cache().spec_entries()[hit.unwrap()].character,
                            ))
                        }
                    }
                },
            },
    {
        let n = self.sessions.len();
        let i = match self.find_index(sid) {
            Some(i) => i,
            None => {
                return Err(GameError::NotFound);
            },
        };
        proof {
            lemma_find_session_in_range(self.spec_sessions(), sid);
            assert(self.sessions@.len() == n);
            assert(i as int == find_session(self.spec_sessions(), sid).unwrap());
            assert(self.spec_sessions()[i as int].game.wf());
        }
        if now >= self.sessions[i].expires_at {
            return Err(GameError::NotFound);
        }
        if !(row < NUM_ROWS && col < NUM_COLS) {
            return Err(GameError::InvalidInput);
        }
        let cell = row * NUM_COLS + col;
        let aid = self.sessions[i].game.characters.0[cell];
        proof {
            lemma_count_ids_positive(
                self.spec_sessions()[i as int].game.characters.0@,
                cell as int,
                aid,
            );
            lemma_total_refs_member(self.spec_sessions(), i as int, aid);
            assert(total_refs(self.spec_sessions(), aid) <= owners_of(
                self.spec_cache().spec_entries(),
                aid,
            ));
            if find_id(self.spec_cache().spec_entries(), aid) is None {
                crate::pack::lemma_absent_no_owners(self.spec_cache().spec_entries(), aid);
            }
        }
        match self.cache.get_character(aid) {
            Some(c) => Ok(c.clone()),
            None => Err(GameError::Internal),
        }
    }

    /// The character asset secretly assigned to the role this identity
    /// holds in a live session.
    pub fn own_character(&self, sid: u64, identity: u64, now: u64) -> (r: Result<Character, GameError>)
        requires
            self.wf(),
        ensures
            match find_session(self.spec_sessions(), sid) {
                None => r == Err::<Character, GameError>(GameError::NotFound),
                Some(j) => {
                    if now >= self.spec_sessions()[j].expires_at {
                        r == Err::<Character, GameError>(GameError::NotFound)
                    } else {
                        {
                            let who = spec_player_for(self.spec_sessions()[j].game, identity);
                            let aid = self.spec_sessions()[j].game.characters.0@[who.unwrap().character as int];
                            let hit = find_id(self.spec_cache().spec_entries(), aid);
                            &&& who is None ==> r == Err::<Character, GameError>(
                                GameError::Unauthorized,
                            )
                            &&& who is Some ==> hit is Some && (r matches Ok(c)
                                && c.same_content(
                                &self.spec_cache().spec_entries()[hit.unwrap()].character,
                            ))
                        }
                    }
                },
            },
    {
        let n = self.sessions.len();
        let i = match self.find_index(sid) {
            Some(i) => i,
            None => {
                return Err(GameError::NotFound);
            },
        };
        proof {
            lemma_find_session_in_range(self.spec_sessions(), sid);
            assert(self.sessions@.len() == n);
            assert(i as int == find_session(self.spec_sessions(), sid).unwrap());
            assert(self.spec_sessions()[i as int].game.wf());
        }
        if now >= self.sessions[i].expires_at {
            return Err(GameError::NotFound);
        }
        let p = match self.sessions[i].game.player_for(identity) {
            Some(p) => p,
            None => {
                return Err(GameError::Unauthorized);
            },
        };
        let aid = self.sessions[i].game.characters.0[p.character];
        proof {
            lemma_count_ids_positive(
                self.spec_sessions()[i as int].game.characters.0@,
                p.character as int,
                aid,
            );
            lemma_total_refs_member(self.spec_sessions(), i as int, aid);
            assert(total_refs(self.spec_sessions(), aid) <= owners_of(
                self.spec_cache().spec_entries(),
                aid,
            ));
            if find_id(self.spec_cache().spec_entries(), aid) is None {
                crate::pack::lemma_absent_no_owners(self.spec_cache().spec_entries(), aid);
            }
        }
        match self.cache.get_character(aid) {
            Some(c) => Ok(c.clone()),
            None => Err(GameError::Internal),
        }
    }

    /// Evict every session that references either identity or collides
    /// with the identifier, releasing its board's owner references.
    fn evict(&mut self, id0: u64, id1: u64, sid: u64)
        requires
            old(self).wf(),
        ensures
            final(self).wf(),
            final(self).spec_sessions() == old(self).spec_sessions().filter(
                evict_filter(id0, id1, sid),
            ),
            final(self).spec_cache().spec_entries() == release_all_spec(
                old(self).spec_cache().spec_entries(),
                evicted_ids(old(self).spec_sessions(), id0, id1, sid),
                0,
            ),
            final(self).spec_cache().spec_next_id() == old(self).spec_cache().spec_next_id(),
    {
        let ghost orig_sessions = self.sessions@;
        let ghost orig_entries = self.cache.spec_entries();
        let ghost pred = evict_filter(id0, id1, sid);
        proof {
            assert(old(self).spec_sessions() == self.sessions@);
            assert(old(self).spec_cache() == self.cache);
        }
        let mut i: usize = 0;
        let ghost mut consumed: int = 0;
        while i < self.sessions.len()
            invariant
                old(self).wf(),
                pred == evict_filter(id0, id1, sid),
                forall|m: int, n: int|
                    0 <= m < n < self.sessions@.len() ==> (#[trigger] self.sessions@[m]).sid != (
                    #[trigger] self.sessions@[n]).sid,
                forall|m: int|
                    0 <= m < self.sessions@.len() ==> (#[trigger] self.sessions@[m]).game.wf(),
                self.cache.wf(),
                orig_sessions == old(self).spec_sessions(),
                orig_entries == old(self).spec_cache().spec_entries(),
                i <= self.sessions@.len(),
                0 <= consumed <= orig_sessions.len(),
                self.sessions@.subrange(0, i as int) == orig_sessions.subrange(0, consumed).filter(
                    pred,
                ),
                self.sessions@.subrange(i as int, self.sessions@.len() as int)
                    == orig_sessions.subrange(consumed, orig_sessions.len() as int),
                self.cache.spec_entries() == release_all_spec(
                    orig_entries,
                    evicted_ids(orig_sessions.subrange(0, consumed), id0, id1, sid),
                    0,
                ),
                self.cache.spec_next_id() == old(self).spec_cache().spec_next_id(),
            decreases self.sessions@.len() - i,
        {
            proof {
                let suf_a = self.sessions@.subrange(i as int, self.sessions@.len() as int);
                let suf_b = orig_sessions.subrange(consumed, orig_sessions.len() as int);
                assert(suf_a.len() == suf_b.len());
                assert(consumed < orig_sessions.len());
                assert(suf_a[0] == suf_b[0]);
                assert(self.sessions@[i as int] == orig_sessions[consumed]);
                assert(orig_sessions.subrange(0, consumed + 1).drop_last() =~= orig_sessions
                    .subrange(0, consumed));
                assert(orig_sessions.subrange(0, consumed + 1).last() == orig_sessions[consumed]);
            }
            let keep = {
                let e = &self.sessions[i];
                !(e.game.p0.id == id0 || e.game.p1.id == id0 || e.game.p0.id == id1
                    || e.game.p1.id == id1 || e.sid == sid)
            };
            proof {
                assert(keep == pred(self.sessions@[i as int]));
            }
            if !keep {
                let ghost pre = self.sessions@;
                let entry = self.sessions.remove(i);
                self.cache.release_set(&entry.game.characters);
                proof {
                    crate::pack::lemma_release_all_concat(
                        orig_entries,
                        evicted_ids(orig_sessions.subrange(0, consumed), id0, id1, sid),
                        entry.game.characters.0@,
                    );
                    assert(forall|m: int| 0 <= m < i ==> self.sessions@[m] == pre[m]);
                    assert(forall|m: int|
                        i <= m < self.sessions@.len() ==> self.sessions@[m] == pre[m + 1]);
                    assert(self.sessions@.subrange(0, i as int) =~= pre.subrange(0, i as int));
                    assert(self.sessions@.subrange(i as int, self.sessions@.len() as int)
                        =~= pre.subrange(i + 1, pre.len() as int));
                    lemma_suffix_shift(pre, orig_sessions, i as int, consumed);
                    assert(forall|m: int, n: int|
                        0 <= m < n < self.sessions@.len() ==> (#[trigger] self.sessions@[m]).sid
                            != (#[trigger] self.sessions@[n]).sid);
                    assert(forall|m: int|
                        0 <= m < self.sessions@.len() ==> (#[trigger] self.sessions@[m]).game.wf());
                    lemma_filter_extend(orig_sessions.subrange(0, consumed + 1), pred);
                    assert(orig_sessions.subrange(0, consumed + 1).filter(pred)
                        == orig_sessions.subrange(0, consumed).filter(pred));
                    consumed = consumed + 1;
                }
            } else {
                proof {
                    lemma_filter_extend(orig_sessions.subrange(0, consumed + 1), pred);
                    assert(orig_sessions.subrange(0, consumed + 1).filter(pred)
                        == orig_sessions.subrange(0, consumed).filter(pred).push(
                        orig_sessions[consumed],
                    ));
                    assert(self.sessions@.subrange(0, i + 1) =~= self.sessions@.subrange(
                        0,
                        i as int,
                    ).push(self.sessions@[i as int]));
                    lemma_suffix_shift(self.sessions@, orig_sessions, i as int, consumed);
                    assert(evicted_ids(orig_sessions.subrange(0, consumed + 1), id0, id1, sid)
                        =~= evicted_ids(orig_sessions.subrange(0, consumed), id0, id1, sid));
                    consumed = consumed + 1;
                }
                i = i + 1;
            }
        }
        proof {
            assert(consumed == orig_sessions.len());
            assert(orig_sessions.subrange(0, orig_sessions.len() as int) =~= orig_sessions);
            assert(self.sessions@.subrange(0, self.sessions@.len() as int) =~= self.sessions@);
            assert(self.spec_sessions() == self.sessions@);
            assert(self.spec_cache() == self.cache);
            assert forall|aid: u64|
                total_refs(self.sessions@, aid) <= owners_of(
                    self.cache.spec_entries(),
                    aid,
                ) by {
                lemma_evict_split(orig_sessions, id0, id1, sid, aid);
                crate::pack::lemma_release_all_owners(
                    orig_entries,
                    evicted_ids(orig_sessions, id0, id1, sid),
                    0,
                    aid,
                );
                assert(total_refs(orig_sessions, aid) <= owners_of(orig_entries, aid));
            }
            assert(self.wf());
        }
    }

    /// Create a session from an uploaded archive: sweep out dead sessions,
    /// turn the archive into a board through the cache, evict any session
    /// owned by either of the new session's identities (most recent session
    /// wins) or colliding with its identifier, and register the new game
    /// with the given lifetime.  On failure nothing but the sweep has
    /// happened.
    pub fn create(&mut self, game_id: u64, pack: Vec<u8>, p0: PlayerState, p1: PlayerState, ttl: u64, now: u64) -> (r: Result<(), LoadError>)
        requires
            old(self).wf(),
            p0.wf(),
            p1.wf(),
            old(self).spec_cache().spec_next_id() + NUM_CHARS <= u64::MAX,
        ensures
            final(self).wf(),
            pack@.len() == 0 ==> r == Err::<(), LoadError>(LoadError::Corrupt),
            crate::pack::parsed_entries(pack@) is None ==> r == Err::<(), LoadError>(
                LoadError::Corrupt,
            ),
            ({
                let parsed = crate::pack::parsed_entries(pack@);
                parsed is Some && crate::pack::all_qualifying_readable(parsed.unwrap()) ==> {
                    &&& crate::pack::count_qualifying(parsed.unwrap()) >= NUM_CHARS ==> r is Ok
                    &&& crate::pack::count_qualifying(parsed.unwrap()) < NUM_CHARS ==> r == Err::<
                        (),
                        LoadError,
                    >(LoadError::InsufficientImages)
                }
            }),
            r is Err ==> final(self).spec_sessions() == old(self).spec_sessions().filter(
                live_filter(now),
            ) && final(self).spec_cache().spec_entries() == release_all_spec(
                old(self).spec_cache().spec_entries(),
                dead_ids(old(self).spec_sessions(), now),
                0,
            ),
            r is Ok ==> {
                let swept = old(self).spec_sessions().filter(live_filter(now));
                let kept = swept.filter(evict_filter(p0.id, p1.id, game_id));
                let entry = final(self).spec_sessions().last();
                &&& final(self).spec_sessions() == kept.push(entry)
                &&& entry.sid == game_id
                &&& entry.expires_at == expiry_of(now, ttl)
                &&& entry.game.p0 == p0
                &&& entry.game.p1 == p1
                &&& entry.game.characters.wf()
                &&& entry.game.events.backlog() == Seq::<GameEvent>::empty()
                &&& entry.game.events.spec_dropped() == 0
                &&& entry.game.events.spec_capacity() == crate::DEFAULT_EVENT_BACKLOG
            },
            r is Ok ==> {
                let swept = old(self).spec_sessions().filter(live_filter(now));
                let swept_entries = release_all_spec(
                    old(self).spec_cache().spec_entries(),
                    dead_ids(old(self).spec_sessions(), now),
                    0,
                );
                let swept_next = old(self).spec_cache().spec_next_id();
                exists|chars: Seq<Character>|
                    {
                        &&& chars.len() == crate::NUM_CHARS
                        &&& (#[trigger] crate::pack::intern_all_spec(
                            swept_entries,
                            swept_next,
                            chars,
                            0,
                        )).2 == final(self).spec_sessions().last().game.characters.0@
                        &&& final(self).spec_cache().spec_entries() == release_all_spec(
                            crate::pack::intern_all_spec(swept_entries, swept_next, chars, 0).0,
                            evicted_ids(swept, p0.id, p1.id, game_id),
                            0,
                        )
                        &&& final(self).spec_cache().spec_next_id() == crate::pack::intern_all_spec(
                            swept_entries,
                            swept_next,
                            chars,
                            0,
                        ).1
                    }
            },
    {
        self.sweep(now);
        let ghost pre_entries = self.cache.spec_entries();
        let ghost pre_next = self.cache.spec_next_id();
        let set = match self.cache.load(pack) {
            Ok(s) => s,
            Err(e) => {
                return Err(e);
            },
        };
        let ghost swept = self.sessions@;
        let ghost mid_entries = self.cache.spec_entries();
        proof {
            let chars = choose|chars: Seq<Character>|
                {
                    &&& chars.len() == crate::NUM_CHARS
                    &&& forall|t: int|
                        0 <= t < chars.len() ==> crate::pack::media_qualifies(
                            (#[trigger] chars[t]).tag_view(),
                        )
                    &&& (
                    self.spec_cache().spec_entries(),
                    self.spec_cache().spec_next_id(),
                    set.0@,
                    ) == #[trigger] crate::pack::intern_all_spec(pre_entries, pre_next, chars, 0)
                };
            assert forall|aid: u64|
                owners_of(mid_entries, aid) >= total_refs(swept, aid) + count_ids(
                    set.0@,
                    0,
                    aid,
                ) by {
                crate::pack::lemma_intern_all_owners(pre_entries, pre_next, chars, 0, aid);
                assert(total_refs(swept, aid) <= owners_of(pre_entries, aid));
            }
            assert(covered(self.spec_sessions(), self.spec_cache().spec_entries())) by {
                assert forall|aid: u64|
                    total_refs(self.spec_sessions(), aid) <= owners_of(
                        self.spec_cache().spec_entries(),
                        aid,
                    ) by {
                    lemma_count_ids_nonneg(set.0@, 0, aid);
                    assert(owners_of(mid_entries, aid) >= total_refs(swept, aid) + count_ids(
                        set.0@,
                        0,
                        aid,
                    ));
                }
            }
            assert(self.wf());
        }
        self.evict(p0.id, p1.id, game_id);
        let game = GameState::new(set, p0, p1);
        let expires_at = if ttl <= u64::MAX - now {
            now + ttl
        } else {
            u64::MAX
        };
        proof {
            let pred = evict_filter(p0.id, p1.id, game_id);
            assert forall|j: int| 0 <= j < self.sessions@.len() implies (
            #[trigger] self.sessions@[j]).sid != game_id by {
                swept.lemma_filter_pred(pred, j);
            }
        }
        self.sessions.push(SessionEntry { sid: game_id, expires_at, game });
        proof {
            let chars = choose|chars: Seq<Character>|
                {
                    &&& chars.len() == crate::NUM_CHARS
                    &&& forall|t: int|
                        0 <= t < chars.len() ==> crate::pack::media_qualifies(
                            (#[trigger] chars[t]).tag_view(),
                        )
                    &&& (mid_entries, self.spec_cache().spec_next_id(), set.0@)
                        == #[trigger] crate::pack::intern_all_spec(
                        pre_entries,
                        pre_next,
                        chars,
                        0,
                    )
                };
            assert(crate::pack::intern_all_spec(pre_entries, pre_next, chars, 0).2 == set.0@);
            let pred = evict_filter(p0.id, p1.id, game_id);
            let entry = SessionEntry { sid: game_id, expires_at, game };
            assert forall|aid: u64|
                total_refs(self.spec_sessions(), aid) <= owners_of(
                    self.spec_cache().spec_entries(),
                    aid,
                ) by {
                lemma_total_refs_push(swept.filter(pred), entry, aid);
                assert(set_refs(entry, aid) == count_ids(set.0@, 0, aid));
                lemma_evict_split(swept, p0.id, p1.id, game_id, aid);
                crate::pack::lemma_release_all_owners(
                    mid_entries,
                    evicted_ids(swept, p0.id, p1.id, game_id),
                    0,
                    aid,
                );
                assert(owners_of(mid_entries, aid) >= total_refs(swept, aid) + count_ids(
                    set.0@,
                    0,
                    aid,
                ));
            }
        }
        Ok(())
    }
}


proof fn lemma_count_ids_nonneg(ids: Seq<u64>, k: int, aid: u64)
    ensures
        count_ids(ids, k, aid) >= 0,
    decreases ids.len() - k,
{
    if 0 <= k < ids.len() {
        lemma_count_ids_nonneg(ids, k + 1, aid);
    }
}

proof fn lemma_count_ids_positive(ids: Seq<u64>, p: int, aid: u64)
    requires
        0 <= p < ids.len(),
        ids[p] == aid,
    ensures
        count_ids(ids, 0, aid) >= 1,
    decreases p,
{
    if p == 0 {
        lemma_count_ids_nonneg(ids, 1, aid);
    } else {
        crate::pack::lemma_count_ids_shift(ids, aid);
        assert(ids.drop_first()[p - 1] == ids[p]);
        lemma_count_ids_positive(ids.drop_first(), p - 1, aid);
        lemma_count_ids_nonneg(ids, 0, aid);
    }
}

proof fn lemma_total_refs_nonneg(s: Seq<SessionEntry>, aid: u64)
    ensures
        total_refs(s, aid) >= 0,
    decreases s.len(),
{
    if s.len() > 0 {
        lemma_total_refs_nonneg(s.drop_last(), aid);
        lemma_count_ids_nonneg(s.last().game.characters.0@, 0, aid);
    }
}

proof fn lemma_total_refs_push(s: Seq<SessionEntry>, e: SessionEntry, aid: u64)
    ensures
        total_refs(s.push(e), aid) == total_refs(s, aid) + set_refs(e, aid),
{
    assert(s.push(e).drop_last() =~= s);
    assert(s.push(e).last() == e);
}

proof fn lemma_total_refs_update_same_set(s: Seq<SessionEntry>, j: int, e: SessionEntry, aid: u64)
    requires
        0 <= j < s.len(),
        e.game.characters.0@ == s[j].game.characters.0@,
    ensures
        total_refs(s.update(j, e), aid) == total_refs(s, aid),
    decreases s.len(),
{
    let t = s.update(j, e);
    if j == s.len() - 1 {
        assert(t.drop_last() =~= s.drop_last());
        assert(set_refs(t.last(), aid) == set_refs(s.last(), aid));
    } else {
        assert(t.drop_last() =~= s.drop_last().update(j, e));
        assert(t.last() == s.last());
        lemma_total_refs_update_same_set(s.drop_last(), j, e, aid);
    }
}

proof fn lemma_total_refs_member(s: Seq<SessionEntry>, j: int, aid: u64)
    requires
        0 <= j < s.len(),
    ensures
        total_refs(s, aid) >= set_refs(s[j], aid),
    decreases s.len(),
{
    if j == s.len() - 1 {
        lemma_total_refs_nonneg(s.drop_last(), aid);
    } else {
        lemma_total_refs_member(s.drop_last(), j, aid);
        assert(s.drop_last()[j] == s[j]);
        lemma_count_ids_nonneg(s.last().game.characters.0@, 0, aid);
    }
}

/// Splitting the session table by liveness splits its owner references:
/// what the dead sessions held is exactly what the sweep releases.
proof fn lemma_dead_split(s: Seq<SessionEntry>, now: u64, aid: u64)
    ensures
        total_refs(s.filter(live_filter(now)), aid) + count_ids(dead_ids(s, now), 0, aid)
            == total_refs(s, aid),
    decreases s.len(),
{
    if s.len() == 0 {
        assert(s.filter(live_filter(now)) =~= s);
    } else {
        let t = s.drop_last();
        lemma_dead_split(t, now, aid);
        lemma_filter_extend(s, live_filter(now));
        let freed = if now >= s.last().expires_at {
            s.last().game.characters.0@
        } else {
            Seq::<u64>::empty()
        };
        crate::pack::lemma_count_ids_concat(dead_ids(t, now), freed, aid);
        if now >= s.last().expires_at {
            assert(s.filter(live_filter(now)) == t.filter(live_filter(now)));
        } else {
            lemma_total_refs_push(t.filter(live_filter(now)), s.last(), aid);
            assert(count_ids(freed, 0, aid) == 0);
        }
    }
}

/// Splitting the session table by eviction splits its owner references:
/// what the evicted sessions held is exactly what eviction releases.
proof fn lemma_evict_split(s: Seq<SessionEntry>, id0: u64, id1: u64, sid: u64, aid: u64)
    ensures
        total_refs(s.filter(evict_filter(id0, id1, sid)), aid) + count_ids(
            evicted_ids(s, id0, id1, sid),
            0,
            aid,
        ) == total_refs(s, aid),
    decreases s.len(),
{
    let pred = evict_filter(id0, id1, sid);
    if s.len() == 0 {
        assert(s.filter(pred) =~= s);
    } else {
        let t = s.drop_last();
        lemma_evict_split(t, id0, id1, sid, aid);
        lemma_filter_extend(s, pred);
        let freed = if !pred(s.last()) {
            s.last().game.characters.0@
        } else {
            Seq::<u64>::empty()
        };
        crate::pack::lemma_count_ids_concat(evicted_ids(t, id0, id1, sid), freed, aid);
        if !pred(s.last()) {
            assert(s.filter(pred) == t.filter(pred));
        } else {
            lemma_total_refs_push(t.filter(pred), s.last(), aid);
            assert(count_ids(freed, 0, aid) == 0);
        }
    }
}

proof fn lemma_find_session_at(s: Seq<SessionEntry>, sid: u64, i: int)
    requires
        0 <= i < s.len(),
        s[i].sid == sid,
        forall|j: int| 0 <= j < i ==> s[j].sid != sid,
    ensures
        find_session(s, sid) == Some(i),
    decreases i,
{
    if i > 0 {
        assert(s.drop_first()[i - 1] == s[i]);
        assert(forall|j: int| 0 <= j < i - 1 ==> s.drop_first()[j] == s[j + 1]);
        lemma_find_session_at(s.drop_first(), sid, i - 1);
    }
}

proof fn lemma_find_session_none(s: Seq<SessionEntry>, sid: u64, n: int)
    requires
        n == s.len(),
        forall|j: int| 0 <= j < n ==> s[j].sid != sid,
    ensures
        find_session(s, sid) is None,
    decreases n,
{
    if n > 0 {
        assert(forall|j: int| 0 <= j < n - 1 ==> s.drop_first()[j] == s[j + 1]);
        lemma_find_session_none(s.drop_first(), sid, n - 1);
    }
}


/// Every element of a filtered sequence comes from the sequence itself.
proof fn lemma_filter_member(s: Seq<SessionEntry>, pred: spec_fn(SessionEntry) -> bool, k: int)
    requires
        0 <= k < s.filter(pred).len(),
    ensures
        exists|m: int| 0 <= m < s.len() && s[m] == #[trigger] s.filter(pred)[k],
    decreases s.len(),
{
    if s.len() > 0 {
        lemma_filter_extend(s, pred);
        if pred(s.last()) && k == s.filter(pred).len() - 1 {
            assert(s[s.len() - 1] == s.filter(pred)[k]);
        } else {
            lemma_filter_member(s.drop_last(), pred, k);
            let m = choose|m: int|
                0 <= m < s.drop_last().len() && s.drop_last()[m] == s.drop_last().filter(pred)[k];
            assert(s[m] == s.filter(pred)[k]);
        }
    }
}

/// Eviction law: creating a new session for an identity that already owns
/// a live session evicts the old one — after the new session is pushed,
/// the old session's identifier no longer resolves.  `base` is the live
/// session table the new session arrives into; `post` is the table
/// afterwards.
pub proof fn lemma_create_evicts(
    base: Seq<SessionEntry>,
    post: Seq<SessionEntry>,
    entry: SessionEntry,
    id0: u64,
    id1: u64,
    gid: u64,
    old_sid: u64,
    j: int,
)
    requires
        post == base.filter(evict_filter(id0, id1, gid)).push(entry),
        entry.sid == gid,
        old_sid != gid,
        0 <= j < base.len(),
        base[j].sid == old_sid,
        references(base[j].game, id0) || references(base[j].game, id1),
        forall|m: int, n: int|
            0 <= m < n < base.len() ==> (#[trigger] base[m]).sid != (#[trigger] base[n]).sid,
    ensures
        find_session(post, old_sid) is None,
{
    let pred = evict_filter(id0, id1, gid);
    let kept = base.filter(pred);
    if find_session(post, old_sid) is Some {
        lemma_find_session_in_range(post, old_sid);
        let k = find_session(post, old_sid).unwrap();
        assert(post[post.len() - 1] == entry);
        assert(k < post.len() - 1);
        assert(post[k] == kept[k]);
        base.lemma_filter_pred(pred, k);
        lemma_filter_member(base, pred, k);
        let m = choose|m: int| 0 <= m < base.len() && base[m] == kept[k];
        assert(base[m].sid == old_sid);
        assert(m == j);
        assert(false);
    }
}

/// A found session is a real index with the identifier.
pub proof fn lemma_find_session_in_range(s: Seq<SessionEntry>, sid: u64)
    requires
        find_session(s, sid) is Some,
    ensures
        0 <= find_session(s, sid).unwrap() < s.len(),
        s[find_session(s, sid).unwrap()].sid == sid,
    decreases s.len(),
{
    if s.len() > 0 && s[0].sid != sid {
        lemma_find_session_in_range(s.drop_first(), sid);
        assert(s.drop_first()[find_session(s.drop_first(), sid).unwrap()] == s[find_session(
            s.drop_first(),
            sid,
        ).unwrap() + 1]);
    }
}

} // verus!
