//! Game events and the per-session broadcast bus.
//!
//! Every session owns one [`EventBus`].  Mutating operations on the session
//! publish events into it; each attached viewer holds a [`Subscriber`] with
//! an independent cursor and drains events in publish order, never seeing an
//! event that carries its own identity.  A subscriber that falls behind the
//! bounded backlog misses the oldest events rather than blocking publishers.

use vstd::prelude::*;

use crate::GameError;

verus! {

/// Opaque real-time-call signalling payload: offer, answer, ICE candidate or
/// reject, passed through the core unmodified.
#[derive(Debug)]
pub enum CallEvent {
    Offer { offer: String },
    Answer { answer: String },
    Candidate { candidate: String },
    Reject {},
}

impl Clone for CallEvent {
    fn clone(&self) -> (r: Self)
        ensures
            r == *self,
    {
        match self {
            CallEvent::Offer { offer } => CallEvent::Offer { offer: offer.clone() },
            CallEvent::Answer { answer } => CallEvent::Answer { answer: answer.clone() },
            CallEvent::Candidate { candidate } => CallEvent::Candidate {
                candidate: candidate.clone(),
            },
            CallEvent::Reject {} => CallEvent::Reject {},
        }
    }
}

/// One event on a session's bus.  Every variant carries the identity of the
/// player it is about; subscribers use it to filter out their own events.
#[derive(Debug)]
pub enum GameEvent {
    Connected { user_id: u64 },
    Disconnected { user_id: u64 },
    Correct { user_id: u64, tries: u64 },
    Incorrect { user_id: u64 },
    Message { user_id: u64, content: String },
    Call { user_id: u64, event: CallEvent },
}

impl Clone for GameEvent {
    fn clone(&self) -> (r: Self)
        ensures
            r == *self,
    {
        match self {
            GameEvent::Connected { user_id } => GameEvent::Connected { user_id: *user_id },
            GameEvent::Disconnected { user_id } => GameEvent::Disconnected { user_id: *user_id },
            GameEvent::Correct { user_id, tries } => GameEvent::Correct {
                user_id: *user_id,
                tries: *tries,
            },
            GameEvent::Incorrect { user_id } => GameEvent::Incorrect { user_id: *user_id },
            GameEvent::Message { user_id, content } => GameEvent::Message {
                user_id: *user_id,
                content: content.clone(),
            },
            GameEvent::Call { user_id, event } => GameEvent::Call {
                user_id: *user_id,
                event: event.clone(),
            },
        }
    }
}

impl GameEvent {
    /// The identity carried by this event.
    pub open spec fn spec_user_id(&self) -> u64 {
        match self {
            GameEvent::Connected { user_id } => *user_id,
            GameEvent::Disconnected { user_id } => *user_id,
            GameEvent::Correct { user_id, .. } => *user_id,
            GameEvent::Incorrect { user_id } => *user_id,
            GameEvent::Message { user_id, .. } => *user_id,
            GameEvent::Call { user_id, .. } => *user_id,
        }
    }

    /// The identity carried by this event.
    pub fn user_id(&self) -> (r: u64)
        ensures
            r == self.spec_user_id(),
    {
        match self {
            GameEvent::Connected { user_id } => *user_id,
            GameEvent::Disconnected { user_id } => *user_id,
            GameEvent::Correct { user_id, .. } => *user_id,
            GameEvent::Incorrect { user_id } => *user_id,
            GameEvent::Message { user_id, .. } => *user_id,
            GameEvent::Call { user_id, .. } => *user_id,
        }
    }
}

/// Per-session broadcast channel with a bounded backlog.  Events older than
/// the backlog bound are discarded as new ones are published; `dropped`
/// counts how many have been discarded so cursors stay meaningful.
pub struct EventBus {
    recent: Vec<GameEvent>,
    dropped: u64,
    capacity: usize,
}

/// One viewer's attachment to a bus: an identity used for self-filtering and
/// an independent cursor into the bus's event numbering.
pub struct Subscriber {
    pub identity: u64,
    pub cursor: u64,
}

impl EventBus {
    /// The events still buffered, oldest first.
    pub closed spec fn backlog(&self) -> Seq<GameEvent> {
        self.recent@
    }

    /// How many events have been discarded from the front of the buffer.
    pub closed spec fn spec_dropped(&self) -> u64 {
        self.dropped
    }

    /// The backlog bound this bus was created with.
    pub closed spec fn spec_capacity(&self) -> usize {
        self.capacity
    }

    /// Absolute position one past the newest buffered event.
    pub open spec fn end_pos(&self) -> int {
        self.spec_dropped() + self.backlog().len()
    }

    /// Well-formedness: the buffer never exceeds the backlog bound, and the
    /// absolute numbering has not run out.
    pub open spec fn wf(&self) -> bool {
        1 <= self.spec_capacity() && self.backlog().len() <= self.spec_capacity()
            && self.end_pos() <= u64::MAX
    }

    /// A fresh bus with the given backlog bound.
    pub fn new(capacity: usize) -> (r: EventBus)
        requires
            capacity >= 1,
        ensures
            r.wf(),
            r.backlog() == Seq::<GameEvent>::empty(),
            r.spec_dropped() == 0,
            r.spec_capacity() == capacity,
    {
        EventBus { recent: Vec::new(), dropped: 0, capacity }
    }

    /// Publish an event: appended to the buffer; once the buffer is full the
    /// oldest buffered event is discarded.  Publishing never blocks and
    /// never fails.  (Should a session ever exhaust the 64-bit event
    /// numbering, the bus stops accepting instead of renumbering.)
    pub fn publish(&mut self, e: GameEvent)
        requires
            old(self).wf(),
        ensures
            final(self).wf(),
            published_one(*old(self), *final(self), e),
    {
        let len64 = self.recent.len() as u64;
        if self.dropped + len64 == u64::MAX {
            return ;
        }
        if self.recent.len() < self.capacity {
            self.recent.push(e);
        } else {
            self.recent.remove(0);
            self.dropped = self.dropped + 1;
            self.recent.push(e);
            proof {
                assert(self.recent@ =~= old(self).recent@.subrange(
                    1,
                    old(self).recent@.len() as int,
                ).push(e));
            }
        }
    }

    /// Attach a new viewer: it will see only events published after this
    /// call.
    pub fn subscribe(&self, identity: u64) -> (r: Subscriber)
        requires
            self.wf(),
        ensures
            r.identity == identity,
            r.cursor == self.end_pos(),
    {
        let len64 = self.recent.len() as u64;
        Subscriber { identity, cursor: self.dropped + len64 }
    }

    /// Where a cursor really starts reading: clamped into the window of
    /// events the bus still holds.
    pub open spec fn start_pos(&self, cursor: u64) -> int {
        if cursor <= self.spec_dropped() {
            self.spec_dropped() as int
        } else if cursor as int <= self.end_pos() {
            cursor as int
        } else {
            self.end_pos()
        }
    }

    /// Deliver the next buffered event, in publish order, whose carried
    /// identity differs from the subscriber's; advance the cursor past it.
    /// A cursor that has fallen behind the window resumes at the oldest
    /// buffered event, missing the discarded ones.
    pub fn next_event(&self, sub: &mut Subscriber) -> (r: Option<GameEvent>)
        requires
            self.wf(),
        ensures
            next_event_rel(*self, *old(sub), *final(sub), r),
    {
        let ghost start = self.start_pos(old(sub).cursor);
        let len64 = self.recent.len() as u64;
        let end = self.dropped + len64;
        // Clamp the cursor into the live window.
        if sub.cursor <= self.dropped {
            sub.cursor = self.dropped;
        } else if sub.cursor > end {
            sub.cursor = end;
        }
        assert(sub.cursor == start);
        loop
            invariant
                self.wf(),
                sub.identity == old(sub).identity,
                end == self.end_pos(),
                self.spec_dropped() <= sub.cursor,
                start <= sub.cursor <= self.end_pos(),
                first_foreign(self.backlog(), start - self.spec_dropped(), old(sub).identity)
                    == first_foreign(
                    self.backlog(),
                    sub.cursor - self.spec_dropped(),
                    old(sub).identity,
                ),
            ensures
                sub.identity == old(sub).identity,
                self.spec_dropped() <= sub.cursor,
                match first_foreign(
                    self.backlog(),
                    start - self.spec_dropped(),
                    old(sub).identity,
                ) {
                    Some(i) => sub.cursor == self.spec_dropped() + i
                        && self.backlog()[i].spec_user_id() != old(sub).identity,
                    None => sub.cursor == self.end_pos(),
                },
            decreases self.end_pos() - sub.cursor,
        {
            if sub.cursor >= end {
                break;
            }
            let idx = (sub.cursor - self.dropped) as usize;
            let e = &self.recent[idx];
            if e.user_id() != sub.identity {
                break;
            }
            sub.cursor = sub.cursor + 1;
        }
        if sub.cursor < end {
            let idx = (sub.cursor - self.dropped) as usize;
            let e = self.recent[idx].clone();
            sub.cursor = sub.cursor + 1;
            Some(e)
        } else {
            None
        }
    }
}

/// Exactly what one delivery attempt does: the subscriber's cursor is
/// clamped into the live window, then advanced past the first buffered
/// event carrying a foreign identity, which is delivered; with no such
/// event the cursor lands at the end and nothing is delivered.  No event
/// carrying the subscriber's own identity is ever delivered.
pub open spec fn next_event_rel(
    bus: EventBus,
    pre: Subscriber,
    post: Subscriber,
    r: Option<GameEvent>,
) -> bool {
    &&& post.identity == pre.identity
    &&& (r is Some ==> r.unwrap().spec_user_id() != pre.identity)
    &&& match first_foreign(
        bus.backlog(),
        bus.start_pos(pre.cursor) - bus.spec_dropped(),
        pre.identity,
    ) {
        Some(i) => {
            &&& r == Some(bus.backlog()[i])
            &&& post.cursor == bus.spec_dropped() + i + 1
        },
        None => {
            &&& r is None
            &&& post.cursor == bus.end_pos()
        },
    }
}

/// Exactly what publishing `e` does to a bus: while the buffer is below the
/// backlog bound the event is appended; once full, the oldest buffered
/// event is discarded to make room; a bus whose 64-bit numbering has run
/// out stays as it is.
pub open spec fn published_one(pre: EventBus, post: EventBus, e: GameEvent) -> bool {
    &&& post.spec_capacity() == pre.spec_capacity()
    &&& (pre.end_pos() == u64::MAX ==> post == pre)
    &&& (pre.end_pos() < u64::MAX && pre.backlog().len() < pre.spec_capacity() ==> {
        &&& post.backlog() == pre.backlog().push(e)
        &&& post.spec_dropped() == pre.spec_dropped()
    })
    &&& (pre.end_pos() < u64::MAX && pre.backlog().len() >= pre.spec_capacity() ==> {
        &&& post.backlog() == pre.backlog().subrange(1, pre.backlog().len() as int).push(e)
        &&& post.spec_dropped() == pre.spec_dropped() + 1
    })
}

/// Index (relative to the buffer) of the first buffered event at or after
/// `from` whose carried identity is not `id`.
pub open spec fn first_foreign(s: Seq<GameEvent>, from: int, id: u64) -> Option<int>
    decreases s.len() - from,
{
    if from < 0 || from >= s.len() {
        None
    } else if s[from].spec_user_id() != id {
        Some(from)
    } else {
        first_foreign(s, from + 1, id)
    }
}


// ---------------------------------------------------------------------------
// Client-submitted events: identity check and markup sanitisation.
// ---------------------------------------------------------------------------

/// What rendering markdown to a restricted HTML subset returns: a pure
/// function of the input text.
pub uninterp spec fn html_of(s: Seq<char>) -> Seq<char>;

/// Relies on markdown::to_html: deterministic rendering of markdown text.
#[verifier::external_body]
fn render_markdown(s: &str) -> (r: String)
    ensures
        r@ == html_of(s@),
{
    markdown::to_html(s)
}

/// `s` with every leading repetition of `p` removed.
pub open spec fn strip_leading(s: Seq<char>, p: Seq<char>) -> Seq<char>
    decreases s.len(),
{
    if 0 < p.len() <= s.len() && s.subrange(0, p.len() as int) == p {
        strip_leading(s.subrange(p.len() as int, s.len() as int), p)
    } else {
        s
    }
}

/// `s` with every trailing repetition of `p` removed.
pub open spec fn strip_trailing(s: Seq<char>, p: Seq<char>) -> Seq<char>
    decreases s.len(),
{
    if 0 < p.len() <= s.len() && s.subrange(s.len() - p.len(), s.len() as int) == p {
        strip_trailing(s.subrange(0, s.len() - p.len()), p)
    } else {
        s
    }
}

/// Does `s` start with `p`?
fn char_prefix(s: &str, p: &str) -> (r: bool)
    ensures
        r == (s@.len() >= p@.len() && s@.subrange(0, p@.len() as int) == p@),
{
    let slen = s.unicode_len();
    let plen = p.unicode_len();
    if slen < plen {
        return false;
    }
    let mut i: usize = 0;
    while i < plen
        invariant
            slen == s@.len(),
            plen == p@.len(),
            slen >= plen,
            i <= plen,
            forall|j: int| 0 <= j < i ==> s@[j] == p@[j],
        decreases plen - i,
    {
        if s.get_char(i) != p.get_char(i) {
            return false;
        }
        i = i + 1;
    }
    proof {
        assert(s@.subrange(0, p@.len() as int) =~= p@);
    }
    true
}

/// Does `s` end with `p`?
fn char_suffix(s: &str, p: &str) -> (r: bool)
    ensures
        r == (s@.len() >= p@.len() && s@.subrange(s@.len() - p@.len(), s@.len() as int) == p@),
{
    let slen = s.unicode_len();
    let plen = p.unicode_len();
    if slen < plen {
        return false;
    }
    let start = slen - plen;
    let mut i: usize = 0;
    while i < plen
        invariant
            slen == s@.len(),
            plen == p@.len(),
            slen >= plen,
            start == slen - plen,
            i <= plen,
            forall|j: int| 0 <= j < i ==> s@[start + j] == p@[j],
        decreases plen - i,
    {
        if s.get_char(start + i) != p.get_char(i) {
            return false;
        }
        i = i + 1;
    }
    proof {
        assert(s@.subrange(s@.len() - p@.len(), s@.len() as int) =~= p@);
    }
    true
}

/// Remove every leading repetition of `p` from `s`.
fn strip_prefix_reps<'a>(s: &'a str, p: &str) -> (r: &'a str)
    requires
        p@.len() > 0,
    ensures
        r@ == strip_leading(s@, p@),
{
    let plen = p.unicode_len();
    let mut cur: &str = s;
    loop
        invariant
            plen == p@.len() > 0,
            strip_leading(s@, p@) == strip_leading(cur@, p@),
        ensures
            cur@ == strip_leading(s@, p@),
        decreases cur@.len(),
    {
        if !char_prefix(cur, p) {
            break;
        }
        let cur_len = cur.unicode_len();
        cur = cur.substring_char(plen, cur_len);
    }
    cur
}

/// Remove every trailing repetition of `p` from `s`.
fn strip_suffix_reps<'a>(s: &'a str, p: &str) -> (r: &'a str)
    requires
        p@.len() > 0,
    ensures
        r@ == strip_trailing(s@, p@),
{
    let plen = p.unicode_len();
    let mut cur: &str = s;
    loop
        invariant
            plen == p@.len() > 0,
            strip_trailing(s@, p@) == strip_trailing(cur@, p@),
        ensures
            cur@ == strip_trailing(s@, p@),
        decreases cur@.len(),
    {
        if !char_suffix(cur, p) {
            break;
        }
        let cur_len = cur.unicode_len();
        cur = cur.substring_char(0, cur_len - plen);
    }
    cur
}

impl GameEvent {
    /// Accept a client-submitted event: its carried identity must match the
    /// authenticated identity of the submitting connection, and only chat
    /// messages and call signals may be submitted.  A chat message's text
    /// is rendered through the restricted markup transform, with the
    /// enclosing paragraph tags removed; a call signal passes through
    /// unmodified.
    pub fn handle_user_event(self, user_id: u64) -> (r: Result<GameEvent, GameError>)
        ensures
            self.spec_user_id() != user_id ==> r == Err::<GameEvent, GameError>(
                GameError::InvalidInput,
            ),
            self.spec_user_id() == user_id ==> match self {
                GameEvent::Message { content, .. } => {
                    &&& r matches Ok(e)
                    &&& e matches GameEvent::Message { user_id: out_id, content: out }
                    &&& out_id == user_id
                    &&& out@ == strip_trailing(
                        strip_leading(html_of(content@), "<p>"@),
                        "</p>"@,
                    )
                },
                GameEvent::Call { .. } => r == Ok::<GameEvent, GameError>(self),
                _ => r == Err::<GameEvent, GameError>(GameError::InvalidInput),
            },
    {
        if self.user_id() != user_id {
            return Err(GameError::InvalidInput);
        }
        proof {
            reveal_strlit("<p>");
            reveal_strlit("</p>");
        }
        match self {
            GameEvent::Message { content, .. } => {
                let html = render_markdown(content.as_str());
                let body = strip_suffix_reps(strip_prefix_reps(html.as_str(), "<p>"), "</p>");
                Ok(GameEvent::Message { user_id, content: body.to_owned() })
            },
            GameEvent::Call { user_id: call_id, event } => Ok(
                GameEvent::Call { user_id: call_id, event },
            ),
            _ => Err(GameError::InvalidInput),
        }
    }
}

} // verus!
