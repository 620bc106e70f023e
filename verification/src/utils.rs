//! Small concurrency-shaped utilities: a value whose reachability expires
//! after a fixed delay, and a mutual-exclusion cell.
//!
//! Expiry is modelled with an explicit deadline checked on access: the
//! wrapped value is dropped by whichever caller next touches it after the
//! deadline, and once absent it never comes back.  Callers supply the
//! current time in milliseconds, so nothing here reads a clock.

use vstd::prelude::*;

verus! {

/// When a resource created at `now` with lifetime `ttl` stops being
/// reachable (the deadline pins at the end of the 64-bit clock rather than
/// wrapping).
pub open spec fn expiry_of(now: u64, ttl: u64) -> u64 {
    if now + ttl <= u64::MAX {
        (now + ttl) as u64
    } else {
        u64::MAX
    }
}

/// Wraps an owned value behind a deadline: `get` answers with the value
/// until the deadline passes, then drops it, permanently.  Expiry stops new
/// acquisitions; it cannot revoke what callers already copied out.
pub struct TimedResource<T> {
    value: Option<T>,
    expires_at: u64,
    expired: bool,
}

impl<T> TimedResource<T> {
    /// The wrapped value, while it is still held.
    pub closed spec fn spec_value(&self) -> Option<T> {
        self.value
    }

    /// The deadline after which the value becomes unreachable.
    pub closed spec fn spec_expires_at(&self) -> u64 {
        self.expires_at
    }

    /// Whether the value has already been dropped.
    pub closed spec fn spec_expired(&self) -> bool {
        self.expired
    }

    /// The value is held exactly until expiry fires.
    pub open spec fn wf(&self) -> bool {
        self.spec_expired() <==> self.spec_value() is None
    }

    /// Take ownership of `value` with lifetime `ttl` (milliseconds),
    /// starting now.
    pub fn new(value: T, ttl: u64, now: u64) -> (r: TimedResource<T>)
        ensures
            r.wf(),
            !r.spec_expired(),
            r.spec_value() == Some(value),
            r.spec_expires_at() == expiry_of(now, ttl),
    {
        let expires_at = if ttl <= u64::MAX - now {
            now + ttl
        } else {
            u64::MAX
        };
        TimedResource { value: Some(value), expires_at, expired: false }
    }

    /// The value, while the deadline has not passed; after that, absent —
    /// permanently, however often it is queried.  The first access past the
    /// deadline drops the value.
    pub fn get(&mut self, now: u64) -> (r: Option<&T>)
        requires
            old(self).wf(),
        ensures
            final(self).wf(),
            final(self).spec_expires_at() == old(self).spec_expires_at(),
            final(self).spec_expired() == (old(self).spec_expired() || now >= old(
                self,
            ).spec_expires_at()),
            r is Some <==> !old(self).spec_expired() && now < old(self).spec_expires_at(),
            r matches Some(v) ==> old(self).spec_value() == Some(*v) && *final(self) == *old(self),
    {
        if self.expired {
            None
        } else if now >= self.expires_at {
            self.expired = true;
            self.value = None;
            None
        } else {
            self.value.as_ref()
        }
    }

    /// Has the deadline passed (or the value already been dropped)?
    pub fn is_timed_out(&self, now: u64) -> (r: bool)
        ensures
            r == (self.spec_expired() || now >= self.spec_expires_at()),
    {
        self.expired || now >= self.expires_at
    }

    /// Recover the value if the deadline has passed but the value is still
    /// held: used by owners that must dispose of what the value references
    /// before letting it go.
    pub fn take_expired(&mut self, now: u64) -> (r: Option<T>)
        requires
            old(self).wf(),
        ensures
            final(self).wf(),
            final(self).spec_expires_at() == old(self).spec_expires_at(),
            !old(self).spec_expired() && now >= old(self).spec_expires_at() ==> r == old(
                self,
            ).spec_value() && r is Some && final(self).spec_expired(),
            !(!old(self).spec_expired() && now >= old(self).spec_expires_at()) ==> r is None
                && *final(self) == *old(self),
    {
        if !self.expired && now >= self.expires_at {
            self.expired = true;
            self.value.take()
        } else {
            None
        }
    }
}

/// A mutual-exclusion cell around a value.  Callers hand in the function to
/// run under the lock; the critical section is exactly that call.
pub struct SyncMutex<T> {
    value: Option<T>,
}

impl<T> SyncMutex<T> {
    /// The cell always holds its value between calls.
    pub closed spec fn wf(&self) -> bool {
        self.value is Some
    }

    /// The guarded value.
    pub closed spec fn inner(&self) -> T {
        self.value.unwrap()
    }

    /// A cell guarding `t`.
    pub fn new(t: T) -> (r: SyncMutex<T>)
        ensures
            r.wf(),
            r.inner() == t,
    {
        SyncMutex { value: Some(t) }
    }

    /// Run `f` on a shared view of the guarded value and hand back its
    /// result.
    pub fn peek<U, F: Fn(&T) -> U>(&self, f: F) -> (r: U)
        requires
            self.wf(),
            forall|t: &T| *t == self.inner() ==> call_requires(f, (t,)),
        ensures
            exists|t: &T| *t == self.inner() && call_ensures(f, (t,), r),
    {
        let t = self.value.as_ref().unwrap();
        f(t)
    }

    /// Run `f` on the guarded value, store the value `f` hands back, and
    /// return the result alongside it.
    pub fn mutate<U, F: FnOnce(T) -> (T, U)>(&mut self, f: F) -> (r: U)
        requires
            old(self).wf(),
            call_requires(f, (old(self).inner(),)),
        ensures
            final(self).wf(),
            exists|p: (T, U)|
                call_ensures(f, (old(self).inner(),), p) && final(self).inner() == p.0 && r == p.1,
    {
        let v = self.value.take().unwrap();
        let (v2, u) = f(v);
        self.value = Some(v2);
        u
    }
}

} // verus!
