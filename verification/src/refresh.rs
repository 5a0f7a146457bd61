//! A value from a slow source, kept for a while before it is fetched again.
//!
//! The cache fetches nothing itself. Asked once per frame, it says whether
//! a fetch is to be launched now, and goes on serving the value it holds.
//! The caller launches the fetch off the render thread and hands the
//! result in when it is there. Times are milliseconds on a clock of the
//! caller's choice that does not run backwards.

use vstd::prelude::*;

verus! {

/// How long a value is served before it is fetched again: 20 seconds.
pub const DEFAULT_TTL: u64 = 20_000;

/// Why a fetch gave no value.
#[derive(Clone, Copy, Debug, PartialEq, Eq, Structural)]
pub enum FetchError {
    /// There is no repository at the path.
    RepositoryAbsent,
    /// The source could not be reached or read.
    Failed,
}

/// The last value fetched, and when the last fetch was launched.
pub struct RefreshCache<T> {
    current: Option<T>,
    last_fetch_started_at: Option<u64>,
    ttl: u64,
}

/// A cache as a mathematical value.
pub struct CacheView<T> {
    /// The last value that a fetch gave; `None` before the first.
    pub current: Option<T>,
    /// When the last fetch was launched; `None` where the next question
    /// launches one whatever the time.
    pub last_fetch_started_at: Option<nat>,
    pub ttl: nat,
}

/// The time from `since` to `now`, none where the clock ran backwards.
pub open spec fn elapsed(since: nat, now: nat) -> nat {
    if now >= since {
        (now - since) as nat
    } else {
        0
    }
}

impl<T> CacheView<T> {
    /// At `now` the value is due to be fetched again.
    pub open spec fn expired(self, now: nat) -> bool {
        match self.last_fetch_started_at {
            None => true,
            Some(since) => elapsed(since, now) >= self.ttl,
        }
    }

    /// The cache after it was asked at `now`, and whether a fetch is
    /// launched.
    pub open spec fn asked(self, now: nat) -> (Self, bool) {
        if self.expired(now) {
            (CacheView { last_fetch_started_at: Some(now), ..self }, true)
        } else {
            (self, false)
        }
    }

    /// The cache after a fetch came back.
    pub open spec fn completed<E>(self, fetched: Result<T, E>) -> Self {
        match fetched {
            Ok(value) => CacheView { current: Some(value), ..self },
            Err(_) => self,
        }
    }

    /// The cache after its value was declared out of date.
    pub open spec fn invalidated(self) -> Self {
        CacheView { last_fetch_started_at: None, ..self }
    }

    /// The cache after it was asked at each of `times` in turn.
    pub open spec fn asked_all(self, times: Seq<nat>) -> Self
        decreases times.len(),
    {
        if times.len() == 0 {
            self
        } else {
            self.asked(times[0]).0.asked_all(times.drop_first())
        }
    }

    /// How many fetches are launched when the cache is asked at each of
    /// `times` in turn.
    pub open spec fn launches(self, times: Seq<nat>) -> nat
        decreases times.len(),
    {
        if times.len() == 0 {
            0
        } else {
            let (next, launched) = self.asked(times[0]);
            (if launched {
                1nat
            } else {
                0nat
            }) + next.launches(times.drop_first())
        }
    }
}

impl<T> View for RefreshCache<T> {
    type V = CacheView<T>;

    closed spec fn view(&self) -> CacheView<T> {
        CacheView {
            current: self.current,
            last_fetch_started_at: match self.last_fetch_started_at {
                Some(t) => Some(t as nat),
                None => None,
            },
            ttl: self.ttl as nat,
        }
    }
}

impl<T> RefreshCache<T> {
    /// A cache that holds nothing yet; the first question launches a fetch.
    pub fn new(ttl: u64) -> (cache: Self)
        ensures
            cache@ == (CacheView::<T> { current: None, last_fetch_started_at: None, ttl: ttl as nat }),
    {
        RefreshCache { current: None, last_fetch_started_at: None, ttl }
    }

    /// A cache that holds nothing yet and whose first fetch was launched at
    /// `now`.
    pub fn launched(ttl: u64, now: u64) -> (cache: Self)
        ensures
            cache@ == (CacheView::<T> {
                current: None,
                last_fetch_started_at: Some(now as nat),
                ttl: ttl as nat,
            }),
    {
        RefreshCache { current: None, last_fetch_started_at: Some(now), ttl }
    }

    /// How long a value is served before it is fetched again.
    pub fn ttl(&self) -> (ttl: u64)
        ensures
            ttl == self@.ttl,
    {
        self.ttl
    }

    /// The value that the cache serves.
    pub fn current(&self) -> (value: Option<&T>)
        ensures
            match value {
                Some(v) => self@.current == Some(*v),
                None => self@.current is None,
            },
    {
        self.current.as_ref()
    }

    /// Whether the value is due to be fetched again at `now`.
    pub fn is_expired(&self, now: u64) -> (due: bool)
        ensures
            due == self@.expired(now as nat),
    {
        match self.last_fetch_started_at {
            None => true,
            Some(since) => {
                let age = if now >= since {
                    now - since
                } else {
                    0
                };
                age >= self.ttl
            },
        }
    }

    /// The question of each frame: whether a fetch is to be launched, and
    /// the value served. Where the value is due, the launch is recorded at
    /// `now` and the caller launches the fetch. The value served stays as
    /// it is until `complete`.
    pub fn peek_and_maybe_refresh(&mut self, now: u64) -> (served: (bool, Option<&T>))
        ensures
            (final(self)@, served.0) == old(self)@.asked(now as nat),
            final(self)@.current == old(self)@.current,
            served.0 == old(self)@.expired(now as nat),
            match served.1 {
                Some(v) => old(self)@.current == Some(*v),
                None => old(self)@.current is None,
            },
    {
        let launch = self.is_expired(now);
        if launch {
            self.last_fetch_started_at = Some(now);
        }
        (launch, self.current.as_ref())
    }

    /// Takes in what a fetch came back with. A value replaces the one
    /// served; a failure leaves everything as it was.
    pub fn complete<E>(&mut self, fetched: Result<T, E>)
        ensures
            final(self)@ == old(self)@.completed(fetched),
            fetched is Err ==> final(self)@ == old(self)@,
    {
        match fetched {
            Ok(value) => {
                self.current = Some(value);
            },
            Err(_) => {},
        }
    }

    /// Declares the value out of date: the next question launches a fetch
    /// whatever the time.
    pub fn invalidate(&mut self)
        ensures
            final(self)@ == old(self)@.invalidated(),
            final(self)@.current == old(self)@.current,
            forall|now: nat| final(self)@.expired(now),
    {
        self.last_fetch_started_at = None;
    }

    /// Drops the value and declares the cache out of date, as for a source
    /// that is no longer the one that was fetched from.
    pub fn reset(&mut self)
        ensures
            final(self)@ == (CacheView::<T> {
                current: None,
                last_fetch_started_at: None,
                ttl: old(self)@.ttl,
            }),
    {
        self.current = None;
        self.last_fetch_started_at = None;
    }
}

/// Every time of `times` lies less than the time to live after `since`.
pub open spec fn all_within(times: Seq<nat>, since: nat, ttl: nat) -> bool {
    forall|i: int| 0 <= i < times.len() ==> elapsed(since, #[trigger] times[i]) < ttl
}

/// A cache whose last fetch was launched at `since`, asked any number of
/// times less than the time to live after that, launches no fetch and
/// stays as it is: it serves the same value each time.
pub proof fn lemma_fresh_cache_serves<T>(c: CacheView<T>, since: nat, times: Seq<nat>)
    requires
        c.last_fetch_started_at == Some(since),
        all_within(times, since, c.ttl),
    ensures
        c.launches(times) == 0,
        c.asked_all(times) == c,
        forall|i: int| 0 <= i < times.len() ==> c.asked(#[trigger] times[i]) == (c, false),
    decreases times.len(),
{
    if times.len() > 0 {
        assert(elapsed(since, times[0]) < c.ttl);
        let rest = times.drop_first();
        assert forall|i: int| 0 <= i < rest.len() implies elapsed(since, #[trigger] rest[i])
            < c.ttl by {
            assert(rest[i] == times[i + 1]);
        }
        lemma_fresh_cache_serves(c, since, rest);
    }
}

/// A cache whose value is due at `now`, asked at `now` and then any number
/// of times less than the time to live after `now`, launches exactly one
/// fetch, at `now`, whether or not that fetch has come back in between.
pub proof fn lemma_one_launch_per_expiry<T>(c: CacheView<T>, now: nat, later: Seq<nat>)
    requires
        c.expired(now),
        all_within(later, now, c.ttl),
    ensures
        c.asked(now).1,
        c.launches(seq![now] + later) == 1,
        c.asked_all(seq![now] + later).last_fetch_started_at == Some(now),
        c.asked_all(seq![now] + later).current == c.current,
{
    let times = seq![now] + later;
    assert(times[0] == now);
    assert(times.drop_first() =~= later);
    lemma_fresh_cache_serves(c.asked(now).0, now, later);
}

/// A fetch that comes back, with a value or without, changes nothing in
/// when the next fetch is launched.
pub proof fn lemma_completion_keeps_schedule<T, E>(
    c: CacheView<T>,
    fetched: Result<T, E>,
    now: nat,
)
    ensures
        c.completed(fetched).asked(now).1 == c.asked(now).1,
        c.completed(fetched).last_fetch_started_at == c.last_fetch_started_at,
{
}

/// After `invalidate` the next question launches a fetch, whenever it is
/// asked and whenever the last fetch was launched.
pub proof fn lemma_invalidate_forces_fetch<T>(c: CacheView<T>, now: nat)
    ensures
        c.invalidated().asked(now).1,
        c.invalidated().current == c.current,
{
}

/// A fetch that failed leaves the cache as it was: the value served after
/// it is the value served before it.
pub proof fn lemma_failure_keeps_value<T, E>(c: CacheView<T>, error: E)
    ensures
        c.completed(Err::<T, E>(error)) == c,
{
}

} // verus!
