//! Tracks when a connection last heard from and sent to its remote host.
//!
//! Times are milliseconds on a clock of the caller's choosing; a duration is
//! a difference of two such times.
use vstd::prelude::*;

verus! {

/// The later of two times.
pub open spec fn latest(a: u64, b: u64) -> u64 {
    if a >= b {
        a
    } else {
        b
    }
}

/// How long after `since` the time `now` is, zero where it is earlier.
pub open spec fn elapsed(now: u64, since: u64) -> u64 {
    if now >= since {
        (now - since) as u64
    } else {
        0
    }
}

/// Whether a connection last active at `heard` and `sent` is still active at
/// `time` under the given idle timeout.
pub open spec fn spec_is_active(heard: u64, sent: u64, idle_timeout: u64, time: u64) -> bool {
    elapsed(time, latest(heard, sent)) < idle_timeout
}

#[derive(Debug)]
pub struct ActivitySystem {
    last_heard: u64,
    last_sent: u64,
    idle_timeout: u64,
}

impl ActivitySystem {
    /// When the remote host was last heard from.
    pub closed spec fn last_heard(&self) -> u64 {
        self.last_heard
    }

    /// When a packet was last sent to the remote host.
    pub closed spec fn last_sent(&self) -> u64 {
        self.last_sent
    }

    /// How long the connection may stay silent in both directions.
    pub closed spec fn idle_timeout(&self) -> u64 {
        self.idle_timeout
    }

    /// A connection that was active in both directions at `time`.
    pub fn new(idle_timeout: u64, time: u64) -> (r: Self)
        ensures
            r.last_heard() == time,
            r.last_sent() == time,
            r.idle_timeout() == idle_timeout,
    {
        Self { last_heard: time, last_sent: time, idle_timeout }
    }

    /// Records that the remote host was heard from at `time`.
    pub fn received(&mut self, time: u64)
        ensures
            final(self).last_heard() == time,
            final(self).last_sent() == old(self).last_sent(),
            final(self).idle_timeout() == old(self).idle_timeout(),
    {
        self.last_heard = time;
    }

    /// Records that a packet was sent at `time`.
    pub fn sent(&mut self, time: u64)
        ensures
            final(self).last_sent() == time,
            final(self).last_heard() == old(self).last_heard(),
            final(self).idle_timeout() == old(self).idle_timeout(),
    {
        self.last_sent = time;
    }

    /// Whether less than the idle timeout has passed at `time` since the
    /// later of the last receipt and the last send.
    pub fn is_active(&self, time: u64) -> (r: bool)
        ensures
            r == spec_is_active(self.last_heard(), self.last_sent(), self.idle_timeout(), time),
    {
        let last = if self.last_heard >= self.last_sent {
            self.last_heard
        } else {
            self.last_sent
        };
        let since = if time >= last {
            time - last
        } else {
            0
        };
        since < self.idle_timeout
    }
}

/// Activity in either direction keeps a connection alive: right after a
/// receipt or a send at `time`, a connection with a nonzero idle timeout is
/// active at `time`.
pub proof fn lemma_activity_refreshes(heard: u64, sent: u64, idle_timeout: u64, time: u64)
    requires
        idle_timeout > 0,
    ensures
        spec_is_active(time, sent, idle_timeout, time),
        spec_is_active(heard, time, idle_timeout, time),
{
}

} // verus!
