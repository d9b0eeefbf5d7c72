//! Per-remote-node state: connection status, contact times, failure counter.
use vstd::prelude::*;
use crate::clock::{elapsed, elapsed_millis, unix_time_millis};
use crate::types::{PeerInfo, PeerInfoView};

verus! {

/// Connection status of a peer.
#[derive(Debug, Clone, Copy, PartialEq, Eq, Structural)]
pub enum PeerStatus {
    /// Not connected.
    Disconnected,
    /// A connection is being set up.
    Connecting,
    /// Connected.
    Connected,
    /// Not known.
    Unknown,
}

/// Abstract value of a [`Peer`]; times are milliseconds since the Unix epoch.
pub struct PeerView {
    pub info: PeerInfoView,
    pub status: PeerStatus,
    pub first_seen: u64,
    pub last_seen: u64,
    pub failed_attempts: u32,
}

/// The state the node keeps for one remote participant.
pub struct Peer {
    info: PeerInfo,
    status: PeerStatus,
    last_seen: u64,
    first_seen: u64,
    failed_attempts: u32,
}

impl View for Peer {
    type V = PeerView;

    closed spec fn view(&self) -> PeerView {
        PeerView {
            info: self.info@,
            status: self.status,
            first_seen: self.first_seen,
            last_seen: self.last_seen,
            failed_attempts: self.failed_attempts,
        }
    }
}

/// The state after a status change: `Connected` clears the failure counter.
pub open spec fn with_status(v: PeerView, status: PeerStatus) -> PeerView {
    PeerView {
        status,
        failed_attempts: if status == PeerStatus::Connected {
            0
        } else {
            v.failed_attempts
        },
        ..v
    }
}

/// The state after one more failed attempt.
pub open spec fn with_failure(v: PeerView) -> PeerView {
    PeerView { failed_attempts: (v.failed_attempts + 1) as u32, ..v }
}

/// The state after `n` more failed attempts.
pub open spec fn with_failures(v: PeerView, n: nat) -> PeerView
    decreases n,
{
    if n == 0 {
        v
    } else {
        with_failure(with_failures(v, (n - 1) as nat))
    }
}

/// Whether a peer last seen at `last_seen` counts as stale at `now`.
pub open spec fn stale(last_seen: u64, timeout_ms: u64, now: u64) -> bool {
    elapsed(last_seen, now) > timeout_ms
}

impl Peer {
    /// A peer first seen now, disconnected, with no failed attempts.
    pub fn new(info: PeerInfo) -> (r: Peer)
        ensures
            r@.info == info@,
            r@.status == PeerStatus::Disconnected,
            r@.failed_attempts == 0,
            r@.first_seen == r@.last_seen,
    {
        let now = unix_time_millis();
        Self::new_at(info, now)
    }

    /// A peer first seen at `now`, disconnected, with no failed attempts.
    pub fn new_at(info: PeerInfo, now: u64) -> (r: Peer)
        ensures
            r@ == (PeerView {
                info: info@,
                status: PeerStatus::Disconnected,
                first_seen: now,
                last_seen: now,
                failed_attempts: 0,
            }),
    {
        Peer {
            info,
            status: PeerStatus::Disconnected,
            last_seen: now,
            first_seen: now,
            failed_attempts: 0,
        }
    }

    /// The peer's metadata.
    pub fn info(&self) -> (r: &PeerInfo)
        ensures
            r@ == self@.info,
    {
        &self.info
    }

    /// The current status.
    pub fn status(&self) -> (r: PeerStatus)
        ensures
            r == self@.status,
    {
        self.status
    }

    /// Sets the status; `Connected` also resets the failure counter.
    pub fn set_status(&mut self, status: PeerStatus)
        ensures
            final(self)@ == with_status(old(self)@, status),
    {
        self.status = status;
        if status == PeerStatus::Connected {
            self.failed_attempts = 0;
        }
    }

    /// Records a contact now.
    pub fn update_last_seen(&mut self)
        ensures
            final(self)@.info == old(self)@.info,
            final(self)@.status == old(self)@.status,
            final(self)@.first_seen == old(self)@.first_seen,
            final(self)@.failed_attempts == old(self)@.failed_attempts,
    {
        let now = unix_time_millis();
        self.update_last_seen_at(now);
    }

    /// Records a contact at `now`.
    pub fn update_last_seen_at(&mut self, now: u64)
        ensures
            final(self)@ == (PeerView { last_seen: now, ..old(self)@ }),
    {
        self.last_seen = now;
    }

    /// Milliseconds since the last contact, by the clock read now.
    pub fn time_since_last_seen(&self) -> (r: u64)
        ensures
            exists|now: u64| r == elapsed(self@.last_seen, now),
    {
        let now = unix_time_millis();
        self.time_since_last_seen_at(now)
    }

    /// Milliseconds from the last contact to `now`, zero if `now` is earlier.
    pub fn time_since_last_seen_at(&self, now: u64) -> (r: u64)
        ensures
            r == elapsed(self@.last_seen, now),
    {
        elapsed_millis(self.last_seen, now)
    }

    /// Counts one more failed connection attempt.
    pub fn increment_failed_attempts(&mut self)
        requires
            old(self)@.failed_attempts < u32::MAX,
        ensures
            final(self)@ == with_failure(old(self)@),
    {
        self.failed_attempts = self.failed_attempts + 1;
    }

    /// The number of failed attempts since the last connection.
    pub fn failed_attempts(&self) -> (r: u32)
        ensures
            r == self@.failed_attempts,
    {
        self.failed_attempts
    }

    /// Whether more than `timeout_ms` milliseconds have passed since the
    /// last contact, by the clock read now.
    pub fn is_stale(&self, timeout_ms: u64) -> (r: bool)
        ensures
            exists|now: u64| r == stale(self@.last_seen, timeout_ms, now),
    {
        let now = unix_time_millis();
        self.is_stale_at(timeout_ms, now)
    }

    /// Whether more than `timeout_ms` milliseconds lie between the last
    /// contact and `now`.
    pub fn is_stale_at(&self, timeout_ms: u64, now: u64) -> (r: bool)
        ensures
            r == stale(self@.last_seen, timeout_ms, now),
    {
        self.time_since_last_seen_at(now) > timeout_ms
    }
}

/// Becoming connected clears the failure counter, however many failed
/// attempts were counted before.
pub proof fn connected_clears_failures(v: PeerView, n: nat)
    ensures
        with_status(with_failures(v, n), PeerStatus::Connected).failed_attempts == 0,
        with_status(with_failures(v, n), PeerStatus::Connected).status == PeerStatus::Connected,
{
}

} // verus!
