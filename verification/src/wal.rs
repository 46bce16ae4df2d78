//! Write-ahead-log sync policy.
//!
//! Batches applied to the engine are written without syncing; this
//! controller counts the bytes written since the last WAL sync and decides
//! when the next sync is due. A sync fires when the unsynced bytes reach
//! 512 KiB, when any bytes have waited at least the 100 microsecond sync
//! interval, or when the consensus core marked the current work as
//! `must_sync`. The interval floor amortises sync cost while bounding
//! commit latency; the size ceiling bounds tail latency under heavy load.
//!
//! Wall-clock instants are microsecond counts supplied by the host.

use vstd::prelude::*;

verus! {

/// Sync at latest this many microseconds after unsynced bytes appear.
pub const SYNC_INTERVAL_US: u64 = 100;

/// Sync as soon as at least this many bytes are unsynced (512 KiB).
pub const SYNC_SIZE_THRESHOLD: u64 = 512 * 1024;

/// The WAL sync controller.
pub struct WalControl {
    /// Bytes written to the engine since the last WAL sync, saturating.
    pub unsynced_bytes: u64,
    /// Microsecond instant of the last WAL sync.
    pub last_sync_us: u64,
}

impl WalControl {
    /// When a sync is due: the size ceiling was reached, or bytes have
    /// waited the full interval, or the consensus core demands durability.
    pub open spec fn spec_should_sync(self, now_us: u64, must_sync: bool) -> bool {
        ||| must_sync
        ||| self.unsynced_bytes >= SYNC_SIZE_THRESHOLD
        ||| (self.unsynced_bytes > 0 && now_us >= self.last_sync_us
                && now_us - self.last_sync_us >= SYNC_INTERVAL_US)
    }

    /// A fresh controller with nothing unsynced.
    pub fn new(now_us: u64) -> (r: WalControl)
        ensures
            r.unsynced_bytes == 0,
            r.last_sync_us == now_us,
    {
        WalControl { unsynced_bytes: 0, last_sync_us: now_us }
    }

    /// Records bytes written without sync, saturating at the counter's top;
    /// saturation cannot mask a due sync, the top being far above the size
    /// ceiling.
    pub fn note_written(&mut self, bytes: u64)
        ensures
            final(self).unsynced_bytes == if old(self).unsynced_bytes + bytes <= u64::MAX {
                (old(self).unsynced_bytes + bytes) as u64
            } else {
                u64::MAX
            },
            final(self).last_sync_us == old(self).last_sync_us,
    {
        if u64::MAX - self.unsynced_bytes < bytes {
            self.unsynced_bytes = u64::MAX;
        } else {
            self.unsynced_bytes = self.unsynced_bytes + bytes;
        }
    }

    /// Decides whether a WAL sync is due now.
    pub fn should_sync(&self, now_us: u64, must_sync: bool) -> (r: bool)
        ensures
            r == self.spec_should_sync(now_us, must_sync),
    {
        must_sync || self.unsynced_bytes >= SYNC_SIZE_THRESHOLD
            || (self.unsynced_bytes > 0 && now_us >= self.last_sync_us
                && now_us - self.last_sync_us >= SYNC_INTERVAL_US)
    }

    /// Records that the WAL was synced at `now_us`: the unsynced counter
    /// restarts and the interval clock is reset.
    pub fn on_synced(&mut self, now_us: u64)
        ensures
            final(self).unsynced_bytes == 0,
            final(self).last_sync_us == now_us,
    {
        self.unsynced_bytes = 0;
        self.last_sync_us = now_us;
    }

    /// How long the poll loop may block on the inbound channel: forever
    /// when nothing is pending, else the time left until the next mandatory
    /// sync (zero once the interval has passed, or when the clock reads
    /// before the last sync).
    pub fn suggest_timeout(&self, now_us: u64, has_ready: bool) -> (r: Option<u64>)
        ensures
            match r {
                Some(dur) => {
                    &&& self.unsynced_bytes > 0 || has_ready
                    &&& dur == if now_us >= self.last_sync_us
                            && now_us - self.last_sync_us < SYNC_INTERVAL_US {
                        (SYNC_INTERVAL_US - (now_us - self.last_sync_us)) as u64
                    } else {
                        0u64
                    }
                },
                None => self.unsynced_bytes == 0 && !has_ready,
            },
    {
        if self.unsynced_bytes > 0 || has_ready {
            if now_us >= self.last_sync_us && now_us - self.last_sync_us < SYNC_INTERVAL_US {
                Some(SYNC_INTERVAL_US - (now_us - self.last_sync_us))
            } else {
                Some(0)
            }
        } else {
            None
        }
    }
}

/// The fsync batching floor: below the size ceiling, within the sync
/// interval, and with no durability demand from the consensus core, no sync
/// fires. Back-to-back small writes inside one interval therefore share one
/// sync.
pub proof fn lemma_sync_batching(w: WalControl, now_us: u64)
    requires
        w.unsynced_bytes < SYNC_SIZE_THRESHOLD,
        now_us >= w.last_sync_us,
        now_us - w.last_sync_us < SYNC_INTERVAL_US,
    ensures
        !w.spec_should_sync(now_us, false),
{
}

} // verus!
