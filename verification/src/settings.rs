//! Settings that are read at startup and hold for all databases.
use vstd::prelude::*;

verus! {

/// The settings.
pub struct Settings {
    /// How often buffered log entries are flushed, in milliseconds. With zero every
    /// write is flushed before it is acknowledged.
    pub wal_sync_interval_ms: u64,
    /// Whether a flush forces the data onto the device.
    pub fsync_on_wal_flush: bool,
    /// After how many seconds without use a loaded path is given up.
    pub eviction_idle_secs: u64,
}

impl Default for Settings {
    /// A flush every two seconds, to the page cache, and five minutes of idleness.
    fn default() -> (r: Settings)
        ensures
            r.wal_sync_interval_ms == 2000,
            !r.fsync_on_wal_flush,
            r.eviction_idle_secs == 300,
    {
        Settings {
            wal_sync_interval_ms: 2000,
            fsync_on_wal_flush: false,
            eviction_idle_secs: 300,
        }
    }
}

/// Sets how often the log is flushed.
pub fn set_wal_sync_interval_ms(settings: &mut Settings, ms: u64)
    ensures
        *final(settings) == (Settings { wal_sync_interval_ms: ms, ..*old(settings) }),
{
    settings.wal_sync_interval_ms = ms;
}

/// How often the log is flushed.
pub fn wal_sync_interval_ms(settings: &Settings) -> (r: u64)
    ensures
        r == settings.wal_sync_interval_ms,
{
    settings.wal_sync_interval_ms
}

/// Sets whether a flush forces the data onto the device.
pub fn set_fsync_on_wal_flush(settings: &mut Settings, enabled: bool)
    ensures
        *final(settings) == (Settings { fsync_on_wal_flush: enabled, ..*old(settings) }),
{
    settings.fsync_on_wal_flush = enabled;
}

/// Whether a flush forces the data onto the device.
pub fn fsync_on_wal_flush(settings: &Settings) -> (r: bool)
    ensures
        r == settings.fsync_on_wal_flush,
{
    settings.fsync_on_wal_flush
}

/// Sets after how many seconds without use a loaded path is given up.
pub fn set_eviction_idle_secs(settings: &mut Settings, secs: u64)
    ensures
        *final(settings) == (Settings { eviction_idle_secs: secs, ..*old(settings) }),
{
    settings.eviction_idle_secs = secs;
}

/// Whether every write is to be flushed before it is acknowledged.
pub fn flushes_before_ack(settings: &Settings) -> (r: bool)
    ensures
        r == (settings.wal_sync_interval_ms == 0),
{
    settings.wal_sync_interval_ms == 0
}

} // verus!
