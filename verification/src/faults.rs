//! The write-path fault switchboard of one node's disk: when its sites are
//! live, and how often each fires.
use crate::draws::knob;
use vstd::prelude::*;

verus! {

/// Percentage of writes that return an I/O error by default.
pub const PCT_WRITE_EIO: u64 = 1;

/// Percentage of batch syncs that fail by default.
pub const PCT_FSYNC_FAIL: u64 = 1;

/// Percentage of tearable syncs whose tail is torn outright by default.
pub const PCT_FORCE_TORN_TAIL: u64 = 5;

/// Percentage of lost syncs that land as a torn prefix by default.
pub const PCT_TORN_TAIL: u64 = 75;

/// One disk's write-path fault rates, as integer percentages. Drawn once per
/// node per seed, never per boot: a disk keeps its failure profile across
/// every incarnation.
#[derive(Clone, Copy, Debug, PartialEq, Eq, Structural)]
pub struct WritePathRates {
    pub write_eio: u64,
    pub fsync_fail: u64,
    pub force_torn_tail: u64,
    pub torn_tail: u64,
    /// How often a write's effect landed despite its error.
    pub eio_persisted: u64,
    /// The same for a failed sync.
    pub fsync_persisted: u64,
    /// How often the last torn record's bytes are damaged too.
    pub torn_entry_faulty: u64,
}

/// `value` is the default or lies in the knob's range.
pub open spec fn knob_value(value: u64, default: u64, low: u64, high: u64) -> bool {
    value == default || low <= value < high
}

impl WritePathRates {
    pub open spec fn standard() -> WritePathRates {
        WritePathRates {
            write_eio: PCT_WRITE_EIO,
            fsync_fail: PCT_FSYNC_FAIL,
            force_torn_tail: PCT_FORCE_TORN_TAIL,
            torn_tail: PCT_TORN_TAIL,
            eio_persisted: 50,
            fsync_persisted: 50,
            torn_entry_faulty: 50,
        }
    }

    /// Every rate is its default or inside its knob's range.
    pub open spec fn in_range(self) -> bool {
        &&& knob_value(self.write_eio, PCT_WRITE_EIO, 2, 9)
        &&& knob_value(self.fsync_fail, PCT_FSYNC_FAIL, 2, 9)
        &&& knob_value(self.force_torn_tail, PCT_FORCE_TORN_TAIL, 10, 41)
        &&& knob_value(self.torn_tail, PCT_TORN_TAIL, 25, 101)
        &&& knob_value(self.eio_persisted, 50, 10, 91)
        &&& knob_value(self.fsync_persisted, 50, 10, 91)
        &&& knob_value(self.torn_entry_faulty, 50, 10, 91)
    }

    /// The documented defaults.
    pub fn defaults() -> (rates: WritePathRates)
        ensures
            rates == WritePathRates::standard(),
            rates.in_range(),
    {
        WritePathRates {
            write_eio: PCT_WRITE_EIO,
            fsync_fail: PCT_FSYNC_FAIL,
            force_torn_tail: PCT_FORCE_TORN_TAIL,
            torn_tail: PCT_TORN_TAIL,
            eio_persisted: 50,
            fsync_persisted: 50,
            torn_entry_faulty: 50,
        }
    }

    /// Draw one disk's rates: seven independent knobs.
    pub fn draw() -> (rates: WritePathRates)
        ensures
            rates.in_range(),
    {
        WritePathRates {
            write_eio: knob(PCT_WRITE_EIO, 2, 9, "write-path: write error rate"),
            fsync_fail: knob(PCT_FSYNC_FAIL, 2, 9, "write-path: sync failure rate"),
            force_torn_tail: knob(
                PCT_FORCE_TORN_TAIL,
                10,
                41,
                "write-path: forced torn tail rate",
            ),
            torn_tail: knob(PCT_TORN_TAIL, 25, 101, "write-path: torn tail rate"),
            eio_persisted: knob(50, 10, 91, "write-path: write error persisted rate"),
            fsync_persisted: knob(50, 10, 91, "write-path: sync failure persisted rate"),
            torn_entry_faulty: knob(50, 10, 91, "write-path: torn entry damaged rate"),
        }
    }

    /// Whether the disk fails writes or syncs off the default rate.
    pub fn dense_failures(self) -> (dense: bool)
        ensures
            dense == (self.write_eio != PCT_WRITE_EIO || self.fsync_fail != PCT_FSYNC_FAIL),
    {
        self.write_eio != PCT_WRITE_EIO || self.fsync_fail != PCT_FSYNC_FAIL
    }

    /// Whether the disk tears tails off the default rate.
    pub fn shaped_tails(self) -> (shaped: bool)
        ensures
            shaped == (self.force_torn_tail != PCT_FORCE_TORN_TAIL || self.torn_tail
                != PCT_TORN_TAIL),
    {
        self.force_torn_tail != PCT_FORCE_TORN_TAIL || self.torn_tail != PCT_TORN_TAIL
    }
}

/// When a disk's fault sites are live: only in a node that rolls faults at
/// all, and only inside the chaos window.
#[derive(Clone, Copy, Debug, PartialEq, Eq, Structural)]
pub struct StorageFaults {
    pub enabled: bool,
    /// The end of the chaos window, in nanoseconds of simulated time.
    pub cutoff_ns: u64,
    pub rates: WritePathRates,
}

impl StorageFaults {
    pub open spec fn live(self, now_ns: u64) -> bool {
        self.enabled && now_ns < self.cutoff_ns
    }

    pub fn new(cutoff_ns: u64, enabled: bool, rates: WritePathRates) -> (faults: StorageFaults)
        ensures
            faults == (StorageFaults { enabled, cutoff_ns, rates }),
    {
        StorageFaults { enabled, cutoff_ns, rates }
    }

    pub fn active(self, now_ns: u64) -> (active: bool)
        ensures
            active == self.live(now_ns),
    {
        self.enabled && now_ns < self.cutoff_ns
    }
}

} // verus!
