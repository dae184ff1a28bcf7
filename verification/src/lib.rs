//! Offline processing pipeline for SPIDR/Timepix3 detector readout.
//!
//! Raw 8-byte packets are decoded into pixel hits and trigger records with a
//! reconstructed 48-bit global time of arrival, the hit stream is kept sorted
//! by a bounded streaming sorter, and sorted hits are grouped into
//! spatio-temporally connected clusters.

use vstd::prelude::*;

pub mod codec;
pub mod decoder;
pub mod sorter;
pub mod cluster;
pub mod windower;
pub mod text;
pub mod runs;

verus! {

/// Time over threshold: nanoseconds per raw ADU count.
pub const TOT_ADU_TO_NS: u32 = 25;

/// One detector sample: pixel coordinates, time of arrival in 1.5625 ns
/// ticks, and time over threshold in nanoseconds.
#[derive(Clone, Copy, Debug, PartialEq, Eq, Structural)]
pub struct Hit {
    pub toa: u64,
    pub tot: u32,
    pub col: u16,
    pub row: u16,
}

/// A timing fiducial from the external DAQ: a 1-based trigger index and a
/// nanosecond timestamp in the same clock domain as hit times of arrival.
#[derive(Clone, Copy, Debug, PartialEq, Eq, Structural)]
pub struct Trigger {
    pub event: u32,
    pub time: u64,
}

/// Per-cluster sidecar row. `time` and `duration` are in time-of-arrival
/// ticks (1 tick = 1.5625 ns); the CSV encoder renders them in nanoseconds.
/// `offset` is the byte position of the cluster in the associated binary file.
#[derive(Clone, Copy, Debug, PartialEq, Eq, Structural)]
pub struct ClusterMetadata {
    pub event: usize,
    pub time: u64,
    pub duration: u64,
    pub hits: usize,
    pub sum_tot: u64,
    pub offset: usize,
}

/// Hits are ordered by time of arrival alone.
pub open spec fn hits_sorted(s: Seq<Hit>) -> bool {
    forall|i: int, j: int| 0 <= i <= j < s.len() ==> #[trigger] s[i].toa <= #[trigger] s[j].toa
}

/// Triggers are ordered by timestamp alone.
pub open spec fn triggers_sorted(s: Seq<Trigger>) -> bool {
    forall|i: int, j: int| 0 <= i <= j < s.len() ==> #[trigger] s[i].time <= #[trigger] s[j].time
}

} // verus!
