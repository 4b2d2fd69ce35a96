//! Analysis and serving of time-tagged event streams from a 16-channel
//! time-to-digital converter: channel-mask utilities, singles and coincidence
//! pattern kernels, tag-stream framing, the subscriber registry with its
//! flow-control policy, and the batch-job manager.

pub mod bit;
pub mod cfg;
pub mod dash;
pub mod data;
pub mod flags;
pub mod input;
pub mod jobs;
pub mod pat;
pub mod ser;
pub mod sub;
pub mod wire;

use vstd::prelude::*;

verus! {

/// The basic representation of a tagged event.
#[derive(Clone, Copy, PartialEq, Eq, Structural, Debug, Hash)]
pub struct Tag {
    /// Counter in device time units from an arbitrary offset.
    pub time: i64,
    /// Channel (1-indexed) of the event.
    pub channel: u8,
}

/// All sixteen input channels, in ascending order.
pub const CHAN16: [u8; 16] = [1, 2, 3, 4, 5, 6, 7, 8, 9, 10, 11, 12, 13, 14, 15, 16];

/// One point of two-dimensional data, such as a histogram bin.
#[derive(Clone, Copy, PartialEq, Eq, Structural, Debug)]
pub struct Bin<T, U> {
    pub x: T,
    pub y: U,
}

/// Command-line arguments of the streaming server.
pub struct CliArgs {
    /// Print version information.
    pub version: bool,
    /// Function generator period, in device ticks.
    pub fgperiod: u32,
    /// Function generator high duration, in device ticks.
    pub fghigh: u32,
    /// Calibrate the device on startup.
    pub calibrate: bool,
    /// Run in logic mode rather than tag mode.
    pub logic: bool,
    /// Fixed global window for logic mode.
    pub window: Option<u32>,
    /// Server address.
    pub addr: String,
}

} // verus!
