//! Configuration types: the document format for declaring and recording
//! data runs.
//!
//! A run document names what to record — a limit, patterns to count, channel
//! settings — and doubles as the record of a finished run when the measured
//! counts and duration are filled in. Thresholds are carried in microvolts
//! and durations in whole seconds plus nanoseconds, so the document holds
//! plain values throughout.

use vstd::prelude::*;

verus! {

/// Experiment run specification for both declaring and recording runs.
#[derive(Clone, PartialEq, Debug)]
pub struct Run {
    /// Free space for the user to describe the run.
    pub description: String,
    /// Version of the program when data is acquired.
    pub version: String,
    /// Timestamp at the beginning of the data run, in seconds from the
    /// UNIX epoch.
    pub timestamp: Option<i64>,
    /// How long a data run should record for.
    pub limit: Option<RunLimit>,
    /// Whether to save patterns.
    pub save_counts: Option<bool>,
    /// Whether to save tags.
    pub save_tags: Option<SaveTags>,
    /// Subset of tags to subscribe to.
    pub tagmask: Option<u16>,
    /// Exact duration of the data acquisition, in device ticks.
    pub duration: Option<u64>,
    /// Singles channels to subscribe to or which have been measured.
    pub singles: Vec<Single>,
    /// Coincidence patterns to subscribe to or which have been measured.
    pub coincidences: Vec<Coincidence>,
    /// Input channel settings; the device is stateful, so only the channels
    /// named here are touched.
    pub channel_settings: Vec<ChannelSettings>,
}

/// Either a fixed time limit or a limit on some number of a pattern.
#[derive(Clone, Copy, PartialEq, Eq, Structural, Debug)]
pub enum RunLimit {
    /// Time duration: whole seconds and leftover nanoseconds.
    Duration(u64, u32),
    /// A total number of counts in some channel.
    SinglesLimit(u8, u64),
    /// A total number of coincidences between two channels.
    CoincidenceLimit(u8, u8, u32, u64),
}

/// Whether, and into which file, raw tags are saved.
#[derive(Clone, PartialEq, Debug)]
pub enum SaveTags {
    /// Declaration of whether tags should be saved.
    Save(bool),
    /// If tags were saved, the file the raw tags went to.
    TagFile(String),
}

/// Specify a channel, or a channel with its measured counts.
#[derive(Clone, Copy, PartialEq, Eq, Structural, Debug)]
pub enum Single {
    /// Single channel counts to subscribe to.
    Channel(u8),
    /// Number of events counted during the run.
    ChannelCounts(u8, u64),
}

/// Specify two channels, with an optional window and measured counts.
#[derive(Clone, Copy, PartialEq, Eq, Structural, Debug)]
pub enum Coincidence {
    /// Coincidence counts to subscribe to, at the server's window.
    Channels(u8, u8),
    /// Coincidence counts to subscribe to, with a requested window.
    ChannelsWin(u8, u8, u32),
    /// Number of coincidences counted during the run, with the window used.
    ChannelsCounts(u8, u8, u32, u64),
}

/// All device-controlled settings for a given channel. The threshold is in
/// microvolts.
#[derive(Clone, Copy, PartialEq, Eq, Structural, Debug)]
pub struct ChannelSettings {
    /// Channel, 1-indexed.
    pub channel: u8,
    /// Catch falling-edge events instead of rising-edge ones.
    pub invert: Option<bool>,
    /// Delay the input by this many device ticks.
    pub delay: Option<u32>,
    /// Voltage threshold for an event, in microvolts.
    pub threshold: Option<i32>,
}

impl Default for Run {
    /// An empty run declaration.
    fn default() -> (r: Run)
        ensures
            r.description@ == Seq::<char>::empty(),
            r.version@ == Seq::<char>::empty(),
            r.timestamp is None,
            r.limit is None,
            r.save_counts is None,
            r.save_tags is None,
            r.tagmask is None,
            r.duration is None,
            r.singles@ == Seq::<Single>::empty(),
            r.coincidences@ == Seq::<Coincidence>::empty(),
            r.channel_settings@ == Seq::<ChannelSettings>::empty(),
    {
        Run {
            description: String::new(),
            version: String::new(),
            timestamp: None,
            limit: None,
            save_counts: None,
            save_tags: None,
            tagmask: None,
            duration: None,
            singles: Vec::new(),
            coincidences: Vec::new(),
            channel_settings: Vec::new(),
        }
    }
}

/// The tagmask a run subscribes with: the declared one, or the union of the
/// channels its singles name.
pub fn run_tagmask(r: &Run) -> (m: u16)
    requires
        forall|i: int|
            0 <= i < r.singles@.len() ==> (match #[trigger] r.singles@[i] {
                Single::Channel(ch) => 1 <= ch <= 16,
                Single::ChannelCounts(ch, _) => 1 <= ch <= 16,
            }),
    ensures
        r.tagmask matches Option::Some(t) ==> m == t,
        r.tagmask is None ==> m == crate::bit::chans_mask(
            r.singles@.map_values(
                |s: Single|
                    match s {
                        Single::Channel(ch) => ch,
                        Single::ChannelCounts(ch, _) => ch,
                    },
            ),
        ),
{
    match r.tagmask {
        Some(t) => t,
        None => {
            let ghost chans = r.singles@.map_values(
                |s: Single|
                    match s {
                        Single::Channel(ch) => ch,
                        Single::ChannelCounts(ch, _) => ch,
                    },
            );
            let mut m: u16 = 0;
            let mut i: usize = 0;
            while i < r.singles.len()
                invariant
                    0 <= i <= r.singles@.len(),
                    chans == r.singles@.map_values(
                        |s: Single|
                            match s {
                                Single::Channel(ch) => ch,
                                Single::ChannelCounts(ch, _) => ch,
                            },
                    ),
                    forall|t: int| 0 <= t < chans.len() ==> 1 <= #[trigger] chans[t] <= 16,
                    m == crate::bit::chans_mask(chans.take(i as int)),
                decreases r.singles@.len() - i,
            {
                let ch = match r.singles[i] {
                    Single::Channel(ch) => ch,
                    Single::ChannelCounts(ch, _) => ch,
                };
                proof {
                    assert(chans.take(i + 1).drop_last() =~= chans.take(i as int));
                    assert(chans.take(i + 1).last() == chans[i as int]);
                    assert(ch == chans[i as int]);
                }
                m = m | (1u16 << ((ch - 1) as u16));
                i = i + 1;
            }
            proof {
                assert(chans.take(chans.len() as int) =~= chans);
            }
            m
        },
    }
}

} // verus!
