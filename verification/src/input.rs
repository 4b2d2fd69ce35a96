//! The server's authoritative input state and the setting events it forwards
//! to the acquisition controller: per-channel inversion, delay and threshold,
//! and the global coincidence window of logic mode.

use crate::data::WIN_DEFAULT;
use vstd::prelude::*;

verus! {

/// Acquisition mode, chosen at startup.
#[derive(Clone, Copy, PartialEq, Eq, Structural, Debug)]
pub enum Mode {
    Timetag,
    Logic,
}

/// A setting event forwarded to the acquisition controller.
#[derive(Clone, Copy, PartialEq, Eq, Structural, Debug)]
pub enum InputSetting {
    /// Rising-edge inversion mask over all sixteen channels.
    InversionMask(u16),
    /// Input delay of one channel, in device ticks.
    Delay(u8, u32),
    /// Event threshold of one channel, in microvolts.
    Threshold(u8, i32),
    /// Global coincidence window, in device ticks.
    Window(u32),
}

/// A request to change one input, as it arrives over the wire.
#[derive(Clone, Copy, PartialEq, Eq, Structural, Debug)]
pub enum InputRequest {
    Inversion(u8, bool),
    Delay(u8, u32),
    Threshold(u8, i32),
}

/// Thresholds are clamped to minus four volts, in microvolts.
pub const THRESHOLD_MIN_UV: i32 = -4_000_000;

/// Thresholds are clamped to four volts, in microvolts.
pub const THRESHOLD_MAX_UV: i32 = 4_000_000;

/// Default threshold of two volts, in microvolts.
pub const THRESHOLD_DEFAULT_UV: i32 = 2_000_000;

/// The authoritative copy of the input settings, reflecting the last write.
pub struct InputState {
    /// Bit `ch - 1` set means channel `ch` triggers on the falling edge.
    pub invmask: u16,
    /// Input delay per channel, in device ticks; sixteen entries.
    pub delays: Vec<u32>,
    /// Event threshold per channel, in microvolts; sixteen entries.
    pub thresholds: Vec<i32>,
    /// Global coincidence window; present exactly in logic mode.
    pub global_window: Option<u32>,
}

/// Sixteen channels' worth of delays and thresholds.
pub open spec fn input_wf(s: InputState) -> bool {
    s.delays@.len() == 16 && s.thresholds@.len() == 16
}

/// A threshold clamped to the accepted voltage range.
pub open spec fn clamp_threshold(th: i32) -> i32 {
    if th < THRESHOLD_MIN_UV {
        THRESHOLD_MIN_UV
    } else if th > THRESHOLD_MAX_UV {
        THRESHOLD_MAX_UV
    } else {
        th
    }
}

impl InputState {
    /// Initial input state: no inversion, no delays, two-volt thresholds,
    /// and in logic mode a global window — the pinned one, or the default.
    pub fn new(logic: bool, pinned: Option<u32>) -> (s: InputState)
        ensures
            input_wf(s),
            s.invmask == 0,
            forall|i: int| 0 <= i < 16 ==> s.delays@[i] == 0,
            forall|i: int| 0 <= i < 16 ==> s.thresholds@[i] == THRESHOLD_DEFAULT_UV,
            s.global_window == (if logic {
                Option::Some(
                    match pinned {
                        Option::Some(w) => w,
                        Option::None => WIN_DEFAULT,
                    },
                )
            } else {
                Option::<u32>::None
            }),
    {
        let delays: Vec<u32> = vec![0u32; 16];
        let thresholds: Vec<i32> = vec![THRESHOLD_DEFAULT_UV; 16];
        let global_window = if logic {
            match pinned {
                Some(w) => Some(w),
                None => Some(WIN_DEFAULT),
            }
        } else {
            None
        };
        InputState { invmask: 0, delays, thresholds, global_window }
    }

    /// Apply one input request. A request for a channel outside `1..=16` is
    /// ignored; an applied request yields the setting event to forward to
    /// the controller, with the threshold clamped to the accepted range.
    pub fn set_input(&mut self, r: InputRequest) -> (ev: Option<InputSetting>)
        requires
            input_wf(*old(self)),
        ensures
            input_wf(*final(self)),
            final(self).global_window == old(self).global_window,
            match r {
                InputRequest::Inversion(ch, inv) => {
                    if 1 <= ch <= 16 {
                        &&& final(self).invmask == (if inv {
                            old(self).invmask | (1u16 << ((ch - 1) as u16))
                        } else {
                            old(self).invmask & !(1u16 << ((ch - 1) as u16))
                        })
                        &&& final(self).delays == old(self).delays
                        &&& final(self).thresholds == old(self).thresholds
                        &&& ev == Option::Some(InputSetting::InversionMask(final(self).invmask))
                    } else {
                        *final(self) == *old(self) && ev is None
                    }
                },
                InputRequest::Delay(ch, del) => {
                    if 1 <= ch <= 16 {
                        &&& final(self).invmask == old(self).invmask
                        &&& final(self).delays@ == old(self).delays@.update((ch - 1) as int, del)
                        &&& final(self).thresholds == old(self).thresholds
                        &&& ev == Option::Some(InputSetting::Delay(ch, del))
                    } else {
                        *final(self) == *old(self) && ev is None
                    }
                },
                InputRequest::Threshold(ch, th) => {
                    if 1 <= ch <= 16 {
                        &&& final(self).invmask == old(self).invmask
                        &&& final(self).delays == old(self).delays
                        &&& final(self).thresholds@ == old(self).thresholds@.update(
                            (ch - 1) as int,
                            clamp_threshold(th),
                        )
                        &&& ev == Option::Some(InputSetting::Threshold(ch, clamp_threshold(th)))
                    } else {
                        *final(self) == *old(self) && ev is None
                    }
                },
            },
    {
        match r {
            InputRequest::Inversion(ch, inv) => {
                if 1 <= ch && ch <= 16 {
                    let b = (ch - 1) as u16;
                    if inv {
                        self.invmask = self.invmask | (1u16 << b);
                    } else {
                        self.invmask = self.invmask & !(1u16 << b);
                    }
                    Some(InputSetting::InversionMask(self.invmask))
                } else {
                    None
                }
            },
            InputRequest::Delay(ch, del) => {
                if 1 <= ch && ch <= 16 {
                    self.delays[(ch - 1) as usize] = del;
                    Some(InputSetting::Delay(ch, del))
                } else {
                    None
                }
            },
            InputRequest::Threshold(ch, th) => {
                if 1 <= ch && ch <= 16 {
                    let clamped = if th < THRESHOLD_MIN_UV {
                        THRESHOLD_MIN_UV
                    } else if th > THRESHOLD_MAX_UV {
                        THRESHOLD_MAX_UV
                    } else {
                        th
                    };
                    self.thresholds[(ch - 1) as usize] = clamped;
                    Some(InputSetting::Threshold(ch, clamped))
                } else {
                    None
                }
            },
        }
    }

    /// Read the authoritative state: inversion mask, delays, thresholds.
    pub fn get_inputs(&self) -> (r: (u16, Vec<u32>, Vec<i32>))
        requires
            input_wf(*self),
        ensures
            r.0 == self.invmask,
            r.1@ == self.delays@,
            r.2@ == self.thresholds@,
    {
        let mut delays: Vec<u32> = Vec::new();
        let mut i: usize = 0;
        while i < self.delays.len()
            invariant
                0 <= i <= self.delays@.len(),
                delays@ =~= self.delays@.take(i as int),
            decreases self.delays@.len() - i,
        {
            delays.push(self.delays[i]);
            i = i + 1;
        }
        let mut thresholds: Vec<i32> = Vec::new();
        let mut j: usize = 0;
        while j < self.thresholds.len()
            invariant
                0 <= j <= self.thresholds@.len(),
                thresholds@ =~= self.thresholds@.take(j as int),
            decreases self.thresholds@.len() - j,
        {
            thresholds.push(self.thresholds[j]);
            j = j + 1;
        }
        proof {
            assert(self.delays@.take(self.delays@.len() as int) =~= self.delays@);
            assert(self.thresholds@.take(self.thresholds@.len() as int) =~= self.thresholds@);
        }
        (self.invmask, delays, thresholds)
    }

    /// Set the global window and return the event to forward.
    pub fn set_window(&mut self, w: u32) -> (ev: InputSetting)
        ensures
            final(self).global_window == Option::Some(w),
            final(self).invmask == old(self).invmask,
            final(self).delays == old(self).delays,
            final(self).thresholds == old(self).thresholds,
            ev == InputSetting::Window(w),
    {
        self.global_window = Some(w);
        InputSetting::Window(w)
    }

    /// Read the global window; zero means none is active.
    pub fn get_window(&self) -> (w: u32)
        ensures
            w == (match self.global_window {
                Option::Some(x) => x,
                Option::None => 0u32,
            }),
    {
        match self.global_window {
            Some(x) => x,
            None => 0,
        }
    }
}

/// What the controller does with a setting event: window changes are ignored
/// in tag mode, and in logic mode when the command line pinned a fixed
/// window; every other setting is applied to the device.
pub fn setting_action(mode: Mode, pinned: Option<u32>, s: InputSetting) -> (r: Option<InputSetting>)
    ensures
        r == (match s {
            InputSetting::Window(_) => {
                if mode is Logic && pinned is None {
                    Option::Some(s)
                } else {
                    Option::<InputSetting>::None
                }
            },
            _ => Option::Some(s),
        }),
{
    match s {
        InputSetting::Window(_) => {
            match (mode, pinned) {
                (Mode::Logic, None) => Some(s),
                _ => None,
            }
        },
        _ => Some(s),
    }
}

/// The first nonzero window in a windowed subscription list.
pub open spec fn first_nonzero_win(entries: Seq<(u16, u32)>) -> Option<u32>
    decreases entries.len(),
{
    if entries.len() == 0 {
        Option::None
    } else if entries[0].1 != 0 {
        Option::Some(entries[0].1)
    } else {
        first_nonzero_win(entries.drop_first())
    }
}

/// How one windowed subscription entry resolves: in logic mode, or when the
/// command line pinned a window, patterns carry no window of their own; in
/// tag mode each pattern keeps the nonzero window it asked for.
pub open spec fn resolve_entry(e: (u16, u32), logic: bool, pinned: Option<u32>) -> (
    u16,
    Option<u32>,
) {
    if e.1 == 0 {
        (e.0, Option::None)
    } else if pinned is Some {
        (e.0, Option::None)
    } else if logic {
        (e.0, Option::None)
    } else {
        (e.0, Option::Some(e.1))
    }
}

/// Resolve a windowed subscription list against the server's mode: returns
/// the pattern list to register and the global window after the call. In
/// logic mode with no pinned window, the first nonzero requested window is
/// adopted as the new global window.
pub fn resolve_patmasks(entries: &Vec<(u16, u32)>, logic: bool, pinned: Option<u32>, global: Option<
    u32,
>) -> (r: (Vec<(u16, Option<u32>)>, Option<u32>))
    ensures
        r.0@.len() == entries@.len(),
        forall|i: int|
            0 <= i < entries@.len() ==> r.0@[i] == resolve_entry(
                #[trigger] entries@[i],
                logic,
                pinned,
            ),
        r.1 == (if logic && pinned is None && first_nonzero_win(entries@) is Some {
            first_nonzero_win(entries@)
        } else {
            global
        }),
{
    let mut out: Vec<(u16, Option<u32>)> = Vec::new();
    let mut adopted: Option<u32> = None;
    let mut i: usize = 0;
    while i < entries.len()
        invariant
            0 <= i <= entries@.len(),
            out@.len() == i,
            forall|t: int|
                0 <= t < i ==> out@[t] == resolve_entry(#[trigger] entries@[t], logic, pinned),
            adopted == first_nonzero_win(entries@.take(i as int)),
        decreases entries@.len() - i,
    {
        let (pm, w) = entries[i];
        proof {
            lemma_first_nonzero_push(entries@.take(i as int), entries@[i as int]);
            assert(entries@.take(i + 1) =~= entries@.take(i as int).push(entries@[i as int]));
        }
        if w == 0 {
            out.push((pm, None));
        } else if pinned.is_some() {
            out.push((pm, None));
        } else if logic {
            out.push((pm, None));
            if adopted.is_none() {
                adopted = Some(w);
            }
        } else {
            out.push((pm, Some(w)));
        }
        if adopted.is_none() && w != 0 {
            adopted = Some(w);
        }
        i = i + 1;
    }
    proof {
        assert(entries@.take(entries@.len() as int) =~= entries@);
    }
    let new_global = if logic && pinned.is_none() {
        match adopted {
            Some(w) => Some(w),
            None => global,
        }
    } else {
        global
    };
    (out, new_global)
}

/// Appending one entry to the scanned prefix advances the first-nonzero
/// search accordingly.
proof fn lemma_first_nonzero_push(s: Seq<(u16, u32)>, x: (u16, u32))
    ensures
        first_nonzero_win(s.push(x)) == (if first_nonzero_win(s) is Some {
            first_nonzero_win(s)
        } else if x.1 != 0 {
            Option::Some(x.1)
        } else {
            Option::<u32>::None
        }),
    decreases s.len(),
{
    let p = s.push(x);
    if s.len() == 0 {
        assert(p =~= seq![x]);
        assert(p.len() == 1);
        assert(p[0] == x);
        assert(p.drop_first() =~= Seq::<(u16, u32)>::empty());
        assert(first_nonzero_win(Seq::<(u16, u32)>::empty()) is None);
        if x.1 != 0 {
            assert(first_nonzero_win(p) == Option::Some(p[0].1));
        } else {
            assert(first_nonzero_win(p) == first_nonzero_win(p.drop_first()));
        }
        assert(first_nonzero_win(s) is None);
    } else {
        assert(p[0] == s[0]);
        assert(p.len() == s.len() + 1 > 0);
        assert(p.drop_first() =~= s.drop_first().push(x));
        lemma_first_nonzero_push(s.drop_first(), x);
        if s[0].1 != 0 {
            assert(first_nonzero_win(p) == Option::Some(p[0].1));
            assert(first_nonzero_win(s) == Option::Some(s[0].1));
        } else {
            assert(first_nonzero_win(p) == first_nonzero_win(p.drop_first()));
            assert(first_nonzero_win(s) == first_nonzero_win(s.drop_first()));
        }
    }
}

/// A bare subscription list: every pattern with no window of its own.
pub fn resolve_bare(patterns: &Vec<u16>) -> (r: Vec<(u16, Option<u32>)>)
    ensures
        r@.len() == patterns@.len(),
        forall|i: int|
            0 <= i < patterns@.len() ==> r@[i] == (#[trigger] patterns@[i], Option::<u32>::None),
{
    let mut out: Vec<(u16, Option<u32>)> = Vec::new();
    let mut i: usize = 0;
    while i < patterns.len()
        invariant
            0 <= i <= patterns@.len(),
            out@.len() == i,
            forall|t: int|
                0 <= t < i ==> out@[t] == (#[trigger] patterns@[t], Option::<u32>::None),
        decreases patterns@.len() - i,
    {
        out.push((patterns[i], None));
        i = i + 1;
    }
    out
}

} // verus!
