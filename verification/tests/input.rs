use tagtools::input::{
    resolve_bare, resolve_patmasks, setting_action, InputRequest, InputSetting, InputState, Mode,
};

#[test]
fn set_and_get_inputs() {
    let mut s = InputState::new(false, None);
    // Threshold of channel 3 to 1.25 V, delay of channel 7 to 42 ticks,
    // inversion of channel 2 on.
    let ev = s.set_input(InputRequest::Threshold(3, 1_250_000));
    assert_eq!(ev, Some(InputSetting::Threshold(3, 1_250_000)));
    let ev = s.set_input(InputRequest::Delay(7, 42));
    assert_eq!(ev, Some(InputSetting::Delay(7, 42)));
    let ev = s.set_input(InputRequest::Inversion(2, true));
    assert_eq!(ev, Some(InputSetting::InversionMask(0b10)));
    let (invmask, delays, thresholds) = s.get_inputs();
    assert_eq!(invmask & 0b10, 0b10);
    assert_eq!(delays[6], 42);
    assert_eq!(thresholds[2], 1_250_000);
    // Clearing the inversion clears its bit again.
    let ev = s.set_input(InputRequest::Inversion(2, false));
    assert_eq!(ev, Some(InputSetting::InversionMask(0)));
}

#[test]
fn out_of_range_channels_are_ignored() {
    let mut s = InputState::new(false, None);
    assert_eq!(s.set_input(InputRequest::Delay(0, 5)), None);
    assert_eq!(s.set_input(InputRequest::Delay(17, 5)), None);
    assert_eq!(s.set_input(InputRequest::Threshold(0, 1)), None);
    assert_eq!(s.set_input(InputRequest::Inversion(20, true)), None);
    let (invmask, delays, _) = s.get_inputs();
    assert_eq!(invmask, 0);
    assert!(delays.iter().all(|&d| d == 0));
}

#[test]
fn thresholds_clamp_to_four_volts() {
    let mut s = InputState::new(false, None);
    let ev = s.set_input(InputRequest::Threshold(1, 9_000_000));
    assert_eq!(ev, Some(InputSetting::Threshold(1, 4_000_000)));
    let ev = s.set_input(InputRequest::Threshold(1, -9_000_000));
    assert_eq!(ev, Some(InputSetting::Threshold(1, -4_000_000)));
}

#[test]
fn global_window_modes() {
    // Tag mode has no global window; zero is reported.
    let s = InputState::new(false, None);
    assert_eq!(s.get_window(), 0);
    // Logic mode starts at the pinned window, or the default.
    let s = InputState::new(true, Some(5));
    assert_eq!(s.get_window(), 5);
    let s = InputState::new(true, None);
    assert_eq!(s.get_window(), 1);
    // A set takes effect for later reads.
    let mut s = InputState::new(true, Some(5));
    let ev = s.set_window(9);
    assert_eq!(ev, InputSetting::Window(9));
    assert_eq!(s.get_window(), 9);
}

#[test]
fn window_events_honored_only_in_unpinned_logic_mode() {
    let w = InputSetting::Window(7);
    assert_eq!(setting_action(Mode::Timetag, None, w), None);
    assert_eq!(setting_action(Mode::Logic, Some(5), w), None);
    assert_eq!(setting_action(Mode::Logic, None, w), Some(w));
    let d = InputSetting::Delay(3, 10);
    assert_eq!(setting_action(Mode::Timetag, None, d), Some(d));
    assert_eq!(setting_action(Mode::Logic, Some(5), d), Some(d));
}

#[test]
fn windowed_subscriptions_resolve_by_mode() {
    let entries: Vec<(u16, u32)> = vec![(0x0003, 0), (0x0005, 7), (0x0009, 3)];
    // Tag mode: each pattern keeps the nonzero window it asked for.
    let (pats, global) = resolve_patmasks(&entries, false, None, None);
    assert_eq!(pats, vec![(0x0003, None), (0x0005, Some(7)), (0x0009, Some(3))]);
    assert_eq!(global, None);
    // Logic mode with no pinned window: patterns carry no window, and the
    // first nonzero request becomes the global window.
    let (pats, global) = resolve_patmasks(&entries, true, None, Some(1));
    assert_eq!(pats, vec![(0x0003, None), (0x0005, None), (0x0009, None)]);
    assert_eq!(global, Some(7));
    // A pinned window ignores every requested one.
    let (pats, global) = resolve_patmasks(&entries, true, Some(5), Some(5));
    assert_eq!(pats, vec![(0x0003, None), (0x0005, None), (0x0009, None)]);
    assert_eq!(global, Some(5));
    // All-zero requests adopt nothing.
    let zero: Vec<(u16, u32)> = vec![(0x0003, 0)];
    let (_, global) = resolve_patmasks(&zero, true, None, Some(4));
    assert_eq!(global, Some(4));
}

#[test]
fn bare_subscriptions_carry_no_window() {
    let pats = resolve_bare(&vec![0x0001, 0x8000, 0x8001]);
    assert_eq!(pats, vec![(0x0001, None), (0x8000, None), (0x8001, None)]);
}
