use tagtools::cfg::{run_tagmask, ChannelSettings, Coincidence, Run, RunLimit, SaveTags, Single};
use tagtools::dash::{sizefmt, Grain, TabsState};

#[test]
fn default_run_is_empty() {
    let r = Run::default();
    assert_eq!(r.description, "");
    assert_eq!(r.version, "");
    assert_eq!(r.timestamp, None);
    assert_eq!(r.limit, None);
    assert_eq!(r.save_counts, None);
    assert_eq!(r.save_tags, None);
    assert_eq!(r.tagmask, None);
    assert_eq!(r.duration, None);
    assert!(r.singles.is_empty());
    assert!(r.coincidences.is_empty());
    assert!(r.channel_settings.is_empty());
}

#[test]
fn run_documents_compare_by_fields() {
    let a = Run {
        description: String::from("demo"),
        limit: Some(RunLimit::Duration(5, 0)),
        save_tags: Some(SaveTags::Save(false)),
        singles: vec![Single::Channel(1), Single::ChannelCounts(2, 42)],
        coincidences: vec![Coincidence::Channels(1, 2), Coincidence::ChannelsWin(1, 3, 7)],
        channel_settings: vec![ChannelSettings {
            channel: 2,
            invert: Some(true),
            delay: Some(486),
            threshold: Some(1_200_000),
        }],
        ..Run::default()
    };
    let b = a.clone();
    assert_eq!(a, b);
    let mut c = a.clone();
    c.coincidences.push(Coincidence::ChannelsCounts(1, 2, 1, 99));
    assert_ne!(a, c);
}

#[test]
fn tagmask_assembles_from_singles() {
    let r = Run {
        singles: vec![Single::Channel(1), Single::Channel(3), Single::ChannelCounts(16, 5)],
        ..Run::default()
    };
    assert_eq!(run_tagmask(&r), 0b1000_0000_0000_0101);
    let pinned = Run { tagmask: Some(0x00FF), ..r };
    assert_eq!(run_tagmask(&pinned), 0x00FF);
}

#[test]
fn tabs_cycle() {
    let mut tabs = TabsState::new(vec![
        String::from("counts"),
        String::from("settings"),
        String::from("about"),
    ]);
    assert_eq!(tabs.index, 0);
    tabs.next();
    assert_eq!(tabs.index, 1);
    tabs.next();
    tabs.next();
    assert_eq!(tabs.index, 0);
    tabs.prev();
    assert_eq!(tabs.index, 2);
    tabs.prev();
    assert_eq!(tabs.index, 1);
    let _ = Grain::Coarse;
}

#[test]
fn sizes_format_with_a_prefix() {
    assert_eq!(sizefmt(0), "  0.000 B");
    assert_eq!(sizefmt(999), "  0.999 B");
    assert_eq!(sizefmt(1_500), "  1.500 kB");
    assert_eq!(sizefmt(2_000_000), "  2.000 MB");
    assert_eq!(sizefmt(3_250_000_000), "  3.250 GB");
    assert_eq!(sizefmt(7_000_000_000_000), "  7.000 TB");
    assert_eq!(sizefmt(1_200_000_000_000_000), "  1.200 PB");
    assert_eq!(sizefmt(999_999_999_999_999_999), "999.999 PB");
    // Past the largest named prefix, the plain byte count.
    assert_eq!(sizefmt(1_000_000_000_000_000_000), "1000000000000000000 B");
}
