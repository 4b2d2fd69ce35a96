use tagtools::data::{
    count_patterns, logic_counts, process, select_pattern_counts, LogicData, PubData, RawData,
    RawTags,
};
use tagtools::pat::{
    coincidence, coincidence_histogram, coincidence_histogram_1, coincidence_intersection, singles,
};
use tagtools::Tag;

fn t(time: i64, channel: u8) -> Tag {
    Tag { time, channel }
}

/// A small two-channel dataset with a few coincidences at known delays.
fn small_data() -> Vec<Tag> {
    vec![
        t(0, 1),
        t(2, 2),
        t(10, 1),
        t(11, 2),
        t(20, 2),
        t(30, 1),
        t(31, 1),
        t(32, 2),
        t(40, 3),
    ]
}

#[test]
fn singles_small_data() {
    let tags = small_data();
    assert_eq!(singles(&tags, 1), 4);
    assert_eq!(singles(&tags, 2), 4);
    assert_eq!(singles(&tags, 3), 1);
    assert_eq!(singles(&tags, 16), 0);
    assert_eq!(singles(&vec![], 1), 0);
}

#[test]
fn coincidence_small_data() {
    let tags = small_data();
    // Pairs (a, b) with tb - ta == 2: (0,2) and (30,32). At delay 1:
    // (10,11) and (31,32).
    assert_eq!(coincidence(&tags, 1, 2, 1, 2), 2);
    assert_eq!(coincidence(&tags, 1, 2, 1, 1), 2);
    assert_eq!(coincidence(&tags, 1, 2, 1, 0), 0);
    // Negative delay looks at b before a: (2,?) none; (11,?) none; (20,30)?
    // tb - ta == -10 pairs: a=30,b=20; a=31? 21 none. So one pair.
    assert_eq!(coincidence(&tags, 1, 2, 1, -10), 1);
}

#[test]
fn coincidence_empty_and_unmatched() {
    assert_eq!(coincidence(&vec![], 1, 2, 1, 0), 0);
    let tags = small_data();
    assert_eq!(coincidence(&tags, 7, 8, 1, 0), 0);
}

#[test]
fn coincidence_windowed() {
    let tags = small_data();
    // With window 2: quantised times of ch1: 0, 5, 15, 15; ch2: 1, 5, 10, 16.
    // Window distance 0: (10,11) both bin 5. Distance 1: (0,2), and (30,32)
    // with (31,32), both 15 against 16.
    assert_eq!(coincidence(&tags, 1, 2, 2, 0), 1);
    assert_eq!(coincidence(&tags, 1, 2, 2, 2), 3);
}

#[test]
fn coincidence_negative_times() {
    // Window quantisation floors, so times just below zero land in bin -1.
    let tags = vec![t(-3, 1), t(-1, 2), t(0, 2), t(4, 1), t(5, 2)];
    // Window 4: ch1 bins: -1, 1; ch2 bins: -1, 0, 1.
    assert_eq!(coincidence(&tags, 1, 2, 4, 0), 2);
    assert_eq!(coincidence(&tags, 1, 2, 4, 4), 1);
    assert_eq!(coincidence(&tags, 1, 2, 4, -4), 1);
}

#[test]
fn histogram_keys_and_counts() {
    let tags = small_data();
    let hist = coincidence_histogram(&tags, 1, 2, 1, -3, 3);
    assert_eq!(hist.len(), 7);
    for (i, &(d, _)) in hist.iter().enumerate() {
        assert_eq!(d, -3 + i as i64);
    }
    // Counts at each delay agree with the fixed-delay counter.
    for &(d, c) in hist.iter() {
        assert_eq!(c, coincidence(&tags, 1, 2, 1, d));
    }
}

#[test]
fn histogram_empty_range() {
    let tags = small_data();
    let hist = coincidence_histogram(&tags, 1, 2, 1, 3, -3);
    assert_eq!(hist.len(), 0);
}

#[test]
fn histogram_windowed_bins() {
    let tags = small_data();
    let hist = coincidence_histogram(&tags, 1, 2, 2, -4, 4);
    // Bins at -4, -2, 0, 2, 4.
    assert_eq!(hist.len(), 5);
    for (i, &(d, _)) in hist.iter().enumerate() {
        assert_eq!(d, -4 + 2 * i as i64);
    }
    for &(d, c) in hist.iter() {
        assert_eq!(c, coincidence(&tags, 1, 2, 2, d));
    }
}

#[test]
fn coincidence_implementations_agree() {
    let tags = small_data();
    for w in [1i64, 2, 3, 4] {
        for d in -12..=12i64 {
            let a = coincidence_intersection(&tags, 1, 2, w, d);
            let b = coincidence_histogram_1(&tags, 1, 2, w, d);
            let c = coincidence(&tags, 1, 2, w, d);
            assert_eq!(a, b);
            assert_eq!(a, c);
        }
    }
}

#[test]
fn histogram_translation_invariance() {
    let tags = small_data();
    let h0 = coincidence_histogram(&tags, 1, 2, 1, -20, 20);
    for shift in [-5i64, -1, 1, 3, 7] {
        let shifted: Vec<Tag> = tags
            .iter()
            .map(|&tag| {
                if tag.channel == 2 {
                    t(tag.time + shift, 2)
                } else {
                    tag
                }
            })
            .collect();
        let hs = coincidence_histogram(&shifted, 1, 2, 1, -20, 20);
        for (i, &(d, c)) in h0.iter().enumerate() {
            let js = d + shift + 20;
            if js >= 0 && (js as usize) < hs.len() {
                assert_eq!(hs[js as usize], (d + shift, c), "shift {} bin {}", shift, i);
            }
        }
    }
}

#[test]
fn count_patterns_by_weight() {
    let tags = small_data();
    let pats: Vec<(u16, Option<u32>)> = vec![
        (0b0001, None),           // singles channel 1
        (0b0010, None),           // singles channel 2
        (0b0011, Some(2)),        // coincidence 1-2 in window 2
        (0b0111, None),           // weight 3: no kernel, no entry
        (0b0000, None),           // weight 0: no kernel, no entry
    ];
    let counts = count_patterns(&tags, &pats);
    assert_eq!(counts.len(), 3);
    assert_eq!(counts[0], ((0b0001, None), 4));
    assert_eq!(counts[1], ((0b0010, None), 4));
    assert_eq!(counts[2], ((0b0011, Some(2)), coincidence(&tags, 1, 2, 2, 0)));
}

#[test]
fn select_pattern_counts_subsets() {
    let counts: Vec<((u16, Option<u32>), u64)> =
        vec![((0b0001, None), 4), ((0b0011, Some(2)), 7), ((0b0011, Some(5)), 9)];
    // Exact key match wins; mask-only falls back to the first mask match;
    // unknown patterns contribute nothing.
    let pats: Vec<(u16, Option<u32>)> =
        vec![(0b0011, Some(5)), (0b0011, None), (0b0001, None), (0b1000, None)];
    let sel = select_pattern_counts(&pats, &counts);
    assert_eq!(sel.len(), 3);
    assert_eq!(sel[0], (0b0011, 9, 5));
    assert_eq!(sel[1], (0b0011, 7, 2));
    assert_eq!(sel[2], (0b0001, 4, 1));
}

#[test]
fn process_logic_frames_pass_through() {
    let raw = RawData::Logic(LogicData { dur: 17, counts: vec![((3, Some(2)), 5)] });
    match process(raw, &vec![]) {
        PubData::Logic(ld) => {
            assert_eq!(ld.dur, 17);
            assert_eq!(ld.counts, vec![((3, Some(2)), 5)]);
        }
        _ => panic!("tag frame out of a logic frame"),
    }
}

#[test]
fn process_tag_frames_count() {
    let tags = small_data();
    let raw = RawData::Tags(RawTags { dur: 100, tags: tags.clone() });
    match process(raw, &vec![(0b0001, None)]) {
        PubData::Tags(td) => {
            assert_eq!(td.dur, 100);
            assert_eq!(td.tags, tags);
            assert_eq!(td.counts, vec![((0b0001, None), 4)]);
        }
        _ => panic!("logic frame out of a tag frame"),
    }
}

#[test]
fn logic_counts_carry_the_global_window() {
    let raw: Vec<(u16, u64)> = vec![(0x0001, 12), (0x0003, 4)];
    let counts = logic_counts(&raw, 9);
    assert_eq!(counts, vec![((0x0001, Some(9)), 12), ((0x0003, Some(9)), 4)]);
}

/// A deterministic pseudo-random dataset of two thousand tags on four
/// channels, with expected counts computed independently.
fn lcg_data() -> Vec<Tag> {
    let mut state: u64 = 1;
    let mut next = move || {
        state = state
            .wrapping_mul(6364136223846793005)
            .wrapping_add(1442695040888963407);
        state
    };
    let mut tags = Vec::new();
    let mut time: i64 = 0;
    for _ in 0..2000 {
        time += ((next() >> 33) % 50) as i64;
        let channel = ((next() >> 33) % 4 + 1) as u8;
        tags.push(Tag { time, channel });
    }
    tags
}

#[test]
fn singles_on_generated_data() {
    let tags = lcg_data();
    assert_eq!(singles(&tags, 1), 503);
    assert_eq!(singles(&tags, 2), 496);
    assert_eq!(singles(&tags, 3), 491);
    assert_eq!(singles(&tags, 4), 510);
}

#[test]
fn coincidences_on_generated_data() {
    let tags = lcg_data();
    assert_eq!(coincidence(&tags, 1, 2, 1, 0), 6);
    assert_eq!(coincidence(&tags, 1, 2, 5, 0), 16);
    assert_eq!(coincidence(&tags, 1, 2, 5, 7), 16);
    assert_eq!(coincidence(&tags, 3, 4, 25, -13), 121);
    assert_eq!(coincidence(&tags, 2, 3, 10, 100), 58);
}

#[test]
fn histogram_matches_fixed_delay_on_generated_data() {
    let tags = lcg_data();
    let hist = coincidence_histogram(&tags, 1, 3, 5, -40, 40);
    assert_eq!(hist.len(), 17);
    for &(d, c) in hist.iter() {
        assert_eq!(c, coincidence_intersection(&tags, 1, 3, 5, d));
        assert_eq!(c, coincidence_histogram_1(&tags, 1, 3, 5, d));
    }
}
