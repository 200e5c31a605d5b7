use condensed_audio::segments::{build, total_duration_ms, Segment};
use condensed_audio::srt::Cue;

fn cue(start: u64, end: u64) -> Cue {
    Cue {
        start_ms: start,
        end_ms: end,
        text: "x".into(),
    }
}

#[test]
fn pads_clamps_to_zero() {
    let segs = build(&[cue(100, 500)], 500, 0, None);
    assert_eq!(
        segs,
        vec![Segment {
            start_ms: 0,
            end_ms: 1000
        }]
    );
}

#[test]
fn pads_clamps_to_total_duration() {
    let segs = build(&[cue(0, 9_500)], 500, 0, Some(10_000));
    assert_eq!(
        segs,
        vec![Segment {
            start_ms: 0,
            end_ms: 10_000
        }]
    );
}

#[test]
fn merges_overlapping_padded_ranges() {
    // cue1: 1000-2000 padded -> 500-2500
    // cue2: 2400-3000 padded -> 1900-3500 -> overlaps
    let segs = build(&[cue(1000, 2000), cue(2400, 3000)], 500, 0, None);
    assert_eq!(
        segs,
        vec![Segment {
            start_ms: 500,
            end_ms: 3500
        }]
    );
}

#[test]
fn merges_with_gap_close() {
    // padded ranges: 500-2500 and 3000-5000 — gap 500ms
    let segs = build(&[cue(1000, 2000), cue(3500, 4500)], 500, 600, None);
    assert_eq!(segs.len(), 1);
    assert_eq!(
        segs[0],
        Segment {
            start_ms: 500,
            end_ms: 5000
        }
    );
}

#[test]
fn does_not_merge_when_gap_exceeds_threshold() {
    let segs = build(&[cue(1000, 2000), cue(5000, 6000)], 500, 200, None);
    assert_eq!(segs.len(), 2);
}

#[test]
fn unsorted_input_handled() {
    let segs = build(&[cue(5000, 6000), cue(1000, 2000)], 100, 0, None);
    assert_eq!(segs.len(), 2);
    assert!(segs[0].start_ms < segs[1].start_ms);
}

#[test]
fn cues_past_the_end_are_dropped() {
    let segs = build(&[cue(20_000, 21_000), cue(1000, 2000)], 0, 0, Some(10_000));
    assert_eq!(segs, vec![Segment { start_ms: 1000, end_ms: 2000 }]);
}

#[test]
fn only_gaps_shorter_than_threshold_merge() {
    let segs = build(&[cue(0, 1000), cue(1199, 2000)], 0, 200, None);
    assert_eq!(segs, vec![Segment { start_ms: 0, end_ms: 2000 }]);
    let segs = build(&[cue(0, 1000), cue(1200, 2000)], 0, 200, None);
    assert_eq!(segs.len(), 2);
    // Touching segments are apart by zero, which is not less than a zero gap.
    let segs = build(&[cue(0, 1000), cue(1000, 2000)], 0, 0, None);
    assert_eq!(segs.len(), 2);
    let segs = build(&[cue(0, 1000), cue(999, 2000)], 0, 0, None);
    assert_eq!(segs, vec![Segment { start_ms: 0, end_ms: 2000 }]);
}

#[test]
fn contained_cue_does_not_shrink_segment() {
    let segs = build(&[cue(0, 5000), cue(1000, 2000)], 0, 0, None);
    assert_eq!(segs, vec![Segment { start_ms: 0, end_ms: 5000 }]);
}

#[test]
fn built_segments_are_separated_and_cover_every_cue() {
    let cues = vec![
        cue(9000, 9500),
        cue(100, 300),
        cue(4000, 4100),
        cue(250, 900),
        cue(5000, 5000),
        cue(7000, 6000),
    ];
    let pad = 50;
    let gap = 300;
    let segs = build(&cues, pad, gap, Some(9520));
    for w in segs.windows(2) {
        assert!(w[1].start_ms >= w[0].end_ms + gap as u64);
    }
    for s in &segs {
        assert!(s.end_ms > s.start_ms);
        assert!(s.end_ms <= 9520);
    }
    for c in &cues {
        let start = c.start_ms.saturating_sub(pad as u64);
        let end = (c.end_ms + pad as u64).min(9520);
        if end > start {
            assert!(segs.iter().any(|s| s.start_ms <= start && end <= s.end_ms));
        }
    }
    assert_eq!(
        segs,
        vec![
            Segment { start_ms: 50, end_ms: 950 },
            Segment { start_ms: 3950, end_ms: 4150 },
            Segment { start_ms: 4950, end_ms: 5050 },
            Segment { start_ms: 8950, end_ms: 9520 },
        ]
    );
}

#[test]
fn empty_cue_list_gives_no_segments() {
    assert!(build(&[], 500, 200, None).is_empty());
}

#[test]
fn duration_and_total() {
    let segs = vec![
        Segment { start_ms: 0, end_ms: 1500 },
        Segment { start_ms: 3000, end_ms: 3250 },
        Segment { start_ms: 10, end_ms: 5 },
    ];
    assert_eq!(segs[0].duration_ms(), 1500);
    assert_eq!(segs[2].duration_ms(), 0);
    assert_eq!(total_duration_ms(&segs), 1750);
    assert_eq!(total_duration_ms(&[]), 0);
}

#[test]
fn cue_order_and_text_do_not_change_the_segments() {
    let cues = vec![
        cue(4000, 4500),
        cue(1000, 1200),
        cue(1000, 3000),
        cue(1000, 1100),
        cue(8000, 8100),
    ];
    let mut shuffled: Vec<Cue> = cues.iter().rev().cloned().collect();
    shuffled.swap(0, 2);
    for (i, c) in shuffled.iter_mut().enumerate() {
        c.text = format!("line {i}");
    }
    let a = build(&cues, 100, 0, Some(8150));
    let b = build(&shuffled, 100, 0, Some(8150));
    assert_eq!(a, b);
    assert_eq!(
        a,
        vec![
            Segment { start_ms: 900, end_ms: 3100 },
            Segment { start_ms: 3900, end_ms: 4600 },
            Segment { start_ms: 7900, end_ms: 8150 },
        ]
    );
}

#[test]
fn building_from_built_segments_changes_nothing() {
    let cues = vec![cue(100, 900), cue(1000, 1500), cue(1800, 2000), cue(5000, 5200)];
    let segs = build(&cues, 0, 250, None);
    assert_eq!(
        segs,
        vec![
            Segment { start_ms: 100, end_ms: 1500 },
            Segment { start_ms: 1800, end_ms: 2000 },
            Segment { start_ms: 5000, end_ms: 5200 },
        ]
    );
    let again: Vec<Cue> = segs.iter().map(|s| cue(s.start_ms, s.end_ms)).collect();
    assert_eq!(build(&again, 0, 250, None), segs);
}
