use condensed_audio::extract::{build_filter, encode_filter, ExtractError};
use condensed_audio::segments::Segment;

#[test]
fn filter_uses_atrim_concat_graph() {
    let segs = vec![
        Segment { start_ms: 1000, end_ms: 2500 },
        Segment { start_ms: 4000, end_ms: 5500 },
    ];
    let filter = build_filter(2, &segs);
    assert!(filter.contains("[0:a:2]asplit=2[a0][a1];"));
    assert!(filter.contains("[a0]atrim=start=1.000:end=2.500,asetpts=PTS-STARTPTS[s0];"));
    assert!(filter.contains("[a1]atrim=start=4.000:end=5.500,asetpts=PTS-STARTPTS[s1];"));
    assert!(filter.ends_with("[s0][s1]concat=n=2:v=0:a=1[out]"));
}

#[test]
fn filter_graph_whole_text() {
    let segs = vec![Segment { start_ms: 5, end_ms: 123_456_789 }];
    assert_eq!(
        build_filter(0, &segs),
        "[0:a:0]asplit=1[a0];[a0]atrim=start=0.005:end=123456.789,asetpts=PTS-STARTPTS[s0];[s0]concat=n=1:v=0:a=1[out]"
    );
}

#[test]
fn seconds_match_float_formatting() {
    for ms in [0u64, 1, 999, 1000, 1001, 59_999, 3_600_000, 86_399_999, 123_456_789_012] {
        let segs = vec![Segment { start_ms: ms, end_ms: ms }];
        let expected = format!("atrim=start={:.3}:end=", ms as f64 / 1000.0);
        assert!(build_filter(1, &segs).contains(&expected), "{ms}");
    }
}

#[test]
fn many_segments_are_numbered_in_order() {
    let segs: Vec<Segment> = (0..12u64)
        .map(|i| Segment { start_ms: i * 1000, end_ms: i * 1000 + 500 })
        .collect();
    let f = build_filter(3, &segs);
    assert!(f.starts_with("[0:a:3]asplit=12[a0][a1][a2][a3][a4][a5][a6][a7][a8][a9][a10][a11];"));
    assert!(f.contains("[a11]atrim=start=11.000:end=11.500,asetpts=PTS-STARTPTS[s11];"));
    assert!(f.ends_with("[s10][s11]concat=n=12:v=0:a=1[out]"));
}

#[test]
fn nothing_to_encode_without_segments() {
    assert_eq!(encode_filter(0, &[]), Err(ExtractError::NoSegments));
    let segs = vec![Segment { start_ms: 0, end_ms: 10 }];
    assert_eq!(encode_filter(0, &segs), Ok(build_filter(0, &segs)));
}
