use condensed_audio::srt::{parse_str, strip_bom, timestamps_fit, Cue, SrtError, TimingError};

#[test]
fn parses_basic_srt() {
    let input = "1\n00:00:01,000 --> 00:00:02,500\nHello\n\n2\n00:00:03,000 --> 00:00:04,000\nWorld\nLine two";
    let cues = parse_str(input).unwrap();
    assert_eq!(cues.len(), 2);
    assert_eq!(cues[0].start_ms, 1000);
    assert_eq!(cues[0].end_ms, 2500);
    assert_eq!(cues[0].text, "Hello");
    assert_eq!(cues[1].text, "World\nLine two");
}

#[test]
fn parses_dot_separator() {
    let input = "00:00:01.250 --> 00:00:02.750\nText";
    let cues = parse_str(input).unwrap();
    assert_eq!(cues[0].start_ms, 1250);
    assert_eq!(cues[0].end_ms, 2750);
}

#[test]
fn handles_crlf() {
    let input = "1\r\n00:00:01,000 --> 00:00:02,000\r\nHi\r\n";
    let cues = parse_str(input).unwrap();
    assert_eq!(cues.len(), 1);
    assert_eq!(cues[0].text, "Hi");
}

#[test]
fn timestamp_formula_counts_hours_minutes_seconds() {
    let cues = parse_str("01:02:03,004 --> 10:00:00,999").unwrap();
    assert_eq!(cues[0].start_ms, 3_723_004);
    assert_eq!(cues[0].end_ms, 36_000_999);
    assert_eq!(cues[0].text, "");
}

#[test]
fn bare_carriage_returns_separate_blocks() {
    let input = "1\r00:00:01,000 --> 00:00:02,000\rA\r\r2\r00:00:03,000 --> 00:00:04,000\rB";
    let cues = parse_str(input).unwrap();
    assert_eq!(cues.len(), 2);
    assert_eq!(cues[1].start_ms, 3000);
    assert_eq!(cues[1].text, "B");
}

#[test]
fn extra_blank_lines_and_lone_index_are_skipped() {
    let input = "\n\n\n1\n00:00:01,000 --> 00:00:02,000\nA\n\n\n\n7\n\n";
    let cues = parse_str(input).unwrap();
    assert_eq!(
        cues,
        vec![Cue { start_ms: 1000, end_ms: 2000, text: "A".to_string() }]
    );
}

#[test]
fn trailing_position_info_is_ignored() {
    let cues = parse_str("5\n00:00:01,000 --> 00:00:02,000 X1:100 X2:200\nText").unwrap();
    assert_eq!(cues[0].end_ms, 2000);
}

#[test]
fn short_timestamps_read_first_field_as_hours() {
    // "5,250": the only field before the fraction is the hours field.
    let cues = parse_str("5,250 --> +1:2:3.4").unwrap();
    assert_eq!(cues[0].start_ms, 5 * 3_600_000 + 250);
    assert_eq!(cues[0].end_ms, 3_723_004);
}

#[test]
fn missing_arrow_is_an_error() {
    let err = parse_str("1\n00:00:01,000 00:00:02,000\nText").unwrap_err();
    assert_eq!(
        err,
        SrtError {
            line: "00:00:01,000 00:00:02,000".to_string(),
            reason: TimingError::MissingSeparator
        }
    );
}

#[test]
fn missing_fraction_is_an_error() {
    let err = parse_str("00:00:01 --> 00:00:02,000\nText").unwrap_err();
    assert_eq!(err.reason, TimingError::MissingFraction);
    assert_eq!(err.line, "00:00:01 --> 00:00:02,000");
}

#[test]
fn bad_number_is_an_error() {
    let err = parse_str("00:0a:01,000 --> 00:00:02,000\nText").unwrap_err();
    assert_eq!(err.reason, TimingError::InvalidNumber);
    let err = parse_str("00:00:01,000 --> 00:00:02,-1\nText").unwrap_err();
    assert_eq!(err.reason, TimingError::InvalidNumber);
}

#[test]
fn first_failing_block_stops_reading() {
    let input = "00:00:01,000 --> 00:00:02,000\nA\n\nbad\nnot a timing\n\n00:00:03,000 --> oops";
    let err = parse_str(input).unwrap_err();
    assert_eq!(err.line, "not a timing");
    assert_eq!(err.reason, TimingError::MissingSeparator);
}

#[test]
fn overflowing_timestamps_are_reported_before_parsing() {
    assert!(timestamps_fit("00:00:01,000 --> 00:00:02,000\nA"));
    assert!(!timestamps_fit("99999999999999:00:00,000 --> 00:00:02,000\nA"));
    // A line that fails before any value is computed does not overflow.
    assert!(timestamps_fit("99999999999999:00:00 --> 00:00:02,000\nA"));
}

#[test]
fn byte_order_marks_are_stripped() {
    assert_eq!(strip_bom("\u{feff}\u{feff}1\n\u{feff}"), "1\n\u{feff}");
    assert_eq!(strip_bom("plain"), "plain");
}
