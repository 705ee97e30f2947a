use clip_cli::transcript::{
    condense_transcript, format_srt, format_txt, ms_to_srt_time, segment_from_centiseconds,
    shift_segments, Segment,
};

fn seg(start_ms: i64, end_ms: i64, text: &str) -> Segment {
    Segment { start_ms, end_ms, text: text.to_string() }
}

/// The start time of each segment as the condensed listing shows it.
fn stamps(segments: &[Segment]) -> Vec<String> {
    segments.iter().map(|s| format!("{:.1}", s.start_ms as f64 / 1000.0)).collect()
}

#[test]
fn test_ms_to_srt_time() {
    assert_eq!(ms_to_srt_time(0), "00:00:00,000");
    assert_eq!(ms_to_srt_time(1500), "00:00:01,500");
    assert_eq!(ms_to_srt_time(90500), "00:01:30,500");
    assert_eq!(ms_to_srt_time(3661000), "01:01:01,000");
}

#[test]
fn test_format_srt() {
    let segments = vec![seg(0, 2000, "Hello"), seg(2500, 5000, "World")];
    let srt = format_srt(&segments);
    assert!(srt.contains("1\n00:00:00,000 --> 00:00:02,000\nHello"));
    assert!(srt.contains("2\n00:00:02,500 --> 00:00:05,000\nWorld"));
}

#[test]
fn test_format_txt() {
    let segments = vec![seg(0, 2000, "Hello"), seg(2500, 5000, "World")];
    assert_eq!(format_txt(&segments), "Hello\nWorld");
}

#[test]
fn test_condense_transcript() {
    let segments = vec![seg(0, 5000, "Hello"), seg(5000, 10000, "World"), seg(65000, 70000, "Later")];
    let condensed = condense_transcript(&segments, &stamps(&segments));
    assert!(condensed.contains("[0.0] Hello"));
    assert!(condensed.contains("[5.0] World"));
    assert!(condensed.contains("[65.0] Later"));
}

#[test]
fn srt_time_matches_std_formatting() {
    for ms in [0i64, 1, 999, 1000, 59_999, 3_599_999, 360_000_000, 987_654_321, -1, -1500, -3_661_000, i64::MAX, i64::MIN] {
        let total_secs = ms / 1000;
        let expected = format!(
            "{:02}:{:02}:{:02},{:03}",
            total_secs / 3600,
            (total_secs % 3600) / 60,
            total_secs % 60,
            ms % 1000
        );
        assert_eq!(ms_to_srt_time(ms), expected, "ms = {ms}");
    }
}

#[test]
fn srt_time_of_many_hours_keeps_all_hour_digits() {
    assert_eq!(ms_to_srt_time(360_000_000), "100:00:00,000");
    assert_eq!(ms_to_srt_time(-1), "00:00:00,-01");
}

#[test]
fn srt_document_layout() {
    let segments = vec![seg(0, 2000, "Hello"), seg(2500, 5000, "World")];
    assert_eq!(
        format_srt(&segments),
        "1\n00:00:00,000 --> 00:00:02,000\nHello\n\n2\n00:00:02,500 --> 00:00:05,000\nWorld\n\n"
    );
    assert_eq!(format_srt(&[]), "");
}

#[test]
fn plain_text_of_no_or_one_segment() {
    assert_eq!(format_txt(&[]), "");
    assert_eq!(format_txt(&[seg(0, 1, "only")]), "only");
}

#[test]
fn condensed_listing_layout() {
    let segments = vec![seg(0, 5000, "Hello"), seg(5000, 10000, "World")];
    assert_eq!(
        condense_transcript(&segments, &stamps(&segments)),
        "[0.0] Hello\n[5.0] World\n"
    );
}

#[test]
fn condensed_listing_subsamples_long_transcripts() {
    let segments: Vec<Segment> = (0..1000).map(|i| seg(i * 100, i * 100 + 50, "x")).collect();
    let listing = condense_transcript(&segments, &stamps(&segments));
    // 1000 segments: every second one is kept.
    assert_eq!(listing.lines().count(), 500);
    assert!(listing.starts_with("[0.0] x\n[0.2] x\n"));

    let segments: Vec<Segment> = (0..799).map(|i| seg(i, i, "y")).collect();
    let listing = condense_transcript(&segments, &stamps(&segments));
    assert_eq!(listing.lines().count(), 799);

    let segments: Vec<Segment> = (0..400).map(|i| seg(i, i, "z")).collect();
    let listing = condense_transcript(&segments, &stamps(&segments));
    assert_eq!(listing.lines().count(), 400);
}

#[test]
fn shifting_moves_every_time() {
    let mut segments = vec![seg(0, 2000, "Hello"), seg(2500, 5000, "World")];
    shift_segments(&mut segments, 60_000);
    assert_eq!((segments[0].start_ms, segments[0].end_ms), (60_000, 62_000));
    assert_eq!((segments[1].start_ms, segments[1].end_ms), (62_500, 65_000));
    assert_eq!(segments[1].text, "World");
    shift_segments(&mut segments, -60_000);
    assert_eq!((segments[0].start_ms, segments[0].end_ms), (0, 2000));
    assert_eq!((segments[1].start_ms, segments[1].end_ms), (2500, 5000));
}

#[test]
fn segments_from_centiseconds() {
    let s = segment_from_centiseconds(150, 275, "  Hello there \n");
    assert_eq!((s.start_ms, s.end_ms), (1500, 2750));
    assert_eq!(s.text, "Hello there");
}

#[test]
fn srt_times_read_back() {
    for ms in [0i64, 7, 1500, 59_999, 3_600_000, 86_399_999, 360_000_001, 9_000_000_000_000] {
        let t = ms_to_srt_time(ms);
        let n = t.len();
        assert_eq!(&t[n - 10..n - 9], ":");
        assert_eq!(&t[n - 7..n - 6], ":");
        assert_eq!(&t[n - 4..n - 3], ",");
        let h: i64 = t[..n - 10].parse().unwrap();
        let m: i64 = t[n - 9..n - 7].parse().unwrap();
        let s: i64 = t[n - 6..n - 4].parse().unwrap();
        let r: i64 = t[n - 3..].parse().unwrap();
        assert_eq!(h * 3_600_000 + m * 60_000 + s * 1000 + r, ms);
    }
}

#[test]
fn stamps_below_a_hundred_hours_have_one_form_and_sort_as_times() {
    let times: [i64; 11] = [
        0, 1, 999, 1000, 59_999, 60_000, 599_999, 3_599_999, 3_600_000, 86_399_999, 359_999_999,
    ];
    let stamps: Vec<String> = times.iter().map(|&t| ms_to_srt_time(t)).collect();
    for s in &stamps {
        let b = s.as_bytes();
        assert_eq!(b.len(), 12, "{s}");
        assert_eq!((b[2], b[5], b[8]), (b':', b':', b','), "{s}");
        for (i, c) in b.iter().enumerate() {
            if i != 2 && i != 5 && i != 8 {
                assert!(c.is_ascii_digit(), "{s}");
            }
        }
    }
    assert_eq!(stamps[10], "99:59:59,999");
    for w in stamps.windows(2) {
        assert!(w[0] < w[1], "{} {}", w[0], w[1]);
    }
}
