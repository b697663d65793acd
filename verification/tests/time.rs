use converter::livesplit::LiveSplitFile;

#[test]
fn parses_livesplit_durations() {
    assert_eq!(LiveSplitFile::parse_time("00:01:02.123456789"), Some(62123456789));
    assert_eq!(LiveSplitFile::parse_time("1.02:03:04.123456789"), Some(93784123456789));
    assert_eq!(LiveSplitFile::parse_time(" -00:00:05.25"), Some(-5250000000));
}

#[test]
fn formats_libresplit_durations() {
    assert_eq!(LiveSplitFile::format_time(0), "00:00:00.000000");
    assert_eq!(LiveSplitFile::format_time(93784123456789), "26:03:04.123456");
    assert_eq!(LiveSplitFile::format_time(-5250000000), "-00:00:05.250000");
}

#[test]
fn conversion_for_sub_microsecond_times_are_correct() {
    assert_eq!(LiveSplitFile::convert_time("00:00:00.000001999"), "00:00:00.000001");
    // the 999 nanoseconds are cut off, and a negative zero is written as zero
    assert_eq!(LiveSplitFile::convert_time("-00:00:00.000000999"), "00:00:00.000000");
}

#[test]
fn invalid_livesplit_durations_convert_to_missing_times() {
    for source in ["", "-", "00:60:00", "00:00:60", "00:00:00.1234567890"] {
        assert_eq!(LiveSplitFile::parse_time(source), None, "{source:?}");
        assert_eq!(LiveSplitFile::convert_time(source), "-", "{source:?}");
    }
}

#[test]
fn written_durations_read_back_to_whole_microseconds() {
    for (nanos, expected) in [
        (0i128, 0i128),
        (62_123_456_789, 62_123_456_000),
        (-5_250_000_999, -5_250_000_000),
        (-999, 0),
        (93_784_123_456_789, 93_784_123_456_000),
        (360_000_000_000_000_000, 360_000_000_000_000_000),
    ] {
        let text = LiveSplitFile::format_time(nanos);
        assert_eq!(LiveSplitFile::parse_time(&text), Some(expected), "{text}");
    }
}

#[test]
fn converting_twice_changes_nothing() {
    for source in ["00:01:02.123456789", "1.02:03:04.5", " -00:00:05.25", "", "-", "12:00", "99:59:59"] {
        let once = LiveSplitFile::convert_time(source);
        assert_eq!(LiveSplitFile::convert_time(&once), once, "{source:?}");
    }
}

#[test]
fn formatting_ignores_sub_microseconds() {
    assert_eq!(LiveSplitFile::format_time(123_456_789), LiveSplitFile::format_time(123_456_000));
    assert_eq!(LiveSplitFile::format_time(-1_999), "-00:00:00.000001");
    assert_eq!(LiveSplitFile::format_time(-1_999), LiveSplitFile::format_time(-1_000));
}

#[test]
fn days_hours_and_fractions_are_read() {
    assert_eq!(LiveSplitFile::parse_time("2.00:00:00"), Some(172_800_000_000_000));
    assert_eq!(LiveSplitFile::parse_time("0.24:00:00"), None);
    assert_eq!(LiveSplitFile::parse_time("30:00:00"), Some(108_000_000_000_000));
    assert_eq!(LiveSplitFile::parse_time("00:00:01.1"), Some(1_100_000_000));
    assert_eq!(LiveSplitFile::parse_time("00:00:01.000000001"), Some(1_000_000_001));
    assert_eq!(LiveSplitFile::parse_time("00:00:01."), None);
    assert_eq!(LiveSplitFile::parse_time("00:00:+1"), None);
    assert_eq!(LiveSplitFile::parse_time("00:00:00:00"), None);
    assert_eq!(LiveSplitFile::parse_time("\u{3000}00:00:01\u{a0}"), Some(1_000_000_000));
}

#[test]
fn durations_at_the_limit_are_refused() {
    // i64::MAX microseconds is 2562047788:00:54.775807
    assert_eq!(LiveSplitFile::parse_time("2562047788:00:54.775806"), Some(9_223_372_036_854_775_806_000));
    assert_eq!(LiveSplitFile::parse_time("2562047788:00:54.775807"), None);
    assert_eq!(LiveSplitFile::parse_time("99999999999999999999999999999999999999999:00:00"), None);
}

#[test]
fn long_durations_keep_all_hour_digits() {
    assert_eq!(LiveSplitFile::format_time(9_223_372_036_854_775_806_999), "2562047788:00:54.775806");
    assert_eq!(LiveSplitFile::format_time(i128::MIN).starts_with('-'), true);
}
