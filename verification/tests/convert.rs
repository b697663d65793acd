use converter::livesplit::LiveSplitFile;
use converter::xml::XmlElement;
use converter::{ConversionError, convert_document};

/// An element without namespace or attributes.
fn element(name: &str, text: Option<&str>, children: Vec<XmlElement>) -> XmlElement {
    XmlElement {
        local_name: name.to_owned(),
        namespace: None,
        attributes: vec![],
        text: text.map(|t| t.to_owned()),
        children,
    }
}

/// An element holding text only.
fn text_element(name: &str, text: &str) -> XmlElement {
    element(name, Some(text), vec![])
}

/// A history record with an `id` attribute and its times.
fn record(id: &str, times: Vec<XmlElement>) -> XmlElement {
    XmlElement {
        local_name: "Time".to_owned(),
        namespace: None,
        attributes: vec![("name".to_owned(), None), ("id".to_owned(), Some(id.to_owned()))],
        text: None,
        children: times,
    }
}

const SAMPLE: &str = r#"<?xml version="1.0" encoding="UTF-8"?>
<Run version="1.7.0">
  <GameIcon />
  <GameName>Sonic Adventure 2</GameName>
  <CategoryName>Fallen Hero</CategoryName>
  <Offset>00:00:01.5000000</Offset>
  <AttemptCount> 5 </AttemptCount>
  <AttemptHistory>
    <Attempt id="1"><RealTime>00:01:00.0000000</RealTime></Attempt>
    <Attempt id="2" />
    <Attempt id="3"><GameTime>00:00:50</GameTime></Attempt>
    <Attempt id="4"><RealTime>not a time</RealTime></Attempt>
  </AttemptHistory>
  <Segments>
    <Segment>
      <Name>First</Name>
      <Icon>icons/first.png</Icon>
      <SplitTimes>
        <SplitTime name="Old"><RealTime>00:00:01.0000000</RealTime></SplitTime>
        <SplitTime name="Personal Best">
          <RealTime>00:00:30.1234567</RealTime>
          <GameTime>00:00:29.0000000</GameTime>
        </SplitTime>
      </SplitTimes>
      <BestSegmentTime><RealTime>00:00:28.0000000</RealTime></BestSegmentTime>
      <SegmentHistory>
        <Time id="1"><RealTime>00:00:31.0000000</RealTime></Time>
        <Time id="2"><RealTime>00:00:28.0000000</RealTime><GameTime>00:00:27.0000000</GameTime></Time>
        <Time id="3"><RealTime>00:00:29.0000000</RealTime></Time>
        <Time id="-1"><RealTime>00:00:01.0000000</RealTime></Time>
      </SegmentHistory>
    </Segment>
    <Segment>
      <Name>Second</Name>
      <SegmentHistory>
        <Time id="1"><RealTime>00:00:29.0000000</RealTime></Time>
        <Time id="3"><RealTime>00:00:40.0000000</RealTime></Time>
        <Time id="4"><RealTime>00:00:10.0000000</RealTime></Time>
      </SegmentHistory>
    </Segment>
  </Segments>
</Run>
"#;

/// The root of a small run: a game name, an offset of 1.5 s, five attempts of which the
/// first finished, and one segment with two recorded attempts.
fn sample_root() -> XmlElement {
    element(
        "Run",
        None,
        vec![
            text_element("GameName", "Sonic Adventure 2"),
            text_element("Offset", "00:00:01.5000000"),
            text_element("AttemptCount", " 5 "),
            element(
                "AttemptHistory",
                None,
                vec![
                    element("Attempt", None, vec![text_element("RealTime", "00:01:00")]),
                    element("Attempt", Some(""), vec![]),
                ],
            ),
            element(
                "Segments",
                None,
                vec![element(
                    "Segment",
                    None,
                    vec![
                        text_element("Name", "Only"),
                        element(
                            "SegmentHistory",
                            None,
                            vec![
                                record("1", vec![text_element("RealTime", "00:00:31")]),
                                record(" 2 ", vec![text_element("RealTime", "00:00:28.5")]),
                            ],
                        ),
                    ],
                )],
            ),
        ],
    )
}

#[test]
fn converts_a_valid_livesplit_file() {
    let file = convert_document(SAMPLE).ok().unwrap();
    assert_eq!(file.name, "Sonic Adventure 2");
    assert_eq!(file.category, "Fallen Hero");
    assert_eq!(file.icon, "");
    assert_eq!(file.attempt_count, 5);
    assert_eq!(file.finished_count, 2);
    assert_eq!(file.width, 60);
    assert_eq!(file.height, 80);
    assert_eq!(file.splits.len(), 2);
    assert_eq!(file.splits[0].title, "First");
    assert_eq!(file.splits[0].icon, "icons/first.png");
    assert_eq!(file.splits[1].title, "Second");
    assert_eq!(file.splits[1].icon, "");
}

#[test]
fn returns_an_error_for_invalid_xml() {
    match convert_document("<some invalid xml") {
        Err(ConversionError::InvalidXml(message)) => assert!(!message.is_empty()),
        _ => panic!("invalid XML must be refused"),
    }
}

#[test]
fn split_times_come_from_the_personal_best() {
    let file = convert_document(SAMPLE).ok().unwrap();
    assert_eq!(file.splits[0].time.real_time, "00:00:30.123456");
    assert_eq!(file.splits[0].time.game_time, "00:00:29.000000");
    assert_eq!(file.splits[1].time.real_time, "-");
    assert_eq!(file.splits[1].time.game_time, "-");
}

#[test]
fn best_segments_are_converted() {
    let file = convert_document(SAMPLE).ok().unwrap();
    assert_eq!(file.splits[0].best_segment.real_time, "00:00:28.000000");
    assert_eq!(file.splits[0].best_segment.game_time, "-");
    assert_eq!(file.splits[1].best_segment.real_time, "-");
}

#[test]
fn best_times_follow_attempts_through_the_segments() {
    let file = convert_document(SAMPLE).ok().unwrap();
    // first segment: attempts 1, 2, 3 at 31 s, 28 s and 29 s; attempt 2 alone has a game time
    assert_eq!(file.splits[0].best_time.real_time, "00:00:28.000000");
    assert_eq!(file.splits[0].best_time.game_time, "00:00:27.000000");
    // second segment: attempt 1 reaches 60 s, attempt 3 69 s; attempt 4 has no first segment
    assert_eq!(file.splits[1].best_time.real_time, "00:01:00.000000");
    assert_eq!(file.splits[1].best_time.game_time, "-");
}

#[test]
fn livesplit_header_is_read() {
    let lss = LiveSplitFile::new(&sample_root());
    assert_eq!(lss.game_name, "Sonic Adventure 2");
    assert_eq!(lss.category_name, "Unknown Category");
    assert_eq!(lss._platform, "Unknown Platform");
    assert_eq!(lss.attempt_count, 5);
    assert_eq!(lss.finished_count, 1);
    assert_eq!(lss.start_delay, "-00:00:01.500000");
    assert_eq!(lss.segments.len(), 1);
    assert_eq!(lss.segments[0].name, "Only");
    assert_eq!(lss.segments[0].best_time.real_time, "00:00:28.500000");
    assert_eq!(lss.segments[0].best_time.game_time, "-");
    assert_eq!(lss.segments[0].split_time.real_time, "-");
}

#[test]
fn namespaced_elements_are_not_read() {
    let mut root = sample_root();
    root.children[0].namespace = Some("urn:example".to_owned());
    let lss = LiveSplitFile::new(&root);
    assert_eq!(lss.game_name, "Unknown Game");
}

#[test]
fn missing_segments_give_one_placeholder_split() {
    let file = convert_document("<Run><GameName>G</GameName></Run>").ok().unwrap();
    assert_eq!(file.category, "Unknown Category");
    assert_eq!(file.attempt_count, 0);
    assert_eq!(file.finished_count, 0);
    assert_eq!(file.splits.len(), 1);
    assert_eq!(file.splits[0].title, "No Splits Provided");
    assert_eq!(file.splits[0].time.real_time, "-");
    assert_eq!(file.splits[0].best_time.game_time, "-");
}

#[test]
fn missing_header_elements_get_defaults() {
    let lss = LiveSplitFile::new(&element("Run", Some(""), vec![]));
    assert_eq!(lss.game_name, "Unknown Game");
    assert_eq!(lss.category_name, "Unknown Category");
    assert_eq!(lss.game_icon, "");
    assert_eq!(lss._platform, "Unknown Platform");
    assert_eq!(lss.attempt_count, 0);
    assert_eq!(lss.start_delay, "00:00:00.000000");
}

#[test]
fn header_with_child_elements_is_unreadable() {
    match convert_document("<Run><GameName>a<b/></GameName></Run>") {
        Err(ConversionError::Unreadable) => {}
        _ => panic!("a game name holding elements cannot be read"),
    }
}

#[test]
fn unreadable_attempt_counts_become_zero() {
    for count in ["-3", "abc", "4294967296", "", "+"] {
        let lss = LiveSplitFile::new(&element("Run", None, vec![text_element("AttemptCount", count)]));
        assert_eq!(lss.attempt_count, 0, "{count:?}");
    }
    let lss = LiveSplitFile::new(&element("Run", None, vec![text_element("AttemptCount", "+7")]));
    assert_eq!(lss.attempt_count, 7);
    let lss = LiveSplitFile::new(&element("Run", None, vec![text_element("AttemptCount", "4294967295")]));
    assert_eq!(lss.attempt_count, 4294967295);
}

#[test]
fn segments_without_names_are_unknown_splits() {
    let file = convert_document("<Run><Segments><Segment/><Other/><Segment><Name>B</Name></Segment></Segments></Run>")
        .ok()
        .unwrap();
    assert_eq!(file.splits.len(), 2);
    assert_eq!(file.splits[0].title, "Unknown Split");
    assert_eq!(file.splits[1].title, "B");
}

#[test]
fn finished_attempts_are_at_most_the_attempts() {
    let file = convert_document(SAMPLE).ok().unwrap();
    assert!(file.finished_count <= 4);
    let lss = LiveSplitFile::new(&element(
        "Run",
        None,
        vec![element(
            "AttemptHistory",
            None,
            vec![
                element("Attempt", None, vec![text_element("GameTime", "00:00:01")]),
                element("Other", None, vec![text_element("GameTime", "00:00:01")]),
                element("Attempt", None, vec![text_element("Note", "00:00:01")]),
            ],
        )],
    ));
    assert_eq!(lss.finished_count, 1);
}

#[test]
fn readability_is_checked_before_reading() {
    assert!(LiveSplitFile::is_readable(&sample_root()));
    let mixed = element("Run", None, vec![element("CategoryName", None, vec![text_element("b", "x")])]);
    assert!(!LiveSplitFile::is_readable(&mixed));
}
