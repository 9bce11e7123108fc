// End-to-end behaviour of the streaming processor: the concrete event
// scenarios, chunked resumption, verbatim capture and namespace framing.

use mpd_parser::attributes::report_adaptation_set_attrs;
use mpd_parser::events::{
    AttrValue, AttributeName, CustomEventType, ParserEvent, TagName,
};
use mpd_parser::reportable::ReportableAttribute;
use mpd_parser::xml::XmlAttr;
use mpd_parser::processor::{step, MPDProcessor, MPDProcessorState};
use mpd_parser::reportable::{decode_key_value, frame_key_value};
use mpd_parser::s_element::SegmentObject;
use mpd_parser::values::{AttrNum, Ratio};
use mpd_parser::xml::Token;

fn parse_all(doc: &[u8]) -> Vec<ParserEvent> {
    let mut p = MPDProcessor::new();
    p.feed(doc);
    p.continue_parsing();
    p.take_events()
}

fn whole(n: u128) -> AttrValue {
    AttrValue::Num(AttrNum::Fin(Ratio { neg: false, num: n, den: 1 }))
}

fn bytes(s: &str) -> AttrValue {
    AttrValue::Bytes(s.as_bytes().to_vec())
}

#[test]
fn mpd_and_period_scenario() {
    let events = parse_all(
        b"<MPD type=\"dynamic\" minimumUpdatePeriod=\"PT5S\">\
          <Period id=\"p0\" duration=\"PT10S\"/></MPD>",
    );
    assert_eq!(
        events,
        vec![
            ParserEvent::TagOpen(TagName::MPD),
            ParserEvent::Attribute(AttributeName::Type, bytes("dynamic")),
            ParserEvent::Attribute(AttributeName::MinimumUpdatePeriod, whole(5)),
            ParserEvent::TagOpen(TagName::Period),
            ParserEvent::Attribute(AttributeName::Id, bytes("p0")),
            ParserEvent::Attribute(AttributeName::Duration, whole(10)),
            ParserEvent::TagClose(TagName::Period),
            ParserEvent::TagClose(TagName::MPD),
        ]
    );
}

#[test]
fn segment_timeline_accumulates_start_times() {
    let events = parse_all(
        b"<SegmentTimeline><S t=\"0\" d=\"10\" r=\"2\"/><S d=\"5\"/></SegmentTimeline>",
    );
    assert_eq!(
        events,
        vec![ParserEvent::Attribute(
            AttributeName::SegmentTimeline,
            AttrValue::Segments(vec![
                SegmentObject { start: 0, duration: 10, repeat_count: 2 },
                SegmentObject { start: 30, duration: 5, repeat_count: 0 },
            ]),
        )]
    );
}

#[test]
fn availability_time_offset_inf_sentinel() {
    let events = parse_all(b"<AdaptationSet availabilityTimeOffset=\"INF\"/>");
    assert_eq!(
        events,
        vec![
            ParserEvent::TagOpen(TagName::AdaptationSet),
            ParserEvent::Attribute(
                AttributeName::AvailabilityTimeOffset,
                AttrValue::Num(AttrNum::PosInf),
            ),
            ParserEvent::TagClose(TagName::AdaptationSet),
        ]
    );
}

#[test]
fn segment_alignment_bool_or_number() {
    let events = parse_all(b"<AdaptationSet segmentAlignment=\"true\"/>");
    assert_eq!(
        events[1],
        ParserEvent::Attribute(
            AttributeName::SegmentAlignment,
            AttrValue::Num(AttrNum::PosInf),
        )
    );
    let events = parse_all(b"<AdaptationSet segmentAlignment=\"3\"/>");
    assert_eq!(
        events[1],
        ParserEvent::Attribute(AttributeName::SegmentAlignment, whole(3))
    );
}

#[test]
fn namespaces_are_framed() {
    let events = parse_all(b"<MPD xmlns:scte=\"urn:scte:scte35:2013\"></MPD>");
    assert_eq!(
        events,
        vec![
            ParserEvent::TagOpen(TagName::MPD),
            ParserEvent::Attribute(
                AttributeName::Namespace,
                AttrValue::Framed(b"scte".to_vec(), b"urn:scte:scte35:2013".to_vec()),
            ),
            ParserEvent::TagClose(TagName::MPD),
        ]
    );
}

#[test]
fn namespace_framing_round_trip() {
    let framed = frame_key_value(b"scte", b"urn:scte:scte35:2013");
    // 4-byte big-endian key length, key, 4-byte value length, value
    assert_eq!(&framed[0..4], &[0, 0, 0, 4]);
    assert_eq!(&framed[4..8], b"scte");
    let (key, value) = decode_key_value(&framed).unwrap();
    assert_eq!(key, b"scte".to_vec());
    assert_eq!(value, b"urn:scte:scte35:2013".to_vec());
    assert!(decode_key_value(b"\x00\x00\x00\x09ab").is_none());
}

#[test]
fn event_stream_capture_is_verbatim() {
    let events = parse_all(
        b"<EventStream schemeIdUri=\"urn:x\">\
          <Event id=\"e1\" presentationTime=\"100\" duration=\"5\"><Body/></Event>\
          </EventStream>",
    );
    assert_eq!(
        events,
        vec![
            ParserEvent::TagOpen(TagName::EventStream),
            ParserEvent::Attribute(AttributeName::SchemeIdUri, bytes("urn:x")),
            ParserEvent::TagOpen(TagName::EventStreamElt),
            ParserEvent::Attribute(AttributeName::Id, bytes("e1")),
            ParserEvent::Attribute(AttributeName::EventPresentationTime, whole(100)),
            ParserEvent::Attribute(AttributeName::Duration, whole(5)),
            ParserEvent::Attribute(
                AttributeName::EventStreamEvent,
                bytes("<Event id=\"e1\" presentationTime=\"100\" duration=\"5\"><Body/></Event>"),
            ),
            ParserEvent::TagClose(TagName::EventStreamElt),
            ParserEvent::TagClose(TagName::EventStream),
        ]
    );
}

#[test]
fn chunked_parsing_equals_single_shot() {
    let doc: &[u8] = b"<MPD type=\"static\"><Period id=\"p0\"><BaseURL>http://a/&amp;b</BaseURL>\
        <SegmentTimeline><S t=\"3\" d=\"4\"/><S d=\"6\" r=\"1\"/></SegmentTimeline>\
        </Period></MPD>";
    let expected = parse_all(doc);
    assert!(!expected.is_empty());
    for split in 0..doc.len() {
        let mut p = MPDProcessor::new();
        p.feed(&doc[..split]);
        p.continue_parsing();
        let mut events = p.take_events();
        p.feed(&doc[split..]);
        p.continue_parsing();
        events.extend(p.take_events());
        assert_eq!(events, expected, "split at byte {split}");
    }
}

#[test]
fn base_url_text_is_unescaped() {
    let events = parse_all(b"<BaseURL>http://a/&amp;b</BaseURL>");
    assert_eq!(
        events,
        vec![
            ParserEvent::TagOpen(TagName::BaseURL),
            ParserEvent::Attribute(AttributeName::Text, bytes("http://a/&b")),
            ParserEvent::TagClose(TagName::BaseURL),
        ]
    );
}

#[test]
fn location_and_pssh_are_attribute_leaves() {
    let events = parse_all(b"<Location>http://example/manifest.mpd</Location>");
    assert_eq!(
        events,
        vec![ParserEvent::Attribute(
            AttributeName::Location,
            bytes("http://example/manifest.mpd"),
        )]
    );
    let events = parse_all(b"<cenc:pssh>AAAAbnBzc2g=</cenc:pssh>");
    assert_eq!(
        events,
        vec![ParserEvent::Attribute(
            AttributeName::ContentProtectionCencPSSH,
            bytes("AAAAbnBzc2g="),
        )]
    );
}

#[test]
fn empty_input_emits_nothing() {
    let events = parse_all(b"");
    assert!(events.is_empty());
}

#[test]
fn suspension_keeps_state_across_midtag_cut() {
    let mut p = MPDProcessor::new();
    p.feed(b"<Period id=\"p0\"></Peri");
    p.continue_parsing();
    let first = p.take_events();
    assert_eq!(
        first,
        vec![
            ParserEvent::TagOpen(TagName::Period),
            ParserEvent::Attribute(AttributeName::Id, bytes("p0")),
        ]
    );
    p.feed(b"od>");
    p.continue_parsing();
    assert_eq!(p.take_events(), vec![ParserEvent::TagClose(TagName::Period)]);
}

#[test]
fn malformed_attribute_does_not_suppress_siblings() {
    let events = parse_all(b"<Period duration=\"bogus\" id=\"p1\"></Period>");
    assert_eq!(events.len(), 4);
    assert_eq!(events[0], ParserEvent::TagOpen(TagName::Period));
    assert!(matches!(
        events[1],
        ParserEvent::CustomEvent(CustomEventType::Error, _)
    ));
    assert_eq!(events[2], ParserEvent::Attribute(AttributeName::Id, bytes("p1")));
    assert_eq!(events[3], ParserEvent::TagClose(TagName::Period));
}

#[test]
fn nested_same_name_tags_do_not_close_outer_scope() {
    let events = parse_all(
        b"<BaseURL><BaseURL>inner</BaseURL>outer</BaseURL><MPD></MPD>",
    );
    assert_eq!(
        events,
        vec![
            ParserEvent::TagOpen(TagName::BaseURL),
            ParserEvent::Attribute(AttributeName::Text, bytes("inner")),
            ParserEvent::Attribute(AttributeName::Text, bytes("outer")),
            ParserEvent::TagClose(TagName::BaseURL),
            ParserEvent::TagOpen(TagName::MPD),
            ParserEvent::TagClose(TagName::MPD),
        ]
    );
}

#[test]
fn fault_token_reports_and_recovers() {
    let mut out: Vec<ParserEvent> = Vec::new();
    let st = step(
        MPDProcessorState::EventStream { inner_tags: 0 },
        Token::Fault { msg: String::from("boom") },
        &mut out,
    );
    assert_eq!(st, MPDProcessorState::Main);
    assert_eq!(
        out,
        vec![ParserEvent::CustomEvent(CustomEventType::Error, String::from("boom"))]
    );
}

#[test]
fn eof_token_is_the_identity_step() {
    let mut out: Vec<ParserEvent> = Vec::new();
    let st = step(
        MPDProcessorState::Location { inner_tags: 3 },
        Token::Eof,
        &mut out,
    );
    assert_eq!(st, MPDProcessorState::Location { inner_tags: 3 });
    assert!(out.is_empty());
}

#[test]
fn wire_codes_are_stable() {
    assert_eq!(TagName::MPD.code(), 1);
    assert_eq!(TagName::SegmentUrl.code(), 20);
    assert_eq!(AttributeName::Id.code(), 0);
    assert_eq!(AttributeName::Namespace.code(), 70);
    assert_eq!(AttributeName::Label.code(), 71);
    assert_eq!(CustomEventType::Log.code(), 0);
    assert_eq!(CustomEventType::Error.code(), 1);
}

#[test]
fn comments_and_instructions_are_ignored_outside_captures() {
    let events = parse_all(
        b"<?xml version=\"1.0\"?><!-- hello --><MPD></MPD>",
    );
    assert_eq!(
        events,
        vec![
            ParserEvent::TagOpen(TagName::MPD),
            ParserEvent::TagClose(TagName::MPD),
        ]
    );
}

#[test]
fn dispatchers_take_plain_attribute_lists() {
    let attrs = vec![
        XmlAttr::Pair { name: b"maxFrameRate".to_vec(), value: b"30000/1001".to_vec() },
        XmlAttr::Pair { name: b"unknownThing".to_vec(), value: b"1".to_vec() },
        XmlAttr::Pair { name: b"codingDependency".to_vec(), value: b"false".to_vec() },
        XmlAttr::Broken(String::from("attribute without value")),
    ];
    let mut out: Vec<ParserEvent> = Vec::new();
    report_adaptation_set_attrs(&attrs, &mut out);
    assert_eq!(
        out,
        vec![
            ParserEvent::Attribute(
                AttributeName::MaxFrameRate,
                AttrValue::Num(AttrNum::Fin(Ratio { neg: false, num: 30000, den: 1001 })),
            ),
            ParserEvent::Attribute(AttributeName::CodingDependency, AttrValue::Flag(false)),
            ParserEvent::CustomEvent(
                CustomEventType::Error,
                String::from("attribute without value"),
            ),
        ]
    );
}

#[test]
fn reporting_values_appends_attribute_events() {
    let mut out: Vec<ParserEvent> = Vec::new();
    AttributeName::IndexRangeExact.report(&true, &mut out);
    (0u64, 99u64).report_as_attr(AttributeName::IndexRange, &mut out);
    assert_eq!(
        out,
        vec![
            ParserEvent::Attribute(AttributeName::IndexRangeExact, AttrValue::Flag(true)),
            ParserEvent::Attribute(AttributeName::IndexRange, AttrValue::Pair(0, 99)),
        ]
    );
}

#[test]
fn availability_time_offset_inf_applies_on_mpd_too() {
    let events = parse_all(b"<MPD availabilityTimeOffset=\"INF\"></MPD>");
    assert_eq!(
        events,
        vec![
            ParserEvent::TagOpen(TagName::MPD),
            ParserEvent::Attribute(
                AttributeName::AvailabilityTimeOffset,
                AttrValue::Num(AttrNum::PosInf),
            ),
            ParserEvent::TagClose(TagName::MPD),
        ]
    );
}
