//! The event stream the parser emits.
//!
//! Parsing produces a flat sequence of events: structural tag opens and
//! closes, typed attribute values, and non-fatal custom events.  Each tag
//! and attribute carries a stable one-byte code, part of the wire interface
//! between the parser and its host.

use vstd::prelude::*;

verus! {

use crate::values::AttrNum;
use crate::s_element::SegmentObject;

/// The kind of a custom event: reserved log messages, and parse errors.
#[derive(Debug, Clone, Copy, PartialEq, Eq, Structural)]
pub enum CustomEventType {
    /// Reserved for host-side logging; the parser core never produces it.
    Log,
    /// A non-fatal parsing error.
    Error,
}

impl CustomEventType {
    /// The stable one-byte wire code of this event kind.
    pub open spec fn spec_code(self) -> u8 {
        match self {
            CustomEventType::Log => 0,
            CustomEventType::Error => 1,
        }
    }

    /// The stable one-byte wire code of this event kind.
    pub fn code(self) -> (r: u8)
        ensures
            r == self.spec_code(),
    {
        match self {
            CustomEventType::Log => 0,
            CustomEventType::Error => 1,
        }
    }
}

/// A DASH element the parser recognises structurally.
///
/// Simpler elements have no entry here: they surface through
/// [`AttributeName`] instead.
#[derive(Debug, Clone, Copy, PartialEq, Eq, Structural)]
pub enum TagName {
    /// An `<MPD>` element, usually the document root.
    MPD,
    /// A `<Period>` element.
    Period,
    /// A `<UTCTiming>` element.
    UtcTiming,
    /// An `<AdaptationSet>` element.
    AdaptationSet,
    /// An `<EventStream>` element.
    EventStream,
    /// An `<Event>` element, child of an `<EventStream>`.
    EventStreamElt,
    /// A `<Representation>` element.
    Representation,
    /// An `<Accessibility>` element.
    Accessibility,
    /// A `<ContentComponent>` element.
    ContentComponent,
    /// A `<ContentProtection>` element.
    ContentProtection,
    /// An `<EssentialProperty>` element.
    EssentialProperty,
    /// A `<Role>` element.
    Role,
    /// A `<SupplementalProperty>` element.
    SupplementalProperty,
    /// A `<BaseURL>` element.
    BaseURL,
    /// A `<SegmentTemplate>` element.
    SegmentTemplate,
    /// A `<SegmentBase>` element.
    SegmentBase,
    /// A `<SegmentList>` element.
    SegmentList,
    /// An `<InbandEventStream>` element.
    InbandEventStream,
    /// A `<SegmentURL>` element.
    SegmentUrl,
}

impl TagName {
    /// The stable one-byte wire code of this tag.
    pub open spec fn spec_code(self) -> u8 {
        match self {
            TagName::MPD => 1,
            TagName::Period => 2,
            TagName::UtcTiming => 3,
            TagName::AdaptationSet => 4,
            TagName::EventStream => 5,
            TagName::EventStreamElt => 6,
            TagName::Representation => 7,
            TagName::Accessibility => 8,
            TagName::ContentComponent => 9,
            TagName::ContentProtection => 10,
            TagName::EssentialProperty => 11,
            TagName::Role => 12,
            TagName::SupplementalProperty => 13,
            TagName::BaseURL => 15,
            TagName::SegmentTemplate => 16,
            TagName::SegmentBase => 17,
            TagName::SegmentList => 18,
            TagName::InbandEventStream => 19,
            TagName::SegmentUrl => 20,
        }
    }

    /// The stable one-byte wire code of this tag.
    pub fn code(self) -> (r: u8)
        ensures
            r == self.spec_code(),
    {
        match self {
            TagName::MPD => 1,
            TagName::Period => 2,
            TagName::UtcTiming => 3,
            TagName::AdaptationSet => 4,
            TagName::EventStream => 5,
            TagName::EventStreamElt => 6,
            TagName::Representation => 7,
            TagName::Accessibility => 8,
            TagName::ContentComponent => 9,
            TagName::ContentProtection => 10,
            TagName::EssentialProperty => 11,
            TagName::Role => 12,
            TagName::SupplementalProperty => 13,
            TagName::BaseURL => 15,
            TagName::SegmentTemplate => 16,
            TagName::SegmentBase => 17,
            TagName::SegmentList => 18,
            TagName::InbandEventStream => 19,
            TagName::SegmentUrl => 20,
        }
    }
}

/// A semantic attribute the parser projects, with its stable wire code.
#[derive(Debug, Clone, Copy, PartialEq, Eq, Structural)]
pub enum AttributeName {
    Id,
    Duration,
    Profiles,
    AudioSamplingRate,
    Codecs,
    CodingDependency,
    FrameRate,
    Height,
    Width,
    MaxPlayoutRate,
    MaxSAPPeriod,
    MimeType,
    SegmentProfiles,
    ContentProtectionValue,
    ContentProtectionKeyId,
    ContentProtectionCencPSSH,
    SchemeIdUri,
    SchemeValue,
    MediaRange,
    SegmentTimeline,
    StartNumber,
    AvailabilityTimeComplete,
    IndexRangeExact,
    PresentationTimeOffset,
    EventPresentationTime,
    TimeScale,
    Index,
    InitializationRange,
    Media,
    IndexRange,
    BitstreamSwitching,
    Type,
    AvailabilityStartTime,
    AvailabilityEndTime,
    PublishTime,
    MinimumUpdatePeriod,
    MinBufferTime,
    TimeShiftBufferDepth,
    SuggestedPresentationDelay,
    MaxSegmentDuration,
    MaxSubsegmentDuration,
    AvailabilityTimeOffset,
    Start,
    XLinkHref,
    XLinkActuate,
    Group,
    MaxBandwidth,
    MaxFrameRate,
    MaxHeight,
    MaxWidth,
    MinBandwidth,
    MinFrameRate,
    MinHeight,
    MinWidth,
    SelectionPriority,
    SegmentAlignment,
    SubsegmentAlignment,
    Language,
    ContentType,
    Par,
    Bitrate,
    Text,
    QualityRanking,
    Location,
    InitializationMedia,
    MediaPresentationDuration,
    EventStreamEltRange,
    Namespace,
    Label,
    /// The re-serialised XML of a whole `<Event>` element.
    EventStreamEvent,
}

impl AttributeName {
    /// The stable one-byte wire code of this attribute.
    pub open spec fn spec_code(self) -> u8 {
        match self {
            AttributeName::Id => 0,
            AttributeName::Duration => 1,
            AttributeName::Profiles => 2,
            AttributeName::AudioSamplingRate => 3,
            AttributeName::Codecs => 4,
            AttributeName::CodingDependency => 5,
            AttributeName::FrameRate => 6,
            AttributeName::Height => 7,
            AttributeName::Width => 8,
            AttributeName::MaxPlayoutRate => 9,
            AttributeName::MaxSAPPeriod => 10,
            AttributeName::MimeType => 11,
            AttributeName::SegmentProfiles => 12,
            AttributeName::ContentProtectionValue => 13,
            AttributeName::ContentProtectionKeyId => 14,
            AttributeName::ContentProtectionCencPSSH => 15,
            AttributeName::SchemeIdUri => 16,
            AttributeName::SchemeValue => 17,
            AttributeName::MediaRange => 18,
            AttributeName::SegmentTimeline => 19,
            AttributeName::StartNumber => 20,
            AttributeName::AvailabilityTimeComplete => 22,
            AttributeName::IndexRangeExact => 23,
            AttributeName::PresentationTimeOffset => 24,
            AttributeName::EventPresentationTime => 25,
            AttributeName::TimeScale => 27,
            AttributeName::Index => 28,
            AttributeName::InitializationRange => 29,
            AttributeName::Media => 30,
            AttributeName::IndexRange => 31,
            AttributeName::BitstreamSwitching => 32,
            AttributeName::Type => 33,
            AttributeName::AvailabilityStartTime => 34,
            AttributeName::AvailabilityEndTime => 35,
            AttributeName::PublishTime => 36,
            AttributeName::MinimumUpdatePeriod => 37,
            AttributeName::MinBufferTime => 38,
            AttributeName::TimeShiftBufferDepth => 39,
            AttributeName::SuggestedPresentationDelay => 40,
            AttributeName::MaxSegmentDuration => 41,
            AttributeName::MaxSubsegmentDuration => 42,
            AttributeName::AvailabilityTimeOffset => 43,
            AttributeName::Start => 45,
            AttributeName::XLinkHref => 46,
            AttributeName::XLinkActuate => 47,
            AttributeName::Group => 48,
            AttributeName::MaxBandwidth => 49,
            AttributeName::MaxFrameRate => 50,
            AttributeName::MaxHeight => 51,
            AttributeName::MaxWidth => 52,
            AttributeName::MinBandwidth => 53,
            AttributeName::MinFrameRate => 54,
            AttributeName::MinHeight => 55,
            AttributeName::MinWidth => 56,
            AttributeName::SelectionPriority => 57,
            AttributeName::SegmentAlignment => 58,
            AttributeName::SubsegmentAlignment => 59,
            AttributeName::Language => 60,
            AttributeName::ContentType => 61,
            AttributeName::Par => 62,
            AttributeName::Bitrate => 63,
            AttributeName::Text => 64,
            AttributeName::QualityRanking => 65,
            AttributeName::Location => 66,
            AttributeName::InitializationMedia => 67,
            AttributeName::MediaPresentationDuration => 68,
            AttributeName::EventStreamEltRange => 69,
            AttributeName::Namespace => 70,
            AttributeName::Label => 71,
            AttributeName::EventStreamEvent => 72,
        }
    }

    /// The stable one-byte wire code of this attribute.
    pub fn code(self) -> (r: u8)
        ensures
            r == self.spec_code(),
    {
        match self {
            AttributeName::Id => 0,
            AttributeName::Duration => 1,
            AttributeName::Profiles => 2,
            AttributeName::AudioSamplingRate => 3,
            AttributeName::Codecs => 4,
            AttributeName::CodingDependency => 5,
            AttributeName::FrameRate => 6,
            AttributeName::Height => 7,
            AttributeName::Width => 8,
            AttributeName::MaxPlayoutRate => 9,
            AttributeName::MaxSAPPeriod => 10,
            AttributeName::MimeType => 11,
            AttributeName::SegmentProfiles => 12,
            AttributeName::ContentProtectionValue => 13,
            AttributeName::ContentProtectionKeyId => 14,
            AttributeName::ContentProtectionCencPSSH => 15,
            AttributeName::SchemeIdUri => 16,
            AttributeName::SchemeValue => 17,
            AttributeName::MediaRange => 18,
            AttributeName::SegmentTimeline => 19,
            AttributeName::StartNumber => 20,
            AttributeName::AvailabilityTimeComplete => 22,
            AttributeName::IndexRangeExact => 23,
            AttributeName::PresentationTimeOffset => 24,
            AttributeName::EventPresentationTime => 25,
            AttributeName::TimeScale => 27,
            AttributeName::Index => 28,
            AttributeName::InitializationRange => 29,
            AttributeName::Media => 30,
            AttributeName::IndexRange => 31,
            AttributeName::BitstreamSwitching => 32,
            AttributeName::Type => 33,
            AttributeName::AvailabilityStartTime => 34,
            AttributeName::AvailabilityEndTime => 35,
            AttributeName::PublishTime => 36,
            AttributeName::MinimumUpdatePeriod => 37,
            AttributeName::MinBufferTime => 38,
            AttributeName::TimeShiftBufferDepth => 39,
            AttributeName::SuggestedPresentationDelay => 40,
            AttributeName::MaxSegmentDuration => 41,
            AttributeName::MaxSubsegmentDuration => 42,
            AttributeName::AvailabilityTimeOffset => 43,
            AttributeName::Start => 45,
            AttributeName::XLinkHref => 46,
            AttributeName::XLinkActuate => 47,
            AttributeName::Group => 48,
            AttributeName::MaxBandwidth => 49,
            AttributeName::MaxFrameRate => 50,
            AttributeName::MaxHeight => 51,
            AttributeName::MaxWidth => 52,
            AttributeName::MinBandwidth => 53,
            AttributeName::MinFrameRate => 54,
            AttributeName::MinHeight => 55,
            AttributeName::MinWidth => 56,
            AttributeName::SelectionPriority => 57,
            AttributeName::SegmentAlignment => 58,
            AttributeName::SubsegmentAlignment => 59,
            AttributeName::Language => 60,
            AttributeName::ContentType => 61,
            AttributeName::Par => 62,
            AttributeName::Bitrate => 63,
            AttributeName::Text => 64,
            AttributeName::QualityRanking => 65,
            AttributeName::Location => 66,
            AttributeName::InitializationMedia => 67,
            AttributeName::MediaPresentationDuration => 68,
            AttributeName::EventStreamEltRange => 69,
            AttributeName::Namespace => 70,
            AttributeName::Label => 71,
            AttributeName::EventStreamEvent => 72,
        }
    }
}

/// A typed attribute value, exactly as the parser derived it.
#[derive(Debug, Clone, PartialEq, Eq)]
pub enum AttrValue {
    /// Raw UTF-8 bytes (strings and opaque payloads).
    Bytes(Vec<u8>),
    /// A number on the universal numeric channel.
    Num(AttrNum),
    /// A pair of integers (byte ranges).
    Pair(u64, u64),
    /// A boolean flag.
    Flag(bool),
    /// The `<S>` entries of one `<SegmentTimeline>`.
    Segments(Vec<SegmentObject>),
    /// An XML namespace binding: key (after `xmlns:`) and value.
    Framed(Vec<u8>, Vec<u8>),
}

/// The mathematical shadow of [`AttrValue`].
pub enum ValView {
    Bytes(Seq<u8>),
    Num(AttrNum),
    Pair(u64, u64),
    Flag(bool),
    Segments(Seq<SegmentObject>),
    Framed(Seq<u8>, Seq<u8>),
}

impl View for AttrValue {
    type V = ValView;

    open spec fn view(&self) -> ValView {
        match self {
            AttrValue::Bytes(b) => ValView::Bytes(b@),
            AttrValue::Num(n) => ValView::Num(*n),
            AttrValue::Pair(a, b) => ValView::Pair(*a, *b),
            AttrValue::Flag(f) => ValView::Flag(*f),
            AttrValue::Segments(s) => ValView::Segments(s@),
            AttrValue::Framed(k, v) => ValView::Framed(k@, v@),
        }
    }
}

/// One event of the parser's output stream.
#[derive(Debug, Clone, PartialEq, Eq)]
pub enum ParserEvent {
    /// A recognised element opened.
    TagOpen(TagName),
    /// A recognised element closed.
    TagClose(TagName),
    /// A typed attribute of the most recently opened element.
    Attribute(AttributeName, AttrValue),
    /// A custom event; the payload of an error is its message.
    CustomEvent(CustomEventType, String),
}

/// The mathematical shadow of [`ParserEvent`].
pub enum EventView {
    Open(TagName),
    Close(TagName),
    Attr(AttributeName, ValView),
    Custom(CustomEventType, Seq<char>),
}

impl View for ParserEvent {
    type V = EventView;

    open spec fn view(&self) -> EventView {
        match self {
            ParserEvent::TagOpen(t) => EventView::Open(*t),
            ParserEvent::TagClose(t) => EventView::Close(*t),
            ParserEvent::Attribute(a, v) => EventView::Attr(*a, v@),
            ParserEvent::CustomEvent(k, m) => EventView::Custom(*k, m@),
        }
    }
}

/// The view of a whole event sequence.
pub open spec fn events_view(s: Seq<ParserEvent>) -> Seq<EventView> {
    s.map_values(|e: ParserEvent| e@)
}

/// Pushing one event appends its view.
pub proof fn lemma_events_view_push(a: Seq<ParserEvent>, e: ParserEvent)
    ensures
        events_view(a.push(e)) == events_view(a).push(e@),
{
    assert(events_view(a.push(e)) =~= events_view(a).push(e@));
}

} // verus!
