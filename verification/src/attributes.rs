//! Attribute dispatch.
//!
//! One table per DASH element maps recognised attribute names to a typed
//! conversion; unrecognised attributes are ignored, and a malformed value
//! is reported as a non-fatal error without touching its sibling
//! attributes.  All dispatchers run through one verified engine.

use vstd::prelude::*;

verus! {

use vstd::string::StringExecFns;
use vstd::string::StringSliceAdditionalSpecFns;
use crate::events::{
    events_view, AttrValue, AttributeName, CustomEventType, EventView, ParserEvent, ValView,
};
use crate::utils;
use crate::values::{AttrNum, Ratio};
use crate::xml::{attrs_view, AttrView, XmlAttr};

/// The DASH element whose attributes are being dispatched.
#[derive(Debug, Clone, Copy, PartialEq, Eq, Structural)]
pub enum ElementKind {
    Mpd,
    Period,
    AdaptationSet,
    Representation,
    BaseUrl,
    SegmentTemplate,
    SegmentBase,
    ContentComponent,
    ContentProtection,
    Initialization,
    Scheme,
    SegmentUrl,
    EventStream,
    EventStreamEvent,
}

/// What to do with one recognised attribute.
#[derive(Debug, Clone, Copy, PartialEq, Eq, Structural)]
pub enum AttrAction {
    /// Not in this element's table.
    Ignore,
    /// Unescape and report as string bytes.
    Str(AttributeName),
    /// Parse as a decimal number.
    AsF64(AttributeName),
    /// Parse as an ISO 8601 duration in seconds.
    Iso(AttributeName),
    /// Parse as a decimal integer.
    AsU64(AttributeName),
    /// Parse as a boolean or an integer (infinity sentinels).
    U64OrBool(AttributeName),
    /// Parse as a boolean flag.
    AsBool(AttributeName),
    /// Parse as a `start-end` byte range.
    Range(AttributeName),
    /// Parse as a number or an `a/b` fraction.
    MaybeDiv(AttributeName),
    /// The literal `INF` means plus infinity, anything else is an integer.
    AtoInf(AttributeName),
    /// An `xmlns:` namespace binding.
    Ns,
}

/// The error message for a value that cannot be unescaped.
pub open spec fn msg_unescape() -> Seq<char> {
    "could not unescape attribute value"@
}

/// The error message for an unparsable attribute value.
pub open spec fn msg_value() -> Seq<char> {
    "invalid attribute value"@
}

/// Does `name` start with `xmlns:` and carry a non-empty key?
pub open spec fn is_ns_name(name: Seq<u8>) -> bool {
    name.len() > ("xmlns:").spec_bytes().len() && name.subrange(
        0,
        ("xmlns:").spec_bytes().len() as int,
    ) == ("xmlns:").spec_bytes()
}

/// The namespace key: everything after `xmlns:`.
pub open spec fn ns_key(name: Seq<u8>) -> Seq<u8> {
    name.skip(("xmlns:").spec_bytes().len() as int)
}

/// The attribute table: the action an element takes for an attribute name.
pub open spec fn rule_of(elem: ElementKind, name: Seq<u8>) -> AttrAction {
    match elem {
        ElementKind::Mpd => {
            if name == ("id").spec_bytes() {
                AttrAction::Str(AttributeName::Id)
            } else if name == ("profiles").spec_bytes() {
                AttrAction::Str(AttributeName::Profiles)
            } else if name == ("type").spec_bytes() {
                AttrAction::Str(AttributeName::Type)
            } else if name == ("availabilityStartTime").spec_bytes() {
                AttrAction::Str(AttributeName::AvailabilityStartTime)
            } else if name == ("availabilityEndTime").spec_bytes() {
                AttrAction::Str(AttributeName::AvailabilityEndTime)
            } else if name == ("publishTime").spec_bytes() {
                AttrAction::Str(AttributeName::PublishTime)
            } else if name == ("mediaPresentationDuration").spec_bytes() {
                AttrAction::Iso(AttributeName::MediaPresentationDuration)
            } else if name == ("minimumUpdatePeriod").spec_bytes() {
                AttrAction::Iso(AttributeName::MinimumUpdatePeriod)
            } else if name == ("minBufferTime").spec_bytes() {
                AttrAction::Iso(AttributeName::MinBufferTime)
            } else if name == ("timeShiftBufferDepth").spec_bytes() {
                AttrAction::Iso(AttributeName::TimeShiftBufferDepth)
            } else if name == ("suggestedPresentationDelay").spec_bytes() {
                AttrAction::Iso(AttributeName::SuggestedPresentationDelay)
            } else if name == ("maxSegmentDuration").spec_bytes() {
                AttrAction::Iso(AttributeName::MaxSegmentDuration)
            } else if name == ("maxSubsegmentDuration").spec_bytes() {
                AttrAction::Iso(AttributeName::MaxSubsegmentDuration)
            } else if name == ("availabilityTimeOffset").spec_bytes() {
                AttrAction::AtoInf(AttributeName::AvailabilityTimeOffset)
            } else if is_ns_name(name) {
                AttrAction::Ns
            } else {
                AttrAction::Ignore
            }
        },
        ElementKind::Period => {
            if name == ("id").spec_bytes() {
                AttrAction::Str(AttributeName::Id)
            } else if name == ("start").spec_bytes() {
                AttrAction::Iso(AttributeName::Start)
            } else if name == ("duration").spec_bytes() {
                AttrAction::Iso(AttributeName::Duration)
            } else if name == ("bitstreamSwitching").spec_bytes() {
                AttrAction::AsBool(AttributeName::BitstreamSwitching)
            } else if name == ("availabilityTimeOffset").spec_bytes() {
                AttrAction::AtoInf(AttributeName::AvailabilityTimeOffset)
            } else if name == ("xlink:href").spec_bytes() {
                AttrAction::Str(AttributeName::XLinkHref)
            } else if name == ("xlink:actuate").spec_bytes() {
                AttrAction::Str(AttributeName::XLinkActuate)
            } else if is_ns_name(name) {
                AttrAction::Ns
            } else {
                AttrAction::Ignore
            }
        },
        ElementKind::AdaptationSet => {
            if name == ("id").spec_bytes() {
                AttrAction::Str(AttributeName::Id)
            } else if name == ("group").spec_bytes() {
                AttrAction::AsU64(AttributeName::Group)
            } else if name == ("lang").spec_bytes() {
                AttrAction::Str(AttributeName::Language)
            } else if name == ("contentType").spec_bytes() {
                AttrAction::Str(AttributeName::ContentType)
            } else if name == ("par").spec_bytes() {
                AttrAction::Str(AttributeName::Par)
            } else if name == ("minBandwidth").spec_bytes() {
                AttrAction::AsU64(AttributeName::MinBandwidth)
            } else if name == ("maxBandwidth").spec_bytes() {
                AttrAction::AsU64(AttributeName::MaxBandwidth)
            } else if name == ("minWidth").spec_bytes() {
                AttrAction::AsU64(AttributeName::MinWidth)
            } else if name == ("maxWidth").spec_bytes() {
                AttrAction::AsU64(AttributeName::MaxWidth)
            } else if name == ("minHeight").spec_bytes() {
                AttrAction::AsU64(AttributeName::MinHeight)
            } else if name == ("maxHeight").spec_bytes() {
                AttrAction::AsU64(AttributeName::MaxHeight)
            } else if name == ("minFrameRate").spec_bytes() {
                AttrAction::MaybeDiv(AttributeName::MinFrameRate)
            } else if name == ("maxFrameRate").spec_bytes() {
                AttrAction::MaybeDiv(AttributeName::MaxFrameRate)
            } else if name == ("selectionPriority").spec_bytes() {
                AttrAction::AsU64(AttributeName::SelectionPriority)
            } else if name == ("segmentAlignment").spec_bytes() {
                AttrAction::U64OrBool(AttributeName::SegmentAlignment)
            } else if name == ("subsegmentAlignment").spec_bytes() {
                AttrAction::U64OrBool(AttributeName::SubsegmentAlignment)
            } else if name == ("bitstreamSwitching").spec_bytes() {
                AttrAction::AsBool(AttributeName::BitstreamSwitching)
            } else if name == ("audioSamplingRate").spec_bytes() {
                AttrAction::Str(AttributeName::AudioSamplingRate)
            } else if name == ("codecs").spec_bytes() {
                AttrAction::Str(AttributeName::Codecs)
            } else if name == ("profiles").spec_bytes() {
                AttrAction::Str(AttributeName::Profiles)
            } else if name == ("segmentProfiles").spec_bytes() {
                AttrAction::Str(AttributeName::SegmentProfiles)
            } else if name == ("mimeType").spec_bytes() {
                AttrAction::Str(AttributeName::MimeType)
            } else if name == ("codingDependency").spec_bytes() {
                AttrAction::AsBool(AttributeName::CodingDependency)
            } else if name == ("frameRate").spec_bytes() {
                AttrAction::MaybeDiv(AttributeName::FrameRate)
            } else if name == ("height").spec_bytes() {
                AttrAction::AsU64(AttributeName::Height)
            } else if name == ("width").spec_bytes() {
                AttrAction::AsU64(AttributeName::Width)
            } else if name == ("maxPlayoutRate").spec_bytes() {
                AttrAction::AsF64(AttributeName::MaxPlayoutRate)
            } else if name == ("maxSAPPeriod").spec_bytes() {
                AttrAction::AsF64(AttributeName::MaxSAPPeriod)
            } else if name == ("availabilityTimeOffset").spec_bytes() {
                AttrAction::AtoInf(AttributeName::AvailabilityTimeOffset)
            } else if name == ("availabilityTimeComplete").spec_bytes() {
                AttrAction::AsBool(AttributeName::AvailabilityTimeComplete)
            } else {
                AttrAction::Ignore
            }
        },
        ElementKind::Representation => {
            if name == ("id").spec_bytes() {
                AttrAction::Str(AttributeName::Id)
            } else if name == ("audioSamplingRate").spec_bytes() {
                AttrAction::Str(AttributeName::AudioSamplingRate)
            } else if name == ("bandwidth").spec_bytes() {
                AttrAction::AsU64(AttributeName::Bitrate)
            } else if name == ("codecs").spec_bytes() {
                AttrAction::Str(AttributeName::Codecs)
            } else if name == ("codingDependency").spec_bytes() {
                AttrAction::AsBool(AttributeName::CodingDependency)
            } else if name == ("frameRate").spec_bytes() {
                AttrAction::MaybeDiv(AttributeName::FrameRate)
            } else if name == ("height").spec_bytes() {
                AttrAction::AsU64(AttributeName::Height)
            } else if name == ("width").spec_bytes() {
                AttrAction::AsU64(AttributeName::Width)
            } else if name == ("maxPlayoutRate").spec_bytes() {
                AttrAction::AsF64(AttributeName::MaxPlayoutRate)
            } else if name == ("maxSAPPeriod").spec_bytes() {
                AttrAction::AsF64(AttributeName::MaxSAPPeriod)
            } else if name == ("mimeType").spec_bytes() {
                AttrAction::Str(AttributeName::MimeType)
            } else if name == ("profiles").spec_bytes() {
                AttrAction::Str(AttributeName::Profiles)
            } else if name == ("qualityRanking").spec_bytes() {
                AttrAction::AsU64(AttributeName::QualityRanking)
            } else if name == ("segmentProfiles").spec_bytes() {
                AttrAction::Str(AttributeName::SegmentProfiles)
            } else if name == ("availabilityTimeOffset").spec_bytes() {
                AttrAction::AtoInf(AttributeName::AvailabilityTimeOffset)
            } else if name == ("availabilityTimeComplete").spec_bytes() {
                AttrAction::AsBool(AttributeName::AvailabilityTimeComplete)
            } else {
                AttrAction::Ignore
            }
        },
        ElementKind::BaseUrl => {
            if name == ("availabilityTimeOffset").spec_bytes() {
                AttrAction::AtoInf(AttributeName::AvailabilityTimeOffset)
            } else if name == ("availabilityTimeComplete").spec_bytes() {
                AttrAction::AsBool(AttributeName::AvailabilityTimeComplete)
            } else {
                AttrAction::Ignore
            }
        },
        ElementKind::SegmentTemplate => {
            if name == ("initialization").spec_bytes() {
                AttrAction::Str(AttributeName::InitializationMedia)
            } else if name == ("index").spec_bytes() {
                AttrAction::Str(AttributeName::Index)
            } else if name == ("timescale").spec_bytes() {
                AttrAction::AsU64(AttributeName::TimeScale)
            } else if name == ("presentationTimeOffset").spec_bytes() {
                AttrAction::AsF64(AttributeName::PresentationTimeOffset)
            } else if name == ("indexRange").spec_bytes() {
                AttrAction::Range(AttributeName::IndexRange)
            } else if name == ("IndexRangeExact").spec_bytes() {
                AttrAction::AsBool(AttributeName::IndexRangeExact)
            } else if name == ("availabilityTimeOffset").spec_bytes() {
                AttrAction::AtoInf(AttributeName::AvailabilityTimeOffset)
            } else if name == ("availabilityTimeComplete").spec_bytes() {
                AttrAction::AsBool(AttributeName::AvailabilityTimeComplete)
            } else if name == ("duration").spec_bytes() {
                AttrAction::AsU64(AttributeName::Duration)
            } else if name == ("startNumber").spec_bytes() {
                AttrAction::AsU64(AttributeName::StartNumber)
            } else if name == ("media").spec_bytes() {
                AttrAction::Str(AttributeName::Media)
            } else if name == ("bitstreamSwitching").spec_bytes() {
                AttrAction::AsBool(AttributeName::BitstreamSwitching)
            } else {
                AttrAction::Ignore
            }
        },
        ElementKind::SegmentBase => {
            if name == ("timescale").spec_bytes() {
                AttrAction::AsU64(AttributeName::TimeScale)
            } else if name == ("presentationTimeOffset").spec_bytes() {
                AttrAction::AsF64(AttributeName::PresentationTimeOffset)
            } else if name == ("indexRange").spec_bytes() {
                AttrAction::Range(AttributeName::IndexRange)
            } else if name == ("indexRangeExact").spec_bytes() {
                AttrAction::AsBool(AttributeName::IndexRangeExact)
            } else if name == ("availabilityTimeOffset").spec_bytes() {
                AttrAction::AtoInf(AttributeName::AvailabilityTimeOffset)
            } else if name == ("availabilityTimeComplete").spec_bytes() {
                AttrAction::AsBool(AttributeName::AvailabilityTimeComplete)
            } else if name == ("duration").spec_bytes() {
                AttrAction::AsU64(AttributeName::Duration)
            } else if name == ("startNumber").spec_bytes() {
                AttrAction::AsU64(AttributeName::StartNumber)
            } else {
                AttrAction::Ignore
            }
        },
        ElementKind::ContentComponent => {
            if name == ("id").spec_bytes() {
                AttrAction::Str(AttributeName::Id)
            } else if name == ("lang").spec_bytes() {
                AttrAction::Str(AttributeName::Language)
            } else if name == ("contentType").spec_bytes() {
                AttrAction::Str(AttributeName::ContentType)
            } else if name == ("par").spec_bytes() {
                AttrAction::Str(AttributeName::Par)
            } else {
                AttrAction::Ignore
            }
        },
        ElementKind::ContentProtection => {
            if name == ("schemeIdUri").spec_bytes() {
                AttrAction::Str(AttributeName::SchemeIdUri)
            } else if name == ("value").spec_bytes() {
                AttrAction::Str(AttributeName::ContentProtectionValue)
            } else if name == ("cenc:default_KID").spec_bytes() {
                AttrAction::Str(AttributeName::ContentProtectionKeyId)
            } else {
                AttrAction::Ignore
            }
        },
        ElementKind::Initialization => {
            if name == ("range").spec_bytes() {
                AttrAction::Range(AttributeName::InitializationRange)
            } else if name == ("sourceURL").spec_bytes() {
                AttrAction::Str(AttributeName::InitializationMedia)
            } else {
                AttrAction::Ignore
            }
        },
        ElementKind::Scheme => {
            if name == ("schemeIdUri").spec_bytes() {
                AttrAction::Str(AttributeName::SchemeIdUri)
            } else if name == ("value").spec_bytes() {
                AttrAction::Str(AttributeName::SchemeValue)
            } else {
                AttrAction::Ignore
            }
        },
        ElementKind::SegmentUrl => {
            if name == ("index").spec_bytes() {
                AttrAction::Str(AttributeName::Index)
            } else if name == ("indexRange").spec_bytes() {
                AttrAction::Range(AttributeName::IndexRange)
            } else if name == ("media").spec_bytes() {
                AttrAction::Str(AttributeName::Media)
            } else if name == ("mediaRange").spec_bytes() {
                AttrAction::Range(AttributeName::MediaRange)
            } else {
                AttrAction::Ignore
            }
        },
        ElementKind::EventStream => {
            if name == ("schemeIdUri").spec_bytes() {
                AttrAction::Str(AttributeName::SchemeIdUri)
            } else if name == ("value").spec_bytes() {
                AttrAction::Str(AttributeName::SchemeValue)
            } else if name == ("timescale").spec_bytes() {
                AttrAction::AsU64(AttributeName::TimeScale)
            } else if is_ns_name(name) {
                AttrAction::Ns
            } else {
                AttrAction::Ignore
            }
        },
        ElementKind::EventStreamEvent => {
            if name == ("presentationTime").spec_bytes() {
                AttrAction::AsU64(AttributeName::EventPresentationTime)
            } else if name == ("duration").spec_bytes() {
                AttrAction::AsU64(AttributeName::Duration)
            } else if name == ("id").spec_bytes() {
                AttrAction::Str(AttributeName::Id)
            } else {
                AttrAction::Ignore
            }
        },
    }
}

/// Exec twin of [`rule_of`].
fn rule_of_exec(elem: ElementKind, name: &[u8]) -> (r: AttrAction)
    ensures
        r == rule_of(elem, name@),
{
    match elem {
        ElementKind::Mpd => {
            if name_is(name, "id") {
                AttrAction::Str(AttributeName::Id)
            } else if name_is(name, "profiles") {
                AttrAction::Str(AttributeName::Profiles)
            } else if name_is(name, "type") {
                AttrAction::Str(AttributeName::Type)
            } else if name_is(name, "availabilityStartTime") {
                AttrAction::Str(AttributeName::AvailabilityStartTime)
            } else if name_is(name, "availabilityEndTime") {
                AttrAction::Str(AttributeName::AvailabilityEndTime)
            } else if name_is(name, "publishTime") {
                AttrAction::Str(AttributeName::PublishTime)
            } else if name_is(name, "mediaPresentationDuration") {
                AttrAction::Iso(AttributeName::MediaPresentationDuration)
            } else if name_is(name, "minimumUpdatePeriod") {
                AttrAction::Iso(AttributeName::MinimumUpdatePeriod)
            } else if name_is(name, "minBufferTime") {
                AttrAction::Iso(AttributeName::MinBufferTime)
            } else if name_is(name, "timeShiftBufferDepth") {
                AttrAction::Iso(AttributeName::TimeShiftBufferDepth)
            } else if name_is(name, "suggestedPresentationDelay") {
                AttrAction::Iso(AttributeName::SuggestedPresentationDelay)
            } else if name_is(name, "maxSegmentDuration") {
                AttrAction::Iso(AttributeName::MaxSegmentDuration)
            } else if name_is(name, "maxSubsegmentDuration") {
                AttrAction::Iso(AttributeName::MaxSubsegmentDuration)
            } else if name_is(name, "availabilityTimeOffset") {
                AttrAction::AtoInf(AttributeName::AvailabilityTimeOffset)
            } else if is_ns_name_exec(name) {
                AttrAction::Ns
            } else {
                AttrAction::Ignore
            }
        },
        ElementKind::Period => {
            if name_is(name, "id") {
                AttrAction::Str(AttributeName::Id)
            } else if name_is(name, "start") {
                AttrAction::Iso(AttributeName::Start)
            } else if name_is(name, "duration") {
                AttrAction::Iso(AttributeName::Duration)
            } else if name_is(name, "bitstreamSwitching") {
                AttrAction::AsBool(AttributeName::BitstreamSwitching)
            } else if name_is(name, "availabilityTimeOffset") {
                AttrAction::AtoInf(AttributeName::AvailabilityTimeOffset)
            } else if name_is(name, "xlink:href") {
                AttrAction::Str(AttributeName::XLinkHref)
            } else if name_is(name, "xlink:actuate") {
                AttrAction::Str(AttributeName::XLinkActuate)
            } else if is_ns_name_exec(name) {
                AttrAction::Ns
            } else {
                AttrAction::Ignore
            }
        },
        ElementKind::AdaptationSet => {
            if name_is(name, "id") {
                AttrAction::Str(AttributeName::Id)
            } else if name_is(name, "group") {
                AttrAction::AsU64(AttributeName::Group)
            } else if name_is(name, "lang") {
                AttrAction::Str(AttributeName::Language)
            } else if name_is(name, "contentType") {
                AttrAction::Str(AttributeName::ContentType)
            } else if name_is(name, "par") {
                AttrAction::Str(AttributeName::Par)
            } else if name_is(name, "minBandwidth") {
                AttrAction::AsU64(AttributeName::MinBandwidth)
            } else if name_is(name, "maxBandwidth") {
                AttrAction::AsU64(AttributeName::MaxBandwidth)
            } else if name_is(name, "minWidth") {
                AttrAction::AsU64(AttributeName::MinWidth)
            } else if name_is(name, "maxWidth") {
                AttrAction::AsU64(AttributeName::MaxWidth)
            } else if name_is(name, "minHeight") {
                AttrAction::AsU64(AttributeName::MinHeight)
            } else if name_is(name, "maxHeight") {
                AttrAction::AsU64(AttributeName::MaxHeight)
            } else if name_is(name, "minFrameRate") {
                AttrAction::MaybeDiv(AttributeName::MinFrameRate)
            } else if name_is(name, "maxFrameRate") {
                AttrAction::MaybeDiv(AttributeName::MaxFrameRate)
            } else if name_is(name, "selectionPriority") {
                AttrAction::AsU64(AttributeName::SelectionPriority)
            } else if name_is(name, "segmentAlignment") {
                AttrAction::U64OrBool(AttributeName::SegmentAlignment)
            } else if name_is(name, "subsegmentAlignment") {
                AttrAction::U64OrBool(AttributeName::SubsegmentAlignment)
            } else if name_is(name, "bitstreamSwitching") {
                AttrAction::AsBool(AttributeName::BitstreamSwitching)
            } else if name_is(name, "audioSamplingRate") {
                AttrAction::Str(AttributeName::AudioSamplingRate)
            } else if name_is(name, "codecs") {
                AttrAction::Str(AttributeName::Codecs)
            } else if name_is(name, "profiles") {
                AttrAction::Str(AttributeName::Profiles)
            } else if name_is(name, "segmentProfiles") {
                AttrAction::Str(AttributeName::SegmentProfiles)
            } else if name_is(name, "mimeType") {
                AttrAction::Str(AttributeName::MimeType)
            } else if name_is(name, "codingDependency") {
                AttrAction::AsBool(AttributeName::CodingDependency)
            } else if name_is(name, "frameRate") {
                AttrAction::MaybeDiv(AttributeName::FrameRate)
            } else if name_is(name, "height") {
                AttrAction::AsU64(AttributeName::Height)
            } else if name_is(name, "width") {
                AttrAction::AsU64(AttributeName::Width)
            } else if name_is(name, "maxPlayoutRate") {
                AttrAction::AsF64(AttributeName::MaxPlayoutRate)
            } else if name_is(name, "maxSAPPeriod") {
                AttrAction::AsF64(AttributeName::MaxSAPPeriod)
            } else if name_is(name, "availabilityTimeOffset") {
                AttrAction::AtoInf(AttributeName::AvailabilityTimeOffset)
            } else if name_is(name, "availabilityTimeComplete") {
                AttrAction::AsBool(AttributeName::AvailabilityTimeComplete)
            } else {
                AttrAction::Ignore
            }
        },
        ElementKind::Representation => {
            if name_is(name, "id") {
                AttrAction::Str(AttributeName::Id)
            } else if name_is(name, "audioSamplingRate") {
                AttrAction::Str(AttributeName::AudioSamplingRate)
            } else if name_is(name, "bandwidth") {
                AttrAction::AsU64(AttributeName::Bitrate)
            } else if name_is(name, "codecs") {
                AttrAction::Str(AttributeName::Codecs)
            } else if name_is(name, "codingDependency") {
                AttrAction::AsBool(AttributeName::CodingDependency)
            } else if name_is(name, "frameRate") {
                AttrAction::MaybeDiv(AttributeName::FrameRate)
            } else if name_is(name, "height") {
                AttrAction::AsU64(AttributeName::Height)
            } else if name_is(name, "width") {
                AttrAction::AsU64(AttributeName::Width)
            } else if name_is(name, "maxPlayoutRate") {
                AttrAction::AsF64(AttributeName::MaxPlayoutRate)
            } else if name_is(name, "maxSAPPeriod") {
                AttrAction::AsF64(AttributeName::MaxSAPPeriod)
            } else if name_is(name, "mimeType") {
                AttrAction::Str(AttributeName::MimeType)
            } else if name_is(name, "profiles") {
                AttrAction::Str(AttributeName::Profiles)
            } else if name_is(name, "qualityRanking") {
                AttrAction::AsU64(AttributeName::QualityRanking)
            } else if name_is(name, "segmentProfiles") {
                AttrAction::Str(AttributeName::SegmentProfiles)
            } else if name_is(name, "availabilityTimeOffset") {
                AttrAction::AtoInf(AttributeName::AvailabilityTimeOffset)
            } else if name_is(name, "availabilityTimeComplete") {
                AttrAction::AsBool(AttributeName::AvailabilityTimeComplete)
            } else {
                AttrAction::Ignore
            }
        },
        ElementKind::BaseUrl => {
            if name_is(name, "availabilityTimeOffset") {
                AttrAction::AtoInf(AttributeName::AvailabilityTimeOffset)
            } else if name_is(name, "availabilityTimeComplete") {
                AttrAction::AsBool(AttributeName::AvailabilityTimeComplete)
            } else {
                AttrAction::Ignore
            }
        },
        ElementKind::SegmentTemplate => {
            if name_is(name, "initialization") {
                AttrAction::Str(AttributeName::InitializationMedia)
            } else if name_is(name, "index") {
                AttrAction::Str(AttributeName::Index)
            } else if name_is(name, "timescale") {
                AttrAction::AsU64(AttributeName::TimeScale)
            } else if name_is(name, "presentationTimeOffset") {
                AttrAction::AsF64(AttributeName::PresentationTimeOffset)
            } else if name_is(name, "indexRange") {
                AttrAction::Range(AttributeName::IndexRange)
            } else if name_is(name, "IndexRangeExact") {
                AttrAction::AsBool(AttributeName::IndexRangeExact)
            } else if name_is(name, "availabilityTimeOffset") {
                AttrAction::AtoInf(AttributeName::AvailabilityTimeOffset)
            } else if name_is(name, "availabilityTimeComplete") {
                AttrAction::AsBool(AttributeName::AvailabilityTimeComplete)
            } else if name_is(name, "duration") {
                AttrAction::AsU64(AttributeName::Duration)
            } else if name_is(name, "startNumber") {
                AttrAction::AsU64(AttributeName::StartNumber)
            } else if name_is(name, "media") {
                AttrAction::Str(AttributeName::Media)
            } else if name_is(name, "bitstreamSwitching") {
                AttrAction::AsBool(AttributeName::BitstreamSwitching)
            } else {
                AttrAction::Ignore
            }
        },
        ElementKind::SegmentBase => {
            if name_is(name, "timescale") {
                AttrAction::AsU64(AttributeName::TimeScale)
            } else if name_is(name, "presentationTimeOffset") {
                AttrAction::AsF64(AttributeName::PresentationTimeOffset)
            } else if name_is(name, "indexRange") {
                AttrAction::Range(AttributeName::IndexRange)
            } else if name_is(name, "indexRangeExact") {
                AttrAction::AsBool(AttributeName::IndexRangeExact)
            } else if name_is(name, "availabilityTimeOffset") {
                AttrAction::AtoInf(AttributeName::AvailabilityTimeOffset)
            } else if name_is(name, "availabilityTimeComplete") {
                AttrAction::AsBool(AttributeName::AvailabilityTimeComplete)
            } else if name_is(name, "duration") {
                AttrAction::AsU64(AttributeName::Duration)
            } else if name_is(name, "startNumber") {
                AttrAction::AsU64(AttributeName::StartNumber)
            } else {
                AttrAction::Ignore
            }
        },
        ElementKind::ContentComponent => {
            if name_is(name, "id") {
                AttrAction::Str(AttributeName::Id)
            } else if name_is(name, "lang") {
                AttrAction::Str(AttributeName::Language)
            } else if name_is(name, "contentType") {
                AttrAction::Str(AttributeName::ContentType)
            } else if name_is(name, "par") {
                AttrAction::Str(AttributeName::Par)
            } else {
                AttrAction::Ignore
            }
        },
        ElementKind::ContentProtection => {
            if name_is(name, "schemeIdUri") {
                AttrAction::Str(AttributeName::SchemeIdUri)
            } else if name_is(name, "value") {
                AttrAction::Str(AttributeName::ContentProtectionValue)
            } else if name_is(name, "cenc:default_KID") {
                AttrAction::Str(AttributeName::ContentProtectionKeyId)
            } else {
                AttrAction::Ignore
            }
        },
        ElementKind::Initialization => {
            if name_is(name, "range") {
                AttrAction::Range(AttributeName::InitializationRange)
            } else if name_is(name, "sourceURL") {
                AttrAction::Str(AttributeName::InitializationMedia)
            } else {
                AttrAction::Ignore
            }
        },
        ElementKind::Scheme => {
            if name_is(name, "schemeIdUri") {
                AttrAction::Str(AttributeName::SchemeIdUri)
            } else if name_is(name, "value") {
                AttrAction::Str(AttributeName::SchemeValue)
            } else {
                AttrAction::Ignore
            }
        },
        ElementKind::SegmentUrl => {
            if name_is(name, "index") {
                AttrAction::Str(AttributeName::Index)
            } else if name_is(name, "indexRange") {
                AttrAction::Range(AttributeName::IndexRange)
            } else if name_is(name, "media") {
                AttrAction::Str(AttributeName::Media)
            } else if name_is(name, "mediaRange") {
                AttrAction::Range(AttributeName::MediaRange)
            } else {
                AttrAction::Ignore
            }
        },
        ElementKind::EventStream => {
            if name_is(name, "schemeIdUri") {
                AttrAction::Str(AttributeName::SchemeIdUri)
            } else if name_is(name, "value") {
                AttrAction::Str(AttributeName::SchemeValue)
            } else if name_is(name, "timescale") {
                AttrAction::AsU64(AttributeName::TimeScale)
            } else if is_ns_name_exec(name) {
                AttrAction::Ns
            } else {
                AttrAction::Ignore
            }
        },
        ElementKind::EventStreamEvent => {
            if name_is(name, "presentationTime") {
                AttrAction::AsU64(AttributeName::EventPresentationTime)
            } else if name_is(name, "duration") {
                AttrAction::AsU64(AttributeName::Duration)
            } else if name_is(name, "id") {
                AttrAction::Str(AttributeName::Id)
            } else {
                AttrAction::Ignore
            }
        },
    }
}

/// Does the byte slice spell the given (ASCII) literal?
pub(crate) fn name_is(name: &[u8], lit: &str) -> (r: bool)
    ensures
        r <==> name@ == lit.spec_bytes(),
{
    utils::bytes_equal(name, lit.as_bytes())
}

/// Exec twin of [`is_ns_name`].
fn is_ns_name_exec(name: &[u8]) -> (r: bool)
    ensures
        r <==> is_ns_name(name@),
{
    let prefix = "xmlns:".as_bytes();
    if name.len() <= prefix.len() {
        return false;
    }
    utils::bytes_equal(
        vstd::slice::slice_subrange(name, 0, prefix.len()),
        prefix,
    )
}

/// The events one attribute entry produces for an element.
pub open spec fn spec_attr_step(elem: ElementKind, a: AttrView) -> Seq<EventView> {
    match a {
        AttrView::Broken(m) => seq![EventView::Custom(CustomEventType::Error, m)],
        AttrView::Pair { name, value } => match rule_of(elem, name) {
            AttrAction::Ignore => Seq::empty(),
            AttrAction::Str(an) => match crate::xml::xml_unescaped(value) {
                Some(v) => seq![EventView::Attr(an, ValView::Bytes(v))],
                None => seq![EventView::Custom(CustomEventType::Error, msg_unescape())],
            },
            AttrAction::AsF64(an) => match utils::spec_parse_f64(value) {
                Some(q) => seq![EventView::Attr(an, ValView::Num(AttrNum::Fin(q)))],
                None => seq![EventView::Custom(CustomEventType::Error, msg_value())],
            },
            AttrAction::Iso(an) => match utils::spec_parse_iso(value) {
                Some(q) => seq![EventView::Attr(an, ValView::Num(AttrNum::Fin(q)))],
                None => seq![EventView::Custom(CustomEventType::Error, msg_value())],
            },
            AttrAction::AsU64(an) => match utils::spec_parse_u64(value) {
                Some(v) => seq![
                    EventView::Attr(an, ValView::Num(AttrNum::Fin(Ratio::spec_from_u64(v)))),
                ],
                None => seq![EventView::Custom(CustomEventType::Error, msg_value())],
            },
            AttrAction::U64OrBool(an) => match utils::spec_parse_u64_or_bool(value) {
                Some(n) => seq![EventView::Attr(an, ValView::Num(n))],
                None => seq![EventView::Custom(CustomEventType::Error, msg_value())],
            },
            AttrAction::AsBool(an) => match utils::spec_parse_bool(value) {
                Some(b) => seq![EventView::Attr(an, ValView::Flag(b))],
                None => seq![EventView::Custom(CustomEventType::Error, msg_value())],
            },
            AttrAction::Range(an) => match utils::spec_parse_byte_range(value) {
                Some(p) => seq![EventView::Attr(an, ValView::Pair(p.0, p.1))],
                None => seq![EventView::Custom(CustomEventType::Error, msg_value())],
            },
            AttrAction::MaybeDiv(an) => match utils::spec_maybe_division(value) {
                Some(q) => seq![EventView::Attr(an, ValView::Num(AttrNum::Fin(q)))],
                None => seq![EventView::Custom(CustomEventType::Error, msg_value())],
            },
            AttrAction::AtoInf(an) => if value == ("INF").spec_bytes() {
                seq![EventView::Attr(an, ValView::Num(AttrNum::PosInf))]
            } else {
                match utils::spec_parse_u64(value) {
                    Some(v) => seq![
                        EventView::Attr(an, ValView::Num(AttrNum::Fin(Ratio::spec_from_u64(v)))),
                    ],
                    None => seq![EventView::Custom(CustomEventType::Error, msg_value())],
                }
            },
            AttrAction::Ns => match crate::xml::xml_unescaped(value) {
                Some(v) => seq![
                    EventView::Attr(AttributeName::Namespace, ValView::Framed(ns_key(name), v)),
                ],
                None => seq![EventView::Custom(CustomEventType::Error, msg_unescape())],
            },
        },
    }
}

/// The events the first `n` attribute entries produce.
pub open spec fn spec_attr_events(elem: ElementKind, attrs: Seq<AttrView>, n: int) -> Seq<
    EventView,
>
    decreases n,
{
    if n <= 0 {
        Seq::empty()
    } else {
        spec_attr_events(elem, attrs, n - 1) + spec_attr_step(elem, attrs[n - 1])
    }
}

/// Push one event, with its view accounted for.
pub(crate) fn emit(out: &mut Vec<ParserEvent>, ev: ParserEvent)
    ensures
        final(out)@ == old(out)@.push(ev),
        events_view(final(out)@) == events_view(old(out)@) + seq![ev@],
{
    proof {
        crate::events::lemma_events_view_push(out@, ev);
        assert(events_view(out@).push(ev@) =~= events_view(out@) + seq![ev@]);
    }
    out.push(ev);
}

/// Dispatch one attribute entry of `elem`, appending its events.
#[verifier::rlimit(60)]
fn dispatch_one(elem: ElementKind, a: &XmlAttr, out: &mut Vec<ParserEvent>)
    ensures
        events_view(final(out)@) == events_view(old(out)@) + spec_attr_step(elem, a@),
{
    let ghost pre = events_view(out@);
    match a {
        XmlAttr::Broken(m) => {
            emit(out, ParserEvent::CustomEvent(CustomEventType::Error, m.clone()));
        },
        XmlAttr::Pair { name, value } => {
            let action = rule_of_exec(elem, name.as_slice());
            match action {
                AttrAction::Ignore => {},
                AttrAction::Str(an) => match crate::xml::unescape_bytes(value.as_slice()) {
                    Some(v) => emit(out, ParserEvent::Attribute(an, AttrValue::Bytes(v))),
                    None => emit(
                        out,
                        ParserEvent::CustomEvent(
                            CustomEventType::Error,
                            String::from_str("could not unescape attribute value"),
                        ),
                    ),
                },
                AttrAction::AsF64(an) => match utils::parse_f64(value.as_slice()) {
                    Ok(q) => emit(
                        out,
                        ParserEvent::Attribute(an, AttrValue::Num(AttrNum::Fin(q))),
                    ),
                    Err(_) => emit(
                        out,
                        ParserEvent::CustomEvent(
                            CustomEventType::Error,
                            String::from_str("invalid attribute value"),
                        ),
                    ),
                },
                AttrAction::Iso(an) => match utils::parse_iso_8601_duration(value.as_slice()) {
                    Ok(q) => emit(
                        out,
                        ParserEvent::Attribute(an, AttrValue::Num(AttrNum::Fin(q))),
                    ),
                    Err(_) => emit(
                        out,
                        ParserEvent::CustomEvent(
                            CustomEventType::Error,
                            String::from_str("invalid attribute value"),
                        ),
                    ),
                },
                AttrAction::AsU64(an) => match utils::parse_u64(value.as_slice()) {
                    Ok(v) => emit(
                        out,
                        ParserEvent::Attribute(
                            an,
                            AttrValue::Num(AttrNum::Fin(Ratio::from_u64(v))),
                        ),
                    ),
                    Err(_) => emit(
                        out,
                        ParserEvent::CustomEvent(
                            CustomEventType::Error,
                            String::from_str("invalid attribute value"),
                        ),
                    ),
                },
                AttrAction::U64OrBool(an) => match utils::parse_u64_or_bool(value.as_slice()) {
                    Ok(n) => emit(out, ParserEvent::Attribute(an, AttrValue::Num(n))),
                    Err(_) => emit(
                        out,
                        ParserEvent::CustomEvent(
                            CustomEventType::Error,
                            String::from_str("invalid attribute value"),
                        ),
                    ),
                },
                AttrAction::AsBool(an) => match utils::parse_bool(value.as_slice()) {
                    Ok(b) => emit(out, ParserEvent::Attribute(an, AttrValue::Flag(b))),
                    Err(_) => emit(
                        out,
                        ParserEvent::CustomEvent(
                            CustomEventType::Error,
                            String::from_str("invalid attribute value"),
                        ),
                    ),
                },
                AttrAction::Range(an) => match utils::parse_byte_range(value.as_slice()) {
                    Ok(p) => emit(out, ParserEvent::Attribute(an, AttrValue::Pair(p.0, p.1))),
                    Err(_) => emit(
                        out,
                        ParserEvent::CustomEvent(
                            CustomEventType::Error,
                            String::from_str("invalid attribute value"),
                        ),
                    ),
                },
                AttrAction::MaybeDiv(an) => match utils::parse_maybe_division(
                    value.as_slice(),
                ) {
                    Ok(q) => emit(
                        out,
                        ParserEvent::Attribute(an, AttrValue::Num(AttrNum::Fin(q))),
                    ),
                    Err(_) => emit(
                        out,
                        ParserEvent::CustomEvent(
                            CustomEventType::Error,
                            String::from_str("invalid attribute value"),
                        ),
                    ),
                },
                AttrAction::AtoInf(an) => {
                    if name_is(value.as_slice(), "INF") {
                        emit(
                            out,
                            ParserEvent::Attribute(an, AttrValue::Num(AttrNum::PosInf)),
                        );
                    } else {
                        match utils::parse_u64(value.as_slice()) {
                            Ok(v) => emit(
                                out,
                                ParserEvent::Attribute(
                                    an,
                                    AttrValue::Num(AttrNum::Fin(Ratio::from_u64(v))),
                                ),
                            ),
                            Err(_) => emit(
                                out,
                                ParserEvent::CustomEvent(
                                    CustomEventType::Error,
                                    String::from_str("invalid attribute value"),
                                ),
                            ),
                        }
                    }
                },
                AttrAction::Ns => {
                    let prefix_len = "xmlns:".as_bytes().len();
                    proof {
                        assert(is_ns_name(name@));
                    }
                    let key = vstd::slice::slice_to_vec(
                        vstd::slice::slice_subrange(name.as_slice(), prefix_len, name.len()),
                    );
                    proof {
                        assert(key@ =~= ns_key(name@));
                    }
                    match crate::xml::unescape_bytes(value.as_slice()) {
                        Some(v) => emit(
                            out,
                            ParserEvent::Attribute(
                                AttributeName::Namespace,
                                AttrValue::Framed(key, v),
                            ),
                        ),
                        None => emit(
                            out,
                            ParserEvent::CustomEvent(
                                CustomEventType::Error,
                                String::from_str("could not unescape attribute value"),
                            ),
                        ),
                    }
                },
            }
        },
    }
    proof {
        if spec_attr_step(elem, a@) =~= Seq::<EventView>::empty() {
            assert(pre + spec_attr_step(elem, a@) =~= pre);
        }
    }
}

/// Dispatch every attribute entry of `elem`, appending all their events in
/// order.
pub fn report_element_attrs(
    elem: ElementKind,
    attrs: &Vec<XmlAttr>,
    out: &mut Vec<ParserEvent>,
)
    ensures
        events_view(final(out)@) == events_view(old(out)@) + spec_attr_events(
            elem,
            attrs_view(attrs@),
            attrs@.len() as int,
        ),
{
    let ghost av = attrs_view(attrs@);
    let mut i: usize = 0;
    proof {
        assert(events_view(out@) =~= events_view(out@) + spec_attr_events(elem, av, 0));
        assert(spec_attr_events(elem, av, 0) =~= Seq::<EventView>::empty());
    }
    while i < attrs.len()
        invariant
            0 <= i <= attrs@.len(),
            av == attrs_view(attrs@),
            events_view(out@) == events_view(old(out)@) + spec_attr_events(
                elem,
                av,
                i as int,
            ),
        decreases attrs@.len() - i,
    {
        proof {
            assert(av[i as int] == attrs@[i as int]@);
        }
        dispatch_one(elem, &attrs[i], out);
        proof {
            assert(events_view(old(out)@) + spec_attr_events(elem, av, i as int)
                + spec_attr_step(elem, av[i as int]) =~= events_view(old(out)@)
                + spec_attr_events(elem, av, i as int + 1));
        }
        i = i + 1;
    }
}

/// Report the attributes of `<MPD>`.
pub fn report_mpd_attrs(attrs: &Vec<XmlAttr>, out: &mut Vec<ParserEvent>)
    ensures
        events_view(final(out)@) == events_view(old(out)@) + spec_attr_events(
            ElementKind::Mpd,
            attrs_view(attrs@),
            attrs@.len() as int,
        ),
{
    report_element_attrs(ElementKind::Mpd, attrs, out)
}

/// Report the attributes of `<Period>`.
pub fn report_period_attrs(attrs: &Vec<XmlAttr>, out: &mut Vec<ParserEvent>)
    ensures
        events_view(final(out)@) == events_view(old(out)@) + spec_attr_events(
            ElementKind::Period,
            attrs_view(attrs@),
            attrs@.len() as int,
        ),
{
    report_element_attrs(ElementKind::Period, attrs, out)
}

/// Report the attributes of `<AdaptationSet>`.
pub fn report_adaptation_set_attrs(attrs: &Vec<XmlAttr>, out: &mut Vec<ParserEvent>)
    ensures
        events_view(final(out)@) == events_view(old(out)@) + spec_attr_events(
            ElementKind::AdaptationSet,
            attrs_view(attrs@),
            attrs@.len() as int,
        ),
{
    report_element_attrs(ElementKind::AdaptationSet, attrs, out)
}

/// Report the attributes of `<Representation>`.
pub fn report_representation_attrs(attrs: &Vec<XmlAttr>, out: &mut Vec<ParserEvent>)
    ensures
        events_view(final(out)@) == events_view(old(out)@) + spec_attr_events(
            ElementKind::Representation,
            attrs_view(attrs@),
            attrs@.len() as int,
        ),
{
    report_element_attrs(ElementKind::Representation, attrs, out)
}

/// Report the attributes of `<BaseURL>`.
pub fn report_base_url_attrs(attrs: &Vec<XmlAttr>, out: &mut Vec<ParserEvent>)
    ensures
        events_view(final(out)@) == events_view(old(out)@) + spec_attr_events(
            ElementKind::BaseUrl,
            attrs_view(attrs@),
            attrs@.len() as int,
        ),
{
    report_element_attrs(ElementKind::BaseUrl, attrs, out)
}

/// Report the attributes of `<SegmentTemplate>`.
pub fn report_segment_template_attrs(attrs: &Vec<XmlAttr>, out: &mut Vec<ParserEvent>)
    ensures
        events_view(final(out)@) == events_view(old(out)@) + spec_attr_events(
            ElementKind::SegmentTemplate,
            attrs_view(attrs@),
            attrs@.len() as int,
        ),
{
    report_element_attrs(ElementKind::SegmentTemplate, attrs, out)
}

/// Report the attributes of `<SegmentBase>` (and `<SegmentList>`).
pub fn report_segment_base_attrs(attrs: &Vec<XmlAttr>, out: &mut Vec<ParserEvent>)
    ensures
        events_view(final(out)@) == events_view(old(out)@) + spec_attr_events(
            ElementKind::SegmentBase,
            attrs_view(attrs@),
            attrs@.len() as int,
        ),
{
    report_element_attrs(ElementKind::SegmentBase, attrs, out)
}

/// Report the attributes of `<ContentComponent>`.
pub fn report_content_component_attrs(attrs: &Vec<XmlAttr>, out: &mut Vec<ParserEvent>)
    ensures
        events_view(final(out)@) == events_view(old(out)@) + spec_attr_events(
            ElementKind::ContentComponent,
            attrs_view(attrs@),
            attrs@.len() as int,
        ),
{
    report_element_attrs(ElementKind::ContentComponent, attrs, out)
}

/// Report the attributes of `<ContentProtection>`.
pub fn report_content_protection_attrs(attrs: &Vec<XmlAttr>, out: &mut Vec<ParserEvent>)
    ensures
        events_view(final(out)@) == events_view(old(out)@) + spec_attr_events(
            ElementKind::ContentProtection,
            attrs_view(attrs@),
            attrs@.len() as int,
        ),
{
    report_element_attrs(ElementKind::ContentProtection, attrs, out)
}

/// Report the attributes of `<Initialization>`.
pub fn report_initialization_attrs(attrs: &Vec<XmlAttr>, out: &mut Vec<ParserEvent>)
    ensures
        events_view(final(out)@) == events_view(old(out)@) + spec_attr_events(
            ElementKind::Initialization,
            attrs_view(attrs@),
            attrs@.len() as int,
        ),
{
    report_element_attrs(ElementKind::Initialization, attrs, out)
}

/// Report the attributes of scheme-like elements.
pub fn report_scheme_attrs(attrs: &Vec<XmlAttr>, out: &mut Vec<ParserEvent>)
    ensures
        events_view(final(out)@) == events_view(old(out)@) + spec_attr_events(
            ElementKind::Scheme,
            attrs_view(attrs@),
            attrs@.len() as int,
        ),
{
    report_element_attrs(ElementKind::Scheme, attrs, out)
}

/// Report the attributes of `<SegmentURL>`.
pub fn report_segment_url_attrs(attrs: &Vec<XmlAttr>, out: &mut Vec<ParserEvent>)
    ensures
        events_view(final(out)@) == events_view(old(out)@) + spec_attr_events(
            ElementKind::SegmentUrl,
            attrs_view(attrs@),
            attrs@.len() as int,
        ),
{
    report_element_attrs(ElementKind::SegmentUrl, attrs, out)
}

/// Report the attributes of `<EventStream>`.
pub fn report_event_stream_attrs(attrs: &Vec<XmlAttr>, out: &mut Vec<ParserEvent>)
    ensures
        events_view(final(out)@) == events_view(old(out)@) + spec_attr_events(
            ElementKind::EventStream,
            attrs_view(attrs@),
            attrs@.len() as int,
        ),
{
    report_element_attrs(ElementKind::EventStream, attrs, out)
}

/// Report the attributes of `<Event>`.
pub fn report_event_stream_event_attrs(attrs: &Vec<XmlAttr>, out: &mut Vec<ParserEvent>)
    ensures
        events_view(final(out)@) == events_view(old(out)@) + spec_attr_events(
            ElementKind::EventStreamEvent,
            attrs_view(attrs@),
            attrs@.len() as int,
        ),
{
    report_element_attrs(ElementKind::EventStreamEvent, attrs, out)
}

} // verus!
