//! The resumable streaming state machine.
//!
//! The processor reads tokens from the [`Tokenizer`](crate::xml::Tokenizer)
//! and folds a pure transition function over them: every token maps the
//! current state to a successor state and a batch of emitted events.
//! Suspension costs nothing: an incomplete trailing token surfaces as
//! `Eof`, which simply ends the fold, and the next `continue_parsing`
//! picks up the same state after more bytes have been fed.

use vstd::prelude::*;

verus! {

use vstd::string::StringExecFns;
use vstd::string::StringSliceAdditionalSpecFns;
use crate::attributes::{spec_attr_events, ElementKind};
use crate::events::{
    events_view, AttrValue, AttributeName, CustomEventType, EventView, ParserEvent, TagName,
    ValView,
};
use crate::s_element::{spec_s_object, spec_s_scan, SegmentObject};
use crate::xml::{
    attrs_view, AttrView, spec_next, split_attributes, st_wf, tok_wf, unescape_bytes,
    xml_attrs_of, xml_unescaped, TokSt, TokView, Token, Tokenizer,
};

/// Where parsing stands between two tokens; saved state is simply the
/// current variant, so suspension and resumption are the identity.
#[derive(Debug, Clone, PartialEq, Eq)]
pub enum MPDProcessorState {
    /// At the outer dispatch loop.
    Main,
    /// Inside a `<SegmentTimeline>`: the count of unclosed same-named
    /// inner tags, the running time base, and the `<S>` entries so far.
    SegmentTimeline { inner_tags: u32, time_base: u128, segments: Vec<SegmentObject> },
    /// Inside a `<Location>` element.
    Location { inner_tags: u32 },
    /// Inside a `<BaseURL>` element.
    BaseURL { inner_tags: u32 },
    /// Inside a `<cenc:pssh>` element.
    Cenc { inner_tags: u32 },
    /// Inside an `<EventStream>` element.
    EventStream { inner_tags: u32 },
    /// Inside an `<Event>` element, whose raw XML is being captured.
    EventStreamEvent { event_stream_inner_tags: u32, inner_tags: u32, xml_buffer: Vec<u8> },
}

/// The mathematical shadow of [`MPDProcessorState`].
pub enum StView {
    Main,
    SegmentTimeline { inner_tags: u32, time_base: u128, segments: Seq<SegmentObject> },
    Location { inner_tags: u32 },
    BaseURL { inner_tags: u32 },
    Cenc { inner_tags: u32 },
    EventStream { inner_tags: u32 },
    EventStreamEvent { event_stream_inner_tags: u32, inner_tags: u32, xml_buffer: Seq<u8> },
}

impl View for MPDProcessorState {
    type V = StView;

    open spec fn view(&self) -> StView {
        match self {
            MPDProcessorState::Main => StView::Main,
            MPDProcessorState::SegmentTimeline { inner_tags, time_base, segments } => (
            StView::SegmentTimeline {
                inner_tags: *inner_tags,
                time_base: *time_base,
                segments: segments@,
            }),
            MPDProcessorState::Location { inner_tags } => (StView::Location {
                inner_tags: *inner_tags,
            }),
            MPDProcessorState::BaseURL { inner_tags } => (StView::BaseURL {
                inner_tags: *inner_tags,
            }),
            MPDProcessorState::Cenc { inner_tags } => (StView::Cenc { inner_tags: *inner_tags }),
            MPDProcessorState::EventStream { inner_tags } => (StView::EventStream {
                inner_tags: *inner_tags,
            }),
            MPDProcessorState::EventStreamEvent {
                event_stream_inner_tags,
                inner_tags,
                xml_buffer,
            } => (StView::EventStreamEvent {
                event_stream_inner_tags: *event_stream_inner_tags,
                inner_tags: *inner_tags,
                xml_buffer: xml_buffer@,
            }),
        }
    }
}

/// The attribute events a start tag's content produces for an element.
pub open spec fn attr_evs(elem: ElementKind, content: Seq<u8>, name_len: int) -> Seq<EventView> {
    spec_attr_events(
        elem,
        xml_attrs_of(content, name_len),
        xml_attrs_of(content, name_len).len() as int,
    )
}

/// The close event the outer loop emits for a recognised end tag.
pub open spec fn close_event_of(name: Seq<u8>) -> Seq<EventView> {
    if name == ("MPD").spec_bytes() {
        seq![EventView::Close(TagName::MPD)]
    } else if name == ("Period").spec_bytes() {
        seq![EventView::Close(TagName::Period)]
    } else if name == ("AdaptationSet").spec_bytes() {
        seq![EventView::Close(TagName::AdaptationSet)]
    } else if name == ("Representation").spec_bytes() {
        seq![EventView::Close(TagName::Representation)]
    } else if name == ("Accessibility").spec_bytes() {
        seq![EventView::Close(TagName::Accessibility)]
    } else if name == ("ContentComponent").spec_bytes() {
        seq![EventView::Close(TagName::ContentComponent)]
    } else if name == ("ContentProtection").spec_bytes() {
        seq![EventView::Close(TagName::ContentProtection)]
    } else if name == ("EssentialProperty").spec_bytes() {
        seq![EventView::Close(TagName::EssentialProperty)]
    } else if name == ("InbandEventStream").spec_bytes() {
        seq![EventView::Close(TagName::InbandEventStream)]
    } else if name == ("Role").spec_bytes() {
        seq![EventView::Close(TagName::Role)]
    } else if name == ("SupplementalProperty").spec_bytes() {
        seq![EventView::Close(TagName::SupplementalProperty)]
    } else if name == ("SegmentBase").spec_bytes() {
        seq![EventView::Close(TagName::SegmentBase)]
    } else if name == ("SegmentList").spec_bytes() {
        seq![EventView::Close(TagName::SegmentList)]
    } else if name == ("SegmentURL").spec_bytes() {
        seq![EventView::Close(TagName::SegmentUrl)]
    } else if name == ("SegmentTemplate").spec_bytes() {
        seq![EventView::Close(TagName::SegmentTemplate)]
    } else if name == ("UTCTiming").spec_bytes() {
        seq![EventView::Close(TagName::UtcTiming)]
    } else {
        Seq::empty()
    }
}

/// One step of the outer dispatch loop.
pub open spec fn spec_step_main(tok: TokView) -> (StView, Seq<EventView>) {
    match tok {
        TokView::Start { name, content, raw } => {
            if name == ("BaseURL").spec_bytes() {
                (
                    StView::BaseURL { inner_tags: 0 },
                    seq![EventView::Open(TagName::BaseURL)] + attr_evs(
                        ElementKind::BaseUrl,
                        content,
                        name.len() as int,
                    ),
                )
            } else if name == ("cenc:pssh").spec_bytes() {
                (StView::Cenc { inner_tags: 0 }, Seq::empty())
            } else if name == ("Location").spec_bytes() {
                (StView::Location { inner_tags: 0 }, Seq::empty())
            } else if name == ("SegmentTimeline").spec_bytes() {
                (
                    StView::SegmentTimeline {
                        inner_tags: 0,
                        time_base: 0,
                        segments: Seq::empty(),
                    },
                    Seq::empty(),
                )
            } else if name == ("EventStream").spec_bytes() {
                (
                    StView::EventStream { inner_tags: 0 },
                    seq![EventView::Open(TagName::EventStream)] + attr_evs(
                        ElementKind::EventStream,
                        content,
                        name.len() as int,
                    ),
                )
            } else if name == ("MPD").spec_bytes() {
                (
                    StView::Main,
                    seq![EventView::Open(TagName::MPD)] + attr_evs(
                        ElementKind::Mpd,
                        content,
                        name.len() as int,
                    ),
                )
            } else if name == ("Period").spec_bytes() {
                (
                    StView::Main,
                    seq![EventView::Open(TagName::Period)] + attr_evs(
                        ElementKind::Period,
                        content,
                        name.len() as int,
                    ),
                )
            } else if name == ("AdaptationSet").spec_bytes() {
                (
                    StView::Main,
                    seq![EventView::Open(TagName::AdaptationSet)] + attr_evs(
                        ElementKind::AdaptationSet,
                        content,
                        name.len() as int,
                    ),
                )
            } else if name == ("Representation").spec_bytes() {
                (
                    StView::Main,
                    seq![EventView::Open(TagName::Representation)] + attr_evs(
                        ElementKind::Representation,
                        content,
                        name.len() as int,
                    ),
                )
            } else if name == ("Accessibility").spec_bytes() {
                (
                    StView::Main,
                    seq![EventView::Open(TagName::Accessibility)] + attr_evs(
                        ElementKind::Scheme,
                        content,
                        name.len() as int,
                    ),
                )
            } else if name == ("ContentComponent").spec_bytes() {
                (
                    StView::Main,
                    seq![EventView::Open(TagName::ContentComponent)] + attr_evs(
                        ElementKind::ContentComponent,
                        content,
                        name.len() as int,
                    ),
                )
            } else if name == ("ContentProtection").spec_bytes() {
                (
                    StView::Main,
                    seq![EventView::Open(TagName::ContentProtection)] + attr_evs(
                        ElementKind::ContentProtection,
                        content,
                        name.len() as int,
                    ),
                )
            } else if name == ("EssentialProperty").spec_bytes() {
                (
                    StView::Main,
                    seq![EventView::Open(TagName::EssentialProperty)] + attr_evs(
                        ElementKind::Scheme,
                        content,
                        name.len() as int,
                    ),
                )
            } else if name == ("InbandEventStream").spec_bytes() {
                (
                    StView::Main,
                    seq![EventView::Open(TagName::InbandEventStream)] + attr_evs(
                        ElementKind::Scheme,
                        content,
                        name.len() as int,
                    ),
                )
            } else if name == ("Role").spec_bytes() {
                (
                    StView::Main,
                    seq![EventView::Open(TagName::Role)] + attr_evs(
                        ElementKind::Scheme,
                        content,
                        name.len() as int,
                    ),
                )
            } else if name == ("SupplementalProperty").spec_bytes() {
                (
                    StView::Main,
                    seq![EventView::Open(TagName::SupplementalProperty)] + attr_evs(
                        ElementKind::Scheme,
                        content,
                        name.len() as int,
                    ),
                )
            } else if name == ("SegmentBase").spec_bytes() {
                (
                    StView::Main,
                    seq![EventView::Open(TagName::SegmentBase)] + attr_evs(
                        ElementKind::SegmentBase,
                        content,
                        name.len() as int,
                    ),
                )
            } else if name == ("Initialization").spec_bytes() {
                (
                    StView::Main,
                    attr_evs(ElementKind::Initialization, content, name.len() as int),
                )
            } else if name == ("SegmentTemplate").spec_bytes() {
                (
                    StView::Main,
                    seq![EventView::Open(TagName::SegmentTemplate)] + attr_evs(
                        ElementKind::SegmentTemplate,
                        content,
                        name.len() as int,
                    ),
                )
            } else if name == ("SegmentList").spec_bytes() {
                (
                    StView::Main,
                    seq![EventView::Open(TagName::SegmentList)] + attr_evs(
                        ElementKind::SegmentBase,
                        content,
                        name.len() as int,
                    ),
                )
            } else if name == ("SegmentURL").spec_bytes() {
                (
                    StView::Main,
                    seq![EventView::Open(TagName::SegmentUrl)] + attr_evs(
                        ElementKind::SegmentUrl,
                        content,
                        name.len() as int,
                    ),
                )
            } else if name == ("UTCTiming").spec_bytes() {
                (
                    StView::Main,
                    seq![EventView::Open(TagName::UtcTiming)] + attr_evs(
                        ElementKind::Scheme,
                        content,
                        name.len() as int,
                    ),
                )
            } else {
                (StView::Main, Seq::empty())
            }
        },
        TokView::End { name, raw } => (StView::Main, close_event_of(name)),
        TokView::Fault { msg } => (
            StView::Main,
            seq![EventView::Custom(CustomEventType::Error, msg)],
        ),
        _ => (StView::Main, Seq::empty()),
    }
}

/// One step inside a `<SegmentTimeline>`.
pub open spec fn spec_step_timeline(
    k: u32,
    tb: u128,
    segs: Seq<SegmentObject>,
    tok: TokView,
) -> (StView, Seq<EventView>) {
    match tok {
        TokView::Start { name, content, raw } => {
            if name == ("S").spec_bytes() {
                let attrs = xml_attrs_of(content, name.len() as int);
                let sc = spec_s_scan(attrs, attrs.len() as int);
                if sc.failed {
                    (
                        StView::SegmentTimeline { inner_tags: k, time_base: tb, segments: segs },
                        sc.events + seq![
                            EventView::Custom(
                                CustomEventType::Error,
                                crate::attributes::msg_value(),
                            ),
                        ],
                    )
                } else {
                    let obj = spec_s_object(attrs, tb);
                    (
                        StView::SegmentTimeline {
                            inner_tags: k,
                            time_base: obj.spec_next_time_base(),
                            segments: segs.push(obj),
                        },
                        sc.events,
                    )
                }
            } else if name == ("SegmentTimeline").spec_bytes() {
                (
                    StView::SegmentTimeline {
                        inner_tags: sat_inc(k),
                        time_base: tb,
                        segments: segs,
                    },
                    Seq::empty(),
                )
            } else {
                (
                    StView::SegmentTimeline { inner_tags: k, time_base: tb, segments: segs },
                    Seq::empty(),
                )
            }
        },
        TokView::End { name, raw } => {
            if name == ("SegmentTimeline").spec_bytes() {
                if k > 0 {
                    (
                        StView::SegmentTimeline {
                            inner_tags: (k - 1) as u32,
                            time_base: tb,
                            segments: segs,
                        },
                        Seq::empty(),
                    )
                } else {
                    (
                        StView::Main,
                        seq![
                            EventView::Attr(
                                AttributeName::SegmentTimeline,
                                ValView::Segments(segs),
                            ),
                        ],
                    )
                }
            } else {
                (
                    StView::SegmentTimeline { inner_tags: k, time_base: tb, segments: segs },
                    Seq::empty(),
                )
            }
        },
        TokView::Fault { msg } => (
            StView::Main,
            seq![EventView::Custom(CustomEventType::Error, msg)],
        ),
        _ => (
            StView::SegmentTimeline { inner_tags: k, time_base: tb, segments: segs },
            Seq::empty(),
        ),
    }
}

/// Saturating increment for nesting counters.
pub open spec fn sat_inc(k: u32) -> u32 {
    if k < u32::MAX {
        (k + 1) as u32
    } else {
        k
    }
}

/// The three text-collecting scopes.
#[derive(Debug, Clone, Copy, PartialEq, Eq, Structural)]
pub enum Collector {
    Location,
    BaseUrl,
    Cenc,
}

/// The element name a collector scope watches.
pub open spec fn collector_name(c: Collector) -> Seq<u8> {
    match c {
        Collector::Location => ("Location").spec_bytes(),
        Collector::BaseUrl => ("BaseURL").spec_bytes(),
        Collector::Cenc => ("cenc:pssh").spec_bytes(),
    }
}

/// The attribute a collector's text is reported as.
pub open spec fn collector_attr(c: Collector) -> AttributeName {
    match c {
        Collector::Location => AttributeName::Location,
        Collector::BaseUrl => AttributeName::Text,
        Collector::Cenc => AttributeName::ContentProtectionCencPSSH,
    }
}

/// The structural close a collector emits when its scope ends, if any.
pub open spec fn collector_close(c: Collector) -> Seq<EventView> {
    match c {
        Collector::BaseUrl => seq![EventView::Close(TagName::BaseURL)],
        _ => Seq::empty(),
    }
}

/// The collector state with the given nesting counter.
pub open spec fn collector_state(c: Collector, k: u32) -> StView {
    match c {
        Collector::Location => StView::Location { inner_tags: k },
        Collector::BaseUrl => StView::BaseURL { inner_tags: k },
        Collector::Cenc => StView::Cenc { inner_tags: k },
    }
}

/// One step inside a text-collecting scope.
pub open spec fn spec_step_collector(c: Collector, k: u32, tok: TokView) -> (
    StView,
    Seq<EventView>,
) {
    match tok {
        TokView::Text { text, raw } => {
            if text.len() > 0 {
                match xml_unescaped(text) {
                    Some(v) => (
                        collector_state(c, k),
                        seq![EventView::Attr(collector_attr(c), ValView::Bytes(v))],
                    ),
                    None => (
                        collector_state(c, k),
                        seq![
                            EventView::Custom(
                                CustomEventType::Error,
                                crate::attributes::msg_unescape(),
                            ),
                        ],
                    ),
                }
            } else {
                (collector_state(c, k), Seq::empty())
            }
        },
        TokView::Start { name, content, raw } => {
            if name == collector_name(c) {
                (collector_state(c, sat_inc(k)), Seq::empty())
            } else {
                (collector_state(c, k), Seq::empty())
            }
        },
        TokView::End { name, raw } => {
            if name == collector_name(c) {
                if k > 0 {
                    (collector_state(c, (k - 1) as u32), Seq::empty())
                } else {
                    (StView::Main, collector_close(c))
                }
            } else {
                (collector_state(c, k), Seq::empty())
            }
        },
        TokView::Fault { msg } => (
            StView::Main,
            seq![EventView::Custom(CustomEventType::Error, msg)],
        ),
        _ => (collector_state(c, k), Seq::empty()),
    }
}

/// One step inside an `<EventStream>`.
pub open spec fn spec_step_event_stream(k: u32, tok: TokView) -> (StView, Seq<EventView>) {
    match tok {
        TokView::Start { name, content, raw } => {
            if name == ("Event").spec_bytes() {
                (
                    StView::EventStreamEvent {
                        event_stream_inner_tags: k,
                        inner_tags: 0,
                        xml_buffer: raw,
                    },
                    seq![EventView::Open(TagName::EventStreamElt)] + attr_evs(
                        ElementKind::EventStreamEvent,
                        content,
                        name.len() as int,
                    ),
                )
            } else if name == ("EventStream").spec_bytes() {
                (StView::EventStream { inner_tags: sat_inc(k) }, Seq::empty())
            } else {
                (StView::EventStream { inner_tags: k }, Seq::empty())
            }
        },
        TokView::End { name, raw } => {
            if name == ("EventStream").spec_bytes() {
                if k > 0 {
                    (StView::EventStream { inner_tags: (k - 1) as u32 }, Seq::empty())
                } else {
                    (StView::Main, seq![EventView::Close(TagName::EventStream)])
                }
            } else {
                (StView::EventStream { inner_tags: k }, Seq::empty())
            }
        },
        TokView::Fault { msg } => (
            StView::Main,
            seq![EventView::Custom(CustomEventType::Error, msg)],
        ),
        _ => (StView::EventStream { inner_tags: k }, Seq::empty()),
    }
}

/// One step inside an `<Event>` capture: every token's raw bytes are
/// appended to the buffer, and the matching end tag emits the whole
/// element verbatim.
pub open spec fn spec_step_capture(es: u32, k: u32, buf: Seq<u8>, tok: TokView) -> (
    StView,
    Seq<EventView>,
) {
    match tok {
        TokView::Start { name, content, raw } => {
            if name == ("Event").spec_bytes() {
                (
                    StView::EventStreamEvent {
                        event_stream_inner_tags: es,
                        inner_tags: sat_inc(k),
                        xml_buffer: buf + raw,
                    },
                    Seq::empty(),
                )
            } else {
                (
                    StView::EventStreamEvent {
                        event_stream_inner_tags: es,
                        inner_tags: k,
                        xml_buffer: buf + raw,
                    },
                    Seq::empty(),
                )
            }
        },
        TokView::End { name, raw } => {
            if name == ("Event").spec_bytes() {
                if k > 0 {
                    (
                        StView::EventStreamEvent {
                            event_stream_inner_tags: es,
                            inner_tags: (k - 1) as u32,
                            xml_buffer: buf + raw,
                        },
                        Seq::empty(),
                    )
                } else {
                    (
                        StView::EventStream { inner_tags: es },
                        seq![
                            EventView::Attr(
                                AttributeName::EventStreamEvent,
                                ValView::Bytes(buf + raw),
                            ),
                            EventView::Close(TagName::EventStreamElt),
                        ],
                    )
                }
            } else {
                (
                    StView::EventStreamEvent {
                        event_stream_inner_tags: es,
                        inner_tags: k,
                        xml_buffer: buf + raw,
                    },
                    Seq::empty(),
                )
            }
        },
        TokView::Text { text, raw } => (
            StView::EventStreamEvent {
                event_stream_inner_tags: es,
                inner_tags: k,
                xml_buffer: buf + raw,
            },
            Seq::empty(),
        ),
        TokView::Other { raw } => (
            StView::EventStreamEvent {
                event_stream_inner_tags: es,
                inner_tags: k,
                xml_buffer: buf + raw,
            },
            Seq::empty(),
        ),
        TokView::Fault { msg } => (
            StView::EventStream { inner_tags: es },
            seq![EventView::Custom(CustomEventType::Error, msg)],
        ),
        TokView::Eof => (
            StView::EventStreamEvent {
                event_stream_inner_tags: es,
                inner_tags: k,
                xml_buffer: buf,
            },
            Seq::empty(),
        ),
    }
}

/// The transition function of the whole machine: one token maps the
/// current state to a successor state and the events it emits.  `Eof`
/// never changes anything — suspension is free.
pub open spec fn spec_step(st: StView, tok: TokView) -> (StView, Seq<EventView>) {
    if tok is Eof {
        (st, Seq::empty())
    } else {
        match st {
            StView::Main => spec_step_main(tok),
            StView::SegmentTimeline { inner_tags, time_base, segments } => spec_step_timeline(
                inner_tags,
                time_base,
                segments,
                tok,
            ),
            StView::Location { inner_tags } => spec_step_collector(
                Collector::Location,
                inner_tags,
                tok,
            ),
            StView::BaseURL { inner_tags } => spec_step_collector(
                Collector::BaseUrl,
                inner_tags,
                tok,
            ),
            StView::Cenc { inner_tags } => spec_step_collector(Collector::Cenc, inner_tags, tok),
            StView::EventStream { inner_tags } => spec_step_event_stream(inner_tags, tok),
            StView::EventStreamEvent { event_stream_inner_tags, inner_tags, xml_buffer } => (
            spec_step_capture(event_stream_inner_tags, inner_tags, xml_buffer, tok)),
        }
    }
}

/// Emit the open event for `tag` and dispatch the tag content's
/// attributes for `elem`.
fn open_and_report(
    tag: TagName,
    elem: ElementKind,
    content: &Vec<u8>,
    name_len: usize,
    out: &mut Vec<ParserEvent>,
)
    requires
        name_len >= content@.len() || content@[name_len as int] < 128,
    ensures
        events_view(final(out)@) == events_view(old(out)@) + (seq![EventView::Open(tag)]
            + attr_evs(elem, content@, name_len as int)),
{
    let ghost pre = events_view(out@);
    crate::attributes::emit(out, ParserEvent::TagOpen(tag));
    let attrs = split_attributes(content.as_slice(), name_len);
    crate::attributes::report_element_attrs(elem, &attrs, out);
    proof {
        assert(pre + seq![EventView::Open(tag)] + attr_evs(elem, content@, name_len as int)
            =~= pre + (seq![EventView::Open(tag)] + attr_evs(
            elem,
            content@,
            name_len as int,
        )));
    }
}

/// Dispatch the tag content's attributes for `elem`, with no open event.
fn report_only(elem: ElementKind, content: &Vec<u8>, name_len: usize, out: &mut Vec<ParserEvent>)
    requires
        name_len >= content@.len() || content@[name_len as int] < 128,
    ensures
        events_view(final(out)@) == events_view(old(out)@) + attr_evs(
            elem,
            content@,
            name_len as int,
        ),
{
    let attrs = split_attributes(content.as_slice(), name_len);
    crate::attributes::report_element_attrs(elem, &attrs, out);
}

/// One step of the outer dispatch loop (exec).
fn step_main(tok: Token, out: &mut Vec<ParserEvent>) -> (r: MPDProcessorState)
    requires
        !(tok@ is Eof),
        tok_wf(tok@),
    ensures
        r@ == spec_step_main(tok@).0,
        events_view(final(out)@) == events_view(old(out)@) + spec_step_main(tok@).1,
{
    match tok {
        Token::Start { name, content, raw } => {
            let n = name.as_slice();
            let nl = name.len();
            if crate::attributes::name_is(n, "BaseURL") {
                open_and_report(TagName::BaseURL, ElementKind::BaseUrl, &content, nl, out);
                MPDProcessorState::BaseURL { inner_tags: 0 }
            } else if crate::attributes::name_is(n, "cenc:pssh") {
                MPDProcessorState::Cenc { inner_tags: 0 }
            } else if crate::attributes::name_is(n, "Location") {
                MPDProcessorState::Location { inner_tags: 0 }
            } else if crate::attributes::name_is(n, "SegmentTimeline") {
                let segments: Vec<SegmentObject> = Vec::new();
                proof {
                    assert(segments@ =~= Seq::<SegmentObject>::empty());
                }
                MPDProcessorState::SegmentTimeline { inner_tags: 0, time_base: 0, segments }
            } else if crate::attributes::name_is(n, "EventStream") {
                open_and_report(TagName::EventStream, ElementKind::EventStream, &content, nl, out);
                MPDProcessorState::EventStream { inner_tags: 0 }
} else if crate::attributes::name_is(n, "MPD") {
                open_and_report(TagName::MPD, ElementKind::Mpd, &content, nl, out);
                MPDProcessorState::Main
            } else if crate::attributes::name_is(n, "Period") {
                open_and_report(TagName::Period, ElementKind::Period, &content, nl, out);
                MPDProcessorState::Main
            } else if crate::attributes::name_is(n, "AdaptationSet") {
                open_and_report(
                    TagName::AdaptationSet,
                    ElementKind::AdaptationSet,
                    &content,
                    nl,
                    out,
                );
                MPDProcessorState::Main
            } else if crate::attributes::name_is(n, "Representation") {
                open_and_report(
                    TagName::Representation,
                    ElementKind::Representation,
                    &content,
                    nl,
                    out,
                );
                MPDProcessorState::Main
            } else if crate::attributes::name_is(n, "Accessibility") {
                open_and_report(TagName::Accessibility, ElementKind::Scheme, &content, nl, out);
                MPDProcessorState::Main
            } else if crate::attributes::name_is(n, "ContentComponent") {
                open_and_report(
                    TagName::ContentComponent,
                    ElementKind::ContentComponent,
                    &content,
                    nl,
                    out,
                );
                MPDProcessorState::Main
            } else if crate::attributes::name_is(n, "ContentProtection") {
                open_and_report(
                    TagName::ContentProtection,
                    ElementKind::ContentProtection,
                    &content,
                    nl,
                    out,
                );
                MPDProcessorState::Main
            } else if crate::attributes::name_is(n, "EssentialProperty") {
                open_and_report(
                    TagName::EssentialProperty,
                    ElementKind::Scheme,
                    &content,
                    nl,
                    out,
                );
                MPDProcessorState::Main
            } else if crate::attributes::name_is(n, "InbandEventStream") {
                open_and_report(
                    TagName::InbandEventStream,
                    ElementKind::Scheme,
                    &content,
                    nl,
                    out,
                );
                MPDProcessorState::Main
            } else if crate::attributes::name_is(n, "Role") {
                open_and_report(TagName::Role, ElementKind::Scheme, &content, nl, out);
                MPDProcessorState::Main
            } else if crate::attributes::name_is(n, "SupplementalProperty") {
                open_and_report(
                    TagName::SupplementalProperty,
                    ElementKind::Scheme,
                    &content,
                    nl,
                    out,
                );
                MPDProcessorState::Main
            } else if crate::attributes::name_is(n, "SegmentBase") {
                open_and_report(TagName::SegmentBase, ElementKind::SegmentBase, &content, nl, out);
                MPDProcessorState::Main
            } else if crate::attributes::name_is(n, "Initialization") {
                report_only(ElementKind::Initialization, &content, nl, out);
                MPDProcessorState::Main
            } else if crate::attributes::name_is(n, "SegmentTemplate") {
                open_and_report(
                    TagName::SegmentTemplate,
                    ElementKind::SegmentTemplate,
                    &content,
                    nl,
                    out,
                );
                MPDProcessorState::Main
            } else if crate::attributes::name_is(n, "SegmentList") {
                open_and_report(TagName::SegmentList, ElementKind::SegmentBase, &content, nl, out);
                MPDProcessorState::Main
            } else if crate::attributes::name_is(n, "SegmentURL") {
                open_and_report(TagName::SegmentUrl, ElementKind::SegmentUrl, &content, nl, out);
                MPDProcessorState::Main
            } else if crate::attributes::name_is(n, "UTCTiming") {
                open_and_report(TagName::UtcTiming, ElementKind::Scheme, &content, nl, out);
                MPDProcessorState::Main
                        } else {
                MPDProcessorState::Main
            }
        },
        Token::End { name, raw } => {
            let n = name.as_slice();
            let close: Option<TagName> = if crate::attributes::name_is(n, "MPD") {
                Some(TagName::MPD)
            } else if crate::attributes::name_is(n, "Period") {
                Some(TagName::Period)
            } else if crate::attributes::name_is(n, "AdaptationSet") {
                Some(TagName::AdaptationSet)
            } else if crate::attributes::name_is(n, "Representation") {
                Some(TagName::Representation)
            } else if crate::attributes::name_is(n, "Accessibility") {
                Some(TagName::Accessibility)
            } else if crate::attributes::name_is(n, "ContentComponent") {
                Some(TagName::ContentComponent)
            } else if crate::attributes::name_is(n, "ContentProtection") {
                Some(TagName::ContentProtection)
            } else if crate::attributes::name_is(n, "EssentialProperty") {
                Some(TagName::EssentialProperty)
            } else if crate::attributes::name_is(n, "InbandEventStream") {
                Some(TagName::InbandEventStream)
            } else if crate::attributes::name_is(n, "Role") {
                Some(TagName::Role)
            } else if crate::attributes::name_is(n, "SupplementalProperty") {
                Some(TagName::SupplementalProperty)
            } else if crate::attributes::name_is(n, "SegmentBase") {
                Some(TagName::SegmentBase)
            } else if crate::attributes::name_is(n, "SegmentList") {
                Some(TagName::SegmentList)
            } else if crate::attributes::name_is(n, "SegmentURL") {
                Some(TagName::SegmentUrl)
            } else if crate::attributes::name_is(n, "SegmentTemplate") {
                Some(TagName::SegmentTemplate)
            } else if crate::attributes::name_is(n, "UTCTiming") {
                Some(TagName::UtcTiming)
            } else {
                None
            };
            match close {
                Some(tag) => {
                    crate::attributes::emit(out, ParserEvent::TagClose(tag));
                    MPDProcessorState::Main
                },
                None => MPDProcessorState::Main,
            }
        },
        Token::Fault { msg } => {
            crate::attributes::emit(out, ParserEvent::CustomEvent(CustomEventType::Error, msg));
            MPDProcessorState::Main
        },
        _ => MPDProcessorState::Main,
    }
}

/// One step inside a `<SegmentTimeline>` (exec).
fn step_timeline(
    k: u32,
    tb: u128,
    segments: Vec<SegmentObject>,
    tok: Token,
    out: &mut Vec<ParserEvent>,
) -> (r: MPDProcessorState)
    requires
        !(tok@ is Eof),
        tok_wf(tok@),
    ensures
        r@ == spec_step_timeline(k, tb, segments@, tok@).0,
        events_view(final(out)@) == events_view(old(out)@) + spec_step_timeline(
            k,
            tb,
            segments@,
            tok@,
        ).1,
{
    let mut segments = segments;
    match tok {
        Token::Start { name, content, raw } => {
            if crate::attributes::name_is(name.as_slice(), "S") {
                let attrs = split_attributes(content.as_slice(), name.len());
                let ghost pre = events_view(out@);
                match SegmentObject::from_s_element(&attrs, tb, out) {
                    Ok(obj) => {
                        let tb2 = obj.next_time_base();
                        segments.push(obj);
                        MPDProcessorState::SegmentTimeline {
                            inner_tags: k,
                            time_base: tb2,
                            segments,
                        }
                    },
                    Err(_) => {
                        let ghost sc_events = spec_s_scan(
                            attrs_view(attrs@),
                            attrs@.len() as int,
                        ).events;
                        crate::attributes::emit(
                            out,
                            ParserEvent::CustomEvent(
                                CustomEventType::Error,
                                String::from_str("invalid attribute value"),
                            ),
                        );
                        proof {
                            assert(pre + sc_events + seq![
                                EventView::Custom(
                                    CustomEventType::Error,
                                    crate::attributes::msg_value(),
                                ),
                            ] =~= pre + (sc_events + seq![
                                EventView::Custom(
                                    CustomEventType::Error,
                                    crate::attributes::msg_value(),
                                ),
                            ]));
                        }
                        MPDProcessorState::SegmentTimeline {
                            inner_tags: k,
                            time_base: tb,
                            segments,
                        }
                    },
                }
            } else if crate::attributes::name_is(name.as_slice(), "SegmentTimeline") {
                let k2 = if k < u32::MAX {
                    k + 1
                } else {
                    k
                };
                MPDProcessorState::SegmentTimeline { inner_tags: k2, time_base: tb, segments }
            } else {
                MPDProcessorState::SegmentTimeline { inner_tags: k, time_base: tb, segments }
            }
        },
        Token::End { name, raw } => {
            if crate::attributes::name_is(name.as_slice(), "SegmentTimeline") {
                if k > 0 {
                    MPDProcessorState::SegmentTimeline {
                        inner_tags: k - 1,
                        time_base: tb,
                        segments,
                    }
                } else {
                    crate::attributes::emit(
                        out,
                        ParserEvent::Attribute(
                            AttributeName::SegmentTimeline,
                            AttrValue::Segments(segments),
                        ),
                    );
                    MPDProcessorState::Main
                }
            } else {
                MPDProcessorState::SegmentTimeline { inner_tags: k, time_base: tb, segments }
            }
        },
        Token::Fault { msg } => {
            crate::attributes::emit(out, ParserEvent::CustomEvent(CustomEventType::Error, msg));
            MPDProcessorState::Main
        },
        _ => MPDProcessorState::SegmentTimeline { inner_tags: k, time_base: tb, segments },
    }
}

/// One step inside a text-collecting scope (exec).
fn step_collector(c: Collector, k: u32, tok: Token, out: &mut Vec<ParserEvent>) -> (r:
    MPDProcessorState)
    requires
        !(tok@ is Eof),
    ensures
        r@ == spec_step_collector(c, k, tok@).0,
        events_view(final(out)@) == events_view(old(out)@) + spec_step_collector(c, k, tok@).1,
{
    match tok {
        Token::Text { text, raw } => {
            if text.len() > 0 {
                match unescape_bytes(text.as_slice()) {
                    Some(v) => {
                        let an = match c {
                            Collector::Location => AttributeName::Location,
                            Collector::BaseUrl => AttributeName::Text,
                            Collector::Cenc => AttributeName::ContentProtectionCencPSSH,
                        };
                        crate::attributes::emit(
                            out,
                            ParserEvent::Attribute(an, AttrValue::Bytes(v)),
                        );
                    },
                    None => {
                        crate::attributes::emit(
                            out,
                            ParserEvent::CustomEvent(
                                CustomEventType::Error,
                                String::from_str("could not unescape attribute value"),
                            ),
                        );
                    },
                }
            }
            collector_state_exec(c, k)
        },
        Token::Start { name, content, raw } => {
            if collector_name_is(c, name.as_slice()) {
                let k2 = if k < u32::MAX {
                    k + 1
                } else {
                    k
                };
                collector_state_exec(c, k2)
            } else {
                collector_state_exec(c, k)
            }
        },
        Token::End { name, raw } => {
            if collector_name_is(c, name.as_slice()) {
                if k > 0 {
                    collector_state_exec(c, k - 1)
                } else {
                    match c {
                        Collector::BaseUrl => {
                            crate::attributes::emit(
                                out,
                                ParserEvent::TagClose(TagName::BaseURL),
                            );
                        },
                        _ => {},
                    }
                    MPDProcessorState::Main
                }
            } else {
                collector_state_exec(c, k)
            }
        },
        Token::Fault { msg } => {
            crate::attributes::emit(out, ParserEvent::CustomEvent(CustomEventType::Error, msg));
            MPDProcessorState::Main
        },
        _ => collector_state_exec(c, k),
    }
}

/// The watched element name test for a collector.
fn collector_name_is(c: Collector, name: &[u8]) -> (r: bool)
    ensures
        r <==> name@ == collector_name(c),
{
    match c {
        Collector::Location => crate::attributes::name_is(name, "Location"),
        Collector::BaseUrl => crate::attributes::name_is(name, "BaseURL"),
        Collector::Cenc => crate::attributes::name_is(name, "cenc:pssh"),
    }
}

/// Exec twin of [`collector_state`].
fn collector_state_exec(c: Collector, k: u32) -> (r: MPDProcessorState)
    ensures
        r@ == collector_state(c, k),
{
    match c {
        Collector::Location => MPDProcessorState::Location { inner_tags: k },
        Collector::BaseUrl => MPDProcessorState::BaseURL { inner_tags: k },
        Collector::Cenc => MPDProcessorState::Cenc { inner_tags: k },
    }
}

/// One step inside an `<EventStream>` (exec).
fn step_event_stream(k: u32, tok: Token, out: &mut Vec<ParserEvent>) -> (r: MPDProcessorState)
    requires
        !(tok@ is Eof),
        tok_wf(tok@),
    ensures
        r@ == spec_step_event_stream(k, tok@).0,
        events_view(final(out)@) == events_view(old(out)@) + spec_step_event_stream(k, tok@).1,
{
    match tok {
        Token::Start { name, content, raw } => {
            if crate::attributes::name_is(name.as_slice(), "Event") {
                open_and_report(
                    TagName::EventStreamElt,
                    ElementKind::EventStreamEvent,
                    &content,
                    name.len(),
                    out,
                );
                MPDProcessorState::EventStreamEvent {
                    event_stream_inner_tags: k,
                    inner_tags: 0,
                    xml_buffer: raw,
                }
            } else if crate::attributes::name_is(name.as_slice(), "EventStream") {
                let k2 = if k < u32::MAX {
                    k + 1
                } else {
                    k
                };
                MPDProcessorState::EventStream { inner_tags: k2 }
            } else {
                MPDProcessorState::EventStream { inner_tags: k }
            }
        },
        Token::End { name, raw } => {
            if crate::attributes::name_is(name.as_slice(), "EventStream") {
                if k > 0 {
                    MPDProcessorState::EventStream { inner_tags: k - 1 }
                } else {
                    crate::attributes::emit(out, ParserEvent::TagClose(TagName::EventStream));
                    MPDProcessorState::Main
                }
            } else {
                MPDProcessorState::EventStream { inner_tags: k }
            }
        },
        Token::Fault { msg } => {
            crate::attributes::emit(out, ParserEvent::CustomEvent(CustomEventType::Error, msg));
            MPDProcessorState::Main
        },
        _ => MPDProcessorState::EventStream { inner_tags: k },
    }
}

/// One step inside an `<Event>` capture (exec).
fn step_capture(
    es: u32,
    k: u32,
    xml_buffer: Vec<u8>,
    tok: Token,
    out: &mut Vec<ParserEvent>,
) -> (r: MPDProcessorState)
    requires
        !(tok@ is Eof),
    ensures
        r@ == spec_step_capture(es, k, xml_buffer@, tok@).0,
        events_view(final(out)@) == events_view(old(out)@) + spec_step_capture(
            es,
            k,
            xml_buffer@,
            tok@,
        ).1,
{
    let mut buf = xml_buffer;
    match tok {
        Token::Start { name, content, raw } => {
            crate::utils::push_all(&mut buf, raw.as_slice());
            if crate::attributes::name_is(name.as_slice(), "Event") {
                let k2 = if k < u32::MAX {
                    k + 1
                } else {
                    k
                };
                MPDProcessorState::EventStreamEvent {
                    event_stream_inner_tags: es,
                    inner_tags: k2,
                    xml_buffer: buf,
                }
            } else {
                MPDProcessorState::EventStreamEvent {
                    event_stream_inner_tags: es,
                    inner_tags: k,
                    xml_buffer: buf,
                }
            }
        },
        Token::End { name, raw } => {
            crate::utils::push_all(&mut buf, raw.as_slice());
            if crate::attributes::name_is(name.as_slice(), "Event") {
                if k > 0 {
                    MPDProcessorState::EventStreamEvent {
                        event_stream_inner_tags: es,
                        inner_tags: k - 1,
                        xml_buffer: buf,
                    }
                } else {
                    crate::attributes::emit(
                        out,
                        ParserEvent::Attribute(
                            AttributeName::EventStreamEvent,
                            AttrValue::Bytes(buf),
                        ),
                    );
                    crate::attributes::emit(
                        out,
                        ParserEvent::TagClose(TagName::EventStreamElt),
                    );
                    proof {
                        assert(events_view(old(out)@) + seq![
                            EventView::Attr(
                                AttributeName::EventStreamEvent,
                                ValView::Bytes(xml_buffer@ + raw@),
                            ),
                        ] + seq![EventView::Close(TagName::EventStreamElt)] =~= events_view(
                            old(out)@,
                        ) + spec_step_capture(es, k, xml_buffer@, tok@).1);
                    }
                    MPDProcessorState::EventStream { inner_tags: es }
                }
            } else {
                MPDProcessorState::EventStreamEvent {
                    event_stream_inner_tags: es,
                    inner_tags: k,
                    xml_buffer: buf,
                }
            }
        },
        Token::Text { text, raw } => {
            crate::utils::push_all(&mut buf, raw.as_slice());
            MPDProcessorState::EventStreamEvent {
                event_stream_inner_tags: es,
                inner_tags: k,
                xml_buffer: buf,
            }
        },
        Token::Other { raw } => {
            crate::utils::push_all(&mut buf, raw.as_slice());
            MPDProcessorState::EventStreamEvent {
                event_stream_inner_tags: es,
                inner_tags: k,
                xml_buffer: buf,
            }
        },
        Token::Fault { msg } => {
            crate::attributes::emit(out, ParserEvent::CustomEvent(CustomEventType::Error, msg));
            MPDProcessorState::EventStream { inner_tags: es }
        },
        Token::Eof => {
            MPDProcessorState::EventStreamEvent {
                event_stream_inner_tags: es,
                inner_tags: k,
                xml_buffer: buf,
            }
        },
    }
}

/// The machine's transition function: apply one token to the state,
/// appending the emitted events to `out`.
pub fn step(state: MPDProcessorState, tok: Token, out: &mut Vec<ParserEvent>) -> (r:
    MPDProcessorState)
    requires
        tok_wf(tok@),
    ensures
        r@ == spec_step(state@, tok@).0,
        events_view(final(out)@) == events_view(old(out)@) + spec_step(state@, tok@).1,
{
    match tok {
        Token::Eof => {
            proof {
                assert(events_view(out@) + Seq::<EventView>::empty() =~= events_view(out@));
            }
            state
        },
        _ => {
            match state {
                MPDProcessorState::Main => step_main(tok, out),
                MPDProcessorState::SegmentTimeline { inner_tags, time_base, segments } => (
                step_timeline(inner_tags, time_base, segments, tok, out)),
                MPDProcessorState::Location { inner_tags } => step_collector(
                    Collector::Location,
                    inner_tags,
                    tok,
                    out,
                ),
                MPDProcessorState::BaseURL { inner_tags } => step_collector(
                    Collector::BaseUrl,
                    inner_tags,
                    tok,
                    out,
                ),
                MPDProcessorState::Cenc { inner_tags } => step_collector(
                    Collector::Cenc,
                    inner_tags,
                    tok,
                    out,
                ),
                MPDProcessorState::EventStream { inner_tags } => step_event_stream(
                    inner_tags,
                    tok,
                    out,
                ),
                MPDProcessorState::EventStreamEvent {
                    event_stream_inner_tags,
                    inner_tags,
                    xml_buffer,
                } => step_capture(event_stream_inner_tags, inner_tags, xml_buffer, tok, out),
            }
        },
    }
}

/// Whether the machine wants raw (untrimmed) text: only while capturing
/// an `<Event>` element verbatim.
pub open spec fn wants_raw_text(st: StView) -> bool {
    st is EventStreamEvent
}

/// The tokenizer makes progress: a non-`Eof` token consumes input bytes
/// or the pending synthetic end tag; `Eof` may only consume skipped
/// whitespace.
pub proof fn lemma_spec_next_progress(tk: TokSt, trim: bool)
    requires
        st_wf(tk),
    ensures
        st_wf(spec_next(tk, trim).1),
        spec_next(tk, trim).1.data == tk.data,
        spec_next(tk, trim).1.pos >= tk.pos,
        !(spec_next(tk, trim).0 is Eof) ==> (spec_next(tk, trim).1.pos > tk.pos || (spec_next(
            tk,
            trim,
        ).1.pos == tk.pos && tk.pending is Some && spec_next(tk, trim).1.pending is None)),
        spec_next(tk, trim).0 is Eof ==> spec_next(tk, trim).1.pending == tk.pending,
    decreases tk.data.len() - tk.pos,
{
    crate::xml::lemma_tok_end_bounds(tk.data, tk.pos);
    match tk.pending {
        Some(_) => {},
        None => {
            match crate::xml::tok_end(tk.data, tk.pos) {
                None => {},
                Some(e) => {
                    let st2 = TokSt { data: tk.data, pos: e, pending: None };
                    lemma_spec_next_progress(st2, trim);
                },
            }
        },
    }
}

/// Run the machine over every complete token the tokenizer still holds:
/// the fold of [`spec_step`] that [`MPDProcessor::continue_parsing`]
/// implements.
pub open spec fn spec_run(tk: TokSt, st: StView) -> (TokSt, StView, Seq<EventView>)
    decreases tk.data.len() - tk.pos, (if tk.pending is Some {
        1int
    } else {
        0int
    })
        when st_wf(tk) via spec_run_dec
{
    let trim = !wants_raw_text(st);
    let r = spec_next(tk, trim);
    if r.0 is Eof {
        (r.1, st, Seq::empty())
    } else {
        let sr = spec_step(st, r.0);
        let rest = spec_run(r.1, sr.0);
        (rest.0, rest.1, sr.1 + rest.2)
    }
}

#[via_fn]
proof fn spec_run_dec(tk: TokSt, st: StView) {
    lemma_spec_next_progress(tk, !wants_raw_text(st));
}

/// The resumable MPD processor: a tokenizer over the bytes fed so far,
/// the machine state, and the events emitted so far.
///
/// Feed chunks with [`MPDProcessor::feed`], advance with
/// [`MPDProcessor::continue_parsing`], and collect the emitted events with
/// [`MPDProcessor::take_events`].  Parsing suspends automatically when the
/// fed bytes end inside a token and resumes exactly there on the next
/// call.
#[derive(Debug)]
pub struct MPDProcessor {
    /// The resumable tokenizer holding every byte fed so far.
    pub tokenizer: Tokenizer,
    /// Where parsing stands between two tokens.
    pub state: MPDProcessorState,
    /// The events emitted and not yet taken by the host.
    pub events: Vec<ParserEvent>,
}

impl MPDProcessor {
    /// The processor's single well-formedness condition: the tokenizer's
    /// position lies inside its buffer.
    pub open spec fn wf(&self) -> bool {
        self.tokenizer.wf()
    }

    /// A fresh processor with no input.
    pub fn new() -> (r: MPDProcessor)
        ensures
            r.wf(),
            r.tokenizer.st().data == Seq::<u8>::empty(),
            r.tokenizer.st().pos == 0,
            r.tokenizer.st().pending is None,
            r.state@ == StView::Main,
            r.events@ == Seq::<ParserEvent>::empty(),
    {
        let r = MPDProcessor {
            tokenizer: Tokenizer::new(),
            state: MPDProcessorState::Main,
            events: Vec::new(),
        };
        proof {
            assert(r.events@ =~= Seq::<ParserEvent>::empty());
        }
        r
    }

    /// Feed one more chunk of MPD bytes.
    pub fn feed(&mut self, chunk: &[u8])
        requires
            old(self).wf(),
        ensures
            final(self).wf(),
            final(self).tokenizer.st().data == old(self).tokenizer.st().data + chunk@,
            final(self).tokenizer.st().pos == old(self).tokenizer.st().pos,
            final(self).tokenizer.st().pending == old(self).tokenizer.st().pending,
            final(self).state == old(self).state,
            final(self).events == old(self).events,
    {
        self.tokenizer.feed(chunk);
    }

    /// Parse every complete token of the bytes fed so far, then return.
    ///
    /// Returning does not mean the document is finished: when the input
    /// ends inside a token, the machine state and the partial token are
    /// kept, and the next call picks up exactly where this one stopped.
    pub fn continue_parsing(&mut self)
        requires
            old(self).wf(),
        ensures
            final(self).wf(),
            final(self).tokenizer.st() == spec_run(
                old(self).tokenizer.st(),
                old(self).state@,
            ).0,
            final(self).state@ == spec_run(old(self).tokenizer.st(), old(self).state@).1,
            events_view(final(self).events@) == events_view(old(self).events@) + spec_run(
                old(self).tokenizer.st(),
                old(self).state@,
            ).2,
    {
        let ghost orig_tk = self.tokenizer.st();
        let ghost orig_st = self.state@;
        let ghost orig_evs = events_view(self.events@);
        loop
            invariant
                self.wf(),
                orig_tk == old(self).tokenizer.st(),
                orig_st == old(self).state@,
                orig_evs == events_view(old(self).events@),
                ({
                    let orig = spec_run(orig_tk, orig_st);
                    let cur = spec_run(self.tokenizer.st(), self.state@);
                    &&& st_wf(orig_tk)
                    &&& orig.0 == cur.0
                    &&& orig.1 == cur.1
                    &&& orig_evs + orig.2 == events_view(self.events@) + cur.2
                }),
            decreases self.tokenizer.st().data.len() - self.tokenizer.st().pos, (
            if self.tokenizer.st().pending is Some {
                1int
            } else {
                0int
            }),
        {
            let ghost tk_entry = self.tokenizer.st();
            let ghost st_entry = self.state@;
            let ghost ev_entry = events_view(self.events@);
            let is_capture = match &self.state {
                MPDProcessorState::EventStreamEvent { .. } => true,
                _ => false,
            };
            self.tokenizer.set_trim(!is_capture);
            proof {
                lemma_spec_next_progress(tk_entry, !wants_raw_text(st_entry));
                crate::xml::lemma_spec_next_wf(tk_entry, !wants_raw_text(st_entry));
            }
            let t = self.tokenizer.next();
            match t {
                Token::Eof => {
                    proof {
                        let r = spec_next(tk_entry, !wants_raw_text(st_entry));
                        assert(spec_run(tk_entry, st_entry).0 == r.1);
                        assert(spec_run(tk_entry, st_entry).1 == st_entry);
                        assert(spec_run(tk_entry, st_entry).2 == Seq::<EventView>::empty());
                        assert(ev_entry + Seq::<EventView>::empty() =~= ev_entry);
                    }
                    return ;
                },
                _ => {
                    let mut st = MPDProcessorState::Main;
                    core::mem::swap(&mut st, &mut self.state);
                    let st2 = step(st, t, &mut self.events);
                    self.state = st2;
                    proof {
                        let r = spec_next(tk_entry, !wants_raw_text(st_entry));
                        let sr = spec_step(st_entry, t@);
                        let nxt = spec_run(self.tokenizer.st(), self.state@);
                        assert(r.1 == self.tokenizer.st());
                        assert(sr.0 == self.state@);
                        assert(spec_run(tk_entry, st_entry).0 == nxt.0);
                        assert(spec_run(tk_entry, st_entry).1 == nxt.1);
                        assert(spec_run(tk_entry, st_entry).2 == sr.1 + nxt.2);
                        assert(ev_entry + (sr.1 + nxt.2) =~= (ev_entry + sr.1) + nxt.2);
                    }
                },
            }
        }
    }

    /// Hand the emitted events to the host, leaving the queue empty.
    pub fn take_events(&mut self) -> (r: Vec<ParserEvent>)
        ensures
            r == old(self).events,
            final(self).events@ == Seq::<ParserEvent>::empty(),
            final(self).tokenizer == old(self).tokenizer,
            final(self).state == old(self).state,
    {
        let mut out: Vec<ParserEvent> = Vec::new();
        proof {
            assert(out@ =~= Seq::<ParserEvent>::empty());
        }
        core::mem::swap(&mut out, &mut self.events);
        out
    }
}

/// Resume equivalence, one extension at a time: running the machine on
/// the bytes received so far and then resuming — same position, same
/// pending tag, same machine state — after more bytes arrive produces
/// exactly the events of running on all the bytes at once.
pub proof fn lemma_run_extend(tk: TokSt, st: StView, ext: Seq<u8>)
    requires
        st_wf(tk),
    ensures
        ({
            let r1 = spec_run(tk, st);
            let resumed = spec_run(crate::xml::ext_st(r1.0, ext), r1.1);
            let whole = spec_run(crate::xml::ext_st(tk, ext), st);
            whole.0 == resumed.0 && whole.1 == resumed.1 && whole.2 == r1.2 + resumed.2
        }),
    decreases tk.data.len() - tk.pos, (if tk.pending is Some {
        1int
    } else {
        0int
    }),
{
    let trim = !wants_raw_text(st);
    lemma_spec_next_progress(tk, trim);
    let r = spec_next(tk, trim);
    let r1 = spec_run(tk, st);
    if r.0 is Eof {
        // the whole-run's first move coincides with the resumed run
        crate::xml::lemma_next_eof_extend(tk, ext, trim);
        assert(r1 == (r.1, st, Seq::<EventView>::empty()));
        let te = crate::xml::ext_st(tk, ext);
        let re = crate::xml::ext_st(r.1, ext);
        assert(spec_next(te, trim) == spec_next(re, trim));
        let whole = spec_run(te, st);
        let resumed = spec_run(re, st);
        if spec_next(re, trim).0 is Eof {
            assert(whole == (spec_next(te, trim).1, st, Seq::<EventView>::empty()));
            assert(resumed == (spec_next(re, trim).1, st, Seq::<EventView>::empty()));
        } else {
            assert(whole.0 == resumed.0 && whole.1 == resumed.1 && whole.2 == resumed.2);
        }
        assert(Seq::<EventView>::empty() + resumed.2 =~= resumed.2);
    } else {
        crate::xml::lemma_next_extend(tk, ext, trim);
        let sr = spec_step(st, r.0);
        lemma_run_extend(r.1, sr.0, ext);
        let rest = spec_run(r.1, sr.0);
        assert(r1 == (rest.0, rest.1, sr.1 + rest.2));
        let te = crate::xml::ext_st(tk, ext);
        assert(spec_next(te, trim).0 == r.0);
        assert(spec_next(te, trim).1 == crate::xml::ext_st(r.1, ext));
        let whole = spec_run(te, st);
        let resumed = spec_run(crate::xml::ext_st(rest.0, ext), rest.1);
        assert(whole.2 == sr.1 + spec_run(crate::xml::ext_st(r.1, ext), sr.0).2);
        assert(spec_run(crate::xml::ext_st(r.1, ext), sr.0).2 == rest.2 + resumed.2);
        assert(sr.1 + (rest.2 + resumed.2) =~= (sr.1 + rest.2) + resumed.2);
    }
}

/// Resume equivalence for a document split into two chunks: feeding `c1`,
/// parsing, feeding `c2` and parsing again emits exactly the events of
/// feeding `c1 + c2` at once; the machine also lands in the same state.
/// Splits into more chunks follow by applying this once per boundary.
pub proof fn lemma_resume_equivalence(c1: Seq<u8>, c2: Seq<u8>)
    ensures
        ({
            let start = TokSt { data: c1, pos: 0, pending: None };
            let first = spec_run(start, StView::Main);
            let resumed = spec_run(
                TokSt { data: c1 + c2, pos: first.0.pos, pending: first.0.pending },
                first.1,
            );
            let whole = spec_run(TokSt { data: c1 + c2, pos: 0, pending: None }, StView::Main);
            whole.0 == resumed.0 && whole.1 == resumed.1 && whole.2 == first.2 + resumed.2
        }),
{
    let start = TokSt { data: c1, pos: 0, pending: None };
    lemma_run_extend(start, StView::Main, c2);
    let first = spec_run(start, StView::Main);
    assert(crate::xml::ext_st(first.0, c2) == TokSt {
        data: c1 + c2,
        pos: first.0.pos,
        pending: first.0.pending,
    }) by {
        assert(first.0.data == c1) by {
            lemma_run_data_unchanged(start, StView::Main);
        }
    }
    assert(crate::xml::ext_st(start, c2) == TokSt { data: c1 + c2, pos: 0, pending: None });
}

/// A run never changes the byte buffer, only the position and the pending
/// tag.
pub proof fn lemma_run_data_unchanged(tk: TokSt, st: StView)
    requires
        st_wf(tk),
    ensures
        spec_run(tk, st).0.data == tk.data,
        st_wf(spec_run(tk, st).0),
    decreases tk.data.len() - tk.pos, (if tk.pending is Some {
        1int
    } else {
        0int
    }),
{
    let trim = !wants_raw_text(st);
    lemma_spec_next_progress(tk, trim);
    let r = spec_next(tk, trim);
    if r.0 is Eof {
    } else {
        let sr = spec_step(st, r.0);
        lemma_run_data_unchanged(r.1, sr.0);
    }
}

/// Timeline accumulation: the first `<S>` of a timeline starts at its
/// explicit `t`, or at zero without one; and an `<S>` recorded while a
/// previous one is last in the buffer starts, absent an explicit `t`,
/// exactly at `start + duration * (repeat_count + 1)` of that previous
/// entry (the machine keeps the running time base equal to that value,
/// saturating only at the top of the `u128` range).
pub proof fn lemma_timeline_accumulation(
    k: u32,
    tb: u128,
    segs: Seq<SegmentObject>,
    tok: TokView,
)
    requires
        tok matches TokView::Start { name, content, raw } && name == ("S").spec_bytes(),
        ({
            let attrs = xml_attrs_of(tok->Start_content, ("S").spec_bytes().len() as int);
            !spec_s_scan(attrs, attrs.len() as int).failed
        }),
    ensures
        ({
            let attrs = xml_attrs_of(tok->Start_content, ("S").spec_bytes().len() as int);
            let sc = spec_s_scan(attrs, attrs.len() as int);
            let r = spec_step_timeline(k, tb, segs, tok);
            &&& r.0 matches StView::SegmentTimeline { inner_tags: k2, time_base: tb2, segments: segs2 }
            &&& r.0->SegmentTimeline_segments == segs.push(spec_s_object(attrs, tb))
            &&& (!sc.has_t ==> r.0->SegmentTimeline_segments.last().start == tb)
            &&& (sc.has_t ==> r.0->SegmentTimeline_segments.last().start == sc.start)
            &&& r.0->SegmentTimeline_time_base == r.0->SegmentTimeline_segments.last(
            ).spec_next_time_base()
            &&& ({
                let o = r.0->SegmentTimeline_segments.last();
                o.start + o.duration * (o.repeat_count + 1) <= u128::MAX
                    ==> r.0->SegmentTimeline_time_base == o.start + o.duration * (o.repeat_count
                    + 1)
            })
        }),
{
}

/// The byte view of an ASCII literal is its characters, byte for byte.
proof fn lemma_ascii_literal(s: &str)
    requires
        vstd::utf8::is_ascii_chars(s@),
    ensures
        s.spec_bytes() =~= Seq::new(s@.len(), |i: int| s@[i] as u8),
{
    vstd::utf8::is_ascii_chars_encode_utf8(s@);
}

/// The container element names are pairwise distinguishable from
/// `SegmentTimeline` by their lengths.
proof fn lemma_timeline_name_distinct()
    ensures
        ("SegmentTimeline").spec_bytes() != ("BaseURL").spec_bytes(),
        ("SegmentTimeline").spec_bytes() != ("cenc:pssh").spec_bytes(),
        ("SegmentTimeline").spec_bytes() != ("Location").spec_bytes(),
{
    reveal_strlit("SegmentTimeline");
    reveal_strlit("BaseURL");
    reveal_strlit("cenc:pssh");
    reveal_strlit("Location");
    lemma_ascii_literal("SegmentTimeline");
    lemma_ascii_literal("BaseURL");
    lemma_ascii_literal("cenc:pssh");
    lemma_ascii_literal("Location");
    assert(("SegmentTimeline").spec_bytes().len() == 15);
    assert(("BaseURL").spec_bytes().len() == 7);
    assert(("cenc:pssh").spec_bytes().len() == 9);
    assert(("Location").spec_bytes().len() == 8);
}

/// Entering a `<SegmentTimeline>` from the outer loop starts the running
/// time base at zero, so a first `<S>` without an explicit `t` starts at
/// zero.
pub proof fn lemma_timeline_starts_at_zero(tok: TokView)
    requires
        tok matches TokView::Start { name, content, raw } && name == (
        "SegmentTimeline").spec_bytes(),
    ensures
        spec_step_main(tok).0 == (StView::SegmentTimeline {
            inner_tags: 0u32,
            time_base: 0u128,
            segments: Seq::<SegmentObject>::empty(),
        }),
        spec_step_main(tok).1 == Seq::<EventView>::empty(),
{
    lemma_timeline_name_distinct();
}

/// The stack of unclosed opens after `evs`, starting from `st`; `None`
/// when some close did not match the innermost unclosed open.
pub open spec fn stack_after(st: Option<Seq<TagName>>, evs: Seq<EventView>) -> Option<
    Seq<TagName>,
>
    decreases evs.len(),
{
    if evs.len() == 0 {
        st
    } else {
        match stack_after(st, evs.drop_last()) {
            None => None,
            Some(ss) => match evs.last() {
                EventView::Open(t) => Some(ss.push(t)),
                EventView::Close(t) => if ss.len() > 0 && ss.last() == t {
                    Some(ss.drop_last())
                } else {
                    None
                },
                _ => Some(ss),
            },
        }
    }
}

/// Tag balance of an event stream: in every prefix, each close matches
/// the innermost still-open tag.
pub open spec fn balanced(evs: Seq<EventView>) -> bool {
    stack_after(Some(Seq::empty()), evs) is Some
}

/// The stack after a concatenation is the stack threaded through both
/// halves.
pub proof fn lemma_stack_after_concat(
    st: Option<Seq<TagName>>,
    a: Seq<EventView>,
    b: Seq<EventView>,
)
    ensures
        stack_after(st, a + b) == stack_after(stack_after(st, a), b),
    decreases b.len(),
{
    if b.len() == 0 {
        assert(a + b =~= a);
    } else {
        lemma_stack_after_concat(st, a, b.drop_last());
        assert((a + b).drop_last() =~= a + b.drop_last());
        assert((a + b).last() == b.last());
        if stack_after(st, a) is None {
            lemma_stack_after_none(b);
            lemma_stack_after_none(b.drop_last());
        }
    }
}

/// A failed stack stays failed.
pub proof fn lemma_stack_after_none(evs: Seq<EventView>)
    ensures
        stack_after(None, evs) is None,
    decreases evs.len(),
{
    if evs.len() > 0 {
        lemma_stack_after_none(evs.drop_last());
    }
}

/// Attribute and custom events carry no structure: they leave the stack
/// unchanged.
pub open spec fn structureless(evs: Seq<EventView>) -> bool {
    forall|i: int|
        0 <= i < evs.len() ==> ((#[trigger] evs[i]) is Attr || evs[i] is Custom)
}

/// Structureless events leave any stack unchanged.
pub proof fn lemma_structureless_stack(st: Option<Seq<TagName>>, evs: Seq<EventView>)
    requires
        structureless(evs),
    ensures
        stack_after(st, evs) == st,
    decreases evs.len(),
{
    if evs.len() > 0 {
        assert(structureless(evs.drop_last()));
        lemma_structureless_stack(st, evs.drop_last());
        assert(evs.last() is Attr || evs.last() is Custom);
    }
}

/// One attribute entry's events are all attribute or custom events.
proof fn lemma_attr_step_structureless(elem: ElementKind, a: AttrView)
    ensures
        structureless(crate::attributes::spec_attr_step(elem, a)),
{
}

/// A whole dispatch batch is structureless.
pub proof fn lemma_attr_events_structureless(
    elem: ElementKind,
    attrs: Seq<AttrView>,
    n: int,
)
    ensures
        structureless(spec_attr_events(elem, attrs, n)),
    decreases n,
{
    if n > 0 {
        lemma_attr_events_structureless(elem, attrs, n - 1);
        lemma_attr_step_structureless(elem, attrs[n - 1]);
        let a = spec_attr_events(elem, attrs, n - 1);
        let b = crate::attributes::spec_attr_step(elem, attrs[n - 1]);
        assert(forall|i: int|
            0 <= i < (a + b).len() ==> ((#[trigger] (a + b)[i]) is Attr || (a + b)[i]
                is Custom)) by {
            assert(forall|i: int| 0 <= i < a.len() ==> (a + b)[i] == a[i]);
            assert(forall|i: int|
                a.len() <= i < (a + b).len() ==> (a + b)[i] == b[i - a.len()]);
        }
    }
}

/// Byte views and lengths of the first group of element-name literals.
proof fn lemma_names_group_a()
    ensures
        ("MPD").spec_bytes().len() == 3,
        ("Period").spec_bytes().len() == 6,
        ("AdaptationSet").spec_bytes().len() == 13,
        ("Representation").spec_bytes().len() == 14,
        ("Accessibility").spec_bytes().len() == 13,
        ("ContentComponent").spec_bytes().len() == 16,
        ("AdaptationSet").spec_bytes() != ("Accessibility").spec_bytes(),
{
    reveal_strlit("MPD");
    reveal_strlit("Period");
    reveal_strlit("AdaptationSet");
    reveal_strlit("Representation");
    reveal_strlit("Accessibility");
    reveal_strlit("ContentComponent");
    lemma_ascii_literal("MPD");
    lemma_ascii_literal("Period");
    lemma_ascii_literal("AdaptationSet");
    lemma_ascii_literal("Representation");
    lemma_ascii_literal("Accessibility");
    lemma_ascii_literal("ContentComponent");
    assert(("AdaptationSet").spec_bytes()[1] == ('d' as u8));
    assert(("Accessibility").spec_bytes()[1] == ('c' as u8));
}

/// Byte views and lengths of the second group of element-name literals.
proof fn lemma_names_group_b()
    ensures
        ("ContentProtection").spec_bytes().len() == 17,
        ("EssentialProperty").spec_bytes().len() == 17,
        ("InbandEventStream").spec_bytes().len() == 17,
        ("Role").spec_bytes().len() == 4,
        ("SupplementalProperty").spec_bytes().len() == 20,
        ("Initialization").spec_bytes().len() == 14,
        ("ContentProtection").spec_bytes() != ("EssentialProperty").spec_bytes(),
        ("ContentProtection").spec_bytes() != ("InbandEventStream").spec_bytes(),
        ("EssentialProperty").spec_bytes() != ("InbandEventStream").spec_bytes(),
        ("Representation").spec_bytes() != ("Initialization").spec_bytes(),
{
    reveal_strlit("ContentProtection");
    reveal_strlit("EssentialProperty");
    reveal_strlit("InbandEventStream");
    reveal_strlit("Role");
    reveal_strlit("SupplementalProperty");
    reveal_strlit("Initialization");
    reveal_strlit("Representation");
    lemma_ascii_literal("ContentProtection");
    lemma_ascii_literal("EssentialProperty");
    lemma_ascii_literal("InbandEventStream");
    lemma_ascii_literal("Role");
    lemma_ascii_literal("SupplementalProperty");
    lemma_ascii_literal("Initialization");
    lemma_ascii_literal("Representation");
    assert(("ContentProtection").spec_bytes()[0] == ('C' as u8));
    assert(("EssentialProperty").spec_bytes()[0] == ('E' as u8));
    assert(("InbandEventStream").spec_bytes()[0] == ('I' as u8));
    assert(("Representation").spec_bytes()[0] == ('R' as u8));
    assert(("Initialization").spec_bytes()[0] == ('I' as u8));
}

/// Byte views and lengths of the third group of element-name literals.
proof fn lemma_names_group_c()
    ensures
        ("SegmentBase").spec_bytes().len() == 11,
        ("SegmentTemplate").spec_bytes().len() == 15,
        ("SegmentList").spec_bytes().len() == 11,
        ("SegmentURL").spec_bytes().len() == 10,
        ("UTCTiming").spec_bytes().len() == 9,
        ("SegmentTimeline").spec_bytes().len() == 15,
        ("EventStream").spec_bytes().len() == 11,
        ("SegmentBase").spec_bytes() != ("SegmentList").spec_bytes(),
        ("SegmentBase").spec_bytes() != ("EventStream").spec_bytes(),
        ("SegmentList").spec_bytes() != ("EventStream").spec_bytes(),
        ("SegmentTemplate").spec_bytes() != ("SegmentTimeline").spec_bytes(),
{
    reveal_strlit("SegmentBase");
    reveal_strlit("SegmentTemplate");
    reveal_strlit("SegmentList");
    reveal_strlit("SegmentURL");
    reveal_strlit("UTCTiming");
    reveal_strlit("SegmentTimeline");
    reveal_strlit("EventStream");
    lemma_ascii_literal("SegmentBase");
    lemma_ascii_literal("SegmentTemplate");
    lemma_ascii_literal("SegmentList");
    lemma_ascii_literal("SegmentURL");
    lemma_ascii_literal("UTCTiming");
    lemma_ascii_literal("SegmentTimeline");
    lemma_ascii_literal("EventStream");
    assert(("SegmentBase").spec_bytes()[7] == ('B' as u8));
    assert(("SegmentList").spec_bytes()[7] == ('L' as u8));
    assert(("SegmentBase").spec_bytes()[0] == ('S' as u8));
    assert(("EventStream").spec_bytes()[0] == ('E' as u8));
    assert(("SegmentList").spec_bytes()[0] == ('S' as u8));
    assert(("SegmentTemplate").spec_bytes()[8] == ('e' as u8));
    assert(("SegmentTimeline").spec_bytes()[8] == ('i' as u8));
}

/// Byte views and lengths of the container and leaf element-name
/// literals.
proof fn lemma_names_group_d()
    ensures
        ("BaseURL").spec_bytes().len() == 7,
        ("cenc:pssh").spec_bytes().len() == 9,
        ("Location").spec_bytes().len() == 8,
        ("Event").spec_bytes().len() == 5,
        ("S").spec_bytes().len() == 1,
        ("UTCTiming").spec_bytes() != ("cenc:pssh").spec_bytes(),
{
    reveal_strlit("BaseURL");
    reveal_strlit("cenc:pssh");
    reveal_strlit("Location");
    reveal_strlit("Event");
    reveal_strlit("S");
    reveal_strlit("UTCTiming");
    lemma_ascii_literal("BaseURL");
    lemma_ascii_literal("cenc:pssh");
    lemma_ascii_literal("Location");
    lemma_ascii_literal("Event");
    lemma_ascii_literal("S");
    lemma_ascii_literal("UTCTiming");
    assert(("UTCTiming").spec_bytes()[0] == ('U' as u8));
    assert(("cenc:pssh").spec_bytes()[0] == ('c' as u8));
}

/// The byte views of all recognised element names are pairwise distinct
/// (stated through their lengths and the few same-length tie-breakers).
pub proof fn lemma_element_names()
    ensures
        ("MPD").spec_bytes().len() == 3,
        ("Period").spec_bytes().len() == 6,
        ("AdaptationSet").spec_bytes().len() == 13,
        ("Representation").spec_bytes().len() == 14,
        ("Accessibility").spec_bytes().len() == 13,
        ("ContentComponent").spec_bytes().len() == 16,
        ("ContentProtection").spec_bytes().len() == 17,
        ("EssentialProperty").spec_bytes().len() == 17,
        ("InbandEventStream").spec_bytes().len() == 17,
        ("Role").spec_bytes().len() == 4,
        ("SupplementalProperty").spec_bytes().len() == 20,
        ("Initialization").spec_bytes().len() == 14,
        ("SegmentBase").spec_bytes().len() == 11,
        ("SegmentTemplate").spec_bytes().len() == 15,
        ("SegmentList").spec_bytes().len() == 11,
        ("SegmentURL").spec_bytes().len() == 10,
        ("UTCTiming").spec_bytes().len() == 9,
        ("SegmentTimeline").spec_bytes().len() == 15,
        ("EventStream").spec_bytes().len() == 11,
        ("BaseURL").spec_bytes().len() == 7,
        ("cenc:pssh").spec_bytes().len() == 9,
        ("Location").spec_bytes().len() == 8,
        ("Event").spec_bytes().len() == 5,
        ("S").spec_bytes().len() == 1,
        ("AdaptationSet").spec_bytes() != ("Accessibility").spec_bytes(),
        ("ContentProtection").spec_bytes() != ("EssentialProperty").spec_bytes(),
        ("ContentProtection").spec_bytes() != ("InbandEventStream").spec_bytes(),
        ("EssentialProperty").spec_bytes() != ("InbandEventStream").spec_bytes(),
        ("Representation").spec_bytes() != ("Initialization").spec_bytes(),
        ("SegmentBase").spec_bytes() != ("SegmentList").spec_bytes(),
        ("SegmentBase").spec_bytes() != ("EventStream").spec_bytes(),
        ("SegmentList").spec_bytes() != ("EventStream").spec_bytes(),
        ("SegmentTemplate").spec_bytes() != ("SegmentTimeline").spec_bytes(),
        ("UTCTiming").spec_bytes() != ("cenc:pssh").spec_bytes(),
{
    lemma_names_group_a();
    lemma_names_group_b();
    lemma_names_group_c();
    lemma_names_group_d();
}

/// The open tags among a batch of events, in order.
pub open spec fn opens_of(evs: Seq<EventView>) -> Seq<TagName>
    decreases evs.len(),
{
    if evs.len() == 0 {
        Seq::empty()
    } else {
        opens_of(evs.drop_last()) + (match evs.last() {
            EventView::Open(t) => seq![t],
            _ => Seq::<TagName>::empty(),
        })
    }
}

/// Structureless events contain no opens.
pub proof fn lemma_structureless_opens(evs: Seq<EventView>)
    requires
        structureless(evs),
    ensures
        opens_of(evs) == Seq::<TagName>::empty(),
    decreases evs.len(),
{
    if evs.len() > 0 {
        assert(structureless(evs.drop_last()));
        lemma_structureless_opens(evs.drop_last());
        assert(evs.last() is Attr || evs.last() is Custom);
        assert(opens_of(evs) =~= Seq::<TagName>::empty());
    }
}

/// Opens distribute over concatenation.
pub proof fn lemma_opens_of_concat(a: Seq<EventView>, b: Seq<EventView>)
    ensures
        opens_of(a + b) == opens_of(a) + opens_of(b),
    decreases b.len(),
{
    if b.len() == 0 {
        assert(a + b =~= a);
        assert(opens_of(a) + Seq::<TagName>::empty() =~= opens_of(a));
    } else {
        lemma_opens_of_concat(a, b.drop_last());
        assert((a + b).drop_last() =~= a + b.drop_last());
        assert((a + b).last() == b.last());
        match b.last() {
            EventView::Open(t) => {
                assert((opens_of(a) + opens_of(b.drop_last())) + seq![t] =~= opens_of(a) + (
                opens_of(b.drop_last()) + seq![t]));
            },
            _ => {
                assert(opens_of(b) == opens_of(b.drop_last()) + Seq::<TagName>::empty());
                assert(opens_of(b.drop_last()) + Seq::<TagName>::empty() =~= opens_of(
                    b.drop_last(),
                ));
            },
        }
    }
}

/// The structural opens the outer loop emits for a start tag of this
/// name (the attribute content does not matter).
pub open spec fn main_opens(name: Seq<u8>) -> Seq<TagName> {
    opens_of(
        spec_step_main(
            TokView::Start { name, content: Seq::empty(), raw: Seq::empty() },
        ).1,
    )
}

/// The expected stack of unclosed opens for a stack of element names all
/// consumed by the outer loop.
pub open spec fn main_stack(ns: Seq<Seq<u8>>) -> Seq<TagName>
    decreases ns.len(),
{
    if ns.len() == 0 {
        Seq::empty()
    } else {
        main_stack(ns.drop_last()) + main_opens(ns.last())
    }
}

/// How many entries of `ns` equal `name`.
pub open spec fn count_name(ns: Seq<Seq<u8>>, name: Seq<u8>) -> int
    decreases ns.len(),
{
    if ns.len() == 0 {
        0
    } else {
        count_name(ns.drop_last(), name) + (if ns.last() == name {
            1int
        } else {
            0int
        })
    }
}

/// The count never exceeds the length.
pub proof fn lemma_count_le_len(ns: Seq<Seq<u8>>, name: Seq<u8>)
    ensures
        0 <= count_name(ns, name) <= ns.len(),
    decreases ns.len(),
{
    if ns.len() > 0 {
        lemma_count_le_len(ns.drop_last(), name);
    }
}

/// The element names the outer loop hands to a sub-machine.
pub open spec fn is_container_name(name: Seq<u8>) -> bool {
    ||| name == ("BaseURL").spec_bytes()
    ||| name == ("cenc:pssh").spec_bytes()
    ||| name == ("Location").spec_bytes()
    ||| name == ("SegmentTimeline").spec_bytes()
    ||| name == ("EventStream").spec_bytes()
}

/// No entry of `ns` is a container name.
pub open spec fn main_ok(ns: Seq<Seq<u8>>) -> bool {
    forall|i: int| 0 <= i < ns.len() ==> !is_container_name(#[trigger] ns[i])
}

/// The events one start tag contributes open exactly [`main_opens`] of
/// its name, whatever its attribute content.
#[verifier::rlimit(100)]
#[verifier::spinoff_prover]
pub proof fn lemma_main_start_opens(name: Seq<u8>, content: Seq<u8>, raw: Seq<u8>)
    ensures
        opens_of(spec_step_main(TokView::Start { name, content, raw }).1) == main_opens(name),
        main_opens(name) == main_start_tag(name),
{
    lemma_start_opens_one(name, content, raw);
    lemma_start_opens_one(name, Seq::empty(), Seq::empty());
}

/// In every branch, a start tag's events are one open followed by a
/// structureless batch, or entirely structureless.
#[verifier::rlimit(100)]
#[verifier::spinoff_prover]
proof fn lemma_start_opens_one(name: Seq<u8>, content: Seq<u8>, raw: Seq<u8>)
    ensures
        ({
            let evs = spec_step_main(TokView::Start { name, content, raw }).1;
            opens_of(evs) == main_start_tag(name)
        }),
{
    let evs = spec_step_main(TokView::Start { name, content, raw }).1;
    let nl = name.len() as int;
    if name == ("BaseURL").spec_bytes() {
        lemma_open_plus_attrs(TagName::BaseURL, ElementKind::BaseUrl, content, nl);
    } else if name == ("cenc:pssh").spec_bytes() || name == ("Location").spec_bytes() || name
        == ("SegmentTimeline").spec_bytes() {
        assert(opens_of(evs) =~= Seq::<TagName>::empty());
    } else if name == ("EventStream").spec_bytes() {
        lemma_open_plus_attrs(TagName::EventStream, ElementKind::EventStream, content, nl);
    } else if name == ("MPD").spec_bytes() {
        lemma_open_plus_attrs(TagName::MPD, ElementKind::Mpd, content, nl);
    } else if name == ("Period").spec_bytes() {
        lemma_open_plus_attrs(TagName::Period, ElementKind::Period, content, nl);
    } else if name == ("AdaptationSet").spec_bytes() {
        lemma_open_plus_attrs(TagName::AdaptationSet, ElementKind::AdaptationSet, content, nl);
    } else if name == ("Representation").spec_bytes() {
        lemma_open_plus_attrs(TagName::Representation, ElementKind::Representation, content, nl);
    } else if name == ("Accessibility").spec_bytes() {
        lemma_open_plus_attrs(TagName::Accessibility, ElementKind::Scheme, content, nl);
    } else if name == ("ContentComponent").spec_bytes() {
        lemma_open_plus_attrs(TagName::ContentComponent, ElementKind::ContentComponent, content, nl);
    } else if name == ("ContentProtection").spec_bytes() {
        lemma_open_plus_attrs(TagName::ContentProtection, ElementKind::ContentProtection, content, nl);
    } else if name == ("EssentialProperty").spec_bytes() {
        lemma_open_plus_attrs(TagName::EssentialProperty, ElementKind::Scheme, content, nl);
    } else if name == ("InbandEventStream").spec_bytes() {
        lemma_open_plus_attrs(TagName::InbandEventStream, ElementKind::Scheme, content, nl);
    } else if name == ("Role").spec_bytes() {
        lemma_open_plus_attrs(TagName::Role, ElementKind::Scheme, content, nl);
    } else if name == ("SupplementalProperty").spec_bytes() {
        lemma_open_plus_attrs(TagName::SupplementalProperty, ElementKind::Scheme, content, nl);
    } else if name == ("SegmentBase").spec_bytes() {
        lemma_open_plus_attrs(TagName::SegmentBase, ElementKind::SegmentBase, content, nl);
    } else if name == ("Initialization").spec_bytes() {
        lemma_attr_events_structureless(
            ElementKind::Initialization,
            xml_attrs_of(content, nl),
            xml_attrs_of(content, nl).len() as int,
        );
        lemma_structureless_opens(attr_evs(ElementKind::Initialization, content, nl));
    } else if name == ("SegmentTemplate").spec_bytes() {
        lemma_open_plus_attrs(TagName::SegmentTemplate, ElementKind::SegmentTemplate, content, nl);
    } else if name == ("SegmentList").spec_bytes() {
        lemma_open_plus_attrs(TagName::SegmentList, ElementKind::SegmentBase, content, nl);
    } else if name == ("SegmentURL").spec_bytes() {
        lemma_open_plus_attrs(TagName::SegmentUrl, ElementKind::SegmentUrl, content, nl);
    } else if name == ("UTCTiming").spec_bytes() {
        lemma_open_plus_attrs(TagName::UtcTiming, ElementKind::Scheme, content, nl);
    } else {
        assert(opens_of(evs) =~= Seq::<TagName>::empty());
    }
}

/// The single open a start of this name pushes in the outer loop, as a
/// table independent of the attribute content.
pub open spec fn main_start_tag(name: Seq<u8>) -> Seq<TagName> {
    if name == ("BaseURL").spec_bytes() {
        seq![TagName::BaseURL]
    } else if name == ("cenc:pssh").spec_bytes() || name == ("Location").spec_bytes() || name
        == ("SegmentTimeline").spec_bytes() {
        Seq::empty()
    } else if name == ("EventStream").spec_bytes() {
        seq![TagName::EventStream]
    } else if name == ("MPD").spec_bytes() {
        seq![TagName::MPD]
    } else if name == ("Period").spec_bytes() {
        seq![TagName::Period]
    } else if name == ("AdaptationSet").spec_bytes() {
        seq![TagName::AdaptationSet]
    } else if name == ("Representation").spec_bytes() {
        seq![TagName::Representation]
    } else if name == ("Accessibility").spec_bytes() {
        seq![TagName::Accessibility]
    } else if name == ("ContentComponent").spec_bytes() {
        seq![TagName::ContentComponent]
    } else if name == ("ContentProtection").spec_bytes() {
        seq![TagName::ContentProtection]
    } else if name == ("EssentialProperty").spec_bytes() {
        seq![TagName::EssentialProperty]
    } else if name == ("InbandEventStream").spec_bytes() {
        seq![TagName::InbandEventStream]
    } else if name == ("Role").spec_bytes() {
        seq![TagName::Role]
    } else if name == ("SupplementalProperty").spec_bytes() {
        seq![TagName::SupplementalProperty]
    } else if name == ("SegmentBase").spec_bytes() {
        seq![TagName::SegmentBase]
    } else if name == ("Initialization").spec_bytes() {
        Seq::empty()
    } else if name == ("SegmentTemplate").spec_bytes() {
        seq![TagName::SegmentTemplate]
    } else if name == ("SegmentList").spec_bytes() {
        seq![TagName::SegmentList]
    } else if name == ("SegmentURL").spec_bytes() {
        seq![TagName::SegmentUrl]
    } else if name == ("UTCTiming").spec_bytes() {
        seq![TagName::UtcTiming]
    } else {
        Seq::empty()
    }
}

/// An open followed by a structureless batch opens exactly that tag.
proof fn lemma_open_plus_attrs(tag: TagName, elem: ElementKind, content: Seq<u8>, nl: int)
    ensures
        opens_of(seq![EventView::Open(tag)] + attr_evs(elem, content, nl)) == seq![tag],
{
    lemma_attr_events_structureless(
        elem,
        xml_attrs_of(content, nl),
        xml_attrs_of(content, nl).len() as int,
    );
    lemma_opens_of_concat(seq![EventView::Open(tag)], attr_evs(elem, content, nl));
    lemma_structureless_opens(attr_evs(elem, content, nl));
    assert(seq![EventView::Open(tag)].drop_last() =~= Seq::<EventView>::empty());
    assert(seq![EventView::Open(tag)].drop_last().len() == 0);
    assert(opens_of(seq![EventView::Open(tag)].drop_last()) =~= Seq::<TagName>::empty());
    assert(opens_of(seq![EventView::Open(tag)]) =~= seq![tag]);
    assert(seq![tag] + Seq::<TagName>::empty() =~= seq![tag]);
}

/// For a non-container name the close the outer loop emits undoes
/// exactly the open its start emitted.
#[verifier::rlimit(100)]
#[verifier::spinoff_prover]
pub proof fn lemma_open_close_agree(name: Seq<u8>)
    requires
        !is_container_name(name),
    ensures
        main_start_tag(name).len() <= 1,
        main_start_tag(name).len() == 1 ==> close_event_of(name) == seq![
            EventView::Close(main_start_tag(name)[0]),
        ],
        main_start_tag(name).len() == 0 ==> close_event_of(name) == Seq::<EventView>::empty(),
{
    lemma_element_names();
}

/// Well-nestedness of one token against the stack of open element names:
/// an end tag must close the innermost open element, and tokenizer
/// faults are outside the balance law.
pub open spec fn tok_ok(ns: Seq<Seq<u8>>, tok: TokView) -> bool {
    match tok {
        TokView::End { name, raw } => ns.len() > 0 && ns.last() == name,
        TokView::Fault { msg } => false,
        _ => true,
    }
}

/// The stack of open element names after one token.
pub open spec fn ns_after(ns: Seq<Seq<u8>>, tok: TokView) -> Seq<Seq<u8>> {
    match tok {
        TokView::Start { name, content, raw } => ns.push(name),
        TokView::End { name, raw } => ns.drop_last(),
        _ => ns,
    }
}

/// The sub-machine invariant: the name stack splits at the scope's own
/// element, everything before it was consumed by the outer loop, the
/// nesting counter counts the same-named opens above the split, and the
/// event stack holds the outer opens plus this scope's own open (if it
/// has one).
pub open spec fn scope_inv(
    ns: Seq<Seq<u8>>,
    es: Seq<TagName>,
    dname: Seq<u8>,
    k: int,
    pushed: Seq<TagName>,
) -> bool {
    exists|i: int|
        {
            &&& 0 <= i < ns.len()
            &&& #[trigger] ns[i] == dname
            &&& main_ok(ns.take(i))
            &&& count_name(ns.skip(i + 1), dname) == k
            &&& es == main_stack(ns.take(i)) + pushed
        }
}

/// The capture invariant: the name stack splits at the `<EventStream>`
/// and again at the `<Event>` being captured.
pub open spec fn capture_inv(ns: Seq<Seq<u8>>, es: Seq<TagName>, es_k: int, k: int) -> bool {
    exists|i: int, j: int|
        {
            &&& 0 <= i < j < ns.len()
            &&& #[trigger] ns[i] == ("EventStream").spec_bytes()
            &&& #[trigger] ns[j] == ("Event").spec_bytes()
            &&& main_ok(ns.take(i))
            &&& count_name(ns.subrange(i + 1, j), ("EventStream").spec_bytes()) == es_k
            &&& count_name(ns.skip(j + 1), ("Event").spec_bytes()) == k
            &&& es == main_stack(ns.take(i)) + seq![TagName::EventStream, TagName::EventStreamElt]
        }
}

/// The machine-to-stack correspondence: what the event stack must look
/// like in every machine state, given the stack of open element names.
pub open spec fn bal_inv(st: StView, ns: Seq<Seq<u8>>, es: Seq<TagName>) -> bool {
    match st {
        StView::Main => es == main_stack(ns) && main_ok(ns),
        StView::SegmentTimeline { inner_tags, time_base, segments } => scope_inv(
            ns,
            es,
            ("SegmentTimeline").spec_bytes(),
            inner_tags as int,
            Seq::<TagName>::empty(),
        ),
        StView::Location { inner_tags } => scope_inv(
            ns,
            es,
            ("Location").spec_bytes(),
            inner_tags as int,
            Seq::<TagName>::empty(),
        ),
        StView::Cenc { inner_tags } => scope_inv(
            ns,
            es,
            ("cenc:pssh").spec_bytes(),
            inner_tags as int,
            Seq::<TagName>::empty(),
        ),
        StView::BaseURL { inner_tags } => scope_inv(
            ns,
            es,
            ("BaseURL").spec_bytes(),
            inner_tags as int,
            seq![TagName::BaseURL],
        ),
        StView::EventStream { inner_tags } => scope_inv(
            ns,
            es,
            ("EventStream").spec_bytes(),
            inner_tags as int,
            seq![TagName::EventStream],
        ),
        StView::EventStreamEvent { event_stream_inner_tags, inner_tags, xml_buffer } => (
        capture_inv(ns, es, event_stream_inner_tags as int, inner_tags as int)),
    }
}

/// Counting distributes over push.
pub proof fn lemma_count_push(ns: Seq<Seq<u8>>, x: Seq<u8>, d: Seq<u8>)
    ensures
        count_name(ns.push(x), d) == count_name(ns, d) + (if x == d {
            1int
        } else {
            0int
        }),
{
    assert(ns.push(x).drop_last() =~= ns);
}

/// A start-tag step leaves the event stack with exactly the opened tag
/// appended, whatever the attribute content produced.
#[verifier::rlimit(100)]
#[verifier::spinoff_prover]
pub proof fn lemma_start_stack(name: Seq<u8>, content: Seq<u8>, raw: Seq<u8>, es: Seq<TagName>)
    ensures
        stack_after(
            Some(es),
            spec_step_main(TokView::Start { name, content, raw }).1,
        ) == Some(es + main_start_tag(name)),
{
    let evs = spec_step_main(TokView::Start { name, content, raw }).1;
    let nl = name.len() as int;
    if name == ("BaseURL").spec_bytes() {
        lemma_stack_open_plus_attrs(TagName::BaseURL, ElementKind::BaseUrl, content, nl, es);
    } else if name == ("cenc:pssh").spec_bytes() || name == ("Location").spec_bytes() || name
        == ("SegmentTimeline").spec_bytes() {
        assert(es + Seq::<TagName>::empty() =~= es);
    } else if name == ("EventStream").spec_bytes() {
        lemma_stack_open_plus_attrs(TagName::EventStream, ElementKind::EventStream, content, nl, es);
    } else if name == ("MPD").spec_bytes() {
        lemma_stack_open_plus_attrs(TagName::MPD, ElementKind::Mpd, content, nl, es);
    } else if name == ("Period").spec_bytes() {
        lemma_stack_open_plus_attrs(TagName::Period, ElementKind::Period, content, nl, es);
    } else if name == ("AdaptationSet").spec_bytes() {
        lemma_stack_open_plus_attrs(
            TagName::AdaptationSet,
            ElementKind::AdaptationSet,
            content,
            nl,
            es,
        );
    } else if name == ("Representation").spec_bytes() {
        lemma_stack_open_plus_attrs(
            TagName::Representation,
            ElementKind::Representation,
            content,
            nl,
            es,
        );
    } else if name == ("Accessibility").spec_bytes() {
        lemma_stack_open_plus_attrs(TagName::Accessibility, ElementKind::Scheme, content, nl, es);
    } else if name == ("ContentComponent").spec_bytes() {
        lemma_stack_open_plus_attrs(
            TagName::ContentComponent,
            ElementKind::ContentComponent,
            content,
            nl,
            es,
        );
    } else if name == ("ContentProtection").spec_bytes() {
        lemma_stack_open_plus_attrs(
            TagName::ContentProtection,
            ElementKind::ContentProtection,
            content,
            nl,
            es,
        );
    } else if name == ("EssentialProperty").spec_bytes() {
        lemma_stack_open_plus_attrs(
            TagName::EssentialProperty,
            ElementKind::Scheme,
            content,
            nl,
            es,
        );
    } else if name == ("InbandEventStream").spec_bytes() {
        lemma_stack_open_plus_attrs(
            TagName::InbandEventStream,
            ElementKind::Scheme,
            content,
            nl,
            es,
        );
    } else if name == ("Role").spec_bytes() {
        lemma_stack_open_plus_attrs(TagName::Role, ElementKind::Scheme, content, nl, es);
    } else if name == ("SupplementalProperty").spec_bytes() {
        lemma_stack_open_plus_attrs(
            TagName::SupplementalProperty,
            ElementKind::Scheme,
            content,
            nl,
            es,
        );
    } else if name == ("SegmentBase").spec_bytes() {
        lemma_stack_open_plus_attrs(TagName::SegmentBase, ElementKind::SegmentBase, content, nl, es);
    } else if name == ("Initialization").spec_bytes() {
        lemma_attr_events_structureless(
            ElementKind::Initialization,
            xml_attrs_of(content, nl),
            xml_attrs_of(content, nl).len() as int,
        );
        lemma_structureless_stack(
            Some(es),
            attr_evs(ElementKind::Initialization, content, nl),
        );
        assert(es + Seq::<TagName>::empty() =~= es);
    } else if name == ("SegmentTemplate").spec_bytes() {
        lemma_stack_open_plus_attrs(
            TagName::SegmentTemplate,
            ElementKind::SegmentTemplate,
            content,
            nl,
            es,
        );
    } else if name == ("SegmentList").spec_bytes() {
        lemma_stack_open_plus_attrs(TagName::SegmentList, ElementKind::SegmentBase, content, nl, es);
    } else if name == ("SegmentURL").spec_bytes() {
        lemma_stack_open_plus_attrs(TagName::SegmentUrl, ElementKind::SegmentUrl, content, nl, es);
    } else if name == ("UTCTiming").spec_bytes() {
        lemma_stack_open_plus_attrs(TagName::UtcTiming, ElementKind::Scheme, content, nl, es);
    } else {
        assert(es + Seq::<TagName>::empty() =~= es);
    }
}

/// The stack after one open and a structureless batch.
proof fn lemma_stack_open_plus_attrs(
    tag: TagName,
    elem: ElementKind,
    content: Seq<u8>,
    nl: int,
    es: Seq<TagName>,
)
    ensures
        stack_after(Some(es), seq![EventView::Open(tag)] + attr_evs(elem, content, nl)) == Some(
            es.push(tag),
        ),
        es.push(tag) == es + seq![tag],
{
    lemma_attr_events_structureless(
        elem,
        xml_attrs_of(content, nl),
        xml_attrs_of(content, nl).len() as int,
    );
    lemma_stack_after_concat(Some(es), seq![EventView::Open(tag)], attr_evs(elem, content, nl));
    lemma_structureless_stack(
        stack_after(Some(es), seq![EventView::Open(tag)]),
        attr_evs(elem, content, nl),
    );
    assert(seq![EventView::Open(tag)].drop_last() =~= Seq::<EventView>::empty());
    assert(stack_after(Some(es), seq![EventView::Open(tag)].drop_last()) == Some(es));
    assert(stack_after(Some(es), seq![EventView::Open(tag)]) == Some(es.push(tag)));
    assert(es.push(tag) =~= es + seq![tag]);
}

/// Balance preservation in the outer loop: start tags.
#[verifier::rlimit(100)]
#[verifier::spinoff_prover]
proof fn lemma_step_balance_main_start(
    ns: Seq<Seq<u8>>,
    es: Seq<TagName>,
    name: Seq<u8>,
    content: Seq<u8>,
    raw: Seq<u8>,
)
    requires
        bal_inv(StView::Main, ns, es),
    ensures
        ({
            let tok = TokView::Start { name, content, raw };
            &&& stack_after(Some(es), spec_step_main(tok).1) is Some
            &&& bal_inv(
                spec_step_main(tok).0,
                ns_after(ns, tok),
                stack_after(Some(es), spec_step_main(tok).1)->0,
            )
        }),
{
    let tok = TokView::Start { name, content, raw };
    lemma_start_stack(name, content, raw, es);
    lemma_main_start_opens(name, content, raw);
    let ns2 = ns.push(name);
    assert(ns2.drop_last() =~= ns);
    assert(ns2.take(ns.len() as int) =~= ns);
    assert(ns2.skip(ns.len() as int + 1) =~= Seq::<Seq<u8>>::empty());
    if name == ("BaseURL").spec_bytes() {
        assert(ns2[ns.len() as int] == name);
        assert(scope_inv(
            ns2,
            es + seq![TagName::BaseURL],
            ("BaseURL").spec_bytes(),
            0,
            seq![TagName::BaseURL],
        ));
    } else if name == ("cenc:pssh").spec_bytes() {
        assert(ns2[ns.len() as int] == name);
        assert(es + Seq::<TagName>::empty() =~= es);
        assert(scope_inv(ns2, es, ("cenc:pssh").spec_bytes(), 0, Seq::<TagName>::empty()));
    } else if name == ("Location").spec_bytes() {
        assert(ns2[ns.len() as int] == name);
        assert(es + Seq::<TagName>::empty() =~= es);
        assert(scope_inv(ns2, es, ("Location").spec_bytes(), 0, Seq::<TagName>::empty()));
    } else if name == ("SegmentTimeline").spec_bytes() {
        assert(ns2[ns.len() as int] == name);
        assert(es + Seq::<TagName>::empty() =~= es);
        assert(scope_inv(
            ns2,
            es,
            ("SegmentTimeline").spec_bytes(),
            0,
            Seq::<TagName>::empty(),
        ));
    } else if name == ("EventStream").spec_bytes() {
        assert(ns2[ns.len() as int] == name);
        assert(scope_inv(
            ns2,
            es + seq![TagName::EventStream],
            ("EventStream").spec_bytes(),
            0,
            seq![TagName::EventStream],
        ));
    } else {
        assert(!is_container_name(name));
        assert(main_ok(ns2)) by {
            assert(forall|t: int| 0 <= t < ns.len() ==> ns2[t] == #[trigger] ns[t]);
        }
        assert(main_stack(ns2) == main_stack(ns) + main_opens(name));
    }
}

/// Balance preservation in the outer loop: end tags.
#[verifier::rlimit(100)]
#[verifier::spinoff_prover]
proof fn lemma_step_balance_main_end(ns: Seq<Seq<u8>>, es: Seq<TagName>, name: Seq<u8>, raw: Seq<
    u8,
>)
    requires
        bal_inv(StView::Main, ns, es),
        ns.len() > 0 && ns.last() == name,
    ensures
        ({
            let tok = TokView::End { name, raw };
            &&& stack_after(Some(es), spec_step_main(tok).1) is Some
            &&& bal_inv(
                spec_step_main(tok).0,
                ns_after(ns, tok),
                stack_after(Some(es), spec_step_main(tok).1)->0,
            )
        }),
{
    let nd = ns.drop_last();
    assert(!is_container_name(name)) by {
        assert(ns[ns.len() - 1] == name);
    }
    lemma_open_close_agree(name);
    lemma_main_start_opens(name, Seq::empty(), Seq::empty());
    assert(es == main_stack(nd) + main_opens(name));
    assert(main_ok(nd)) by {
        assert(forall|t: int| 0 <= t < nd.len() ==> nd[t] == #[trigger] ns[t]);
    }
    if main_start_tag(name).len() == 1 {
        let tag = main_start_tag(name)[0];
        assert(main_opens(name) == seq![tag]);
        assert(es.last() == tag);
        assert(es.len() > 0);
        assert(seq![EventView::Close(tag)].drop_last() =~= Seq::<EventView>::empty());
        assert(stack_after(Some(es), seq![EventView::Close(tag)].drop_last()) == Some(es));
        assert(stack_after(Some(es), seq![EventView::Close(tag)]) == Some(es.drop_last()));
        assert(es.drop_last() =~= main_stack(nd));
    } else {
        assert(main_opens(name) =~= Seq::<TagName>::empty());
        assert(es =~= main_stack(nd));
    }
}

/// Balance preservation in the outer loop.
proof fn lemma_step_balance_main(ns: Seq<Seq<u8>>, es: Seq<TagName>, tok: TokView)
    requires
        bal_inv(StView::Main, ns, es),
        tok_ok(ns, tok),
        !(tok is Eof),
    ensures
        stack_after(Some(es), spec_step_main(tok).1) is Some,
        bal_inv(
            spec_step_main(tok).0,
            ns_after(ns, tok),
            stack_after(Some(es), spec_step_main(tok).1)->0,
        ),
{
    match tok {
        TokView::Start { name, content, raw } => {
            lemma_step_balance_main_start(ns, es, name, content, raw);
        },
        TokView::End { name, raw } => {
            lemma_step_balance_main_end(ns, es, name, raw);
        },
        _ => {},
    }
}

/// The count is positive when the last entry matches.
proof fn lemma_count_last(ns: Seq<Seq<u8>>, d: Seq<u8>)
    requires
        ns.len() > 0,
        ns.last() == d,
    ensures
        count_name(ns, d) >= 1,
{
    lemma_count_le_len(ns.drop_last(), d);
}

/// Pushing a non-matching name preserves a scope split.
proof fn lemma_scope_push(
    ns: Seq<Seq<u8>>,
    es: Seq<TagName>,
    d: Seq<u8>,
    k: int,
    p: Seq<TagName>,
    x: Seq<u8>,
)
    requires
        scope_inv(ns, es, d, k, p),
    ensures
        x != d ==> scope_inv(ns.push(x), es, d, k, p),
        x == d ==> scope_inv(ns.push(x), es, d, k + 1, p),
{
    let i = choose|i: int|
        {
            &&& 0 <= i < ns.len()
            &&& #[trigger] ns[i] == d
            &&& main_ok(ns.take(i))
            &&& count_name(ns.skip(i + 1), d) == k
            &&& es == main_stack(ns.take(i)) + p
        };
    let ns2 = ns.push(x);
    assert(ns2[i] == d);
    assert(ns2.take(i) =~= ns.take(i));
    assert(ns2.skip(i + 1) =~= ns.skip(i + 1).push(x));
    lemma_count_push(ns.skip(i + 1), x, d);
}

/// Popping the innermost name updates a scope split: a non-matching or
/// still-nested name keeps the scope, and the scope's own name at zero
/// depth ends it, leaving exactly the outer prefix.
#[verifier::rlimit(100)]
#[verifier::spinoff_prover]
proof fn lemma_scope_pop(ns: Seq<Seq<u8>>, es: Seq<TagName>, d: Seq<u8>, k: int, p: Seq<TagName>)
    requires
        scope_inv(ns, es, d, k, p),
        ns.len() > 0,
    ensures
        ns.last() != d ==> scope_inv(ns.drop_last(), es, d, k, p),
        ns.last() == d && k > 0 ==> scope_inv(ns.drop_last(), es, d, k - 1, p),
        ns.last() == d && k == 0 ==> (main_ok(ns.drop_last()) && es == main_stack(
            ns.drop_last(),
        ) + p),
{
    let i = choose|i: int|
        {
            &&& 0 <= i < ns.len()
            &&& #[trigger] ns[i] == d
            &&& main_ok(ns.take(i))
            &&& count_name(ns.skip(i + 1), d) == k
            &&& es == main_stack(ns.take(i)) + p
        };
    let rest = ns.skip(i + 1);
    if i == ns.len() - 1 {
        assert(rest =~= Seq::<Seq<u8>>::empty());
        assert(ns.last() == d);
        assert(k == 0);
        assert(ns.drop_last() =~= ns.take(i));
    } else {
        assert(rest.len() > 0);
        assert(rest.last() == ns.last());
        let nd = ns.drop_last();
        assert(nd[i] == d);
        assert(nd.take(i) =~= ns.take(i));
        assert(nd.skip(i + 1) =~= rest.drop_last());
        if ns.last() == d {
            lemma_count_last(rest, d);
            assert(count_name(rest.drop_last(), d) == k - 1);
            assert(k > 0);
            assert(scope_inv(nd, es, d, k - 1, p));
        } else {
            assert(count_name(rest.drop_last(), d) == k);
            assert(scope_inv(nd, es, d, k, p));
        }
    }
}

/// The `<S>` scan's events are attribute errors only.
proof fn lemma_s_scan_structureless(attrs: Seq<AttrView>, n: int)
    ensures
        structureless(crate::s_element::spec_s_scan(attrs, n).events),
    decreases n,
{
    if n > 0 {
        lemma_s_scan_structureless(attrs, n - 1);
        let p = crate::s_element::spec_s_scan(attrs, n - 1);
        let q = crate::s_element::spec_s_scan(attrs, n);
        assert(forall|t: int|
            0 <= t < q.events.len() ==> ((#[trigger] q.events[t]) is Attr || q.events[t]
                is Custom)) by {
            assert(forall|t: int|
                0 <= t < p.events.len() ==> ((#[trigger] p.events[t]) is Attr || p.events[t]
                    is Custom));
        }
    }
}

/// Balance preservation inside a text-collecting scope.
#[verifier::rlimit(100)]
#[verifier::spinoff_prover]
proof fn lemma_step_balance_collector(
    c: Collector,
    k: u32,
    ns: Seq<Seq<u8>>,
    es: Seq<TagName>,
    tok: TokView,
)
    requires
        scope_inv(ns, es, collector_name(c), k as int, collector_pushed(c)),
        tok_ok(ns, tok),
        !(tok is Eof),
        ns.len() + 2 < u32::MAX,
    ensures
        stack_after(Some(es), spec_step_collector(c, k, tok).1) is Some,
        bal_inv(
            spec_step_collector(c, k, tok).0,
            ns_after(ns, tok),
            stack_after(Some(es), spec_step_collector(c, k, tok).1)->0,
        ),
{
    let d = collector_name(c);
    let p = collector_pushed(c);
    match tok {
        TokView::Text { text, raw } => {
            assert(structureless(spec_step_collector(c, k, tok).1));
            lemma_structureless_stack(Some(es), spec_step_collector(c, k, tok).1);
        },
        TokView::Start { name, content, raw } => {
            lemma_scope_push(ns, es, d, k as int, p, name);
            if name == d {
                let i = choose|i: int|
                    {
                        &&& 0 <= i < ns.len()
                        &&& #[trigger] ns[i] == d
                        &&& main_ok(ns.take(i))
                        &&& count_name(ns.skip(i + 1), d) == k as int
                        &&& es == main_stack(ns.take(i)) + p
                    };
                lemma_count_le_len(ns.skip(i + 1), d);
                assert(k < u32::MAX);
            }
        },
        TokView::End { name, raw } => {
            lemma_scope_pop(ns, es, d, k as int, p);
            if name == d && k == 0 {
                match c {
                    Collector::BaseUrl => {
                        assert(es == main_stack(ns.drop_last()) + seq![TagName::BaseURL]);
                        assert(es.last() == TagName::BaseURL);
                        assert(es.len() > 0);
                        assert(seq![EventView::Close(TagName::BaseURL)].drop_last()
                            =~= Seq::<EventView>::empty());
                        assert(stack_after(
                            Some(es),
                            seq![EventView::Close(TagName::BaseURL)].drop_last(),
                        ) == Some(es));
                        assert(es.drop_last() =~= main_stack(ns.drop_last()));
                    },
                    _ => {
                        assert(es =~= main_stack(ns.drop_last()));
                    },
                }
            }
        },
        _ => {},
    }
}

/// The open this scope still owes, by collector kind.
pub open spec fn collector_pushed(c: Collector) -> Seq<TagName> {
    match c {
        Collector::BaseUrl => seq![TagName::BaseURL],
        _ => Seq::<TagName>::empty(),
    }
}

/// Balance preservation inside a `<SegmentTimeline>`.
#[verifier::rlimit(100)]
#[verifier::spinoff_prover]
proof fn lemma_step_balance_timeline(
    k: u32,
    tb: u128,
    segs: Seq<SegmentObject>,
    ns: Seq<Seq<u8>>,
    es: Seq<TagName>,
    tok: TokView,
)
    requires
        scope_inv(ns, es, ("SegmentTimeline").spec_bytes(), k as int, Seq::<TagName>::empty()),
        tok_ok(ns, tok),
        !(tok is Eof),
        ns.len() + 2 < u32::MAX,
    ensures
        stack_after(Some(es), spec_step_timeline(k, tb, segs, tok).1) is Some,
        bal_inv(
            spec_step_timeline(k, tb, segs, tok).0,
            ns_after(ns, tok),
            stack_after(Some(es), spec_step_timeline(k, tb, segs, tok).1)->0,
        ),
{
    let d = ("SegmentTimeline").spec_bytes();
    match tok {
        TokView::Start { name, content, raw } => {
            lemma_scope_push(ns, es, d, k as int, Seq::<TagName>::empty(), name);
            if name == ("S").spec_bytes() {
                lemma_element_names();
                assert(name != d);
                let attrs = xml_attrs_of(content, name.len() as int);
                lemma_s_scan_structureless(attrs, attrs.len() as int);
                let evs = spec_step_timeline(k, tb, segs, tok).1;
                assert(structureless(evs)) by {
                    let sce = crate::s_element::spec_s_scan(attrs, attrs.len() as int).events;
                    if crate::s_element::spec_s_scan(attrs, attrs.len() as int).failed {
                        assert(forall|t: int|
                            0 <= t < evs.len() ==> ((#[trigger] evs[t]) is Attr || evs[t]
                                is Custom)) by {
                            assert(forall|t: int|
                                0 <= t < sce.len() ==> ((#[trigger] sce[t]) is Attr || sce[t]
                                    is Custom));
                        }
                    }
                }
                lemma_structureless_stack(Some(es), evs);
            } else if name == d {
                let i = choose|i: int|
                    {
                        &&& 0 <= i < ns.len()
                        &&& #[trigger] ns[i] == d
                        &&& main_ok(ns.take(i))
                        &&& count_name(ns.skip(i + 1), d) == k as int
                        &&& es == main_stack(ns.take(i)) + Seq::<TagName>::empty()
                    };
                lemma_count_le_len(ns.skip(i + 1), d);
                assert(k < u32::MAX);
            }
        },
        TokView::End { name, raw } => {
            lemma_scope_pop(ns, es, d, k as int, Seq::<TagName>::empty());
            if name == d && k == 0 {
                assert(structureless(spec_step_timeline(k, tb, segs, tok).1));
                lemma_structureless_stack(Some(es), spec_step_timeline(k, tb, segs, tok).1);
                assert(es =~= main_stack(ns.drop_last()));
            }
        },
        _ => {},
    }
}

/// Balance preservation inside an `<EventStream>`.
#[verifier::rlimit(100)]
#[verifier::spinoff_prover]
proof fn lemma_step_balance_event_stream(
    k: u32,
    ns: Seq<Seq<u8>>,
    es: Seq<TagName>,
    tok: TokView,
)
    requires
        scope_inv(
            ns,
            es,
            ("EventStream").spec_bytes(),
            k as int,
            seq![TagName::EventStream],
        ),
        tok_ok(ns, tok),
        !(tok is Eof),
        ns.len() + 2 < u32::MAX,
    ensures
        stack_after(Some(es), spec_step_event_stream(k, tok).1) is Some,
        bal_inv(
            spec_step_event_stream(k, tok).0,
            ns_after(ns, tok),
            stack_after(Some(es), spec_step_event_stream(k, tok).1)->0,
        ),
{
    let d = ("EventStream").spec_bytes();
    let p = seq![TagName::EventStream];
    match tok {
        TokView::Start { name, content, raw } => {
            if name == ("Event").spec_bytes() {
                let i = choose|i: int|
                    {
                        &&& 0 <= i < ns.len()
                        &&& #[trigger] ns[i] == d
                        &&& main_ok(ns.take(i))
                        &&& count_name(ns.skip(i + 1), d) == k as int
                        &&& es == main_stack(ns.take(i)) + p
                    };
                let ns2 = ns.push(name);
                let j = ns.len() as int;
                lemma_stack_open_plus_attrs(
                    TagName::EventStreamElt,
                    ElementKind::EventStreamEvent,
                    content,
                    name.len() as int,
                    es,
                );
                assert(ns2[i] == d);
                assert(ns2[j] == ("Event").spec_bytes());
                assert(ns2.take(i) =~= ns.take(i));
                assert(ns2.subrange(i + 1, j) =~= ns.skip(i + 1));
                assert(ns2.skip(j + 1) =~= Seq::<Seq<u8>>::empty());
                assert(es.push(TagName::EventStreamElt) =~= main_stack(ns.take(i)) + seq![
                    TagName::EventStream,
                    TagName::EventStreamElt,
                ]);
                assert(capture_inv(ns2, es.push(TagName::EventStreamElt), k as int, 0));
            } else {
                lemma_scope_push(ns, es, d, k as int, p, name);
                if name == d {
                    let i = choose|i: int|
                        {
                            &&& 0 <= i < ns.len()
                            &&& #[trigger] ns[i] == d
                            &&& main_ok(ns.take(i))
                            &&& count_name(ns.skip(i + 1), d) == k as int
                            &&& es == main_stack(ns.take(i)) + p
                        };
                    lemma_count_le_len(ns.skip(i + 1), d);
                    assert(k < u32::MAX);
                }
            }
        },
        TokView::End { name, raw } => {
            lemma_scope_pop(ns, es, d, k as int, p);
            if name == d && k == 0 {
                assert(es == main_stack(ns.drop_last()) + p);
                assert(es.last() == TagName::EventStream);
                assert(es.len() > 0);
                assert(seq![EventView::Close(TagName::EventStream)].drop_last()
                    =~= Seq::<EventView>::empty());
                assert(stack_after(
                    Some(es),
                    seq![EventView::Close(TagName::EventStream)].drop_last(),
                ) == Some(es));
                assert(es.drop_last() =~= main_stack(ns.drop_last()));
            }
        },
        _ => {},
    }
}

/// Balance preservation inside an `<Event>` capture: start tags.
#[verifier::rlimit(100)]
#[verifier::spinoff_prover]
proof fn lemma_step_balance_capture_start(
    es_k: u32,
    k: u32,
    buf: Seq<u8>,
    ns: Seq<Seq<u8>>,
    es: Seq<TagName>,
    name: Seq<u8>,
    content: Seq<u8>,
    raw: Seq<u8>,
)
    requires
        capture_inv(ns, es, es_k as int, k as int),
        ns.len() + 2 < u32::MAX,
    ensures
        ({
            let tok = TokView::Start { name, content, raw };
            &&& stack_after(Some(es), spec_step_capture(es_k, k, buf, tok).1) is Some
            &&& bal_inv(
                spec_step_capture(es_k, k, buf, tok).0,
                ns_after(ns, tok),
                stack_after(Some(es), spec_step_capture(es_k, k, buf, tok).1)->0,
            )
        }),
{
    let dv = ("Event").spec_bytes();
    let de = ("EventStream").spec_bytes();
    let (i, j) = choose|i: int, j: int|
        {
            &&& 0 <= i < j < ns.len()
            &&& #[trigger] ns[i] == de
            &&& #[trigger] ns[j] == dv
            &&& main_ok(ns.take(i))
            &&& count_name(ns.subrange(i + 1, j), de) == es_k as int
            &&& count_name(ns.skip(j + 1), dv) == k as int
            &&& es == main_stack(ns.take(i)) + seq![TagName::EventStream, TagName::EventStreamElt]
        };
    let ns2 = ns.push(name);
    assert(ns2[i] == de);
    assert(ns2[j] == dv);
    assert(ns2.take(i) =~= ns.take(i));
    assert(ns2.subrange(i + 1, j) =~= ns.subrange(i + 1, j));
    assert(ns2.skip(j + 1) =~= ns.skip(j + 1).push(name));
    lemma_count_push(ns.skip(j + 1), name, dv);
    if name == dv {
        lemma_count_le_len(ns.skip(j + 1), dv);
        assert(k < u32::MAX);
        assert(capture_inv(ns2, es, es_k as int, k as int + 1));
    } else {
        assert(capture_inv(ns2, es, es_k as int, k as int));
    }
}

/// Establish a scope split from an explicit witness.
proof fn lemma_scope_establish(
    ns: Seq<Seq<u8>>,
    es: Seq<TagName>,
    d: Seq<u8>,
    k: int,
    p: Seq<TagName>,
    i: int,
)
    requires
        0 <= i < ns.len(),
        ns[i] == d,
        main_ok(ns.take(i)),
        count_name(ns.skip(i + 1), d) == k,
        es == main_stack(ns.take(i)) + p,
    ensures
        scope_inv(ns, es, d, k, p),
{
}

/// The stack after an attribute event followed by one matching close.
proof fn lemma_stack_attr_then_close(es: Seq<TagName>, a: EventView, t: TagName)
    requires
        es.len() > 0,
        es.last() == t,
        a is Attr,
    ensures
        stack_after(Some(es), seq![a, EventView::Close(t)]) == Some(es.drop_last()),
{
    let evs = seq![a, EventView::Close(t)];
    assert(evs.drop_last() =~= seq![a]);
    assert(evs.drop_last().drop_last() =~= Seq::<EventView>::empty());
    assert(stack_after(Some(es), evs.drop_last().drop_last()) == Some(es));
    assert(stack_after(Some(es), evs.drop_last()) == Some(es));
    assert(evs.last() == EventView::Close(t));
}

/// The matching end of a captured `<Event>`: emits the payload and the
/// close, and returns to the enclosing `<EventStream>` scope.
#[verifier::rlimit(100)]
#[verifier::spinoff_prover]
proof fn lemma_capture_end_match(
    es_k: u32,
    buf: Seq<u8>,
    ns: Seq<Seq<u8>>,
    es: Seq<TagName>,
    raw: Seq<u8>,
    i: int,
    j: int,
)
    requires
        0 <= i < j < ns.len(),
        ns[i] == ("EventStream").spec_bytes(),
        ns[j] == ("Event").spec_bytes(),
        main_ok(ns.take(i)),
        count_name(ns.subrange(i + 1, j), ("EventStream").spec_bytes()) == es_k as int,
        count_name(ns.skip(j + 1), ("Event").spec_bytes()) == 0,
        es == main_stack(ns.take(i)) + seq![TagName::EventStream, TagName::EventStreamElt],
        ns.last() == ("Event").spec_bytes(),
    ensures
        ({
            let tok = TokView::End { name: ("Event").spec_bytes(), raw };
            &&& stack_after(Some(es), spec_step_capture(es_k, 0, buf, tok).1) is Some
            &&& bal_inv(
                spec_step_capture(es_k, 0, buf, tok).0,
                ns.drop_last(),
                stack_after(Some(es), spec_step_capture(es_k, 0, buf, tok).1)->0,
            )
        }),
{
    let tok = TokView::End { name: ("Event").spec_bytes(), raw };
    let dv = ("Event").spec_bytes();
    let de = ("EventStream").spec_bytes();
    assert(spec_step_capture(es_k, 0, buf, tok).0 == StView::EventStream { inner_tags: es_k });
    assert(spec_step_capture(es_k, 0, buf, tok).1 == seq![
        EventView::Attr(
            crate::events::AttributeName::EventStreamEvent,
            ValView::Bytes(buf + raw),
        ),
        EventView::Close(TagName::EventStreamElt),
    ]);
    let nd = ns.drop_last();
    let rest2 = ns.skip(j + 1);
    if j < ns.len() - 1 {
        assert(rest2.len() > 0);
        assert(rest2.last() == ns.last());
        lemma_count_last(rest2, dv);
        assert(false);
    }
    assert(j == ns.len() - 1);
    assert(nd =~= ns.take(j));
    assert(nd[i] == de);
    assert(nd.take(i) =~= ns.take(i));
    assert(nd.skip(i + 1) =~= ns.subrange(i + 1, j));
    assert(es.last() == TagName::EventStreamElt);
    assert(es.len() > 0);
    lemma_stack_attr_then_close(
        es,
        EventView::Attr(
            crate::events::AttributeName::EventStreamEvent,
            ValView::Bytes(buf + raw),
        ),
        TagName::EventStreamElt,
    );
    assert(stack_after(Some(es), spec_step_capture(es_k, 0, buf, tok).1) == Some(
        es.drop_last(),
    ));
    assert(es.drop_last() =~= main_stack(ns.take(i)) + seq![TagName::EventStream]);
    assert(count_name(nd.skip(i + 1), de) == es_k as int);
    assert(main_ok(nd.take(i)));
    lemma_scope_establish(
        nd,
        es.drop_last(),
        de,
        es_k as int,
        seq![TagName::EventStream],
        i,
    );
}

/// Any other end tag inside a capture pops a name without emitting
/// structure.
#[verifier::rlimit(100)]
#[verifier::spinoff_prover]
proof fn lemma_capture_end_inner(
    es_k: u32,
    k: u32,
    buf: Seq<u8>,
    ns: Seq<Seq<u8>>,
    es: Seq<TagName>,
    name: Seq<u8>,
    raw: Seq<u8>,
    i: int,
    j: int,
)
    requires
        0 <= i < j < ns.len(),
        ns[i] == ("EventStream").spec_bytes(),
        ns[j] == ("Event").spec_bytes(),
        main_ok(ns.take(i)),
        count_name(ns.subrange(i + 1, j), ("EventStream").spec_bytes()) == es_k as int,
        count_name(ns.skip(j + 1), ("Event").spec_bytes()) == k as int,
        es == main_stack(ns.take(i)) + seq![TagName::EventStream, TagName::EventStreamElt],
        ns.last() == name,
        name != ("Event").spec_bytes() || k > 0,
    ensures
        ({
            let tok = TokView::End { name, raw };
            &&& stack_after(Some(es), spec_step_capture(es_k, k, buf, tok).1) is Some
            &&& bal_inv(
                spec_step_capture(es_k, k, buf, tok).0,
                ns.drop_last(),
                stack_after(Some(es), spec_step_capture(es_k, k, buf, tok).1)->0,
            )
        }),
{
    let dv = ("Event").spec_bytes();
    let de = ("EventStream").spec_bytes();
    let nd = ns.drop_last();
    let rest2 = ns.skip(j + 1);
    if j == ns.len() - 1 {
        assert(ns.last() == dv);
        assert(rest2 =~= Seq::<Seq<u8>>::empty());
        assert(false);
    }
    assert(rest2.len() > 0);
    assert(rest2.last() == ns.last());
    assert(nd[i] == de);
    assert(nd[j] == dv);
    assert(nd.take(i) =~= ns.take(i));
    assert(nd.subrange(i + 1, j) =~= ns.subrange(i + 1, j));
    assert(nd.skip(j + 1) =~= rest2.drop_last());
    if name == dv {
        lemma_count_last(rest2, dv);
        assert(count_name(rest2.drop_last(), dv) == k as int - 1);
        assert(capture_inv(nd, es, es_k as int, k as int - 1));
    } else {
        assert(count_name(rest2.drop_last(), dv) == k as int);
        assert(capture_inv(nd, es, es_k as int, k as int));
    }
}

/// Balance preservation inside an `<Event>` capture.
proof fn lemma_step_balance_capture(
    es_k: u32,
    k: u32,
    buf: Seq<u8>,
    ns: Seq<Seq<u8>>,
    es: Seq<TagName>,
    tok: TokView,
)
    requires
        capture_inv(ns, es, es_k as int, k as int),
        tok_ok(ns, tok),
        !(tok is Eof),
        ns.len() + 2 < u32::MAX,
    ensures
        stack_after(Some(es), spec_step_capture(es_k, k, buf, tok).1) is Some,
        bal_inv(
            spec_step_capture(es_k, k, buf, tok).0,
            ns_after(ns, tok),
            stack_after(Some(es), spec_step_capture(es_k, k, buf, tok).1)->0,
        ),
{
    match tok {
        TokView::Start { name, content, raw } => {
            lemma_step_balance_capture_start(es_k, k, buf, ns, es, name, content, raw);
        },
        TokView::End { name, raw } => {
            let (i, j) = choose|i: int, j: int|
                {
                    &&& 0 <= i < j < ns.len()
                    &&& #[trigger] ns[i] == ("EventStream").spec_bytes()
                    &&& #[trigger] ns[j] == ("Event").spec_bytes()
                    &&& main_ok(ns.take(i))
                    &&& count_name(ns.subrange(i + 1, j), ("EventStream").spec_bytes())
                        == es_k as int
                    &&& count_name(ns.skip(j + 1), ("Event").spec_bytes()) == k as int
                    &&& es == main_stack(ns.take(i)) + seq![
                        TagName::EventStream,
                        TagName::EventStreamElt,
                    ]
                };
            if name == ("Event").spec_bytes() && k == 0 {
                lemma_capture_end_match(es_k, buf, ns, es, raw, i, j);
            } else {
                lemma_capture_end_inner(es_k, k, buf, ns, es, name, raw, i, j);
            }
        },
        _ => {},
    }
}

/// Balance preservation for one machine step: given the machine-to-stack
/// correspondence and a well-nested token, the emitted events keep the
/// event stream balanced and the correspondence holds again afterwards.
pub proof fn lemma_step_balance(st: StView, ns: Seq<Seq<u8>>, es: Seq<TagName>, tok: TokView)
    requires
        bal_inv(st, ns, es),
        tok_ok(ns, tok),
        ns.len() + 2 < u32::MAX,
    ensures
        stack_after(Some(es), spec_step(st, tok).1) is Some,
        bal_inv(
            spec_step(st, tok).0,
            ns_after(ns, tok),
            stack_after(Some(es), spec_step(st, tok).1)->0,
        ),
{
    if tok is Eof {
    } else {
        match st {
            StView::Main => lemma_step_balance_main(ns, es, tok),
            StView::SegmentTimeline { inner_tags, time_base, segments } => (
            lemma_step_balance_timeline(inner_tags, time_base, segments, ns, es, tok)),
            StView::Location { inner_tags } => lemma_step_balance_collector(
                Collector::Location,
                inner_tags,
                ns,
                es,
                tok,
            ),
            StView::BaseURL { inner_tags } => lemma_step_balance_collector(
                Collector::BaseUrl,
                inner_tags,
                ns,
                es,
                tok,
            ),
            StView::Cenc { inner_tags } => lemma_step_balance_collector(
                Collector::Cenc,
                inner_tags,
                ns,
                es,
                tok,
            ),
            StView::EventStream { inner_tags } => lemma_step_balance_event_stream(
                inner_tags,
                ns,
                es,
                tok,
            ),
            StView::EventStreamEvent { event_stream_inner_tags, inner_tags, xml_buffer } => (
            lemma_step_balance_capture(
                event_stream_inner_tags,
                inner_tags,
                xml_buffer,
                ns,
                es,
                tok,
            )),
        }
    }
}

/// Fold the machine over a whole token sequence.
pub open spec fn run_toks(st: StView, toks: Seq<TokView>) -> (StView, Seq<EventView>)
    decreases toks.len(),
{
    if toks.len() == 0 {
        (st, Seq::empty())
    } else {
        let p = run_toks(st, toks.drop_last());
        let q = spec_step(p.0, toks.last());
        (q.0, p.1 + q.1)
    }
}

/// Fold the name stack over a whole token sequence.
pub open spec fn ns_fold(ns: Seq<Seq<u8>>, toks: Seq<TokView>) -> Seq<Seq<u8>>
    decreases toks.len(),
{
    if toks.len() == 0 {
        ns
    } else {
        ns_after(ns_fold(ns, toks.drop_last()), toks.last())
    }
}

/// Every token of the sequence is well-nested against the running stack.
pub open spec fn nest_ok(ns: Seq<Seq<u8>>, toks: Seq<TokView>) -> bool
    decreases toks.len(),
{
    if toks.len() == 0 {
        true
    } else {
        nest_ok(ns, toks.drop_last()) && tok_ok(ns_fold(ns, toks.drop_last()), toks.last())
    }
}

/// The name stack never grows beyond one entry per token.
proof fn lemma_ns_fold_len(ns: Seq<Seq<u8>>, toks: Seq<TokView>)
    requires
        nest_ok(ns, toks),
    ensures
        ns_fold(ns, toks).len() <= ns.len() + toks.len(),
    decreases toks.len(),
{
    if toks.len() > 0 {
        lemma_ns_fold_len(ns, toks.drop_last());
        let np = ns_fold(ns, toks.drop_last());
        match toks.last() {
            TokView::End { name, raw } => {
                assert(np.len() > 0);
            },
            _ => {},
        }
    }
}

/// Tag balance along a whole run, generalised over the starting state.
proof fn lemma_tag_balance_gen(
    st: StView,
    ns: Seq<Seq<u8>>,
    es: Seq<TagName>,
    toks: Seq<TokView>,
)
    requires
        bal_inv(st, ns, es),
        nest_ok(ns, toks),
        ns.len() + toks.len() + 2 < u32::MAX,
    ensures
        stack_after(Some(es), run_toks(st, toks).1) is Some,
        bal_inv(
            run_toks(st, toks).0,
            ns_fold(ns, toks),
            stack_after(Some(es), run_toks(st, toks).1)->0,
        ),
    decreases toks.len(),
{
    if toks.len() > 0 {
        lemma_tag_balance_gen(st, ns, es, toks.drop_last());
        let p = run_toks(st, toks.drop_last());
        let np = ns_fold(ns, toks.drop_last());
        let ep = stack_after(Some(es), p.1)->0;
        lemma_ns_fold_len(ns, toks.drop_last());
        lemma_step_balance(p.0, np, ep, toks.last());
        lemma_stack_after_concat(Some(es), p.1, spec_step(p.0, toks.last()).1);
    }
}

/// Tag balance: in any prefix of the event stream the machine emits for a
/// well-nested token sequence, every close matches the innermost
/// still-open tag; and when the machine ends back in the outer loop with
/// every element closed, no opens remain.  (Well-nestedness excludes
/// tokenizer faults, and the run must not nest deeper than the counters
/// can count.)
pub proof fn lemma_tag_balance(toks: Seq<TokView>)
    requires
        nest_ok(Seq::empty(), toks),
        toks.len() + 2 < u32::MAX,
    ensures
        balanced(run_toks(StView::Main, toks).1),
        (run_toks(StView::Main, toks).0 is Main && ns_fold(Seq::empty(), toks)
            == Seq::<Seq<u8>>::empty()) ==> stack_after(
            Some(Seq::empty()),
            run_toks(StView::Main, toks).1,
        ) == Some(Seq::<TagName>::empty()),
{
    assert(bal_inv(StView::Main, Seq::empty(), Seq::empty())) by {
        assert(main_stack(Seq::<Seq<u8>>::empty()) =~= Seq::<TagName>::empty());
    }
    lemma_tag_balance_gen(StView::Main, Seq::empty(), Seq::empty(), toks);
    let r = run_toks(StView::Main, toks);
    if r.0 is Main && ns_fold(Seq::empty(), toks) == Seq::<Seq<u8>>::empty() {
        assert(stack_after(Some(Seq::empty()), r.1)->0 == main_stack(
            ns_fold(Seq::empty(), toks),
        ));
        assert(main_stack(Seq::<Seq<u8>>::empty()) =~= Seq::<TagName>::empty());
    }
}

/// Balance is a property of every prefix: a defined whole-stream stack
/// means every prefix's stack is defined too.
pub proof fn lemma_balanced_prefix(evs: Seq<EventView>, n: int)
    requires
        balanced(evs),
        0 <= n <= evs.len(),
    ensures
        balanced(evs.take(n)),
    decreases evs.len() - n,
{
    if n == evs.len() {
        assert(evs.take(n) =~= evs);
    } else {
        lemma_balanced_prefix(evs, n + 1);
        assert(evs.take(n + 1).drop_last() =~= evs.take(n));
        assert(evs.take(n + 1).len() > 0);
    }
}

} // verus!
