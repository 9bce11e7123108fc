//! `<S>` elements of a `<SegmentTimeline>`.
//!
//! Each `<S>` carries an optional explicit start `t`, a duration `d` and a
//! repeat count `r`.  A missing `t` means the segment starts where the
//! previous one ended, which the caller supplies as the running time base.

use vstd::prelude::*;

verus! {

use crate::errors::ParsingError;
use crate::events::{events_view, CustomEventType, EventView, ParserEvent};
use crate::utils::spec_parse_u64;
use crate::utils::parse_u64;
use crate::xml::{attrs_view, AttrView, XmlAttr};

/// A parsed `<S>` element.
///
/// `start` is in the timeline's own timescale; it is wide enough to hold
/// the accumulated end of arbitrarily many maximal predecessors.
#[derive(Debug, Clone, Copy, PartialEq, Eq, Structural)]
pub struct SegmentObject {
    /// Starting timestamp: the explicit `t`, or the end of the previous
    /// sibling.
    pub start: u128,
    /// The `d` attribute, zero when absent.
    pub duration: u64,
    /// The `r` attribute, zero when absent (meaning one occurrence).
    pub repeat_count: u64,
}

/// The running outcome of scanning an `<S>` element's attributes.
pub struct SScan {
    pub start: u64,
    pub has_t: bool,
    pub duration: u64,
    pub repeat: u64,
    pub failed: bool,
    pub events: Seq<EventView>,
}

/// Scan the first `n` attributes of an `<S>` element: `t`, `d` and `r`
/// values are decimal integers, other attributes are ignored, a malformed
/// attribute entry is reported and skipped, and the first unparsable
/// value aborts the element.
pub open spec fn spec_s_scan(attrs: Seq<AttrView>, n: int) -> SScan
    decreases n,
{
    if n <= 0 {
        SScan { start: 0, has_t: false, duration: 0, repeat: 0, failed: false, events: Seq::empty() }
    } else {
        let p = spec_s_scan(attrs, n - 1);
        if p.failed {
            p
        } else {
            match attrs[n - 1] {
                AttrView::Broken(m) => SScan {
                    events: p.events.push(EventView::Custom(CustomEventType::Error, m)),
                    ..p
                },
                AttrView::Pair { name, value } => {
                    if name == seq![('t' as u8)] {
                        match spec_parse_u64(value) {
                            Some(v) => SScan { start: v, has_t: true, ..p },
                            None => SScan { failed: true, ..p },
                        }
                    } else if name == seq![('d' as u8)] {
                        match spec_parse_u64(value) {
                            Some(v) => SScan { duration: v, ..p },
                            None => SScan { failed: true, ..p },
                        }
                    } else if name == seq![('r' as u8)] {
                        match spec_parse_u64(value) {
                            Some(v) => SScan { repeat: v, ..p },
                            None => SScan { failed: true, ..p },
                        }
                    } else {
                        p
                    }
                },
            }
        }
    }
}

/// The segment described by a fully scanned `<S>` element, given the
/// running time base.
pub open spec fn spec_s_object(attrs: Seq<AttrView>, time_base: u128) -> SegmentObject {
    let sc = spec_s_scan(attrs, attrs.len() as int);
    SegmentObject {
        start: if sc.has_t {
            sc.start as u128
        } else {
            time_base
        },
        duration: sc.duration,
        repeat_count: sc.repeat,
    }
}


/// Once a scan has failed it stays failed, with the same outcome.
pub proof fn lemma_s_scan_failed_stable(attrs: Seq<AttrView>, i: int, n: int)
    requires
        0 <= i <= n,
        spec_s_scan(attrs, i).failed,
    ensures
        spec_s_scan(attrs, n) == spec_s_scan(attrs, i),
    decreases n - i,
{
    if i < n {
        lemma_s_scan_failed_stable(attrs, i, n - 1);
    }
}

impl SegmentObject {
    /// The end of this segment run: `start + duration * (repeat_count + 1)`,
    /// saturating at the top of the `u128` range.
    pub open spec fn spec_next_time_base(self) -> u128 {
        if self.start + self.duration * (self.repeat_count + 1) <= u128::MAX {
            (self.start + self.duration * (self.repeat_count + 1)) as u128
        } else {
            u128::MAX
        }
    }

    /// Where the segment after this run starts.
    pub fn next_time_base(&self) -> (r: u128)
        ensures
            r == self.spec_next_time_base(),
    {
        proof {
            assert(self.duration * (self.repeat_count + 1) <= 0xffffffffffffffffu64
                * 0x10000000000000000) by (nonlinear_arith)
                requires
                    self.duration <= 0xffffffffffffffffu64,
                    self.repeat_count <= 0xffffffffffffffffu64,
            ;
            assert(self.duration * (self.repeat_count + 1) >= 0) by (nonlinear_arith);
        }
        let run: u128 = self.duration as u128 * (self.repeat_count as u128 + 1);
        if self.start > u128::MAX - run {
            u128::MAX
        } else {
            self.start + run
        }
    }

    /// Build a [`SegmentObject`] from the attributes of an `<S>` element
    /// and the running time base.
    ///
    /// Malformed attribute entries are reported through `out` and skipped;
    /// an unparsable `t`, `d` or `r` value aborts the element with an
    /// error.  When no `t` attribute is present the segment starts at
    /// `time_base`.
    pub fn from_s_element(
        attrs: &Vec<XmlAttr>,
        time_base: u128,
        out: &mut Vec<ParserEvent>,
    ) -> (r: Result<SegmentObject, ParsingError>)
        ensures
            ({
                let sc = spec_s_scan(attrs_view(attrs@), attrs@.len() as int);
                &&& events_view(final(out)@) == events_view(old(out)@) + sc.events
                &&& (r is Ok <==> !sc.failed)
                &&& r is Ok ==> r->Ok_0 == spec_s_object(attrs_view(attrs@), time_base)
            }),
    {
        let ghost av = attrs_view(attrs@);
        let mut start: u64 = 0;
        let mut has_t = false;
        let mut duration: u64 = 0;
        let mut repeat: u64 = 0;
        let mut i: usize = 0;
        proof {
            assert(spec_s_scan(av, 0).events =~= Seq::<EventView>::empty());
            assert(events_view(out@) =~= events_view(out@) + Seq::<EventView>::empty());
        }
        while i < attrs.len()
            invariant
                0 <= i <= attrs@.len(),
                av == attrs_view(attrs@),
                ({
                    let sc = spec_s_scan(av, i as int);
                    &&& !sc.failed
                    &&& sc.start == start
                    &&& sc.has_t == has_t
                    &&& sc.duration == duration
                    &&& sc.repeat == repeat
                    &&& events_view(out@) == events_view(old(out)@) + sc.events
                }),
            decreases attrs@.len() - i,
        {
            proof {
                assert(av[i as int] == attrs@[i as int]@);
            }
            let a = &attrs[i];
            match a {
                XmlAttr::Broken(m) => {
                    let ev = ParserEvent::CustomEvent(CustomEventType::Error, m.clone());
                    proof {
                        crate::events::lemma_events_view_push(out@, ev);
                        assert((events_view(old(out)@) + spec_s_scan(av, i as int).events).push(
                            ev@,
                        ) =~= events_view(old(out)@) + spec_s_scan(av, i as int).events.push(
                            ev@,
                        ));
                    }
                    out.push(ev);
                },
                XmlAttr::Pair { name, value } => {
                    if name.len() == 1 && name[0] == ('t' as u8) {
                        proof {
                            assert(name@ =~= seq![('t' as u8)]);
                        }
                        match parse_u64(value.as_slice()) {
                            Ok(v) => {
                                start = v;
                                has_t = true;
                            },
                            Err(e) => {
                                proof {
                                    lemma_s_scan_failed_stable(av, i + 1, av.len() as int);
                                }
                                return Err(e);
                            },
                        }
                    } else if name.len() == 1 && name[0] == ('d' as u8) {
                        proof {
                            assert(name@ =~= seq![('d' as u8)]);
                        }
                        match parse_u64(value.as_slice()) {
                            Ok(v) => {
                                duration = v;
                            },
                            Err(e) => {
                                proof {
                                    lemma_s_scan_failed_stable(av, i + 1, av.len() as int);
                                }
                                return Err(e);
                            },
                        }
                    } else if name.len() == 1 && name[0] == ('r' as u8) {
                        proof {
                            assert(name@ =~= seq![('r' as u8)]);
                        }
                        match parse_u64(value.as_slice()) {
                            Ok(v) => {
                                repeat = v;
                            },
                            Err(e) => {
                                proof {
                                    lemma_s_scan_failed_stable(av, i + 1, av.len() as int);
                                }
                                return Err(e);
                            },
                        }
                    } else {
                        proof {
                            assert(name@ != seq![('t' as u8)] && name@ != seq![('d' as u8)]
                                && name@ != seq![('r' as u8)]) by {
                                if name@.len() == 1 {
                                    assert(name@[0] != ('t' as u8) && name@[0] != ('d' as u8)
                                        && name@[0] != ('r' as u8));
                                }
                            }
                        }
                    }
                },
            }
            i = i + 1;
        }
        Ok(SegmentObject { start: if has_t {
            start as u128
        } else {
            time_base
        }, duration, repeat_count: repeat })
    }
}

} // verus!
