//! Reporting values as attribute events, and the namespace wire framing.
//!
//! Each reportable datum knows the attribute value it projects to; the
//! host-facing wire encoding of an XML namespace binding frames the key
//! and the value behind big-endian length prefixes, and decoding a framed
//! payload recovers both byte strings exactly.

use vstd::prelude::*;

verus! {

use crate::events::{
    events_view, AttrValue, AttributeName, EventView, ParserEvent, ValView,
};
use crate::s_element::SegmentObject;
use crate::utils::{spec_be_val, spec_u32_be, u32_to_u8_slice_be, push_all};
use crate::values::{AttrNum, Ratio};

/// A value that can be reported as an attribute event.
pub trait ReportableAttribute {
    /// The attribute value this datum projects to.
    spec fn as_attr_value(&self) -> ValView;

    /// Append the attribute event carrying this datum.
    fn report_as_attr(&self, attr_name: AttributeName, out: &mut Vec<ParserEvent>)
        ensures
            events_view(final(out)@) == events_view(old(out)@).push(
                EventView::Attr(attr_name, self.as_attr_value()),
            ),
    ;
}

impl ReportableAttribute for bool {
    open spec fn as_attr_value(&self) -> ValView {
        ValView::Flag(*self)
    }

    fn report_as_attr(&self, attr_name: AttributeName, out: &mut Vec<ParserEvent>)
        ensures
            events_view(final(out)@) == events_view(old(out)@).push(
                EventView::Attr(attr_name, self.as_attr_value()),
            ),
    {
        let ev = ParserEvent::Attribute(attr_name, AttrValue::Flag(*self));
        proof {
            crate::events::lemma_events_view_push(out@, ev);
        }
        out.push(ev);
    }
}

impl ReportableAttribute for Ratio {
    open spec fn as_attr_value(&self) -> ValView {
        ValView::Num(AttrNum::Fin(*self))
    }

    fn report_as_attr(&self, attr_name: AttributeName, out: &mut Vec<ParserEvent>)
        ensures
            events_view(final(out)@) == events_view(old(out)@).push(
                EventView::Attr(attr_name, self.as_attr_value()),
            ),
    {
        let ev = ParserEvent::Attribute(attr_name, AttrValue::Num(AttrNum::Fin(*self)));
        proof {
            crate::events::lemma_events_view_push(out@, ev);
        }
        out.push(ev);
    }
}

impl ReportableAttribute for AttrNum {
    open spec fn as_attr_value(&self) -> ValView {
        ValView::Num(*self)
    }

    fn report_as_attr(&self, attr_name: AttributeName, out: &mut Vec<ParserEvent>)
        ensures
            events_view(final(out)@) == events_view(old(out)@).push(
                EventView::Attr(attr_name, self.as_attr_value()),
            ),
    {
        let ev = ParserEvent::Attribute(attr_name, AttrValue::Num(*self));
        proof {
            crate::events::lemma_events_view_push(out@, ev);
        }
        out.push(ev);
    }
}

impl ReportableAttribute for (u64, u64) {
    open spec fn as_attr_value(&self) -> ValView {
        ValView::Pair(self.0, self.1)
    }

    fn report_as_attr(&self, attr_name: AttributeName, out: &mut Vec<ParserEvent>)
        ensures
            events_view(final(out)@) == events_view(old(out)@).push(
                EventView::Attr(attr_name, self.as_attr_value()),
            ),
    {
        let ev = ParserEvent::Attribute(attr_name, AttrValue::Pair(self.0, self.1));
        proof {
            crate::events::lemma_events_view_push(out@, ev);
        }
        out.push(ev);
    }
}

impl ReportableAttribute for Vec<u8> {
    open spec fn as_attr_value(&self) -> ValView {
        ValView::Bytes(self@)
    }

    fn report_as_attr(&self, attr_name: AttributeName, out: &mut Vec<ParserEvent>)
        ensures
            events_view(final(out)@) == events_view(old(out)@).push(
                EventView::Attr(attr_name, self.as_attr_value()),
            ),
    {
        let copy = vstd::slice::slice_to_vec(self.as_slice());
        let ev = ParserEvent::Attribute(attr_name, AttrValue::Bytes(copy));
        proof {
            crate::events::lemma_events_view_push(out@, ev);
        }
        out.push(ev);
    }
}

impl ReportableAttribute for Vec<SegmentObject> {
    open spec fn as_attr_value(&self) -> ValView {
        ValView::Segments(self@)
    }

    fn report_as_attr(&self, attr_name: AttributeName, out: &mut Vec<ParserEvent>)
        ensures
            events_view(final(out)@) == events_view(old(out)@).push(
                EventView::Attr(attr_name, self.as_attr_value()),
            ),
    {
        let copy = vstd::slice::slice_to_vec(self.as_slice());
        let ev = ParserEvent::Attribute(attr_name, AttrValue::Segments(copy));
        proof {
            crate::events::lemma_events_view_push(out@, ev);
        }
        out.push(ev);
    }
}

impl AttributeName {
    /// Report `val` as this attribute, appending one event.
    pub fn report<T: ReportableAttribute>(self, val: &T, out: &mut Vec<ParserEvent>)
        ensures
            events_view(final(out)@) == events_view(old(out)@).push(
                EventView::Attr(self, val.as_attr_value()),
            ),
    {
        val.report_as_attr(self, out)
    }
}

/// The framed wire encoding of a namespace binding: a big-endian length,
/// the key, a big-endian length, the value.
pub open spec fn spec_frame(key: Seq<u8>, value: Seq<u8>) -> Seq<u8> {
    spec_u32_be(key.len() as u32) + key + spec_u32_be(value.len() as u32) + value
}

/// Decoding of a framed payload; `None` when the lengths do not line up.
pub open spec fn spec_unframe(s: Seq<u8>) -> Option<(Seq<u8>, Seq<u8>)> {
    if s.len() < 4 {
        None
    } else {
        let kl = spec_be_val(s.subrange(0, 4));
        if s.len() < 4 + kl + 4 {
            None
        } else {
            let vl = spec_be_val(s.subrange(4 + kl, 8 + kl));
            if s.len() != 8 + kl + vl {
                None
            } else {
                Some((s.subrange(4, 4 + kl), s.subrange(8 + kl, s.len() as int)))
            }
        }
    }
}

/// Frame a namespace key and value for the wire.
pub fn frame_key_value(key: &[u8], value: &[u8]) -> (r: Vec<u8>)
    requires
        key@.len() <= u32::MAX,
        value@.len() <= u32::MAX,
    ensures
        r@ == spec_frame(key@, value@),
{
    let mut r = u32_to_u8_slice_be(key.len() as u32);
    push_all(&mut r, key);
    let vlen = u32_to_u8_slice_be(value.len() as u32);
    push_all(&mut r, vlen.as_slice());
    push_all(&mut r, value);
    proof {
        assert(r@ =~= spec_frame(key@, value@));
    }
    r
}

/// Decode a framed payload back into its key and value.
pub fn decode_key_value(data: &[u8]) -> (r: Option<(Vec<u8>, Vec<u8>)>)
    ensures
        r is Some <==> spec_unframe(data@) is Some,
        r is Some ==> ({
            let p = spec_unframe(data@)->0;
            (r->0).0@ == p.0 && (r->0).1@ == p.1
        }),
{
    let n = data.len();
    if n < 4 {
        return None;
    }
    let kl32 = crate::utils::be_u32_value(data[0], data[1], data[2], data[3]);
    proof {
        assert(seq![data@[0], data@[1], data@[2], data@[3]] =~= data@.subrange(0, 4));
    }
    let kl = kl32 as usize;
    if n < 4 || n - 4 < kl || n - 4 - kl < 4 {
        proof {
            assert(data@.len() < 4 + kl32 + 4);
        }
        return None;
    }
    let vl32 = crate::utils::be_u32_value(
        data[4 + kl],
        data[4 + kl + 1],
        data[4 + kl + 2],
        data[4 + kl + 3],
    );
    proof {
        assert(seq![
            data@[4 + kl],
            data@[4 + kl + 1],
            data@[4 + kl + 2],
            data@[4 + kl + 3],
        ] =~= data@.subrange(4 + kl, 8 + kl));
    }
    let vl = vl32 as usize;
    if n - 8 - kl != vl {
        return None;
    }
    let key = vstd::slice::slice_to_vec(vstd::slice::slice_subrange(data, 4, 4 + kl));
    let value = vstd::slice::slice_to_vec(vstd::slice::slice_subrange(data, 8 + kl, n));
    Some((key, value))
}

/// Namespace framing round-trip: decoding the framed payload recovers the
/// key and value bytes exactly.
pub proof fn lemma_frame_round_trip(key: Seq<u8>, value: Seq<u8>)
    requires
        key.len() <= u32::MAX,
        value.len() <= u32::MAX,
    ensures
        spec_unframe(spec_frame(key, value)) == Some((key, value)),
{
    let s = spec_frame(key, value);
    let kl = key.len() as int;
    let vl = value.len() as int;
    crate::utils::lemma_u32_be_round_trip(key.len() as u32);
    crate::utils::lemma_u32_be_round_trip(value.len() as u32);
    assert(s.len() == 8 + kl + vl);
    assert(s.subrange(0, 4) =~= spec_u32_be(key.len() as u32));
    assert(spec_be_val(s.subrange(0, 4)) == kl);
    assert(s.subrange(4 + kl, 8 + kl) =~= spec_u32_be(value.len() as u32));
    assert(spec_be_val(s.subrange(4 + kl, 8 + kl)) == vl);
    assert(s.subrange(4, 4 + kl) =~= key);
    assert(s.subrange(8 + kl, s.len() as int) =~= value);
}

} // verus!
