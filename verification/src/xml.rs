//! The resumable XML tokenizer.
//!
//! Bytes are fed in chunks; a token is handed out only once it is complete
//! in the bytes received so far, so a token never changes when more bytes
//! arrive.  When the next token is still incomplete the tokenizer reports
//! end-of-input, and the same position is retried after the next feed —
//! this is what lets the parser suspend mid-document and resume exactly
//! where it stopped.
//!
//! Splitting a start tag into attributes and decoding `&...;` entity
//! references are delegated to quick_xml through the two trusted wrappers
//! at the end of this file; everything else is verified byte logic.

use vstd::prelude::*;

verus! {

use vstd::string::StringExecFns;

/// One attribute entry of a start tag: a well-formed `name="value"` pair
/// (value still escaped), or the message of a malformed entry.
#[derive(Debug, Clone, PartialEq, Eq)]
pub enum XmlAttr {
    Pair { name: Vec<u8>, value: Vec<u8> },
    Broken(String),
}

/// The mathematical shadow of [`XmlAttr`].
pub enum AttrView {
    Pair { name: Seq<u8>, value: Seq<u8> },
    Broken(Seq<char>),
}

impl View for XmlAttr {
    type V = AttrView;

    open spec fn view(&self) -> AttrView {
        match self {
            XmlAttr::Pair { name, value } => AttrView::Pair { name: name@, value: value@ },
            XmlAttr::Broken(m) => AttrView::Broken(m@),
        }
    }
}

/// The view of an attribute list.
pub open spec fn attrs_view(s: Seq<XmlAttr>) -> Seq<AttrView> {
    s.map_values(|a: XmlAttr| a@)
}

/// One token of the XML stream.
///
/// `raw` always holds the exact input bytes of the token, so that an
/// enclosing element can be captured verbatim.  An empty element is
/// expanded into a `Start` (whose `raw` is the whole `<.../>`) followed by
/// an `End` with empty `raw`.
#[derive(Debug, Clone, PartialEq, Eq)]
pub enum Token {
    /// A start tag: its name, the content between `<` and `>` (attributes
    /// still unsplit), and the raw bytes.
    Start { name: Vec<u8>, content: Vec<u8>, raw: Vec<u8> },
    /// An end tag.
    End { name: Vec<u8>, raw: Vec<u8> },
    /// A text node; `text` is trimmed when trimming is on, `raw` never is.
    Text { text: Vec<u8>, raw: Vec<u8> },
    /// A comment, CDATA section, processing instruction or declaration.
    Other { raw: Vec<u8> },
    /// A tokenizer-level error.
    Fault { msg: String },
    /// No complete token is available in the bytes received so far.
    Eof,
}

/// The mathematical shadow of [`Token`].
pub enum TokView {
    Start { name: Seq<u8>, content: Seq<u8>, raw: Seq<u8> },
    End { name: Seq<u8>, raw: Seq<u8> },
    Text { text: Seq<u8>, raw: Seq<u8> },
    Other { raw: Seq<u8> },
    Fault { msg: Seq<char> },
    Eof,
}

impl View for Token {
    type V = TokView;

    open spec fn view(&self) -> TokView {
        match self {
            Token::Start { name, content, raw } => TokView::Start {
                name: name@,
                content: content@,
                raw: raw@,
            },
            Token::End { name, raw } => TokView::End { name: name@, raw: raw@ },
            Token::Text { text, raw } => TokView::Text { text: text@, raw: raw@ },
            Token::Other { raw } => TokView::Other { raw: raw@ },
            Token::Fault { msg } => TokView::Fault { msg: msg@ },
            Token::Eof => TokView::Eof,
        }
    }
}

/// XML whitespace.
pub open spec fn is_space(b: u8) -> bool {
    b == 32 || b == 9 || b == 10 || b == 13
}

/// First occurrence of `b` at or after `i`.
pub open spec fn find_from(s: Seq<u8>, i: int, b: u8) -> Option<int>
    decreases s.len() - i when 0 <= i <= s.len()
{
    if i >= s.len() {
        None
    } else if s[i] == b {
        Some(i)
    } else {
        find_from(s, i + 1, b)
    }
}

/// First occurrence of the two-byte pattern `b0 b1` at or after `i`.
pub open spec fn find_seq2(s: Seq<u8>, i: int, b0: u8, b1: u8) -> Option<int>
    decreases s.len() - i when 0 <= i
{
    if i + 1 >= s.len() {
        None
    } else if s[i] == b0 && s[i + 1] == b1 {
        Some(i)
    } else {
        find_seq2(s, i + 1, b0, b1)
    }
}

/// First occurrence of the three-byte pattern `b0 b1 b2` at or after `i`.
pub open spec fn find_seq3(s: Seq<u8>, i: int, b0: u8, b1: u8, b2: u8) -> Option<int>
    decreases s.len() - i when 0 <= i
{
    if i + 2 >= s.len() {
        None
    } else if s[i] == b0 && s[i + 1] == b1 && s[i + 2] == b2 {
        Some(i)
    } else {
        find_seq3(s, i + 1, b0, b1, b2)
    }
}

/// The closing `>` of an ordinary tag, skipping quoted attribute values;
/// `q` is the active quote byte, or zero outside quotes.
pub open spec fn find_tag_gt(s: Seq<u8>, i: int, q: u8) -> Option<int>
    decreases s.len() - i when 0 <= i <= s.len()
{
    if i >= s.len() {
        None
    } else if q != 0 {
        if s[i] == q {
            find_tag_gt(s, i + 1, 0)
        } else {
            find_tag_gt(s, i + 1, q)
        }
    } else if s[i] == ('>' as u8) {
        Some(i)
    } else if s[i] == ('"' as u8) || s[i] == (39u8) {
        find_tag_gt(s, i + 1, s[i])
    } else {
        find_tag_gt(s, i + 1, 0)
    }
}

/// The closing `>` of a `<!...>` declaration, at zero square-bracket depth
/// (a document type declaration may hold an internal subset in brackets).
pub open spec fn find_bang_gt(s: Seq<u8>, i: int, depth: int) -> Option<int>
    decreases s.len() - i when 0 <= i <= s.len()
{
    if i >= s.len() {
        None
    } else if s[i] == ('[' as u8) {
        find_bang_gt(s, i + 1, depth + 1)
    } else if s[i] == (']' as u8) {
        find_bang_gt(s, i + 1, if depth > 0 {
            depth - 1
        } else {
            0
        })
    } else if s[i] == ('>' as u8) && depth == 0 {
        Some(i)
    } else {
        find_bang_gt(s, i + 1, depth)
    }
}

/// First whitespace byte in `[i, end)`, or `end`.
pub open spec fn name_end(s: Seq<u8>, i: int, end: int) -> int
    decreases end - i when i <= end
{
    if i >= end {
        end
    } else if is_space(s[i]) {
        i
    } else {
        name_end(s, i + 1, end)
    }
}

/// First non-whitespace index in `[i, end)`, or `end`.
pub open spec fn skip_space(s: Seq<u8>, i: int, end: int) -> int
    decreases end - i when i <= end
{
    if i >= end {
        end
    } else if is_space(s[i]) {
        skip_space(s, i + 1, end)
    } else {
        i
    }
}

/// One past the last non-whitespace index in `[i, end)`, or `i`.
pub open spec fn rskip_space(s: Seq<u8>, i: int, end: int) -> int
    decreases end - i when i <= end
{
    if end <= i {
        i
    } else if is_space(s[end - 1]) {
        rskip_space(s, i, end - 1)
    } else {
        end
    }
}

/// Where the token starting at `pos` ends (one past its last byte), or
/// `None` when the bytes received so far do not yet hold a complete token.
pub open spec fn tok_end(data: Seq<u8>, pos: int) -> Option<int>
    recommends
        0 <= pos <= data.len(),
{
    if pos >= data.len() {
        None
    } else if data[pos] != ('<' as u8) {
        // text runs up to the next '<'; without one it may still grow
        find_from(data, pos, ('<' as u8))
    } else if pos + 1 >= data.len() {
        None
    } else if data[pos + 1] == ('!' as u8) {
        if pos + 2 >= data.len() {
            None
        } else if data[pos + 2] == ('-' as u8) {
            if pos + 3 >= data.len() {
                None
            } else if data[pos + 3] == ('-' as u8) {
                match find_seq3(data, pos + 4, ('-' as u8), ('-' as u8), ('>' as u8)) {
                    Some(k) => Some(k + 3),
                    None => None,
                }
            } else {
                match find_bang_gt(data, pos + 2, 0) {
                    Some(k) => Some(k + 1),
                    None => None,
                }
            }
        } else if data[pos + 2] == ('[' as u8) {
            match find_seq3(data, pos + 3, (']' as u8), (']' as u8), ('>' as u8)) {
                Some(k) => Some(k + 3),
                None => None,
            }
        } else {
            match find_bang_gt(data, pos + 2, 0) {
                Some(k) => Some(k + 1),
                None => None,
            }
        }
    } else if data[pos + 1] == ('?' as u8) {
        match find_seq2(data, pos + 2, ('?' as u8), ('>' as u8)) {
            Some(k) => Some(k + 2),
            None => None,
        }
    } else {
        match find_tag_gt(data, pos + 1, 0) {
            Some(k) => Some(k + 1),
            None => None,
        }
    }
}

/// A complete token covers at least one byte and lies inside the data.
pub proof fn lemma_tok_end_bounds(data: Seq<u8>, pos: int)
    requires
        0 <= pos <= data.len(),
    ensures
        tok_end(data, pos) is Some ==> pos < tok_end(data, pos)->Some_0 <= data.len(),
{
    if pos < data.len() {
        if data[pos] != ('<' as u8) {
            lemma_find_from_bounds(data, pos, ('<' as u8));
        } else if pos + 1 < data.len() {
            if data[pos + 1] == ('!' as u8) {
                if pos + 2 < data.len() {
                    if data[pos + 2] == ('-' as u8) {
                        if pos + 3 < data.len() && data[pos + 3] == ('-' as u8) {
                            lemma_find_seq3_bounds(
                                data,
                                pos + 4,
                                ('-' as u8),
                                ('-' as u8),
                                ('>' as u8),
                            );
                        } else if pos + 3 < data.len() {
                            lemma_find_bang_gt_bounds(data, pos + 2, 0);
                        }
                    } else if data[pos + 2] == ('[' as u8) {
                        lemma_find_seq3_bounds(
                            data,
                            pos + 3,
                            (']' as u8),
                            (']' as u8),
                            ('>' as u8),
                        );
                    } else {
                        lemma_find_bang_gt_bounds(data, pos + 2, 0);
                    }
                }
            } else if data[pos + 1] == ('?' as u8) {
                lemma_find_seq2_bounds(data, pos + 2, ('?' as u8), ('>' as u8));
            } else {
                lemma_find_tag_gt_bounds(data, pos + 1, 0);
            }
        }
    }
}


/// Structure of a completed ordinary tag token: it spans at least `<x>`,
/// its last byte is `>`, and an end tag (`</...>`) spans at least four
/// bytes.
pub proof fn lemma_tok_end_tag(data: Seq<u8>, pos: int)
    requires
        0 <= pos,
        pos + 1 < data.len(),
        data[pos] == ('<' as u8),
        data[pos + 1] != ('!' as u8),
        data[pos + 1] != ('?' as u8),
        tok_end(data, pos) is Some,
    ensures
        pos + 2 <= tok_end(data, pos)->Some_0 <= data.len(),
        data[tok_end(data, pos)->Some_0 - 1] == ('>' as u8),
        data[pos + 1] == ('/' as u8) ==> tok_end(data, pos)->Some_0 >= pos + 3,
{
    lemma_find_tag_gt_bounds(data, pos + 1, 0);
    let k = find_tag_gt(data, pos + 1, 0)->Some_0;
    if data[pos + 1] == ('/' as u8) {
        assert(data[pos + 1] != ('>' as u8));
    }
}

proof fn lemma_find_from_bounds(s: Seq<u8>, i: int, b: u8)
    requires
        0 <= i <= s.len(),
    ensures
        find_from(s, i, b) is Some ==> i <= find_from(s, i, b)->Some_0 < s.len() && s[find_from(
            s,
            i,
            b,
        )->Some_0] == b,
    decreases s.len() - i,
{
    if i < s.len() && s[i] != b {
        lemma_find_from_bounds(s, i + 1, b);
    }
}

proof fn lemma_find_seq2_bounds(s: Seq<u8>, i: int, b0: u8, b1: u8)
    requires
        0 <= i,
    ensures
        find_seq2(s, i, b0, b1) is Some ==> i <= find_seq2(s, i, b0, b1)->Some_0 && find_seq2(
            s,
            i,
            b0,
            b1,
        )->Some_0 + 1 < s.len() && s[find_seq2(s, i, b0, b1)->Some_0 + 1] == b1,
    decreases s.len() - i,
{
    if i + 1 < s.len() && !(s[i] == b0 && s[i + 1] == b1) {
        lemma_find_seq2_bounds(s, i + 1, b0, b1);
    }
}

proof fn lemma_find_seq3_bounds(s: Seq<u8>, i: int, b0: u8, b1: u8, b2: u8)
    requires
        0 <= i,
    ensures
        find_seq3(s, i, b0, b1, b2) is Some ==> i <= find_seq3(s, i, b0, b1, b2)->Some_0
            && find_seq3(s, i, b0, b1, b2)->Some_0 + 2 < s.len(),
    decreases s.len() - i,
{
    if i + 2 < s.len() && !(s[i] == b0 && s[i + 1] == b1 && s[i + 2] == b2) {
        lemma_find_seq3_bounds(s, i + 1, b0, b1, b2);
    }
}

proof fn lemma_find_tag_gt_bounds(s: Seq<u8>, i: int, q: u8)
    requires
        0 <= i <= s.len(),
    ensures
        find_tag_gt(s, i, q) is Some ==> i <= find_tag_gt(s, i, q)->Some_0 < s.len() && s[
            find_tag_gt(s, i, q)->Some_0
        ] == ('>' as u8) && (q == 0 && s[i] != ('>' as u8) && i < s.len() ==> find_tag_gt(
            s,
            i,
            q,
        )->Some_0 > i),
    decreases s.len() - i,
{
    if i < s.len() {
        lemma_find_tag_gt_bounds(s, i + 1, 0);
        lemma_find_tag_gt_bounds(s, i + 1, q);
        lemma_find_tag_gt_bounds(s, i + 1, s[i]);
    }
}

proof fn lemma_find_bang_gt_bounds(s: Seq<u8>, i: int, depth: int)
    requires
        0 <= i <= s.len(),
    ensures
        find_bang_gt(s, i, depth) is Some ==> i <= find_bang_gt(s, i, depth)->Some_0 < s.len()
            && s[find_bang_gt(s, i, depth)->Some_0] == ('>' as u8),
    decreases s.len() - i,
{
    if i < s.len() {
        lemma_find_bang_gt_bounds(s, i + 1, depth + 1);
        lemma_find_bang_gt_bounds(s, i + 1, if depth > 0 {
            depth - 1
        } else {
            0
        });
        lemma_find_bang_gt_bounds(s, i + 1, depth);
    }
}

/// The tokenizer's mathematical state: the bytes fed so far, the position
/// of the next unconsumed byte, and the pending synthetic end tag of an
/// expanded empty element.
pub struct TokSt {
    pub data: Seq<u8>,
    pub pos: int,
    pub pending: Option<Seq<u8>>,
}

/// The position lies inside the data.
pub open spec fn st_wf(st: TokSt) -> bool {
    0 <= st.pos <= st.data.len()
}

/// The next token of `st` and the state after it.  Whitespace-only text is
/// skipped when `trim` is on; an incomplete trailing token yields `Eof`
/// and leaves the state unchanged.
pub open spec fn spec_next(st: TokSt, trim: bool) -> (TokView, TokSt)
    decreases st.data.len() - st.pos when st_wf(st) via spec_next_dec
{
    match st.pending {
        Some(name) => (
            TokView::End { name, raw: Seq::empty() },
            TokSt { data: st.data, pos: st.pos, pending: None },
        ),
        None => match tok_end(st.data, st.pos) {
            None => (TokView::Eof, st),
            Some(e) => {
                let raw = st.data.subrange(st.pos, e);
                let st2 = TokSt { data: st.data, pos: e, pending: None };
                if st.data[st.pos] != ('<' as u8) {
                    if trim {
                        let a = skip_space(st.data, st.pos, e);
                        let b = rskip_space(st.data, a, e);
                        if a >= b {
                            spec_next(st2, trim)
                        } else {
                            (TokView::Text { text: st.data.subrange(a, b), raw }, st2)
                        }
                    } else {
                        (TokView::Text { text: raw, raw }, st2)
                    }
                } else if st.data[st.pos + 1] == ('/' as u8) {
                    let ne = name_end(st.data, st.pos + 2, e - 1);
                    (TokView::End { name: st.data.subrange(st.pos + 2, ne), raw }, st2)
                } else if st.data[st.pos + 1] == ('!' as u8) || st.data[st.pos + 1] == (
                '?' as u8) {
                    (TokView::Other { raw }, st2)
                } else {
                    let ce = if e - 2 > st.pos && st.data[e - 2] == ('/' as u8) {
                        e - 2
                    } else {
                        e - 1
                    };
                    let ne = name_end(st.data, st.pos + 1, ce);
                    let name = st.data.subrange(st.pos + 1, ne);
                    let content = st.data.subrange(st.pos + 1, ce);
                    if e - 2 > st.pos && st.data[e - 2] == ('/' as u8) {
                        (
                            TokView::Start { name, content, raw },
                            TokSt { data: st.data, pos: e, pending: Some(name) },
                        )
                    } else {
                        (TokView::Start { name, content, raw }, st2)
                    }
                }
            },
        },
    }
}

#[via_fn]
proof fn spec_next_dec(st: TokSt, trim: bool) {
    lemma_tok_end_bounds(st.data, st.pos);
}

/// Bounds for [`name_end`]: the result stays in range, and when it stops
/// short of `end` it stops on a whitespace byte.
pub proof fn lemma_name_end_bounds(s: Seq<u8>, i: int, end: int)
    requires
        i <= end,
    ensures
        i <= name_end(s, i, end) <= end,
        name_end(s, i, end) < end ==> is_space(s[name_end(s, i, end)]),
    decreases end - i,
{
    if i < end && !is_space(s[i]) {
        lemma_name_end_bounds(s, i + 1, end);
    }
}

/// Bounds for [`skip_space`].
pub proof fn lemma_skip_space_bounds(s: Seq<u8>, i: int, end: int)
    requires
        i <= end,
    ensures
        i <= skip_space(s, i, end) <= end,
    decreases end - i,
{
    if i < end && is_space(s[i]) {
        lemma_skip_space_bounds(s, i + 1, end);
    }
}

/// Bounds for [`rskip_space`].
pub proof fn lemma_rskip_space_bounds(s: Seq<u8>, i: int, end: int)
    requires
        i <= end,
    ensures
        i <= rskip_space(s, i, end) <= end,
    decreases end - i,
{
    if i < end && is_space(s[end - 1]) {
        lemma_rskip_space_bounds(s, i, end - 1);
    }
}

/// Exec twin of [`find_from`].
fn find_from_exec(s: &[u8], i: usize, b: u8) -> (r: Option<usize>)
    requires
        i <= s@.len(),
    ensures
        match r {
            Some(k) => find_from(s@, i as int, b) == Some(k as int) && i <= k < s@.len(),
            None => find_from(s@, i as int, b) is None,
        },
    decreases s@.len() - i,
{
    if i >= s.len() {
        None
    } else if s[i] == b {
        Some(i)
    } else {
        find_from_exec(s, i + 1, b)
    }
}

/// Exec twin of [`find_seq2`].
fn find_seq2_exec(s: &[u8], i: usize, b0: u8, b1: u8) -> (r: Option<usize>)
    requires
        i <= s@.len(),
    ensures
        match r {
            Some(k) => find_seq2(s@, i as int, b0, b1) == Some(k as int) && i <= k && k + 1
                < s@.len(),
            None => find_seq2(s@, i as int, b0, b1) is None,
        },
    decreases s@.len() - i,
{
    if s.len() - i < 2 {
        None
    } else if s[i] == b0 && s[i + 1] == b1 {
        Some(i)
    } else {
        find_seq2_exec(s, i + 1, b0, b1)
    }
}

/// Exec twin of [`find_seq3`].
fn find_seq3_exec(s: &[u8], i: usize, b0: u8, b1: u8, b2: u8) -> (r: Option<usize>)
    requires
        i <= s@.len(),
    ensures
        match r {
            Some(k) => find_seq3(s@, i as int, b0, b1, b2) == Some(k as int) && i <= k && k + 2
                < s@.len(),
            None => find_seq3(s@, i as int, b0, b1, b2) is None,
        },
    decreases s@.len() - i,
{
    if s.len() - i < 3 {
        None
    } else if s[i] == b0 && s[i + 1] == b1 && s[i + 2] == b2 {
        Some(i)
    } else {
        find_seq3_exec(s, i + 1, b0, b1, b2)
    }
}

/// Exec twin of [`find_tag_gt`].
fn find_tag_gt_exec(s: &[u8], i: usize, q: u8) -> (r: Option<usize>)
    requires
        i <= s@.len(),
    ensures
        match r {
            Some(k) => find_tag_gt(s@, i as int, q) == Some(k as int) && i <= k < s@.len(),
            None => find_tag_gt(s@, i as int, q) is None,
        },
    decreases s@.len() - i,
{
    if i >= s.len() {
        None
    } else if q != 0 {
        if s[i] == q {
            find_tag_gt_exec(s, i + 1, 0)
        } else {
            find_tag_gt_exec(s, i + 1, q)
        }
    } else if s[i] == ('>' as u8) {
        Some(i)
    } else if s[i] == ('"' as u8) || s[i] == 39u8 {
        find_tag_gt_exec(s, i + 1, s[i])
    } else {
        find_tag_gt_exec(s, i + 1, 0)
    }
}

/// Exec twin of [`find_bang_gt`]; the bracket depth is capped well below
/// `usize::MAX` by the length of the input.
fn find_bang_gt_exec(s: &[u8], i: usize, depth: usize) -> (r: Option<usize>)
    requires
        i <= s@.len(),
        depth <= i,
    ensures
        match r {
            Some(k) => find_bang_gt(s@, i as int, depth as int) == Some(k as int) && i <= k
                < s@.len(),
            None => find_bang_gt(s@, i as int, depth as int) is None,
        },
    decreases s@.len() - i,
{
    if i >= s.len() {
        None
    } else if s[i] == ('[' as u8) {
        find_bang_gt_exec(s, i + 1, depth + 1)
    } else if s[i] == (']' as u8) {
        find_bang_gt_exec(s, i + 1, if depth > 0 {
            depth - 1
        } else {
            0
        })
    } else if s[i] == ('>' as u8) && depth == 0 {
        Some(i)
    } else {
        find_bang_gt_exec(s, i + 1, depth)
    }
}

/// Exec twin of [`name_end`].
fn name_end_exec(s: &[u8], i: usize, end: usize) -> (r: usize)
    requires
        i <= end <= s@.len(),
    ensures
        r == name_end(s@, i as int, end as int),
        i <= r <= end,
    decreases end - i,
{
    if i >= end {
        end
    } else {
        let b = s[i];
        if b == 32 || b == 9 || b == 10 || b == 13 {
            i
        } else {
            name_end_exec(s, i + 1, end)
        }
    }
}

/// Exec twin of [`skip_space`].
fn skip_space_exec(s: &[u8], i: usize, end: usize) -> (r: usize)
    requires
        i <= end <= s@.len(),
    ensures
        r == skip_space(s@, i as int, end as int),
        i <= r <= end,
    decreases end - i,
{
    if i >= end {
        end
    } else {
        let b = s[i];
        if b == 32 || b == 9 || b == 10 || b == 13 {
            skip_space_exec(s, i + 1, end)
        } else {
            i
        }
    }
}

/// Exec twin of [`rskip_space`].
fn rskip_space_exec(s: &[u8], i: usize, end: usize) -> (r: usize)
    requires
        i <= end <= s@.len(),
    ensures
        r == rskip_space(s@, i as int, end as int),
        i <= r <= end,
    decreases end - i,
{
    if end <= i {
        i
    } else {
        let b = s[end - 1];
        if b == 32 || b == 9 || b == 10 || b == 13 {
            rskip_space_exec(s, i, end - 1)
        } else {
            end
        }
    }
}

/// Exec twin of [`tok_end`].
fn tok_end_exec(s: &[u8], pos: usize) -> (r: Option<usize>)
    requires
        pos <= s@.len(),
    ensures
        match r {
            Some(e) => tok_end(s@, pos as int) == Some(e as int) && pos < e <= s@.len(),
            None => tok_end(s@, pos as int) is None,
        },
{
    proof {
        lemma_tok_end_bounds(s@, pos as int);
    }
    let len = s.len();
    if pos >= len {
        None
    } else if s[pos] != ('<' as u8) {
        find_from_exec(s, pos, ('<' as u8))
    } else if pos + 1 >= len {
        None
    } else if s[pos + 1] == ('!' as u8) {
        if pos + 2 >= len {
            None
        } else if s[pos + 2] == ('-' as u8) {
            if pos + 3 >= len {
                None
            } else if s[pos + 3] == ('-' as u8) {
                match find_seq3_exec(s, pos + 4, ('-' as u8), ('-' as u8), ('>' as u8)) {
                    Some(k) => Some(k + 3),
                    None => None,
                }
            } else {
                match find_bang_gt_exec(s, pos + 2, 0) {
                    Some(k) => Some(k + 1),
                    None => None,
                }
            }
        } else if s[pos + 2] == ('[' as u8) {
            match find_seq3_exec(s, pos + 3, (']' as u8), (']' as u8), ('>' as u8)) {
                Some(k) => Some(k + 3),
                None => None,
            }
        } else {
            match find_bang_gt_exec(s, pos + 2, 0) {
                Some(k) => Some(k + 1),
                None => None,
            }
        }
    } else if s[pos + 1] == ('?' as u8) {
        match find_seq2_exec(s, pos + 2, ('?' as u8), ('>' as u8)) {
            Some(k) => Some(k + 2),
            None => None,
        }
    } else {
        match find_tag_gt_exec(s, pos + 1, 0) {
            Some(k) => Some(k + 1),
            None => None,
        }
    }
}

/// The resumable tokenizer over an append-only byte buffer.
#[derive(Debug)]
pub struct Tokenizer {
    /// Every byte fed so far.
    pub data: Vec<u8>,
    /// The position of the next unconsumed byte.
    pub pos: usize,
    /// The queued synthetic end tag of an expanded empty element.
    pub pending_end: Option<Vec<u8>>,
    /// Whether text nodes are trimmed (and skipped when whitespace-only).
    pub trim: bool,
}

impl Tokenizer {
    /// The mathematical state.
    pub open spec fn st(&self) -> TokSt {
        TokSt {
            data: self.data@,
            pos: self.pos as int,
            pending: match self.pending_end {
                Some(v) => Some(v@),
                None => None,
            },
        }
    }

    /// Well-formedness: the position lies inside the buffer.
    pub open spec fn wf(&self) -> bool {
        st_wf(self.st())
    }

    /// A fresh tokenizer with no input and trimming on.
    pub fn new() -> (r: Tokenizer)
        ensures
            r.wf(),
            r.st().data == Seq::<u8>::empty(),
            r.st().pos == 0,
            r.st().pending is None,
            r.trim == true,
    {
        let r = Tokenizer { data: Vec::new(), pos: 0, pending_end: None, trim: true };
        proof {
            assert(r.data@ =~= Seq::<u8>::empty());
        }
        r
    }

    /// Feed one more chunk of document bytes.
    pub fn feed(&mut self, chunk: &[u8])
        requires
            old(self).wf(),
        ensures
            final(self).wf(),
            final(self).st().data == old(self).st().data + chunk@,
            final(self).st().pos == old(self).st().pos,
            final(self).st().pending == old(self).st().pending,
            final(self).trim == old(self).trim,
    {
        crate::utils::push_all(&mut self.data, chunk);
    }

    /// Switch text trimming on or off.
    pub fn set_trim(&mut self, on: bool)
        ensures
            final(self).st() == old(self).st(),
            final(self).trim == on,
    {
        self.trim = on;
    }

    /// Hand out the next complete token, or `Eof` when the received bytes
    /// end before the next token does.
    pub fn next(&mut self) -> (t: Token)
        requires
            old(self).wf(),
        ensures
            final(self).wf(),
            final(self).trim == old(self).trim,
            final(self).st().data == old(self).st().data,
            t@ == spec_next(old(self).st(), old(self).trim).0,
            final(self).st() == spec_next(old(self).st(), old(self).trim).1,
    {
        let pending = self.pending_end.take();
        match pending {
            Some(name) => {
                let raw: Vec<u8> = Vec::new();
                proof {
                    assert(raw@ =~= Seq::<u8>::empty());
                }
                return Token::End { name, raw };
            },
            None => {},
        }
        loop
            invariant
                self.wf(),
                st_wf(old(self).st()),
                self.trim == old(self).trim,
                self.st().data == old(self).st().data,
                self.st().pending is None,
                spec_next(old(self).st(), old(self).trim) == spec_next(
                    self.st(),
                    old(self).trim,
                ),
            decreases self.st().data.len() - self.st().pos,
        {
            let e = match tok_end_exec(self.data.as_slice(), self.pos) {
                None => {
                    return Token::Eof;
                },
                Some(e) => e,
            };
            let pos = self.pos;
            let data = self.data.as_slice();
            let raw = vstd::slice::slice_to_vec(vstd::slice::slice_subrange(data, pos, e));
            if data[pos] != ('<' as u8) {
                if self.trim {
                    let a = skip_space_exec(data, pos, e);
                    let b = rskip_space_exec(data, a, e);
                    if a >= b {
                        self.pos = e;
                        continue;
                    }
                    let text = vstd::slice::slice_to_vec(
                        vstd::slice::slice_subrange(data, a, b),
                    );
                    self.pos = e;
                    return Token::Text { text, raw };
                }
                let text = vstd::slice::slice_to_vec(vstd::slice::slice_subrange(data, pos, e));
                self.pos = e;
                return Token::Text { text, raw };
            }
            proof {
                if self.data@[pos as int + 1] != ('!' as u8) && self.data@[pos as int + 1] != (
                '?' as u8) {
                    lemma_tok_end_tag(self.data@, pos as int);
                }
            }
            if data[pos + 1] == ('/' as u8) {
                let ne = name_end_exec(data, pos + 2, e - 1);
                let name = vstd::slice::slice_to_vec(
                    vstd::slice::slice_subrange(data, pos + 2, ne),
                );
                self.pos = e;
                return Token::End { name, raw };
            }
            if data[pos + 1] == ('!' as u8) || data[pos + 1] == ('?' as u8) {
                self.pos = e;
                return Token::Other { raw };
            }
            let is_empty_elt = e - 2 > pos && data[e - 2] == ('/' as u8);
            let ce = if is_empty_elt {
                e - 2
            } else {
                e - 1
            };
            let ne = name_end_exec(data, pos + 1, ce);
            let name = vstd::slice::slice_to_vec(vstd::slice::slice_subrange(data, pos + 1, ne));
            let content = vstd::slice::slice_to_vec(
                vstd::slice::slice_subrange(data, pos + 1, ce),
            );
            self.pos = e;
            if is_empty_elt {
                self.pending_end = Some(name.clone());
            }
            return Token::Start { name, content, raw };
        }
    }
}


/// Well-formedness of a token as the tokenizer hands it out: a start
/// tag's name is followed in the content by an ASCII byte (whitespace) or
/// by nothing, so the content can be split after the name on a character
/// boundary.
pub open spec fn tok_wf(tok: TokView) -> bool {
    match tok {
        TokView::Start { name, content, raw } => name.len() >= content.len() || content[
            name.len() as int
        ] < 128,
        _ => true,
    }
}

/// Every token the tokenizer hands out is well-formed.
pub proof fn lemma_spec_next_wf(st: TokSt, trim: bool)
    requires
        st_wf(st),
    ensures
        tok_wf(spec_next(st, trim).0),
    decreases st.data.len() - st.pos,
{
    match st.pending {
        Some(_) => {},
        None => {
            lemma_tok_end_bounds(st.data, st.pos);
            match tok_end(st.data, st.pos) {
                None => {},
                Some(e) => {
                    let st2 = TokSt { data: st.data, pos: e, pending: None };
                    if st.data[st.pos] != ('<' as u8) {
                        if trim {
                            lemma_skip_space_bounds(st.data, st.pos, e);
                            let a = skip_space(st.data, st.pos, e);
                            lemma_rskip_space_bounds(st.data, a, e);
                            let b = rskip_space(st.data, a, e);
                            if a >= b {
                                lemma_spec_next_wf(st2, trim);
                            }
                        }
                    } else if st.data[st.pos + 1] == ('/' as u8) || st.data[st.pos + 1] == (
                    '!' as u8) || st.data[st.pos + 1] == ('?' as u8) {
                    } else {
                        lemma_tok_end_tag(st.data, st.pos);
                        let ce = if e - 2 > st.pos && st.data[e - 2] == ('/' as u8) {
                            e - 2
                        } else {
                            e - 1
                        };
                        lemma_name_end_bounds(st.data, st.pos + 1, ce);
                        let ne = name_end(st.data, st.pos + 1, ce);
                        let name = st.data.subrange(st.pos + 1, ne);
                        let content = st.data.subrange(st.pos + 1, ce);
                        if ne < ce {
                            assert(content[name.len() as int] == st.data[ne]);
                            assert(is_space(st.data[ne]));
                        }
                    }
                },
            }
        },
    }
}

/// The attribute entries that quick_xml's `Attributes` iterator derives
/// from the content of a start tag (`name_len` bytes of element name, then
/// the attribute text).  A deterministic function of the bytes alone.
pub uninterp spec fn xml_attrs_of(content: Seq<u8>, name_len: int) -> Seq<AttrView>;

/// What quick_xml's entity unescaping makes of a byte string: `None` when
/// the bytes are not UTF-8 or hold a malformed entity reference.  A
/// deterministic function of the bytes alone.
pub uninterp spec fn xml_unescaped(raw: Seq<u8>) -> Option<Seq<u8>>;

/// Relies on quick_xml's `Attributes` iterator (`Attributes::new`): it
/// splits the text after a start tag's name into `name="value"` entries,
/// reports malformed or duplicated entries as errors, and recovers after
/// them; the outcome depends on the given bytes alone.
///
/// The split point must not fall inside a multi-byte UTF-8 character: the
/// iterator slices the content at `name_len`, and `str` range indexing
/// panics off a character boundary.  An ASCII byte at the split point (or
/// a split at the end) keeps every later slice on a boundary, and content
/// that is not UTF-8 at all is answered with a `Broken` entry before any
/// slicing.  The tokenizer guarantees this: an element name ends at an
/// ASCII whitespace byte or at the end of the tag content.
#[verifier::external_body]
pub fn split_attributes(content: &[u8], name_len: usize) -> (r: Vec<XmlAttr>)
    requires
        name_len >= content@.len() || content@[name_len as int] < 128,
    ensures
        attrs_view(r@) == xml_attrs_of(content@, name_len as int),
{
    let text = match core::str::from_utf8(content) {
        Ok(t) => t,
        Err(e) => return vec![XmlAttr::Broken(e.to_string())],
    };
    quick_xml::events::attributes::Attributes::new(text, name_len).map(
        |item| match item {
            Ok(a) => XmlAttr::Pair {
                name: a.key.0.as_bytes().to_vec(),
                value: a.value.as_bytes().to_vec(),
            },
            Err(e) => XmlAttr::Broken(e.to_string()),
        },
    ).collect()
}

/// Relies on quick_xml's `escape::unescape`: it replaces `&...;` entity
/// references and returns the input unchanged when no `&` occurs; the
/// outcome depends on the given bytes alone.  Fails on non-UTF-8 input or
/// a malformed reference.
#[verifier::external_body]
pub fn unescape_bytes(raw: &[u8]) -> (r: Option<Vec<u8>>)
    ensures
        r is Some <==> xml_unescaped(raw@) is Some,
        r is Some ==> r->0@ == xml_unescaped(raw@)->0,
        (forall|i: int|
            0 <= i < raw@.len() ==> raw@[i] < 128 && raw@[i] != ('&' as u8)) ==> (r is Some
            && r->0@ == raw@),
{
    match core::str::from_utf8(raw) {
        Ok(t) => match quick_xml::escape::unescape(t) {
            Ok(u) => Some(u.into_owned().into_bytes()),
            Err(_) => None,
        },
        Err(_) => None,
    }
}

/// Extending the data cannot change an already-found occurrence.
pub proof fn lemma_find_from_extend(s: Seq<u8>, ext: Seq<u8>, i: int, b: u8)
    requires
        0 <= i <= s.len(),
        find_from(s, i, b) is Some,
    ensures
        find_from(s + ext, i, b) == find_from(s, i, b),
    decreases s.len() - i,
{
    assert((s + ext)[i] == s[i]) by {
        assert(i < s.len());
    }
    if s[i] != b {
        lemma_find_from_extend(s, ext, i + 1, b);
    }
}

/// Extending the data cannot change an already-found two-byte pattern.
pub proof fn lemma_find_seq2_extend(s: Seq<u8>, ext: Seq<u8>, i: int, b0: u8, b1: u8)
    requires
        0 <= i,
        find_seq2(s, i, b0, b1) is Some,
    ensures
        find_seq2(s + ext, i, b0, b1) == find_seq2(s, i, b0, b1),
    decreases s.len() - i,
{
    lemma_find_seq2_bounds(s, i, b0, b1);
    assert(i + 1 < s.len());
    assert((s + ext)[i] == s[i] && (s + ext)[i + 1] == s[i + 1]);
    if !(s[i] == b0 && s[i + 1] == b1) {
        lemma_find_seq2_extend(s, ext, i + 1, b0, b1);
    }
}

/// Extending the data cannot change an already-found three-byte pattern.
pub proof fn lemma_find_seq3_extend(s: Seq<u8>, ext: Seq<u8>, i: int, b0: u8, b1: u8, b2: u8)
    requires
        0 <= i,
        find_seq3(s, i, b0, b1, b2) is Some,
    ensures
        find_seq3(s + ext, i, b0, b1, b2) == find_seq3(s, i, b0, b1, b2),
    decreases s.len() - i,
{
    lemma_find_seq3_bounds(s, i, b0, b1, b2);
    assert(i + 2 < s.len());
    assert((s + ext)[i] == s[i] && (s + ext)[i + 1] == s[i + 1] && (s + ext)[i + 2] == s[i
        + 2]);
    if !(s[i] == b0 && s[i + 1] == b1 && s[i + 2] == b2) {
        lemma_find_seq3_extend(s, ext, i + 1, b0, b1, b2);
    }
}

/// Extending the data cannot change an already-found tag end.
pub proof fn lemma_find_tag_gt_extend(s: Seq<u8>, ext: Seq<u8>, i: int, q: u8)
    requires
        0 <= i <= s.len(),
        find_tag_gt(s, i, q) is Some,
    ensures
        find_tag_gt(s + ext, i, q) == find_tag_gt(s, i, q),
    decreases s.len() - i,
{
    lemma_find_tag_gt_bounds(s, i, q);
    assert(i < s.len());
    assert((s + ext)[i] == s[i]);
    if q != 0 {
        if s[i] == q {
            lemma_find_tag_gt_extend(s, ext, i + 1, 0);
        } else {
            lemma_find_tag_gt_extend(s, ext, i + 1, q);
        }
    } else if s[i] == ('>' as u8) {
    } else if s[i] == ('"' as u8) || s[i] == 39u8 {
        lemma_find_tag_gt_extend(s, ext, i + 1, s[i]);
    } else {
        lemma_find_tag_gt_extend(s, ext, i + 1, 0);
    }
}

/// Extending the data cannot change an already-found declaration end.
pub proof fn lemma_find_bang_gt_extend(s: Seq<u8>, ext: Seq<u8>, i: int, depth: int)
    requires
        0 <= i <= s.len(),
        find_bang_gt(s, i, depth) is Some,
    ensures
        find_bang_gt(s + ext, i, depth) == find_bang_gt(s, i, depth),
    decreases s.len() - i,
{
    lemma_find_bang_gt_bounds(s, i, depth);
    assert(i < s.len());
    assert((s + ext)[i] == s[i]);
    if s[i] == ('[' as u8) {
        lemma_find_bang_gt_extend(s, ext, i + 1, depth + 1);
    } else if s[i] == (']' as u8) {
        lemma_find_bang_gt_extend(s, ext, i + 1, if depth > 0 {
            depth - 1
        } else {
            0
        });
    } else if s[i] == ('>' as u8) && depth == 0 {
    } else {
        lemma_find_bang_gt_extend(s, ext, i + 1, depth);
    }
}

/// [`name_end`] reads only bytes below `end`.
pub proof fn lemma_name_end_extend(s: Seq<u8>, ext: Seq<u8>, i: int, end: int)
    requires
        0 <= i <= end <= s.len(),
    ensures
        name_end(s + ext, i, end) == name_end(s, i, end),
    decreases end - i,
{
    if i < end {
        assert((s + ext)[i] == s[i]);
        if !is_space(s[i]) {
            lemma_name_end_extend(s, ext, i + 1, end);
        }
    }
}

/// [`skip_space`] reads only bytes below `end`.
pub proof fn lemma_skip_space_extend(s: Seq<u8>, ext: Seq<u8>, i: int, end: int)
    requires
        0 <= i <= end <= s.len(),
    ensures
        skip_space(s + ext, i, end) == skip_space(s, i, end),
    decreases end - i,
{
    if i < end {
        assert((s + ext)[i] == s[i]);
        if is_space(s[i]) {
            lemma_skip_space_extend(s, ext, i + 1, end);
        }
    }
}

/// [`rskip_space`] reads only bytes below `end`.
pub proof fn lemma_rskip_space_extend(s: Seq<u8>, ext: Seq<u8>, i: int, end: int)
    requires
        0 <= i <= end <= s.len(),
    ensures
        rskip_space(s + ext, i, end) == rskip_space(s, i, end),
    decreases end - i,
{
    if i < end {
        assert((s + ext)[end - 1] == s[end - 1]);
        if is_space(s[end - 1]) {
            lemma_rskip_space_extend(s, ext, i, end - 1);
        }
    }
}

/// A token complete in the bytes received so far keeps exactly the same
/// boundary when more bytes arrive.
pub proof fn lemma_tok_end_extend(s: Seq<u8>, ext: Seq<u8>, pos: int)
    requires
        0 <= pos <= s.len(),
        tok_end(s, pos) is Some,
    ensures
        tok_end(s + ext, pos) == tok_end(s, pos),
{
    let t = s + ext;
    assert(pos < s.len());
    assert(t[pos] == s[pos]);
    if s[pos] != ('<' as u8) {
        lemma_find_from_extend(s, ext, pos, ('<' as u8));
    } else {
        assert(pos + 1 < s.len());
        assert(t[pos + 1] == s[pos + 1]);
        if s[pos + 1] == ('!' as u8) {
            assert(pos + 2 < s.len());
            assert(t[pos + 2] == s[pos + 2]);
            if s[pos + 2] == ('-' as u8) {
                assert(pos + 3 < s.len());
                assert(t[pos + 3] == s[pos + 3]);
                if s[pos + 3] == ('-' as u8) {
                    lemma_find_seq3_extend(s, ext, pos + 4, ('-' as u8), ('-' as u8), (
                    '>' as u8));
                } else {
                    lemma_find_bang_gt_extend(s, ext, pos + 2, 0);
                }
            } else if s[pos + 2] == ('[' as u8) {
                lemma_find_seq3_extend(s, ext, pos + 3, (']' as u8), (']' as u8), ('>' as u8));
            } else {
                lemma_find_bang_gt_extend(s, ext, pos + 2, 0);
            }
        } else if s[pos + 1] == ('?' as u8) {
            lemma_find_seq2_extend(s, ext, pos + 2, ('?' as u8), ('>' as u8));
        } else {
            lemma_find_tag_gt_extend(s, ext, pos + 1, 0);
        }
    }
}

/// The state with the same position and pending tag over extended data.
pub open spec fn ext_st(st: TokSt, ext: Seq<u8>) -> TokSt {
    TokSt { data: st.data + ext, pos: st.pos, pending: st.pending }
}

/// A token handed out before more bytes arrived is exactly the token
/// handed out after: completed tokens never change.
pub proof fn lemma_next_extend(st: TokSt, ext: Seq<u8>, trim: bool)
    requires
        st_wf(st),
        !(spec_next(st, trim).0 is Eof),
    ensures
        spec_next(ext_st(st, ext), trim).0 == spec_next(st, trim).0,
        spec_next(ext_st(st, ext), trim).1 == ext_st(spec_next(st, trim).1, ext),
    decreases st.data.len() - st.pos,
{
    let t = ext_st(st, ext);
    match st.pending {
        Some(_) => {},
        None => {
            lemma_tok_end_bounds(st.data, st.pos);
            match tok_end(st.data, st.pos) {
                None => {},
                Some(e) => {
                    lemma_tok_end_extend(st.data, ext, st.pos);
                    assert(t.data.subrange(st.pos, e) =~= st.data.subrange(st.pos, e));
                    assert(forall|j: int|
                        st.pos <= j < e ==> #[trigger] t.data[j] == st.data[j]);
                    let st2 = TokSt { data: st.data, pos: e, pending: None };
                    let t2 = TokSt { data: t.data, pos: e, pending: None };
                    assert(t2 == ext_st(st2, ext));
                    if st.data[st.pos] == ('<' as u8) && st.data[st.pos + 1] != ('!' as u8)
                        && st.data[st.pos + 1] != ('?' as u8) {
                        lemma_tok_end_tag(st.data, st.pos);
                    }
                    if st.data[st.pos] != ('<' as u8) {
                        if trim {
                            lemma_skip_space_extend(st.data, ext, st.pos, e);
                            let a = skip_space(st.data, st.pos, e);
                            lemma_skip_space_bounds(st.data, st.pos, e);
                            lemma_rskip_space_extend(st.data, ext, a, e);
                            let b = rskip_space(st.data, a, e);
                            lemma_rskip_space_bounds(st.data, a, e);
                            if a >= b {
                                lemma_next_extend(st2, ext, trim);
                            } else {
                                assert(t.data.subrange(a, b) =~= st.data.subrange(a, b));
                            }
                        }
                    } else {
                        if st.data[st.pos + 1] == ('/' as u8) {
                            lemma_name_end_extend(st.data, ext, st.pos + 2, e - 1);
                            lemma_name_end_bounds(st.data, st.pos + 2, e - 1);
                            let ne = name_end(st.data, st.pos + 2, e - 1);
                            assert(t.data.subrange(st.pos + 2, ne) =~= st.data.subrange(
                                st.pos + 2,
                                ne,
                            ));
                        } else if st.data[st.pos + 1] == ('!' as u8) || st.data[st.pos + 1]
                            == ('?' as u8) {
                        } else {
                            let ce = if e - 2 > st.pos && st.data[e - 2] == ('/' as u8) {
                                e - 2
                            } else {
                                e - 1
                            };
                            lemma_name_end_extend(st.data, ext, st.pos + 1, ce);
                            lemma_name_end_bounds(st.data, st.pos + 1, ce);
                            let ne = name_end(st.data, st.pos + 1, ce);
                            assert(t.data.subrange(st.pos + 1, ne) =~= st.data.subrange(
                                st.pos + 1,
                                ne,
                            ));
                            assert(t.data.subrange(st.pos + 1, ce) =~= st.data.subrange(
                                st.pos + 1,
                                ce,
                            ));
                        }
                    }
                },
            }
        },
    }
}

/// When the received bytes end before the next token does, feeding more
/// bytes resumes the scan from the same place: skipping the same
/// whitespace first.
pub proof fn lemma_next_eof_extend(st: TokSt, ext: Seq<u8>, trim: bool)
    requires
        st_wf(st),
        spec_next(st, trim).0 is Eof,
    ensures
        spec_next(ext_st(st, ext), trim) == spec_next(ext_st(spec_next(st, trim).1, ext), trim),
    decreases st.data.len() - st.pos,
{
    match st.pending {
        Some(_) => {},
        None => {
            lemma_tok_end_bounds(st.data, st.pos);
            match tok_end(st.data, st.pos) {
                None => {},
                Some(e) => {
                    // the only way a found token yields Eof is the
                    // whitespace-skip recursion
                    lemma_tok_end_extend(st.data, ext, st.pos);
                    let st2 = TokSt { data: st.data, pos: e, pending: None };
                    lemma_skip_space_extend(st.data, ext, st.pos, e);
                    lemma_skip_space_bounds(st.data, st.pos, e);
                    let a = skip_space(st.data, st.pos, e);
                    lemma_rskip_space_extend(st.data, ext, a, e);
                    lemma_next_eof_extend(st2, ext, trim);
                },
            }
        },
    }
}

} // verus!
