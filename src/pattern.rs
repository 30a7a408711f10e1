//! The reusable pattern handle: single matches, capture access and slices
//! of the subject.
use vstd::prelude::*;
use vstd::slice::{slice_subrange, slice_to_vec};
use vstd::string::StringSliceAdditionalSpecFns;
use vstd::utf8::{
    encode_utf8_valid_utf8, is_char_boundary, is_char_boundary_iff_not_is_continuation_byte,
    is_char_boundary_start_end_of_seq,
};
use core::ops::Range;
use crate::engine::{match_spans, try_match, POSITION_MARKER};
use crate::error::PatternError;

verus! {

/// The bytes of `b` that the span `r` covers, or none when it does not lie within `b`
/// (as for a position capture).
pub open spec fn span_bytes(b: Seq<u8>, r: Range<usize>) -> Seq<u8> {
    if r.start <= r.end <= b.len() {
        b.subrange(r.start as int, r.end as int)
    } else {
        Seq::empty()
    }
}

/// As `span_bytes`, for text: also none when either end splits a character.
pub open spec fn text_piece(b: Seq<u8>, r: Range<usize>) -> Seq<u8> {
    if r.start <= r.end <= b.len() && is_char_boundary(b, r.start as int) && is_char_boundary(
        b,
        r.end as int,
    ) {
        b.subrange(r.start as int, r.end as int)
    } else {
        Seq::empty()
    }
}

/// The first user capture, or the whole match when there is none.
pub open spec fn first_span(spans: Seq<Range<usize>>) -> Range<usize> {
    if spans.len() > 1 {
        spans[1]
    } else {
        spans[0]
    }
}

/// A span of a part of the subject moved to where that part starts in the
/// whole; a position keeps its marker, and a span that would not fit is
/// made empty-and-invalid.
pub open spec fn shift(r: Range<usize>, off: usize) -> Range<usize> {
    if r.start + off <= usize::MAX && (r.end == POSITION_MARKER || r.end + off <= usize::MAX) {
        Range {
            start: (r.start + off) as usize,
            end: if r.end == POSITION_MARKER {
                POSITION_MARKER
            } else {
                (r.end + off) as usize
            },
        }
    } else {
        Range { start: 1, end: 0 }
    }
}

pub fn shift_span(r: Range<usize>, off: usize) -> (res: Range<usize>)
    ensures
        res == shift(r, off),
{
    if r.start <= usize::MAX - off && (r.end == POSITION_MARKER || r.end <= usize::MAX - off) {
        Range {
            start: r.start + off,
            end: if r.end == POSITION_MARKER {
                POSITION_MARKER
            } else {
                r.end + off
            },
        }
    } else {
        Range { start: 1, end: 0 }
    }
}

/// The spans a handle keeps after matching: those of the match, or none on
/// a pattern error.
pub open spec fn spans_after(pat: Seq<u8>, s: Seq<u8>) -> Seq<Range<usize>> {
    match match_spans(pat, s) {
        Ok(v) => v,
        Err(_) => Seq::empty(),
    }
}

/// The part of `b` that `r` covers.
pub fn byte_slice<'b>(b: &'b [u8], r: Range<usize>) -> (res: &'b [u8])
    ensures
        res@ == span_bytes(b@, r),
{
    if r.start <= r.end && r.end <= b.len() {
        slice_subrange(b, r.start, r.end)
    } else {
        slice_subrange(b, 0, 0)
    }
}

/// The part of `text` that `r` covers; empty where `r` leaves the text or
/// splits a character.
pub fn str_slice<'b>(text: &'b str, r: Range<usize>) -> (res: &'b str)
    ensures
        res.spec_bytes() == text_piece(text.spec_bytes(), r),
{
    let ghost b = text.spec_bytes();
    proof {
        encode_utf8_valid_utf8(text@);
    }
    let n = text.as_bytes().len();
    if r.start <= r.end && r.end <= n && text.is_char_boundary(r.start)
        && text.is_char_boundary(r.end) {
        let (head, _) = text.split_at(r.end);
        let ghost hb = head.spec_bytes();
        proof {
            encode_utf8_valid_utf8(head@);
            if r.start == r.end {
                is_char_boundary_start_end_of_seq(hb);
            } else {
                is_char_boundary_iff_not_is_continuation_byte(b, r.start as int);
                is_char_boundary_iff_not_is_continuation_byte(hb, r.start as int);
            }
        }
        let (_, piece) = head.split_at(r.start);
        assert(piece.spec_bytes() =~= b.subrange(r.start as int, r.end as int));
        piece
    } else {
        let (empty, _) = text.split_at(0);
        assert(empty.spec_bytes() =~= Seq::<u8>::empty());
        empty
    }
}

/// What a handle holds: its pattern and the spans of its last match.
pub struct PatternView {
    pub pattern: Seq<u8>,
    pub spans: Seq<Range<usize>>,
}

/// A Lua pattern and the spans of the last match made with it.
pub struct LuaPattern {
    patt: Vec<u8>,
    spans: Vec<Range<usize>>,
}

impl View for LuaPattern {
    type V = PatternView;

    closed spec fn view(&self) -> PatternView {
        PatternView { pattern: self.patt@, spans: self.spans@ }
    }
}

impl LuaPattern {
    /// A pattern from text, taken as its bytes; not checked.
    pub fn new(patt: &str) -> (r: LuaPattern)
        ensures
            r@.pattern == patt.spec_bytes(),
            r@.spans.len() == 0,
    {
        LuaPattern::from_bytes(patt.as_bytes())
    }

    /// A pattern from bytes; not checked.
    pub fn from_bytes(bytes: &[u8]) -> (r: LuaPattern)
        ensures
            r@.pattern == bytes@,
            r@.spans.len() == 0,
    {
        LuaPattern { patt: slice_to_vec(bytes), spans: Vec::new() }
    }

    /// The pattern's bytes.
    pub fn pattern(&self) -> (r: &[u8])
        ensures
            r@ == self@.pattern,
    {
        self.patt.as_slice()
    }

    /// A pattern from text, checked by matching it against the empty subject.
    pub fn try_new(patt: &str) -> (r: Result<LuaPattern, PatternError>)
        ensures
            match r {
                Ok(m) => m@.pattern == patt.spec_bytes() && m@.spans.len() == 0 && match_spans(
                    patt.spec_bytes(),
                    Seq::empty(),
                ) is Ok,
                Err(e) => match_spans(patt.spec_bytes(), Seq::empty()) == Err::<
                    Seq<Range<usize>>,
                    PatternError,
                >(e),
            },
    {
        let empty: &[u8] = &[];
        assert(empty@ =~= Seq::<u8>::empty());
        match try_match(patt.as_bytes(), empty) {
            Ok(_) => Ok(LuaPattern::new(patt)),
            Err(e) => Err(e),
        }
    }

    /// Matches `s`, keeping the spans; a pattern error is returned.
    pub fn try_matches_bytes(&mut self, s: &[u8]) -> (r: Result<bool, PatternError>)
        ensures
            final(self)@.pattern == old(self)@.pattern,
            final(self)@.spans == spans_after(old(self)@.pattern, s@),
            final(self)@.spans.len() > 0 ==> final(self)@.spans[0].start <= final(self)@.spans[0].end
                <= s@.len(),
            match match_spans(old(self)@.pattern, s@) {
                Ok(v) => r == Ok::<bool, PatternError>(v.len() > 0),
                Err(e) => r == Err::<bool, PatternError>(e),
            },
    {
        match try_match(self.patt.as_slice(), s) {
            Ok(v) => {
                let found = v.len() > 0;
                self.spans = v;
                Ok(found)
            },
            Err(e) => {
                self.spans = Vec::new();
                Err(e)
            },
        }
    }

    /// Matches a slice of bytes, keeping the spans; false where there is no
    /// match or the pattern is malformed.
    pub fn matches_bytes(&mut self, s: &[u8]) -> (r: bool)
        ensures
            final(self)@.pattern == old(self)@.pattern,
            final(self)@.spans == spans_after(old(self)@.pattern, s@),
            final(self)@.spans.len() > 0 ==> final(self)@.spans[0].start <= final(self)@.spans[0].end
                <= s@.len(),
            r == (final(self)@.spans.len() > 0),
    {
        match self.try_matches_bytes(s) {
            Ok(found) => found,
            Err(_) => false,
        }
    }

    /// Matches text, taken as its bytes.
    pub fn matches(&mut self, text: &str) -> (r: bool)
        ensures
            final(self)@.pattern == old(self)@.pattern,
            final(self)@.spans == spans_after(old(self)@.pattern, text.spec_bytes()),
            r == (final(self)@.spans.len() > 0),
    {
        self.matches_bytes(text.as_bytes())
    }

    /// Matches text and returns its first capture (or the whole match).
    pub fn match_maybe<'t>(&mut self, text: &'t str) -> (r: Option<&'t str>)
        ensures
            final(self)@.pattern == old(self)@.pattern,
            final(self)@.spans == spans_after(old(self)@.pattern, text.spec_bytes()),
            r is Some <==> final(self)@.spans.len() > 0,
            r matches Some(t) ==> t.spec_bytes() == text_piece(
                text.spec_bytes(),
                first_span(final(self)@.spans),
            ),
    {
        if self.matches(text) {
            Some(str_slice(text, self.first_capture()))
        } else {
            None
        }
    }

    /// Matches text and returns every capture, the whole match first.
    pub fn captures<'b>(&mut self, text: &'b str) -> (r: Vec<&'b str>)
        ensures
            final(self)@.pattern == old(self)@.pattern,
            final(self)@.spans == spans_after(old(self)@.pattern, text.spec_bytes()),
            r@.len() == final(self)@.spans.len(),
            forall|i: int|
                0 <= i < r@.len() ==> #[trigger] r@[i].spec_bytes() == text_piece(
                    text.spec_bytes(),
                    final(self)@.spans[i],
                ),
    {
        let mut res = Vec::new();
        self.capture_into(text, &mut res);
        res
    }

    /// Matches text and writes every capture into `vec`, replacing what it held.
    pub fn capture_into<'b>(&mut self, text: &'b str, vec: &mut Vec<&'b str>) -> (r: bool)
        ensures
            final(self)@.pattern == old(self)@.pattern,
            final(self)@.spans == spans_after(old(self)@.pattern, text.spec_bytes()),
            r == (final(self)@.spans.len() > 0),
            final(vec)@.len() == final(self)@.spans.len(),
            forall|i: int|
                0 <= i < final(vec)@.len() ==> #[trigger] final(vec)@[i].spec_bytes() == text_piece(
                    text.spec_bytes(),
                    final(self)@.spans[i],
                ),
    {
        let found = self.matches(text);
        vec.clear();
        let n = self.spans.len();
        let mut i: usize = 0;
        while i < n
            invariant
                n == self@.spans.len(),
                i <= n,
                vec@.len() == i,
                forall|j: int|
                    0 <= j < i ==> #[trigger] vec@[j].spec_bytes() == text_piece(
                        text.spec_bytes(),
                        self@.spans[j],
                    ),
            decreases n - i,
        {
            let piece = str_slice(text, self.capture(i));
            vec.push(piece);
            i = i + 1;
        }
        found
    }

    /// How many spans the last match holds, the whole match included.
    pub fn num_spans(&self) -> (r: usize)
        ensures
            r == self@.spans.len(),
    {
        self.spans.len()
    }

    /// The span of the whole match.
    pub fn range(&self) -> (r: Range<usize>)
        requires
            self@.spans.len() > 0,
        ensures
            r == self@.spans[0],
    {
        self.capture(0)
    }

    /// The span of capture `i` (0 is the whole match).
    pub fn capture(&self, i: usize) -> (r: Range<usize>)
        requires
            i < self@.spans.len(),
        ensures
            r == self@.spans[i as int],
    {
        let sp = &self.spans[i];
        Range { start: sp.start, end: sp.end }
    }

    /// The first user capture, or the whole match when there is none.
    pub fn first_capture(&self) -> (r: Range<usize>)
        requires
            self@.spans.len() > 0,
        ensures
            r == first_span(self@.spans),
    {
        let idx: usize = if self.spans.len() > 1 {
            1
        } else {
            0
        };
        self.capture(idx)
    }

    /// Captures of the last match, read from `text`.
    pub fn match_captures<'a, 'b>(&'a self, text: &'b str) -> (r: Captures<'a, 'b>)
        ensures
            r.spans() == self@.spans,
            r.subject() == text.spec_bytes(),
            r.offset() == 0,
    {
        Captures { m: self, text, offset: 0 }
    }

    /// Captures of the last match, made on the part of `text` from `offset` on.
    pub fn captures_at<'a, 'b>(&'a self, text: &'b str, offset: usize) -> (r: Captures<'a, 'b>)
        ensures
            r.spans() == self@.spans,
            r.subject() == text.spec_bytes(),
            r.offset() == offset,
    {
        Captures { m: self, text, offset }
    }

    /// Captures of the last match, made on the part of `bytes` from `offset` on.
    pub fn byte_captures_at<'a, 'b>(&'a self, bytes: &'b [u8], offset: usize) -> (r: ByteCaptures<'a, 'b>)
        ensures
            r.spans() == self@.spans,
            r.subject() == bytes@,
            r.offset() == offset,
    {
        ByteCaptures { m: self, bytes, offset }
    }
}

/// The captures of a handle's last match, as slices of the text matched.
pub struct Captures<'a, 'b> {
    m: &'a LuaPattern,
    text: &'b str,
    offset: usize,
}

impl<'a, 'b> Captures<'a, 'b> {
    pub closed spec fn spans(&self) -> Seq<Range<usize>> {
        self.m@.spans
    }

    pub closed spec fn subject(&self) -> Seq<u8> {
        self.text.spec_bytes()
    }

    /// Where in the subject the matched part starts.
    pub closed spec fn offset(&self) -> usize {
        self.offset
    }

    /// Capture `i` as text (0 is the whole match).
    pub fn get(&self, i: usize) -> (r: &'b str)
        requires
            i < self.spans().len(),
        ensures
            r.spec_bytes() == text_piece(self.subject(), shift(self.spans()[i as int], self.offset())),
    {
        str_slice(self.text, shift_span(self.m.capture(i), self.offset))
    }

    /// How many spans the match holds, the whole match included.
    pub fn num_matches(&self) -> (r: usize)
        ensures
            r == self.spans().len(),
    {
        self.m.spans.len()
    }
}

/// Walks over the captures of a match, the whole match first.
pub struct CaptureIter<'a, 'b> {
    cc: Captures<'a, 'b>,
    idx: usize,
    top: usize,
}

impl<'a, 'b> Captures<'a, 'b> {
    /// Walks over the captures, the whole match first.
    pub fn into_iter(self) -> (r: CaptureIter<'a, 'b>)
        ensures
            r.spans() == self.spans(),
            r.subject() == self.subject(),
            r.offset() == self.offset(),
            r.index() == 0,
            r.wf(),
    {
        let top = self.num_matches();
        CaptureIter { cc: self, idx: 0, top }
    }
}

impl<'a, 'b> CaptureIter<'a, 'b> {
    pub closed spec fn spans(&self) -> Seq<Range<usize>> {
        self.cc.spans()
    }

    pub closed spec fn subject(&self) -> Seq<u8> {
        self.cc.subject()
    }

    pub closed spec fn offset(&self) -> usize {
        self.cc.offset()
    }

    /// How many captures have been handed out.
    pub closed spec fn index(&self) -> int {
        self.idx as int
    }

    pub closed spec fn wf(&self) -> bool {
        self.top == self.cc.spans().len() && self.idx <= self.top
    }

    /// The next capture as text, if any is left.
    pub fn next(&mut self) -> (r: Option<&'b str>)
        requires
            old(self).wf(),
        ensures
            final(self).wf(),
            final(self).spans() == old(self).spans(),
            final(self).subject() == old(self).subject(),
            final(self).offset() == old(self).offset(),
            old(self).index() < old(self).spans().len() ==> (r matches Some(t) && t.spec_bytes()
                == text_piece(
                old(self).subject(),
                shift(old(self).spans()[old(self).index()], old(self).offset()),
            ) && final(self).index() == old(self).index() + 1),
            old(self).index() >= old(self).spans().len() ==> r is None && final(self).index()
                == old(self).index(),
    {
        if self.idx < self.top {
            let res = self.cc.get(self.idx);
            self.idx = self.idx + 1;
            Some(res)
        } else {
            None
        }
    }
}

/// The captures of a handle's last match, as slices of the bytes matched.
pub struct ByteCaptures<'a, 'b> {
    m: &'a LuaPattern,
    bytes: &'b [u8],
    offset: usize,
}

impl<'a, 'b> ByteCaptures<'a, 'b> {
    pub closed spec fn spans(&self) -> Seq<Range<usize>> {
        self.m@.spans
    }

    pub closed spec fn subject(&self) -> Seq<u8> {
        self.bytes@
    }

    /// Where in the subject the matched part starts.
    pub closed spec fn offset(&self) -> usize {
        self.offset
    }

    /// Capture `i` as bytes (0 is the whole match).
    pub fn get(&self, i: usize) -> (r: &'b [u8])
        requires
            i < self.spans().len(),
        ensures
            r@ == span_bytes(self.subject(), shift(self.spans()[i as int], self.offset())),
    {
        byte_slice(self.bytes, shift_span(self.m.capture(i), self.offset))
    }

    /// How many spans the match holds, the whole match included.
    pub fn num_matches(&self) -> (r: usize)
        ensures
            r == self.spans().len(),
    {
        self.m.spans.len()
    }
}

} // verus!
