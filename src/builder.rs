//! Building byte patterns from raw fragments, escaped literals and hex.
use vstd::prelude::*;
use vstd::string::StringSliceAdditionalSpecFns;
use vstd::utf8::{
    decode_utf8, decode_utf8_encode_utf8, encode_utf8, is_leading_byte_width_1,
    partial_valid_utf8, partial_valid_utf8_extend_ascii_block, valid_utf8,
};
use crate::classes::{byte_at, is_xdigit, PERCENT};
use crate::engine::{do_match, first_item, match_spans, search_from, Cap, Outcome, Search};
use crate::pattern::span_bytes;
use crate::validate::{check_from, check_pattern, is_quantifier};
use crate::global::text_from_bytes;

verus! {

/// The bytes that have a meaning of their own in a pattern.
pub open spec fn is_magic(c: u8) -> bool {
    c == 94 || c == 36 || c == 40 || c == 41 || c == 37 || c == 46 || c == 91 || c == 93 || c == 42
        || c == 43 || c == 45 || c == 63
}

pub fn magic(c: u8) -> (r: bool)
    ensures
        r == is_magic(c),
{
    c == 94 || c == 36 || c == 40 || c == 41 || c == 37 || c == 46 || c == 91 || c == 93 || c == 42
        || c == 43 || c == 45 || c == 63
}

/// One byte as a pattern item that matches just that byte.
pub open spec fn escape_byte(c: u8) -> Seq<u8> {
    if is_magic(c) {
        seq![PERCENT, c]
    } else {
        seq![c]
    }
}

/// A pattern that matches exactly the bytes `b`.
pub open spec fn escape(b: Seq<u8>) -> Seq<u8>
    decreases b.len(),
{
    if b.len() == 0 {
        Seq::empty()
    } else {
        escape(b.drop_last()) + escape_byte(b.last())
    }
}

/// The value of a hexadecimal digit.
pub open spec fn hex_value(c: u8) -> int {
    if 48 <= c <= 57 {
        c - 48
    } else if 97 <= c <= 102 {
        c - 87
    } else {
        c - 55
    }
}

/// The bytes read from every pair of adjacent hex digits in `t`, taken from
/// the left; bytes that do not start such a pair are skipped.
pub open spec fn hex_decode(t: Seq<u8>) -> Seq<u8>
    decreases t.len(),
{
    if t.len() == 0 {
        Seq::empty()
    } else if t.len() >= 2 && is_xdigit(t[0]) && is_xdigit(t[1]) {
        seq![(hex_value(t[0]) * 16 + hex_value(t[1])) as u8] + hex_decode(t.subrange(2, t.len() as int))
    } else {
        hex_decode(t.drop_first())
    }
}

/// The upper-case hex digit for `d < 16`.
pub open spec fn hex_digit(d: int) -> u8 {
    if d < 10 {
        (48 + d) as u8
    } else {
        (55 + d) as u8
    }
}

/// Two upper-case hex digits for each byte.
pub open spec fn hex_encode(b: Seq<u8>) -> Seq<u8>
    decreases b.len(),
{
    if b.len() == 0 {
        Seq::empty()
    } else {
        seq![hex_digit(b[0] as int / 16), hex_digit(b[0] as int % 16)] + hex_encode(b.drop_first())
    }
}

/// How many bytes the white-space character encoded at `i` takes, or 0
/// where none starts there. White space is what Unicode calls so: ASCII
/// tab, line feed, vertical tab, form feed, carriage return and space, and
/// U+0085, U+00A0, U+1680, U+2000 to U+200A, U+2028, U+2029, U+202F,
/// U+205F and U+3000 in UTF-8.
pub open spec fn blank_width(t: Seq<u8>, i: int) -> int {
    let c = byte_at(t, i);
    let c1 = byte_at(t, i + 1);
    let c2 = byte_at(t, i + 2);
    if c == 32 || (9 <= c <= 13) {
        1
    } else if c == 0xC2 && (c1 == 0x85 || c1 == 0xA0) {
        2
    } else if c == 0xE1 && c1 == 0x9A && c2 == 0x80 {
        3
    } else if c == 0xE2 && c1 == 0x80 && ((0x80 <= c2 <= 0x8A) || c2 == 0xA8 || c2 == 0xA9 || c2
        == 0xAF) {
        3
    } else if c == 0xE2 && c1 == 0x81 && c2 == 0x9F {
        3
    } else if c == 0xE3 && c1 == 0x80 && c2 == 0x80 {
        3
    } else {
        0
    }
}

pub fn blank_width_at(t: &[u8], i: usize) -> (r: usize)
    requires
        i < t@.len(),
    ensures
        r == blank_width(t@, i as int),
        i + r <= t@.len(),
{
    let n = t.len();
    let c = t[i];
    let c1: u8 = if i + 1 < n {
        t[i + 1]
    } else {
        0
    };
    let c2: u8 = if n - i > 2 {
        t[i + 2]
    } else {
        0
    };
    if c == 32 || (9 <= c && c <= 13) {
        1
    } else if c == 0xC2 && (c1 == 0x85 || c1 == 0xA0) {
        2
    } else if c == 0xE1 && c1 == 0x9A && c2 == 0x80 {
        3
    } else if c == 0xE2 && c1 == 0x80 && ((0x80 <= c2 && c2 <= 0x8A) || c2 == 0xA8 || c2 == 0xA9
        || c2 == 0xAF) {
        3
    } else if c == 0xE2 && c1 == 0x81 && c2 == 0x9F {
        3
    } else if c == 0xE3 && c1 == 0x80 && c2 == 0x80 {
        3
    } else {
        0
    }
}

/// The first word of each line of `t` from `i` on, run together; `state`
/// says whether the current line's first word is still to come (0), being
/// read (1) or done (2).
pub open spec fn first_words(t: Seq<u8>, i: int, state: int) -> Seq<u8>
    decreases t.len() - i,
{
    if i < 0 || i >= t.len() {
        Seq::empty()
    } else if t[i] == 10 {
        first_words(t, i + 1, 0)
    } else if blank_width(t, i) > 0 {
        first_words(t, i + blank_width(t, i), if state == 0 { 0 } else { 2 })
    } else if state == 2 {
        first_words(t, i + 1, 2)
    } else {
        seq![t[i]] + first_words(t, i + 1, 1)
    }
}

/// Builds a byte pattern piece by piece.
pub struct LuaPatternBuilder {
    bytes: Vec<u8>,
}

impl View for LuaPatternBuilder {
    type V = Seq<u8>;

    closed spec fn view(&self) -> Seq<u8> {
        self.bytes@
    }
}

impl LuaPatternBuilder {
    /// An empty builder.
    pub fn new() -> (r: LuaPatternBuilder)
        ensures
            r@ == Seq::<u8>::empty(),
    {
        LuaPatternBuilder { bytes: Vec::new() }
    }

    /// Appends the bytes of `s` as they are.
    pub fn text(&mut self, s: &str) -> (r: &mut Self)
        ensures
            r@ == old(self)@ + s.spec_bytes(),
            *final(self) == *final(r),
    {
        self.bytes.extend_from_slice(s.as_bytes());
        self
    }

    /// Appends the first word of each line of `lines`, so that a pattern can
    /// be spread over lines and commented.
    pub fn text_lines(&mut self, lines: &str) -> (r: &mut Self)
        ensures
            r@ == old(self)@ + first_words(lines.spec_bytes(), 0, 0),
            *final(self) == *final(r),
    {
        let t = lines.as_bytes();
        let mut i: usize = 0;
        let mut state: u8 = 0;
        let ghost start = self.bytes@;
        assert(self.bytes@ + first_words(t@, 0, 0) =~= start + first_words(t@, 0, 0));
        while i < t.len()
            invariant
                i <= t@.len(),
                state <= 2,
                self.bytes@ + first_words(t@, i as int, state as int) == start + first_words(
                    t@,
                    0,
                    0,
                ),
            decreases t@.len() - i,
        {
            let c = t[i];
            let w = blank_width_at(t, i);
            if c == 10 {
                state = 0;
            } else if w > 0 {
                if state != 0 {
                    state = 2;
                }
                i = i + w;
                continue;
            } else if state != 2 {
                let ghost before = self.bytes@;
                self.bytes.push(c);
                assert(self.bytes@ + first_words(t@, i + 1, 1) =~= before + first_words(
                    t@,
                    i as int,
                    state as int,
                ));
                state = 1;
            }
            i = i + 1;
        }
        self
    }

    /// Appends `b` escaped, as a pattern that matches exactly these bytes.
    pub fn bytes(&mut self, b: &[u8]) -> (r: &mut Self)
        ensures
            r@ == old(self)@ + escape(b@),
            *final(self) == *final(r),
    {
        let ghost start = self.bytes@;
        let mut i: usize = 0;
        while i < b.len()
            invariant
                i <= b@.len(),
                self.bytes@ == start + escape(b@.subrange(0, i as int)),
            decreases b@.len() - i,
        {
            let c = b[i];
            if magic(c) {
                self.bytes.push(PERCENT);
            }
            self.bytes.push(c);
            assert(b@.subrange(0, i + 1).drop_last() =~= b@.subrange(0, i as int));
            assert(self.bytes@ =~= start + escape(b@.subrange(0, i + 1)));
            i = i + 1;
        }
        assert(b@.subrange(0, i as int) =~= b@);
        self
    }

    /// Appends, escaped, the bytes written in hex in `bs`.
    pub fn bytes_as_hex(&mut self, bs: &str) -> (r: &mut Self)
        ensures
            r@ == old(self)@ + escape(hex_decode(bs.spec_bytes())),
            *final(self) == *final(r),
    {
        let bb = LuaPatternBuilder::hex_to_bytes(bs);
        self.bytes(bb.as_slice())
    }

    /// The pattern built so far; the builder is left empty.
    pub fn build(&mut self) -> (r: Vec<u8>)
        ensures
            r@ == old(self)@,
            final(self)@ == Seq::<u8>::empty(),
    {
        let mut v = Vec::new();
        core::mem::swap(&mut self.bytes, &mut v);
        v
    }

    /// The bytes written as pairs of hex digits in `s`.
    pub fn hex_to_bytes(s: &str) -> (r: Vec<u8>)
        ensures
            r@ == hex_decode(s.spec_bytes()),
    {
        let t = s.as_bytes();
        let n = t.len();
        let mut out: Vec<u8> = Vec::new();
        let mut i: usize = 0;
        assert(t@.subrange(0, n as int) =~= t@);
        while i < n
            invariant
                n == t@.len(),
                i <= n,
                out@ + hex_decode(t@.subrange(i as int, n as int)) == hex_decode(t@),
            decreases n - i,
        {
            let ghost rest = t@.subrange(i as int, n as int);
            let ghost before = out@;
            if i + 1 < n && hex_digit_value(t[i]).is_some() && hex_digit_value(t[i + 1]).is_some() {
                let hi = hex_digit_value(t[i]).unwrap();
                let lo = hex_digit_value(t[i + 1]).unwrap();
                out.push(hi * 16 + lo);
                assert(rest.subrange(2, rest.len() as int) =~= t@.subrange(i + 2, n as int));
                assert(out@ + hex_decode(t@.subrange(i + 2, n as int)) =~= before + hex_decode(rest));
                i = i + 2;
            } else {
                assert(rest.drop_first() =~= t@.subrange(i + 1, n as int));
                i = i + 1;
            }
        }
        assert(out@ + hex_decode(t@.subrange(n as int, n as int)) =~= out@);
        out
    }

    /// Two upper-case hex digits for each byte of `s`.
    pub fn bytes_to_hex(s: &[u8]) -> (r: String)
        ensures
            encode_utf8(r@) == hex_encode(s@),
    {
        let n = s.len();
        let mut out: Vec<u8> = Vec::new();
        let mut i: usize = n;
        assert(hex_encode(s@.subrange(n as int, n as int)) =~= Seq::<u8>::empty());
        while i > 0
            invariant
                n == s@.len(),
                i <= n,
                out@ == hex_encode(s@.subrange(i as int, n as int)).reverse(),
            decreases i,
        {
            i = i - 1;
            let c = s[i];
            let ghost before = out@;
            out.push(hex_char(c % 16));
            out.push(hex_char(c / 16));
            assert(s@.subrange(i as int, n as int).drop_first() =~= s@.subrange(i + 1, n as int));
            assert(out@ =~= hex_encode(s@.subrange(i as int, n as int)).reverse());
        }
        assert(s@.subrange(0, n as int) =~= s@);
        let mut fwd: Vec<u8> = Vec::new();
        let mut j: usize = out.len();
        while j > 0
            invariant
                j <= out@.len(),
                fwd@ == out@.subrange(j as int, out@.len() as int).reverse(),
            decreases j,
        {
            j = j - 1;
            fwd.push(out[j]);
            assert(fwd@ =~= out@.subrange(j as int, out@.len() as int).reverse());
        }
        assert(fwd@ =~= hex_encode(s@));
        proof {
            lemma_hex_ascii(s@);
            partial_valid_utf8_extend_ascii_block(fwd@, 0, fwd@.len() as int);
            assert(fwd@.subrange(0, fwd@.len() as int) =~= fwd@);
            decode_utf8_encode_utf8(fwd@);
        }
        text_from_bytes(fwd.as_slice())
    }
}

proof fn lemma_hex_ascii(b: Seq<u8>)
    ensures
        forall|i: int| 0 <= i < hex_encode(b).len() ==> #[trigger] is_leading_byte_width_1(hex_encode(b)[i]),
        partial_valid_utf8(hex_encode(b), 0),
    decreases b.len(),
{
    assert(hex_encode(b).subrange(0, 0) =~= Seq::<u8>::empty());
    assert(valid_utf8(Seq::<u8>::empty()));
    if b.len() > 0 {
        lemma_hex_ascii(b.drop_first());
    }
}

/// The value of the hex digit `c`, if it is one.
pub fn hex_digit_value(c: u8) -> (r: Option<u8>)
    ensures
        r is Some <==> is_xdigit(c),
        r matches Some(v) ==> v == hex_value(c) && v < 16,
{
    if 48 <= c && c <= 57 {
        Some(c - 48)
    } else if 97 <= c && c <= 102 {
        Some(c - 87)
    } else if 65 <= c && c <= 70 {
        Some(c - 55)
    } else {
        None
    }
}

/// The upper-case hex digit for `d`.
pub fn hex_char(d: u8) -> (r: u8)
    requires
        d < 16,
    ensures
        r == hex_digit(d as int),
{
    if d < 10 {
        48 + d
    } else {
        55 + d
    }
}

/// Reading back the hex written for a byte sequence gives the sequence.
pub proof fn hex_round_trip(b: Seq<u8>)
    ensures
        hex_decode(hex_encode(b)) == b,
    decreases b.len(),
{
    if b.len() > 0 {
        let x = b[0];
        let h = hex_encode(b);
        hex_round_trip(b.drop_first());
        let hi = x as int / 16;
        let lo = x as int % 16;
        assert(0 <= hi < 16 && 0 <= lo < 16);
        assert(is_xdigit(hex_digit(hi)) && hex_value(hex_digit(hi)) == hi);
        assert(is_xdigit(hex_digit(lo)) && hex_value(hex_digit(lo)) == lo);
        assert(hi * 16 + lo == x as int);
        assert(h.subrange(2, h.len() as int) =~= hex_encode(b.drop_first()));
        assert(hex_decode(h) =~= b);
    }
}

proof fn lemma_escape_concat(a: Seq<u8>, b: Seq<u8>)
    ensures
        escape(a + b) == escape(a) + escape(b),
    decreases b.len(),
{
    if b.len() == 0 {
        assert(a + b =~= a);
        assert(escape(a) + escape(b) =~= escape(a));
    } else {
        assert((a + b).drop_last() =~= a + b.drop_last());
        lemma_escape_concat(a, b.drop_last());
        assert(escape(a + b) =~= escape(a) + escape(b));
    }
}

/// How an escaped sequence begins: its first byte's item, then the rest.
proof fn lemma_escape_front(r: Seq<u8>)
    requires
        r.len() > 0,
    ensures
        escape(r) == escape_byte(r[0]) + escape(r.drop_first()),
        escape(r)[0] == PERCENT || !is_magic(escape(r)[0]),
{
    lemma_escape_concat(seq![r[0]], r.drop_first());
    assert(seq![r[0]] + r.drop_first() =~= r);
    assert(seq![r[0]].drop_last() =~= Seq::<u8>::empty());
    assert(escape(Seq::<u8>::empty()) =~= Seq::<u8>::empty());
    assert(escape(seq![r[0]]) =~= escape_byte(r[0]));
    assert(escape(r)[0] == escape_byte(r[0])[0]);
}

/// Where the pattern from `p` on is `escape(r)` with `r` not empty, the
/// item at `p` is the one for `r[0]`, no repetition suffix follows it, and
/// `escape(r.drop_first())` follows it.
proof fn lemma_escape_item(pat: Seq<u8>, p: int, r: Seq<u8>)
    requires
        0 <= p <= pat.len(),
        pat.subrange(p, pat.len() as int) == escape(r),
        r.len() > 0,
    ensures
        p + escape_byte(r[0]).len() <= pat.len(),
        pat.subrange(p + escape_byte(r[0]).len(), pat.len() as int) == escape(r.drop_first()),
        pat[p] == escape_byte(r[0])[0],
        is_magic(r[0]) ==> pat[p] == PERCENT && pat[p + 1] == r[0],
        !is_magic(r[0]) ==> pat[p] == r[0],
        !is_quantifier(byte_at(pat, p + escape_byte(r[0]).len())),
{
    lemma_escape_front(r);
    let w = escape_byte(r[0]).len() as int;
    let np = p + w;
    assert(1 <= w <= 2);
    assert(escape(r).len() == w + escape(r.drop_first()).len());
    assert(pat.len() - p == escape(r).len());
    assert(pat[p] == pat.subrange(p, pat.len() as int)[0]);
    assert forall|j: int| 0 <= j < pat.len() - np implies #[trigger] pat.subrange(np, pat.len() as int)[j] == escape(r.drop_first())[j] by {
        assert(pat.subrange(np, pat.len() as int)[j] == pat[np + j]);
        assert(pat[np + j] == pat.subrange(p, pat.len() as int)[w + j]);
        assert(escape(r)[w + j] == escape(r.drop_first())[j]);
    }
    assert(pat.subrange(np, pat.len() as int) =~= escape(r.drop_first()));
    assert(pat[p] == escape_byte(r[0])[0]);
    if is_magic(r[0]) {
        assert(pat[p + 1] == pat.subrange(p, pat.len() as int)[1]);
    }
    if np < pat.len() {
        lemma_escape_front(r.drop_first());
        assert(pat[np] == pat.subrange(np, pat.len() as int)[0]);
        assert(pat[np] == escape(r.drop_first())[0]);
    }
    assert(!is_quantifier(byte_at(pat, np)));
    if is_magic(r[0]) {
        assert(pat[p + 1] == r[0]);
    }
}

/// Where the pattern from `p` on is `escape(r)`, checking from `p` finds nothing wrong.
proof fn lemma_escape_checks(pat: Seq<u8>, p: int, r: Seq<u8>)
    requires
        0 <= p <= pat.len(),
        pat.subrange(p, pat.len() as int) == escape(r),
    ensures
        check_from(pat, p, Seq::empty()) is Ok,
    decreases r.len(),
{
    if r.len() == 0 {
        assert(pat.subrange(p, pat.len() as int).len() == 0);
    } else {
        let np = p + escape_byte(r[0]).len();
        lemma_escape_item(pat, p, r);
        lemma_escape_checks(pat, np, r.drop_first());
    }
}

/// Where the pattern from `p` on is `escape(r)`, matching from `s` succeeds,
/// ending `r.len()` further on, exactly when the subject holds `r` there.
proof fn lemma_escape_matches(src: Seq<u8>, pat: Seq<u8>, s: int, p: int, r: Seq<u8>)
    requires
        0 <= p <= pat.len(),
        0 <= s <= src.len(),
        pat.subrange(p, pat.len() as int) == escape(r),
    ensures
        do_match(src, pat, s, p, Seq::empty()) == if s + r.len() <= src.len() && src.subrange(
            s,
            s + r.len(),
        ) == r {
            Outcome::Found(s + r.len(), Seq::<Cap>::empty())
        } else {
            Outcome::Fail
        },
    decreases r.len(),
{
    if r.len() == 0 {
        assert(pat.subrange(p, pat.len() as int).len() == 0);
        assert(src.subrange(s, s) =~= r);
    } else {
        let np = p + escape_byte(r[0]).len();
        lemma_escape_item(pat, p, r);
        if s < src.len() && src[s] == r[0] {
            lemma_escape_matches(src, pat, s + 1, np, r.drop_first());
            if s + r.len() <= src.len() {
                let whole = src.subrange(s, s + r.len());
                let rest = src.subrange(s + 1, s + r.len());
                assert(whole =~= seq![src[s]] + rest);
                assert(whole.drop_first() =~= rest);
                assert(r =~= seq![r[0]] + r.drop_first());
                if rest == r.drop_first() {
                    assert(whole =~= r);
                }
                if whole == r {
                    assert(rest =~= r.drop_first());
                }
            }
        } else if s + r.len() <= src.len() {
            assert(src.subrange(s, s + r.len())[0] == src[s]);
        }
    }
}

proof fn lemma_escape_search(src: Seq<u8>, b: Seq<u8>, s1: int, i: int)
    requires
        0 <= s1 <= i,
        i + b.len() <= src.len(),
        src.subrange(i, i + b.len()) == b,
        first_item(escape(b)) == 0,
    ensures
        search_from(src, escape(b), s1) matches Search::Matched(st, e, caps) && s1 <= st <= i && e
            == st + b.len() && caps.len() == 0 && src.subrange(st, e) == b,
    decreases i - s1,
{
    let pat = escape(b);
    assert(pat.subrange(0, pat.len() as int) =~= pat);
    lemma_escape_matches(src, pat, s1, 0, b);
    if !(s1 + b.len() <= src.len() && src.subrange(s1, s1 + b.len()) == b) {
        lemma_escape_search(src, b, s1 + 1, i);
    }
}

/// A pattern built by escaping the bytes `b` matches, in any subject that
/// holds `b`, exactly an occurrence of `b`, no later than the first one known.
pub proof fn escaped_bytes_match_themselves(b: Seq<u8>, src: Seq<u8>, i: int)
    requires
        src.len() <= usize::MAX,
        0 <= i,
        i + b.len() <= src.len(),
        src.subrange(i, i + b.len()) == b,
    ensures
        match_spans(escape(b), src) matches Ok(v) && v.len() == 1 && v[0].start <= i
            && span_bytes(src, v[0]) == b,
{
    let pat = escape(b);
    assert(pat.subrange(0, pat.len() as int) =~= pat);
    lemma_escape_checks(pat, 0, b);
    if b.len() > 0 {
        lemma_escape_front(b);
    }
    assert(first_item(pat) == 0);
    assert(check_pattern(pat) is Ok);
    lemma_escape_search(src, b, 0, i);
}

} // verus!
