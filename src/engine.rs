//! The backtracking matcher: a recursive model of what a pattern does on a
//! subject, and the executable interpreter proved to follow it.
use vstd::prelude::*;
use core::ops::Range;
use crate::classes::{
    byte_at, class_end, class_end_exec, is_digit, lemma_class_end, match_set, set_matches,
    single_match, single_matches, CARET, DASH, LBRACKET, PERCENT,
};
use crate::error::PatternError;
use crate::validate::{check_pattern, check_pattern_exec};

verus! {

/// Spans in a match, the whole match included.
pub const MAX_CAPTURES: usize = 32;

/// User captures that a pattern may open.
pub const MAX_LEVEL: usize = 31;

/// The `end` of a span that records a position rather than a substring.
pub const POSITION_MARKER: usize = usize::MAX;

pub const LPAREN: u8 = 40;

pub const RPAREN: u8 = 41;

pub const DOLLAR: u8 = 36;

/// The length state of a capture while matching.
#[derive(Debug, Clone, Copy, PartialEq, Eq, Structural)]
pub enum CapLen {
    /// Opened by `(`, not yet closed.
    Unfinished,
    /// A `()` position capture.
    Position,
    /// Closed, holding this many bytes.
    Closed(usize),
}

/// A capture while matching: where it starts and its length state.
#[derive(Debug, Clone, Copy, PartialEq, Eq, Structural)]
pub struct Cap {
    pub init: usize,
    pub len: CapLen,
}

/// What matching the pattern from one point yields.
pub enum Outcome {
    Fail,
    /// The end of the match and the captures at that point.
    Found(int, Seq<Cap>),
    Error(PatternError),
}

/// The index of the innermost open capture at or below `l`, or -1.
pub open spec fn open_capture(caps: Seq<Cap>, l: int) -> int
    decreases l + 1,
{
    if l < 0 || l >= caps.len() {
        -1
    } else if caps[l].len is Unfinished {
        l
    } else {
        open_capture(caps, l - 1)
    }
}

/// Scans for the `y` that balances an `x` already seen, at nesting `depth`.
pub open spec fn balance_scan(src: Seq<u8>, i: int, x: u8, y: u8, depth: int) -> Option<int>
    decreases src.len() - i,
{
    if i >= src.len() || i < 0 {
        None
    } else if src[i] == y {
        if depth == 1 {
            Some(i + 1)
        } else {
            balance_scan(src, i + 1, x, y, depth - 1)
        }
    } else if src[i] == x {
        balance_scan(src, i + 1, x, y, depth + 1)
    } else {
        balance_scan(src, i + 1, x, y, depth)
    }
}

/// Where a `%bxy` item that starts at `s` ends.
pub open spec fn balance_end(src: Seq<u8>, s: int, x: u8, y: u8) -> Option<int> {
    if 0 <= s < src.len() && src[s] == x {
        balance_scan(src, s + 1, x, y, 1)
    } else {
        None
    }
}

/// The end of the longest run from `s` of bytes that the item `p .. ep` matches.
pub open spec fn run_end(src: Seq<u8>, pat: Seq<u8>, p: int, ep: int, s: int) -> int
    decreases src.len() - s,
{
    if 0 <= s < src.len() && single_matches(src[s], pat, p, ep) {
        run_end(src, pat, p, ep, s + 1)
    } else {
        s
    }
}

/// Greedy repetition: tries the rest of the pattern after `j`, `j - 1`, ... down to `s0`.
pub open spec fn max_try(
    src: Seq<u8>,
    pat: Seq<u8>,
    s0: int,
    p: int,
    ep: int,
    caps: Seq<Cap>,
    j: int,
) -> Outcome
    decreases pat.len() - p, 0int, j - s0,
{
    if !(p < ep < pat.len()) {
        Outcome::Fail
    } else {
        match do_match(src, pat, j, ep + 1, caps) {
            Outcome::Fail => if j > s0 {
                max_try(src, pat, s0, p, ep, caps, j - 1)
            } else {
                Outcome::Fail
            },
            r => r,
        }
    }
}

/// Lazy repetition: tries the rest of the pattern at `s`, then one byte further, ...
pub open spec fn min_try(src: Seq<u8>, pat: Seq<u8>, s: int, p: int, ep: int, caps: Seq<Cap>) -> Outcome
    decreases pat.len() - p, 0int, src.len() - s,
{
    if !(p < ep < pat.len()) {
        Outcome::Fail
    } else {
        match do_match(src, pat, s, ep + 1, caps) {
            Outcome::Fail => if 0 <= s < src.len() && single_matches(src[s], pat, p, ep) {
                min_try(src, pat, s + 1, p, ep, caps)
            } else {
                Outcome::Fail
            },
            r => r,
        }
    }
}

/// Matching the pattern from `p` on against the subject from `s` on, with
/// the captures `caps` so far.
pub open spec fn do_match(src: Seq<u8>, pat: Seq<u8>, s: int, p: int, caps: Seq<Cap>) -> Outcome
    decreases pat.len() - p, 1int, 0int,
{
    if p >= pat.len() || p < 0 {
        Outcome::Found(s, caps)
    } else if pat[p] == LPAREN {
        if caps.len() >= MAX_LEVEL {
            Outcome::Error(PatternError::TooManyCaptures)
        } else if byte_at(pat, p + 1) == RPAREN {
            do_match(src, pat, s, p + 2, caps.push(Cap { init: s as usize, len: CapLen::Position }))
        } else {
            do_match(src, pat, s, p + 1, caps.push(Cap { init: s as usize, len: CapLen::Unfinished }))
        }
    } else if pat[p] == RPAREN {
        let l = open_capture(caps, caps.len() - 1);
        if l < 0 {
            Outcome::Error(PatternError::InvalidPatternCapture)
        } else {
            let closed = Cap { init: caps[l].init, len: CapLen::Closed((s - caps[l].init) as usize) };
            do_match(src, pat, s, p + 1, caps.update(l, closed))
        }
    } else if pat[p] == DOLLAR && p + 1 == pat.len() {
        if s == src.len() {
            Outcome::Found(s, caps)
        } else {
            Outcome::Fail
        }
    } else if pat[p] == PERCENT && byte_at(pat, p + 1) == 98 {
        if p + 3 >= pat.len() {
            Outcome::Error(PatternError::MissingBalanceArguments)
        } else {
            match balance_end(src, s, pat[p + 2], pat[p + 3]) {
                Some(e) => do_match(src, pat, e, p + 4, caps),
                None => Outcome::Fail,
            }
        }
    } else if pat[p] == PERCENT && byte_at(pat, p + 1) == 102 {
        if byte_at(pat, p + 2) != LBRACKET {
            Outcome::Error(PatternError::MissingFrontierBracket)
        } else {
            match class_end(pat, p + 2) {
                Err(e) => Outcome::Error(e),
                Ok(ep) => if ep <= p + 2 || ep > pat.len() {
                    Outcome::Fail
                } else if !set_matches(byte_at(src, s - 1), pat, p + 2, ep - 1) && set_matches(
                    byte_at(src, s),
                    pat,
                    p + 2,
                    ep - 1,
                ) {
                    do_match(src, pat, s, ep, caps)
                } else {
                    Outcome::Fail
                },
            }
        }
    } else if pat[p] == PERCENT && is_digit(byte_at(pat, p + 1)) {
        let l = byte_at(pat, p + 1) - 49;
        if l < 0 || l >= caps.len() || caps[l].len is Unfinished {
            Outcome::Error(PatternError::InvalidCaptureIndex((byte_at(pat, p + 1) - 48) as u8))
        } else {
            match caps[l].len {
                CapLen::Closed(n) => if s + n <= src.len() && src.subrange(s, s + n) == src.subrange(
                    caps[l].init as int,
                    caps[l].init + n,
                ) {
                    do_match(src, pat, s + n, p + 2, caps)
                } else {
                    Outcome::Fail
                },
                _ => Outcome::Fail,
            }
        }
    } else {
        match class_end(pat, p) {
            Err(e) => Outcome::Error(e),
            Ok(ep) => if ep <= p || ep > pat.len() {
                Outcome::Fail
            } else {
                let m = 0 <= s < src.len() && single_matches(src[s], pat, p, ep);
                let q = byte_at(pat, ep);
                if q == 63 {
                    if m {
                        match do_match(src, pat, s + 1, ep + 1, caps) {
                            Outcome::Fail => do_match(src, pat, s, ep + 1, caps),
                            r => r,
                        }
                    } else {
                        do_match(src, pat, s, ep + 1, caps)
                    }
                } else if q == 43 {
                    if m {
                        max_try(src, pat, s + 1, p, ep, caps, run_end(src, pat, p, ep, s + 1))
                    } else {
                        Outcome::Fail
                    }
                } else if q == 42 {
                    max_try(src, pat, s, p, ep, caps, run_end(src, pat, p, ep, s))
                } else if q == DASH {
                    min_try(src, pat, s, p, ep, caps)
                } else if m {
                    do_match(src, pat, s + 1, ep, caps)
                } else {
                    Outcome::Fail
                }
            },
        }
    }
}

/// Captures that are consistent with matching having reached `s`.
pub open spec fn caps_wf(caps: Seq<Cap>, s: int) -> bool {
    &&& caps.len() <= MAX_LEVEL
    &&& forall|i: int|
        0 <= i < caps.len() ==> {
            &&& #[trigger] caps[i].init <= s
            &&& (caps[i].len matches CapLen::Closed(k) ==> caps[i].init + k <= s)
        }
}

/// Captures consistent with reaching `s` stay so at any later point.
pub proof fn lemma_wf_mono(caps: Seq<Cap>, s: int, t: int)
    requires
        caps_wf(caps, s),
        s <= t,
    ensures
        caps_wf(caps, t),
{
    assert forall|i: int| 0 <= i < caps.len() implies #[trigger] caps[i].init <= t && (caps[i].len matches CapLen::Closed(k) ==> caps[i].init + k <= t) by {
        assert(caps[i].init <= s);
    }
}

/// `new` keeps the captures of `old` (closing open ones at most) and adds
/// captures that start at `s` or later.
pub open spec fn caps_extend(old: Seq<Cap>, new: Seq<Cap>, s: int) -> bool {
    &&& old.len() <= new.len()
    &&& forall|i: int| 0 <= i < old.len() ==> #[trigger] new[i].init == old[i].init
    &&& forall|i: int| 0 <= i < old.len() && !(old[i].len is Unfinished) ==> #[trigger] new[i] == old[i]
    &&& forall|i: int| old.len() <= i < new.len() ==> s <= #[trigger] new[i].init
}

/// The executable result agrees with the model, and a match found keeps the
/// captures consistent.
pub open spec fn agrees(
    o: Outcome,
    r: Result<Option<usize>, PatternError>,
    old_caps: Seq<Cap>,
    new_caps: Seq<Cap>,
    s: int,
    n: int,
) -> bool {
    match o {
        Outcome::Fail => r == Ok::<Option<usize>, PatternError>(None) && new_caps == old_caps,
        Outcome::Found(e, c) => {
            &&& r == Ok::<Option<usize>, PatternError>(Some(e as usize))
            &&& new_caps == c
            &&& s <= e <= n
            &&& caps_wf(c, e)
            &&& caps_extend(old_caps, c, s)
        },
        Outcome::Error(err) => r == Err::<Option<usize>, PatternError>(err),
    }
}

#[verifier::loop_isolation(false)]
fn match_here(src: &[u8], pat: &[u8], s: usize, p: usize, caps: &mut Vec<Cap>) -> (r: Result<
    Option<usize>,
    PatternError,
>)
    requires
        s <= src@.len(),
        p <= pat@.len(),
        caps_wf(old(caps)@, s as int),
    ensures
        agrees(
            do_match(src@, pat@, s as int, p as int, old(caps)@),
            r,
            old(caps)@,
            final(caps)@,
            s as int,
            src@.len() as int,
        ),
    decreases pat@.len() - p, 1int, 0int,
{
    let plen = pat.len();
    let slen = src.len();
    if p >= plen {
        return Ok(Some(s));
    }
    let c = pat[p];
    if c == LPAREN {
        if caps.len() >= MAX_LEVEL {
            return Err(PatternError::TooManyCaptures);
        }
        let ghost old_caps = caps@;
        let (np, what) = if p + 1 < plen && pat[p + 1] == RPAREN {
            (p + 2, CapLen::Position)
        } else {
            (p + 1, CapLen::Unfinished)
        };
        caps.push(Cap { init: s, len: what });
        let r = match_here(src, pat, s, np, caps);
        if let Ok(None) = r {
            caps.pop();
            assert(caps@ =~= old_caps);
        }
        return r;
    }
    if c == RPAREN {
        let mut l: usize = caps.len();
        while l > 0 && !(caps[l - 1].len == CapLen::Unfinished)
            invariant
                l <= caps@.len(),
                open_capture(caps@, caps@.len() - 1) == open_capture(caps@, l - 1),
            decreases l,
        {
            l = l - 1;
        }
        if l == 0 {
            return Err(PatternError::InvalidPatternCapture);
        }
        let l = l - 1;
        let ghost old_caps = caps@;
        let saved = caps[l];
        caps.set(l, Cap { init: saved.init, len: CapLen::Closed(s - saved.init) });
        let r = match_here(src, pat, s, p + 1, caps);
        if let Ok(None) = r {
            caps.set(l, saved);
            assert(caps@ =~= old_caps);
        }
        return r;
    }
    if c == DOLLAR && p + 1 == plen {
        if s == slen {
            return Ok(Some(s));
        } else {
            return Ok(None);
        }
    }
    if c == PERCENT && p + 1 < plen && pat[p + 1] == 98 {
        if plen - p <= 3 {
            return Err(PatternError::MissingBalanceArguments);
        }
        let x = pat[p + 2];
        let y = pat[p + 3];
        if s >= slen || src[s] != x {
            return Ok(None);
        }
        let mut i: usize = s + 1;
        let mut depth: usize = 1;
        loop
            invariant
                s < i <= slen,
                slen == src@.len(),
                1 <= depth <= i - s,
                caps@ == old(caps)@,
                balance_end(src@, s as int, x, y) == balance_scan(src@, i as int, x, y, depth as int),
            decreases slen - i,
        {
            if i >= slen {
                return Ok(None);
            }
            if src[i] == y {
                if depth == 1 {
                    proof {
                        lemma_wf_mono(caps@, s as int, i + 1);
                    }
                    return match_here(src, pat, i + 1, p + 4, caps);
                }
                depth = depth - 1;
            } else if src[i] == x {
                depth = depth + 1;
            }
            i = i + 1;
        }
    }
    if c == PERCENT && p + 1 < plen && pat[p + 1] == 102 {
        if p + 2 >= plen || pat[p + 2] != LBRACKET {
            return Err(PatternError::MissingFrontierBracket);
        }
        proof {
            lemma_class_end(pat@, p + 2);
        }
        let ep = match class_end_exec(pat, p + 2) {
            Err(e) => return Err(e),
            Ok(ep) => ep,
        };
        let prev: u8 = if s == 0 {
            0
        } else {
            src[s - 1]
        };
        let cur: u8 = if s < slen {
            src[s]
        } else {
            0
        };
        if !match_set(prev, pat, p + 2, ep - 1) && match_set(cur, pat, p + 2, ep - 1) {
            return match_here(src, pat, s, ep, caps);
        }
        return Ok(None);
    }
    if c == PERCENT && p + 1 < plen && 48 <= pat[p + 1] && pat[p + 1] <= 57 {
        let d = pat[p + 1];
        if d == 48 || (d - 49) as usize >= caps.len() || caps[(d - 49) as usize].len
            == CapLen::Unfinished {
            return Err(PatternError::InvalidCaptureIndex(d - 48));
        }
        let cap = caps[(d - 49) as usize];
        match cap.len {
            CapLen::Closed(n) => {
                assert(cap.init + n <= s);
                if n > slen - s {
                    return Ok(None);
                }
                let mut k: usize = 0;
                while k < n
                    invariant
                        k <= n,
                        s + n <= slen,
                        cap.init + n <= s,
                        slen == src@.len(),
                        forall|t: int| 0 <= t < k ==> #[trigger] src@[s + t] == src@[cap.init + t],
                    decreases n - k,
                {
                    if src[s + k] != src[cap.init + k] {
                        assert(src@.subrange(s as int, s + n)[k as int] != src@.subrange(
                            cap.init as int,
                            cap.init + n,
                        )[k as int]);
                        return Ok(None);
                    }
                    k = k + 1;
                }
                assert forall|t: int| 0 <= t < n implies #[trigger] src@.subrange(s as int, s + n)[t]
                    == src@.subrange(cap.init as int, cap.init + n)[t] by {
                    assert(src@[s + t] == src@[cap.init + t]);
                }
                assert(src@.subrange(s as int, s + n) =~= src@.subrange(
                    cap.init as int,
                    cap.init + n,
                ));
                return match_here(src, pat, s + n, p + 2, caps);
            },
            _ => {
                return Ok(None);
            },
        }
    }
    proof {
        lemma_class_end(pat@, p as int);
    }
    let ep = match class_end_exec(pat, p) {
        Err(e) => return Err(e),
        Ok(ep) => ep,
    };
    let m = s < slen && single_match(src[s], pat, p, ep);
    let q: u8 = if ep < plen {
        pat[ep]
    } else {
        0
    };
    if q == 63 {
        if m {
            let r = match_here(src, pat, s + 1, ep + 1, caps);
            if let Ok(None) = r {
                return match_here(src, pat, s, ep + 1, caps);
            }
            return r;
        }
        return match_here(src, pat, s, ep + 1, caps);
    } else if q == 43 {
        if m {
            return max_expand(src, pat, s + 1, p, ep, caps);
        }
        return Ok(None);
    } else if q == 42 {
        return max_expand(src, pat, s, p, ep, caps);
    } else if q == DASH {
        return min_expand(src, pat, s, p, ep, caps);
    } else if m {
        return match_here(src, pat, s + 1, ep, caps);
    } else {
        return Ok(None);
    }
}

#[verifier::loop_isolation(false)]
fn max_expand(src: &[u8], pat: &[u8], s0: usize, p: usize, ep: usize, caps: &mut Vec<Cap>) -> (r:
    Result<Option<usize>, PatternError>)
    requires
        s0 <= src@.len(),
        p < ep < pat@.len(),
        pat@[p as int] == PERCENT ==> p + 1 < pat@.len(),
        pat@[p as int] == LBRACKET ==> p + 2 <= ep,
        caps_wf(old(caps)@, s0 as int),
    ensures
        agrees(
            max_try(src@, pat@, s0 as int, p as int, ep as int, old(caps)@, run_end(src@, pat@, p as int, ep as int, s0 as int)),
            r,
            old(caps)@,
            final(caps)@,
            s0 as int,
            src@.len() as int,
        ),
    decreases pat@.len() - p, 0int, 0int,
{
    let slen = src.len();
    let mut k: usize = s0;
    while k < slen && single_match(src[k], pat, p, ep)
        invariant
            s0 <= k <= slen,
            slen == src@.len(),
            run_end(src@, pat@, p as int, ep as int, s0 as int) == run_end(src@, pat@, p as int, ep as int, k as int),
        decreases slen - k,
    {
        k = k + 1;
    }
    let ghost caps0 = caps@;
    let plen = pat.len();
    let mut j: usize = k;
    loop
        invariant
            plen == pat@.len(),
            s0 <= j <= slen,
            slen == src@.len(),
            p < ep < pat@.len(),
            caps@ == caps0,
            caps_wf(caps0, s0 as int),
            max_try(src@, pat@, s0 as int, p as int, ep as int, caps0, run_end(src@, pat@, p as int, ep as int, s0 as int))
                == max_try(src@, pat@, s0 as int, p as int, ep as int, caps0, j as int),
        decreases j,
    {
        let r = match_here(src, pat, j, ep + 1, caps);
        if let Ok(None) = r {
            if j == s0 {
                return Ok(None);
            }
            j = j - 1;
        } else {
            return r;
        }
    }
}

#[verifier::loop_isolation(false)]
fn min_expand(src: &[u8], pat: &[u8], s0: usize, p: usize, ep: usize, caps: &mut Vec<Cap>) -> (r:
    Result<Option<usize>, PatternError>)
    requires
        s0 <= src@.len(),
        p < ep < pat@.len(),
        pat@[p as int] == PERCENT ==> p + 1 < pat@.len(),
        pat@[p as int] == LBRACKET ==> p + 2 <= ep,
        caps_wf(old(caps)@, s0 as int),
    ensures
        agrees(
            min_try(src@, pat@, s0 as int, p as int, ep as int, old(caps)@),
            r,
            old(caps)@,
            final(caps)@,
            s0 as int,
            src@.len() as int,
        ),
    decreases pat@.len() - p, 0int, 0int,
{
    let slen = src.len();
    let ghost caps0 = caps@;
    let plen = pat.len();
    let mut s: usize = s0;
    loop
        invariant
            plen == pat@.len(),
            s0 <= s <= slen,
            slen == src@.len(),
            p < ep < pat@.len(),
            pat@[p as int] == PERCENT ==> p + 1 < pat@.len(),
            pat@[p as int] == LBRACKET ==> p + 2 <= ep,
            caps@ == caps0,
            caps_wf(caps0, s0 as int),
            min_try(src@, pat@, s0 as int, p as int, ep as int, caps0) == min_try(src@, pat@, s as int, p as int, ep as int, caps0),
        decreases slen - s,
    {
        let r = match_here(src, pat, s, ep + 1, caps);
        if let Ok(None) = r {
            if s < slen && single_match(src[s], pat, p, ep) {
                s = s + 1;
            } else {
                return Ok(None);
            }
        } else {
            return r;
        }
    }
}

/// Where the leftmost match lies, if any.
pub enum Search {
    NoMatch,
    /// Start, end and captures of the match.
    Matched(int, int, Seq<Cap>),
    Error(PatternError),
}

/// A pattern that begins with `^` matches only at the start of the subject.
pub open spec fn anchored(pat: Seq<u8>) -> bool {
    pat.len() > 0 && pat[0] == CARET
}

/// Where matching starts in the pattern: past a leading `^`.
pub open spec fn first_item(pat: Seq<u8>) -> int {
    if anchored(pat) {
        1
    } else {
        0
    }
}

/// Tries each start from `s1` on (only `s1` itself when anchored), up to and
/// including the end of the subject.
pub open spec fn search_from(src: Seq<u8>, pat: Seq<u8>, s1: int) -> Search
    decreases src.len() - s1,
{
    if s1 < 0 || s1 > src.len() {
        Search::NoMatch
    } else {
        match do_match(src, pat, s1, first_item(pat), Seq::empty()) {
            Outcome::Fail => if !anchored(pat) && s1 < src.len() {
                search_from(src, pat, s1 + 1)
            } else {
                Search::NoMatch
            },
            Outcome::Found(e, caps) => Search::Matched(s1, e, caps),
            Outcome::Error(err) => Search::Error(err),
        }
    }
}

/// The span reported for a finished capture.
pub open spec fn span_of(c: Cap) -> Range<usize> {
    match c.len {
        CapLen::Closed(n) => Range { start: c.init, end: (c.init + n) as usize },
        _ => Range { start: c.init, end: POSITION_MARKER },
    }
}

/// The outcome of a pattern on a subject: the first malformation of the
/// pattern, or else the spans of its leftmost match in `src`: none when
/// there is no match, else the whole match followed by each capture in
/// order of its `(`.
pub open spec fn match_spans(pat: Seq<u8>, src: Seq<u8>) -> Result<Seq<Range<usize>>, PatternError> {
    match check_pattern(pat) {
        Err(e) => Err(e),
        Ok(_) => search_spans(pat, src),
    }
}

/// The spans of the leftmost match, as the matcher finds it.
pub open spec fn search_spans(pat: Seq<u8>, src: Seq<u8>) -> Result<Seq<Range<usize>>, PatternError> {
    match search_from(src, pat, 0) {
        Search::NoMatch => Ok(Seq::empty()),
        Search::Error(e) => Err(e),
        Search::Matched(st, e, caps) => if exists|i: int| 0 <= i < caps.len() && #[trigger] caps[i].len is Unfinished {
            Err(PatternError::UnfinishedCapture)
        } else {
            Ok(seq![Range { start: st as usize, end: e as usize }] + caps.map_values(|c: Cap| span_of(c)))
        },
    }
}

/// Finds the leftmost match of `pattern` in `subject`. The result holds no
/// span when there is no match, else the whole match and then the captures.
pub fn try_match(pattern: &[u8], subject: &[u8]) -> (r: Result<Vec<Range<usize>>, PatternError>)
    ensures
        match r {
            Ok(v) => match_spans(pattern@, subject@) == Ok::<Seq<Range<usize>>, PatternError>(v@),
            Err(e) => match_spans(pattern@, subject@) == Err::<Seq<Range<usize>>, PatternError>(e),
        },
        r matches Ok(v) ==> v@.len() <= MAX_CAPTURES,
        r matches Ok(v) ==> (v@.len() > 0 ==> v@[0].start <= v@[0].end <= subject@.len()),
        r matches Ok(v) ==> forall|i: int|
            1 <= i < v@.len() ==> v@[0].start <= #[trigger] v@[i].start <= v@[0].end && (v@[i].end
                == POSITION_MARKER || v@[i].start <= v@[i].end <= v@[0].end),
        r matches Ok(v) ==> (v@.len() > 0 && anchored(pattern@) ==> v@[0].start == 0),
{
    if let Err(e) = check_pattern_exec(pattern) {
        return Err(e);
    }
    let slen = subject.len();
    let anchor = pattern.len() > 0 && pattern[0] == CARET;
    let p0: usize = if anchor {
        1
    } else {
        0
    };
    let mut s1: usize = 0;
    loop
        invariant
            s1 <= slen,
            slen == subject@.len(),
            anchor == anchored(pattern@),
            p0 == first_item(pattern@),
            anchor ==> s1 == 0,
            check_pattern(pattern@) is Ok,
            search_from(subject@, pattern@, 0) == search_from(subject@, pattern@, s1 as int),
        decreases slen - s1,
    {
        let mut caps: Vec<Cap> = Vec::new();
        assert(caps@ =~= Seq::<Cap>::empty());
        let r = match_here(subject, pattern, s1, p0, &mut caps);
        match r {
            Err(e) => {
                return Err(e);
            },
            Ok(None) => {
                if anchor || s1 == slen {
                    return Ok(Vec::new());
                }
                s1 = s1 + 1;
            },
            Ok(Some(e)) => {
                return spans_from(s1, e, &caps);
            },
        }
    }
}

#[verifier::loop_isolation(false)]
fn spans_from(st: usize, e: usize, caps: &Vec<Cap>) -> (r: Result<Vec<Range<usize>>, PatternError>)
    requires
        st <= e,
        caps_wf(caps@, e as int),
        forall|i: int| 0 <= i < caps@.len() ==> st <= #[trigger] caps@[i].init,
    ensures
        r matches Err(err) ==> err == PatternError::UnfinishedCapture && exists|i: int|
            0 <= i < caps@.len() && #[trigger] caps@[i].len is Unfinished,
        r matches Ok(v) ==> (forall|i: int| 0 <= i < caps@.len() ==> !(#[trigger] caps@[i].len is Unfinished))
            && v@ == seq![Range { start: st, end: e }] + caps@.map_values(|c: Cap| span_of(c)),
{
    let mut v: Vec<Range<usize>> = Vec::new();
    v.push(Range { start: st, end: e });
    let mut i: usize = 0;
    while i < caps.len()
        invariant
            i <= caps@.len(),
            forall|j: int| 0 <= j < i ==> !(#[trigger] caps@[j].len is Unfinished),
            v@ =~= seq![Range { start: st, end: e }] + caps@.subrange(0, i as int).map_values(|c: Cap| span_of(c)),
        decreases caps@.len() - i,
    {
        let c = caps[i];
        let sp = match c.len {
            CapLen::Unfinished => {
                return Err(PatternError::UnfinishedCapture);
            },
            CapLen::Position => Range { start: c.init, end: POSITION_MARKER },
            CapLen::Closed(n) => {
                assert(caps@[i as int].init <= e);
                assert(c.init + n <= e);
                Range { start: c.init, end: c.init + n }
            },
        };
        v.push(sp);
        proof {
            assert(caps@.subrange(0, i + 1) =~= caps@.subrange(0, i as int).push(c));
        }
        i = i + 1;
    }
    assert(caps@.subrange(0, i as int) =~= caps@);
    Ok(v)
}

} // verus!
