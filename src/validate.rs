//! Structural checking of a pattern, independent of any subject, and the
//! proof that a pattern that passes it raises no error while matching.
use vstd::prelude::*;
use crate::classes::{byte_at, class_end, class_end_exec, is_digit, lemma_class_end, DASH, PERCENT, LBRACKET};
use crate::engine::{
    match_spans,
    do_match, first_item, max_try, min_try, open_capture, run_end, Cap, CapLen, Outcome, DOLLAR,
    LPAREN, MAX_LEVEL, RPAREN,
};
use crate::error::PatternError;

verus! {

/// Whether `q` is a repetition suffix: `?`, `+`, `*` or `-`.
pub open spec fn is_quantifier(q: u8) -> bool {
    q == 63 || q == 43 || q == 42 || q == DASH
}

/// The index of the last capture at or below `l` that is still open, or -1.
pub open spec fn last_open(st: Seq<bool>, l: int) -> int
    decreases l + 1,
{
    if l < 0 || l >= st.len() {
        -1
    } else if !st[l] {
        l
    } else {
        last_open(st, l - 1)
    }
}

/// Reads the pattern's items from `p` on, with `st` telling for each capture
/// opened so far whether it is closed, and reports the first malformation.
pub open spec fn check_from(pat: Seq<u8>, p: int, st: Seq<bool>) -> Result<(), PatternError>
    decreases pat.len() - p,
{
    if p >= pat.len() || p < 0 {
        if exists|i: int| 0 <= i < st.len() && !#[trigger] st[i] {
            Err(PatternError::UnfinishedCapture)
        } else {
            Ok(())
        }
    } else if pat[p] == LPAREN {
        if st.len() >= MAX_LEVEL {
            Err(PatternError::TooManyCaptures)
        } else if byte_at(pat, p + 1) == RPAREN {
            check_from(pat, p + 2, st.push(true))
        } else {
            check_from(pat, p + 1, st.push(false))
        }
    } else if pat[p] == RPAREN {
        let l = last_open(st, st.len() - 1);
        if l < 0 {
            Err(PatternError::InvalidPatternCapture)
        } else {
            check_from(pat, p + 1, st.update(l, true))
        }
    } else if pat[p] == DOLLAR && p + 1 == pat.len() {
        check_from(pat, p + 1, st)
    } else if pat[p] == PERCENT && byte_at(pat, p + 1) == 98 {
        if p + 3 >= pat.len() {
            Err(PatternError::MissingBalanceArguments)
        } else {
            check_from(pat, p + 4, st)
        }
    } else if pat[p] == PERCENT && byte_at(pat, p + 1) == 102 {
        if byte_at(pat, p + 2) != LBRACKET {
            Err(PatternError::MissingFrontierBracket)
        } else {
            match class_end(pat, p + 2) {
                Err(e) => Err(e),
                Ok(ep) => if ep <= p + 2 || ep > pat.len() {
                    Ok(())
                } else {
                    check_from(pat, ep, st)
                },
            }
        }
    } else if pat[p] == PERCENT && is_digit(byte_at(pat, p + 1)) {
        let l = byte_at(pat, p + 1) - 49;
        if l < 0 || l >= st.len() || !st[l] {
            Err(PatternError::InvalidCaptureIndex((byte_at(pat, p + 1) - 48) as u8))
        } else {
            check_from(pat, p + 2, st)
        }
    } else {
        match class_end(pat, p) {
            Err(e) => Err(e),
            Ok(ep) => if ep <= p || ep > pat.len() {
                Ok(())
            } else if is_quantifier(byte_at(pat, ep)) {
                check_from(pat, ep + 1, st)
            } else {
                check_from(pat, ep, st)
            },
        }
    }
}

/// The first malformation of a pattern, read as a matcher reads it.
pub open spec fn check_pattern(pat: Seq<u8>) -> Result<(), PatternError> {
    check_from(pat, first_item(pat), Seq::empty())
}

/// Reports the first malformation of `pat`, if any.
#[verifier::loop_isolation(false)]
pub fn check_pattern_exec(pat: &[u8]) -> (r: Result<(), PatternError>)
    ensures
        r == check_pattern(pat@),
{
    let n = pat.len();
    let mut p: usize = if n > 0 && pat[0] == crate::classes::CARET {
        1
    } else {
        0
    };
    let mut st: Vec<bool> = Vec::new();
    assert(st@ =~= Seq::<bool>::empty());
    loop
        invariant
            n == pat@.len(),
            p <= n,
            st@.len() <= MAX_LEVEL,
            check_pattern(pat@) == check_from(pat@, p as int, st@),
        decreases n - p,
    {
        if p >= n {
            let mut i: usize = 0;
            while i < st.len()
                invariant
                    i <= st@.len(),
                    forall|j: int| 0 <= j < i ==> #[trigger] st@[j],
                decreases st@.len() - i,
            {
                if !st[i] {
                    assert(!st@[i as int]);
                    return Err(PatternError::UnfinishedCapture);
                }
                i = i + 1;
            }
            return Ok(());
        }
        let c = pat[p];
        if c == LPAREN {
            if st.len() >= MAX_LEVEL {
                return Err(PatternError::TooManyCaptures);
            }
            if p + 1 < n && pat[p + 1] == RPAREN {
                st.push(true);
                p = p + 2;
            } else {
                st.push(false);
                p = p + 1;
            }
        } else if c == RPAREN {
            let mut l: usize = st.len();
            while l > 0 && st[l - 1]
                invariant
                    l <= st@.len(),
                    last_open(st@, st@.len() - 1) == last_open(st@, l - 1),
                decreases l,
            {
                l = l - 1;
            }
            if l == 0 {
                return Err(PatternError::InvalidPatternCapture);
            }
            st.set(l - 1, true);
            p = p + 1;
        } else if c == DOLLAR && p + 1 == n {
            p = p + 1;
        } else if c == PERCENT && p + 1 < n && pat[p + 1] == 98 {
            if n - p <= 3 {
                return Err(PatternError::MissingBalanceArguments);
            }
            p = p + 4;
        } else if c == PERCENT && p + 1 < n && pat[p + 1] == 102 {
            if p + 2 >= n || pat[p + 2] != LBRACKET {
                return Err(PatternError::MissingFrontierBracket);
            }
            proof {
                lemma_class_end(pat@, p + 2);
            }
            match class_end_exec(pat, p + 2) {
                Err(e) => {
                    return Err(e);
                },
                Ok(ep) => {
                    p = ep;
                },
            }
        } else if c == PERCENT && p + 1 < n && 48 <= pat[p + 1] && pat[p + 1] <= 57 {
            let d = pat[p + 1];
            if d == 48 || (d - 49) as usize >= st.len() || !st[(d - 49) as usize] {
                return Err(PatternError::InvalidCaptureIndex(d - 48));
            }
            p = p + 2;
        } else {
            proof {
                lemma_class_end(pat@, p as int);
            }
            match class_end_exec(pat, p) {
                Err(e) => {
                    return Err(e);
                },
                Ok(ep) => {
                    if ep < n && (pat[ep] == 63 || pat[ep] == 43 || pat[ep] == 42 || pat[ep] == DASH) {
                        p = ep + 1;
                    } else {
                        p = ep;
                    }
                },
            }
        }
    }
}

/// The capture states agree with what checking recorded: the same number of
/// captures, and a capture is open exactly where checking left it open.
pub open spec fn agrees_with(caps: Seq<Cap>, st: Seq<bool>) -> bool {
    &&& caps.len() == st.len()
    &&& forall|i: int| 0 <= i < caps.len() ==> ((#[trigger] caps[i].len is Unfinished) <==> !st[i])
}

/// Matching ended without a pattern error, and a match found leaves no
/// capture open.
pub open spec fn no_error(o: Outcome) -> bool {
    match o {
        Outcome::Error(_) => false,
        Outcome::Found(_, c) => forall|i: int| 0 <= i < c.len() ==> !(#[trigger] c[i].len is Unfinished),
        Outcome::Fail => true,
    }
}

proof fn lemma_open_capture(caps: Seq<Cap>, st: Seq<bool>, l: int)
    requires
        agrees_with(caps, st),
    ensures
        open_capture(caps, l) == last_open(st, l),
        last_open(st, l) >= 0 ==> last_open(st, l) <= l && last_open(st, l) < st.len(),
    decreases l + 1,
{
    if 0 <= l < caps.len() {
        lemma_open_capture(caps, st, l - 1);
    }
}

proof fn lemma_max_try_no_error(
    src: Seq<u8>,
    pat: Seq<u8>,
    s0: int,
    p: int,
    ep: int,
    caps: Seq<Cap>,
    j: int,
    st: Seq<bool>,
)
    requires
        0 <= p,
        check_from(pat, ep + 1, st) is Ok,
        agrees_with(caps, st),
    ensures
        no_error(max_try(src, pat, s0, p, ep, caps, j)),
    decreases pat.len() - p, 0int, j - s0,
{
    if p < ep < pat.len() {
        lemma_do_match_no_error(src, pat, j, ep + 1, caps, st);
        if j > s0 {
            lemma_max_try_no_error(src, pat, s0, p, ep, caps, j - 1, st);
        }
    }
}

proof fn lemma_min_try_no_error(
    src: Seq<u8>,
    pat: Seq<u8>,
    s: int,
    p: int,
    ep: int,
    caps: Seq<Cap>,
    st: Seq<bool>,
)
    requires
        0 <= p,
        check_from(pat, ep + 1, st) is Ok,
        agrees_with(caps, st),
    ensures
        no_error(min_try(src, pat, s, p, ep, caps)),
    decreases pat.len() - p, 0int, src.len() - s,
{
    if p < ep < pat.len() {
        lemma_do_match_no_error(src, pat, s, ep + 1, caps, st);
        if 0 <= s < src.len() {
            lemma_min_try_no_error(src, pat, s + 1, p, ep, caps, st);
        }
    }
}

/// Matching with a pattern that passes checking, from a point that checking
/// reached with the same capture states, raises no pattern error.
proof fn lemma_do_match_no_error(src: Seq<u8>, pat: Seq<u8>, s: int, p: int, caps: Seq<Cap>, st: Seq<bool>)
    requires
        check_from(pat, p, st) is Ok,
        agrees_with(caps, st),
    ensures
        no_error(do_match(src, pat, s, p, caps)),
    decreases pat.len() - p, 1int, 0int,
{
    if p >= pat.len() || p < 0 {
        assert forall|i: int| 0 <= i < caps.len() implies !(#[trigger] caps[i].len is Unfinished) by {
            if caps[i].len is Unfinished {
                assert(!st[i]);
            }
        }
    } else if pat[p] == LPAREN {
        if byte_at(pat, p + 1) == RPAREN {
            let c2 = caps.push(Cap { init: s as usize, len: CapLen::Position });
            assert(agrees_with(c2, st.push(true)));
            lemma_do_match_no_error(src, pat, s, p + 2, c2, st.push(true));
        } else {
            let c2 = caps.push(Cap { init: s as usize, len: CapLen::Unfinished });
            assert(agrees_with(c2, st.push(false)));
            lemma_do_match_no_error(src, pat, s, p + 1, c2, st.push(false));
        }
    } else if pat[p] == RPAREN {
        lemma_open_capture(caps, st, caps.len() - 1);
        let l = open_capture(caps, caps.len() - 1);
        if l >= 0 {
            let closed = Cap { init: caps[l].init, len: CapLen::Closed((s - caps[l].init) as usize) };
            assert(agrees_with(caps.update(l, closed), st.update(l, true)));
            lemma_do_match_no_error(src, pat, s, p + 1, caps.update(l, closed), st.update(l, true));
        }
    } else if pat[p] == DOLLAR && p + 1 == pat.len() {
        assert(check_from(pat, p + 1, st) is Ok);
        assert forall|i: int| 0 <= i < caps.len() implies !(#[trigger] caps[i].len is Unfinished) by {
            if caps[i].len is Unfinished {
                assert(!st[i]);
            }
        }
    } else if pat[p] == PERCENT && byte_at(pat, p + 1) == 98 {
        if p + 3 < pat.len() {
            match crate::engine::balance_end(src, s, pat[p + 2], pat[p + 3]) {
                Some(e) => lemma_do_match_no_error(src, pat, e, p + 4, caps, st),
                None => {},
            }
        }
    } else if pat[p] == PERCENT && byte_at(pat, p + 1) == 102 {
        match class_end(pat, p + 2) {
            Err(_) => {},
            Ok(ep) => if !(ep <= p + 2 || ep > pat.len()) {
                lemma_do_match_no_error(src, pat, s, ep, caps, st);
            },
        }
    } else if pat[p] == PERCENT && is_digit(byte_at(pat, p + 1)) {
        let l = byte_at(pat, p + 1) - 49;
        if !(l < 0 || l >= caps.len() || caps[l].len is Unfinished) {
            match caps[l].len {
                CapLen::Closed(n) => lemma_do_match_no_error(src, pat, s + n, p + 2, caps, st),
                _ => {},
            }
        }
    } else {
        match class_end(pat, p) {
            Err(_) => {},
            Ok(ep) => if !(ep <= p || ep > pat.len()) {
                let q = byte_at(pat, ep);
                if is_quantifier(q) {
                    lemma_do_match_no_error(src, pat, s + 1, ep + 1, caps, st);
                    lemma_do_match_no_error(src, pat, s, ep + 1, caps, st);
                    lemma_max_try_no_error(src, pat, s + 1, p, ep, caps, run_end(src, pat, p, ep, s + 1), st);
                    lemma_max_try_no_error(src, pat, s, p, ep, caps, run_end(src, pat, p, ep, s), st);
                    lemma_min_try_no_error(src, pat, s, p, ep, caps, st);
                } else {
                    lemma_do_match_no_error(src, pat, s + 1, ep, caps, st);
                }
            },
        }
    }
}

/// A pattern that passes checking raises no error on any subject, from any
/// start: errors come from the pattern's structure alone.
pub proof fn well_formed_patterns_never_fail(pat: Seq<u8>, src: Seq<u8>, s: int)
    requires
        check_pattern(pat) is Ok,
    ensures
        no_error(do_match(src, pat, s, first_item(pat), Seq::empty())),
{
    assert(agrees_with(Seq::<Cap>::empty(), Seq::<bool>::empty()));
    lemma_do_match_no_error(src, pat, s, first_item(pat), Seq::empty(), Seq::empty());
}

/// Matching against the empty subject fails with an error exactly when the
/// pattern is malformed, and then with its first malformation.
pub proof fn empty_subject_reports_malformation(pat: Seq<u8>)
    ensures
        match_spans(pat, Seq::empty()) is Err <==> check_pattern(pat) is Err,
        check_pattern(pat) matches Err(e) ==> match_spans(pat, Seq::empty()) == Err::<
            Seq<core::ops::Range<usize>>,
            PatternError,
        >(e),
{
    if check_pattern(pat) is Ok {
        well_formed_patterns_never_fail(pat, Seq::empty(), 0);
    }
}

} // verus!
