//! Single-byte matchers: the ASCII classifier, `%x` classes and `[set]`s.
use vstd::prelude::*;
use crate::error::PatternError;

verus! {

pub const PERCENT: u8 = 37;

pub const LBRACKET: u8 = 91;

pub const RBRACKET: u8 = 93;

pub const CARET: u8 = 94;

pub const DASH: u8 = 45;

/// The byte at `i`, or zero past either end.
pub open spec fn byte_at(b: Seq<u8>, i: int) -> u8 {
    if 0 <= i < b.len() {
        b[i]
    } else {
        0
    }
}

pub open spec fn is_upper(c: u8) -> bool {
    65 <= c <= 90
}

pub open spec fn is_lower(c: u8) -> bool {
    97 <= c <= 122
}

pub open spec fn is_alpha(c: u8) -> bool {
    is_upper(c) || is_lower(c)
}

pub open spec fn is_digit(c: u8) -> bool {
    48 <= c <= 57
}

pub open spec fn is_alnum(c: u8) -> bool {
    is_alpha(c) || is_digit(c)
}

pub open spec fn is_space(c: u8) -> bool {
    c == 32 || (9 <= c <= 13)
}

pub open spec fn is_cntrl(c: u8) -> bool {
    c < 32 || c == 127
}

pub open spec fn is_graph(c: u8) -> bool {
    33 <= c <= 126
}

pub open spec fn is_punct(c: u8) -> bool {
    is_graph(c) && !is_alnum(c)
}

pub open spec fn is_xdigit(c: u8) -> bool {
    is_digit(c) || (97 <= c <= 102) || (65 <= c <= 70)
}

pub open spec fn to_lower(c: u8) -> u8 {
    if is_upper(c) {
        (c + 32) as u8
    } else {
        c
    }
}

/// Whether `c` belongs to the class named by the letter `cl` (`%a`, `%d`, ...);
/// an upper-case letter negates the class, any other byte stands for itself.
pub open spec fn class_matches(c: u8, cl: u8) -> bool {
    let l = to_lower(cl);
    let res = if l == 97 {
        is_alpha(c)
    } else if l == 99 {
        is_cntrl(c)
    } else if l == 100 {
        is_digit(c)
    } else if l == 103 {
        is_graph(c)
    } else if l == 108 {
        is_lower(c)
    } else if l == 112 {
        is_punct(c)
    } else if l == 115 {
        is_space(c)
    } else if l == 117 {
        is_upper(c)
    } else if l == 119 {
        is_alnum(c)
    } else if l == 120 {
        is_xdigit(c)
    } else if l == 122 {
        c == 0
    } else {
        cl == c
    };
    if l == 97 || l == 99 || l == 100 || l == 103 || l == 108 || l == 112 || l == 115 || l
        == 117 || l == 119 || l == 120 || l == 122 {
        if is_lower(cl) {
            res
        } else {
            !res
        }
    } else {
        res
    }
}

pub fn match_class(c: u8, cl: u8) -> (r: bool)
    ensures
        r == class_matches(c, cl),
{
    let l: u8 = if 65 <= cl && cl <= 90 {
        cl + 32
    } else {
        cl
    };
    let upper = 65 <= c && c <= 90;
    let lower = 97 <= c && c <= 122;
    let digit = 48 <= c && c <= 57;
    let graph = 33 <= c && c <= 126;
    let res = if l == 97 {
        upper || lower
    } else if l == 99 {
        c < 32 || c == 127
    } else if l == 100 {
        digit
    } else if l == 103 {
        graph
    } else if l == 108 {
        lower
    } else if l == 112 {
        graph && !(upper || lower || digit)
    } else if l == 115 {
        c == 32 || (9 <= c && c <= 13)
    } else if l == 117 {
        upper
    } else if l == 119 {
        upper || lower || digit
    } else if l == 120 {
        digit || (97 <= c && c <= 102) || (65 <= c && c <= 70)
    } else if l == 122 {
        c == 0
    } else {
        return cl == c;
    };
    if 97 <= cl && cl <= 122 {
        res
    } else {
        !res
    }
}

/// Where the single-byte item starting at `p` ends (one past it), or the
/// malformation found while reading it.
pub open spec fn class_end(pat: Seq<u8>, p: int) -> Result<int, PatternError> {
    if pat[p] == PERCENT {
        if p + 1 >= pat.len() {
            Err(PatternError::EndsWithPercent)
        } else {
            Ok(p + 2)
        }
    } else if pat[p] == LBRACKET {
        if byte_at(pat, p + 1) == CARET {
            set_end(pat, p + 2)
        } else {
            set_end(pat, p + 1)
        }
    } else {
        Ok(p + 1)
    }
}

/// Scans the body of a `[set]` from `q` for its closing bracket; the first
/// byte of the body is never taken as the closing bracket.
pub open spec fn set_end(pat: Seq<u8>, q: int) -> Result<int, PatternError>
    decreases pat.len() - q,
{
    if q >= pat.len() || q < 0 {
        Err(PatternError::MissingBracket)
    } else {
        let q2 = if pat[q] == PERCENT && q + 1 < pat.len() {
            q + 2
        } else {
            q + 1
        };
        if byte_at(pat, q2) == RBRACKET {
            Ok(q2 + 1)
        } else {
            set_end(pat, q2)
        }
    }
}

pub proof fn lemma_set_end(pat: Seq<u8>, q: int)
    requires
        0 <= q,
    ensures
        set_end(pat, q) is Ok ==> q < set_end(pat, q)->Ok_0 <= pat.len() && pat[set_end(pat, q)->Ok_0 - 1] == RBRACKET
            && set_end(pat, q)->Ok_0 >= q + 2,
    decreases pat.len() - q,
{
    if q < pat.len() {
        let q2 = if pat[q] == PERCENT && q + 1 < pat.len() {
            q + 2
        } else {
            q + 1
        };
        if byte_at(pat, q2) != RBRACKET {
            lemma_set_end(pat, q2);
        }
    }
}

pub proof fn lemma_class_end(pat: Seq<u8>, p: int)
    requires
        0 <= p < pat.len(),
    ensures
        class_end(pat, p) is Ok ==> p < class_end(pat, p)->Ok_0 <= pat.len(),
        class_end(pat, p) is Ok && pat[p] == LBRACKET ==> p + 2 <= class_end(pat, p)->Ok_0
            && pat[class_end(pat, p)->Ok_0 - 1] == RBRACKET,
{
    lemma_set_end(pat, p + 1);
    lemma_set_end(pat, p + 2);
}

pub fn class_end_exec(pat: &[u8], p: usize) -> (r: Result<usize, PatternError>)
    requires
        p < pat@.len(),
    ensures
        r matches Ok(e) ==> class_end(pat@, p as int) == Ok::<int, PatternError>(e as int),
        r matches Err(e) ==> class_end(pat@, p as int) == Err::<int, PatternError>(e),
{
    proof {
        lemma_class_end(pat@, p as int);
    }
    let len = pat.len();
    if pat[p] == PERCENT {
        if p + 1 >= len {
            Err(PatternError::EndsWithPercent)
        } else {
            Ok(p + 2)
        }
    } else if pat[p] == LBRACKET {
        let mut q: usize = if p + 1 < len && pat[p + 1] == CARET {
            p + 2
        } else {
            p + 1
        };
        assert(class_end(pat@, p as int) == set_end(pat@, q as int));
        loop
            invariant
                len == pat@.len(),
                p < q,
                class_end(pat@, p as int) == set_end(pat@, q as int),
            decreases len - q,
        {
            if q >= len {
                return Err(PatternError::MissingBracket);
            }
            let q2: usize = if pat[q] == PERCENT && q + 1 < len {
                q + 2
            } else {
                q + 1
            };
            if q2 < len && pat[q2] == RBRACKET {
                return Ok(q2 + 1);
            }
            q = q2;
        }
    } else {
        Ok(p + 1)
    }
}

/// Whether a `[set]` whose body runs over `i .. ec` holds `c` (before negation).
pub open spec fn set_scan(c: u8, pat: Seq<u8>, i: int, ec: int) -> bool
    decreases ec + 1 - i,
{
    if i >= ec || i < 0 || i >= pat.len() {
        false
    } else if pat[i] == PERCENT {
        class_matches(c, byte_at(pat, i + 1)) || set_scan(c, pat, i + 2, ec)
    } else if byte_at(pat, i + 1) == DASH && i + 2 < ec {
        (pat[i] <= c && c <= byte_at(pat, i + 2)) || set_scan(c, pat, i + 3, ec)
    } else {
        pat[i] == c || set_scan(c, pat, i + 1, ec)
    }
}

/// Whether the set that opens at `p` with `[` and closes at `ec` with `]`
/// holds `c`.
pub open spec fn set_matches(c: u8, pat: Seq<u8>, p: int, ec: int) -> bool {
    if byte_at(pat, p + 1) == CARET {
        !set_scan(c, pat, p + 2, ec)
    } else {
        set_scan(c, pat, p + 1, ec)
    }
}

pub fn match_set(c: u8, pat: &[u8], p: usize, ec: usize) -> (r: bool)
    requires
        p < ec < pat@.len(),
    ensures
        r == set_matches(c, pat@, p as int, ec as int),
{
    let neg = pat[p + 1] == CARET;
    let mut i: usize = if neg {
        p + 2
    } else {
        p + 1
    };
    let ghost i0 = i;
    loop
        invariant
            p < ec < pat@.len(),
            i <= ec + 1,
            neg == (pat@[p + 1] == CARET),
            i0 == if neg { p + 2 } else { p + 1 },
            set_scan(c, pat@, i0 as int, ec as int) == set_scan(c, pat@, i as int, ec as int),
        decreases ec + 1 - i,
    {
        if i >= ec {
            return neg;
        }
        if pat[i] == PERCENT {
            if match_class(c, pat[i + 1]) {
                return !neg;
            }
            i = i + 2;
        } else if pat[i + 1] == DASH && i + 2 < ec {
            if pat[i] <= c && c <= pat[i + 2] {
                return !neg;
            }
            i = i + 3;
        } else {
            if pat[i] == c {
                return !neg;
            }
            i = i + 1;
        }
    }
}

/// Whether `c` is matched by the single-byte item at `p .. ep`.
pub open spec fn single_matches(c: u8, pat: Seq<u8>, p: int, ep: int) -> bool {
    if pat[p] == 46 {
        true
    } else if pat[p] == PERCENT {
        class_matches(c, byte_at(pat, p + 1))
    } else if pat[p] == LBRACKET {
        set_matches(c, pat, p, ep - 1)
    } else {
        pat[p] == c
    }
}

pub fn single_match(c: u8, pat: &[u8], p: usize, ep: usize) -> (r: bool)
    requires
        p < ep <= pat@.len(),
        pat[p as int] == PERCENT ==> p + 1 < pat@.len(),
        pat[p as int] == LBRACKET ==> p + 2 <= ep,
    ensures
        r == single_matches(c, pat@, p as int, ep as int),
{
    if pat[p] == 46 {
        true
    } else if pat[p] == PERCENT {
        match_class(c, pat[p + 1])
    } else if pat[p] == LBRACKET {
        match_set(c, pat, p, ep - 1)
    } else {
        pat[p] == c
    }
}

} // verus!
