//! Replacement templates: literal text with `%0`..`%9` capture references
//! and `%%` for a literal `%`.
use vstd::prelude::*;
use vstd::slice::{slice_subrange, slice_to_vec};
use vstd::string::StringSliceAdditionalSpecFns;
use core::ops::Range;
use crate::classes::{is_digit, PERCENT};
use crate::pattern::span_bytes;

verus! {

/// One piece of a parsed template.
#[derive(Debug)]
pub enum Subst {
    /// Bytes copied as they are.
    Text(Vec<u8>),
    /// The bytes of a capture of the match (0 is the whole match).
    Capture(usize),
}

impl Subst {
    /// A literal piece holding the bytes of `text`.
    pub fn new_text(text: &str) -> (r: Subst)
        ensures
            r matches Subst::Text(t) && t@ == text.spec_bytes(),
    {
        Subst::Text(slice_to_vec(text.as_bytes()))
    }
}

/// What a piece holds, as plain values.
pub enum Piece {
    Text(Seq<u8>),
    Capture(usize),
}

pub open spec fn piece_of(x: Subst) -> Piece {
    match x {
        Subst::Text(b) => Piece::Text(b@),
        Subst::Capture(i) => Piece::Capture(i),
    }
}

/// Whether a capture reference (`%%` or `%0`..`%9`) starts at `j`.
pub open spec fn is_reference(tpl: Seq<u8>, j: int) -> bool {
    0 <= j && j + 1 < tpl.len() && tpl[j] == PERCENT && (tpl[j + 1] == PERCENT || is_digit(tpl[j + 1]))
}

/// The piece for the reference at `j`: `%%` is a literal `%`, `%d` capture `d`.
pub open spec fn reference_piece(tpl: Seq<u8>, j: int) -> Piece {
    if tpl[j + 1] == PERCENT {
        Piece::Text(seq![PERCENT])
    } else {
        Piece::Capture((tpl[j + 1] - 48) as usize)
    }
}

/// The pieces of the template from `start` on, where `start .. j` holds no
/// reference: each run of literal bytes before a reference becomes one text
/// piece (none when the run is empty), each reference its own piece, and
/// what follows the last reference one final text piece, empty or not.
pub open spec fn pieces_from(tpl: Seq<u8>, start: int, j: int) -> Seq<Piece>
    decreases tpl.len() - j,
{
    if j >= tpl.len() || j < 0 {
        seq![Piece::Text(tpl.subrange(start, tpl.len() as int))]
    } else if is_reference(tpl, j) {
        (if start < j {
            seq![Piece::Text(tpl.subrange(start, j))]
        } else {
            Seq::empty()
        }) + seq![reference_piece(tpl, j)] + pieces_from(tpl, j + 2, j + 2)
    } else {
        pieces_from(tpl, start, j + 1)
    }
}

/// The pieces that a template is parsed into.
pub open spec fn pieces_of(tpl: Seq<u8>) -> Seq<Piece> {
    pieces_from(tpl, 0, 0)
}

/// The bytes of capture `i` of a match with spans `v` in `t`; none for a
/// capture that the match does not have.
pub open spec fn cap_bytes(t: Seq<u8>, v: Seq<Range<usize>>, i: int) -> Seq<u8> {
    if 0 <= i < v.len() {
        span_bytes(t, v[i])
    } else {
        Seq::empty()
    }
}

pub open spec fn subst_bytes(x: Subst, t: Seq<u8>, v: Seq<Range<usize>>) -> Seq<u8> {
    match x {
        Subst::Text(b) => b@,
        Subst::Capture(i) => cap_bytes(t, v, i as int),
    }
}

/// What the pieces `ps` give for a match with spans `v` in `t`.
pub open spec fn expand(ps: Seq<Subst>, t: Seq<u8>, v: Seq<Range<usize>>) -> Seq<u8>
    decreases ps.len(),
{
    if ps.len() == 0 {
        Seq::empty()
    } else {
        expand(ps.drop_last(), t, v) + subst_bytes(ps.last(), t, v)
    }
}

/// What the template `tpl`, read from `i` on, gives for a match with spans
/// `v` in `t`.
pub open spec fn expand_template(tpl: Seq<u8>, i: int, t: Seq<u8>, v: Seq<Range<usize>>) -> Seq<u8>
    decreases tpl.len() - i,
{
    if i < 0 || i >= tpl.len() {
        Seq::empty()
    } else if tpl[i] == PERCENT && i + 1 < tpl.len() && tpl[i + 1] == PERCENT {
        seq![PERCENT] + expand_template(tpl, i + 2, t, v)
    } else if tpl[i] == PERCENT && i + 1 < tpl.len() && is_digit(tpl[i + 1]) {
        cap_bytes(t, v, tpl[i + 1] - 48) + expand_template(tpl, i + 2, t, v)
    } else {
        seq![tpl[i]] + expand_template(tpl, i + 1, t, v)
    }
}

/// Parses a replacement template into pieces that expand as the template does.
pub fn generate_gsub_patterns(repl: &str) -> (r: Vec<Subst>)
    ensures
        r@.map_values(|x: Subst| piece_of(x)) == pieces_of(repl.spec_bytes()),
        forall|t: Seq<u8>, v: Seq<Range<usize>>|
            #[trigger] expand(r@, t, v) == expand_template(repl.spec_bytes(), 0, t, v),
{
    let tpl = repl.as_bytes();
    let n = tpl.len();
    let mut res: Vec<Subst> = Vec::new();
    let mut start: usize = 0;
    let mut j: usize = 0;
    assert forall|t: Seq<u8>, v: Seq<Range<usize>>|
        #[trigger] expand_template(tpl@, 0, t, v) == expand(res@, t, v) + tpl@.subrange(
            start as int,
            j as int,
        ) + expand_template(tpl@, j as int, t, v) by {
        assert(expand(res@, t, v) + tpl@.subrange(0, 0) + expand_template(tpl@, 0, t, v)
            =~= expand_template(tpl@, 0, t, v));
    }
    assert(res@.map_values(|x: Subst| piece_of(x)) + pieces_from(tpl@, 0, 0) =~= pieces_of(tpl@));
    while j < n
        invariant
            n == tpl@.len(),
            start <= j <= n,
            res@.map_values(|x: Subst| piece_of(x)) + pieces_from(tpl@, start as int, j as int)
                == pieces_of(tpl@),
            forall|t: Seq<u8>, v: Seq<Range<usize>>|
                #[trigger] expand_template(tpl@, 0, t, v) == expand(res@, t, v) + tpl@.subrange(
                    start as int,
                    j as int,
                ) + expand_template(tpl@, j as int, t, v),
        decreases n - j,
    {
        if tpl[j] == PERCENT && j + 1 < n && (tpl[j + 1] == PERCENT || (48 <= tpl[j + 1] && tpl[j
            + 1] <= 57)) {
            let ghost res0 = res@;
            assert(is_reference(tpl@, j as int));
            if start < j {
                let chunk = slice_to_vec(slice_subrange(tpl, start, j));
                assert(piece_of(Subst::Text(chunk)) == Piece::Text(tpl@.subrange(start as int, j as int)));
                res.push(Subst::Text(chunk));
            }
            let ghost res1 = res@;
            let piece = if tpl[j + 1] == PERCENT {
                let pc = vec![PERCENT];
                assert(pc@ =~= seq![PERCENT]);
                Subst::Text(pc)
            } else {
                Subst::Capture((tpl[j + 1] - 48) as usize)
            };
            assert(piece_of(piece) == reference_piece(tpl@, j as int));
            res.push(piece);
            assert(res@.map_values(|x: Subst| piece_of(x)) + pieces_from(tpl@, (j + 2) as int, (j + 2) as int)
                =~= res0.map_values(|x: Subst| piece_of(x)) + pieces_from(tpl@, start as int, j as int));
            assert forall|t: Seq<u8>, v: Seq<Range<usize>>|
                #[trigger] expand_template(tpl@, 0, t, v) == expand(res@, t, v) + tpl@.subrange(
                    (j + 2) as int,
                    (j + 2) as int,
                ) + expand_template(tpl@, (j + 2) as int, t, v) by {
                assert(res@.drop_last() =~= res1);
                if start < j {
                    assert(res1.drop_last() =~= res0);
                    assert(expand(res1, t, v) == expand(res0, t, v) + tpl@.subrange(
                        start as int,
                        j as int,
                    ));
                } else {
                    assert(res1 =~= res0);
                }
                assert(expand_template(tpl@, j as int, t, v) == subst_bytes(piece, t, v)
                    + expand_template(tpl@, (j + 2) as int, t, v));
                assert(expand_template(tpl@, 0, t, v) =~= expand(res@, t, v) + tpl@.subrange(
                    (j + 2) as int,
                    (j + 2) as int,
                ) + expand_template(tpl@, (j + 2) as int, t, v));
            }
            j = j + 2;
            start = j;
        } else {
            assert forall|t: Seq<u8>, v: Seq<Range<usize>>|
                #[trigger] expand_template(tpl@, 0, t, v) == expand(res@, t, v) + tpl@.subrange(
                    start as int,
                    (j + 1) as int,
                ) + expand_template(tpl@, (j + 1) as int, t, v) by {
                assert(expand_template(tpl@, j as int, t, v) == seq![tpl@[j as int]]
                    + expand_template(tpl@, (j + 1) as int, t, v));
                assert(tpl@.subrange(start as int, (j + 1) as int) =~= tpl@.subrange(
                    start as int,
                    j as int,
                ).push(tpl@[j as int]));
                assert(expand_template(tpl@, 0, t, v) =~= expand(res@, t, v) + tpl@.subrange(
                    start as int,
                    (j + 1) as int,
                ) + expand_template(tpl@, (j + 1) as int, t, v));
            }
            assert(pieces_from(tpl@, start as int, j as int) == pieces_from(tpl@, start as int, (j + 1) as int));
            j = j + 1;
        }
    }
    let ghost res0 = res@;
    let last = slice_to_vec(slice_subrange(tpl, start, n));
    assert(piece_of(Subst::Text(last)) == Piece::Text(tpl@.subrange(start as int, n as int)));
    res.push(Subst::Text(last));
    assert(res@.map_values(|x: Subst| piece_of(x)) =~= res0.map_values(|x: Subst| piece_of(x))
        + pieces_from(tpl@, start as int, n as int));
    assert forall|t: Seq<u8>, v: Seq<Range<usize>>|
        #[trigger] expand(res@, t, v) == expand_template(tpl@, 0, t, v) by {
        assert(res@.drop_last() =~= res0);
        assert(expand_template(tpl@, 0, t, v) =~= expand(res@, t, v));
    }
    res
}

} // verus!
