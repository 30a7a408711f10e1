//! Iteration over every match and global substitution.
use vstd::prelude::*;
use vstd::slice::slice_subrange;
use vstd::string::StringSliceAdditionalSpecFns;
use core::ops::Range;
use vstd::utf8::{decode_utf8, encode_utf8, valid_utf8};
use crate::subst::{expand, expand_template, generate_gsub_patterns, subst_bytes, Subst};
use crate::pattern::{
    byte_slice, first_span, shift, shift_span, span_bytes, spans_after, str_slice, text_piece,
    ByteCaptures, Captures, LuaPattern,
};

verus! {

/// The subject from `pos` on.
pub open spec fn tail(b: Seq<u8>, pos: int) -> Seq<u8> {
    b.subrange(pos, b.len() as int)
}

/// Where global iteration goes on after a match with spans `v` found in the
/// tail from `pos`: past the match, and one byte further for an empty match.
pub open spec fn resume_at(pos: int, v: Seq<Range<usize>>) -> int {
    if v[0].start == v[0].end {
        pos + v[0].end + 1
    } else {
        pos + v[0].end
    }
}

/// One step of global iteration from `pos`: the span yielded, placed in the
/// whole subject, and where the next step starts.
pub open spec fn gmatch_step(pat: Seq<u8>, b: Seq<u8>, pos: int) -> Option<(Range<usize>, int)> {
    if pos < 0 || pos > b.len() {
        None
    } else {
        let v = spans_after(pat, tail(b, pos));
        if v.len() == 0 {
            None
        } else {
            Some((shift(first_span(v), pos as usize), resume_at(pos, v)))
        }
    }
}

/// Runs one step of global iteration over `b` from `pos`, with `m`. The
/// next position comes as `b.len()` and `true` when it lies past the end.
fn step(m: &mut LuaPattern, b: &[u8], pos: usize) -> (r: Option<(Range<usize>, usize, bool)>)
    ensures
        final(m)@.pattern == old(m)@.pattern,
        match gmatch_step(old(m)@.pattern, b@, pos as int) {
            Some((sp, np)) => r matches Some((rs, rp, past)) && rs == sp && pos < np <= b@.len() + 1
                && (if past {
                np == b@.len() + 1 && rp == b@.len()
            } else {
                np == rp && rp <= b@.len()
            }),
            None => r is None,
        },
{
    let n = b.len();
    if pos > n {
        return None;
    }
    let t = slice_subrange(b, pos, n);
    if !m.matches_bytes(t) {
        return None;
    }
    let all = m.range();
    let sp = shift_span(m.first_capture(), pos);
    if all.start != all.end {
        Some((sp, pos + all.end, false))
    } else if pos + all.end < n {
        Some((sp, pos + all.end + 1, false))
    } else {
        Some((sp, n, true))
    }
}

/// Iterates over the matches in a text: yields each match's first capture,
/// or the whole match where the pattern has no capture.
pub struct GMatch<'b> {
    m: LuaPattern,
    text: &'b str,
    pos: usize,
    done: bool,
}

impl<'b> GMatch<'b> {
    pub closed spec fn pattern(&self) -> Seq<u8> {
        self.m@.pattern
    }

    pub closed spec fn subject(&self) -> Seq<u8> {
        self.text.spec_bytes()
    }

    /// Where the next match is looked for.
    pub closed spec fn position(&self) -> int {
        if self.done {
            self.subject().len() + 1int
        } else {
            self.pos as int
        }
    }

    /// The next match, if any. Each match moves the position forward, and
    /// never past one beyond the end of the subject.
    pub fn next(&mut self) -> (r: Option<&'b str>)
        ensures
            final(self).pattern() == old(self).pattern(),
            final(self).subject() == old(self).subject(),
            match gmatch_step(old(self).pattern(), old(self).subject(), old(self).position()) {
                Some((sp, np)) => r matches Some(t) && t.spec_bytes() == text_piece(
                    old(self).subject(),
                    sp,
                ) && final(self).position() == np,
                None => r is None && final(self).position() == old(self).position(),
            },
            r is Some ==> old(self).position() < final(self).position() <= old(self).subject().len()
                + 1,
    {
        if self.done {
            return None;
        }
        match step(&mut self.m, self.text.as_bytes(), self.pos) {
            Some((sp, np, past)) => {
                self.pos = np;
                self.done = past;
                Some(str_slice(self.text, sp))
            },
            None => None,
        }
    }
}

/// Iterates over the matches in a slice of bytes, as `GMatch` does in text.
pub struct GMatchBytes<'b> {
    m: LuaPattern,
    bytes: &'b [u8],
    pos: usize,
    done: bool,
}

impl<'b> GMatchBytes<'b> {
    pub closed spec fn pattern(&self) -> Seq<u8> {
        self.m@.pattern
    }

    pub closed spec fn subject(&self) -> Seq<u8> {
        self.bytes@
    }

    /// Where the next match is looked for.
    pub closed spec fn position(&self) -> int {
        if self.done {
            self.subject().len() + 1int
        } else {
            self.pos as int
        }
    }

    /// The next match, if any. Each match moves the position forward, and
    /// never past one beyond the end of the subject.
    pub fn next(&mut self) -> (r: Option<&'b [u8]>)
        ensures
            final(self).pattern() == old(self).pattern(),
            final(self).subject() == old(self).subject(),
            match gmatch_step(old(self).pattern(), old(self).subject(), old(self).position()) {
                Some((sp, np)) => r matches Some(t) && t@ == span_bytes(old(self).subject(), sp)
                    && final(self).position() == np,
                None => r is None && final(self).position() == old(self).position(),
            },
            r is Some ==> old(self).position() < final(self).position() <= old(self).subject().len()
                + 1,
    {
        if self.done {
            return None;
        }
        match step(&mut self.m, self.bytes, self.pos) {
            Some((sp, np, past)) => {
                self.pos = np;
                self.done = past;
                Some(byte_slice(self.bytes, sp))
            },
            None => None,
        }
    }
}

impl LuaPattern {
    /// Iterates over the matches in `text`.
    pub fn gmatch<'b>(&self, text: &'b str) -> (r: GMatch<'b>)
        ensures
            r.pattern() == self@.pattern,
            r.subject() == text.spec_bytes(),
            r.position() == 0,
    {
        GMatch { m: LuaPattern::from_bytes(self.pattern()), text, pos: 0, done: false }
    }

    /// Iterates over the matches in `bytes`.
    pub fn gmatch_bytes<'b>(&self, bytes: &'b [u8]) -> (r: GMatchBytes<'b>)
        ensures
            r.pattern() == self@.pattern,
            r.subject() == bytes@,
            r.position() == 0,
    {
        GMatchBytes { m: LuaPattern::from_bytes(self.pattern()), bytes, pos: 0, done: false }
    }
}

/// Global substitution from `pos` on, the `k`-th match included: each match
/// found in the tail from `pos` is replaced by `repl(k, tail, spans)`, the
/// bytes around matches are kept, and after an empty match one byte is kept
/// before searching again.
pub open spec fn gsub_from(
    pat: Seq<u8>,
    b: Seq<u8>,
    pos: int,
    k: int,
    repl: spec_fn(int, Seq<u8>, Seq<Range<usize>>) -> Seq<u8>,
) -> Seq<u8>
    decreases b.len() + 1 - pos,
{
    if pos < 0 || pos > b.len() {
        Seq::empty()
    } else {
        let t = tail(b, pos);
        let v = spans_after(pat, t);
        if v.len() == 0 || !(v[0].start <= v[0].end <= t.len()) {
            t
        } else {
            let e = v[0].end as int;
            let rest = if v[0].start < v[0].end {
                gsub_from(pat, b, pos + e, k + 1, repl)
            } else if pos + e < b.len() {
                seq![b[pos + e]] + gsub_from(pat, b, pos + e + 1, k + 1, repl)
            } else {
                Seq::empty()
            };
            t.subrange(0, v[0].start as int) + repl(k, t, v) + rest
        }
    }
}

/// The replacement that a parsed template gives for each match.
pub open spec fn by_template(ps: Seq<Subst>) -> spec_fn(int, Seq<u8>, Seq<Range<usize>>) -> Seq<u8> {
    |k: int, t: Seq<u8>, v: Seq<Range<usize>>| expand(ps, t, v)
}

/// Global substitution of the matches of `pat` in `b` by the template `ps`.
pub open spec fn gsub_template(pat: Seq<u8>, b: Seq<u8>, ps: Seq<Subst>) -> Seq<u8> {
    gsub_from(pat, b, 0, 0, by_template(ps))
}

/// The replacement that the template `tpl` gives for each match.
pub open spec fn by_template_bytes(tpl: Seq<u8>) -> spec_fn(int, Seq<u8>, Seq<Range<usize>>) -> Seq<u8> {
    |k: int, t: Seq<u8>, v: Seq<Range<usize>>| expand_template(tpl, 0, t, v)
}

/// Global substitution of the matches of `pat` in `b` by the template `tpl`.
pub open spec fn substituted(pat: Seq<u8>, b: Seq<u8>, tpl: Seq<u8>) -> Seq<u8> {
    gsub_from(pat, b, 0, 0, by_template_bytes(tpl))
}

/// Names the text that `String::from_utf8_lossy` makes of a byte sequence.
pub uninterp spec fn lossy_text(b: Seq<u8>) -> Seq<char>;

/// Relies on `String::from_utf8_lossy`: valid UTF-8 is decoded as it stands
/// (invalid sequences become U+FFFD).
#[verifier::external_body]
pub(crate) fn text_from_bytes(b: &[u8]) -> (r: String)
    ensures
        r@ == lossy_text(b@),
        valid_utf8(b@) ==> r@ == decode_utf8(b@),
{
    String::from_utf8_lossy(b).into_owned()
}

/// Appends what the pieces give for the match with spans `m@.spans` in `t`.
fn append_expansion(m: &LuaPattern, t: &[u8], ps: &Vec<Subst>, res: &mut Vec<u8>)
    ensures
        final(res)@ == old(res)@ + expand(ps@, t@, m@.spans),
{
    let n = m.num_spans();
    let mut i: usize = 0;
    while i < ps.len()
        invariant
            n == m@.spans.len(),
            i <= ps@.len(),
            res@ == old(res)@ + expand(ps@.subrange(0, i as int), t@, m@.spans),
        decreases ps@.len() - i,
    {
        let ghost before = res@;
        match &ps[i] {
            Subst::Text(b) => {
                res.extend_from_slice(b.as_slice());
            },
            Subst::Capture(c) => {
                if *c < n {
                    res.extend_from_slice(byte_slice(t, m.capture(*c)));
                }
            },
        }
        proof {
            assert(ps@.subrange(0, i + 1).drop_last() =~= ps@.subrange(0, i as int));
            assert(res@ =~= before + subst_bytes(ps@[i as int], t@, m@.spans));
        }
        i = i + 1;
    }
    assert(ps@.subrange(0, i as int) =~= ps@);
}

impl LuaPattern {
    /// Replaces every match in `bytes` by what the template pieces give for it.
    pub fn substitute(&mut self, bytes: &[u8], ps: &Vec<Subst>) -> (r: Vec<u8>)
        ensures
            final(self)@.pattern == old(self)@.pattern,
            r@ == gsub_template(old(self)@.pattern, bytes@, ps@),
    {
        let ghost pat = self@.pattern;
        let ghost f = by_template(ps@);
        let n = bytes.len();
        let mut res: Vec<u8> = Vec::new();
        let mut pos: usize = 0;
        let ghost mut k: int = 0;
        assert(res@ + gsub_from(pat, bytes@, 0, 0, f) =~= gsub_from(pat, bytes@, 0, 0, f));
        loop
            invariant
                n == bytes@.len(),
                pos <= n,
                self@.pattern == pat,
                pat == old(self)@.pattern,
                f == by_template(ps@),
                res@ + gsub_from(pat, bytes@, pos as int, k, f) == gsub_from(pat, bytes@, 0, 0, f),
            decreases n - pos,
        {
            let t = slice_subrange(bytes, pos, n);
            let ghost before = res@;
            if !self.matches_bytes(t) {
                res.extend_from_slice(t);
                assert(res@ =~= gsub_from(pat, bytes@, 0, 0, f));
                return res;
            }
            let all = self.range();
            res.extend_from_slice(slice_subrange(t, 0, all.start));
            append_expansion(self, t, ps, &mut res);
            if all.start < all.end {
                proof {
                    assert(res@ + gsub_from(pat, bytes@, pos + all.end, k + 1, f) =~= before
                        + gsub_from(pat, bytes@, pos as int, k, f));
                    k = k + 1;
                }
                pos = pos + all.end;
            } else if pos + all.end < n {
                res.push(bytes[pos + all.end]);
                proof {
                    assert(res@ + gsub_from(pat, bytes@, pos + all.end + 1, k + 1, f) =~= before
                        + gsub_from(pat, bytes@, pos as int, k, f));
                    k = k + 1;
                }
                pos = pos + all.end + 1;
            } else {
                assert(res@ =~= before + gsub_from(pat, bytes@, pos as int, k, f));
                return res;
            }
        }
    }

    /// Replaces every match in `bytes` by the template `repl`, in which
    /// `%0`..`%9` stand for captures and `%%` for `%`.
    pub fn gsub_bytes(&mut self, bytes: &[u8], repl: &str) -> (r: Vec<u8>)
        ensures
            final(self)@.pattern == old(self)@.pattern,
            r@ == substituted(old(self)@.pattern, bytes@, repl.spec_bytes()),
    {
        let ps = generate_gsub_patterns(repl);
        proof {
            assert(by_template(ps@) =~= by_template_bytes(repl.spec_bytes()));
        }
        self.substitute(bytes, &ps)
    }

    /// Replaces every match in `text` by the template `repl`, in which
    /// `%0`..`%9` stand for captures and `%%` for `%`.
    pub fn gsub(&mut self, text: &str, repl: &str) -> (r: String)
        ensures
            final(self)@.pattern == old(self)@.pattern,
            r@ == lossy_text(substituted(old(self)@.pattern, text.spec_bytes(), repl.spec_bytes())),
            valid_utf8(substituted(old(self)@.pattern, text.spec_bytes(), repl.spec_bytes())) ==> r@
                == decode_utf8(substituted(old(self)@.pattern, text.spec_bytes(), repl.spec_bytes())),
    {
        let b = self.gsub_bytes(text.as_bytes(), repl);
        text_from_bytes(b.as_slice())
    }
}

/// The replacement that takes the `k`-th of a list of outputs for the `k`-th match.
pub open spec fn by_list(reps: Seq<Seq<u8>>) -> spec_fn(int, Seq<u8>, Seq<Range<usize>>) -> Seq<u8> {
    |k: int, t: Seq<u8>, v: Seq<Range<usize>>|
        if 0 <= k < reps.len() {
            reps[k]
        } else {
            Seq::empty()
        }
}

/// Every list of outputs that begins with `reps` gives the same whole result
/// once `res` is put in front of the substitution from `pos` and `k` on.
pub open spec fn settled(pat: Seq<u8>, b: Seq<u8>, res: Seq<u8>, pos: int, reps: Seq<Seq<u8>>) -> bool {
    forall|ext: Seq<Seq<u8>>|
        ext.len() >= reps.len() && #[trigger] ext.subrange(0, reps.len() as int) == reps ==> res
            + gsub_from(pat, b, pos, reps.len() as int, by_list(ext)) == gsub_from(
            pat,
            b,
            0,
            0,
            by_list(ext),
        )
}

proof fn lemma_settled_start(pat: Seq<u8>, b: Seq<u8>)
    ensures
        settled(pat, b, Seq::empty(), 0, Seq::empty()),
{
    assert forall|ext: Seq<Seq<u8>>|
        ext.len() >= 0 && #[trigger] ext.subrange(0, 0) == Seq::<Seq<u8>>::empty() implies Seq::<
        u8,
    >::empty() + gsub_from(pat, b, 0, 0, by_list(ext)) == gsub_from(pat, b, 0, 0, by_list(ext)) by {
        assert(Seq::<u8>::empty() + gsub_from(pat, b, 0, 0, by_list(ext)) =~= gsub_from(
            pat,
            b,
            0,
            0,
            by_list(ext),
        ));
    }
}

/// Where, from `pos` on, global substitution finds each of its matches: the
/// start of the tail that each match is found in.
pub open spec fn match_offsets(pat: Seq<u8>, b: Seq<u8>, pos: int) -> Seq<int>
    decreases b.len() + 1 - pos,
{
    if pos < 0 || pos > b.len() {
        Seq::empty()
    } else {
        let t = tail(b, pos);
        let v = spans_after(pat, t);
        if v.len() == 0 || !(v[0].start <= v[0].end <= t.len()) {
            Seq::empty()
        } else {
            let e = v[0].end as int;
            seq![pos] + if v[0].start < v[0].end {
                match_offsets(pat, b, pos + e)
            } else if pos + e < b.len() {
                match_offsets(pat, b, pos + e + 1)
            } else {
                Seq::empty()
            }
        }
    }
}

/// Where substitution goes on after a match with spans `v` found at `pos`.
pub open spec fn next_offset(b: Seq<u8>, pos: int, v: Seq<Range<usize>>) -> int {
    if v[0].start < v[0].end {
        pos + v[0].end
    } else {
        pos + v[0].end + 1
    }
}

/// One match replaced: `res` holds `before`, the bytes kept ahead of the
/// match, its replacement `rep`, and the byte kept after an empty match.
proof fn lemma_reply_step(
    pat: Seq<u8>,
    b: Seq<u8>,
    pos: int,
    before: Seq<u8>,
    res: Seq<u8>,
    reps: Seq<Seq<u8>>,
    offs: Seq<int>,
    rep: Seq<u8>,
)
    requires
        0 <= pos <= b.len(),
        settled(pat, b, before, pos, reps),
        offs + match_offsets(pat, b, pos) == match_offsets(pat, b, 0),
        spans_after(pat, tail(b, pos)).len() > 0,
        spans_after(pat, tail(b, pos))[0].start <= spans_after(pat, tail(b, pos))[0].end <= b.len()
            - pos,
        res == before + tail(b, pos).subrange(0, spans_after(pat, tail(b, pos))[0].start as int) + rep
            + {
            let v = spans_after(pat, tail(b, pos));
            if v[0].start == v[0].end && pos + v[0].end < b.len() {
                seq![b[pos + v[0].end]]
            } else {
                Seq::<u8>::empty()
            }
        },
    ensures
        settled(pat, b, res, next_offset(b, pos, spans_after(pat, tail(b, pos))), reps.push(rep)),
        offs.push(pos) + match_offsets(pat, b, next_offset(b, pos, spans_after(pat, tail(b, pos))))
            == match_offsets(pat, b, 0),
{
    let v = spans_after(pat, tail(b, pos));
    let np = next_offset(b, pos, v);
    let k = reps.len() as int;
    let reps2 = reps.push(rep);
    assert(match_offsets(pat, b, pos) =~= seq![pos] + match_offsets(pat, b, np));
    assert(offs.push(pos) + match_offsets(pat, b, np) =~= offs + match_offsets(pat, b, pos));
    assert forall|ext: Seq<Seq<u8>>|
        ext.len() >= reps2.len() && #[trigger] ext.subrange(0, reps2.len() as int) == reps2 implies res
            + gsub_from(pat, b, np, reps2.len() as int, by_list(ext)) == gsub_from(
            pat,
            b,
            0,
            0,
            by_list(ext),
        ) by {
        assert(ext.subrange(0, k) =~= reps);
        assert(ext[k] == ext.subrange(0, reps2.len() as int)[k]);
        assert(res + gsub_from(pat, b, np, k + 1, by_list(ext)) =~= before + gsub_from(
            pat,
            b,
            pos,
            k,
            by_list(ext),
        ));
    }
}

/// Once substitution has gone past the end, `res` is the whole result for
/// the outputs `reps`.
proof fn lemma_reply_done(pat: Seq<u8>, b: Seq<u8>, res: Seq<u8>, pos: int, reps: Seq<Seq<u8>>)
    requires
        settled(pat, b, res, pos, reps),
        pos > b.len(),
    ensures
        res == gsub_from(pat, b, 0, 0, by_list(reps)),
{
    assert(reps.subrange(0, reps.len() as int) =~= reps);
    assert(res + gsub_from(pat, b, pos, reps.len() as int, by_list(reps)) =~= res);
}

/// `out` is what `f` returned for the captures of the match that
/// substitution finds in the part of `b` from `off` on.
pub open spec fn byte_reply<F: Fn(ByteCaptures) -> Vec<u8>>(
    f: F,
    out: Seq<u8>,
    pat: Seq<u8>,
    b: Seq<u8>,
    off: int,
) -> bool {
    exists|c: ByteCaptures, o: Vec<u8>|
        #[trigger] f.ensures((c,), o) && o@ == out && c.subject() == b && c.offset() == off
            && c.spans() == spans_after(pat, tail(b, off))
}

/// `out` is the bytes of what `f` returned for the captures of the match
/// that substitution finds in the part of `b` from `off` on.
pub open spec fn text_reply<F: Fn(Captures) -> String>(
    f: F,
    out: Seq<u8>,
    pat: Seq<u8>,
    b: Seq<u8>,
    off: int,
) -> bool {
    exists|c: Captures, o: String|
        #[trigger] f.ensures((c,), o) && encode_utf8(o@) == out && c.subject() == b && c.offset()
            == off && c.spans() == spans_after(pat, tail(b, off))
}

impl LuaPattern {
    /// Replaces every match in `bytes`, from left to right, by what `lookup`
    /// returns for that match's captures.
    pub fn gsub_bytes_with<F>(&mut self, bytes: &[u8], lookup: F) -> (r: Vec<u8>) where
        F: Fn(ByteCaptures) -> Vec<u8>,

        requires
            forall|c: ByteCaptures| lookup.requires((c,)),
        ensures
            final(self)@.pattern == old(self)@.pattern,
            exists|reps: Seq<Seq<u8>>|
                reps.len() == match_offsets(old(self)@.pattern, bytes@, 0).len() && r@
                    == #[trigger] gsub_from(old(self)@.pattern, bytes@, 0, 0, by_list(reps))
                    && forall|j: int|
                    0 <= j < reps.len() ==> byte_reply(
                        lookup,
                        #[trigger] reps[j],
                        old(self)@.pattern,
                        bytes@,
                        match_offsets(old(self)@.pattern, bytes@, 0)[j],
                    ),
    {
        let ghost pat = self@.pattern;
        let n = bytes.len();
        let mut res: Vec<u8> = Vec::new();
        let mut pos: usize = 0;
        let ghost mut reps: Seq<Seq<u8>> = Seq::empty();
        let ghost mut offs: Seq<int> = Seq::empty();
        proof {
            lemma_settled_start(pat, bytes@);
            assert(offs + match_offsets(pat, bytes@, 0) =~= match_offsets(pat, bytes@, 0));
        }
        loop
            invariant
                n == bytes@.len(),
                pos <= n,
                self@.pattern == pat,
                pat == old(self)@.pattern,
                forall|c: ByteCaptures| lookup.requires((c,)),
                settled(pat, bytes@, res@, pos as int, reps),
                offs + match_offsets(pat, bytes@, pos as int) == match_offsets(pat, bytes@, 0),
                offs.len() == reps.len(),
                forall|j: int|
                    0 <= j < reps.len() ==> byte_reply(lookup, #[trigger] reps[j], pat, bytes@, offs[j]),
            decreases n - pos,
        {
            let t = slice_subrange(bytes, pos, n);
            let ghost before = res@;
            if !self.matches_bytes(t) {
                res.extend_from_slice(t);
                proof {
                    assert(reps.subrange(0, reps.len() as int) =~= reps);
                    assert(res@ =~= before + gsub_from(pat, bytes@, pos as int, reps.len() as int, by_list(reps)));
                    assert(offs =~= match_offsets(pat, bytes@, 0));
                }
                return res;
            }
            let all = self.range();
            res.extend_from_slice(slice_subrange(t, 0, all.start));
            let cc = self.byte_captures_at(bytes, pos);
            let rep = lookup(cc);
            res.extend_from_slice(rep.as_slice());
            let past = all.start == all.end && pos + all.end >= n;
            if all.start == all.end && !past {
                res.push(bytes[pos + all.end]);
            }
            proof {
                assert(t@ =~= tail(bytes@, pos as int));
                assert(byte_reply(lookup, rep@, pat, bytes@, pos as int));
                assert(res@ =~= before + t@.subrange(0, all.start as int) + rep@ + if !past && all.start == all.end {
                    seq![bytes@[pos + all.end]]
                } else {
                    Seq::<u8>::empty()
                });
                lemma_reply_step(pat, bytes@, pos as int, before, res@, reps, offs, rep@);
                reps = reps.push(rep@);
                offs = offs.push(pos as int);
            }
            if past {
                proof {
                    lemma_reply_done(pat, bytes@, res@, pos + all.end + 1, reps);
                    assert(offs =~= match_offsets(pat, bytes@, 0));
                }
                return res;
            }
            pos = if all.start < all.end {
                pos + all.end
            } else {
                pos + all.end + 1
            };
        }
    }

    /// Replaces every match in `text`, from left to right, by what `lookup`
    /// returns for that match's captures.
    pub fn gsub_with<F>(&mut self, text: &str, lookup: F) -> (r: String) where
        F: Fn(Captures) -> String,

        requires
            forall|c: Captures| lookup.requires((c,)),
        ensures
            final(self)@.pattern == old(self)@.pattern,
            exists|reps: Seq<Seq<u8>>|
                reps.len() == match_offsets(old(self)@.pattern, text.spec_bytes(), 0).len()
                    && r@ == lossy_text(#[trigger] gsub_from(old(self)@.pattern, text.spec_bytes(), 0, 0, by_list(reps)))
                    && (valid_utf8(gsub_from(old(self)@.pattern, text.spec_bytes(), 0, 0, by_list(reps)))
                    ==> r@ == decode_utf8(gsub_from(old(self)@.pattern, text.spec_bytes(), 0, 0, by_list(reps))))
                    && forall|j: int|
                    0 <= j < reps.len() ==> text_reply(
                        lookup,
                        #[trigger] reps[j],
                        old(self)@.pattern,
                        text.spec_bytes(),
                        match_offsets(old(self)@.pattern, text.spec_bytes(), 0)[j],
                    ),
    {
        let r = self.gsub_text_bytes(text, lookup);
        text_from_bytes(r.as_slice())
    }

    fn gsub_text_bytes<F>(&mut self, text: &str, lookup: F) -> (r: Vec<u8>) where
        F: Fn(Captures) -> String,

        requires
            forall|c: Captures| lookup.requires((c,)),
        ensures
            final(self)@.pattern == old(self)@.pattern,
            exists|reps: Seq<Seq<u8>>|
                reps.len() == match_offsets(old(self)@.pattern, text.spec_bytes(), 0).len() && r@
                    == #[trigger] gsub_from(old(self)@.pattern, text.spec_bytes(), 0, 0, by_list(reps))
                    && forall|j: int|
                    0 <= j < reps.len() ==> text_reply(
                        lookup,
                        #[trigger] reps[j],
                        old(self)@.pattern,
                        text.spec_bytes(),
                        match_offsets(old(self)@.pattern, text.spec_bytes(), 0)[j],
                    ),
    {
        let bytes = text.as_bytes();
        let ghost pat = self@.pattern;
        let n = bytes.len();
        let mut res: Vec<u8> = Vec::new();
        let mut pos: usize = 0;
        let ghost mut reps: Seq<Seq<u8>> = Seq::empty();
        let ghost mut offs: Seq<int> = Seq::empty();
        proof {
            lemma_settled_start(pat, bytes@);
            assert(offs + match_offsets(pat, bytes@, 0) =~= match_offsets(pat, bytes@, 0));
        }
        loop
            invariant
                n == bytes@.len(),
                bytes@ == text.spec_bytes(),
                pos <= n,
                self@.pattern == pat,
                pat == old(self)@.pattern,
                forall|c: Captures| lookup.requires((c,)),
                settled(pat, bytes@, res@, pos as int, reps),
                offs + match_offsets(pat, bytes@, pos as int) == match_offsets(pat, bytes@, 0),
                offs.len() == reps.len(),
                forall|j: int|
                    0 <= j < reps.len() ==> text_reply(lookup, #[trigger] reps[j], pat, bytes@, offs[j]),
            decreases n - pos,
        {
            let t = slice_subrange(bytes, pos, n);
            let ghost before = res@;
            if !self.matches_bytes(t) {
                res.extend_from_slice(t);
                proof {
                    assert(reps.subrange(0, reps.len() as int) =~= reps);
                    assert(res@ =~= before + gsub_from(pat, bytes@, pos as int, reps.len() as int, by_list(reps)));
                    assert(offs =~= match_offsets(pat, bytes@, 0));
                }
                return res;
            }
            let all = self.range();
            res.extend_from_slice(slice_subrange(t, 0, all.start));
            let cc = self.captures_at(text, pos);
            let rep_text = lookup(cc);
            let rep = rep_text.as_str().as_bytes();
            res.extend_from_slice(rep);
            let past = all.start == all.end && pos + all.end >= n;
            if all.start == all.end && !past {
                res.push(bytes[pos + all.end]);
            }
            proof {
                assert(t@ =~= tail(bytes@, pos as int));
                assert(text_reply(lookup, rep@, pat, bytes@, pos as int));
                assert(res@ =~= before + t@.subrange(0, all.start as int) + rep@ + if !past && all.start == all.end {
                    seq![bytes@[pos + all.end]]
                } else {
                    Seq::<u8>::empty()
                });
                lemma_reply_step(pat, bytes@, pos as int, before, res@, reps, offs, rep@);
                reps = reps.push(rep@);
                offs = offs.push(pos as int);
            }
            if past {
                proof {
                    lemma_reply_done(pat, bytes@, res@, pos + all.end + 1, reps);
                    assert(offs =~= match_offsets(pat, bytes@, 0));
                }
                return res;
            }
            pos = if all.start < all.end {
                pos + all.end
            } else {
                pos + all.end + 1
            };
        }
    }
}

/// The subject from `pos` on with every leftmost match of `pat` taken out;
/// after an empty match one byte is kept and the search goes on past it.
pub open spec fn strip_matches(pat: Seq<u8>, b: Seq<u8>, pos: int) -> Seq<u8>
    decreases b.len() + 1 - pos,
{
    if pos < 0 || pos > b.len() {
        Seq::empty()
    } else {
        let t = tail(b, pos);
        let v = spans_after(pat, t);
        if v.len() == 0 || !(v[0].start <= v[0].end <= t.len()) {
            t
        } else {
            let e = v[0].end as int;
            let rest = if v[0].start < v[0].end {
                strip_matches(pat, b, pos + e)
            } else if pos + e < b.len() {
                seq![b[pos + e]] + strip_matches(pat, b, pos + e + 1)
            } else {
                Seq::empty()
            };
            t.subrange(0, v[0].start as int) + rest
        }
    }
}

proof fn lemma_empty_template(pat: Seq<u8>, b: Seq<u8>, pos: int, k: int)
    ensures
        gsub_from(pat, b, pos, k, by_template_bytes(Seq::empty())) == strip_matches(pat, b, pos),
    decreases b.len() + 1 - pos,
{
    if 0 <= pos <= b.len() {
        let t = tail(b, pos);
        let v = spans_after(pat, t);
        if !(v.len() == 0 || !(v[0].start <= v[0].end <= t.len())) {
            let e = v[0].end as int;
            assert(expand_template(Seq::empty(), 0, t, v) =~= Seq::<u8>::empty());
            if v[0].start < v[0].end {
                lemma_empty_template(pat, b, pos + e, k + 1);
            } else if pos + e < b.len() {
                lemma_empty_template(pat, b, pos + e + 1, k + 1);
            }
            assert(gsub_from(pat, b, pos, k, by_template_bytes(Seq::empty())) =~= strip_matches(
                pat,
                b,
                pos,
            ));
        }
    }
}

/// Substituting with the empty template takes every leftmost match out of
/// the subject and keeps everything else.
pub proof fn empty_template_strips_matches(pat: Seq<u8>, b: Seq<u8>)
    ensures
        substituted(pat, b, Seq::empty()) == strip_matches(pat, b, 0),
{
    lemma_empty_template(pat, b, 0, 0);
}

} // verus!
