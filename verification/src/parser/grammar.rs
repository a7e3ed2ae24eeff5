//! The low level grammar of YAML: white space, comments, numbers, identifiers, indentation.
//!
//! These sub-parsers keep the checkpoint; a mismatched one leaves the cursor where it was.
use super::base::{in_set, is_prefix_at, run_of, run_stops, take_min, TakeOpt};
use super::{PError, PResult, Parser};
use crate::text::{lossy_string, lossy_text};
use vstd::prelude::*;

verus! {

/// Blank inside a line: space, tab or form feed.
pub open spec fn is_blank(c: u8) -> bool {
    c == 32u8 || c == 9u8 || c == 12u8
}

/// ASCII white space, newlines included.
pub open spec fn is_space(c: u8) -> bool {
    is_blank(c) || c == 10u8 || c == 13u8
}

/// ASCII decimal digit.
pub open spec fn is_digit_byte(c: u8) -> bool {
    48 <= c <= 57
}

/// ASCII letter or digit.
pub open spec fn is_alnum(c: u8) -> bool {
    is_digit_byte(c) || (65 <= c <= 90) || (97 <= c <= 122)
}

/// A newline byte.
pub open spec fn is_nl(c: u8) -> bool {
    c == 10u8 || c == 13u8
}

/// The boundary bytes after a scalar.
pub open spec fn bound_set() -> Seq<u8> {
    seq![58u8, 123u8, 125u8, 91u8, 93u8, 32u8, 44u8, 10u8, 13u8]
}

/// Length of the newline at `p`: 2 for `\r\n` and `\n\r`, 1 for a lone one, 0 if none.
pub open spec fn nl_len(doc: Seq<u8>, p: int) -> int {
    if p + 1 < doc.len() && ((doc[p] == 13u8 && doc[p + 1] == 10u8) || (doc[p] == 10u8 && doc[p + 1] == 13u8)) {
        2
    } else if p < doc.len() && is_nl(doc[p]) {
        1
    } else {
        0
    }
}

/// A byte of the run of class `k`: 0 a blank, 1 white space, 2 no newline, 3 a byte of a
/// verbatim tag (no `>`, space or newline), 4 no space or newline, 5 a letter or digit, 6 a
/// digit, 7 a byte of an identifier, 8 a space or a tab.
pub open spec fn in_class(k: int, c: u8) -> bool {
    if k == 0 {
        is_blank(c)
    } else if k == 1 {
        is_space(c)
    } else if k == 2 {
        !is_nl(c)
    } else if k == 3 {
        !(c == 62u8 || c == 32u8 || is_nl(c))
    } else if k == 4 {
        !(c == 32u8 || is_nl(c))
    } else if k == 5 {
        is_alnum(c)
    } else if k == 6 {
        is_digit_byte(c)
    } else if k == 7 {
        is_ident_byte(c)
    } else {
        c == 32u8 || c == 9u8
    }
}

/// Where the run of class `k` that starts at `p` ends: the first byte from `p` on that is
/// not in the class, or the end of the document.
pub open spec fn run_end(d: Seq<u8>, p: int, k: int) -> int
    decreases d.len() - p,
{
    if 0 <= p < d.len() && in_class(k, d[p]) {
        run_end(d, p + 1, k)
    } else {
        p
    }
}

/// The first byte from `p` on that is no blank.
pub open spec fn blank_end(d: Seq<u8>, p: int) -> int {
    run_end(d, p, 0)
}

/// The first byte from `p` on that is no white space.
pub open spec fn space_end(d: Seq<u8>, p: int) -> int {
    run_end(d, p, 1)
}

/// The first newline from `p` on, or the end.
pub open spec fn line_end(d: Seq<u8>, p: int) -> int {
    run_end(d, p, 2)
}

/// A run of class `k` from `p` to `q` that stops at `q` ends there.
pub proof fn lemma_run_end(d: Seq<u8>, p: int, q: int, k: int)
    requires
        0 <= p <= q <= d.len(),
        forall|i: int| p <= i < q ==> in_class(k, #[trigger] d[i]),
        q == d.len() || !in_class(k, d[q]),
    ensures
        run_end(d, p, k) == q,
    decreases q - p,
{
    if p < q {
        lemma_run_end(d, p + 1, q, k);
    }
}

/// The run of class `k` from `p` stays in the document, holds only bytes of the class, and
/// stops at a byte out of it or at the end.
pub proof fn lemma_run_end_props(d: Seq<u8>, p: int, k: int)
    requires
        0 <= p <= d.len(),
    ensures
        p <= run_end(d, p, k) <= d.len(),
        forall|i: int| p <= i < run_end(d, p, k) ==> in_class(k, #[trigger] d[i]),
        run_end(d, p, k) == d.len() || !in_class(k, d[run_end(d, p, k)]),
    decreases d.len() - p,
{
    if p < d.len() && in_class(k, d[p]) {
        lemma_run_end_props(d, p + 1, k);
    }
}

/// Only blanks, then an optional comment, are left from `p` to the end of the document.
pub open spec fn blank_rest(d: Seq<u8>, p: int) -> bool {
    let q = blank_end(d, p);
    q == d.len() || (q < d.len() && d[q] == 35u8 && line_end(d, q + 1) == d.len())
}

/// Where one line of a gap from `p` ends: blanks, a comment if `cmt`, then a newline,
/// after which the next line starts; `None` if no newline follows.
pub open spec fn gap_step(d: Seq<u8>, p: int, cmt: bool) -> Option<int> {
    let q = blank_end(d, p);
    let c = if cmt && q < d.len() && d[q] == 35u8 { line_end(d, q + 1) } else { q };
    if nl_len(d, c) > 0 { Some(c + nl_len(d, c)) } else { None }
}

/// The number of lines of the gap from `p`, and where the line after them starts.
pub open spec fn gap_lines(d: Seq<u8>, p: int, cmt: bool) -> (int, int)
    decreases d.len() - p,
{
    match gap_step(d, p, cmt) {
        Some(e) => if p < e <= d.len() {
            let (k, f) = gap_lines(d, e, cmt);
            (k + 1, f)
        } else {
            (0, p)
        },
        None => (0, p),
    }
}

/// The indentation widths with `level + 1` levels: new levels get the width 2, deeper levels
/// are cleared.
pub open spec fn levels_set(w: Seq<usize>, level: int) -> Seq<usize> {
    if level < w.len() {
        w.subrange(0, level + 1)
    } else {
        w + Seq::new((level + 1 - w.len()) as nat, |_i: int| 2usize)
    }
}

/// Setting the levels twice is setting them once.
pub proof fn lemma_levels_set_twice(w: Seq<usize>, level: int)
    requires
        0 <= level,
    ensures
        levels_set(levels_set(w, level), level) == levels_set(w, level),
        levels_set(w, level).len() == level + 1,
{
    assert(levels_set(levels_set(w, level), level) =~= levels_set(w, level));
}

/// Setting the levels up to `a` and then up to `b <= a` is setting them up to `b`.
pub proof fn lemma_levels_set_shorter(w: Seq<usize>, a: int, b: int)
    requires
        0 <= b <= a,
    ensures
        levels_set(levels_set(w, a), b) == levels_set(w, b),
{
    assert(levels_set(levels_set(w, a), b) =~= levels_set(w, b));
}

/// The indentation from `p` of `k` spaces matches.
pub open spec fn spaces_at(d: Seq<u8>, p: int, k: int) -> bool {
    0 <= p && p + k <= d.len() && forall|i: int| p <= i < p + k ==> #[trigger] d[i] == 32u8
}

/// A number can start at `p`: a digit or `-`.
pub open spec fn num_first(d: Seq<u8>, p: int) -> bool {
    0 <= p < d.len() && (d[p] == 45u8 || is_digit_byte(d[p]))
}

/// A scalar may end at `q`: the document ends, or a boundary byte stands there.
pub open spec fn bound_at(d: Seq<u8>, q: int) -> bool {
    q == d.len() || (0 <= q < d.len() && in_set(bound_set(), d[q]))
}

/// Where the digits of a number start: after a leading `-`, if any.
pub open spec fn num_start(d: Seq<u8>, p: int) -> int {
    if 0 <= p < d.len() && d[p] == 45u8 { p + 1 } else { p }
}

/// Where an optional `-` and a run of digits from `p` end, if there is at least one digit.
pub open spec fn num_end(d: Seq<u8>, p: int) -> Option<int> {
    let s = num_start(d, p);
    let e = run_end(d, s, 6);
    if e > s { Some(e) } else { None }
}

/// Where a float from `p` ends: a number, `.`, and any digits.
pub open spec fn float_end(d: Seq<u8>, p: int) -> Option<int> {
    match num_end(d, p) {
        Some(e) => if e < d.len() && d[e] == 46u8 { Some(run_end(d, e + 1, 6)) } else { None },
        None => None,
    }
}

/// Where a float in scientific notation from `p` ends: a number, `e` or `E`, an optional
/// sign, and at least one digit.
pub open spec fn sci_end(d: Seq<u8>, p: int) -> Option<int> {
    match num_end(d, p) {
        Some(e) => if e < d.len() && (d[e] == 101u8 || d[e] == 69u8) {
            let g = if e + 1 < d.len() && (d[e + 1] == 43u8 || d[e + 1] == 45u8) { e + 2 } else { e + 1 };
            let h = run_end(d, g, 6);
            if h > g { Some(h) } else { None }
        } else {
            None
        },
        None => None,
    }
}

/// The length of the first of three spellings that stands at `p`, if any.
pub open spec fn spelling_at(d: Seq<u8>, p: int, lower: Seq<u8>, cap: Seq<u8>, upper: Seq<u8>) -> Option<int> {
    if is_prefix_at(d, p, lower) {
        Some(lower.len() as int)
    } else if is_prefix_at(d, p, cap) {
        Some(cap.len() as int)
    } else if is_prefix_at(d, p, upper) {
        Some(upper.len() as int)
    } else {
        None
    }
}

/// A gap matches at `p`: blanks, a comment if `cmt`, then a newline.
pub open spec fn gap_ok(d: Seq<u8>, p: int, cmt: bool) -> bool {
    let q = blank_end(d, p);
    let c = if cmt && q < d.len() && d[q] == 35u8 { line_end(d, q + 1) } else { q };
    nl_len(d, c) > 0
}

impl<'a> Parser<'a> {
    /// Match any invisible characters except newline.
    pub fn ws(&mut self, opt: TakeOpt) -> (r: PResult<()>)
        requires
            old(self).wf(),
        ensures
            final(self).keeps(old(self)),
            final(self).indent == old(self).indent,
            r is Ok ==> old(self).pos <= final(self).pos && (forall|i: int| old(self).pos <= i < final(self).pos ==> is_blank(#[trigger] old(self).doc@[i])),
            r is Ok && opt is More ==> final(self).pos == old(self).doc@.len() || !is_blank(old(self).doc@[final(self).pos as int]),
            r is Ok && opt is More ==> final(self).pos == blank_end(old(self).doc@, old(self).pos as int),
            r is Ok ==> final(self).pos >= old(self).pos + take_min(opt),
            r is Err ==> r->Err_0 is Mismatch && final(self).pos == old(self).eaten,
            opt == TakeOpt::More(0) ==> r is Ok,
            opt == TakeOpt::More(1) && old(self).pos < old(self).doc@.len() && is_blank(old(self).doc@[old(self).pos as int]) ==> r is Ok,
    {
        let f = |c: &u8| -> (b: bool) ensures b == is_blank(*c) { *c == 32u8 || *c == 9u8 || *c == 12u8 };
        let r = self.take_while(f, opt);
        proof {
            if r is Ok {
                assert forall|i: int| old(self).pos <= i < self.pos implies is_blank(#[trigger] old(self).doc@[i]) by {
                    assert(f.ensures((&old(self).doc@[i],), true));
                }
                if opt is More && self.pos < old(self).doc@.len() {
                    assert(f.ensures((&old(self).doc@[self.pos as int],), false));
                }
                if opt is More {
                    lemma_run_end(old(self).doc@, old(self).pos as int, self.pos as int, 0);
                }
            } else if opt == TakeOpt::More(1) && old(self).pos < old(self).doc@.len() && is_blank(old(self).doc@[old(self).pos as int]) {
                let q = choose|q: int| old(self).pos <= q < old(self).pos + take_min(opt)
                    && run_of(f, old(self).doc@, old(self).pos as int, q)
                    && run_stops(f, old(self).doc@, q, opt, q - old(self).pos);
                assert(q == old(self).pos);
                assert(!f.ensures((&old(self).doc@[q],), false));
            }
        }
        r
    }

    /// Match any invisible characters.
    pub fn inv(&mut self, opt: TakeOpt) -> (r: PResult<()>)
        requires
            old(self).wf(),
        ensures
            final(self).keeps(old(self)),
            final(self).indent == old(self).indent,
            r is Ok ==> old(self).pos <= final(self).pos && (forall|i: int| old(self).pos <= i < final(self).pos ==> is_space(#[trigger] old(self).doc@[i])),
            r is Ok && opt is More ==> final(self).pos == old(self).doc@.len() || !is_space(old(self).doc@[final(self).pos as int]),
            r is Ok && opt is More ==> final(self).pos == space_end(old(self).doc@, old(self).pos as int),
            r is Err ==> r->Err_0 is Mismatch && final(self).pos == old(self).eaten,
            opt == TakeOpt::More(0) ==> r is Ok,
    {
        let f = |c: &u8| -> (b: bool) ensures b == is_space(*c) { *c == 32u8 || *c == 9u8 || *c == 12u8 || *c == 10u8 || *c == 13u8 };
        let r = self.take_while(f, opt);
        proof {
            if r is Ok {
                assert forall|i: int| old(self).pos <= i < self.pos implies is_space(#[trigger] old(self).doc@[i]) by {
                    assert(f.ensures((&old(self).doc@[i],), true));
                }
                if opt is More && self.pos < old(self).doc@.len() {
                    assert(f.ensures((&old(self).doc@[self.pos as int],), false));
                }
                if opt is More {
                    lemma_run_end(old(self).doc@, old(self).pos as int, self.pos as int, 1);
                }
            }
        }
        r
    }

    /// Match a newline: `\r\n`, `\n\r`, `\n` or `\r`.
    pub fn nl(&mut self) -> (r: PResult<()>)
        requires
            old(self).wf(),
        ensures
            final(self).keeps(old(self)),
            final(self).indent == old(self).indent,
            nl_len(old(self).doc@, old(self).pos as int) > 0 ==> r is Ok && final(self).pos == old(self).pos + nl_len(old(self).doc@, old(self).pos as int),
            nl_len(old(self).doc@, old(self).pos as int) == 0 ==> r is Err && r->Err_0 is Mismatch && final(self).pos == old(self).pos,
    {
        let p = self.pos;
        let n = self.doc.len();
        if p < n && p + 1 < n && ((self.doc[p] == 13u8 && self.doc[p + 1] == 10u8) || (self.doc[p] == 10u8 && self.doc[p + 1] == 13u8)) {
            self.pos = p + 2;
            Ok(())
        } else if p < n && (self.doc[p] == 10u8 || self.doc[p] == 13u8) {
            self.pos = p + 1;
            Ok(())
        } else {
            Err(PError::Mismatch)
        }
    }

    /// Match a comment: blanks, `#`, and the rest of the line.
    pub fn comment(&mut self) -> (r: PResult<()>)
        requires
            old(self).wf(),
        ensures
            final(self).keeps(old(self)),
            final(self).indent == old(self).indent,
            r is Ok ==> old(self).pos < final(self).pos && (final(self).pos == old(self).doc@.len() || is_nl(old(self).doc@[final(self).pos as int])),
            r is Err ==> r->Err_0 is Mismatch && final(self).pos == old(self).pos,
            ({
                let d = old(self).doc@;
                let q = blank_end(d, old(self).pos as int);
                if q < d.len() && d[q] == 35u8 {
                    r is Ok && final(self).pos == line_end(d, q + 1)
                } else {
                    r is Err
                }
            }),
    {
        let start = self.pos;
        let _ = self.ws(TakeOpt::More(0));
        if self.pos < self.doc.len() && self.doc[self.pos] == 35u8 {
            self.pos = self.pos + 1;
            let f = |c: &u8| -> (b: bool) ensures b == !is_nl(*c) { *c != 10u8 && *c != 13u8 };
            let p1 = self.pos;
            let r = self.take_while(f, TakeOpt::More(0));
            proof {
                if self.pos < old(self).doc@.len() {
                    assert(f.ensures((&old(self).doc@[self.pos as int],), false));
                }
                assert forall|i: int| p1 <= i < self.pos implies in_class(2, #[trigger] old(self).doc@[i]) by {
                    assert(f.ensures((&old(self).doc@[i],), true));
                }
                lemma_run_end(old(self).doc@, p1 as int, self.pos as int, 2);
            }
            Ok(())
        } else {
            self.pos = start;
            Err(PError::Mismatch)
        }
    }

    /// Match invisible boundaries and keep the gaps: the end of the document, or a boundary
    /// byte ahead (`:{}[] ,` or a newline), then the blanks.
    pub fn bound(&mut self) -> (r: PResult<()>)
        requires
            old(self).wf(),
        ensures
            final(self).keeps(old(self)),
            final(self).indent == old(self).indent,
            (old(self).pos == old(self).doc@.len() || in_set(bound_set(), old(self).doc@[old(self).pos as int])) ==> r is Ok && old(self).pos <= final(self).pos,
            !(old(self).pos == old(self).doc@.len() || in_set(bound_set(), old(self).doc@[old(self).pos as int])) ==> r is Err && r->Err_0 is Mismatch && final(self).pos == old(self).pos,
            r is Ok ==> final(self).pos == blank_end(old(self).doc@, old(self).pos as int),
    {
        if self.pos == self.doc.len() {
            return Ok(());
        }
        let c = self.doc[self.pos];
        if c == 58u8 || c == 123u8 || c == 125u8 || c == 91u8 || c == 93u8 || c == 32u8 || c == 44u8 || c == 10u8 || c == 13u8 {
            proof {
                assert(in_set(bound_set(), c)) by {
                    let s = bound_set();
                    if c == 58u8 { assert(s[0] == c); } else if c == 123u8 { assert(s[1] == c); } else if c == 125u8 { assert(s[2] == c); }
                    else if c == 91u8 { assert(s[3] == c); } else if c == 93u8 { assert(s[4] == c); } else if c == 32u8 { assert(s[5] == c); }
                    else if c == 44u8 { assert(s[6] == c); } else if c == 10u8 { assert(s[7] == c); } else { assert(s[8] == c); }
                }
            }
            let _ = self.ws(TakeOpt::More(0));
            Ok(())
        } else {
            proof {
                assert(!in_set(bound_set(), c)) by {
                    let s = bound_set();
                    if s.contains(c) {
                        let k = choose|k: int| 0 <= k < s.len() && s[k] == c;
                        assert(k == 0 || k == 1 || k == 2 || k == 3 || k == 4 || k == 5 || k == 6 || k == 7 || k == 8);
                    }
                }
            }
            Err(PError::Mismatch)
        }
    }

    /// Match complex mapping indicator (`?`) and a boundary.
    pub fn complex_mapping(&mut self) -> (r: PResult<()>)
        requires
            old(self).wf(),
        ensures
            final(self).keeps(old(self)),
            final(self).indent == old(self).indent,
            r is Ok ==> old(self).pos < final(self).pos && old(self).doc@[old(self).pos as int] == 63u8,
            r is Err ==> r->Err_0 is Mismatch && final(self).pos == old(self).pos,
            ({
                let d = old(self).doc@;
                let p = old(self).pos as int;
                if p < d.len() && d[p] == 63u8 && bound_at(d, p + 1) {
                    r is Ok && final(self).pos == blank_end(d, p + 1)
                } else {
                    r is Err
                }
            }),
    {
        let start = self.pos;
        if self.pos < self.doc.len() && self.doc[self.pos] == 63u8 {
            self.pos = self.pos + 1;
            if self.bound().is_ok() {
                return Ok(());
            }
        }
        self.pos = start;
        Err(PError::Mismatch)
    }

    /// Match a run of digits, at least `min` of them.
    pub fn digits(&mut self, min: usize) -> (r: PResult<()>)
        requires
            old(self).wf(),
        ensures
            final(self).keeps(old(self)),
            final(self).indent == old(self).indent,
            r is Ok ==> old(self).pos + min <= final(self).pos
                && (forall|i: int| old(self).pos <= i < final(self).pos ==> is_digit_byte(#[trigger] old(self).doc@[i]))
                && (final(self).pos == old(self).doc@.len() || !is_digit_byte(old(self).doc@[final(self).pos as int])),
            r is Err ==> r->Err_0 is Mismatch && final(self).pos == old(self).pos,
            min == 0 ==> r is Ok,
            r is Ok <==> run_end(old(self).doc@, old(self).pos as int, 6) >= old(self).pos + min,
            r is Ok ==> final(self).pos == run_end(old(self).doc@, old(self).pos as int, 6),
    {
        let start = self.pos;
        let f = |c: &u8| -> (b: bool) ensures b == is_digit_byte(*c) { 48u8 <= *c && *c <= 57u8 };
        let r = self.take_while(f, TakeOpt::More(min));
        if r.is_err() {
            proof {
                let d = old(self).doc@;
                let q = choose|q: int| old(self).pos <= q < old(self).pos + take_min(TakeOpt::More(min)) && q <= d.len()
                    && run_of(f, d, old(self).pos as int, q)
                    && run_stops(f, d, q, TakeOpt::More(min), q - old(self).pos);
                assert forall|i: int| old(self).pos <= i < q implies in_class(6, #[trigger] d[i]) by {
                    assert(f.ensures((&d[i],), true));
                }
                if q < d.len() {
                    assert(f.ensures((&d[q],), false));
                }
                lemma_run_end(d, old(self).pos as int, q, 6);
            }
            self.pos = start;
            return r;
        }
        proof {
            assert forall|i: int| old(self).pos <= i < self.pos implies is_digit_byte(#[trigger] old(self).doc@[i]) by {
                assert(f.ensures((&old(self).doc@[i],), true));
            }
            if self.pos < old(self).doc@.len() {
                assert(f.ensures((&old(self).doc@[self.pos as int],), false));
            }
            lemma_run_end(old(self).doc@, old(self).pos as int, self.pos as int, 6);
        }
        r
    }

    /// Match valid YAML identifier: a letter or digit, then letters, digits and `-`.
    pub fn identifier(&mut self) -> (r: PResult<()>)
        requires
            old(self).wf(),
        ensures
            final(self).keeps(old(self)),
            final(self).indent == old(self).indent,
            r is Ok ==> old(self).pos < final(self).pos && is_alnum(old(self).doc@[old(self).pos as int])
                && (forall|i: int| old(self).pos <= i < final(self).pos ==> is_ident_byte(#[trigger] old(self).doc@[i]))
                && (final(self).pos == old(self).doc@.len() || !is_ident_byte(old(self).doc@[final(self).pos as int])),
            r is Err ==> r->Err_0 is Mismatch && final(self).pos == old(self).pos
                && !(old(self).pos < old(self).doc@.len() && is_alnum(old(self).doc@[old(self).pos as int])),
            old(self).pos < old(self).doc@.len() && is_alnum(old(self).doc@[old(self).pos as int]) ==> r is Ok,
            r is Ok ==> final(self).pos == run_end(old(self).doc@, old(self).pos as int, 7),
    {
        let start = self.pos;
        if !(self.pos < self.doc.len() && is_alnum_exec(self.doc[self.pos])) {
            return Err(PError::Mismatch);
        }
        self.pos = self.pos + 1;
        let f = |c: &u8| -> (b: bool) ensures b == is_ident_byte(*c) { is_alnum_exec(*c) || *c == 45u8 };
        let _ = self.take_while(f, TakeOpt::More(0));
        proof {
            assert forall|i: int| old(self).pos <= i < self.pos implies is_ident_byte(#[trigger] old(self).doc@[i]) by {
                if i > old(self).pos {
                    assert(f.ensures((&old(self).doc@[i],), true));
                }
            }
            if self.pos < old(self).doc@.len() {
                assert(f.ensures((&old(self).doc@[self.pos as int],), false));
            }
            assert forall|i: int| old(self).pos <= i < self.pos implies in_class(7, #[trigger] old(self).doc@[i]) by {
                assert(is_ident_byte(old(self).doc@[i]));
            }
            lemma_run_end(old(self).doc@, old(self).pos as int, self.pos as int, 7);
        }
        Ok(())
    }

    /// Match an identifier after a symbol (`&` for anchors, `*` for aliases) and give it.
    fn named(&mut self, sym: u8) -> (r: PResult<Vec<u8>>)
        requires
            old(self).wf(),
        ensures
            final(self).keeps(old(self)),
            final(self).indent == old(self).indent,
            r matches Ok(v) ==> old(self).pos < final(self).pos && v@ == old(self).doc@.subrange(old(self).pos + 1, final(self).pos as int)
                && old(self).doc@[old(self).pos as int] == sym && v@.len() > 0,
            r is Err ==> r->Err_0 is Mismatch && final(self).pos == old(self).pos,
            ({
                let d = old(self).doc@;
                let p = old(self).pos as int;
                p + 1 < d.len() && d[p] == sym && is_alnum(d[p + 1]) ==> r is Ok
            }),
            ({
                let d = old(self).doc@;
                let p = old(self).pos as int;
                let e = run_end(d, p + 1, 7);
                if p + 1 < d.len() && d[p] == sym && is_alnum(d[p + 1]) {
                    r matches Ok(v) && v@ == d.subrange(p + 1, e) && final(self).pos == e
                } else {
                    r is Err
                }
            }),
    {
        let start = self.pos;
        if !(self.pos < self.doc.len() && self.doc[self.pos] == sym) {
            return Err(PError::Mismatch);
        }
        self.pos = self.pos + 1;
        let from = self.pos;
        if self.identifier().is_err() {
            self.pos = start;
            return Err(PError::Mismatch);
        }
        let mut v: Vec<u8> = Vec::new();
        crate::text::push_range(&mut v, self.doc, from, self.pos);
        Ok(v)
    }

    /// Match anchor definition, `&name`, and give the name.
    pub fn anchor(&mut self) -> (r: PResult<String>)
        requires
            old(self).wf(),
        ensures
            final(self).keeps(old(self)),
            final(self).indent == old(self).indent,
            r matches Ok(s) ==> old(self).pos < final(self).pos && old(self).doc@[old(self).pos as int] == 38u8
                && s@ == lossy_text(old(self).doc@.subrange(old(self).pos + 1, final(self).pos as int)),
            r is Err ==> r->Err_0 is Mismatch && final(self).pos == old(self).pos,
            ({
                let d = old(self).doc@;
                let p = old(self).pos as int;
                let e = run_end(d, p + 1, 7);
                if p + 1 < d.len() && d[p] == 38u8 && is_alnum(d[p + 1]) {
                    r matches Ok(s) && s@ == lossy_text(d.subrange(p + 1, e)) && final(self).pos == e
                } else {
                    r is Err
                }
            }),
    {
        match self.named(38u8) {
            Ok(v) => Ok(lossy_string(v.as_slice())),
            Err(e) => Err(e),
        }
    }

    /// Match anchor used, `*name`, and give the name.
    pub fn alias(&mut self) -> (r: PResult<String>)
        requires
            old(self).wf(),
        ensures
            final(self).keeps(old(self)),
            final(self).indent == old(self).indent,
            r matches Ok(s) ==> old(self).pos + 1 < final(self).pos && old(self).doc@[old(self).pos as int] == 42u8
                && s@ == lossy_text(old(self).doc@.subrange(old(self).pos + 1, final(self).pos as int)),
            r is Err ==> r->Err_0 is Mismatch && final(self).pos == old(self).pos,
            ({
                let d = old(self).doc@;
                let p = old(self).pos as int;
                p + 1 < d.len() && d[p] == 42u8 && is_alnum(d[p + 1]) ==> r is Ok
            }),
            ({
                let d = old(self).doc@;
                let p = old(self).pos as int;
                let e = run_end(d, p + 1, 7);
                if p + 1 < d.len() && d[p] == 42u8 && is_alnum(d[p + 1]) {
                    r matches Ok(s) && s@ == lossy_text(d.subrange(p + 1, e)) && final(self).pos == e
                } else {
                    r is Err
                }
            }),
    {
        match self.named(42u8) {
            Ok(v) => Ok(lossy_string(v.as_slice())),
            Err(e) => Err(e),
        }
    }

    /// Match an optional `-` and at least one digit.
    fn num_prefix(&mut self) -> (r: PResult<()>)
        requires
            old(self).wf(),
        ensures
            final(self).keeps(old(self)),
            final(self).indent == old(self).indent,
            r is Ok ==> old(self).pos < final(self).pos && is_num_prefix(old(self).doc@.subrange(old(self).pos as int, final(self).pos as int))
                && (final(self).pos == old(self).doc@.len() || !is_digit_byte(old(self).doc@[final(self).pos as int])),
            r is Ok ==> num_first(old(self).doc@, old(self).pos as int),
            r is Err ==> r->Err_0 is Mismatch && final(self).pos == old(self).pos,
            r is Ok <==> num_end(old(self).doc@, old(self).pos as int) is Some,
            r is Ok ==> final(self).pos == num_end(old(self).doc@, old(self).pos as int)->0,
    {
        let start = self.pos;
        if self.pos < self.doc.len() && self.doc[self.pos] == 45u8 {
            self.pos = self.pos + 1;
        }
        let p1 = self.pos;
        if self.digits(1).is_err() {
            self.pos = start;
            return Err(PError::Mismatch);
        }
        proof {
            let t = old(self).doc@.subrange(old(self).pos as int, self.pos as int);
            assert forall|i: int| (if t[0] == 45u8 { 1int } else { 0int }) <= i < t.len() implies is_digit_byte(#[trigger] t[i]) by {
                assert(t[i] == old(self).doc@[old(self).pos + i]);
            }
            assert(t[0] == old(self).doc@[old(self).pos as int]);
        }
        Ok(())
    }

    /// Match integer: an optional `-`, digits, and a boundary; gives the text.
    pub fn integer(&mut self) -> (r: PResult<String>)
        requires
            old(self).wf(),
        ensures
            final(self).keeps(old(self)),
            final(self).indent == old(self).indent,
            r matches Ok(s) ==> exists|e: int| old(self).pos < e <= final(self).pos
                && is_num_prefix(old(self).doc@.subrange(old(self).pos as int, e))
                && s@ == lossy_text(old(self).doc@.subrange(old(self).pos as int, e)),
            r is Ok ==> num_first(old(self).doc@, old(self).pos as int),
            r is Err ==> r->Err_0 is Mismatch && final(self).pos == old(self).pos,
            ({
                let d = old(self).doc@;
                let p = old(self).pos as int;
                match num_end(d, p) {
                    Some(e) => if bound_at(d, e) {
                        r matches Ok(s) && s@ == lossy_text(d.subrange(p, e)) && final(self).pos == blank_end(d, e)
                    } else {
                        r is Err
                    },
                    None => r is Err,
                }
            }),
    {
        let start = self.pos;
        if self.num_prefix().is_err() {
            return Err(PError::Mismatch);
        }
        let e = self.pos;
        let s = lossy_string(&self.doc[start..e]);
        if self.bound().is_err() {
            self.pos = start;
            return Err(PError::Mismatch);
        }
        Ok(s)
    }

    /// Match float: an optional `-`, digits, `.`, optional digits, and a boundary; gives
    /// the text.
    pub fn float(&mut self) -> (r: PResult<String>)
        requires
            old(self).wf(),
        ensures
            final(self).keeps(old(self)),
            final(self).indent == old(self).indent,
            r matches Ok(s) ==> exists|e: int| old(self).pos < e <= final(self).pos
                && s@ == lossy_text(old(self).doc@.subrange(old(self).pos as int, e)),
            r is Ok ==> num_first(old(self).doc@, old(self).pos as int),
            r is Err ==> r->Err_0 is Mismatch && final(self).pos == old(self).pos,
            ({
                let d = old(self).doc@;
                let p = old(self).pos as int;
                match float_end(d, p) {
                    Some(e) => if bound_at(d, e) {
                        r matches Ok(s) && s@ == lossy_text(d.subrange(p, e)) && final(self).pos == blank_end(d, e)
                    } else {
                        r is Err
                    },
                    None => r is Err,
                }
            }),
    {
        let start = self.pos;
        if self.num_prefix().is_err() {
            return Err(PError::Mismatch);
        }
        if !(self.pos < self.doc.len() && self.doc[self.pos] == 46u8) {
            self.pos = start;
            return Err(PError::Mismatch);
        }
        self.pos = self.pos + 1;
        let _ = self.digits(0);
        let e = self.pos;
        let s = lossy_string(&self.doc[start..e]);
        if self.bound().is_err() {
            self.pos = start;
            return Err(PError::Mismatch);
        }
        Ok(s)
    }

    /// Match float with scientific notation: an optional `-`, digits, `e` or `E`, an
    /// optional sign, digits, and a boundary; gives the text.
    pub fn sci_float(&mut self) -> (r: PResult<String>)
        requires
            old(self).wf(),
        ensures
            final(self).keeps(old(self)),
            final(self).indent == old(self).indent,
            r matches Ok(s) ==> exists|e: int| old(self).pos < e <= final(self).pos
                && s@ == lossy_text(old(self).doc@.subrange(old(self).pos as int, e)),
            r is Ok ==> num_first(old(self).doc@, old(self).pos as int),
            r is Err ==> r->Err_0 is Mismatch && final(self).pos == old(self).pos,
            ({
                let d = old(self).doc@;
                let p = old(self).pos as int;
                match sci_end(d, p) {
                    Some(e) => if bound_at(d, e) {
                        r matches Ok(s) && s@ == lossy_text(d.subrange(p, e)) && final(self).pos == blank_end(d, e)
                    } else {
                        r is Err
                    },
                    None => r is Err,
                }
            }),
    {
        let start = self.pos;
        if self.num_prefix().is_err() {
            return Err(PError::Mismatch);
        }
        if !(self.pos < self.doc.len() && (self.doc[self.pos] == 101u8 || self.doc[self.pos] == 69u8)) {
            self.pos = start;
            return Err(PError::Mismatch);
        }
        self.pos = self.pos + 1;
        if self.pos < self.doc.len() && (self.doc[self.pos] == 43u8 || self.doc[self.pos] == 45u8) {
            self.pos = self.pos + 1;
        }
        if self.digits(1).is_err() {
            self.pos = start;
            return Err(PError::Mismatch);
        }
        let e = self.pos;
        let s = lossy_string(&self.doc[start..e]);
        if self.bound().is_err() {
            self.pos = start;
            return Err(PError::Mismatch);
        }
        Ok(s)
    }

    /// Match one of the three spellings of a word (all lower, capitalized, all upper)
    /// ahead, then a boundary.
    fn spelled(&mut self, lower: &[u8], cap: &[u8], upper: &[u8]) -> (r: PResult<()>)
        requires
            old(self).wf(),
        ensures
            final(self).keeps(old(self)),
            final(self).indent == old(self).indent,
            r is Ok ==> old(self).pos <= final(self).pos,
            r is Err ==> r->Err_0 is Mismatch && final(self).pos == old(self).pos,
            ({
                let d = old(self).doc@;
                let p = old(self).pos as int;
                match spelling_at(d, p, lower@, cap@, upper@) {
                    Some(l) => if p + l == d.len() || in_set(bound_set(), d[p + l]) {
                        r is Ok && final(self).pos == blank_end(d, p + l)
                    } else {
                        r is Err
                    },
                    None => r is Err,
                }
            }),
    {
        let start = self.pos;
        let e = self.eaten;
        self.forward();
        let ok = self.sym_seq(lower).is_ok() || self.sym_seq(cap).is_ok() || self.sym_seq(upper).is_ok();
        self.eaten = e;
        if !ok {
            self.pos = start;
            return Err(PError::Mismatch);
        }
        if self.bound().is_err() {
            self.pos = start;
            return Err(PError::Mismatch);
        }
        Ok(())
    }

    /// Match NaN: `.nan`, `.NaN` or `.NAN`.
    pub fn nan(&mut self) -> (r: PResult<()>)
        requires
            old(self).wf(),
        ensures
            final(self).keeps(old(self)),
            final(self).indent == old(self).indent,
            r is Ok ==> old(self).pos < final(self).pos && old(self).doc@[old(self).pos as int] == 46u8,
            r is Err ==> r->Err_0 is Mismatch && final(self).pos == old(self).pos,
            ({
                let d = old(self).doc@;
                let p = old(self).pos as int;
                if p < d.len() && d[p] == 46u8 {
                    match spelling_at(d, p + 1, seq![110u8, 97u8, 110u8], seq![78u8, 97u8, 78u8], seq![78u8, 65u8, 78u8]) {
                        Some(l) => if bound_at(d, p + 1 + l) {
                            r is Ok && final(self).pos == blank_end(d, p + 1 + l)
                        } else {
                            r is Err
                        },
                        None => r is Err,
                    }
                } else {
                    r is Err
                }
            }),
    {
        let start = self.pos;
        if !(self.pos < self.doc.len() && self.doc[self.pos] == 46u8) {
            return Err(PError::Mismatch);
        }
        self.pos = self.pos + 1;
        let l: Vec<u8> = vec![110u8, 97u8, 110u8];
        let c: Vec<u8> = vec![78u8, 97u8, 78u8];
        let u: Vec<u8> = vec![78u8, 65u8, 78u8];
        proof {
            assert(l@ =~= seq![110u8, 97u8, 110u8]);
            assert(c@ =~= seq![78u8, 97u8, 78u8]);
            assert(u@ =~= seq![78u8, 65u8, 78u8]);
        }
        if self.spelled(l.as_slice(), c.as_slice(), u.as_slice()).is_err() {
            self.pos = start;
            return Err(PError::Mismatch);
        }
        Ok(())
    }

    /// Match inf: `.inf`, `.Inf` or `.INF`, with an optional `-`; gives `true` if the value
    /// is positive.
    pub fn inf(&mut self) -> (r: PResult<bool>)
        requires
            old(self).wf(),
        ensures
            final(self).keeps(old(self)),
            final(self).indent == old(self).indent,
            r matches Ok(b) ==> old(self).pos < final(self).pos && b == (old(self).doc@[old(self).pos as int] != 45u8),
            r is Err ==> r->Err_0 is Mismatch && final(self).pos == old(self).pos,
            ({
                let d = old(self).doc@;
                let p = old(self).pos as int;
                let q = if p < d.len() && d[p] == 45u8 { p + 1 } else { p };
                if q < d.len() && d[q] == 46u8 {
                    match spelling_at(d, q + 1, seq![105u8, 110u8, 102u8], seq![73u8, 110u8, 102u8], seq![73u8, 78u8, 70u8]) {
                        Some(l) => if bound_at(d, q + 1 + l) {
                            r matches Ok(b) && b == (q == p) && final(self).pos == blank_end(d, q + 1 + l)
                        } else {
                            r is Err
                        },
                        None => r is Err,
                    }
                } else {
                    r is Err
                }
            }),
    {
        let start = self.pos;
        let mut positive = true;
        if self.pos < self.doc.len() && self.doc[self.pos] == 45u8 {
            self.pos = self.pos + 1;
            positive = false;
        }
        if !(self.pos < self.doc.len() && self.doc[self.pos] == 46u8) {
            self.pos = start;
            return Err(PError::Mismatch);
        }
        self.pos = self.pos + 1;
        let l: Vec<u8> = vec![105u8, 110u8, 102u8];
        let c: Vec<u8> = vec![73u8, 110u8, 102u8];
        let u: Vec<u8> = vec![73u8, 78u8, 70u8];
        proof {
            assert(l@ =~= seq![105u8, 110u8, 102u8]);
            assert(c@ =~= seq![73u8, 110u8, 102u8]);
            assert(u@ =~= seq![73u8, 78u8, 70u8]);
        }
        if self.spelled(l.as_slice(), c.as_slice(), u.as_slice()).is_err() {
            self.pos = start;
            return Err(PError::Mismatch);
        }
        Ok(positive)
    }

    /// The sum of the indentation widths of the levels below `level`, if it is no more than
    /// the length of the document.
    fn indent_sum(&self, level: usize) -> (r: Option<usize>)
        requires
            self.wf(),
            level <= self.indent@.len(),
        ensures
            r matches Some(n) ==> n == sum_widths(self.indent@, level as int) && n <= self.doc@.len(),
            r is None ==> sum_widths(self.indent@, level as int) > self.doc@.len(),
    {
        let mut sum: usize = 0;
        let mut l: usize = 0;
        while l < level
            invariant
                self.wf(),
                l <= level <= self.indent@.len(),
                sum == sum_widths(self.indent@, l as int),
                sum <= self.doc@.len(),
            decreases level - l,
        {
            let w = self.indent[l];
            if w > self.doc.len() - sum {
                proof { lemma_sum_widths_mono(self.indent@, l as int + 1, level as int); }
                return None;
            }
            sum = sum + w;
            l = l + 1;
        }
        Some(sum)
    }

    /// Set the number of levels to `level + 1`: new levels get the width 2, deeper levels
    /// are cleared.
    fn set_levels(&mut self, level: usize)
        requires
            old(self).wf(),
        ensures
            final(self).keeps(old(self)),
            final(self).pos == old(self).pos,
            final(self).indent@.len() == level + 1,
            forall|l: int| 0 <= l < old(self).indent@.len() && l <= level ==> #[trigger] final(self).indent@[l] == old(self).indent@[l],
            forall|l: int| old(self).indent@.len() <= l <= level ==> #[trigger] final(self).indent@[l] == 2,
    {
        if level >= self.indent.len() {
            while self.indent.len() <= level
                invariant
                    self.keeps(old(self)),
                    self.pos == old(self).pos,
                    old(self).indent@.len() <= self.indent@.len() <= level + 1,
                    forall|l: int| 0 <= l < old(self).indent@.len() ==> #[trigger] self.indent@[l] == old(self).indent@[l],
                    forall|l: int| old(self).indent@.len() <= l < self.indent@.len() ==> #[trigger] self.indent@[l] == 2,
                decreases level + 1 - self.indent@.len(),
            {
                self.indent.push(2);
            }
        } else {
            self.indent.truncate(level + 1);
        }
    }

    /// Match indent: the spaces of all levels up to `level`.
    pub fn ind(&mut self, level: usize) -> (r: PResult<()>)
        requires
            old(self).wf(),
        ensures
            final(self).keeps(old(self)),
            final(self).indent@.len() == level + 1,
            r is Ok ==> old(self).pos <= final(self).pos,
            r is Ok ==> final(self).pos == old(self).pos + sum_widths(final(self).indent@, level + 1)
                && forall|i: int| old(self).pos <= i < final(self).pos ==> #[trigger] old(self).doc@[i] == 32u8,
            r is Err ==> r->Err_0 is Mismatch && final(self).pos == old(self).pos,
            final(self).indent@ == levels_set(old(self).indent@, level as int),
            r is Ok <==> spaces_at(old(self).doc@, old(self).pos as int, sum_widths(levels_set(old(self).indent@, level as int), level + 1)),
    {
        self.set_levels(level);
        proof {
            assert(self.indent@ =~= levels_set(old(self).indent@, level as int));
        }
        let ghost ind0 = self.indent@;
        let start = self.pos;
        let levels = self.indent.len();
        let n = match self.indent_sum(levels) {
            Some(n) => n,
            None => { return Err(PError::Mismatch); },
        };
        if n > self.doc.len() - self.pos {
            return Err(PError::Mismatch);
        }
        let mut i: usize = 0;
        while i < n
            invariant
                self.keeps(old(self)),
                self.indent@.len() == level + 1,
                self.indent@ == ind0,
                n == sum_widths(ind0, level + 1),
                ind0 == levels_set(old(self).indent@, level as int),
                self.pos == start + i,
                i <= n,
                start + n <= self.doc@.len(),
                start == old(self).pos,
                forall|k: int| start <= k < self.pos ==> #[trigger] old(self).doc@[k] == 32u8,
            decreases n - i,
        {
            if self.doc[self.pos] != 32u8 {
                self.pos = start;
                return Err(PError::Mismatch);
            }
            self.pos = self.pos + 1;
            i = i + 1;
        }
        Ok(())
    }

    /// Match and define the indent of `level`: the spaces here, which must reach the
    /// indentation of the levels below; the width of `level` becomes what is beyond them.
    pub fn ind_define(&mut self, level: usize) -> (r: PResult<()>)
        requires
            old(self).wf(),
        ensures
            final(self).keeps(old(self)),
            final(self).indent@.len() == level + 1,
            r is Ok ==> old(self).pos <= final(self).pos,
            r is Ok ==> final(self).pos == old(self).pos + sum_widths(final(self).indent@, level + 1)
                && forall|i: int| old(self).pos <= i < final(self).pos ==> #[trigger] old(self).doc@[i] == 32u8,
            r is Err ==> r->Err_0 is Mismatch && final(self).pos == old(self).pos,
            level == 0 ==> r is Ok,
    {
        self.set_levels(level);
        let ghost ind0 = self.indent@;
        let start = self.pos;
        let f = |c: &u8| -> (b: bool) ensures b == (*c == 32u8) { *c == 32u8 };
        let _ = self.take_while(f, TakeOpt::More(0));
        proof {
            assert forall|i: int| old(self).pos <= i < self.pos implies #[trigger] old(self).doc@[i] == 32u8 by {
                assert(f.ensures((&old(self).doc@[i],), true));
            }
        }
        let n = self.pos - start;
        let base = match self.indent_sum(level) {
            Some(b) => b,
            None => {
                self.pos = start;
                return Err(PError::Mismatch);
            },
        };
        if n < base {
            self.pos = start;
            return Err(PError::Mismatch);
        }
        self.indent.set(level, n - base);
        proof {
            lemma_sum_widths_prefix(ind0, self.indent@, level as int);
        }
        Ok(())
    }

    /// Match any optional invisible characters between two lines: blanks, a comment if
    /// `cmt`, and a newline, then any number of lines with nothing else; gives the number
    /// of newlines and leaves the cursor at the start of the next line.
    pub fn gap(&mut self, cmt: bool) -> (r: PResult<usize>)
        requires
            old(self).wf(),
        ensures
            final(self).keeps(old(self)),
            final(self).indent == old(self).indent,
            r matches Ok(t) ==> t >= 1 && old(self).pos < final(self).pos && is_nl(old(self).doc@[final(self).pos - 1]),
            r is Err ==> r->Err_0 is Mismatch && final(self).pos == old(self).pos,
            r is Ok <==> gap_ok(old(self).doc@, old(self).pos as int, cmt),
            r matches Ok(t) ==> t == gap_lines(old(self).doc@, old(self).pos as int, cmt).0
                && final(self).pos == gap_lines(old(self).doc@, old(self).pos as int, cmt).1,
    {
        let start = self.pos;
        let _ = self.ws(TakeOpt::More(0));
        proof {
            lemma_run_end_props(old(self).doc@, old(self).pos as int, 0);
            lemma_run_end(old(self).doc@, self.pos as int, self.pos as int, 0);
        }
        if cmt {
            let _ = self.comment();
        }
        let p1 = self.pos;
        if self.nl().is_err() {
            self.pos = start;
            return Err(PError::Mismatch);
        }
        proof { lemma_nl_end(old(self).doc@, p1 as int); }
        let mut t: usize = 1;
        let ghost d = old(self).doc@;
        loop
            invariant
                self.keeps(old(self)),
                self.indent == old(self).indent,
                start == old(self).pos,
                start < self.pos,
                1 <= t <= self.pos - start,
                is_nl(old(self).doc@[self.pos - 1]),
                gap_ok(old(self).doc@, old(self).pos as int, cmt),
                d == old(self).doc@,
                t + gap_lines(d, self.pos as int, cmt).0 == gap_lines(d, start as int, cmt).0,
                gap_lines(d, self.pos as int, cmt).1 == gap_lines(d, start as int, cmt).1,
            decreases self.doc@.len() - self.pos,
        {
            let line = self.pos;
            let _ = self.ws(TakeOpt::More(0));
            proof {
                lemma_run_end_props(d, line as int, 0);
                lemma_run_end(d, self.pos as int, self.pos as int, 0);
            }
            if cmt {
                let _ = self.comment();
            }
            let p0 = self.pos;
            if self.nl().is_err() {
                self.pos = line;
                return Ok(t);
            }
            proof { lemma_nl_end(old(self).doc@, p0 as int); }
            t = t + 1;
        }
    }
}

/// The sum of the first `n` widths.
pub open spec fn sum_widths(w: Seq<usize>, n: int) -> int
    decreases n,
{
    if n <= 0 {
        0
    } else {
        sum_widths(w, n - 1) + w[n - 1]
    }
}

proof fn lemma_sum_widths_mono(w: Seq<usize>, m: int, n: int)
    requires
        0 <= m <= n,
    ensures
        sum_widths(w, m) <= sum_widths(w, n),
    decreases n,
{
    if m < n {
        lemma_sum_widths_mono(w, m, n - 1);
    }
}

proof fn lemma_sum_widths_prefix(a: Seq<usize>, b: Seq<usize>, n: int)
    requires
        0 <= n,
        n <= a.len(),
        n <= b.len(),
        forall|l: int| 0 <= l < n ==> a[l] == b[l],
    ensures
        sum_widths(a, n) == sum_widths(b, n),
    decreases n,
{
    if n > 0 {
        lemma_sum_widths_prefix(a, b, n - 1);
    }
}

proof fn lemma_nl_end(doc: Seq<u8>, p: int)
    requires
        nl_len(doc, p) > 0,
    ensures
        is_nl(doc[p + nl_len(doc, p) - 1]),
{
}

/// A byte of an identifier after its first: a letter, a digit or `-`.
pub open spec fn is_ident_byte(c: u8) -> bool {
    is_alnum(c) || c == 45u8
}

/// An optional `-` then at least one digit.
pub open spec fn is_num_prefix(t: Seq<u8>) -> bool {
    let d = if t.len() > 0 && t[0] == 45u8 { 1int } else { 0int };
    t.len() > d && forall|i: int| d <= i < t.len() ==> is_digit_byte(#[trigger] t[i])
}

/// Letter or digit.
pub fn is_alnum_exec(c: u8) -> (r: bool)
    ensures
        r == is_alnum(c),
{
    (48u8 <= c && c <= 57u8) || (65u8 <= c && c <= 90u8) || (97u8 <= c && c <= 122u8)
}

} // verus!