//! The string grammar: quoted, plain, literal and folded strings, and escapes.
use super::base::TakeOpt;
use super::grammar::{blank_end, gap_lines, in_class, is_blank, is_nl, levels_set, line_end, nl_len, run_end, spaces_at, sum_widths};
use super::base::is_prefix_at;
use super::{PError, PResult, Parser};
use crate::text::{lossy_string, lossy_text};
use vstd::prelude::*;
use vstd::string::StringSliceAdditionalSpecFns;

verus! {

/// The byte that an escaped `c` stands for.
pub open spec fn unescape(c: u8) -> u8 {
    if c == 110u8 {
        10u8
    } else if c == 114u8 {
        13u8
    } else if c == 116u8 {
        9u8
    } else if c == 98u8 {
        8u8
    } else if c == 102u8 {
        12u8
    } else {
        c
    }
}

/// Escaping from index `i`, after a backslash if `b`: a backslash escapes the next byte
/// (`\\`, `\n`, `\r`, `\t`, `\b`, `\f`, or any other byte as itself), and a last lone
/// backslash is dropped.
pub open spec fn escape_from(s: Seq<u8>, i: int, b: bool) -> Seq<u8>
    decreases s.len() - i,
{
    if i < 0 || i >= s.len() {
        Seq::empty()
    } else if s[i] == 92u8 && !b {
        escape_from(s, i + 1, true)
    } else {
        seq![if b { unescape(s[i]) } else { s[i] }] + escape_from(s, i + 1, false)
    }
}

/// The escapes of a double-quoted string, one step at a time: a byte other than a backslash
/// stands for itself; a backslash and `n`, `r`, `t`, `b` or `f` stand for the bytes 10,
/// 13, 9, 8 and 12; a backslash and any other byte (a backslash or a quote among them)
/// stand for that byte; a last lone backslash stands for nothing.
pub proof fn lemma_escape_steps(s: Seq<u8>, i: int)
    requires
        0 <= i < s.len(),
    ensures
        s[i] != 92u8 ==> escape_from(s, i, false) == seq![s[i]] + escape_from(s, i + 1, false),
        s[i] == 92u8 && i + 1 == s.len() ==> escape_from(s, i, false) == Seq::<u8>::empty(),
        s[i] == 92u8 && i + 1 < s.len() && s[i + 1] == 110u8 ==> escape_from(s, i, false) == seq![10u8] + escape_from(s, i + 2, false),
        s[i] == 92u8 && i + 1 < s.len() && s[i + 1] == 114u8 ==> escape_from(s, i, false) == seq![13u8] + escape_from(s, i + 2, false),
        s[i] == 92u8 && i + 1 < s.len() && s[i + 1] == 116u8 ==> escape_from(s, i, false) == seq![9u8] + escape_from(s, i + 2, false),
        s[i] == 92u8 && i + 1 < s.len() && s[i + 1] == 98u8 ==> escape_from(s, i, false) == seq![8u8] + escape_from(s, i + 2, false),
        s[i] == 92u8 && i + 1 < s.len() && s[i + 1] == 102u8 ==> escape_from(s, i, false) == seq![12u8] + escape_from(s, i + 2, false),
        s[i] == 92u8 && i + 1 < s.len() && s[i + 1] != 110u8 && s[i + 1] != 114u8 && s[i + 1] != 116u8 && s[i + 1] != 98u8
            && s[i + 1] != 102u8 ==> escape_from(s, i, false) == seq![s[i + 1]] + escape_from(s, i + 2, false),
{
    if s[i] == 92u8 && i + 1 < s.len() {
        assert(escape_from(s, i, false) == escape_from(s, i + 1, true));
    }
    if s[i] == 92u8 && i + 1 == s.len() {
        assert(escape_from(s, i + 1, true) =~= Seq::<u8>::empty());
    }
}

/// A text without a backslash is its own escape decoding.
pub proof fn lemma_escape_plain(s: Seq<u8>, i: int)
    requires
        0 <= i <= s.len(),
        forall|k: int| i <= k < s.len() ==> s[k] != 92u8,
    ensures
        escape_from(s, i, false) == s.subrange(i, s.len() as int),
    decreases s.len() - i,
{
    if i < s.len() {
        lemma_escape_plain(s, i + 1);
        assert(s.subrange(i, s.len() as int) =~= seq![s[i]] + s.subrange(i + 1, s.len() as int));
    } else {
        assert(s.subrange(i, s.len() as int) =~= Seq::<u8>::empty());
    }
}

/// The chomping indicator of a block string.
pub enum Chomp {
    /// `-`: remove the trailing white space.
    Strip,
    /// `+`: keep the trailing newlines.
    Keep,
    /// No indicator: one trailing newline.
    Clip,
}

/// ASCII white space as `str::trim_end` removes it.
pub open spec fn is_trim_space(c: u8) -> bool {
    c == 32u8 || c == 9u8 || c == 10u8 || c == 13u8 || c == 12u8 || c == 11u8
}

/// The bytes without their trailing white space.
pub open spec fn trim_end(s: Seq<u8>) -> Seq<u8>
    decreases s.len(),
{
    if s.len() > 0 && is_trim_space(s.last()) {
        trim_end(s.drop_last())
    } else {
        s
    }
}

/// A plain string can start at `p`: a first byte that is no blank, newline, `#` or
/// bracket (nor `,` in a flow), and not a `:` that is followed by the end, a blank or a
/// newline (or, in a flow, by `,[]{}`).
pub open spec fn plain_start(d: Seq<u8>, p: int, inner: bool) -> bool {
    let c = d[p];
    &&& 0 <= p < d.len()
    &&& !(c == 32u8 || c == 9u8 || c == 12u8 || c == 10u8 || c == 13u8 || c == 35u8)
    &&& !(c == 91u8 || c == 93u8 || c == 123u8 || c == 125u8)
    &&& !(inner && c == 44u8)
    &&& !(c == 58u8 && (p + 1 == d.len() || d[p + 1] == 32u8 || d[p + 1] == 9u8 || d[p + 1] == 12u8
        || d[p + 1] == 10u8 || d[p + 1] == 13u8 || (inner && (d[p + 1] == 44u8 || d[p + 1] == 91u8
        || d[p + 1] == 93u8 || d[p + 1] == 123u8 || d[p + 1] == 125u8))))
}

/// A document marker, `---` or `...`, stands at `p`, followed by a blank, a newline or
/// the end.
pub open spec fn doc_marker_at(d: Seq<u8>, p: int) -> bool {
    &&& 0 <= p && p + 3 <= d.len()
    &&& (d[p] == 45u8 || d[p] == 46u8)
    &&& d[p + 1] == d[p] && d[p + 2] == d[p]
    &&& (p + 3 == d.len() || d[p + 3] == 32u8 || d[p + 3] == 9u8 || d[p + 3] == 10u8 || d[p + 3] == 13u8)
}

/// The first byte from `i` on that stops the run of a quoted string: a newline, a
/// backslash, or the quote.
pub open spec fn first_stop(d: Seq<u8>, i: int, sym: u8) -> Option<int>
    decreases d.len() - i,
{
    if i < 0 || i >= d.len() {
        None
    } else if d[i] == 10u8 || d[i] == 13u8 || d[i] == 92u8 || d[i] == sym {
        Some(i)
    } else {
        first_stop(d, i + 1, sym)
    }
}

/// A quoted string opens at `p` and closes at the first stop `q` after it, which is the
/// quote and does not start an escaped quote (`ignore`): its content is then the bytes in
/// between, as they are.
pub open spec fn simple_quoted(d: Seq<u8>, p: int, sym: u8, ignore: Seq<u8>) -> Option<int> {
    if 0 <= p < d.len() && d[p] == sym && sym != 10u8 && sym != 13u8 && sym != 92u8 {
        match first_stop(d, p + 1, sym) {
            Some(q) => if d[q] == sym && !(ignore.len() > 0 && is_prefix_at(d, q, ignore)) {
                Some(q)
            } else {
                None
            },
            None => None,
        }
    } else {
        None
    }
}

/// The lines of a block string from the line break at `i`, after the bytes `v` read so
/// far, each indented by `w` spaces: a line with text adds its text (without its leading
/// spaces and tabs unless `leading`), joined by `sep` (unless not `leading` and the bytes
/// so far end with white space); a blank line adds a line break. Gives the bytes and where
/// the block ends: at the line break before the first line that is not part of it.
pub open spec fn wrapped_rest(d: Seq<u8>, i: int, w: int, sep: u8, leading: bool, v: Seq<u8>) -> (Seq<u8>, int)
    decreases d.len() - i,
{
    let k = nl_len(d, i);
    if k == 0 || i < 0 {
        (v, i)
    } else {
        let line = i + k;
        if spaces_at(d, line, w) && line + w < d.len() && !is_nl(d[line + w]) {
            let from = line + w;
            let e = line_end(d, from);
            let a = if leading { from } else { run_end(d, from, 8) };
            let v2 = if leading {
                if v.len() > 0 { v.push(sep) } else { v }
            } else if v.len() > 0 && !is_trim_space(v.last()) {
                v.push(sep)
            } else {
                v
            };
            if i < e <= d.len() && from <= a <= e {
                wrapped_rest(d, e, w, sep, leading, v2 + d.subrange(a, e))
            } else {
                (v, i)
            }
        } else {
            let q = blank_end(d, line);
            if i < q < d.len() && is_nl(d[q]) {
                wrapped_rest(d, q, w, sep, leading, v.push(10u8))
            } else {
                (v, i)
            }
        }
    }
}

/// A flow indicator: `,`, `[`, `]`, `{` or `}`.
pub open spec fn flow_sym(c: u8) -> bool {
    c == 44u8 || c == 91u8 || c == 93u8 || c == 123u8 || c == 125u8
}

/// The rest of a plain string from `i`, after the bytes `v` read so far, its lines
/// indented by `w` spaces: it stops at a `:` followed by the end, white space or (in a flow)
/// a flow indicator, at a `#` after a blank, in a flow at a flow indicator, and at a line
/// break unless the next lines continue it (no document marker, indented, not blank, not a
/// comment); a continued line folds the line breaks (one to a space, more to all but one)
/// and drops the blanks around them. Gives the bytes and where the string stops.
pub open spec fn plain_rest(d: Seq<u8>, i: int, inner: bool, w: int, v: Seq<u8>) -> (Seq<u8>, int)
    decreases d.len() - i,
{
    if !(0 <= i < d.len()) {
        (v, i)
    } else {
        let c = d[i];
        if c == 58u8 && (i + 1 == d.len() || super::grammar::is_space(d[i + 1]) || (inner && flow_sym(d[i + 1]))) {
            (v, i)
        } else if c == 35u8 && v.len() > 0 && (v.last() == 32u8 || v.last() == 9u8) {
            (v, i)
        } else if inner && flow_sym(c) {
            (v, i)
        } else if is_nl(c) {
            let t = gap_lines(d, i, false).0;
            let f = gap_lines(d, i, false).1;
            if !doc_marker_at(d, f) && spaces_at(d, f, w) && f + w < d.len() && !is_nl(d[f + w]) && d[f + w] != 35u8
                && v.len() > 0 {
                let v2 = if t == 1 { trim_end(v).push(32u8) } else { trim_end(v) + line_breaks(t - 1) };
                let g = blank_end(d, f + w);
                if i < g <= d.len() { plain_rest(d, g, inner, w, v2) } else { (v, i) }
            } else {
                (v, i)
            }
        } else {
            plain_rest(d, i + 1, inner, w, v.push(c))
        }
    }
}

/// No plain string can start at `p` because of its first byte: white space, `#`, or
/// outside a flow a bracket.
pub open spec fn plain_refused(d: Seq<u8>, p: int, inner: bool) -> bool {
    p < d.len() && (super::grammar::is_space(d[p]) || d[p] == 35u8 || (!inner && (d[p] == 91u8 || d[p] == 93u8
        || d[p] == 123u8 || d[p] == 125u8)))
}

/// A folded single line break: a space, unless the text ends with an escaped `n`.
pub open spec fn fold_space(u: Seq<u8>) -> Seq<u8> {
    if u.len() >= 2 && u[u.len() - 2] == 92u8 && u[u.len() - 1] == 110u8 { u } else { u.push(32u8) }
}

/// `k` line breaks.
pub open spec fn line_breaks(k: int) -> Seq<u8> {
    Seq::new(k as nat, |_i: int| 10u8)
}

/// The rest of a quoted string from `i`, after the content `v` read so far: the run up to
/// the first stop; then an escaped quote (`ignore`) stands for the quote, line breaks and
/// the blanks after them fold (one to a space, more to all but one, one less after a
/// backslash), a backslash is kept, and the quote ends the string. Gives the content and
/// the position after the closing quote, or `None` if the string is not closed.
pub open spec fn quoted_rest(d: Seq<u8>, i: int, sym: u8, ignore: Seq<u8>, v: Seq<u8>) -> Option<(Seq<u8>, int)>
    decreases d.len() - i,
{
    match first_stop(d, i, sym) {
        None => None,
        Some(j) => if i <= j < d.len() {
            let w = v + d.subrange(i, j);
            if ignore.len() > 0 && is_prefix_at(d, j, ignore) {
                quoted_rest(d, j + ignore.len(), sym, ignore, w.push(sym))
            } else if is_nl(d[j]) {
                let t0 = gap_lines(d, j, false).0;
                let t = if w.len() > 0 && w.last() == 92u8 { t0 - 1 } else { t0 };
                let w2 = if t == 1 { fold_space(trim_end(w)) } else if t > 1 { w + line_breaks(t - 1) } else { w };
                let g = blank_end(d, gap_lines(d, j, false).1);
                if i < g <= d.len() { quoted_rest(d, g, sym, ignore, w2) } else { None }
            } else if d[j] == 92u8 {
                quoted_rest(d, j + 1, sym, ignore, w.push(92u8))
            } else {
                Some((w, j + 1))
            }
        } else {
            None
        },
    }
}

/// A plain string that starts at `p` stops at `i`: a `:` followed by the end, a blank or
/// a newline (or, in a flow, by `,[]{}`), a `#` after a blank, in a flow one of `,[]{}`,
/// or a newline.
pub open spec fn plain_stop_at(d: Seq<u8>, p: int, i: int, inner: bool) -> bool {
    let c = d[i];
    ||| (c == 58u8 && (i + 1 == d.len() || d[i + 1] == 32u8 || d[i + 1] == 9u8 || d[i + 1] == 12u8
        || d[i + 1] == 10u8 || d[i + 1] == 13u8 || (inner && (d[i + 1] == 44u8 || d[i + 1] == 91u8
        || d[i + 1] == 93u8 || d[i + 1] == 123u8 || d[i + 1] == 125u8))))
    ||| (c == 35u8 && i > p && (d[i - 1] == 32u8 || d[i - 1] == 9u8))
    ||| (inner && (c == 44u8 || c == 91u8 || c == 93u8 || c == 123u8 || c == 125u8))
    ||| c == 10u8
    ||| c == 13u8
}

/// Where a plain string that starts at `p` stops, looking from `i` on: the first stop, or
/// the end.
pub open spec fn plain_stop(d: Seq<u8>, p: int, i: int, inner: bool) -> int
    decreases d.len() - i,
{
    if i < 0 || i >= d.len() {
        d.len() as int
    } else if plain_stop_at(d, p, i, inner) {
        i
    } else {
        plain_stop(d, p, i + 1, inner)
    }
}

/// The chomping indicator at `i`: `-` strips, `+` keeps, anything else clips.
pub open spec fn chomp_at(d: Seq<u8>, i: int) -> Chomp {
    if 0 <= i < d.len() && d[i] == 45u8 {
        Chomp::Strip
    } else if 0 <= i < d.len() && d[i] == 43u8 {
        Chomp::Keep
    } else {
        Chomp::Clip
    }
}

/// Where the lines of a block string start, after its indicator at `p`: after the
/// chomping indicator, the blanks, and a comment.
pub open spec fn block_body(d: Seq<u8>, p: int) -> int {
    let c0 = if p + 1 < d.len() && (d[p + 1] == 45u8 || d[p + 1] == 43u8) { p + 2 } else { p + 1 };
    let b = blank_end(d, c0);
    if b < d.len() && d[b] == 35u8 { line_end(d, b + 1) } else { b }
}

/// The bytes of a block string's lines, as the lines starting at `p` give them: a line
/// break at the end; a lone line break if no line break stands at `p`; and a line break
/// first if the line after it is blank.
pub open spec fn wrapped_shape(d: Seq<u8>, p: int, v: Seq<u8>) -> bool {
    let l = p + nl_len(d, p);
    &&& v.len() >= 1 && v.last() == 10u8
    &&& nl_len(d, p) == 0 ==> v == seq![10u8]
    &&& nl_len(d, p) > 0 && l < d.len() && is_nl(d[l]) ==> v.len() >= 2 && v[0] == 10u8
}

/// Trimming the end keeps a first byte that is no white space.
proof fn lemma_trim_end_first(s: Seq<u8>)
    requires
        s.len() > 0,
        !is_trim_space(s[0]),
    ensures
        trim_end(s).len() > 0,
        trim_end(s)[0] == s[0],
    decreases s.len(),
{
    if is_trim_space(s.last()) {
        assert(s.len() > 1);
        assert(s.drop_last()[0] == s[0]);
        lemma_trim_end_first(s.drop_last());
    }
}

/// Removes the trailing white space.
pub fn trim_end_vec(v: &mut Vec<u8>)
    ensures
        final(v)@ == trim_end(old(v)@),
{
    while v.len() > 0 && (v[v.len() - 1] == 32u8 || v[v.len() - 1] == 9u8 || v[v.len() - 1] == 10u8
        || v[v.len() - 1] == 13u8 || v[v.len() - 1] == 12u8 || v[v.len() - 1] == 11u8)
        invariant
            trim_end(v@) == trim_end(old(v)@),
        decreases v@.len(),
    {
        let _ = v.pop();
        proof {
            assert(v@ =~= v@);
        }
    }
}

/// What a chomping indicator makes of a block string.
pub open spec fn chomp_spec(c: Chomp, s: Seq<u8>) -> Seq<u8> {
    match c {
        Chomp::Strip => trim_end(s),
        Chomp::Keep => s,
        Chomp::Clip => trim_end(s).push(10u8),
    }
}

impl Chomp {
    /// Applies the chomping to the string.
    pub fn apply(&self, s: Vec<u8>) -> (r: Vec<u8>)
        ensures
            r@ == chomp_spec(*self, s@),
    {
        let mut s = s;
        match self {
            Chomp::Strip => {
                trim_end_vec(&mut s);
                s
            },
            Chomp::Keep => s,
            Chomp::Clip => {
                trim_end_vec(&mut s);
                s.push(10u8);
                s
            },
        }
    }
}

/// Escapes the bytes of a double quoted string.
pub fn escape_bytes(s: &[u8]) -> (r: Vec<u8>)
    ensures
        r@ == escape_from(s@, 0, false),
{
    let mut out: Vec<u8> = Vec::new();
    let mut b = false;
    let mut i: usize = 0;
    while i < s.len()
        invariant
            i <= s@.len(),
            out@ + escape_from(s@, i as int, b) == escape_from(s@, 0, false),
        decreases s@.len() - i,
    {
        let c = s[i];
        if c == 92u8 && !b {
            b = true;
        } else {
            let d: u8 = if b {
                if c == 110u8 { 10u8 } else if c == 114u8 { 13u8 } else if c == 116u8 { 9u8 } else if c == 98u8 { 8u8 } else if c == 102u8 { 12u8 } else { c }
            } else {
                c
            };
            proof {
                assert(escape_from(s@, i as int, b) == seq![d] + escape_from(s@, i + 1, false));
                assert(out@.push(d) + escape_from(s@, i + 1, false) =~= out@ + (seq![d] + escape_from(s@, i + 1, false)));
            }
            out.push(d);
            b = false;
        }
        i = i + 1;
    }
    assert(out@ + escape_from(s@, i as int, b) =~= out@);
    out
}

impl<'a> Parser<'a> {
    /// String escaping, returns a new string.
    pub fn escape(doc: &str) -> (r: String)
        ensures
            r@ == lossy_text(escape_from(doc.spec_bytes(), 0, false)),
    {
        let v = escape_bytes(doc.as_bytes());
        lossy_string(v.as_slice())
    }

    /// Match a quoted string that starts and ends with `sym`: `ignore` stands for the quote
    /// inside, a single line break folds to a space, more line breaks keep all but one,
    /// and the blanks that start a continued line are dropped. Gives the content as written,
    /// without escaping.
    pub fn string_quoted(&mut self, sym: u8, ignore: &[u8]) -> (r: PResult<String>)
        requires
            old(self).wf(),
        ensures
            final(self).keeps(old(self)),
            final(self).indent == old(self).indent,
            r is Ok ==> old(self).pos < final(self).pos && old(self).doc@[old(self).pos as int] == sym,
            r is Ok ==> old(self).pos + 2 <= final(self).pos && old(self).doc@[final(self).pos - 1] == sym,
            r is Err ==> r->Err_0 is Mismatch && final(self).pos == old(self).pos,
            simple_quoted(old(self).doc@, old(self).pos as int, sym, ignore@) matches Some(q) ==> (r matches Ok(s)
                && s@ == lossy_text(old(self).doc@.subrange(old(self).pos + 1, q)) && final(self).pos == q + 1),
            first_stop(old(self).doc@, old(self).pos + 1, sym) is None ==> r is Err,
            ({
                let d = old(self).doc@;
                let p = old(self).pos as int;
                if p < d.len() && d[p] == sym {
                    match quoted_rest(d, p + 1, sym, ignore@, seq![]) {
                        Some((v, e)) => r matches Ok(s) && s@ == lossy_text(v) && final(self).pos == e,
                        None => r is Err,
                    }
                } else {
                    r is Err
                }
            }),
    {
        let start = self.pos;
        let n = self.doc.len();
        if !(self.pos < n && self.doc[self.pos] == sym) {
            return Err(PError::Mismatch);
        }
        self.pos = self.pos + 1;
        let mut v: Vec<u8> = Vec::new();
        let ghost d = old(self).doc@;
        let ghost simple = simple_quoted(d, start as int, sym, ignore@);
        let ghost mut first = true;
        loop
            invariant_except_break
                first ==> v@.len() == 0 && self.pos == start + 1,
                quoted_rest(d, start + 1, sym, ignore@, seq![]) == quoted_rest(d, self.pos as int, sym, ignore@, v@),
            invariant
                self.keeps(old(self)),
                self.indent == old(self).indent,
                start == old(self).pos,
                start < self.pos,
                n == self.doc@.len(),
                d == old(self).doc@,
                d == self.doc@,
                old(self).doc@[start as int] == sym,
                simple == simple_quoted(d, start as int, sym, ignore@),
                !first ==> simple is None,
                !first ==> first_stop(d, start + 1, sym) is Some,
            ensures
                start + 2 <= self.pos,
                old(self).doc@[self.pos - 1] == sym,
                quoted_rest(d, start + 1, sym, ignore@, seq![]) == Some((v@, self.pos as int)),
                simple matches Some(q) ==> v@ == d.subrange(start + 1, q) && self.pos == q + 1,
                first_stop(d, start + 1, sym) is Some,
            decreases n - self.pos,
        {
            let p0 = self.pos;
            let ghost v0 = v@;
            while self.pos < n && self.doc[self.pos] != 10u8 && self.doc[self.pos] != 13u8 && self.doc[self.pos] != 92u8 && self.doc[self.pos] != sym
                invariant
                    self.keeps(old(self)),
                    self.indent == old(self).indent,
                    start < p0 <= self.pos <= n,
                    n == self.doc@.len(),
                    d == self.doc@,
                    first_stop(d, p0 as int, sym) == first_stop(d, self.pos as int, sym),
                    v@ == v0 + d.subrange(p0 as int, self.pos as int),
                decreases n - self.pos,
            {
                v.push(self.doc[self.pos]);
                self.pos = self.pos + 1;
                proof {
                    assert(v@ =~= v0 + d.subrange(p0 as int, self.pos as int));
                }
            }
            proof {
                assert(v@ =~= v0 + d.subrange(p0 as int, self.pos as int));
            }
            if self.pos == n {
                proof {
                    if first {
                        assert(first_stop(d, start + 1, sym) is None);
                    }
                }
                self.pos = start;
                return Err(PError::Mismatch);
            }
            proof {
                if first {
                    assert(first_stop(d, start + 1, sym) == Some(self.pos as int));
                    assert(v@ =~= d.subrange(start + 1, self.pos as int));
                }
                assert(first_stop(d, self.pos as int, sym) == Some(self.pos as int));
            }
            let ghost j = self.pos as int;
            let ghost w = v@;
            assert(w == v0 + d.subrange(p0 as int, j));
            let e = self.eaten;
            self.forward();
            let ig = self.sym_seq(ignore);
            self.eaten = e;
            if ig.is_ok() && ignore.len() > 0 {
                v.push(sym);
                proof {
                    first = false;
                }
                continue;
            }
            let at = self.pos;
            assert(at < n);
            proof {
                if first && !(self.doc@[at as int] == sym && sym != 10u8 && sym != 13u8 && sym != 92u8) {
                    assert(simple is None);
                }
            }
            if self.doc[at] == 10u8 || self.doc[at] == 13u8 {
                proof {
                    first = false;
                }
                match self.gap(false) {
                    Ok(t) => {
                        let ghost f = self.pos as int;
                        let mut t = t;
                        if v.len() > 0 && v[v.len() - 1] == 92u8 {
                            t = t - 1;
                        }
                        if t == 1 {
                            trim_end_vec(&mut v);
                            let l = v.len();
                            if !(l >= 2 && v[l - 2] == 92u8 && v[l - 1] == 110u8) {
                                v.push(32u8);
                            }
                        } else if t > 1 {
                            let mut k: usize = 1;
                            while k < t
                                invariant
                                    1 <= k <= t,
                                    v@ == w + line_breaks(k - 1),
                                decreases t - k,
                            {
                                v.push(10u8);
                                k = k + 1;
                                proof {
                                    assert(v@ =~= w + line_breaks(k - 1));
                                }
                            }
                        }
                        proof {
                            if t == 0 {
                                assert(v@ == w);
                            }
                        }
                        let _ = self.ws(TakeOpt::More(0));
                        proof {
                            super::grammar::lemma_run_end_props(d, f, 0);
                        }
                        continue;
                    },
                    Err(_) => {
                        self.pos = start;
                        return Err(PError::Mismatch);
                    },
                }
            } else if self.doc[at] == 92u8 {
                proof {
                    first = false;
                }
                v.push(92u8);
                self.pos = at + 1;
            } else {
                assert(self.doc@[at as int] == sym);
                self.pos = at + 1;
                break;
            }
        }
        Ok(lossy_string(v.as_slice()))
    }

    /// Match plain string: it stops before `: `, ` #`, a line that is not indented to
    /// `level` or that starts a document marker, and, in a flow (`inner`), before `,[]{}`.
    /// A single line break folds to a space, more keep all but one. The trailing blanks are
    /// dropped; an empty string mismatches.
    pub fn string_plain(&mut self, level: usize, inner: bool) -> (r: PResult<String>)
        requires
            old(self).wf(),
        ensures
            final(self).keeps(old(self)),
            final(self).indent@.len() >= 1,
            r is Ok ==> old(self).pos < final(self).pos,
            r is Err ==> r->Err_0 is Mismatch && final(self).pos == old(self).pos,
            !plain_start(old(self).doc@, old(self).pos as int, inner) ==> r is Err,
            plain_start(old(self).doc@, old(self).pos as int, inner) && old(self).doc@[old(self).pos as int] != 11u8 ==> r is Ok,
            r matches Ok(s) ==> ({
                let d = old(self).doc@;
                let p = old(self).pos as int;
                let j = plain_stop(d, p, p, inner);
                ||| s@ == lossy_text(trim_end(d.subrange(p, j))) && final(self).pos == j
                ||| j < d.len() && (d[j] == 10u8 || d[j] == 13u8) && final(self).pos > j
            }),
            final(self).indent@ == old(self).indent@ || final(self).indent@ == levels_set(old(self).indent@, level as int),
            r is Ok && final(self).indent@ != old(self).indent@ ==> exists|i: int| old(self).pos <= i <= final(self).pos
                && i < old(self).doc@.len() && #[trigger] is_nl(old(self).doc@[i]),
            ({
                let d = old(self).doc@;
                let p = old(self).pos as int;
                let res = plain_rest(d, p, inner, sum_widths(levels_set(old(self).indent@, level as int), level + 1), seq![]);
                if !plain_refused(d, p, inner) && trim_end(res.0).len() > 0 {
                    r matches Ok(s) && s@ == lossy_text(trim_end(res.0)) && final(self).pos == res.1
                } else {
                    r is Err
                }
            }),
    {
        let start = self.pos;
        let n = self.doc.len();
        if self.pos < n {
            let c = self.doc[self.pos];
            if c == 32u8 || c == 9u8 || c == 12u8 || c == 10u8 || c == 13u8 || c == 35u8 {
                return Err(PError::Mismatch);
            }
            if !inner && (c == 91u8 || c == 93u8 || c == 123u8 || c == 125u8) {
                return Err(PError::Mismatch);
            }
        }
        let mut v: Vec<u8> = Vec::new();
        let ghost d = old(self).doc@;
        let ghost j = plain_stop(d, start as int, start as int, inner);
        let ghost mut folded = false;
        let ghost wd = sum_widths(levels_set(old(self).indent@, level as int), level + 1);
        let ghost pr = plain_rest(d, start as int, inner, wd, seq![]);
        loop
            invariant_except_break
                pr == plain_rest(d, self.pos as int, inner, wd, v@),
            invariant
                self.indent@ == old(self).indent@ || self.indent@ == levels_set(old(self).indent@, level as int),
                self.indent@ != old(self).indent@ ==> exists|i: int| start <= i <= self.pos && i < n && #[trigger] is_nl(d[i]),
                wd == sum_widths(levels_set(old(self).indent@, level as int), level + 1),
                pr == plain_rest(d, start as int, inner, wd, seq![]),
                self.keeps(old(self)),
                self.indent@.len() >= 1,
                start == old(self).pos,
                start <= self.pos <= n,
                d == self.doc@,
                j == plain_stop(d, start as int, start as int, inner),
                !folded ==> v@ == d.subrange(start as int, self.pos as int)
                    && plain_stop(d, start as int, self.pos as int, inner) == j,
                folded ==> j < n && (d[j] == 10u8 || d[j] == 13u8) && self.pos > j,
                n == self.doc@.len(),
                v@.len() > 0 ==> start < self.pos,
                v@.len() == 0 ==> self.pos == start,
                v@.len() > 0 ==> plain_start(self.doc@, start as int, inner),
                v@.len() > 0 && self.doc@[start as int] != 11u8 ==> !is_trim_space(v@[0]),
                start < n ==> !(self.doc@[start as int] == 32u8 || self.doc@[start as int] == 9u8
                    || self.doc@[start as int] == 12u8 || self.doc@[start as int] == 10u8
                    || self.doc@[start as int] == 13u8 || self.doc@[start as int] == 35u8),
                start < n && !inner ==> !(self.doc@[start as int] == 91u8 || self.doc@[start as int] == 93u8
                    || self.doc@[start as int] == 123u8 || self.doc@[start as int] == 125u8),
            ensures
                v@.len() == 0 ==> !plain_start(self.doc@, start as int, inner),
                !folded ==> v@ == d.subrange(start as int, self.pos as int) && self.pos == j,
                folded ==> j < n && (d[j] == 10u8 || d[j] == 13u8) && self.pos > j,
                pr == (v@, self.pos as int),
            decreases n - self.pos,
        {
            if self.pos == n {
                break;
            }
            let c = self.doc[self.pos];
            if c == 58u8 {
                let next = self.pos + 1;
                if next == n {
                    break;
                }
                let d = self.doc[next];
                if d == 32u8 || d == 9u8 || d == 12u8 || d == 10u8 || d == 13u8 {
                    break;
                }
                if inner && (d == 44u8 || d == 91u8 || d == 93u8 || d == 123u8 || d == 125u8) {
                    break;
                }
            }
            if c == 35u8 && v.len() > 0 && (v[v.len() - 1] == 32u8 || v[v.len() - 1] == 9u8) {
                break;
            }
            if inner && (c == 44u8 || c == 91u8 || c == 93u8 || c == 123u8 || c == 125u8) {
                break;
            }
            if c == 10u8 || c == 13u8 {
                let save = self.pos;
                match self.gap(false) {
                    Ok(t) => {
                        let line = self.pos;
                        proof {
                            super::grammar::lemma_levels_set_twice(old(self).indent@, level as int);
                        }
                        let marker = self.at_doc_marker();
                        if !marker && self.ind(level).is_ok() && self.pos < n && self.doc[self.pos] != 10u8
                            && self.doc[self.pos] != 13u8 && self.doc[self.pos] != 35u8 && v.len() > 0 {
                            let ghost v0 = v@;
                            trim_end_vec(&mut v);
                            proof {
                                if self.doc@[start as int] != 11u8 {
                                    lemma_trim_end_first(v0);
                                }
                            }
                            let ghost vt = v@;
                            if t == 1 {
                                v.push(32u8);
                            } else {
                                let mut k: usize = 1;
                                while k < t
                                    invariant
                                        1 <= k <= t,
                                        v@.len() >= vt.len(),
                                        vt.len() > 0 ==> v@[0] == vt[0],
                                        k > 1 ==> v@.len() > 0,
                                        v@ == vt + line_breaks(k - 1),
                                    decreases t - k,
                                {
                                    v.push(10u8);
                                    k = k + 1;
                                    proof {
                                        assert(v@ =~= vt + line_breaks(k - 1));
                                    }
                                }
                            }
                            let ghost fw = self.pos as int;
                            let _ = self.ws(TakeOpt::More(0));
                            proof {
                                super::grammar::lemma_run_end_props(d, fw, 0);
                            }
                            proof {
                                if !folded {
                                    assert(plain_stop_at(d, start as int, save as int, inner));
                                }
                                folded = true;
                            }
                            continue;
                        }
                        self.pos = save;
                        break;
                    },
                    Err(_) => {
                        self.pos = save;
                        break;
                    },
                }
            }
            let ghost before = v@;
            v.push(c);
            self.pos = self.pos + 1;
            proof {
                if !folded {
                    assert(!plain_stop_at(d, start as int, self.pos - 1, inner));
                    assert(v@ =~= d.subrange(start as int, self.pos as int));
                }
            }
        }
        let ghost v0 = v@;
        trim_end_vec(&mut v);
        proof {
            if v0.len() > 0 && self.doc@[start as int] != 11u8 {
                lemma_trim_end_first(v0);
            }
        }
        if v.len() == 0 {
            self.pos = start;
            return Err(PError::Mismatch);
        }
        Ok(lossy_string(v.as_slice()))
    }

    /// A document marker, `---` or `...`, stands at the cursor, followed by a blank, a
    /// newline or the end.
    pub fn at_doc_marker(&self) -> (b: bool)
        requires
            self.wf(),
        ensures
            b == doc_marker_at(self.doc@, self.pos as int),
    {
        let n = self.doc.len();
        let p = self.pos;
        if n - p < 3 {
            return false;
        }
        let c = self.doc[p];
        if !((c == 45u8 || c == 46u8) && self.doc[p + 1] == c && self.doc[p + 2] == c) {
            return false;
        }
        if p + 3 == n {
            return true;
        }
        let d = self.doc[p + 3];
        d == 32u8 || d == 9u8 || d == 10u8 || d == 13u8
    }

    /// Match flow string and give the content: single quoted, double quoted (escaped), or
    /// plain.
    pub fn string_flow(&mut self, level: usize, inner: bool) -> (r: PResult<String>)
        requires
            old(self).wf(),
        ensures
            final(self).keeps(old(self)),
            final(self).indent@.len() >= 1,
            r is Ok ==> old(self).pos < final(self).pos,
            r is Err ==> r->Err_0 is Mismatch && final(self).pos == old(self).pos,
            !plain_start(old(self).doc@, old(self).pos as int, inner) ==> r is Err,
            plain_start(old(self).doc@, old(self).pos as int, inner) && old(self).doc@[old(self).pos as int] != 11u8 ==> r is Ok,
            simple_quoted(old(self).doc@, old(self).pos as int, 39u8, seq![39u8, 39u8]) matches Some(q) ==> (r matches Ok(s)
                && s@ == lossy_text(old(self).doc@.subrange(old(self).pos + 1, q)) && final(self).pos == q + 1),
    {
        let q1: Vec<u8> = vec![39u8, 39u8];
        let q2: Vec<u8> = vec![92u8, 34u8];
        proof {
            assert(q1@ =~= seq![39u8, 39u8]);
        }
        if let Ok(s) = self.string_quoted(39u8, q1.as_slice()) {
            Ok(s)
        } else if let Ok(s) = self.string_quoted(34u8, q2.as_slice()) {
            Ok(Self::escape(s.as_str()))
        } else if let Ok(s) = self.string_plain(level, inner) {
            Ok(s)
        } else {
            Err(PError::Mismatch)
        }
    }

    /// Match chomping option: `-` strips, `+` keeps, none clips.
    pub fn chomp(&mut self) -> (c: Chomp)
        requires
            old(self).wf(),
        ensures
            final(self).keeps(old(self)),
            final(self).indent == old(self).indent,
            ({
                let d = old(self).doc@;
                let p = old(self).pos as int;
                if p < d.len() && d[p] == 45u8 {
                    c is Strip && final(self).pos == p + 1
                } else if p < d.len() && d[p] == 43u8 {
                    c is Keep && final(self).pos == p + 1
                } else {
                    c is Clip && final(self).pos == p
                }
            }),
    {
        if self.pos < self.doc.len() && self.doc[self.pos] == 45u8 {
            self.pos = self.pos + 1;
            Chomp::Strip
        } else if self.pos < self.doc.len() && self.doc[self.pos] == 43u8 {
            self.pos = self.pos + 1;
            Chomp::Keep
        } else {
            Chomp::Clip
        }
    }

    /// Match the lines of a block string, indented to `level`: with `leading`, the lines
    /// are joined with `sep` as they are; else their leading blanks are dropped and `sep`
    /// joins them unless the text so far ends with white space. A blank line adds a line
    /// break. The cursor stays at the line break before the first line that is not part of
    /// the block. Gives the text with a line break at the end.
    pub fn string_wrapped(&mut self, level: usize, sep: u8, leading: bool) -> (r: PResult<String>)
        requires
            old(self).wf(),
        ensures
            final(self).keeps(old(self)),
            final(self).indent@.len() >= 1,
            r is Ok ==> old(self).pos <= final(self).pos,
            r is Err ==> r->Err_0 is Mismatch && final(self).pos == old(self).pos,
            r matches Ok(s) && (exists|v: Seq<u8>| s@ == lossy_text(v) && wrapped_shape(old(self).doc@, old(self).pos as int, v)),
            nl_len(old(self).doc@, old(self).pos as int) == 0 ==> final(self).pos == old(self).pos,
            ({
                let res = wrapped_rest(old(self).doc@, old(self).pos as int,
                    sum_widths(levels_set(old(self).indent@, level as int), level + 1), sep, leading, seq![]);
                r matches Ok(s) && s@ == lossy_text(res.0.push(10u8)) && final(self).pos == res.1
            }),
    {
        match self.wrapped_bytes(level, sep, leading) {
            Ok(v) => {
                let s = lossy_string(v.as_slice());
                assert(s@ == lossy_text(v@) && wrapped_shape(old(self).doc@, old(self).pos as int, v@));
                Ok(s)
            },
            Err(e) => Err(e),
        }
    }

    fn wrapped_bytes(&mut self, level: usize, sep: u8, leading: bool) -> (r: PResult<Vec<u8>>)
        requires
            old(self).wf(),
        ensures
            final(self).keeps(old(self)),
            final(self).indent@.len() >= 1,
            r is Ok ==> old(self).pos <= final(self).pos,
            r is Err ==> r->Err_0 is Mismatch && final(self).pos == old(self).pos,
            r matches Ok(v) && wrapped_shape(old(self).doc@, old(self).pos as int, v@),
            nl_len(old(self).doc@, old(self).pos as int) == 0 ==> final(self).pos == old(self).pos,
            ({
                let res = wrapped_rest(old(self).doc@, old(self).pos as int,
                    sum_widths(levels_set(old(self).indent@, level as int), level + 1), sep, leading, seq![]);
                r matches Ok(v) && v@ == res.0.push(10u8) && final(self).pos == res.1
            }),
    {
        let start = self.pos;
        let n = self.doc.len();
        let mut v: Vec<u8> = Vec::new();
        let ghost d = old(self).doc@;
        let ghost blank1 = nl_len(d, start as int) > 0 && start + nl_len(d, start as int) < n
            && is_nl(d[start + nl_len(d, start as int)]);
        let ghost mut first = true;
        let ghost wd = sum_widths(levels_set(old(self).indent@, level as int), level + 1);
        let ghost wr = wrapped_rest(d, start as int, wd, sep, leading, seq![]);
        loop
            invariant_except_break
                wr == wrapped_rest(d, self.pos as int, wd, sep, leading, v@),
            invariant
                self.keeps(old(self)),
                self.indent@.len() >= 1,
                start == old(self).pos,
                start <= self.pos <= n,
                n == self.doc@.len(),
                d == self.doc@,
                blank1 == (nl_len(d, start as int) > 0 && start + nl_len(d, start as int) < n
                    && is_nl(d[start + nl_len(d, start as int)])),
                first ==> self.pos == start && v@.len() == 0,
                !first ==> nl_len(d, start as int) > 0,
                blank1 && !first ==> v@.len() >= 1 && v@[0] == 10u8,
                self.indent@ == old(self).indent@ || self.indent@ == levels_set(old(self).indent@, level as int),
                wr == wrapped_rest(d, start as int, wd, sep, leading, seq![]),
                wd == sum_widths(levels_set(old(self).indent@, level as int), level + 1),
            ensures
                blank1 ==> !first,
                wr == (v@, self.pos as int),
            decreases n - self.pos,
        {
            let save = self.pos;
            if self.nl().is_err() {
                break;
            }
            let line = self.pos;
            proof {
                super::grammar::lemma_levels_set_twice(old(self).indent@, level as int);
            }
            if self.ind(level).is_ok() && self.pos < n && self.doc[self.pos] != 10u8 && self.doc[self.pos] != 13u8 {
                let from = self.pos;
                while self.pos < n && self.doc[self.pos] != 10u8 && self.doc[self.pos] != 13u8
                    invariant
                        self.keeps(old(self)),
                        self.indent@.len() >= 1,
                        start <= from <= self.pos <= n,
                        n == self.doc@.len(),
                        d == self.doc@,
                        forall|i: int| from <= i < self.pos ==> in_class(2, #[trigger] d[i]),
                        self.indent@ == old(self).indent@ || self.indent@ == levels_set(old(self).indent@, level as int),
                    decreases n - self.pos,
                {
                    self.pos = self.pos + 1;
                }
                proof {
                    super::grammar::lemma_run_end(d, from as int, self.pos as int, 2);
                }
                let mut a = from;
                if !leading {
                    while a < self.pos && (self.doc[a] == 32u8 || self.doc[a] == 9u8)
                        invariant
                            from <= a <= self.pos <= n,
                            n == self.doc@.len(),
                            d == self.doc@,
                            forall|i: int| from <= i < a ==> in_class(8, #[trigger] d[i]),
                        decreases self.pos - a,
                    {
                        a = a + 1;
                    }
                    proof {
                        super::grammar::lemma_run_end(d, from as int, a as int, 8);
                    }
                    if v.len() > 0 && !(v[v.len() - 1] == 32u8 || v[v.len() - 1] == 9u8 || v[v.len() - 1] == 10u8
                        || v[v.len() - 1] == 13u8 || v[v.len() - 1] == 12u8 || v[v.len() - 1] == 11u8) {
                        v.push(sep);
                    }
                } else if v.len() > 0 {
                    v.push(sep);
                }
                crate::text::push_range(&mut v, self.doc, a, self.pos);
                proof {
                    first = false;
                }
                continue;
            }
            self.pos = line;
            let _ = self.ws(TakeOpt::More(0));
            if self.pos < n && (self.doc[self.pos] == 10u8 || self.doc[self.pos] == 13u8) {
                v.push(10u8);
                proof {
                    first = false;
                }
                continue;
            }
            self.pos = save;
            break;
        }
        let ghost v0 = v@;
        v.push(10u8);
        proof {
            if first {
                assert(v@ =~= seq![10u8]);
            } else if blank1 {
                assert(v@[0] == v0[0]);
            }
        }
        Ok(v)
    }

    /// Match literal string: `|`, a chomping option, blanks, and the lines joined with line
    /// breaks.
    pub fn string_literal(&mut self, level: usize) -> (r: PResult<String>)
        requires
            old(self).wf(),
        ensures
            final(self).keeps(old(self)),
            final(self).indent@.len() >= 1,
            r is Ok ==> old(self).pos < final(self).pos && old(self).doc@[old(self).pos as int] == 124u8,
            r is Err ==> r->Err_0 is Mismatch && final(self).pos == old(self).pos,
            r is Ok <==> (old(self).pos < old(self).doc@.len() && old(self).doc@[old(self).pos as int] == 124u8),
            r matches Ok(s) ==> exists|v: Seq<u8>| v.len() >= 1 && v.last() == 10u8
                && s@ == lossy_text(chomp_spec(chomp_at(old(self).doc@, old(self).pos + 1), v)),
            ({
                let d = old(self).doc@;
                let p = old(self).pos as int;
                let res = wrapped_rest(d, block_body(d, p), sum_widths(levels_set(old(self).indent@, level as int), level + 1),
                    10u8, true, seq![]);
                p < d.len() && d[p] == 124u8 ==> (r matches Ok(s) && s@ == lossy_text(chomp_spec(chomp_at(d, p + 1), res.0.push(10u8)))
                    && final(self).pos == res.1)
            }),
            r is Err ==> final(self).indent == old(self).indent,
    {
        self.block_string(124u8, level, 10u8, true)
    }

    /// Match folded string: `>`, a chomping option, blanks, and the lines joined with
    /// spaces.
    pub fn string_folded(&mut self, level: usize) -> (r: PResult<String>)
        requires
            old(self).wf(),
        ensures
            final(self).keeps(old(self)),
            final(self).indent@.len() >= 1,
            r is Ok ==> old(self).pos < final(self).pos && old(self).doc@[old(self).pos as int] == 62u8,
            r is Err ==> r->Err_0 is Mismatch && final(self).pos == old(self).pos,
            r is Ok <==> (old(self).pos < old(self).doc@.len() && old(self).doc@[old(self).pos as int] == 62u8),
            r matches Ok(s) ==> exists|v: Seq<u8>| v.len() >= 1 && v.last() == 10u8
                && s@ == lossy_text(chomp_spec(chomp_at(old(self).doc@, old(self).pos + 1), v)),
            ({
                let d = old(self).doc@;
                let p = old(self).pos as int;
                let res = wrapped_rest(d, block_body(d, p), sum_widths(levels_set(old(self).indent@, level as int), level + 1),
                    32u8, false, seq![]);
                p < d.len() && d[p] == 62u8 ==> (r matches Ok(s) && s@ == lossy_text(chomp_spec(chomp_at(d, p + 1), res.0.push(10u8)))
                    && final(self).pos == res.1)
            }),
            r is Err ==> final(self).indent == old(self).indent,
    {
        self.block_string(62u8, level, 32u8, false)
    }

    fn block_string(&mut self, ind: u8, level: usize, sep: u8, leading: bool) -> (r: PResult<String>)
        requires
            old(self).wf(),
        ensures
            final(self).keeps(old(self)),
            final(self).indent@.len() >= 1,
            r is Ok ==> old(self).pos < final(self).pos && old(self).doc@[old(self).pos as int] == ind,
            r is Err ==> r->Err_0 is Mismatch && final(self).pos == old(self).pos,
            r is Ok <==> (old(self).pos < old(self).doc@.len() && old(self).doc@[old(self).pos as int] == ind),
            r matches Ok(s) ==> exists|v: Seq<u8>| v.len() >= 1 && v.last() == 10u8
                && s@ == lossy_text(chomp_spec(chomp_at(old(self).doc@, old(self).pos + 1), v)),
            ({
                let d = old(self).doc@;
                let p = old(self).pos as int;
                let res = wrapped_rest(d, block_body(d, p), sum_widths(levels_set(old(self).indent@, level as int), level + 1),
                    sep, leading, seq![]);
                p < d.len() && d[p] == ind ==> (r matches Ok(s) && s@ == lossy_text(chomp_spec(chomp_at(d, p + 1), res.0.push(10u8)))
                    && final(self).pos == res.1)
            }),
            r is Err ==> final(self).indent == old(self).indent,
    {
        let start = self.pos;
        if !(self.pos < self.doc.len() && self.doc[self.pos] == ind) {
            return Err(PError::Mismatch);
        }
        self.pos = self.pos + 1;
        let c = self.chomp();
        let _ = self.ws(TakeOpt::More(0));
        let _ = self.comment();
        match self.wrapped_bytes(level, sep, leading) {
            Ok(v) => {
                let v = c.apply(v);
                Ok(lossy_string(v.as_slice()))
            },
            Err(e) => {
                self.pos = start;
                Err(e)
            },
        }
    }
}

} // verus!
