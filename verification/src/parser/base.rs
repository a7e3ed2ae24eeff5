//! The cursor of the parser and the sub-parsers that match bytes.
use super::{PError, PResult, Parser};
use crate::anchors::anchors_new;
use crate::text::{lossy_string, push_all, lossy_text};
use vstd::prelude::*;

verus! {

/// The option of [`Parser::take_while`].
pub enum TakeOpt {
    /// Match once.
    One,
    /// Match in range. Same as regex `{a,b}`.
    /// `Range(0, 1)` is same as regex `?`.
    Range(usize, usize),
    /// Match until mismatched.
    /// `More(0)` is same as regex `*`, and `More(1)` is same as regex `+`.
    More(usize),
}

/// The fewest matches that [`TakeOpt`] asks for.
pub open spec fn take_min(opt: TakeOpt) -> nat {
    match opt {
        TakeOpt::One => 1,
        TakeOpt::Range(a, _) => a as nat,
        TakeOpt::More(a) => a as nat,
    }
}

/// The count at which [`TakeOpt`] stops matching, if any: one match for `One`, the upper
/// bound `b` for `Range(_, b)`.
pub open spec fn take_stop(opt: TakeOpt, k: int) -> bool {
    match opt {
        TakeOpt::One => k == 1,
        TakeOpt::Range(_, b) => k == b,
        TakeOpt::More(_) => false,
    }
}

/// A count of matches that [`TakeOpt`] allows at most: one for `One`, `b` for `Range(_, b)`.
pub open spec fn take_within(opt: TakeOpt, k: int) -> bool {
    match opt {
        TakeOpt::One => k <= 1,
        TakeOpt::Range(_, b) => k <= b,
        TakeOpt::More(_) => true,
    }
}

/// `c` is in the set `s`.
pub open spec fn in_set(s: Seq<u8>, c: u8) -> bool {
    s.contains(c)
}

/// A SET detector.
pub fn is_in(s: &[u8], c: &u8) -> (r: bool)
    ensures
        r == in_set(s@, *c),
{
    !not_in(s, c)
}

/// A NOT detector.
pub fn not_in(s: &[u8], c: &u8) -> (r: bool)
    ensures
        r == !in_set(s@, *c),
{
    let mut i: usize = 0;
    while i < s.len()
        invariant
            i <= s@.len(),
            forall|k: int| 0 <= k < i ==> s@[k] != *c,
        decreases s@.len() - i,
    {
        if s[i] == *c {
            assert(s@[i as int] == *c);
            return false;
        }
        i = i + 1;
    }
    true
}

impl<'a> Parser<'a> {
    /// Create a parser with the string.
    pub fn new(doc: &'a [u8]) -> (p: Self)
        ensures
            p.wf(),
            p.doc@ == doc@,
            p.pos == 0,
            p.eaten == 0,
            p.consumed == 0,
            p.indent@ == seq![0usize],
            !p.version_checked,
            !p.keep_alias,
            p.tag@.len() == 2,
            p.tag@[0].0@ == seq![33u8] && p.tag@[0].1@.len() == 0,
            p.tag@[1].0@ == seq![33u8, 33u8] && p.tag@[1].1@ == crate::text::tag_prefix_bytes(),
            crate::anchors::anchor_entries(p.anchors).len() == 0,
    {
        let _n: usize = doc.len();
        let mut tag: Vec<(Vec<u8>, Vec<u8>)> = Vec::new();
        tag.push((vec![33u8], Vec::new()));
        tag.push((vec![33u8, 33u8], crate::text::tag_prefix_vec()));
        Parser {
            doc,
            indent: vec![0usize],
            consumed: 0,
            version_checked: false,
            tag,
            pos: 0,
            eaten: 0,
            anchors: anchors_new(),
            keep_alias: false,
        }
    }

    /// Attach document on the parser.
    pub fn with_doc(self, doc: &'a [u8]) -> (p: Self)
        ensures
            p.doc@ == doc@,
            p.pos == self.pos,
            p.eaten == self.eaten,
            p.consumed == self.consumed,
            p.indent == self.indent,
            p.tag == self.tag,
    {
        Parser { doc, ..self }
    }

    /// Show the right hand side string after the current cursor.
    pub fn food(&self) -> (f: &'a [u8])
        requires
            self.wf(),
        ensures
            f@ == self.doc@.subrange(self.pos as int, self.doc@.len() as int),
    {
        &self.doc[self.pos..self.doc.len()]
    }

    /// Decoded version of the left characters.
    pub fn food_str(&self) -> (s: String)
        requires
            self.wf(),
        ensures
            s@ == lossy_text(self.doc@.subrange(self.pos as int, self.doc@.len() as int)),
    {
        lossy_string(&self.doc[self.pos..self.doc.len()])
    }

    /// Get the text from the eaten cursor to the current position.
    pub fn text(&self) -> (s: String)
        requires
            self.wf(),
            self.eaten <= self.pos,
        ensures
            s@ == lossy_text(self.doc@.subrange(self.eaten as int, self.pos as int)),
    {
        lossy_string(&self.doc[self.eaten..self.pos])
    }

    /// The bytes from the eaten cursor to the current position.
    pub fn text_bytes(&self) -> (s: Vec<u8>)
        requires
            self.wf(),
            self.eaten <= self.pos,
        ensures
            s@ == self.doc@.subrange(self.eaten as int, self.pos as int),
    {
        let mut v: Vec<u8> = Vec::new();
        push_all(&mut v, &self.doc[self.eaten..self.pos]);
        v
    }

    /// Set the starting point.
    pub fn pos(self, pos: usize) -> (p: Self)
        requires
            self.wf(),
            pos <= self.doc@.len(),
        ensures
            p.wf(),
            p.same_doc(&self),
            p.pos == pos,
            p.eaten == pos,
            p.indent == self.indent,
    {
        Parser { pos, eaten: pos, ..self }
    }

    /// Get the indicator: the position counted from the start of the whole input.
    pub fn indicator(&self) -> (i: u64)
        requires
            self.wf(),
        ensures
            i == self.consumed + self.pos,
    {
        self.consumed + self.pos as u64
    }

    /// Consume the eaten part: the indicator keeps its value, the cursors go to zero.
    pub fn consume(&mut self)
        requires
            old(self).wf(),
            old(self).consumed + old(self).pos + old(self).doc@.len() <= u64::MAX,
        ensures
            final(self).wf(),
            final(self).doc@ == old(self).doc@,
            final(self).consumed == old(self).consumed + old(self).pos,
            final(self).pos == 0,
            final(self).eaten == 0,
            final(self).indent == old(self).indent,
    {
        self.forward();
        self.consumed = self.consumed + self.eaten as u64;
        self.eaten = 0;
        self.backward();
    }

    /// Moves the checkpoint to the cursor.
    pub fn forward(&mut self)
        ensures
            old(self).wf() ==> final(self).wf(),
            final(self).same_doc(old(self)),
            final(self).pos == old(self).pos,
            final(self).eaten == old(self).pos,
            final(self).indent == old(self).indent,
            final(self).tag == old(self).tag,
            final(self).anchors == old(self).anchors,
            final(self).version_checked == old(self).version_checked,
    {
        self.eaten = self.pos;
    }

    /// Moves the cursor back to the checkpoint.
    pub fn backward(&mut self)
        requires
            old(self).wf(),
        ensures
            final(self).wf(),
            final(self).same_doc(old(self)),
            final(self).pos == old(self).eaten,
            final(self).eaten == old(self).eaten,
            final(self).indent == old(self).indent,
            final(self).tag == old(self).tag,
            final(self).anchors == old(self).anchors,
            final(self).version_checked == old(self).version_checked,
    {
        self.pos = self.eaten;
    }

    /// Move back the cursor by `n`, not past the checkpoint.
    pub fn back(&mut self, n: usize)
        requires
            old(self).wf(),
            n <= old(self).pos,
        ensures
            final(self).wf(),
            final(self).same_doc(old(self)),
            final(self).pos == old(self).pos - n,
            final(self).eaten == old(self).eaten,
            final(self).indent == old(self).indent,
            final(self).tag == old(self).tag,
            final(self).anchors == old(self).anchors,
            final(self).version_checked == old(self).version_checked,
    {
        self.pos = self.pos - n;
    }

    /// Match symbol.
    pub fn sym(&mut self, s: u8) -> (r: PResult<()>)
        requires
            old(self).wf(),
        ensures
            final(self).keeps(old(self)),
            final(self).indent == old(self).indent,
            (old(self).pos < old(self).doc@.len() && old(self).doc@[old(self).pos as int] == s) ==> r is Ok && final(self).pos == old(self).pos + 1,
            !(old(self).pos < old(self).doc@.len() && old(self).doc@[old(self).pos as int] == s) ==> r is Err && r->Err_0 is Mismatch && final(self).pos == old(self).eaten,
    {
        if self.pos < self.doc.len() && self.doc[self.pos] == s {
            self.pos = self.pos + 1;
            Ok(())
        } else {
            self.backward();
            Err(PError::Mismatch)
        }
    }

    /// Match symbol set.
    pub fn sym_set(&mut self, s: &[u8]) -> (r: PResult<()>)
        requires
            old(self).wf(),
        ensures
            final(self).keeps(old(self)),
            final(self).indent == old(self).indent,
            (old(self).pos < old(self).doc@.len() && in_set(s@, old(self).doc@[old(self).pos as int])) ==> r is Ok && final(self).pos == old(self).pos + 1,
            !(old(self).pos < old(self).doc@.len() && in_set(s@, old(self).doc@[old(self).pos as int])) ==> r is Err && r->Err_0 is Mismatch && final(self).pos == old(self).eaten,
    {
        if self.pos < self.doc.len() && is_in(s, &self.doc[self.pos]) {
            self.pos = self.pos + 1;
            Ok(())
        } else {
            self.backward();
            Err(PError::Mismatch)
        }
    }

    /// Match symbol sequence.
    pub fn sym_seq(&mut self, s: &[u8]) -> (r: PResult<()>)
        requires
            old(self).wf(),
        ensures
            final(self).keeps(old(self)),
            final(self).indent == old(self).indent,
            is_prefix_at(old(self).doc@, old(self).pos as int, s@) ==> r is Ok && final(self).pos == old(self).pos + s@.len(),
            !is_prefix_at(old(self).doc@, old(self).pos as int, s@) ==> r is Err && r->Err_0 is Mismatch && final(self).pos == old(self).eaten,
    {
        let mut i: usize = 0;
        while i < s.len()
            invariant
                self.keeps(old(self)),
                self.indent == old(self).indent,
                i <= s@.len(),
                self.pos == old(self).pos + i,
                is_prefix_at(old(self).doc@, old(self).pos as int, s@.subrange(0, i as int)),
            decreases s@.len() - i,
        {
            let r = self.sym(s[i]);
            if r.is_err() {
                proof {
                    assert(!is_prefix_at(old(self).doc@, old(self).pos as int, s@)) by {
                        if is_prefix_at(old(self).doc@, old(self).pos as int, s@) {
                            assert(old(self).doc@[old(self).pos + i] == s@[i as int]);
                        }
                    }
                }
                return r;
            }
            i = i + 1;
            proof {
                assert forall|k: int| 0 <= k < i implies old(self).pos + k < old(self).doc@.len()
                    && old(self).doc@[old(self).pos + k] == #[trigger] s@.subrange(0, i as int)[k] by {
                    if k < i - 1 {
                        assert(s@.subrange(0, i - 1)[k] == s@.subrange(0, i as int)[k]);
                    }
                }
            }
        }
        assert(s@.subrange(0, s@.len() as int) =~= s@);
        Ok(())
    }

    /// Match until the condition failed.
    ///
    /// The argument `opt` matches different terminate requirement: the run stops after one
    /// byte for `One` and after `b` bytes for `Range(_, b)`; the matched bytes must be at
    /// least [`take_min`] of them, else the cursor goes back to the checkpoint.
    pub fn take_while<F: Fn(&u8) -> bool>(&mut self, f: F, opt: TakeOpt) -> (r: PResult<()>)
        requires
            old(self).wf(),
            forall|c: &u8| #[trigger] f.requires((c,)),
        ensures
            final(self).keeps(old(self)),
            final(self).indent == old(self).indent,
            take_min(opt) == 0 ==> r is Ok,
            r is Ok ==> final(self).pos >= old(self).pos + take_min(opt)
                && run_of(f, old(self).doc@, old(self).pos as int, final(self).pos as int)
                && run_stops(f, old(self).doc@, final(self).pos as int, opt, final(self).pos - old(self).pos)
                && take_within(opt, final(self).pos - old(self).pos),
            r is Err ==> r->Err_0 is Mismatch && final(self).pos == old(self).eaten && exists|q: int|
                old(self).pos <= q < old(self).pos + take_min(opt) && q <= old(self).doc@.len()
                && run_of(f, old(self).doc@, old(self).pos as int, q)
                && run_stops(f, old(self).doc@, q, opt, q - old(self).pos)
                && take_within(opt, q - old(self).pos),
    {
        let start: usize = self.pos;
        let n: usize = self.doc.len();
        let mut counter: usize = 0;
        let mut done = match opt {
            TakeOpt::Range(_, b) => b == 0,
            _ => false,
        };
        while !done && self.pos < n
            invariant
                self.keeps(old(self)),
                self.indent == old(self).indent,
                n == self.doc@.len(),
                forall|c: &u8| #[trigger] f.requires((c,)),
                start == old(self).pos,
                start <= self.pos,
                counter == self.pos - start,
                run_of(f, old(self).doc@, start as int, self.pos as int),
                done ==> run_stops(f, old(self).doc@, self.pos as int, opt, counter as int),
                !done ==> !take_stop(opt, counter as int),
                take_within(opt, counter as int),
                (opt is One && !done) ==> counter == 0,
            decreases n - self.pos + (if done { 0int } else { 1int }),
        {
            let c: u8 = self.doc[self.pos];
            let ok = f(&c);
            assert(c == old(self).doc@[self.pos as int]);
            if !ok {
                assert(f.ensures((&old(self).doc@[self.pos as int],), false));
                done = true;
            } else {
                self.pos = self.pos + 1;
                counter = counter + 1;
                match opt {
                    TakeOpt::One => {
                        done = true;
                    },
                    TakeOpt::Range(_, b) => {
                        if counter == b {
                            done = true;
                        }
                    },
                    TakeOpt::More(_) => {},
                }
            }
        }
        let min: usize = match opt {
            TakeOpt::One => 1,
            TakeOpt::Range(a, _) => a,
            TakeOpt::More(a) => a,
        };
        if counter < min {
            self.backward();
            return Err(PError::Mismatch);
        }
        Ok(())
    }
}

/// Every byte of `doc` in `[p, q)` satisfies `f`.
pub open spec fn run_of<F: Fn(&u8) -> bool>(f: F, doc: Seq<u8>, p: int, q: int) -> bool {
    forall|i: int| p <= i < q ==> #[trigger] f.ensures((&doc[i],), true)
}

/// A run that ends at `q` has stopped: the document ends, the option stops at `k` matches,
/// or the byte at `q` does not satisfy `f`.
pub open spec fn run_stops<F: Fn(&u8) -> bool>(f: F, doc: Seq<u8>, q: int, opt: TakeOpt, k: int) -> bool {
    q >= doc.len() || take_stop(opt, k) || f.ensures((&doc[q],), false)
}

/// `s` stands in `doc` at index `p`.
pub open spec fn is_prefix_at(doc: Seq<u8>, p: int, s: Seq<u8>) -> bool {
    p + s.len() <= doc.len() && forall|k: int| 0 <= k < s.len() ==> doc[p + k] == #[trigger] s[k]
}

} // verus!
