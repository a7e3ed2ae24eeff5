//! Tags and the directives that name their prefixes.
use super::base::TakeOpt;
use super::base::is_prefix_at;
use super::grammar::{blank_end, gap_ok, in_class, is_blank, is_ident_byte, is_nl, lemma_run_end, line_end, run_end};
use super::{PError, PResult, Parser};
use crate::text::{bytes_equal, lossy_string, push_all, push_range};
use vstd::prelude::*;

verus! {

/// Index of the first tag handle equal to `h`.
pub open spec fn handle_index(t: Seq<(Vec<u8>, Vec<u8>)>, h: Seq<u8>, from: int) -> Option<int>
    decreases t.len() - from,
{
    if from < 0 || from >= t.len() {
        None
    } else if t[from].0@ == h {
        Some(from)
    } else {
        handle_index(t, h, from + 1)
    }
}

/// The tag table `new` is `old` with the prefix of handle `h` set to `p`: an existing
/// handle gets the new prefix, a new one is added at the end.
pub open spec fn tag_set(old: Seq<(Vec<u8>, Vec<u8>)>, new: Seq<(Vec<u8>, Vec<u8>)>, h: Seq<u8>, p: Seq<u8>) -> bool {
    match handle_index(old, h, 0) {
        Some(j) => new.len() == old.len() && new[j].0@ == h && new[j].1@ == p
            && forall|k: int| 0 <= k < old.len() && k != j ==> #[trigger] new[k] == old[k],
        None => new.len() == old.len() + 1 && new.last().0@ == h && new.last().1@ == p
            && forall|k: int| 0 <= k < old.len() ==> #[trigger] new[k] == old[k],
    }
}

/// The version `1.2` stands at `q`.
pub open spec fn known_version(d: Seq<u8>, q: int) -> bool {
    is_prefix_at(d, q, seq![49u8, 46u8, 50u8])
}

/// The bytes of `YAML`.
pub open spec fn yaml_word() -> Seq<u8> {
    seq![89u8, 65u8, 77u8, 76u8]
}

/// The bytes of `TAG`.
pub open spec fn tag_word() -> Seq<u8> {
    seq![84u8, 65u8, 71u8]
}

impl<'a> Parser<'a> {
    /// The prefix of a tag handle.
    pub fn tag_prefix_of(&self, h: &[u8]) -> (r: Option<Vec<u8>>)
        ensures
            match handle_index(self.tag@, h@, 0) {
                Some(j) => r matches Some(p) && p@ == self.tag@[j].1@,
                None => r is None,
            },
    {
        let mut j: usize = 0;
        while j < self.tag.len()
            invariant
                j <= self.tag@.len(),
                handle_index(self.tag@, h@, 0) == handle_index(self.tag@, h@, j as int),
            decreases self.tag@.len() - j,
        {
            if bytes_equal(self.tag[j].0.as_slice(), h) {
                let mut p: Vec<u8> = Vec::new();
                push_all(&mut p, self.tag[j].1.as_slice());
                return Some(p);
            }
            j = j + 1;
        }
        None
    }

    /// Sets the prefix of a tag handle: an existing handle gets the new prefix, a new one is
    /// added.
    pub fn set_tag_prefix(&mut self, h: Vec<u8>, p: Vec<u8>)
        requires
            old(self).wf(),
        ensures
            final(self).wf(),
            final(self).same_doc(old(self)),
            final(self).pos == old(self).pos,
            final(self).eaten == old(self).eaten,
            final(self).indent == old(self).indent,
            final(self).anchors == old(self).anchors,
            final(self).version_checked == old(self).version_checked,
            match handle_index(old(self).tag@, h@, 0) {
                Some(j) => final(self).tag@.len() == old(self).tag@.len() && final(self).tag@[j].0@ == h@
                    && final(self).tag@[j].1@ == p@
                    && forall|k: int| 0 <= k < old(self).tag@.len() && k != j ==> #[trigger] final(self).tag@[k] == old(self).tag@[k],
                None => final(self).tag@.len() == old(self).tag@.len() + 1
                    && final(self).tag@.last().0@ == h@ && final(self).tag@.last().1@ == p@
                    && forall|k: int| 0 <= k < old(self).tag@.len() ==> #[trigger] final(self).tag@[k] == old(self).tag@[k],
            },
    {
        let mut j: usize = 0;
        while j < self.tag.len()
            invariant
                self == old(self),
                self.wf(),
                j <= self.tag@.len(),
                handle_index(self.tag@, h@, 0) == handle_index(self.tag@, h@, j as int),
            decreases self.tag@.len() - j,
        {
            if bytes_equal(self.tag[j].0.as_slice(), h.as_slice()) {
                self.tag.set(j, (h, p));
                return;
            }
            j = j + 1;
        }
        self.tag.push((h, p));
    }

    /// Match a tag and give it with its prefix resolved: `!<verbatim>`, `!!suffix` (the
    /// `!!` prefix), `!name!suffix` (the prefix named `name`) or `!suffix` (the `!`
    /// prefix). An unknown named handle is an error.
    pub fn tag(&mut self) -> (r: PResult<String>)
        requires
            old(self).wf(),
        ensures
            final(self).keeps(old(self)),
            final(self).indent == old(self).indent,
            r is Ok ==> old(self).pos < final(self).pos && old(self).doc@[old(self).pos as int] == 33u8,
            r matches Err(e) && e is Mismatch ==> final(self).pos == old(self).pos,
            !(old(self).pos < old(self).doc@.len() && old(self).doc@[old(self).pos as int] == 33u8) ==> (r matches Err(e) && e is Mismatch),
            ({
                let d = old(self).doc@;
                let p = old(self).pos as int;
                let q = run_end(d, p + 2, 3);
                p + 1 < d.len() && d[p] == 33u8 && d[p + 1] == 60u8 ==> if q < d.len() && d[q] == 62u8 && q > p + 2 {
                    r matches Ok(s) && s@ == crate::text::lossy_text(d.subrange(p + 2, q)) && final(self).pos == q + 1
                } else {
                    r matches Err(e) && e is Mismatch
                }
            }),
            ({
                let d = old(self).doc@;
                let p = old(self).pos as int;
                p + 2 < d.len() && d[p] == 33u8 && d[p + 1] == 33u8 && super::grammar::is_alnum(d[p + 2])
                    ==> match handle_index(old(self).tag@, seq![33u8, 33u8], 0) {
                        Some(j) => r matches Ok(s) && exists|e: int| p + 2 < e <= final(self).pos
                            && s@ == crate::text::lossy_text(old(self).tag@[j].1@ + #[trigger] d.subrange(p + 2, e)),
                        None => r matches Err(PError::Terminate { name, .. }) && name@ == "tag handle"@,
                    }
            }),
    {
        let start = self.pos;
        let n = self.doc.len();
        if !(self.pos < n && self.doc[self.pos] == 33u8) {
            return Err(PError::Mismatch);
        }
        self.pos = self.pos + 1;
        if self.pos < n && self.doc[self.pos] == 60u8 {
            self.pos = self.pos + 1;
            let from = self.pos;
            while self.pos < n && self.doc[self.pos] != 62u8 && self.doc[self.pos] != 32u8
                && self.doc[self.pos] != 10u8 && self.doc[self.pos] != 13u8
                invariant
                    self.keeps(old(self)),
                    self.indent == old(self).indent,
                    start < from <= self.pos <= n,
                    from == start + 2,
                    n == self.doc@.len(),
                    forall|i: int| from <= i < self.pos ==> in_class(3, #[trigger] self.doc@[i]),
                decreases n - self.pos,
            {
                self.pos = self.pos + 1;
            }
            proof {
                lemma_run_end(self.doc@, from as int, self.pos as int, 3);
            }
            if !(self.pos < n && self.doc[self.pos] == 62u8) || self.pos == from {
                self.pos = start;
                return Err(PError::Mismatch);
            }
            let mut v: Vec<u8> = Vec::new();
            push_range(&mut v, self.doc, from, self.pos);
            self.pos = self.pos + 1;
            return Ok(lossy_string(v.as_slice()));
        }
        let mut handle: Vec<u8> = Vec::new();
        let mut suffix: Vec<u8> = Vec::new();
        if self.pos < n && self.doc[self.pos] == 33u8 {
            self.pos = self.pos + 1;
            handle.push(33u8);
            handle.push(33u8);
            let from = self.pos;
            if self.identifier().is_err() {
                self.pos = start;
                return Err(PError::Mismatch);
            }
            push_range(&mut suffix, self.doc, from, self.pos);
            proof {
                assert(handle@ =~= seq![33u8, 33u8]);
                assert(suffix@ =~= self.doc@.subrange(from as int, self.pos as int));
            }
        } else {
            let from = self.pos;
            if self.identifier().is_err() {
                self.pos = start;
                return Err(PError::Mismatch);
            }
            if self.pos < n && self.doc[self.pos] == 33u8 {
                push_range(&mut handle, self.doc, from, self.pos);
                self.pos = self.pos + 1;
                let from2 = self.pos;
                if self.identifier().is_err() {
                    self.pos = start;
                    return Err(PError::Mismatch);
                }
                push_range(&mut suffix, self.doc, from2, self.pos);
            } else {
                handle.push(33u8);
                push_range(&mut suffix, self.doc, from, self.pos);
            }
        }
        match self.tag_prefix_of(handle.as_slice()) {
            Some(p) => {
                let mut t = p;
                push_all(&mut t, suffix.as_slice());
                Ok(lossy_string(t.as_slice()))
            },
            None => self.err("tag handle"),
        }
    }

    /// Match a directive: `%YAML` with version 1.2 (once), `%TAG` with a handle and
    /// a prefix, or any other, which is ignored; then a line break.
    pub fn directive(&mut self) -> (r: PResult<()>)
        requires
            old(self).wf(),
        ensures
            final(self).wf(),
            final(self).same_doc(old(self)),
            final(self).eaten == old(self).eaten,
            final(self).indent == old(self).indent,
            final(self).anchors == old(self).anchors,
            r is Ok ==> old(self).pos < final(self).pos,
            r matches Err(e) && e is Mismatch ==> final(self).pos == old(self).pos,
            !(old(self).pos < old(self).doc@.len() && old(self).doc@[old(self).pos as int] == 37u8) ==> (r matches Err(e) && e is Mismatch),
            ({
                let d = old(self).doc@;
                let p = old(self).pos as int;
                p < d.len() && d[p] == 37u8 && !is_prefix_at(d, p + 1, yaml_word()) && !is_prefix_at(d, p + 1, tag_word())
                    && line_end(d, p + 1) < d.len() ==> r is Ok && final(self).tag == old(self).tag
                    && final(self).version_checked == old(self).version_checked
            }),
            ({
                let d = old(self).doc@;
                let p = old(self).pos as int;
                r is Ok && p < d.len() && d[p] == 37u8 && is_prefix_at(d, p + 1, yaml_word()) ==> final(self).version_checked
            }),
            ({
                let d = old(self).doc@;
                let p = old(self).pos as int;
                let q = blank_end(d, p + 5);
                p + 5 < d.len() && d[p] == 37u8 && is_prefix_at(d, p + 1, yaml_word()) && is_blank(d[p + 5])
                    && !old(self).version_checked && known_version(d, q) && gap_ok(d, q + 3, true)
                    ==> r is Ok && final(self).version_checked
            }),
            ({
                let d = old(self).doc@;
                let p = old(self).pos as int;
                let a = blank_end(d, p + 4);
                let b = blank_end(d, a + 1);
                let e = run_end(d, b, 4);
                p + 4 < d.len() && d[p] == 37u8 && is_prefix_at(d, p + 1, tag_word()) && is_blank(d[p + 4])
                    && a + 1 < d.len() && d[a] == 33u8 && is_blank(d[a + 1]) && b < d.len() && !is_nl(d[b])
                    && gap_ok(d, e, true)
                    ==> r is Ok && tag_set(old(self).tag@, final(self).tag@, seq![33u8], d.subrange(b, e))
            }),
            ({
                let d = old(self).doc@;
                let p = old(self).pos as int;
                let a = blank_end(d, p + 4);
                let c = run_end(d, a + 1, 7);
                let b = blank_end(d, c + 1);
                let e = run_end(d, b, 4);
                p + 4 < d.len() && d[p] == 37u8 && is_prefix_at(d, p + 1, tag_word()) && is_blank(d[p + 4])
                    && a + 1 < d.len() && d[a] == 33u8 && super::grammar::is_alnum(d[a + 1]) && c + 1 < d.len()
                    && d[c] == 33u8 && is_blank(d[c + 1]) && b < d.len() && !is_nl(d[b]) && gap_ok(d, e, true)
                    ==> r is Ok && tag_set(old(self).tag@, final(self).tag@, d.subrange(a + 1, c), d.subrange(b, e))
            }),
    {
        let start = self.pos;
        let n = self.doc.len();
        if !(self.pos < n && self.doc[self.pos] == 37u8) {
            return Err(PError::Mismatch);
        }
        self.pos = self.pos + 1;
        let e = self.eaten;
        self.forward();
        let w_yaml: Vec<u8> = vec![89u8, 65u8, 77u8, 76u8];
        let w_tag: Vec<u8> = vec![84u8, 65u8, 71u8];
        proof {
            assert(w_yaml@ =~= yaml_word());
            assert(w_tag@ =~= tag_word());
            if is_prefix_at(self.doc@, self.pos as int, tag_word()) {
                assert(self.doc@[self.pos as int] == tag_word()[0]);
                assert(!is_prefix_at(self.doc@, self.pos as int, yaml_word())) by {
                    if is_prefix_at(self.doc@, self.pos as int, yaml_word()) {
                        assert(self.doc@[self.pos as int] == yaml_word()[0]);
                    }
                }
            }
        }
        let r = if self.sym_seq(w_yaml.as_slice()).is_ok() {
            self.directive_yaml()
        } else if self.sym_seq(w_tag.as_slice()).is_ok() {
            self.directive_tag()
        } else {
            let f = |c: &u8| -> (b: bool) ensures b == !is_nl(*c) { *c != 10u8 && *c != 13u8 };
            let p1 = self.pos;
            let r = self.take_while(f, TakeOpt::More(0));
            proof {
                assert forall|i: int| p1 <= i < self.pos implies in_class(2, #[trigger] self.doc@[i]) by {
                    assert(f.ensures((&self.doc@[i],), true));
                }
                if self.pos < n {
                    assert(f.ensures((&self.doc@[self.pos as int],), false));
                }
                lemma_run_end(self.doc@, p1 as int, self.pos as int, 2);
            }
            r
        };
        self.eaten = e;
        match r {
            Ok(()) => {},
            Err(PError::Mismatch) => {
                self.pos = start;
                return Err(PError::Mismatch);
            },
            Err(t) => { return Err(t); },
        }
        match self.gap(true) {
            Ok(_) => Ok(()),
            Err(PError::Mismatch) => {
                self.pos = start;
                Err(PError::Mismatch)
            },
            Err(t) => Err(t),
        }
    }

    fn directive_yaml(&mut self) -> (r: PResult<()>)
        requires
            old(self).wf(),
        ensures
            final(self).wf(),
            final(self).same_doc(old(self)),
            final(self).eaten == old(self).eaten,
            final(self).indent == old(self).indent,
            final(self).anchors == old(self).anchors,
            final(self).tag == old(self).tag,
            r is Ok ==> old(self).pos <= final(self).pos,
            r matches Err(e) && e is Mismatch ==> final(self).pos == old(self).eaten,
            r is Ok ==> final(self).version_checked,
            r is Err ==> final(self).version_checked == old(self).version_checked,
            ({
                let d = old(self).doc@;
                let p = old(self).pos as int;
                let q = blank_end(d, p);
                if !(p < d.len() && is_blank(d[p])) {
                    r matches Err(e) && e is Mismatch
                } else if old(self).version_checked {
                    r matches Err(PError::Terminate { name, .. }) && name@ == "checked version"@
                } else if !known_version(d, q) {
                    r matches Err(PError::Terminate { name, .. }) && name@ == "version"@
                } else {
                    r is Ok && final(self).pos == q + 3
                }
            }),
    {
        if self.ws(TakeOpt::More(1)).is_err() {
            return Err(PError::Mismatch);
        }
        if self.version_checked {
            return self.err("checked version");
        }
        let v2: Vec<u8> = vec![49u8, 46u8, 50u8];
        proof {
            assert(v2@ =~= seq![49u8, 46u8, 50u8]);
        }
        let e = self.eaten;
        self.forward();
        let ok = self.sym_seq(v2.as_slice()).is_ok();
        self.eaten = e;
        if !ok {
            return self.err("version");
        }
        self.version_checked = true;
        Ok(())
    }

    fn directive_tag(&mut self) -> (r: PResult<()>)
        requires
            old(self).wf(),
        ensures
            final(self).wf(),
            final(self).same_doc(old(self)),
            final(self).eaten == old(self).eaten,
            final(self).indent == old(self).indent,
            final(self).anchors == old(self).anchors,
            r is Ok ==> old(self).pos <= final(self).pos,
            r matches Err(e) && e is Mismatch ==> final(self).pos == old(self).eaten,
            !(old(self).pos < old(self).doc@.len() && is_blank(old(self).doc@[old(self).pos as int])) ==> (r matches Err(e) && e is Mismatch),
            r is Ok ==> exists|h: Seq<u8>, q: int| old(self).pos < q < final(self).pos
                && tag_set(old(self).tag@, final(self).tag@, h, old(self).doc@.subrange(q, final(self).pos as int)),
            r is Err ==> final(self).tag == old(self).tag,
            ({
                let d = old(self).doc@;
                let p = old(self).pos as int;
                let a = blank_end(d, p);
                let b = blank_end(d, a + 1);
                let e = run_end(d, b, 4);
                p < d.len() && is_blank(d[p]) && a + 1 < d.len() && d[a] == 33u8 && is_blank(d[a + 1]) && b < d.len()
                    && !is_nl(d[b]) ==> r is Ok && final(self).pos == e
                    && tag_set(old(self).tag@, final(self).tag@, seq![33u8], d.subrange(b, e))
            }),
            ({
                let d = old(self).doc@;
                let p = old(self).pos as int;
                let a = blank_end(d, p);
                let c = run_end(d, a + 1, 7);
                let b = blank_end(d, c + 1);
                let e = run_end(d, b, 4);
                p < d.len() && is_blank(d[p]) && a + 1 < d.len() && d[a] == 33u8 && super::grammar::is_alnum(d[a + 1])
                    && c + 1 < d.len() && d[c] == 33u8 && is_blank(d[c + 1]) && b < d.len() && !is_nl(d[b])
                    ==> r is Ok && final(self).pos == e
                    && tag_set(old(self).tag@, final(self).tag@, d.subrange(a + 1, c), d.subrange(b, e))
            }),
    {
        if self.ws(TakeOpt::More(1)).is_err() {
            return Err(PError::Mismatch);
        }
        if self.sym(33u8).is_err() {
            return Err(PError::Mismatch);
        }
        let n = self.doc.len();
        let mut handle: Vec<u8> = Vec::new();
        let from = self.pos;
        if self.identifier().is_ok() {
            push_range(&mut handle, self.doc, from, self.pos);
            if self.sym(33u8).is_err() {
                return Err(PError::Mismatch);
            }
        } else if self.pos < n && self.doc[self.pos] == 33u8 {
            self.pos = self.pos + 1;
            handle.push(33u8);
            handle.push(33u8);
        } else {
            handle.push(33u8);
        }
        if self.ws(TakeOpt::More(1)).is_err() {
            return Err(PError::Mismatch);
        }
        let pfrom = self.pos;
        let f = |c: &u8| -> (b: bool) ensures b == !(*c == 32u8 || is_nl(*c)) { *c != 32u8 && *c != 10u8 && *c != 13u8 };
        if self.take_while(f, TakeOpt::More(1)).is_err() {
            return Err(PError::Mismatch);
        }
        proof {
            assert forall|i: int| pfrom <= i < self.pos implies in_class(4, #[trigger] self.doc@[i]) by {
                assert(f.ensures((&self.doc@[i],), true));
            }
            if self.pos < n {
                assert(f.ensures((&self.doc@[self.pos as int],), false));
            }
            lemma_run_end(self.doc@, pfrom as int, self.pos as int, 4);
        }
        let mut prefix: Vec<u8> = Vec::new();
        push_range(&mut prefix, self.doc, pfrom, self.pos);
        let ghost h = handle@;
        let ghost old_tag = self.tag@;
        self.set_tag_prefix(handle, prefix);
        proof {
            assert(tag_set(old_tag, self.tag@, h, self.doc@.subrange(pfrom as int, self.pos as int)));
        }
        Ok(())
    }

    /// A short function to raise error: the sub-parser `name` fails at the cursor.
    pub fn err<R>(&self, name: &'static str) -> (r: PResult<R>)
        requires
            self.wf(),
        ensures
            r matches Err(e) && e matches PError::Terminate { name: nm, msg } && nm == name
                && msg@ == crate::text::lossy_text(crate::indicator::indicated_bytes(self.doc@, self.pos as int)),
    {
        let p = self.pos;
        let msg = crate::indicator::indicated_msg_bytes(self.doc, p);
        Err(PError::Terminate { name, msg })
    }
}

} // verus!
