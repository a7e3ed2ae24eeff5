//! Error indication: line and column of a position in a document.
use crate::text::{dec, lossy_string, push_all, push_dec, push_repeat, repeat_byte, lossy_text};
use vstd::prelude::*;
use vstd::string::StringSliceAdditionalSpecFns;
use vstd::utf8::{decode_utf8, decode_utf8_encode_utf8, encode_scalar, encode_utf8, encode_utf8_decode_utf8, encode_utf8_valid_utf8, valid_utf8};

verus! {

/// Index of the first byte of the line that holds index `p`.
pub open spec fn line_start(b: Seq<u8>, p: int) -> int
    decreases p,
{
    if p <= 0 {
        0
    } else if b[p - 1] == 10u8 {
        p
    } else {
        line_start(b, p - 1)
    }
}

/// Index of the newline that ends the line starting at `i`, or the length.
pub open spec fn line_end(b: Seq<u8>, i: int) -> int
    decreases b.len() - i,
{
    if i >= b.len() {
        b.len() as int
    } else if b[i] == 10u8 {
        i
    } else {
        line_end(b, i + 1)
    }
}

/// Number of newlines in `s`.
pub open spec fn count_nl(s: Seq<u8>) -> nat
    decreases s.len(),
{
    if s.len() == 0 {
        0
    } else {
        count_nl(s.drop_last()) + if s.last() == 10u8 { 1nat } else { 0nat }
    }
}

/// The message that points at byte `pos` of `b`: `line:column`, the line, and a caret.
pub open spec fn indicated_bytes(b: Seq<u8>, pos: int) -> Seq<u8> {
    let ls = line_start(b, pos);
    let le = line_end(b, ls);
    let col = pos - ls;
    dec(count_nl(b.subrange(0, ls)) + 1) + seq![58u8] + dec((col + 1) as nat) + seq![10u8]
        + b.subrange(ls, le) + seq![10u8] + repeat_byte(32u8, col as nat) + seq![94u8]
}

proof fn lemma_line_start_no_nl(b: Seq<u8>, start: int, p: int)
    requires
        0 <= start <= p <= b.len(),
        start == 0 || b[start - 1] == 10u8,
        forall|k: int| start <= k < p ==> b[k] != 10u8,
    ensures
        line_start(b, p) == start,
    decreases p - start,
{
    if p > start {
        lemma_line_start_no_nl(b, start, p - 1);
    }
}

proof fn lemma_line_end_scan(b: Seq<u8>, i: int, e: int)
    requires
        0 <= i <= e <= b.len(),
        forall|k: int| i <= k < e ==> b[k] != 10u8,
        e == b.len() || b[e] == 10u8,
    ensures
        line_end(b, i) == e,
    decreases e - i,
{
    if i < e {
        lemma_line_end_scan(b, i + 1, e);
    }
}

proof fn lemma_count_nl_push(s: Seq<u8>, i: int)
    requires
        0 <= i < s.len(),
    ensures
        count_nl(s.subrange(0, i + 1)) == count_nl(s.subrange(0, i)) + if s[i] == 10u8 { 1nat } else { 0nat },
{
    assert(s.subrange(0, i + 1).drop_last() =~= s.subrange(0, i));
}

proof fn lemma_count_nl_no_nl(s: Seq<u8>, i: int, j: int)
    requires
        0 <= i <= j <= s.len(),
        forall|k: int| i <= k < j ==> s[k] != 10u8,
    ensures
        count_nl(s.subrange(0, j)) == count_nl(s.subrange(0, i)),
    decreases j - i,
{
    if j > i {
        lemma_count_nl_no_nl(s, i, j - 1);
        lemma_count_nl_push(s, j - 1);
    }
}

/// The bytes of the message that [`indicated_msg`] returns.
fn indicated_bytes_exec(b: &[u8], pos: usize) -> (r: Vec<u8>)
    requires
        pos <= b@.len(),
    ensures
        r@ == indicated_bytes(b@, pos as int),
{
    let mut start: usize = 0;
    let mut line: u64 = 0;
    loop
        invariant
            start <= pos <= b@.len(),
            start == 0 || b@[start - 1] == 10u8,
            line == count_nl(b@.subrange(0, start as int)),
            line <= start,
        decreases b@.len() - start,
    {
        let mut end: usize = start;
        while end < b.len() && b[end] != 10u8
            invariant
                start <= end <= b@.len(),
                forall|k: int| start <= k < end ==> b@[k] != 10u8,
            decreases b@.len() - end,
        {
            end = end + 1;
        }
        proof {
            lemma_line_end_scan(b@, start as int, end as int);
        }
        if pos <= end {
            proof {
                lemma_line_start_no_nl(b@, start as int, pos as int);
            }
            let col: usize = pos - start;
            let mut out: Vec<u8> = Vec::new();
            push_dec(&mut out, line as u128 + 1);
            out.push(58u8);
            push_dec(&mut out, col as u128 + 1);
            out.push(10u8);
            push_all(&mut out, &b[start..end]);
            out.push(10u8);
            push_repeat(&mut out, 32u8, col);
            out.push(94u8);
            assert(out@ =~= indicated_bytes(b@, pos as int));
            return out;
        }
        proof {
            lemma_count_nl_no_nl(b@, start as int, end as int);
            lemma_count_nl_push(b@, end as int);
        }
        line = line + 1;
        start = end + 1;
    }
}

/// Indicates the position of the document: the line number and column number
/// of byte `pos`, the line itself, and a caret under the column.
///
/// The position must not pass the end of the document.
pub fn indicated_msg(doc: &str, pos: u64) -> (msg: String)
    requires
        pos <= doc.spec_bytes().len(),
    ensures
        msg@ == lossy_text(indicated_bytes(doc.spec_bytes(), pos as int)),
{
    let b = doc.as_bytes();
    let n: usize = b.len();
    assert(pos <= n);
    let out = indicated_bytes_exec(b, pos as usize);
    lossy_string(out.as_slice())
}

/// Same as [`indicated_msg`], but joins the path before the message.
pub fn indicated_msg_file(path: &str, doc: &str, pos: u64) -> (msg: String)
    requires
        pos <= doc.spec_bytes().len(),
    ensures
        msg@ == lossy_text(path.spec_bytes() + seq![58u8] + indicated_bytes(doc.spec_bytes(), pos as int)),
{
    let mut out: Vec<u8> = Vec::new();
    push_all(&mut out, path.as_bytes());
    out.push(58u8);
    let b = doc.as_bytes();
    let n: usize = b.len();
    assert(pos <= n);
    let m = indicated_bytes_exec(b, pos as usize);
    push_all(&mut out, m.as_slice());
    assert(out@ =~= path.spec_bytes() + seq![58u8] + indicated_bytes(doc.spec_bytes(), pos as int));
    lossy_string(out.as_slice())
}

/// Encoding a concatenation of characters concatenates their encodings.
proof fn lemma_encode_concat(a: Seq<char>, b: Seq<char>)
    ensures
        encode_utf8(a + b) == encode_utf8(a) + encode_utf8(b),
    decreases a.len(),
{
    if a.len() == 0 {
        assert(a + b =~= b);
        assert(encode_utf8(a) =~= seq![]);
        assert(seq![] + encode_utf8(b) =~= encode_utf8(b));
    } else {
        assert((a + b).drop_first() =~= a.drop_first() + b);
        assert((a + b)[0] == a[0]);
        lemma_encode_concat(a.drop_first(), b);
        assert(encode_utf8(a + b) =~= encode_utf8(a) + encode_utf8(b));
    }
}

/// Where the message that points at `pos` is valid UTF-8, the message with a path is the
/// path, `:` and that message: what [`indicated_msg_file`] gives is `path`, `:` and what
/// [`indicated_msg`] gives.
pub proof fn lemma_indicated_msg_file(path: &str, doc: &str, pos: int)
    requires
        valid_utf8(indicated_bytes(doc.spec_bytes(), pos)),
    ensures
        lossy_text(path.spec_bytes() + seq![58u8] + indicated_bytes(doc.spec_bytes(), pos))
            == path@ + seq![':'] + lossy_text(indicated_bytes(doc.spec_bytes(), pos)),
{
    let ib = indicated_bytes(doc.spec_bytes(), pos);
    let cs = decode_utf8(ib);
    decode_utf8_encode_utf8(ib);
    assert(encode_utf8(seq![':']) =~= seq![58u8]) by {
        assert(seq![':'].drop_first() =~= Seq::<char>::empty());
        assert(encode_utf8(Seq::<char>::empty()) =~= Seq::<u8>::empty());
        assert((':' as u32) == 58u32);
        assert((58u32 & 0x7Fu32) as u8 == 58u8) by (bit_vector);
        assert(encode_scalar(58u32) =~= seq![58u8]);
    }
    lemma_encode_concat(path@, seq![':']);
    lemma_encode_concat(path@ + seq![':'], cs);
    let all = path@ + seq![':'] + cs;
    assert(path.spec_bytes() + seq![58u8] + ib == encode_utf8(all));
    encode_utf8_valid_utf8(all);
    encode_utf8_decode_utf8(all);
}

/// Same as [`indicated_msg`], on the bytes of a document.
pub fn indicated_msg_bytes(doc: &[u8], pos: usize) -> (msg: String)
    requires
        pos <= doc@.len(),
    ensures
        msg@ == lossy_text(indicated_bytes(doc@, pos as int)),
{
    let out = indicated_bytes_exec(doc, pos);
    lossy_string(out.as_slice())
}

} // verus!
