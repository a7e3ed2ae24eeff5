//! Byte-level text helpers shared by the parser, the dumper and the messages.
use vstd::prelude::*;
use vstd::utf8::*;

verus! {

/// What `String::from_utf8_lossy` makes of a byte sequence.
pub uninterp spec fn utf8_lossy(b: Seq<u8>) -> Seq<char>;

/// The text of a byte sequence as `String::from_utf8_lossy` reads it: valid UTF-8 decoded
/// unchanged, anything else as that function makes of it.
pub open spec fn lossy_text(b: Seq<u8>) -> Seq<char> {
    if valid_utf8(b) {
        decode_utf8(b)
    } else {
        utf8_lossy(b)
    }
}

/// Converts bytes to a `String` through `String::from_utf8_lossy`.
///
/// The contract claims that the result is a function of the bytes alone, and, as the
/// documentation of `from_utf8_lossy` says, that valid UTF-8 is decoded unchanged.
#[verifier::external_body]
pub(crate) fn lossy_string(b: &[u8]) -> (s: String)
    ensures
        s@ == utf8_lossy(b@),
        valid_utf8(b@) ==> s@ == decode_utf8(b@),
{
    String::from_utf8_lossy(b).into_owned()
}

/// The decimal digits of `n`, most significant first.
pub open spec fn dec(n: nat) -> Seq<u8>
    decreases n,
{
    if n < 10 {
        seq![(48 + n) as u8]
    } else {
        dec(n / 10).push((48 + n % 10) as u8)
    }
}

/// Appends the decimal digits of `n` to `out`.
pub fn push_dec(out: &mut Vec<u8>, n: u128)
    ensures
        final(out)@ == old(out)@ + dec(n as nat),
    decreases n,
{
    if n >= 10 {
        push_dec(out, n / 10);
    }
    let d: u8 = (n % 10) as u8;
    out.push(48u8 + d);
    assert(final(out)@ =~= old(out)@ + dec(n as nat));
}

/// Appends a slice of bytes to `out`.
pub fn push_all(out: &mut Vec<u8>, s: &[u8])
    ensures
        final(out)@ == old(out)@ + s@,
{
    let mut i: usize = 0;
    while i < s.len()
        invariant
            i <= s@.len(),
            out@ == old(out)@ + s@.subrange(0, i as int),
        decreases s@.len() - i,
    {
        out.push(s[i]);
        i = i + 1;
        assert(out@ =~= old(out)@ + s@.subrange(0, i as int));
    }
    assert(s@.subrange(0, s@.len() as int) =~= s@);
}

/// `n` copies of the byte `c`.
pub open spec fn repeat_byte(c: u8, n: nat) -> Seq<u8> {
    Seq::new(n, |_i: int| c)
}

/// Appends `n` copies of `c` to `out`.
pub fn push_repeat(out: &mut Vec<u8>, c: u8, n: usize)
    ensures
        final(out)@ == old(out)@ + repeat_byte(c, n as nat),
{
    let mut i: usize = 0;
    while i < n
        invariant
            i <= n,
            out@ == old(out)@ + repeat_byte(c, i as nat),
        decreases n - i,
    {
        out.push(c);
        i = i + 1;
        assert(out@ =~= old(out)@ + repeat_byte(c, i as nat));
    }
}

/// Appends `s[from..to]` to `out`.
pub fn push_range(out: &mut Vec<u8>, s: &[u8], from: usize, to: usize)
    requires
        from <= to <= s@.len(),
    ensures
        final(out)@ == old(out)@ + s@.subrange(from as int, to as int),
{
    let mut i: usize = from;
    while i < to
        invariant
            from <= i <= to <= s@.len(),
            out@ == old(out)@ + s@.subrange(from as int, i as int),
        decreases to - i,
    {
        out.push(s[i]);
        i = i + 1;
        assert(out@ =~= old(out)@ + s@.subrange(from as int, i as int));
    }
}

/// Compares two byte slices.
pub fn bytes_equal(a: &[u8], b: &[u8]) -> (r: bool)
    ensures
        r == (a@ == b@),
{
    if a.len() != b.len() {
        return false;
    }
    let mut i: usize = 0;
    while i < a.len()
        invariant
            a@.len() == b@.len(),
            i <= a@.len(),
            forall|k: int| 0 <= k < i ==> a@[k] == b@[k],
        decreases a@.len() - i,
    {
        if a[i] != b[i] {
            return false;
        }
        i = i + 1;
    }
    assert(a@ =~= b@);
    true
}

/// The bytes of the tag prefix of the YAML core schema, `tag:yaml.org,2002:`.
pub open spec fn tag_prefix_bytes() -> Seq<u8> {
    seq![116u8, 97u8, 103u8, 58u8, 121u8, 97u8, 109u8, 108u8, 46u8, 111u8, 114u8, 103u8, 44u8,
        50u8, 48u8, 48u8, 50u8, 58u8]
}

/// The tag prefix of the YAML core schema, as bytes.
pub fn tag_prefix_vec() -> (v: Vec<u8>)
    ensures
        v@ == tag_prefix_bytes(),
{
    let v: Vec<u8> = vec![116u8, 97u8, 103u8, 58u8, 121u8, 97u8, 109u8, 108u8, 46u8, 111u8, 114u8,
        103u8, 44u8, 50u8, 48u8, 48u8, 50u8, 58u8];
    assert(v@ =~= tag_prefix_bytes());
    v
}

} // verus!

verus! {

/// The characters of a string.
pub fn chars_of(s: &str) -> (v: Vec<char>)
    ensures
        v@ == s@,
{
    let mut v: Vec<char> = Vec::new();
    for c in it: s.chars()
        invariant
            v@ == it.seq().take(it.index() as int),
    {
        v.push(c);
    }
    v
}

}

verus! {

/// Collects characters into a `String` with `String::from_iter`, which holds them in order.
#[verifier::external_body]
pub(crate) fn string_of(v: &Vec<char>) -> (s: String)
    ensures
        s@ == v@,
{
    v.iter().collect()
}

/// Appends the characters of a string.
pub fn push_str_chars(out: &mut Vec<char>, s: &str)
    ensures
        final(out)@ == old(out)@ + s@,
{
    let mut cs = chars_of(s);
    let ghost before = out@;
    out.append(&mut cs);
    assert(out@ =~= before + s@);
}

} // verus!
