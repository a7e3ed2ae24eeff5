//! Number texts: integers in decimal, hexadecimal (`0x`) and octal (`0o`),
//! and the decimal value of float texts, used by the node comparison.
use vstd::prelude::*;
use vstd::string::StringSliceAdditionalSpecFns;
use crate::text::{bytes_equal, push_range};

verus! {

/// The value of the ASCII digit `c` in base `radix` (at most 36), letters in either case.
pub open spec fn digit_val(c: u8, radix: nat) -> Option<nat> {
    let v: int = if 48 <= c <= 57 {
        c - 48
    } else if 97 <= c <= 122 {
        c - 97 + 10
    } else if 65 <= c <= 90 {
        c - 65 + 10
    } else {
        36
    };
    if v < radix {
        Some(v as nat)
    } else {
        None
    }
}

/// The value of a sequence of digits in base `radix`, `None` if a byte is not such a digit.
pub open spec fn digits_value(s: Seq<u8>, radix: nat) -> Option<nat>
    decreases s.len(),
{
    if s.len() == 0 {
        Some(0)
    } else {
        match (digits_value(s.drop_last(), radix), digit_val(s.last(), radix)) {
            (Some(v), Some(d)) => Some(v * radix + d),
            _ => None,
        }
    }
}

/// A signed integer in base `radix` that fits in an `i64`: an optional sign, then
/// at least one digit.
pub open spec fn radix_value(s: Seq<u8>, radix: nat) -> Option<int> {
    let neg = s.len() > 0 && s[0] == 45u8;
    let body = if s.len() > 0 && (s[0] == 45u8 || s[0] == 43u8) {
        s.skip(1)
    } else {
        s
    };
    if body.len() == 0 {
        None
    } else {
        match digits_value(body, radix) {
            Some(v) => {
                let x: int = if neg { -v } else { v as int };
                if i64::MIN <= x <= i64::MAX {
                    Some(x)
                } else {
                    None
                }
            },
            None => None,
        }
    }
}

/// The integer an `Int` text stands for: `0x` starts a hexadecimal number, `0o` an octal
/// one, anything else is decimal.
pub open spec fn int_value(s: Seq<u8>) -> Option<int> {
    if s.len() >= 2 && s[0] == 48u8 && s[1] == 120u8 {
        radix_value(s.skip(2), 16)
    } else if s.len() >= 2 && s[0] == 48u8 && s[1] == 111u8 {
        radix_value(s.skip(2), 8)
    } else {
        radix_value(s, 10)
    }
}

proof fn lemma_digits_value_grows(s: Seq<u8>, i: int, radix: nat)
    requires
        0 <= i <= s.len(),
        radix >= 1,
        digits_value(s, radix) is Some,
    ensures
        digits_value(s.take(i), radix) is Some,
        digits_value(s.take(i), radix).unwrap() <= digits_value(s, radix).unwrap(),
    decreases s.len(),
{
    if i < s.len() {
        assert(s.drop_last().take(i) =~= s.take(i));
        lemma_digits_value_grows(s.drop_last(), i, radix);
        let v = digits_value(s.drop_last(), radix).unwrap();
        assert(v * radix >= v) by (nonlinear_arith)
            requires
                radix >= 1,
        ;
    } else {
        assert(s.take(i) =~= s);
    }
}

fn digit_exec(c: u8, radix: u32) -> (r: Option<u32>)
    requires
        radix <= 36,
    ensures
        r matches Some(v) ==> digit_val(c, radix as nat) == Some(v as nat),
        r is None ==> digit_val(c, radix as nat) is None,
{
    let v: u32 = if 48 <= c && c <= 57 {
        (c - 48) as u32
    } else if 97 <= c && c <= 122 {
        (c - 97) as u32 + 10
    } else if 65 <= c && c <= 90 {
        (c - 65) as u32 + 10
    } else {
        36
    };
    if v < radix {
        Some(v)
    } else {
        None
    }
}

/// Parses a signed integer in base `radix` (2 to 36), as `i64::from_str_radix` does.
pub fn parse_radix(s: &[u8], radix: u32) -> (r: Option<i64>)
    requires
        2 <= radix <= 36,
    ensures
        r matches Some(v) ==> radix_value(s@, radix as nat) == Some(v as int),
        r is None ==> radix_value(s@, radix as nat) is None,
{
    let mut start: usize = 0;
    let mut neg = false;
    if s.len() > 0 && s[0] == 45u8 {
        start = 1;
        neg = true;
    } else if s.len() > 0 && s[0] == 43u8 {
        start = 1;
    }
    let ghost body = s@.skip(start as int);
    assert(start == 0 ==> body =~= s@);
    if start >= s.len() {
        return None;
    }
    let bound: i128 = 9223372036854775808i128;
    let mut acc: i128 = 0;
    let mut i: usize = start;
    while i < s.len()
        invariant
            start <= i <= s@.len(),
            body == s@.skip(start as int),
            body == (if s@.len() > 0 && (s@[0] == 45u8 || s@[0] == 43u8) { s@.skip(1) } else { s@ }),
            start == (if s@.len() > 0 && (s@[0] == 45u8 || s@[0] == 43u8) { 1usize } else { 0usize }),
            neg == (s@.len() > 0 && s@[0] == 45u8),
            2 <= radix <= 36,
            bound == 9223372036854775808i128,
            0 <= acc <= bound,
            digits_value(body.take(i - start), radix as nat) == Some(acc as nat),
        decreases s@.len() - i,
    {
        let d = digit_exec(s[i], radix);
        proof {
            assert(body.take(i - start + 1).drop_last() =~= body.take(i - start));
            assert(body.take(i - start + 1).last() == s@[i as int]);
        }
        match d {
            None => {
                proof {
                    assert(digits_value(body.take(i - start + 1), radix as nat) is None);
                    if digits_value(body, radix as nat) is Some {
                        lemma_digits_value_grows(body, i - start + 1, radix as nat);
                    }
                    assert(digits_value(body, radix as nat) is None);
                    assert(body.len() > 0);
                    assert(body == (if s@.len() > 0 && (s@[0] == 45u8 || s@[0] == 43u8) { s@.skip(1) } else { s@ }));
                    assert(radix_value(s@, radix as nat) is None);
                }
                return None;
            },
            Some(d) => {
                assert(d < 36);
                let r: i128 = radix as i128;
                assert(0 <= acc * r <= bound * 36) by (nonlinear_arith)
                    requires
                        0 <= acc <= bound,
                        0 <= r <= 36,
                ;
                let next: i128 = acc * r + d as i128;
                if next > bound {
                    proof {
                        assert(digits_value(body.take(i - start + 1), radix as nat) == Some(next as nat));
                        if digits_value(body, radix as nat) is Some {
                            lemma_digits_value_grows(body, i - start + 1, radix as nat);
                        }
                    }
                    return None;
                }
                acc = next;
            },
        }
        i = i + 1;
    }
    assert(body.take(i - start) =~= body);
    if neg {
        Some((0 - acc) as i64)
    } else if acc < bound {
        Some(acc as i64)
    } else {
        None
    }
}

/// Parses the text of an `Int` node: `0x` for hexadecimal, `0o` for octal, else decimal.
pub fn to_i64(s: &str) -> (r: Option<i64>)
    ensures
        r matches Some(v) ==> int_value(s.spec_bytes()) == Some(v as int),
        r is None ==> int_value(s.spec_bytes()) is None,
{
    let b = s.as_bytes();
    if b.len() >= 2 && b[0] == 48u8 && b[1] == 120u8 {
        parse_radix(&b[2..b.len()], 16)
    } else if b.len() >= 2 && b[0] == 48u8 && b[1] == 111u8 {
        parse_radix(&b[2..b.len()], 8)
    } else {
        parse_radix(b, 10)
    }
}


/// An ASCII decimal digit.
pub open spec fn is_digit(c: u8) -> bool {
    48 <= c <= 57
}

/// Number of digits in a row from index `i`.
pub open spec fn digit_run(s: Seq<u8>, i: int) -> nat
    decreases s.len() - i,
{
    if 0 <= i < s.len() && is_digit(s[i]) {
        1 + digit_run(s, i + 1)
    } else {
        0
    }
}

/// The digits without their leading zeros.
pub open spec fn strip_leading_zeros(d: Seq<u8>) -> Seq<u8>
    decreases d.len(),
{
    if d.len() > 0 && d[0] == 48u8 {
        strip_leading_zeros(d.drop_first())
    } else {
        d
    }
}

/// Number of zeros at the end of the digits.
pub open spec fn trailing_zeros(d: Seq<u8>) -> nat
    decreases d.len(),
{
    if d.len() > 0 && d.last() == 48u8 {
        1 + trailing_zeros(d.drop_last())
    } else {
        0
    }
}

/// ASCII lower case.
pub open spec fn lower(c: u8) -> u8 {
    if 65 <= c <= 90 {
        (c + 32) as u8
    } else {
        c
    }
}

/// `s` equals `word` (given in lower case) regardless of case.
pub open spec fn eq_ignore_case(s: Seq<u8>, word: Seq<u8>) -> bool {
    s.len() == word.len() && forall|i: int| 0 <= i < s.len() ==> lower(s[i]) == word[i]
}

/// The key of a number worth `m * 10^e` (`m` a sequence of decimal digits): kind 0 for
/// zero, else kind 4 (positive) or 5 (negative), the digits without leading and trailing
/// zeros, and the exponent that goes with them.
pub open spec fn number_key(m: Seq<u8>, e: int, neg: bool) -> (int, Seq<u8>, int) {
    let digits = strip_leading_zeros(m);
    let tz = trailing_zeros(digits);
    if digits.len() == 0 {
        (0int, Seq::empty(), 0int)
    } else {
        (if neg { 5int } else { 4int }, digits.subrange(0, digits.len() - tz), e + tz)
    }
}

/// The key of an unsigned decimal float text `r`: digits, an optional fraction, and an
/// optional exponent of at most 18 digits.
pub open spec fn decimal_key(r: Seq<u8>, neg: bool) -> Option<(int, Seq<u8>, int)> {
    let n_int = digit_run(r, 0) as int;
    let has_dot = n_int < r.len() && r[n_int] == 46u8;
    let f0 = if has_dot { n_int + 1 } else { n_int };
    let n_frac = if has_dot { digit_run(r, f0) as int } else { 0int };
    let e0 = f0 + n_frac;
    let has_exp = e0 < r.len() && (r[e0] == 101u8 || r[e0] == 69u8);
    let x0 = if has_exp { e0 + 1 } else { e0 };
    let exp_neg = has_exp && x0 < r.len() && r[x0] == 45u8;
    let x1 = if has_exp && x0 < r.len() && (r[x0] == 45u8 || r[x0] == 43u8) { x0 + 1 } else { x0 };
    let n_exp = if has_exp { digit_run(r, x1) as int } else { 0int };
    let end = x1 + n_exp;
    if n_int + n_frac == 0 || (has_exp && n_exp == 0) || end != r.len() || n_exp > 18 {
        None
    } else {
        let e = if has_exp { digits_value(r.subrange(x1, end), 10).unwrap() as int } else { 0int };
        Some(number_key(r.subrange(0, n_int) + r.subrange(f0, e0), (if exp_neg { -e } else { e }) - n_frac, neg))
    }
}

/// The value of a float text, as `f64`'s parser reads it, in exact decimal form:
/// `(kind, digits, exponent)` where kind 0 is zero, 1 is NaN, 2 and 3 are positive and
/// negative infinity, 4 and 5 are positive and negative numbers worth `digits * 10^exponent`
/// (digits without leading or trailing zeros). `None` if the text is not a float, or if its
/// exponent has more than 18 digits.
pub open spec fn float_key(s: Seq<u8>) -> Option<(int, Seq<u8>, int)> {
    let neg = s.len() > 0 && s[0] == 45u8;
    let r = if s.len() > 0 && (s[0] == 45u8 || s[0] == 43u8) { s.skip(1) } else { s };
    if eq_ignore_case(r, seq![105u8, 110u8, 102u8]) || eq_ignore_case(
        r,
        seq![105u8, 110u8, 102u8, 105u8, 110u8, 105u8, 116u8, 121u8],
    ) {
        Some((if neg { 3int } else { 2int }, Seq::empty(), 0int))
    } else if eq_ignore_case(r, seq![110u8, 97u8, 110u8]) {
        Some((1int, Seq::empty(), 0int))
    } else {
        decimal_key(r, neg)
    }
}

/// Two float texts hold the same value: both NaN, the same infinity, or the same decimal
/// number (zeros of either sign are equal). Texts that are not floats compare as text.
pub open spec fn float_text_eq(a: Seq<u8>, b: Seq<u8>) -> bool {
    match (float_key(a), float_key(b)) {
        (Some(x), Some(y)) => x == y,
        _ => a == b,
    }
}

/// Two integer texts hold the same value; texts that are not integers compare as text.
pub open spec fn int_text_eq(a: Seq<u8>, b: Seq<u8>) -> bool {
    match (int_value(a), int_value(b)) {
        (Some(x), Some(y)) => x == y,
        _ => a == b,
    }
}

fn digit_run_exec(s: &[u8], i: usize) -> (n: usize)
    requires
        i <= s@.len(),
    ensures
        n == digit_run(s@, i as int),
        i + n <= s@.len(),
{
    let mut j: usize = i;
    while j < s.len() && 48u8 <= s[j] && s[j] <= 57u8
        invariant
            i <= j <= s@.len(),
            digit_run(s@, i as int) == (j - i) + digit_run(s@, j as int),
        decreases s@.len() - j,
    {
        j = j + 1;
    }
    j - i
}

fn eq_ignore_case_exec(s: &[u8], from: usize, word: &[u8]) -> (r: bool)
    requires
        from <= s@.len(),
    ensures
        r == eq_ignore_case(s@.skip(from as int), word@),
{
    let n: usize = s.len();
    if n - from != word.len() {
        return false;
    }
    let mut i: usize = 0;
    while i < word.len()
        invariant
            from <= s@.len(),
            s@.len() - from == word@.len(),
            n == s@.len(),
            i <= word@.len(),
            forall|k: int| 0 <= k < i ==> lower(s@[from + k]) == word@[k],
        decreases word@.len() - i,
    {
        assert(from + i < s@.len());
        let c = s[from + i];
        let l: u8 = if 65u8 <= c && c <= 90u8 { c + 32 } else { c };
        if l != word[i] {
            assert(lower(s@.skip(from as int)[i as int]) != word@[i as int]);
            return false;
        }
        i = i + 1;
    }
    true
}

proof fn lemma_strip_leading(d: Seq<u8>, i: int)
    requires
        0 <= i <= d.len(),
        forall|k: int| 0 <= k < i ==> d[k] == 48u8,
        i == d.len() || d[i] != 48u8,
    ensures
        strip_leading_zeros(d) == d.skip(i),
    decreases i,
{
    if i > 0 {
        lemma_strip_leading(d.drop_first(), i - 1);
        assert(d.drop_first().skip(i - 1) =~= d.skip(i));
    } else {
        assert(d.skip(0) =~= d);
    }
}

proof fn lemma_trailing(d: Seq<u8>, j: int)
    requires
        0 <= j <= d.len(),
        forall|k: int| j <= k < d.len() ==> d[k] == 48u8,
        j == 0 || d[j - 1] != 48u8,
    ensures
        trailing_zeros(d) == d.len() - j,
    decreases d.len() - j,
{
    if j < d.len() {
        lemma_trailing(d.drop_last(), j);
    }
}

proof fn lemma_digit_run_all(s: Seq<u8>, i: int, j: int)
    requires
        0 <= i <= j,
        j - i <= digit_run(s, i),
    ensures
        forall|k: int| i <= k < j ==> is_digit(s[k]) && k < s.len(),
    decreases j - i,
{
    if i < j {
        assert(0 <= i < s.len() && is_digit(s[i]));
        lemma_digit_run_all(s, i + 1, j);
    }
}

proof fn lemma_digit_run_exact(s: Seq<u8>, i: int, j: int)
    requires
        0 <= i <= j <= s.len(),
        forall|k: int| i <= k < j ==> is_digit(s[k]),
        j == s.len() || !is_digit(s[j]),
    ensures
        digit_run(s, i) == j - i,
    decreases j - i,
{
    if i < j {
        lemma_digit_run_exact(s, i + 1, j);
    }
}

proof fn lemma_strip_nonzero(d: Seq<u8>, k: int)
    requires
        0 <= k < d.len(),
        d[k] != 48u8,
    ensures
        strip_leading_zeros(d).len() > 0,
    decreases d.len(),
{
    if d[0] == 48u8 {
        assert(k > 0);
        assert(d.drop_first()[k - 1] == d[k]);
        lemma_strip_nonzero(d.drop_first(), k - 1);
    }
}

/// The text of a decimal number: digits `a`, and with `dot` a `.` and the digits `b`.
pub open spec fn decimal_text(a: Seq<u8>, dot: bool, b: Seq<u8>) -> Seq<u8> {
    if dot { a + seq![46u8] + b } else { a }
}

/// The digits of `a` and (with `dot`) `b` are decimal digits, and one of them is not `0`.
pub open spec fn nonzero_decimal(a: Seq<u8>, dot: bool, b: Seq<u8>) -> bool {
    &&& forall|k: int| 0 <= k < a.len() ==> is_digit(#[trigger] a[k])
    &&& forall|k: int| 0 <= k < b.len() ==> is_digit(#[trigger] b[k])
    &&& ((exists|k: int| 0 <= k < a.len() && #[trigger] a[k] != 48u8) || (dot && exists|k: int| 0 <= k < b.len() && #[trigger] b[k] != 48u8))
}

proof fn lemma_decimal_kind(a: Seq<u8>, dot: bool, b: Seq<u8>, neg: bool)
    requires
        nonzero_decimal(a, dot, b),
    ensures
        decimal_key(decimal_text(a, dot, b), neg) matches Some((kind, _, _)) && kind == (if neg { 5int } else { 4int }),
{
    let t = decimal_text(a, dot, b);
    let na = a.len() as int;
    if dot {
        assert(t[na] == 46u8);
        assert forall|k: int| 0 <= k < na implies is_digit(t[k]) by {
            assert(t[k] == a[k]);
        }
        lemma_digit_run_exact(t, 0, na);
        assert forall|k: int| na + 1 <= k < t.len() implies is_digit(t[k]) by {
            assert(t[k] == b[k - na - 1]);
        }
        lemma_digit_run_exact(t, na + 1, t.len() as int);
        assert(t.subrange(0, na) =~= a);
        assert(t.subrange(na + 1, t.len() as int) =~= b);
        let ab = a + b;
        if exists|k: int| 0 <= k < a.len() && #[trigger] a[k] != 48u8 {
            let k = choose|k: int| 0 <= k < a.len() && #[trigger] a[k] != 48u8;
            assert(ab[k] == a[k]);
            lemma_strip_nonzero(ab, k);
        } else {
            let k = choose|k: int| 0 <= k < b.len() && #[trigger] b[k] != 48u8;
            assert(ab[na + k] == b[k]);
            lemma_strip_nonzero(ab, na + k);
        }
    } else {
        lemma_digit_run_exact(t, 0, na);
        assert(t.subrange(0, na) =~= a);
        assert(t.subrange(na, na) =~= Seq::<u8>::empty());
        assert(a + Seq::<u8>::empty() =~= a);
        let k = choose|k: int| 0 <= k < a.len() && #[trigger] a[k] != 48u8;
        lemma_strip_nonzero(a, k);
    }
}

proof fn lemma_decimal_key_of(a: Seq<u8>, dot: bool, b: Seq<u8>, neg: bool)
    requires
        forall|k: int| 0 <= k < a.len() ==> is_digit(#[trigger] a[k]),
        forall|k: int| 0 <= k < b.len() ==> is_digit(#[trigger] b[k]),
        a.len() > 0 || (dot && b.len() > 0),
    ensures
        decimal_key(decimal_text(a, dot, b), neg) == Some(
            if dot { number_key(a + b, -(b.len() as int), neg) } else { number_key(a, 0, neg) },
        ),
{
    let t = decimal_text(a, dot, b);
    let na = a.len() as int;
    if dot {
        assert(t[na] == 46u8);
        assert forall|k: int| 0 <= k < na implies is_digit(t[k]) by {
            assert(t[k] == a[k]);
        }
        lemma_digit_run_exact(t, 0, na);
        assert forall|k: int| na + 1 <= k < t.len() implies is_digit(t[k]) by {
            assert(t[k] == b[k - na - 1]);
        }
        lemma_digit_run_exact(t, na + 1, t.len() as int);
        assert(t.subrange(0, na) =~= a);
        assert(t.subrange(na + 1, t.len() as int) =~= b);
    } else {
        lemma_digit_run_exact(t, 0, na);
        assert(t.subrange(0, na) =~= a);
        assert(t.subrange(na, na) =~= Seq::<u8>::empty());
        assert(a + Seq::<u8>::empty() =~= a);
    }
}

proof fn lemma_trailing_le(d: Seq<u8>)
    ensures
        trailing_zeros(d) <= d.len(),
    decreases d.len(),
{
    if d.len() > 0 {
        lemma_trailing_le(d.drop_last());
    }
}

proof fn lemma_strip_push_zero(d: Seq<u8>)
    ensures
        strip_leading_zeros(d).len() > 0 ==> strip_leading_zeros(d.push(48u8)) == strip_leading_zeros(d).push(48u8),
        strip_leading_zeros(d).len() == 0 ==> strip_leading_zeros(d.push(48u8)).len() == 0,
    decreases d.len(),
{
    if d.len() == 0 {
        assert(d.push(48u8).drop_first() =~= Seq::<u8>::empty());
        assert(d.push(48u8)[0] == 48u8);
        assert(strip_leading_zeros(Seq::<u8>::empty()) =~= Seq::<u8>::empty());
    } else if d[0] == 48u8 {
        assert(d.push(48u8).drop_first() =~= d.drop_first().push(48u8));
        lemma_strip_push_zero(d.drop_first());
    } else {
        assert(d.push(48u8)[0] == d[0]);
    }
}

/// A zero at the end of the fraction does not change a float: `a.b` and `a.b0` compare
/// equal, as do `-a.b` and `-a.b0`.
pub proof fn lemma_float_trailing_zero(a: Seq<u8>, b: Seq<u8>, neg: bool)
    requires
        forall|k: int| 0 <= k < a.len() ==> is_digit(#[trigger] a[k]),
        forall|k: int| 0 <= k < b.len() ==> is_digit(#[trigger] b[k]),
        a.len() > 0,
    ensures
        float_text_eq(
            (if neg { seq![45u8] } else { Seq::<u8>::empty() }) + decimal_text(a, true, b),
            (if neg { seq![45u8] } else { Seq::<u8>::empty() }) + decimal_text(a, true, b.push(48u8)),
        ),
{
    let b2 = b.push(48u8);
    assert forall|k: int| 0 <= k < b2.len() implies is_digit(#[trigger] b2[k]) by {
        if k < b.len() {
            assert(b2[k] == b[k]);
        }
    }
    lemma_decimal_key_of(a, true, b, neg);
    lemma_decimal_key_of(a, true, b2, neg);
    assert(a + b2 =~= (a + b).push(48u8));
    let d = a + b;
    lemma_strip_push_zero(d);
    let x = strip_leading_zeros(d);
    if x.len() > 0 {
        assert(x.push(48u8).drop_last() =~= x);
        assert(trailing_zeros(x.push(48u8)) == 1 + trailing_zeros(x));
        let tz = trailing_zeros(x);
        lemma_trailing_le(x);
        assert(x.push(48u8).subrange(0, x.len() + 1 - (tz + 1)) =~= x.subrange(0, x.len() - tz));
    }
    let pre = if neg { seq![45u8] } else { Seq::<u8>::empty() };
    let t1 = pre + decimal_text(a, true, b);
    let t2 = pre + decimal_text(a, true, b2);
    assert(a[0] == decimal_text(a, true, b)[0]);
    assert(a[0] == decimal_text(a, true, b2)[0]);
    if neg {
        assert(t1.skip(1) =~= decimal_text(a, true, b));
        assert(t2.skip(1) =~= decimal_text(a, true, b2));
        assert(t1[0] == 45u8 && t2[0] == 45u8);
    } else {
        assert(t1 =~= decimal_text(a, true, b));
        assert(t2 =~= decimal_text(a, true, b2));
    }
    lemma_not_word(decimal_text(a, true, b), seq![105u8, 110u8, 102u8]);
    lemma_not_word(decimal_text(a, true, b), seq![105u8, 110u8, 102u8, 105u8, 110u8, 105u8, 116u8, 121u8]);
    lemma_not_word(decimal_text(a, true, b), seq![110u8, 97u8, 110u8]);
    lemma_not_word(decimal_text(a, true, b2), seq![105u8, 110u8, 102u8]);
    lemma_not_word(decimal_text(a, true, b2), seq![105u8, 110u8, 102u8, 105u8, 110u8, 105u8, 116u8, 121u8]);
    lemma_not_word(decimal_text(a, true, b2), seq![110u8, 97u8, 110u8]);
}

proof fn lemma_not_word(r: Seq<u8>, w: Seq<u8>)
    requires
        r.len() > 0,
        is_digit(r[0]) || r[0] == 46u8,
        w.len() > 0,
        97 <= w[0] <= 122,
    ensures
        !eq_ignore_case(r, w),
{
    assert(lower(r[0]) == r[0]);
}

/// A non-zero decimal number and its negation are different floats, whatever their
/// digits: the text `t` and `-t` never compare equal, while `t` equals itself.
pub proof fn lemma_float_sign_matters(a: Seq<u8>, dot: bool, b: Seq<u8>)
    requires
        nonzero_decimal(a, dot, b),
    ensures
        !float_text_eq(decimal_text(a, dot, b), seq![45u8] + decimal_text(a, dot, b)),
        !float_text_eq(seq![45u8] + decimal_text(a, dot, b), decimal_text(a, dot, b)),
        float_text_eq(decimal_text(a, dot, b), decimal_text(a, dot, b)),
{
    let t = decimal_text(a, dot, b);
    let mt = seq![45u8] + t;
    lemma_decimal_kind(a, dot, b, false);
    lemma_decimal_kind(a, dot, b, true);
    assert(t.len() > 0);
    if a.len() > 0 {
        assert(t[0] == a[0]);
    } else {
        assert(dot && t[0] == 46u8);
    }
    assert(mt.skip(1) =~= t);
    assert(mt[0] == 45u8);
    lemma_not_word(t, seq![105u8, 110u8, 102u8]);
    lemma_not_word(t, seq![105u8, 110u8, 102u8, 105u8, 110u8, 105u8, 116u8, 121u8]);
    lemma_not_word(t, seq![110u8, 97u8, 110u8]);
}

/// `10^n`.
pub open spec fn pow10(n: nat) -> nat
    decreases n,
{
    if n == 0 {
        1
    } else {
        10 * pow10((n - 1) as nat)
    }
}

proof fn lemma_pow10_mono(m: nat, n: nat)
    requires
        m <= n,
    ensures
        pow10(m) <= pow10(n),
    decreases n,
{
    if m < n {
        lemma_pow10_mono(m, (n - 1) as nat);
    }
}

proof fn lemma_digits_small(d: Seq<u8>)
    requires
        forall|k: int| 0 <= k < d.len() ==> is_digit(d[k]),
    ensures
        digits_value(d, 10) is Some,
        digits_value(d, 10).unwrap() < pow10(d.len()),
    decreases d.len(),
{
    if d.len() > 0 {
        lemma_digits_small(d.drop_last());
    }
}

proof fn lemma_pow10_18(n: nat)
    requires
        n <= 18,
    ensures
        pow10(n) <= 1000000000000000000,
{
    lemma_pow10_mono(n, 18);
    reveal_with_fuel(pow10, 19);
}

fn number_key_exec(m: &Vec<u8>, e: i128, neg: bool) -> (r: (u8, Vec<u8>, i128))
    requires
        -1000000000000000000000000000000 <= e <= 1000000000000000000000000000000,
        m@.len() <= usize::MAX,
    ensures
        number_key(m@, e as int, neg) == (r.0 as int, r.1@, r.2 as int),
{
    let mut a: usize = 0;
    while a < m.len() && m[a] == 48u8
        invariant
            a <= m@.len(),
            forall|k: int| 0 <= k < a ==> m@[k] == 48u8,
        decreases m@.len() - a,
    {
        a = a + 1;
    }
    proof { lemma_strip_leading(m@, a as int); }
    if a == m.len() {
        return (0u8, Vec::new(), 0i128);
    }
    let mut b: usize = m.len();
    while b > a && m[b - 1] == 48u8
        invariant
            a < b <= m@.len(),
            m@[a as int] != 48u8,
            forall|k: int| b <= k < m@.len() ==> m@[k] == 48u8,
        decreases b,
    {
        b = b - 1;
    }
    let ghost d = m@.skip(a as int);
    proof {
        lemma_trailing(d, (b - a) as int);
    }
    let mut digits: Vec<u8> = Vec::new();
    push_range(&mut digits, m.as_slice(), a, b);
    assert(digits@ =~= d.subrange(0, d.len() - trailing_zeros(d)));
    let tz: i128 = (m.len() - b) as i128;
    (if neg { 5u8 } else { 4u8 }, digits, e + tz)
}

#[verifier::rlimit(80)]
fn decimal_key_exec(r: &[u8], neg: bool) -> (k: Option<(u8, Vec<u8>, i128)>)
    ensures
        k is None ==> decimal_key(r@, neg) is None,
        k matches Some(k) ==> decimal_key(r@, neg) == Some((k.0 as int, k.1@, k.2 as int)),
{
    let n: usize = r.len();
    let n_int = digit_run_exec(r, 0);
    let has_dot = n_int < n && r[n_int] == 46u8;
    let f0: usize = if has_dot { n_int + 1 } else { n_int };
    let n_frac: usize = if has_dot { digit_run_exec(r, f0) } else { 0 };
    let e0: usize = f0 + n_frac;
    let has_exp = e0 < n && (r[e0] == 101u8 || r[e0] == 69u8);
    let x0: usize = if has_exp { e0 + 1 } else { e0 };
    let exp_neg = has_exp && x0 < n && r[x0] == 45u8;
    let x1: usize = if has_exp && x0 < n && (r[x0] == 45u8 || r[x0] == 43u8) { x0 + 1 } else { x0 };
    let n_exp: usize = if has_exp { digit_run_exec(r, x1) } else { 0 };
    let end: usize = x1 + n_exp;
    if n_int + n_frac == 0 || (has_exp && n_exp == 0) || end != n || n_exp > 18 {
        return None;
    }
    let mut e: i128 = 0;
    if has_exp {
        let v = parse_radix(&r[x1..end], 10);
        proof {
            let xs = r@.subrange(x1 as int, end as int);
            lemma_digit_run_all(r@, x1 as int, end as int);
            lemma_digits_small(xs);
            lemma_pow10_18(xs.len());
            assert(digits_value(xs, 10).unwrap() < 1000000000000000000);
            assert(xs.len() > 0 && !(xs[0] == 45u8 || xs[0] == 43u8));
            assert(radix_value(xs, 10) == Some(digits_value(xs, 10).unwrap() as int));
        }
        match v {
            Some(v) => { e = v as i128; },
            None => { return None; },
        }
    }
    let mut m: Vec<u8> = Vec::new();
    push_range(&mut m, r, 0, n_int);
    push_range(&mut m, r, f0, e0);
    assert(m@ =~= r@.subrange(0, n_int as int) + r@.subrange(f0 as int, e0 as int));
    let ex: i128 = (if exp_neg { 0 - e } else { e }) - n_frac as i128;
    let key = number_key_exec(&m, ex, neg);
    Some(key)
}

/// The exact decimal value of a float text, as described by [`float_key`].
fn float_key_exec(s: &[u8]) -> (r: Option<(u8, Vec<u8>, i128)>)
    ensures
        r is None ==> float_key(s@) is None,
        r matches Some(k) ==> float_key(s@) == Some((k.0 as int, k.1@, k.2 as int)),
{
    let n: usize = s.len();
    let neg = n > 0 && s[0] == 45u8;
    let st: usize = if n > 0 && (s[0] == 45u8 || s[0] == 43u8) { 1 } else { 0 };
    let body = &s[st..n];
    assert(body@ =~= (if s@.len() > 0 && (s@[0] == 45u8 || s@[0] == 43u8) { s@.skip(1) } else { s@ }));
    let w_inf: Vec<u8> = vec![105u8, 110u8, 102u8];
    let w_infinity: Vec<u8> = vec![105u8, 110u8, 102u8, 105u8, 110u8, 105u8, 116u8, 121u8];
    let w_nan: Vec<u8> = vec![110u8, 97u8, 110u8];
    assert(w_inf@ =~= seq![105u8, 110u8, 102u8]);
    assert(w_infinity@ =~= seq![105u8, 110u8, 102u8, 105u8, 110u8, 105u8, 116u8, 121u8]);
    assert(w_nan@ =~= seq![110u8, 97u8, 110u8]);
    assert(body@.skip(0) =~= body@);
    if eq_ignore_case_exec(body, 0, w_inf.as_slice()) || eq_ignore_case_exec(body, 0, w_infinity.as_slice()) {
        return Some((if neg { 3u8 } else { 2u8 }, Vec::new(), 0i128));
    }
    if eq_ignore_case_exec(body, 0, w_nan.as_slice()) {
        return Some((1u8, Vec::new(), 0i128));
    }
    decimal_key_exec(body, neg)
}

/// Compares two integer texts as [`int_text_eq`] says.
pub fn int_text_eq_exec(a: &str, b: &str) -> (r: bool)
    ensures
        r == int_text_eq(a.spec_bytes(), b.spec_bytes()),
{
    match (to_i64(a), to_i64(b)) {
        (Some(x), Some(y)) => x == y,
        _ => bytes_equal(a.as_bytes(), b.as_bytes()),
    }
}

/// Compares two float texts as [`float_text_eq`] says.
pub fn float_text_eq_exec(a: &str, b: &str) -> (r: bool)
    ensures
        r == float_text_eq(a.spec_bytes(), b.spec_bytes()),
{
    match (float_key_exec(a.as_bytes()), float_key_exec(b.as_bytes())) {
        (Some(x), Some(y)) => {
            let same = x.0 == y.0 && x.2 == y.2 && bytes_equal(x.1.as_slice(), y.1.as_slice());
            assert(same == ((x.0 as int, x.1@, x.2 as int) == (y.0 as int, y.1@, y.2 as int)));
            same
        },
        _ => bytes_equal(a.as_bytes(), b.as_bytes()),
    }
}

} // verus!
