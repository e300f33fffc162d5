//! Text of setting values: the decimal integers and float literals a device
//! sends, and the UTF-8 conversions between bytes and strings.
use vstd::prelude::*;
use vstd::utf8::*;

verus! {

broadcast use {encode_utf8_decode_utf8, encode_utf8_valid_utf8};

/// The bytes of `'0'` to `'9'`.
pub open spec fn is_digit(b: u8) -> bool {
    48 <= b <= 57
}

pub open spec fn all_digits(d: Seq<u8>) -> bool {
    forall|i: int| 0 <= i < d.len() ==> is_digit(#[trigger] d[i])
}

/// The number that a run of decimal digits writes, most significant first.
pub open spec fn digits_value(d: Seq<u8>) -> nat
    decreases d.len(),
{
    if d.len() == 0 {
        0
    } else {
        digits_value(d.drop_last()) * 10 + (d.last() - 48) as nat
    }
}

/// The integer written by `[+-]?[0-9]+`, or `None` for any other text.
pub open spec fn integer_text_value(b: Seq<u8>) -> Option<int> {
    if b.len() == 0 {
        None
    } else if b[0] == 43u8 || b[0] == 45u8 {
        let d = b.drop_first();
        if d.len() == 0 || !all_digits(d) {
            None
        } else if b[0] == 45u8 {
            Some(-digits_value(d))
        } else {
            Some(digits_value(d) as int)
        }
    } else if all_digits(b) {
        Some(digits_value(b) as int)
    } else {
        None
    }
}

/// What `i64::from_str` gives for the given UTF-8 text: the integer it
/// writes where that fits in an `i64`.
pub open spec fn i64_from_text(b: Seq<u8>) -> Option<i64> {
    match integer_text_value(b) {
        Some(v) => if i64::MIN <= v <= i64::MAX {
            Some(v as i64)
        } else {
            None
        },
        None => None,
    }
}

proof fn lemma_digits_value_prefix(d: Seq<u8>, i: int)
    requires
        0 <= i <= d.len(),
    ensures
        digits_value(d.take(i)) <= digits_value(d),
    decreases d.len(),
{
    if i < d.len() {
        assert(d.drop_last().take(i) =~= d.take(i));
        lemma_digits_value_prefix(d.drop_last(), i);
    } else {
        assert(d.take(i) =~= d);
    }
}

proof fn lemma_digits_value_step(d: Seq<u8>, i: int)
    requires
        0 <= i < d.len(),
    ensures
        digits_value(d.take(i + 1)) == digits_value(d.take(i)) * 10 + (d[i] - 48) as nat,
{
    assert(d.take(i + 1).drop_last() =~= d.take(i));
}

/// The magnitude of a run of digits, or `None` past `bound`.
fn digits_magnitude(d: &[u8], start: usize, bound: u64) -> (r: Option<u64>)
    requires
        start < d@.len(),
        all_digits(d@.skip(start as int)),
        bound >= 9,
    ensures
        r matches Some(m) ==> m == digits_value(d@.skip(start as int)) && m <= bound,
        r is None ==> digits_value(d@.skip(start as int)) > bound,
{
    let ghost s = d@.skip(start as int);
    let mut acc: u64 = 0;
    let mut i: usize = start;
    while i < d.len()
        invariant
            start <= i <= d@.len(),
            s == d@.skip(start as int),
            all_digits(s),
            acc == digits_value(s.take(i - start)),
            acc <= bound,
            bound >= 9,
        decreases d@.len() - i,
    {
        let ghost k: int = i - start;
        assert(s[k] == d@[i as int]);
        let digit: u64 = (d[i] - 48) as u64;
        proof {
            lemma_digits_value_step(s, k);
        }
        if acc > (bound - digit) / 10 {
            proof {
                assert(acc * 10 + digit > bound) by (nonlinear_arith)
                    requires
                        acc > (bound - digit) / 10,
                        digit <= bound || digit > bound,
                        acc >= 0,
                        digit >= 0,
                ;
                lemma_digits_value_prefix(s, k + 1);
            }
            return None;
        }
        proof {
            assert(acc * 10 + digit <= bound) by (nonlinear_arith)
                requires
                    acc <= (bound - digit) / 10,
                    digit <= 9,
                    acc >= 0,
            ;
        }
        acc = acc * 10 + digit;
        i = i + 1;
    }
    assert(s.take(i - start) =~= s);
    Some(acc)
}

fn all_digits_from(d: &[u8], start: usize) -> (r: bool)
    requires
        start <= d@.len(),
    ensures
        r == all_digits(d@.skip(start as int)),
{
    let mut i = start;
    while i < d.len()
        invariant
            start <= i <= d@.len(),
            forall|j: int| start <= j < i ==> is_digit(#[trigger] d@[j]),
        decreases d@.len() - i,
    {
        if d[i] < 48 || d[i] > 57 {
            assert(d@.skip(start as int)[i - start] == d@[i as int]);
            return false;
        }
        i = i + 1;
    }
    assert forall|j: int| 0 <= j < d@.skip(start as int).len() implies is_digit(
        #[trigger] d@.skip(start as int)[j],
    ) by {
        assert(d@.skip(start as int)[j] == d@[start + j]);
    }
    true
}

/// Reads a decimal integer as `i64::from_str` does.
pub fn parse_i64(b: &[u8]) -> (r: Option<i64>)
    ensures
        r == i64_from_text(b@),
{
    if b.len() == 0 {
        return None;
    }
    let signed = b[0] == 43u8 || b[0] == 45u8;
    let start: usize = if signed {
        1
    } else {
        0
    };
    if signed && b.len() == 1 {
        return None;
    }
    if !all_digits_from(b, start) {
        assert(b@.skip(0) =~= b@);
        assert(b@.skip(1) =~= b@.drop_first());
        return None;
    }
    assert(b@.skip(0) =~= b@);
    assert(b@.skip(1) =~= b@.drop_first());
    if b[0] == 45u8 {
        match digits_magnitude(b, start, 9223372036854775808u64) {
            Some(m) => {
                if m == 9223372036854775808u64 {
                    Some(i64::MIN)
                } else {
                    Some(0 - (m as i64))
                }
            },
            None => None,
        }
    } else {
        match digits_magnitude(b, start, 9223372036854775807u64) {
            Some(m) => Some(m as i64),
            None => None,
        }
    }
}

/// The decimal digits of `n`, most significant first, with no leading zero.
pub open spec fn decimal_chars(n: nat) -> Seq<char>
    decreases n,
{
    if n < 10 {
        seq![(n + 48) as char]
    } else {
        decimal_chars(n / 10).push(((n % 10) + 48) as char)
    }
}

/// How `i64` is written by its `Display`.
pub open spec fn i64_text(v: i64) -> Seq<char> {
    if v < 0 {
        seq!['-'] + decimal_chars((-v) as nat)
    } else {
        decimal_chars(v as nat)
    }
}

proof fn lemma_decimal_chars_ascii(n: nat)
    ensures
        is_ascii_chars(decimal_chars(n)),
        decimal_chars(n).len() > 0,
        forall|i: int|
            0 <= i < decimal_chars(n).len() ==> is_digit(#[trigger] decimal_chars(n)[i] as u8),
    decreases n,
{
    if n >= 10 {
        lemma_decimal_chars_ascii(n / 10);
    }
}

proof fn lemma_decimal_chars_value(n: nat)
    ensures
        ({
            let b = encode_utf8(decimal_chars(n));
            all_digits(b) && digits_value(b) == n && b.len() > 0
        }),
    decreases n,
{
    lemma_decimal_chars_ascii(n);
    vstd::utf8::is_ascii_chars_encode_utf8(decimal_chars(n));
    let c = decimal_chars(n);
    let b = encode_utf8(c);
    assert forall|i: int| 0 <= i < b.len() implies is_digit(#[trigger] b[i]) by {
        assert(is_digit(c[i] as u8));
    }
    if n >= 10 {
        lemma_decimal_chars_value(n / 10);
        lemma_decimal_chars_ascii(n / 10);
        vstd::utf8::is_ascii_chars_encode_utf8(decimal_chars(n / 10));
        let p = encode_utf8(decimal_chars(n / 10));
        assert(b.drop_last() =~= p);
        assert(b.last() == ((n % 10) + 48) as u8);
        assert(digits_value(b) == digits_value(p) * 10 + (n % 10));
        assert(n == (n / 10) * 10 + n % 10);
        assert(digits_value(b) == n);
    } else {
        assert(b.drop_last() =~= Seq::<u8>::empty());
        assert(digits_value(b.drop_last()) == 0);
        assert(b.last() == (n + 48) as u8);
        assert(b.len() == 1);
        assert(digits_value(b) == n);
    }
    assert(all_digits(b));
    assert(b.len() > 0);
}

fn push_decimal(n: u64, out: &mut Vec<u8>)
    ensures
        final(out)@ == old(out)@ + encode_utf8(decimal_chars(n as nat)),
    decreases n,
{
    proof {
        lemma_decimal_chars_ascii(n as nat);
        vstd::utf8::is_ascii_chars_encode_utf8(decimal_chars(n as nat));
    }
    if n >= 10 {
        push_decimal(n / 10, out);
        proof {
            lemma_decimal_chars_ascii((n / 10) as nat);
            vstd::utf8::is_ascii_chars_encode_utf8(decimal_chars((n / 10) as nat));
        }
    }
    let ghost before = out@;
    out.push((n % 10) as u8 + 48);
    proof {
        let full = encode_utf8(decimal_chars(n as nat));
        if n >= 10 {
            let p = encode_utf8(decimal_chars((n / 10) as nat));
            assert(full =~= p.push(((n % 10) + 48) as u8));
            assert(out@ =~= old(out)@ + full);
        } else {
            assert(full =~= seq![(n + 48) as u8]);
            assert(out@ =~= old(out)@ + full);
        }
    }
}

/// The UTF-8 bytes of `n` written as its `Display` writes it.
pub fn u64_bytes(n: u64) -> (r: Vec<u8>)
    ensures
        r@ == encode_utf8(decimal_chars(n as nat)),
{
    let mut out: Vec<u8> = Vec::new();
    push_decimal(n, &mut out);
    assert(out@ =~= encode_utf8(decimal_chars(n as nat)));
    out
}

/// The UTF-8 bytes of `v` written as its `Display` writes it.
pub fn i64_bytes(v: i64) -> (r: Vec<u8>)
    ensures
        r@ == encode_utf8(i64_text(v)),
{
    let mut out: Vec<u8> = Vec::new();
    if v < 0 {
        out.push(45u8);
        let m: u64 = if v == i64::MIN {
            9223372036854775808u64
        } else {
            (0 - v) as u64
        };
        push_decimal(m, &mut out);
        proof {
            let c = decimal_chars(m as nat);
            lemma_decimal_chars_ascii(m as nat);
            let t = seq!['-'] + c;
            assert(t =~= i64_text(v));
            assert(is_ascii_chars(t)) by {
                assert forall|i: int| 0 <= i < t.len() implies '\0' <= #[trigger] t[i] <= '\u{7f}' by {
                    if i > 0 {
                        assert(t[i] == c[i - 1]);
                    }
                }
            }
            is_ascii_chars_encode_utf8(t);
            is_ascii_chars_encode_utf8(c);
            assert(out@ =~= encode_utf8(t));
        }
    } else {
        push_decimal(v as u64, &mut out);
        assert(out@ =~= encode_utf8(i64_text(v)));
    }
    out
}

/// Writing an `i64` and reading the text back gives the same number.
pub proof fn lemma_i64_text_roundtrip(v: i64)
    ensures
        i64_from_text(encode_utf8(i64_text(v))) == Some(v),
        i64_text(v).len() > 0,
{
    if v < 0 {
        let m = (-v) as nat;
        let c = decimal_chars(m);
        lemma_decimal_chars_ascii(m);
        lemma_decimal_chars_value(m);
        let t = seq!['-'] + c;
        assert(t =~= i64_text(v));
        assert(is_ascii_chars(t)) by {
            assert forall|i: int| 0 <= i < t.len() implies '\0' <= #[trigger] t[i] <= '\u{7f}' by {
                if i > 0 {
                    assert(t[i] == c[i - 1]);
                }
            }
        }
        is_ascii_chars_encode_utf8(t);
        is_ascii_chars_encode_utf8(c);
        let b = encode_utf8(t);
        assert(b.drop_first() =~= encode_utf8(c));
        assert(b[0] == 45u8);
    } else {
        let c = decimal_chars(v as nat);
        lemma_decimal_chars_ascii(v as nat);
        lemma_decimal_chars_value(v as nat);
        is_ascii_chars_encode_utf8(c);
        let b = encode_utf8(c);
        assert(is_digit(b[0]));
    }
}

/// An ASCII letter in lower case; other bytes as they are.
pub open spec fn lower(b: u8) -> u8 {
    if 65 <= b <= 90 {
        (b + 32) as u8
    } else {
        b
    }
}

/// `b` spells `w` (given in lower case), ignoring the case of letters.
pub open spec fn spells(b: Seq<u8>, w: Seq<u8>) -> bool {
    b.len() == w.len() && forall|i: int| 0 <= i < b.len() ==> lower(#[trigger] b[i]) == w[i]
}

/// `inf`, `infinity` or `nan`, in any case.
pub open spec fn is_special_float(b: Seq<u8>) -> bool {
    ||| spells(b, seq![105u8, 110, 102])
    ||| spells(b, seq![105u8, 110, 102, 105, 110, 105, 116, 121])
    ||| spells(b, seq![110u8, 97, 110])
}

/// Digits with at most one `.` among them, and at least one digit.
pub open spec fn is_mantissa(m: Seq<u8>) -> bool {
    &&& forall|i: int| 0 <= i < m.len() ==> is_digit(#[trigger] m[i]) || m[i] == 46u8
    &&& forall|i: int, j: int| 0 <= i < j < m.len() && #[trigger] m[i] == 46u8 ==> #[trigger] m[j] != 46u8
    &&& exists|i: int| 0 <= i < m.len() && is_digit(#[trigger] m[i])
}

/// What may follow the `e` of an exponent: a sign, then at least one digit.
pub open spec fn is_exponent(x: Seq<u8>) -> bool {
    ||| x.len() > 0 && all_digits(x)
    ||| x.len() > 1 && (x[0] == 43u8 || x[0] == 45u8) && all_digits(x.drop_first())
}

pub open spec fn is_e(b: u8) -> bool {
    b == 101u8 || b == 69u8
}

/// A decimal number with an optional exponent.
pub open spec fn is_decimal_number(b: Seq<u8>) -> bool {
    ||| is_mantissa(b)
    ||| exists|k: int|
        0 <= k < b.len() && is_e(#[trigger] b[k]) && is_mantissa(b.take(k)) && is_exponent(
            b.skip(k + 1),
        )
}

/// The text `f32::from_str` accepts: an optional sign, then `inf`,
/// `infinity` or `nan` in any case, or a decimal number in which the
/// digits before or after the point may be missing, but not both, and an
/// optional exponent.
pub open spec fn is_float_text(b: Seq<u8>) -> bool {
    let body = if b.len() > 0 && (b[0] == 43u8 || b[0] == 45u8) {
        b.drop_first()
    } else {
        b
    };
    is_special_float(body) || is_decimal_number(body)
}

fn spells_at(b: &[u8], lo: usize, w: &[u8]) -> (r: bool)
    requires
        lo <= b@.len(),
    ensures
        r == spells(b@.skip(lo as int), w@),
{
    let ghost s = b@.skip(lo as int);
    let n = b.len();
    if n - lo != w.len() {
        return false;
    }
    let mut i: usize = 0;
    while i < w.len()
        invariant
            n == b@.len(),
            s == b@.skip(lo as int),
            s.len() == w@.len(),
            lo + w@.len() == b@.len(),
            0 <= i <= w@.len(),
            forall|j: int| 0 <= j < i ==> lower(#[trigger] s[j]) == w@[j],
        decreases w@.len() - i,
    {
        let c = b[lo + i];
        assert(s[i as int] == c);
        let l = if 65 <= c && c <= 90 {
            c + 32
        } else {
            c
        };
        if l != w[i] {
            return false;
        }
        i = i + 1;
    }
    true
}

fn mantissa_at(b: &[u8], lo: usize, hi: usize) -> (r: bool)
    requires
        lo <= hi <= b@.len(),
    ensures
        r == is_mantissa(b@.subrange(lo as int, hi as int)),
{
    let ghost m = b@.subrange(lo as int, hi as int);
    let mut dot_at: Option<usize> = None;
    let mut digit_at: Option<usize> = None;
    let mut i = lo;
    while i < hi
        invariant
            m == b@.subrange(lo as int, hi as int),
            lo <= i <= hi <= b@.len(),
            forall|j: int| lo <= j < i ==> is_digit(#[trigger] b@[j]) || b@[j] == 46u8,
            dot_at matches Some(d) ==> lo <= d < i && b@[d as int] == 46u8,
            forall|j: int| lo <= j < i && #[trigger] b@[j] == 46u8 ==> dot_at == Some(j as usize),
            digit_at matches Some(d) ==> lo <= d < i && is_digit(b@[d as int]),
            digit_at is None ==> forall|j: int| lo <= j < i ==> !is_digit(#[trigger] b@[j]),
        decreases hi - i,
    {
        let c = b[i];
        if c == 46u8 {
            if let Some(d) = dot_at {
                assert(m[d - lo] == 46u8 && m[i - lo] == 46u8);
                return false;
            }
            dot_at = Some(i);
        } else if 48 <= c && c <= 57 {
            digit_at = Some(i);
        } else {
            assert(m[i - lo] == c);
            return false;
        }
        i = i + 1;
    }
    match digit_at {
        Some(d) => {
            assert(is_digit(m[d - lo]));
            assert forall|x: int, y: int| 0 <= x < y < m.len() && #[trigger] m[x] == 46u8 implies #[trigger] m[y] != 46u8 by {
                assert(m[x] == b@[lo + x]);
                assert(m[y] == b@[lo + y]);
            }
            assert forall|x: int| 0 <= x < m.len() implies is_digit(#[trigger] m[x]) || m[x] == 46u8 by {
                assert(m[x] == b@[lo + x]);
            }
            true
        },
        None => {
            assert forall|x: int| 0 <= x < m.len() implies !is_digit(#[trigger] m[x]) by {
                assert(m[x] == b@[lo + x]);
            }
            false
        },
    }
}

fn exponent_at(b: &[u8], lo: usize) -> (r: bool)
    requires
        lo <= b@.len(),
    ensures
        r == is_exponent(b@.skip(lo as int)),
{
    let ghost x = b@.skip(lo as int);
    if lo == b.len() {
        return false;
    }
    assert(x[0] == b@[lo as int]);
    if b[lo] == 43u8 || b[lo] == 45u8 {
        if lo + 1 == b.len() {
            assert(!is_digit(x[0]));
            return false;
        }
        assert(x.drop_first() =~= b@.skip(lo + 1));
        let r = all_digits_from(b, lo + 1);
        assert(!is_digit(x[0]));
        r
    } else {
        all_digits_from(b, lo)
    }
}

/// Text that `f32::from_str` accepts is never empty.
pub proof fn lemma_float_text_nonempty(t: Seq<char>)
    requires
        is_float_text(encode_utf8(t)),
    ensures
        t.len() > 0,
{
    if t.len() == 0 {
        assert(encode_utf8(t) =~= Seq::<u8>::empty());
    }
}

/// Digits, a point and digits, with at least one digit, optionally signed
/// and followed by an exponent, is float text; so are plain digits.
pub proof fn law_decimal_is_float_text(sign: Seq<u8>, d1: Seq<u8>, d2: Seq<u8>, exp: Seq<u8>)
    requires
        all_digits(d1),
        all_digits(d2),
        d1.len() + d2.len() > 0,
        sign.len() == 0 || sign == seq![43u8] || sign == seq![45u8],
        exp.len() == 0 || (exp.len() > 1 && (exp[0] == 101u8 || exp[0] == 69u8) && is_exponent(exp.drop_first())),
    ensures
        is_float_text(sign + d1 + seq![46u8] + d2 + exp),
        d1.len() > 0 ==> is_float_text(sign + d1 + exp),
{
    let m = d1 + seq![46u8] + d2;
    assert forall|i: int| 0 <= i < m.len() implies is_digit(#[trigger] m[i]) || m[i] == 46u8 by {
        if i < d1.len() {
            assert(m[i] == d1[i]);
        } else if i > d1.len() {
            assert(m[i] == d2[i - d1.len() - 1]);
        }
    }
    assert forall|i: int, j: int| 0 <= i < j < m.len() && #[trigger] m[i] == 46u8 implies #[trigger] m[j] != 46u8 by {
        if i < d1.len() {
            assert(m[i] == d1[i]);
            assert(is_digit(d1[i]));
        } else if i == d1.len() {
            assert(m[j] == d2[j - d1.len() - 1]);
            assert(is_digit(d2[j - d1.len() - 1]));
        } else {
            assert(m[i] == d2[i - d1.len() - 1]);
            assert(is_digit(d2[i - d1.len() - 1]));
        }
    }
    if d1.len() > 0 {
        assert(m[0] == d1[0]);
        assert(is_digit(m[0]));
    } else {
        assert(m[1] == d2[0]);
        assert(is_digit(m[1]));
    }
    assert(is_mantissa(m));
    lemma_number_is_float_text(sign, m, exp);
    assert(sign + d1 + seq![46u8] + d2 + exp =~= sign + m + exp);
    if d1.len() > 0 {
        assert(d1[0] == d1[0]);
        assert(is_digit(d1[0]));
        assert forall|i: int| 0 <= i < d1.len() implies is_digit(#[trigger] d1[i]) || d1[i] == 46u8 by {}
        assert(is_mantissa(d1));
        lemma_number_is_float_text(sign, d1, exp);
    }
}

proof fn lemma_number_is_float_text(sign: Seq<u8>, m: Seq<u8>, exp: Seq<u8>)
    requires
        is_mantissa(m),
        sign.len() == 0 || sign == seq![43u8] || sign == seq![45u8],
        exp.len() == 0 || (exp.len() > 1 && (exp[0] == 101u8 || exp[0] == 69u8) && is_exponent(exp.drop_first())),
    ensures
        is_float_text(sign + m + exp),
{
    let body = m + exp;
    let b = sign + m + exp;
    assert(b =~= sign + body);
    assert(m.len() > 0);
    assert(is_digit(m[0]) || m[0] == 46u8);
    if sign.len() == 0 {
        assert(b =~= body);
        assert(body[0] == m[0]);
    } else {
        assert(b[0] == sign[0]);
        assert(b.drop_first() =~= body);
    }
    if exp.len() == 0 {
        assert(body =~= m);
    } else {
        let k = m.len() as int;
        assert(body[k] == exp[0]);
        assert(body.take(k) =~= m);
        assert(body.skip(k + 1) =~= exp.drop_first());
        assert(is_e(body[k]));
    }
}

/// Tells whether `f32::from_str` accepts the text.
pub fn is_float_literal(b: &[u8]) -> (r: bool)
    ensures
        r == is_float_text(b@),
{
    let lo: usize = if b.len() > 0 && (b[0] == 43u8 || b[0] == 45u8) {
        1
    } else {
        0
    };
    let ghost body = b@.skip(lo as int);
    assert(b@.skip(0) =~= b@);
    assert(b@.skip(1) =~= b@.drop_first());
    let inf = vec![105u8, 110, 102];
    let infinity = vec![105u8, 110, 102, 105, 110, 105, 116, 121];
    let nan = vec![110u8, 97, 110];
    assert(inf@ =~= seq![105u8, 110, 102]);
    assert(infinity@ =~= seq![105u8, 110, 102, 105, 110, 105, 116, 121]);
    assert(nan@ =~= seq![110u8, 97, 110]);
    if spells_at(b, lo, inf.as_slice()) || spells_at(b, lo, infinity.as_slice()) || spells_at(
        b,
        lo,
        nan.as_slice(),
    ) {
        return true;
    }
    let mut k = lo;
    while k < b.len() && b[k] != 101u8 && b[k] != 69u8
        invariant
            lo <= k <= b@.len(),
            forall|j: int| lo <= j < k ==> !is_e(#[trigger] b@[j]),
        decreases b@.len() - k,
    {
        k = k + 1;
    }
    if k == b.len() {
        assert(b@.subrange(lo as int, k as int) =~= body);
        let r = mantissa_at(b, lo, k);
        proof {
            assert forall|q: int| 0 <= q < body.len() implies !is_e(#[trigger] body[q]) by {
                assert(body[q] == b@[lo + q]);
            }
        }
        return r;
    }
    assert(body[k - lo] == b@[k as int]);
    assert(b@.subrange(lo as int, k as int) =~= body.take(k - lo));
    assert(b@.skip(k + 1) =~= body.skip(k - lo + 1));
    let r = mantissa_at(b, lo, k) && exponent_at(b, k + 1);
    proof {
        let kk: int = k - lo;
        // the body holds an `e`, so it is no mantissa
        assert(!(is_digit(body[kk]) || body[kk] == 46u8));
        if !r {
            assert forall|q: int|
                0 <= q < body.len() && is_e(#[trigger] body[q]) && is_mantissa(body.take(q))
                implies !is_exponent(body.skip(q + 1)) by {
                if q < kk {
                    assert(body[q] == b@[lo + q]);
                } else if q > kk {
                    let t = body.take(q);
                    assert(t[kk] == body[kk]);
                } else {
                }
            }
        }
    }
    r
}

/// The characters that `String::from_utf8_lossy` makes of bytes that are
/// not valid UTF-8.
pub uninterp spec fn lossy_text(bytes: Seq<u8>) -> Seq<char>;

/// The text of a run of bytes: its characters where it is valid UTF-8,
/// and where it is not, the text with replacement characters that
/// `String::from_utf8_lossy` makes of it.
pub open spec fn bytes_text(bytes: Seq<u8>) -> Seq<char> {
    if valid_utf8(bytes) {
        decode_utf8(bytes)
    } else {
        lossy_text(bytes)
    }
}

/// Calls `String::from_utf8_lossy`; believed: valid UTF-8 is decoded as it
/// stands, and what it makes of other bytes depends on the bytes alone.
#[verifier::external_body]
pub(crate) fn text_of_bytes(bytes: &[u8]) -> (r: String)
    ensures
        valid_utf8(bytes@) ==> r@ == decode_utf8(bytes@),
        !valid_utf8(bytes@) ==> r@ == lossy_text(bytes@),
{
    String::from_utf8_lossy(bytes).into_owned()
}

/// Calls `String::from_utf8`; believed: it succeeds exactly on valid UTF-8,
/// with the characters the bytes encode.
#[verifier::external_body]
pub(crate) fn string_from_utf8(bytes: Vec<u8>) -> (r: Option<String>)
    ensures
        r is Some <==> valid_utf8(bytes@),
        r matches Some(s) ==> s@ == decode_utf8(bytes@),
{
    String::from_utf8(bytes).ok()
}

/// The text after the first `c` in `s`, if `s` holds a `c`.
pub open spec fn text_after(s: Seq<char>, c: char) -> Option<Seq<char>>
    decreases s.len(),
{
    if s.len() == 0 {
        None
    } else if s[0] == c {
        Some(s.drop_first())
    } else {
        text_after(s.drop_first(), c)
    }
}

/// Calls `str::split_once` with `':'`; believed: it splits at the first
/// colon and gives what follows it, and gives nothing where there is none.
#[verifier::external_body]
pub(crate) fn text_after_colon(s: &str) -> (r: Option<String>)
    ensures
        match r {
            Some(t) => text_after(s@, ':') == Some(t@),
            None => text_after(s@, ':') is None,
        },
{
    match s.split_once(':') {
        Some((_, after)) => Some(after.to_owned()),
        None => None,
    }
}

pub fn bytes_eq(x: &[u8], y: &[u8]) -> (r: bool)
    ensures
        r == (x@ == y@),
{
    if x.len() != y.len() {
        return false;
    }
    let mut i: usize = 0;
    while i < x.len()
        invariant
            x@.len() == y@.len(),
            0 <= i <= x@.len(),
            forall|j: int| 0 <= j < i ==> x@[j] == y@[j],
        decreases x@.len() - i,
    {
        if x[i] != y[i] {
            return false;
        }
        i = i + 1;
    }
    assert(x@ =~= y@);
    true
}

/// Compares two strings character for character.
pub fn str_eq(a: &str, b: &str) -> (r: bool)
    ensures
        r == (a@ == b@),
{
    let r = bytes_eq(a.as_bytes(), b.as_bytes());
    proof {
        if r {
            assert(decode_utf8(encode_utf8(a@)) == a@);
            assert(decode_utf8(encode_utf8(b@)) == b@);
        }
    }
    r
}

} // verus!
