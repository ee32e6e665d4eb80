//! Exact money: decimal text at the edges, i64 minor units inside.
//!
//! Parsing goes through `rust_decimal`; every step after the parse is stated
//! exactly, so an amount either converts to the integer its text denotes or is
//! rejected, never rounded.

use vstd::prelude::*;

use crate::text::{
    chars_range, chars_skip, digit_char, digit_value, digits_of, digits_value, from_chars, is_digit, is_ws,
    lead_ws, padded_digits, push_chars, to_chars, trail_ws, trim, trim_chars, trim_start,
    u128_digits, lemma_digits_of_are_digits,
};

verus! {

/// Why a decimal text is not an amount of an account.
#[derive(Debug, PartialEq, Eq, Structural, Clone, Copy)]
pub enum AmountError {
    Invalid,
    Precision { scale: u32 },
}

/// `10^n`.
pub open spec fn pow10(n: nat) -> nat
    decreases n,
{
    if n == 0 {
        1
    } else {
        10 * pow10((n - 1) as nat)
    }
}

pub proof fn lemma_pow10_positive(n: nat)
    ensures
        pow10(n) >= 1,
    decreases n,
{
    if n > 0 {
        lemma_pow10_positive((n - 1) as nat);
    }
}

pub proof fn lemma_pow10_add(a: nat, b: nat)
    ensures
        pow10(a + b) == pow10(a) * pow10(b),
    decreases b,
{
    if b > 0 {
        lemma_pow10_add(a, (b - 1) as nat);
        let c = (b - 1) as nat;
        assert((a + b - 1) as nat == a + c);
        assert(pow10(a + b) == 10 * pow10(a + c));
        assert(pow10(a + c) == pow10(a) * pow10(c));
        assert(pow10(b) == 10 * pow10(c));
        assert(pow10(a) * pow10(b) == 10 * (pow10(a) * pow10(c))) by (nonlinear_arith)
            requires
                pow10(b) == 10 * pow10(c),
        ;
    } else {
        assert(pow10(0) == 1);
        assert(a + b == a);
    }
}

pub proof fn lemma_pow10_monotone(a: nat, b: nat)
    requires
        a <= b,
    ensures
        pow10(a) <= pow10(b),
    decreases b,
{
    if a < b {
        lemma_pow10_monotone(a, (b - 1) as nat);
        lemma_pow10_positive((b - 1) as nat);
    }
}

pub(crate) proof fn lemma_pow10_38()
    ensures
        pow10(38) == 100000000000000000000000000000000000000,
        pow10(18) == 1000000000000000000,
{
    reveal_with_fuel(pow10, 39);
}

/// The text of `minor` minor units with `decimals` fraction digits:
/// an optional `-`, the whole part, and, when `decimals > 0`, a point and
/// exactly `decimals` fraction digits.
pub open spec fn amount_text(minor: int, decimals: nat) -> Seq<char> {
    let sign: Seq<char> = if minor < 0 {
        seq!['-']
    } else {
        Seq::empty()
    };
    let a: nat = if minor < 0 {
        (-minor) as nat
    } else {
        minor as nat
    };
    if decimals == 0 {
        sign + digits_of(a)
    } else {
        sign + digits_of(a / pow10(decimals)) + seq!['.'] + padded_digits(
            a % pow10(decimals),
            decimals,
        )
    }
}

/// `10^n` as a `u128`.
pub(crate) fn pow10_u128(n: u32) -> (r: u128)
    requires
        n <= 38,
    ensures
        r == pow10(n as nat),
{
    let mut r: u128 = 1;
    let mut i: u32 = 0;
    while i < n
        invariant
            i <= n <= 38,
            r == pow10(i as nat),
        decreases n - i,
    {
        proof {
            lemma_pow10_monotone((i + 1) as nat, 38);
            lemma_pow10_38();
            assert(pow10((i + 1) as nat) == 10 * pow10(i as nat));
        }
        r = r * 10;
        i = i + 1;
    }
    r
}

/// `n` zero-padded to `width` digits.
fn padded(n: u128, width: u32) -> (r: Vec<char>)
    ensures
        r@ == padded_digits(n as nat, width as nat),
{
    let d = u128_digits(n);
    if d.len() >= width as usize {
        d
    } else {
        let mut r: Vec<char> = Vec::new();
        let k = width as usize - d.len();
        let mut i: usize = 0;
        while i < k
            invariant
                i <= k,
                r@ =~= Seq::new(i as nat, |j: int| '0'),
            decreases k - i,
        {
            r.push('0');
            i = i + 1;
        }
        push_chars(&mut r, &d);
        r
    }
}

/// Format wide minor units with exactly `decimals` fraction digits.
pub fn format_wide(minor: i128, decimals: u32) -> (r: String)
    requires
        decimals <= 38,
    ensures
        r@ == amount_text(minor as int, decimals as nat),
{
    let mut v: Vec<char> = Vec::new();
    if minor < 0 {
        v.push('-');
    }
    let abs: u128 = if minor < 0 {
        if minor == i128::MIN {
            170141183460469231731687303715884105728u128
        } else {
            (-minor) as u128
        }
    } else {
        minor as u128
    };
    if decimals == 0 {
        let d = u128_digits(abs);
        push_chars(&mut v, &d);
    } else {
        let base = pow10_u128(decimals);
        proof {
            lemma_pow10_positive(decimals as nat);
        }
        let whole = u128_digits(abs / base);
        push_chars(&mut v, &whole);
        v.push('.');
        let frac = padded(abs % base, decimals);
        push_chars(&mut v, &frac);
    }
    from_chars(&v)
}

/// Format minor units with exactly `decimals` fraction digits.
pub fn format_amount(minor: i64, decimals: u32) -> (r: String)
    requires
        decimals <= 38,
    ensures
        r@ == amount_text(minor as int, decimals as nat),
{
    format_wide(minor as i128, decimals)
}

// ---------------------------------------------------------------------------
// Parsing
// ---------------------------------------------------------------------------
/// What `rust_decimal` makes of a text, as `(mantissa, scale)`.
pub uninterp spec fn decimal_from_str(text: Seq<char>) -> Option<(i128, u32)>;

/// The text after one leading `+`, if any.
pub open spec fn unsigned_part(t: Seq<char>) -> Seq<char> {
    if t.len() > 0 && t[0] == '+' {
        t.drop_first()
    } else {
        t
    }
}

/// The text after one leading `-`, if any.
pub open spec fn body_part(u: Seq<char>) -> Seq<char> {
    if u.len() > 0 && u[0] == '-' {
        u.drop_first()
    } else {
        u
    }
}

/// Only digits and points, with at least one digit.
pub open spec fn body_ok(b: Seq<char>) -> bool {
    &&& forall|i: int| 0 <= i < b.len() ==> is_digit(#[trigger] b[i]) || b[i] == '.'
    &&& exists|i: int| 0 <= i < b.len() && is_digit(#[trigger] b[i])
}

/// Number of points in `b`.
pub open spec fn dot_count(b: Seq<char>) -> nat
    decreases b.len(),
{
    if b.len() == 0 {
        0
    } else {
        dot_count(b.drop_last()) + if b.last() == '.' {
            1nat
        } else {
            0nat
        }
    }
}

/// Index of the first point in `b`, or its length when it has none.
pub open spec fn dot_pos(b: Seq<char>) -> nat
    decreases b.len(),
{
    if b.len() == 0 {
        0
    } else if b[0] == '.' {
        0
    } else {
        1 + dot_pos(b.drop_first())
    }
}

/// The digits of `b`, in order, when `b` has at most one point.
pub open spec fn body_digits(b: Seq<char>) -> Seq<char> {
    let k = dot_pos(b);
    if k < b.len() {
        b.take(k as int) + b.skip(k + 1int)
    } else {
        b
    }
}

/// Number of fraction digits of `b`.
pub open spec fn body_scale(b: Seq<char>) -> nat {
    let k = dot_pos(b);
    if k < b.len() {
        (b.len() - k - 1) as nat
    } else {
        0
    }
}

/// A signed decimal in plain notation short enough to be held exactly:
/// an optional `-`, digits with at most one point, at most 28 digits.
pub open spec fn is_plain_decimal(u: Seq<char>) -> bool {
    let b = body_part(u);
    &&& body_ok(b)
    &&& dot_count(b) <= 1
    &&& b.len() <= 29
    &&& body_digits(b).len() <= 28
}

/// The `(mantissa, scale)` a plain decimal denotes.
pub open spec fn plain_decimal_parts(u: Seq<char>) -> (int, nat) {
    let b = body_part(u);
    let mag = digits_value(body_digits(b)) as int;
    (if u.len() > 0 && u[0] == '-' {
        -mag
    } else {
        mag
    }, body_scale(b))
}

/// Bound on a `rust_decimal` mantissa: 96 bits.
pub open spec fn mantissa_ok(m: int) -> bool {
    -79228162514264337593543950336 < m < 79228162514264337593543950336
}

/// `rust_decimal`'s parse of `text`, returned as `(mantissa, scale)`.
/// Calls `<Decimal as FromStr>::from_str` and reads `mantissa()` and `scale()`.
/// Stated: the result is the named function of the text; a parsed value has a
/// 96-bit mantissa and a scale of at most 28; and a plain decimal (optional `-`,
/// digits, at most one point, at most 28 digits) parses to exactly the digits
/// it spells with the scale of its fraction, as the parser reads such text
/// digit by digit without rounding; and a text with two or more points is
/// refused, as every path of `parse_str_radix_10` meets a second point with
/// "two decimal points" or an invalid-digit error. Other texts are left to
/// the name.
#[verifier::external_body]
fn decimal_parse(text: &str) -> (r: Option<(i128, u32)>)
    ensures
        r == decimal_from_str(text@),
        dot_count(text@) >= 2 ==> r is None,
        r matches Some((m, s)) ==> s <= 28 && mantissa_ok(m as int),
        is_plain_decimal(text@) ==> r == Some(
            (plain_decimal_parts(text@).0 as i128, plain_decimal_parts(text@).1 as u32),
        ),
{
    match <rust_decimal::Decimal as std::str::FromStr>::from_str(text) {
        Ok(d) => Some((d.mantissa(), d.scale())),
        Err(_) => None,
    }
}

/// Trailing zeros stripped from `(m, s)` while the scale allows, and zero as `(0, 0)`.
pub open spec fn strip_zeros(m: int, s: nat) -> (int, nat)
    decreases s,
{
    if m == 0 {
        (0, 0)
    } else if s > 0 && m % 10 == 0 {
        strip_zeros(m / 10, (s - 1) as nat)
    } else {
        (m, s)
    }
}

/// `Decimal::normalize`: strips trailing zeros and turns -0 into 0.
/// Stated exactly as its source does it: while the scale is positive and the
/// mantissa ends in a zero, divide by ten and lower the scale.
#[verifier::external_body]
fn decimal_normalize(m: i128, s: u32) -> (r: (i128, u32))
    requires
        s <= 28,
        mantissa_ok(m as int),
    ensures
        r.0 as int == strip_zeros(m as int, s as nat).0,
        r.1 as nat == strip_zeros(m as int, s as nat).1,
{
    let d = rust_decimal::Decimal::from_i128_with_scale(m, s).normalize();
    (d.mantissa(), d.scale())
}

/// `Decimal::checked_mul` of `(m1, s1)` by `(m2, s2)`.
/// Stated: a result is a valid decimal; when the exact product is a whole
/// number its value is kept exactly (the rescaling divides exactly); and such
/// a whole product of magnitude at most 2^63 is always representable, so
/// the call does not fail on it.
#[verifier::external_body]
fn decimal_checked_mul(m1: i128, s1: u32, m2: i128, s2: u32) -> (r: Option<(i128, u32)>)
    requires
        s1 <= 28,
        s2 <= 28,
        s1 + s2 <= 28,
        mantissa_ok(m1 as int),
        mantissa_ok(m2 as int),
    ensures
        r matches Some((m, s)) ==> s <= 28 && mantissa_ok(m as int),
        r matches Some((m, s)) ==> ((m1 * m2) % (pow10((s1 + s2) as nat) as int) == 0 ==> m
            * pow10((s1 + s2) as nat) == m1 * m2 * pow10(s as nat)),
        (m1 * m2) % (pow10((s1 + s2) as nat) as int) == 0 && -9223372036854775808 <= (m1 * m2)
            / (pow10((s1 + s2) as nat) as int) <= 9223372036854775808 ==> r is Some,
{
    let a = rust_decimal::Decimal::from_i128_with_scale(m1, s1);
    let b = rust_decimal::Decimal::from_i128_with_scale(m2, s2);
    match a.checked_mul(b) {
        Some(d) => Some((d.mantissa(), d.scale())),
        None => None,
    }
}

/// The value of `(m, s)` truncated toward zero.
pub open spec fn trunc_value(m: int, s: nat) -> int {
    if m >= 0 {
        m / (pow10(s) as int)
    } else {
        -((-m) / (pow10(s) as int))
    }
}

/// `ToPrimitive::to_i64` on the decimal `(m, s)`: the value truncated toward
/// zero when it fits an `i64`, else `None`.
#[verifier::external_body]
fn decimal_to_i64(m: i128, s: u32) -> (r: Option<i64>)
    requires
        s <= 28,
        mantissa_ok(m as int),
    ensures
        r == (if i64::MIN <= trunc_value(m as int, s as nat) <= i64::MAX {
            Some(trunc_value(m as int, s as nat) as i64)
        } else {
            None
        }),
{
    rust_decimal::prelude::ToPrimitive::to_i64(&rust_decimal::Decimal::from_i128_with_scale(m, s))
}

/// Minor units of a parsed decimal `(m, s)` for an account with `d` fraction
/// digits: excess precision (after stripping trailing zeros) is rejected, and
/// so is a value outside `i64`.
pub open spec fn amount_from_decimal(m: int, s: nat, d: nat) -> Result<i64, AmountError> {
    let (m2, s2) = strip_zeros(m, s);
    if s2 > d {
        Err(AmountError::Precision { scale: s2 as u32 })
    } else {
        let v = m2 * pow10((d - s2) as nat);
        if i64::MIN <= v <= i64::MAX {
            Ok(v as i64)
        } else {
            Err(AmountError::Invalid)
        }
    }
}

/// What `parse_amount` returns for `text` on an account with `d` fraction digits:
/// a plain decimal (optional `+`, optional `-`, digits with at most one point)
/// is taken at its exact value, whatever its length; text with other
/// characters, no digit or more than one point is invalid.
pub open spec fn parse_amount_spec(text: Seq<char>, d: nat) -> Result<i64, AmountError> {
    let u = unsigned_part(trim(text));
    let b = body_part(u);
    if !body_ok(b) || dot_count(b) > 1 {
        Err(AmountError::Invalid)
    } else {
        amount_from_decimal(plain_decimal_parts(u).0, plain_decimal_parts(u).1, d)
    }
}

proof fn lemma_strip_zeros_bounds(m: int, s: nat)
    requires
        mantissa_ok(m),
    ensures
        strip_zeros(m, s).1 <= s,
        mantissa_ok(strip_zeros(m, s).0),
        strip_zeros(m, s).0 * pow10(s) == m * pow10(strip_zeros(m, s).1),
    decreases s,
{
    if m == 0 {
        assert(strip_zeros(m, s) == (0int, 0nat));
        assert(0 * pow10(s) == 0);
        assert(m * pow10(0) == 0);
    } else if s > 0 && m % 10 == 0 {
        assert(mantissa_ok(m / 10));
        lemma_strip_zeros_bounds(m / 10, (s - 1) as nat);
        let (a, b) = strip_zeros(m / 10, (s - 1) as nat);
        assert(strip_zeros(m, s) == (a, b));
        assert(a * pow10((s - 1) as nat) == (m / 10) * pow10(b));
        assert(pow10(s) == 10 * pow10((s - 1) as nat));
        assert(m == (m / 10) * 10);
        assert(a * pow10(s) == 10 * (a * pow10((s - 1) as nat))) by (nonlinear_arith)
            requires
                pow10(s) == 10 * pow10((s - 1) as nat),
        ;
        assert(m * pow10(b) == 10 * ((m / 10) * pow10(b))) by (nonlinear_arith)
            requires
                m == (m / 10) * 10,
        ;
    } else {
        assert(strip_zeros(m, s) == (m, s));
    }
}

/// Minor units of the decimal `(mantissa, scale)` for an account with
/// `decimals` fraction digits.
pub fn minor_units_from_decimal(mantissa: i128, scale: u32, decimals: u32) -> (r: Result<
    i64,
    AmountError,
>)
    requires
        scale <= 28,
        mantissa_ok(mantissa as int),
        decimals <= 18,
    ensures
        r == amount_from_decimal(mantissa as int, scale as nat, decimals as nat),
{
    let (m2, s2) = decimal_normalize(mantissa, scale);
    proof {
        lemma_strip_zeros_bounds(mantissa as int, scale as nat);
    }
    if s2 > decimals {
        return Err(AmountError::Precision { scale: s2 });
    }
    let factor: i128 = pow10_u128(decimals) as i128;
    proof {
        lemma_pow10_monotone(decimals as nat, 18);
        lemma_pow10_38();
    }
    let ghost d = decimals as nat;
    let ghost k = (d - s2 as nat) as nat;
    let ghost v: int = m2 * pow10(k);
    proof {
        lemma_pow10_add(k, s2 as nat);
        assert((k + s2 as nat) == d);
        assert(pow10(d) == pow10(k) * pow10(s2 as nat));
        lemma_pow10_positive(s2 as nat);
        lemma_pow10_positive(k);
        assert(m2 * factor == v * pow10(s2 as nat)) by (nonlinear_arith)
            requires
                factor == pow10(k) * pow10(s2 as nat),
                v == m2 * pow10(k),
        ;
        vstd::arithmetic::div_mod::lemma_mod_multiples_basic(v, pow10(s2 as nat) as int);
        vstd::arithmetic::div_mod::lemma_div_multiples_vanish(v, pow10(s2 as nat) as int);
        assert(v * pow10(s2 as nat) == pow10(s2 as nat) * v) by (nonlinear_arith);
        assert((v * pow10(s2 as nat)) % (pow10(s2 as nat) as int) == 0);
        assert((v * pow10(s2 as nat)) / (pow10(s2 as nat) as int) == v);
        assert(s2 + 0 == s2);
        assert(pow10((s2 + 0u32) as nat) == pow10(s2 as nat));
    }
    match decimal_checked_mul(m2, s2, factor, 0) {
        None => Err(AmountError::Invalid),
        Some((pm, ps)) => {
            proof {
                let p = pow10(s2 as nat) as int;
                let q = pow10(ps as nat) as int;
                lemma_pow10_positive(ps as nat);
                assert(pm * p == v * p * q);
                assert(pm == v * q) by (nonlinear_arith)
                    requires
                        pm * p == v * p * q,
                        p >= 1,
                ;
                vstd::arithmetic::div_mod::lemma_div_multiples_vanish(v, q);
                assert(v * q == q * v) by (nonlinear_arith);
                if v < 0 {
                    assert((-pm) == (-v) * q) by (nonlinear_arith)
                        requires
                            pm == v * q,
                    ;
                    vstd::arithmetic::div_mod::lemma_div_multiples_vanish(-v, q);
                    assert((-v) * q == q * (-v)) by (nonlinear_arith);
                    assert(pm < 0) by (nonlinear_arith)
                        requires
                            pm == v * q,
                            v < 0,
                            q >= 1,
                    ;
                } else {
                    assert(pm >= 0) by (nonlinear_arith)
                        requires
                            pm == v * q,
                            v >= 0,
                            q >= 1,
                    ;
                }
                assert(trunc_value(pm as int, ps as nat) == v);
            }
            match decimal_to_i64(pm, ps) {
                None => Err(AmountError::Invalid),
                Some(x) => Ok(x),
            }
        },
    }
}


/// Whether `b` holds only digits and points and at least one digit.
fn body_is_ok(b: &[char]) -> (r: bool)
    ensures
        r == body_ok(b@),
{
    let mut any = false;
    let mut i: usize = 0;
    while i < b.len()
        invariant
            i <= b.len(),
            forall|j: int| 0 <= j < i ==> is_digit(#[trigger] b@[j]) || b@[j] == '.',
            any == exists|j: int| 0 <= j < i && is_digit(#[trigger] b@[j]),
        decreases b.len() - i,
    {
        let c = b[i];
        let d = '0' <= c && c <= '9';
        if !d && c != '.' {
            assert(!(is_digit(b@[i as int]) || b@[i as int] == '.'));
            return false;
        }
        if d {
            any = true;
        }
        i = i + 1;
    }
    any
}

proof fn lemma_digits_value_bound(s: Seq<char>)
    requires
        forall|i: int| 0 <= i < s.len() ==> is_digit(#[trigger] s[i]),
    ensures
        digits_value(s) < pow10(s.len()),
    decreases s.len(),
{
    if s.len() > 0 {
        let t = s.drop_last();
        assert forall|i: int| 0 <= i < t.len() implies is_digit(#[trigger] t[i]) by {
            assert(t[i] == s[i]);
        }
        lemma_digits_value_bound(t);
        assert(is_digit(s[s.len() - 1]));
        assert(pow10(s.len()) == 10 * pow10(t.len()));
    }
}

/// Parse a decimal text into minor units for an account with `decimals`
/// fraction digits. Excess precision is rejected, never rounded.
pub fn parse_amount(text: &str, decimals: u32) -> (r: Result<i64, AmountError>)
    requires
        decimals <= 18,
    ensures
        r == parse_amount_spec(text@, decimals as nat),
{
    let all = to_chars(text);
    let t = trim_chars(&all);
    let u = if t.len() > 0 && t[0] == '+' {
        chars_skip(&t, 1)
    } else {
        t
    };
    assert(u@ == unsigned_part(trim(text@)));
    let b = if u.len() > 0 && u[0] == '-' {
        chars_skip(&u, 1)
    } else {
        chars_skip(&u, 0)
    };
    assert(b@ =~= body_part(u@));
    if !body_is_ok(&b) {
        return Err(AmountError::Invalid);
    }
    match split_body(&b) {
        None => {
            let us = from_chars(&u);
            proof {
                if u@.len() > 0 && u@[0] == '-' {
                    assert(u@ =~= seq!['-'] + b@);
                    lemma_dot_count_append(seq!['-'], b@);
                    assert(seq!['-'].drop_last() =~= Seq::<char>::empty());
                    assert(dot_count(Seq::<char>::empty()) == 0);
                } else {
                    assert(u@ =~= b@);
                }
            }
            match decimal_parse(us.as_str()) {
                None => Err(AmountError::Invalid),
                Some((m, s)) => minor_units_from_decimal(m, s, decimals),
            }
        },
        Some((ip, fp)) => {
            let neg = u.len() > 0 && u[0] == '-';
            exact_amount(neg, &ip, &fp, decimals)
        },
    }
}

/// A body of digits and points split at its only point into whole and
/// fraction digits; `None` when it has more than one point.
fn split_body(b: &Vec<char>) -> (r: Option<(Vec<char>, Vec<char>)>)
    requires
        body_ok(b@),
    ensures
        match r {
            None => dot_count(b@) > 1,
            Some((ip, fp)) => {
                &&& dot_count(b@) <= 1
                &&& body_digits(b@) == ip@ + fp@
                &&& body_scale(b@) == fp@.len()
                &&& forall|j: int| 0 <= j < ip@.len() ==> is_digit(#[trigger] ip@[j])
                &&& forall|j: int| 0 <= j < fp@.len() ==> is_digit(#[trigger] fp@[j])
            },
        },
{
    let k0 = find_dot(&b, 0);
    proof {
        lemma_first_dot(b@, k0 as int);
    }
    if k0 < b.len() {
        let k1 = find_dot(&b, k0 + 1);
        if k1 < b.len() {
            proof {
                lemma_dot_count_append(b@.take(k1 as int), b@.skip(k1 as int));
                assert(b@.take(k1 as int) + b@.skip(k1 as int) =~= b@);
                lemma_dot_count_pos(b@.take(k1 as int), k0 as int);
                lemma_dot_count_pos(b@.skip(k1 as int), 0);
            }
            return None;
        }
        proof {
            lemma_one_dot(b@, k0 as int);
        }
    } else {
        proof {
            lemma_dot_count_zero(b@);
        }
    }
    let ip = chars_range(&b, 0, k0);
    let fp = if k0 < b.len() {
        chars_skip(&b, k0 + 1)
    } else {
        Vec::new()
    };
    proof {
        if k0 < b.len() {
            assert(body_digits(b@) == ip@ + fp@);
        } else {
            assert(b@.take(k0 as int) =~= b@);
            assert(ip@ + fp@ =~= b@);
        }
        assert forall|j: int| 0 <= j < ip@.len() implies is_digit(#[trigger] ip@[j]) by {
            assert(ip@[j] == b@[j]);
        }
        assert forall|j: int| 0 <= j < fp@.len() implies is_digit(#[trigger] fp@[j]) by {
            assert(fp@[j] == b@[k0 + 1 + j]);
        }
    }
    Some((ip, fp))
}

/// `n` with a minus sign when `neg`.
pub open spec fn signed(neg: bool, n: nat) -> int {
    if neg {
        -n
    } else {
        n as int
    }
}

/// Index of the first point in `b` at or after `from`, or the length.
fn find_dot(b: &[char], from: usize) -> (k: usize)
    requires
        from <= b.len(),
    ensures
        from <= k <= b.len(),
        k < b.len() ==> b@[k as int] == '.',
        forall|i: int| from <= i < k ==> b@[i] != '.',
{
    let mut k = from;
    while k < b.len() && b[k] != '.'
        invariant
            from <= k <= b.len(),
            forall|i: int| from <= i < k ==> b@[i] != '.',
        decreases b.len() - k,
    {
        k = k + 1;
    }
    k
}

/// The first point found from the start is the one `dot_pos` names.
proof fn lemma_first_dot(b: Seq<char>, k: int)
    requires
        0 <= k <= b.len(),
        k < b.len() ==> b[k] == '.',
        forall|i: int| 0 <= i < k ==> b[i] != '.',
    ensures
        dot_pos(b) == k,
{
    lemma_dot_pos(b);
    if (dot_pos(b) as int) < k {
        assert(b[dot_pos(b) as int] == '.');
    }
    if k < dot_pos(b) {
        assert(b[k] != '.');
    }
}

/// A single point at `k` and none elsewhere: at most one point in all.
proof fn lemma_one_dot(b: Seq<char>, k: int)
    requires
        0 <= k < b.len(),
        b[k] == '.',
        forall|i: int| 0 <= i < k ==> b[i] != '.',
        forall|i: int| k + 1 <= i < b.len() ==> b[i] != '.',
    ensures
        dot_count(b) <= 1,
{
    let x = b.take(k + 1);
    let y = b.skip(k + 1);
    lemma_dot_count_append(x, y);
    assert(x + y =~= b);
    assert(x.drop_last() =~= b.take(k));
    assert(x.last() == '.');
    lemma_dot_count_zero(b.take(k));
    lemma_dot_count_zero(y);
}

/// The number of leading zeros of `v`.
fn lead_zeros(v: &Vec<char>) -> (k: usize)
    ensures
        k <= v.len(),
        forall|j: int| 0 <= j < k ==> v@[j] == '0',
        k < v.len() ==> v@[k as int] != '0',
{
    let mut k: usize = 0;
    while k < v.len() && v[k] == '0'
        invariant
            k <= v.len(),
            forall|j: int| 0 <= j < k ==> v@[j] == '0',
        decreases v.len() - k,
    {
        k = k + 1;
    }
    k
}

/// The number of trailing zeros of `v`.
fn trail_zeros(v: &Vec<char>) -> (k: usize)
    ensures
        k <= v.len(),
        forall|j: int| v.len() - k <= j < v.len() ==> v@[j] == '0',
        k < v.len() ==> v@[v.len() - k - 1] != '0',
{
    let mut k: usize = 0;
    while k < v.len() && v[v.len() - k - 1] == '0'
        invariant
            k <= v.len(),
            forall|j: int| v.len() - k <= j < v.len() ==> v@[j] == '0',
        decreases v.len() - k,
    {
        k = k + 1;
    }
    k
}

/// `k` zero digits.
pub open spec fn zeros(k: nat) -> Seq<char> {
    Seq::new(k, |i: int| '0')
}

/// Zero digits are worth nothing.
proof fn lemma_zeros_worth_nothing(k: nat)
    ensures
        digits_value(zeros(k)) == 0,
        forall|i: int| 0 <= i < k ==> is_digit(#[trigger] zeros(k)[i]),
    decreases k,
{
    if k > 0 {
        lemma_zeros_worth_nothing((k - 1) as nat);
        assert(zeros(k).drop_last() =~= zeros((k - 1) as nat));
        assert(zeros(k).last() == '0');
        assert(digit_value('0') == 0);
    }
}

/// Appending `k` zero digits multiplies by `10^k`, and leading zeros add nothing.
proof fn lemma_zero_padding(a: nat, x: Seq<char>, z: nat)
    requires
        forall|i: int| 0 <= i < x.len() ==> is_digit(#[trigger] x[i]),
    ensures
        digits_value(zeros(a) + x + zeros(z)) == digits_value(x) * pow10(z),
{
    lemma_zeros_worth_nothing(a);
    lemma_zeros_worth_nothing(z);
    lemma_digits_value_append(zeros(a) + x, zeros(z));
    lemma_digits_value_append(zeros(a), x);
    assert(digits_value(zeros(a) + x) == digits_value(x));
}

/// Ten times `m` with one more fraction digit strips to what `m` strips to.
proof fn lemma_strip_shift(m: int, s: nat, k: nat)
    ensures
        strip_zeros(m * pow10(k), s + k) == strip_zeros(m, s),
    decreases k,
{
    if k > 0 {
        let k1 = (k - 1) as nat;
        lemma_strip_shift(m, s, k1);
        let x = m * pow10(k1);
        assert(pow10(k) == 10 * pow10(k1));
        assert(m * pow10(k) == x * 10) by (nonlinear_arith)
            requires
                pow10(k) == 10 * pow10(k1),
                x == m * pow10(k1),
        ;
        vstd::arithmetic::div_mod::lemma_mod_multiples_basic(x, 10);
        vstd::arithmetic::div_mod::lemma_div_multiples_vanish(x, 10);
        assert(x * 10 == 10 * x) by (nonlinear_arith);
        if x == 0 {
            assert(x * 10 == 0);
            assert(strip_zeros(x * 10, s + k) == (0int, 0nat));
        } else {
            assert(x * 10 != 0) by (nonlinear_arith)
                requires
                    x != 0,
            ;
            assert(((s + k) - 1) as nat == s + k1);
        }
    } else {
        assert(pow10(0) == 1);
        assert(m * pow10(0) == m);
    }
}

/// Digits that start with a nonzero digit are worth at least `10^(len - 1)`.
proof fn lemma_digits_lower_bound(x: Seq<char>)
    requires
        x.len() >= 1,
        forall|i: int| 0 <= i < x.len() ==> is_digit(#[trigger] x[i]),
        x[0] != '0',
    ensures
        digits_value(x) >= pow10((x.len() - 1) as nat),
    decreases x.len(),
{
    if x.len() == 1 {
        assert(x.drop_last() =~= Seq::<char>::empty());
        assert(digits_value(x.drop_last()) == 0);
        assert(is_digit(x[0]));
        assert(x.last() == x[0]);
    } else {
        let y = x.drop_last();
        assert forall|i: int| 0 <= i < y.len() implies is_digit(#[trigger] y[i]) by {
            assert(y[i] == x[i]);
        }
        assert(y[0] == x[0]);
        lemma_digits_lower_bound(y);
        assert(is_digit(x[x.len() - 1]));
        assert(pow10((x.len() - 1) as nat) == 10 * pow10((y.len() - 1) as nat));
    }
}

/// Digits ending in a nonzero digit are not a multiple of ten.
proof fn lemma_last_digit_nonzero(x: Seq<char>)
    requires
        x.len() >= 1,
        is_digit(x.last()),
        x.last() != '0',
    ensures
        digits_value(x) % 10 != 0,
        digits_value(x) != 0,
{
    let q = digits_value(x.drop_last()) as int;
    let r = digit_value(x.last());
    assert(1 <= r <= 9);
    assert(digits_value(x) == q * 10 + r);
    vstd::arithmetic::div_mod::lemma_fundamental_div_mod_converse(q * 10 + r, 10, q, r);
}

/// A body of digits `p` then, when `q` is not empty, a point and digits `q`.
proof fn lemma_clean_body(p: Seq<char>, q: Seq<char>)
    requires
        p.len() >= 1,
        forall|i: int| 0 <= i < p.len() ==> is_digit(#[trigger] p[i]),
        forall|i: int| 0 <= i < q.len() ==> is_digit(#[trigger] q[i]),
    ensures
        ({
            let body = if q.len() > 0 { p + seq!['.'] + q } else { p };
            &&& body_ok(body)
            &&& dot_count(body) <= 1
            &&& body.len() <= p.len() + q.len() + 1
            &&& body_digits(body) =~= p + q
            &&& body_scale(body) == q.len()
            &&& body[0] == p[0]
        }),
{
    assert forall|i: int| 0 <= i < p.len() implies p[i] != '.' by {
        assert(is_digit(p[i]));
    }
    assert forall|i: int| 0 <= i < q.len() implies q[i] != '.' by {
        assert(is_digit(q[i]));
    }
    lemma_dot_count_zero(p);
    lemma_dot_count_zero(q);
    assert(is_digit(p[0]));
    if q.len() > 0 {
        let body = p + seq!['.'] + q;
        assert forall|i: int| 0 <= i < body.len() implies is_digit(#[trigger] body[i]) || body[i]
            == '.' by {
            if i < p.len() {
                assert(body[i] == p[i]);
            } else if i > p.len() {
                assert(body[i] == q[i - p.len() - 1]);
            }
        }
        assert(body[0] == p[0]);
        lemma_dot_count_append(p + seq!['.'], q);
        lemma_dot_count_append(p, seq!['.']);
        assert(seq!['.'].drop_last() =~= Seq::<char>::empty());
        assert(dot_count(Seq::<char>::empty()) == 0);
        assert(dot_count(seq!['.']) == 1);
        assert(body =~= p + (seq!['.'] + q));
        lemma_dot_pos_prefix(p, seq!['.'] + q);
        assert((seq!['.'] + q)[0] == '.');
        assert(dot_pos(seq!['.'] + q) == 0);
        assert(body.take(p.len() as int) =~= p);
        assert(body.skip(p.len() + 1int) =~= q);
    } else {
        lemma_dot_pos_prefix(p, Seq::empty());
        assert(p + Seq::<char>::empty() =~= p);
        assert(dot_pos(Seq::<char>::empty()) == 0);
        assert(p + q =~= p);
    }
}

/// The value of whole digits `iv` and fraction digits `fv` once the leading
/// zeros (`a` of them) and the trailing zeros (`z`) are set aside: it strips
/// to the remaining digits with the remaining fraction.
proof fn lemma_exact_parts(neg: bool, iv: Seq<char>, fv: Seq<char>, a: nat, z: nat)
    requires
        forall|j: int| 0 <= j < iv.len() ==> is_digit(#[trigger] iv[j]),
        forall|j: int| 0 <= j < fv.len() ==> is_digit(#[trigger] fv[j]),
        a <= iv.len(),
        z <= fv.len(),
        forall|j: int| 0 <= j < a ==> iv[j] == '0',
        a < iv.len() ==> iv[a as int] != '0',
        forall|j: int| fv.len() - z <= j < fv.len() ==> fv[j] == '0',
        z < fv.len() ==> fv[fv.len() - z - 1] != '0',
    ensures
        ({
            let i2 = iv.skip(a as int);
            let f2 = fv.take(fv.len() - z);
            let x = i2 + f2;
            let dd = digits_value(x);
            let sd = signed(neg, dd);
            &&& forall|j: int| 0 <= j < x.len() ==> is_digit(#[trigger] x[j])
            &&& strip_zeros(signed(neg, digits_value(iv + fv)), fv.len()) == strip_zeros(
                sd,
                f2.len(),
            )
            &&& (dd != 0 ==> strip_zeros(sd, f2.len()) == (sd, f2.len()))
            &&& (dd == 0 ==> f2.len() == 0 && strip_zeros(sd, f2.len()) == (0int, 0nat))
            &&& (i2.len() > 0 ==> dd >= pow10((x.len() - 1) as nat))
        }),
{
    let i2 = iv.skip(a as int);
    let f2 = fv.take(fv.len() - z);
    let x = i2 + f2;
    let dd = digits_value(x);
    let sd = signed(neg, dd);
    assert(iv =~= zeros(a) + i2);
    assert(fv =~= f2 + zeros(z));
    assert(iv + fv =~= zeros(a) + x + zeros(z));
    assert forall|j: int| 0 <= j < x.len() implies is_digit(#[trigger] x[j]) by {
        if j < i2.len() {
            assert(x[j] == iv[a + j]);
        } else {
            assert(x[j] == fv[j - i2.len()]);
        }
    }
    lemma_zero_padding(a, x, z);
    assert(signed(neg, digits_value(iv + fv)) == sd * pow10(z)) by (nonlinear_arith)
        requires
            digits_value(iv + fv) == dd * pow10(z),
            sd == signed(neg, dd),
    ;
    lemma_strip_shift(sd, f2.len(), z);
    assert(fv.len() == f2.len() + z);
    if f2.len() > 0 {
        assert(x.last() == fv[f2.len() - 1]);
        lemma_last_digit_nonzero(x);
        lemma_mod_ten_negate(dd);
        assert(sd % 10 != 0);
    }
    if dd != 0 {
        assert(sd != 0);
    }
    if i2.len() > 0 {
        assert(x[0] == iv[a as int]);
        lemma_digits_lower_bound(x);
    }
}

/// A multiple of ten negated is a multiple of ten, and so is what it came from.
proof fn lemma_mod_ten_negate(d: nat)
    ensures
        (d % 10 == 0) == ((-d) % 10 == 0),
{
    vstd::arithmetic::div_mod::lemma_fundamental_div_mod(d as int, 10);
    vstd::arithmetic::div_mod::lemma_fundamental_div_mod(-d, 10);
    if d % 10 == 0 {
        let q = d / 10;
        vstd::arithmetic::div_mod::lemma_mod_multiples_basic(-q, 10);
        assert(-d == (-q) * 10);
    }
    if (-d) % 10 == 0 {
        let q = (-d) / 10;
        vstd::arithmetic::div_mod::lemma_mod_multiples_basic(-q, 10);
        assert(d == (-q) * 10);
    }
}

/// The text a plain decimal is read from once its zeros are set aside: the
/// sign, the whole digits (a lone `0` when there are none), and a point and
/// the fraction digits when there are any.
pub open spec fn clean_text(neg: bool, i2: Seq<char>, f2: Seq<char>) -> Seq<char> {
    let sign: Seq<char> = if neg { seq!['-'] } else { Seq::empty() };
    let p = if i2.len() == 0 { seq!['0'] } else { i2 };
    let frac: Seq<char> = if f2.len() > 0 { seq!['.'] + f2 } else { Seq::empty() };
    sign + p + frac
}

/// The clean text of at most 28 digits is a plain decimal spelling the
/// same digits with the same fraction.
proof fn lemma_clean_text(neg: bool, i2: Seq<char>, f2: Seq<char>)
    requires
        forall|j: int| 0 <= j < i2.len() ==> is_digit(#[trigger] i2[j]),
        forall|j: int| 0 <= j < f2.len() ==> is_digit(#[trigger] f2[j]),
        i2.len() + f2.len() <= 28,
        f2.len() <= 18,
    ensures
        is_plain_decimal(clean_text(neg, i2, f2)),
        plain_decimal_parts(clean_text(neg, i2, f2)) == (
            signed(neg, digits_value(i2 + f2)),
            f2.len(),
        ),
{
    let c = clean_text(neg, i2, f2);
    let p = if i2.len() == 0 { seq!['0'] } else { i2 };
    assert forall|j: int| 0 <= j < p.len() implies is_digit(#[trigger] p[j]) by {
        if i2.len() == 0 {
            assert(p[j] == '0');
        }
    }
    lemma_clean_body(p, f2);
    let body = if f2.len() > 0 { p + seq!['.'] + f2 } else { p };
    if neg {
        assert(c =~= seq!['-'] + body);
        assert(body_part(c) =~= body);
    } else {
        assert(c =~= body);
        assert(is_digit(c[0]));
        assert(body_part(c) == body);
    }
    if i2.len() == 0 {
        lemma_digits_value_append(p, f2);
        assert(p.drop_last() =~= Seq::<char>::empty());
        assert(digits_value(p.drop_last()) == 0);
        assert(p.last() == '0');
        assert(digit_value('0') == 0);
        assert(digits_value(p) == 0);
        assert(i2 + f2 =~= f2);
    } else {
        assert(p == i2);
    }
    assert(digits_value(body_digits(body)) == digits_value(i2 + f2));
}

/// The amount a plain decimal with whole digits `i` and fraction digits `f`
/// denotes, computed exactly: excess fraction digits (after trailing zeros)
/// are rejected before anything is parsed, a value that cannot fit is
/// rejected, and the rest, at most 28 digits once the zeros are gone, is
/// read by `rust_decimal`.
fn exact_amount(neg: bool, i: &Vec<char>, f: &Vec<char>, decimals: u32) -> (r: Result<
    i64,
    AmountError,
>)
    requires
        decimals <= 18,
        forall|j: int| 0 <= j < i@.len() ==> is_digit(#[trigger] i@[j]),
        forall|j: int| 0 <= j < f@.len() ==> is_digit(#[trigger] f@[j]),
    ensures
        r == amount_from_decimal(
            signed(neg, digits_value(i@ + f@)),
            f@.len(),
            decimals as nat,
        ),
{
    let a = lead_zeros(i);
    let z = trail_zeros(f);
    let i2 = chars_skip(i, a);
    let f2 = chars_range(f, 0, f.len() - z);
    let s2 = f2.len();
    let ghost x = i2@ + f2@;
    let ghost dd = digits_value(x);
    proof {
        lemma_exact_parts(neg, i@, f@, a as nat, z as nat);
        assert(i2@ == i@.skip(a as int));
        assert(f2@ == f@.take(f@.len() - z));
    }
    if s2 > decimals as usize {
        return Err(AmountError::Precision { scale: #[verifier::truncate] (s2 as u32) });
    }
    if i2.len() > 28 - s2 {
        proof {
            assert(i2@[0] != '0');
            assert(x[0] == i2@[0]);
            lemma_digits_lower_bound(x);
            lemma_pow10_monotone(28, (x.len() - 1) as nat);
            lemma_pow10_28();
            lemma_pow10_positive((decimals - s2) as nat);
            let p = pow10((decimals - s2) as nat) as int;
            let sd = signed(neg, dd);
            assert(dd != 0);
            assert(sd * p >= dd || sd * p <= -dd) by (nonlinear_arith)
                requires
                    p >= 1,
                    sd == dd || sd == -dd,
                    dd >= 0,
            ;
        }
        return Err(AmountError::Invalid);
    }
    let mut c: Vec<char> = Vec::new();
    if neg {
        c.push('-');
    }
    let mut p: Vec<char> = Vec::new();
    if i2.len() == 0 {
        p.push('0');
    } else {
        push_chars(&mut p, &i2);
    }
    push_chars(&mut c, &p);
    if s2 > 0 {
        c.push('.');
        push_chars(&mut c, &f2);
    }
    proof {
        assert(x.len() == i2@.len() + s2);
        assert forall|j: int| 0 <= j < i2@.len() implies is_digit(#[trigger] i2@[j]) by {
            assert(i2@[j] == x[j]);
        }
        assert forall|j: int| 0 <= j < f2@.len() implies is_digit(#[trigger] f2@[j]) by {
            assert(f2@[j] == x[i2@.len() + j]);
        }
        if i2.len() == 0 {
            assert(p@ =~= seq!['0']);
        } else {
            assert(p@ =~= i2@);
        }
        assert(c@ =~= clean_text(neg, i2@, f2@));
        lemma_clean_text(neg, i2@, f2@);
        lemma_digits_value_bound(x);
        lemma_pow10_monotone(x.len(), 28);
        lemma_pow10_28();
        assert(strip_zeros(signed(neg, dd), s2 as nat) == strip_zeros(
            signed(neg, digits_value(i@ + f@)),
            f@.len(),
        ));
    }
    let cs = from_chars(&c);
    match decimal_parse(cs.as_str()) {
        None => Err(AmountError::Invalid),
        Some((mm, ss)) => minor_units_from_decimal(mm, ss, decimals),
    }
}

proof fn lemma_pow10_28()
    ensures
        pow10(28) == 10000000000000000000000000000,
        pow10(19) == 10000000000000000000,
{
    reveal_with_fuel(pow10, 29);
}

/// `dot_pos` lands on a point or at the end, with no point before it.
proof fn lemma_dot_pos(b: Seq<char>)
    ensures
        dot_pos(b) <= b.len(),
        dot_pos(b) < b.len() ==> b[dot_pos(b) as int] == '.',
        forall|i: int| 0 <= i < dot_pos(b) ==> b[i] != '.',
    decreases b.len(),
{
    if b.len() > 0 && b[0] != '.' {
        lemma_dot_pos(b.drop_first());
        assert forall|i: int| 0 <= i < dot_pos(b) implies b[i] != '.' by {
            if i > 0 {
                assert(b[i] == b.drop_first()[i - 1]);
            }
        }
    }
}

proof fn lemma_dot_count_append(x: Seq<char>, y: Seq<char>)
    ensures
        dot_count(x + y) == dot_count(x) + dot_count(y),
    decreases y.len(),
{
    if y.len() == 0 {
        assert(x + y =~= x);
    } else {
        lemma_dot_count_append(x, y.drop_last());
        assert((x + y).drop_last() =~= x + y.drop_last());
        assert((x + y).last() == y.last());
    }
}

proof fn lemma_dot_count_zero(x: Seq<char>)
    requires
        forall|i: int| 0 <= i < x.len() ==> x[i] != '.',
    ensures
        dot_count(x) == 0,
    decreases x.len(),
{
    if x.len() > 0 {
        lemma_dot_count_zero(x.drop_last());
    }
}

proof fn lemma_dot_count_pos(x: Seq<char>, i: int)
    requires
        0 <= i < x.len(),
        x[i] == '.',
    ensures
        dot_count(x) >= 1,
{
    lemma_dot_count_append(x.take(i), x.skip(i));
    assert(x.take(i) + x.skip(i) =~= x);
    let y = x.skip(i);
    lemma_dot_count_append(seq![y[0]], y.drop_first());
    assert(seq![y[0]] + y.drop_first() =~= y);
    assert(seq![y[0]].drop_last() =~= Seq::<char>::empty());
}

proof fn lemma_digits_value_append(x: Seq<char>, y: Seq<char>)
    requires
        forall|i: int| 0 <= i < y.len() ==> is_digit(#[trigger] y[i]),
    ensures
        digits_value(x + y) == digits_value(x) * pow10(y.len()) + digits_value(y),
    decreases y.len(),
{
    if y.len() == 0 {
        assert(x + y =~= x);
        assert(pow10(0) == 1);
        assert(digits_value(y) == 0);
    } else {
        let y1 = y.drop_last();
        assert forall|i: int| 0 <= i < y1.len() implies is_digit(#[trigger] y1[i]) by {
            assert(y1[i] == y[i]);
        }
        lemma_digits_value_append(x, y1);
        assert(is_digit(y[y.len() - 1]));
        assert(digit_value(y.last()) >= 0);
        assert((x + y).drop_last() =~= x + y1);
        assert((x + y).last() == y.last());
        assert(digits_value(x + y) == digits_value(x + y1) * 10 + digit_value(y.last()));
        assert(digits_value(y) == digits_value(y1) * 10 + digit_value(y.last()));
        assert(pow10(y.len()) == 10 * pow10(y1.len()));
        let a = digits_value(x) as int;
        let p = pow10(y1.len()) as int;
        let d = digits_value(y1) as int;
        assert((a * p + d) * 10 == a * (10 * p) + d * 10) by (nonlinear_arith);
    }
}

proof fn lemma_zeros_value(k: nat)
    ensures
        digits_value(Seq::new(k, |i: int| '0')) == 0,
    decreases k,
{
    if k > 0 {
        lemma_zeros_value((k - 1) as nat);
        assert(Seq::new(k, |i: int| '0').drop_last() =~= Seq::new((k - 1) as nat, |i: int| '0'));
    }
}

proof fn lemma_digits_of_len(n: nat, k: nat)
    requires
        n < pow10(k),
        k >= 1,
    ensures
        digits_of(n).len() <= k,
    decreases k,
{
    if n >= 10 {
        assert(pow10(k) == 10 * pow10((k - 1) as nat));
        if k == 1 {
            assert(pow10(0) == 1);
        } else {
            lemma_digits_of_len(n / 10, (k - 1) as nat);
        }
    }
}

proof fn lemma_padded(n: nat, w: nat)
    requires
        n < pow10(w),
        w >= 1,
    ensures
        padded_digits(n, w).len() == w,
        forall|i: int| 0 <= i < w ==> is_digit(#[trigger] padded_digits(n, w)[i]),
        digits_value(padded_digits(n, w)) == n,
{
    lemma_digits_of_len(n, w);
    lemma_digits_of_are_digits(n);
    let d = digits_of(n);
    if d.len() < w {
        let z = Seq::new((w - d.len()) as nat, |i: int| '0');
        lemma_digits_value_append(z, d);
        lemma_zeros_value((w - d.len()) as nat);
        assert(padded_digits(n, w) == z + d);
        assert forall|i: int| 0 <= i < w implies is_digit(#[trigger] padded_digits(n, w)[i]) by {
            if i >= z.len() {
                assert(padded_digits(n, w)[i] == d[i - z.len()]);
            }
        }
    }
}

pub proof fn lemma_no_ws_trim(s: Seq<char>)
    requires
        s.len() > 0,
        !is_ws(s[0]),
        !is_ws(s.last()),
    ensures
        trim(s) == s,
{
    assert(lead_ws(s) == 0);
    assert(s.skip(0) =~= s);
    assert(trim_start(s) == s);
    assert(trail_ws(s) == 0);
    assert(s.take(s.len() as int) =~= s);
}

proof fn lemma_body_fraction(q: nat, r: nat, d: nat)
    requires
        d >= 1,
        r < pow10(d),
    ensures
        ({
            let body = digits_of(q) + seq!['.'] + padded_digits(r, d);
            &&& body_ok(body)
            &&& dot_count(body) == 1
            &&& body.len() == digits_of(q).len() + 1 + d
            &&& body_digits(body) =~= digits_of(q) + padded_digits(r, d)
            &&& body_scale(body) == d
            &&& digits_value(body_digits(body)) == q * pow10(d) + r
            &&& is_digit(body[0])
            &&& is_digit(body.last())
        }),
{
    lemma_digits_of_are_digits(q);
    lemma_padded(r, d);
    let dq = digits_of(q);
    let pr = padded_digits(r, d);
    let body = dq + seq!['.'] + pr;
    assert forall|i: int| 0 <= i < dq.len() implies dq[i] != '.' by {
        assert(is_digit(dq[i]));
    }
    assert forall|i: int| 0 <= i < pr.len() implies pr[i] != '.' by {
        assert(is_digit(pr[i]));
    }
    assert forall|i: int| 0 <= i < body.len() implies is_digit(#[trigger] body[i]) || body[i]
        == '.' by {
        if i < dq.len() {
            assert(body[i] == dq[i]);
        } else if i > dq.len() {
            assert(body[i] == pr[i - dq.len() - 1]);
        }
    }
    assert(body[0] == dq[0]);
    assert(body.last() == pr[pr.len() - 1]);
    lemma_dot_count_zero(dq);
    lemma_dot_count_zero(pr);
    lemma_dot_count_append(dq + seq!['.'], pr);
    lemma_dot_count_append(dq, seq!['.']);
    assert(seq!['.'].drop_last() =~= Seq::<char>::empty());
    assert(seq!['.'].last() == '.');
    assert(dot_count(Seq::<char>::empty()) == 0);
    assert(dot_count(seq!['.']) == 1);
    assert(body =~= dq + (seq!['.'] + pr));
    lemma_dot_pos_prefix(dq, seq!['.'] + pr);
    assert((seq!['.'] + pr)[0] == '.');
    assert(dot_pos(seq!['.'] + pr) == 0);
    assert(dot_pos(body) == dq.len());
    assert(body.take(dq.len() as int) =~= dq);
    assert(body.skip(dq.len() + 1int) =~= pr);
    lemma_digits_value_append(dq, pr);
}

proof fn lemma_body_whole(a: nat)
    ensures
        ({
            let body = digits_of(a);
            &&& body_ok(body)
            &&& dot_count(body) == 0
            &&& body_digits(body) == body
            &&& body_scale(body) == 0
            &&& digits_value(body) == a
            &&& is_digit(body[0])
            &&& is_digit(body.last())
        }),
{
    lemma_digits_of_are_digits(a);
    let dq = digits_of(a);
    assert forall|i: int| 0 <= i < dq.len() implies dq[i] != '.' by {
        assert(is_digit(dq[i]));
    }
    lemma_dot_count_zero(dq);
    lemma_dot_pos_prefix(dq, Seq::empty());
    assert(dq + Seq::<char>::empty() =~= dq);
    assert(dot_pos(Seq::<char>::empty()) == 0);
    assert(is_digit(dq[dq.len() - 1]));
}

/// A whole number below `10^19` leaves at most `19 - d` whole digits after
/// dividing by `10^d`.
proof fn lemma_whole_digits(a: nat, d: nat)
    requires
        a < pow10(19),
        1 <= d <= 18,
    ensures
        digits_of(a / pow10(d)).len() + d <= 19,
{
    lemma_pow10_positive(d);
    let q = a / pow10(d);
    if q > 0 {
        lemma_pow10_add((19 - d) as nat, d);
        assert(pow10(19) == pow10((19 - d) as nat) * pow10(d));
        assert(q < pow10((19 - d) as nat)) by (nonlinear_arith)
            requires
                a < pow10((19 - d) as nat) * pow10(d),
                pow10(d) >= 1,
                q == a / pow10(d),
        ;
        lemma_digits_of_len(q, (19 - d) as nat);
    }
}

proof fn lemma_same_value_after_strip(minor: int, d: nat)
    requires
        mantissa_ok(minor),
    ensures
        strip_zeros(minor, d).1 <= d,
        strip_zeros(minor, d).0 * pow10((d - strip_zeros(minor, d).1) as nat) == minor,
{
    lemma_strip_zeros_bounds(minor, d);
    let (m2, s2) = strip_zeros(minor, d);
    let k = (d - s2) as nat;
    lemma_pow10_add(k, s2);
    assert(k + s2 == d);
    let v = m2 * pow10(k);
    lemma_pow10_positive(s2);
    assert(v * pow10(s2) == minor * pow10(s2)) by (nonlinear_arith)
        requires
            m2 * pow10(d) == minor * pow10(s2),
            pow10(d) == pow10(k) * pow10(s2),
            v == m2 * pow10(k),
    ;
    assert(v == minor) by (nonlinear_arith)
        requires
            v * pow10(s2) == minor * pow10(s2),
            pow10(s2) >= 1,
    ;
}

/// Formatting an amount and parsing the text back on the same account gives
/// the same minor units: amounts survive the text edge exactly.
#[verifier::rlimit(40)]
pub proof fn lemma_amount_round_trip(minor: i64, decimals: u32)
    requires
        decimals <= 18,
    ensures
        parse_amount_spec(amount_text(minor as int, decimals as nat), decimals as nat) == Ok::<
            i64,
            AmountError,
        >(minor),
{
    let d = decimals as nat;
    let text = amount_text(minor as int, d);
    let a: nat = if minor < 0 {
        (-minor) as nat
    } else {
        minor as nat
    };
    let sign: Seq<char> = if minor < 0 {
        seq!['-']
    } else {
        Seq::empty()
    };
    lemma_pow10_28();
    lemma_pow10_positive(d);
    assert(a < pow10(19));
    let body = if d == 0 {
        digits_of(a)
    } else {
        digits_of(a / pow10(d)) + seq!['.'] + padded_digits(a % pow10(d), d)
    };
    assert(text =~= sign + body);
    if d > 0 {
        let q = a / pow10(d);
        let r = a % pow10(d);
        lemma_body_fraction(q, r, d);
        vstd::arithmetic::div_mod::lemma_fundamental_div_mod(a as int, pow10(d) as int);
        assert(digits_value(body_digits(body)) == a) by (nonlinear_arith)
            requires
                digits_value(body_digits(body)) == q * pow10(d) + r,
                a == pow10(d) * q + r,
        ;
        lemma_whole_digits(a, d);
        assert(body_digits(body).len() <= 28);
    } else {
        lemma_body_whole(a);
        lemma_digits_of_len(a, 19);
    }
    assert(text.len() > 0);
    assert(!is_ws(text[0])) by {
        if minor < 0 {
            assert(text[0] == '-');
        } else {
            assert(text[0] == body[0]);
        }
    }
    assert(text.last() == body.last());
    lemma_no_ws_trim(text);
    assert(unsigned_part(text) == text);
    assert(body_part(text) =~= body);
    assert(is_plain_decimal(text));
    assert(plain_decimal_parts(text) == (minor as int, d));
    lemma_same_value_after_strip(minor as int, d);
}

proof fn lemma_dot_pos_prefix(x: Seq<char>, y: Seq<char>)
    requires
        forall|i: int| 0 <= i < x.len() ==> x[i] != '.',
    ensures
        dot_pos(x + y) == x.len() + dot_pos(y),
    decreases x.len(),
{
    if x.len() > 0 {
        lemma_dot_pos_prefix(x.drop_first(), y);
        assert((x + y).drop_first() =~= x.drop_first() + y);
        assert((x + y)[0] == x[0]);
    } else {
        assert(x + y =~= y);
    }
}

} // verus!
