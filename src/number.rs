//! Decimal numbers of the language.
//!
//! A finite number is `mant / 10^scale`, kept in a normal form: the mantissa
//! has at most eighteen digits, at most sixteen of them lie after the
//! decimal point, and there is no trailing zero after the point. Every
//! operation first computes its exact result and then truncates it (towards
//! zero) into that form; a result whose integer part has nineteen or more
//! digits overflows to an infinity. Division by zero and the other invalid
//! operations follow the floating-point rules: they give an infinity or NaN
//! instead of failing.
use vstd::arithmetic::div_mod::{
    lemma_div_denominator, lemma_div_multiples_vanish, lemma_div_multiples_vanish_fancy,
};
use vstd::prelude::*;

verus! {

/// Bound (exclusive) on the mantissa of a finite number.
pub const LIMIT: u64 = 1000000000000000000;

/// Most digits a finite number keeps after the decimal point.
pub const MAX_SCALE: u32 = 16;

/// A number of the language.
#[derive(Clone, Copy, Debug, PartialEq, Eq, Structural)]
pub enum Number {
    /// The value `mant / 10^scale`.
    Finite { mant: i64, scale: u32 },
    PosInf,
    NegInf,
    NaN,
}

pub open spec fn pow10(n: nat) -> nat
    decreases n,
{
    if n == 0 {
        1
    } else {
        10 * pow10((n - 1) as nat)
    }
}

pub open spec fn abs(x: int) -> nat {
    if x < 0 {
        (-x) as nat
    } else {
        x as nat
    }
}

pub open spec fn max_nat(a: nat, b: nat) -> nat {
    if a < b {
        b
    } else {
        a
    }
}

/// Truncates `mag / 10^scale` to at most `MAX_SCALE` fractional digits and a
/// mantissa under `LIMIT` (while there are fractional digits left), and
/// drops trailing fractional zeros.
pub open spec fn reduce(mag: nat, scale: nat) -> (nat, nat)
    decreases scale,
{
    if scale > 0 && (scale > MAX_SCALE || mag >= LIMIT || mag % 10 == 0) {
        reduce(mag / 10, (scale - 1) as nat)
    } else {
        (mag, scale)
    }
}

/// The number nearest to `(neg ? -1 : 1) * mag / 10^scale` towards zero.
pub open spec fn make(neg: bool, mag: nat, scale: nat) -> Number {
    let (m, s) = reduce(mag, scale);
    if m >= LIMIT {
        if neg {
            Number::NegInf
        } else {
            Number::PosInf
        }
    } else if neg {
        Number::Finite { mant: (-m) as i64, scale: s as u32 }
    } else {
        Number::Finite { mant: m as i64, scale: s as u32 }
    }
}

/// The number nearest to `x / 10^scale` towards zero.
pub open spec fn from_int(x: int, scale: nat) -> Number {
    make(x < 0, abs(x), scale)
}

/// `n` in normal form (the same number when it is already).
pub open spec fn normal(n: Number) -> Number {
    match n {
        Number::Finite { mant, scale } => from_int(mant as int, scale as nat),
        _ => n,
    }
}

pub open spec fn zero() -> Number {
    Number::Finite { mant: 0, scale: 0 }
}

impl Number {
    pub open spec fn wf(self) -> bool {
        match self {
            Number::Finite { mant, scale } => -LIMIT < mant < LIMIT && scale <= MAX_SCALE && (
            scale == 0 || mant % 10 != 0),
            _ => true,
        }
    }

    /// Below zero (NaN and zero are not).
    pub open spec fn is_negative(self) -> bool {
        match self {
            Number::Finite { mant, .. } => mant < 0,
            Number::NegInf => true,
            _ => false,
        }
    }

    pub open spec fn is_zero(self) -> bool {
        match self {
            Number::Finite { mant, .. } => mant == 0,
            _ => false,
        }
    }
}

pub open spec fn infinity(neg: bool) -> Number {
    if neg {
        Number::NegInf
    } else {
        Number::PosInf
    }
}

pub open spec fn negation(a: Number) -> Number {
    match a {
        Number::Finite { mant, scale } => Number::Finite { mant: (-mant) as i64, scale },
        Number::PosInf => Number::NegInf,
        Number::NegInf => Number::PosInf,
        Number::NaN => Number::NaN,
    }
}

pub open spec fn sum_of(a: Number, b: Number) -> Number {
    match (a, b) {
        (Number::Finite { mant: ma, scale: sa }, Number::Finite { mant: mb, scale: sb }) => {
            let s = max_nat(sa as nat, sb as nat);
            from_int(ma * pow10((s - sa) as nat) + mb * pow10((s - sb) as nat), s)
        },
        (Number::NaN, _) | (_, Number::NaN) => Number::NaN,
        (Number::PosInf, Number::NegInf) | (Number::NegInf, Number::PosInf) => Number::NaN,
        (Number::PosInf, _) | (_, Number::PosInf) => Number::PosInf,
        _ => Number::NegInf,
    }
}

pub open spec fn difference_of(a: Number, b: Number) -> Number {
    sum_of(a, negation(b))
}

pub open spec fn product_of(a: Number, b: Number) -> Number {
    match (a, b) {
        (Number::Finite { mant: ma, scale: sa }, Number::Finite { mant: mb, scale: sb }) => {
            from_int(ma * mb, (sa + sb) as nat)
        },
        (Number::NaN, _) | (_, Number::NaN) => Number::NaN,
        _ => if a.is_zero() || b.is_zero() {
            Number::NaN
        } else {
            infinity(a.is_negative() != b.is_negative())
        },
    }
}

pub open spec fn quotient_of(a: Number, b: Number) -> Number {
    match (a, b) {
        (Number::Finite { mant: ma, scale: sa }, Number::Finite { mant: mb, scale: sb }) => {
            if mb == 0 {
                if ma == 0 {
                    Number::NaN
                } else {
                    infinity(ma < 0)
                }
            } else {
                make(
                    (ma < 0) != (mb < 0),
                    (abs(ma as int) * pow10(sb as nat) * pow10(MAX_SCALE as nat)) / (abs(
                        mb as int,
                    ) * pow10(sa as nat)),
                    MAX_SCALE as nat,
                )
            }
        },
        (Number::NaN, _) | (_, Number::NaN) => Number::NaN,
        (Number::Finite { .. }, _) => zero(),
        (_, Number::Finite { .. }) => infinity(a.is_negative() != b.is_negative()),
        _ => Number::NaN,
    }
}

/// Remainder of the division truncated towards zero: it has the sign of `a`.
pub open spec fn remainder_of(a: Number, b: Number) -> Number {
    match (a, b) {
        (Number::Finite { mant: ma, scale: sa }, Number::Finite { mant: mb, scale: sb }) => {
            if mb == 0 {
                Number::NaN
            } else {
                let s = max_nat(sa as nat, sb as nat);
                make(
                    ma < 0,
                    (abs(ma as int) * pow10((s - sa) as nat)) % (abs(mb as int) * pow10(
                        (s - sb) as nat,
                    )),
                    s,
                )
            }
        },
        (Number::Finite { .. }, Number::PosInf) | (Number::Finite { .. }, Number::NegInf) => a,
        _ => Number::NaN,
    }
}

// ---------------------------------------------------------------- literals
pub open spec fn is_digit(c: char) -> bool {
    '0' <= c && c <= '9'
}

pub open spec fn digit_of(c: char) -> nat {
    (c as u32 - '0' as u32) as nat
}

/// Number of decimal digits at the front of `s`.
pub open spec fn digit_run(s: Seq<char>) -> nat
    decreases s.len(),
{
    if s.len() > 0 && is_digit(s[0]) {
        1 + digit_run(s.drop_first())
    } else {
        0
    }
}

/// Value of a string of decimal digits.
pub open spec fn digits_value(s: Seq<char>) -> nat
    decreases s.len(),
{
    if s.len() == 0 {
        0
    } else {
        digits_value(s.drop_last()) * 10 + digit_of(s.last())
    }
}

/// Digits of the integer part of a literal `ddd.fff`.
pub open spec fn int_digits(t: Seq<char>) -> Seq<char> {
    t.take(digit_run(t) as int)
}

/// Digits of the fractional part of a literal `ddd.fff` (empty without a point).
pub open spec fn frac_digits(t: Seq<char>) -> Seq<char> {
    let d = digit_run(t) as int;
    if d < t.len() && t[d] == '.' {
        let rest = t.skip(d + 1);
        rest.take(digit_run(rest) as int)
    } else {
        Seq::empty()
    }
}

/// The number that the literal `t` (digits, optionally a point and more
/// digits) denotes; fractional digits past `MAX_SCALE` are dropped.
pub open spec fn literal_value(t: Seq<char>) -> Number {
    let iv = digits_value(int_digits(t));
    let f = frac_digits(t);
    let k: nat = if f.len() < MAX_SCALE {
        f.len()
    } else {
        MAX_SCALE as nat
    };
    if iv >= LIMIT {
        Number::PosInf
    } else {
        make(false, iv * pow10(k) + digits_value(f.take(k as int)), k)
    }
}

// ---------------------------------------------------------------- rendering
pub open spec fn digit_chars() -> Seq<char> {
    seq!['0', '1', '2', '3', '4', '5', '6', '7', '8', '9']
}

/// Decimal digits of `n`, without leading zeros ("0" for zero).
pub open spec fn digits(n: nat) -> Seq<char>
    decreases n,
{
    if n < 10 {
        seq![digit_chars()[n as int]]
    } else {
        digits(n / 10) + seq![digit_chars()[(n % 10) as int]]
    }
}

/// The last `k` decimal digits of `n`, with leading zeros.
pub open spec fn fixed_digits(n: nat, k: nat) -> Seq<char>
    decreases k,
{
    if k == 0 {
        Seq::empty()
    } else {
        fixed_digits(n / 10, (k - 1) as nat) + seq![digit_chars()[(n % 10) as int]]
    }
}

/// How a number is written: `-12.5`, `0.25`, `4`, `inf`, `-inf`, `NaN`.
pub open spec fn render(a: Number) -> Seq<char> {
    match a {
        Number::Finite { mant, scale } => {
            let mag = abs(mant as int);
            let sign = if mant < 0 {
                seq!['-']
            } else {
                Seq::empty()
            };
            let whole = digits(mag / pow10(scale as nat));
            if scale == 0 {
                sign + whole
            } else {
                sign + whole + seq!['.'] + fixed_digits(mag % pow10(scale as nat), scale as nat)
            }
        },
        Number::PosInf => seq!['i', 'n', 'f'],
        Number::NegInf => seq!['-', 'i', 'n', 'f'],
        Number::NaN => seq!['N', 'a', 'N'],
    }
}

// ---------------------------------------------------------------- lemmas
proof fn lemma_pow10_positive(n: nat)
    ensures
        pow10(n) >= 1,
    decreases n,
{
    if n > 0 {
        lemma_pow10_positive((n - 1) as nat);
    }
}

proof fn lemma_pow10_mono(n: nat, m: nat)
    requires
        n <= m,
    ensures
        pow10(n) <= pow10(m),
    decreases m,
{
    if n < m {
        lemma_pow10_mono(n, (m - 1) as nat);
        lemma_pow10_positive((m - 1) as nat);
    }
}

proof fn lemma_digit_run_len(s: Seq<char>)
    ensures
        digit_run(s) <= s.len(),
    decreases s.len(),
{
    if s.len() > 0 && is_digit(s[0]) {
        lemma_digit_run_len(s.drop_first());
    }
}

proof fn lemma_pow10_values()
    ensures
        pow10(16) == 10000000000000000,
        pow10(18) == 1000000000000000000,
        pow10(36) == 1000000000000000000000000000000000000,
{
    reveal_with_fuel(pow10, 37);
}

/// Truncation stops at a mantissa of `LIMIT` or more only when the integer
/// part alone reaches `LIMIT`.
proof fn lemma_reduce_big(mag: nat, scale: nat)
    requires
        mag / pow10(scale) >= LIMIT,
    ensures
        reduce(mag, scale).0 >= LIMIT,
    decreases scale,
{
    lemma_pow10_positive(scale);
    if scale > 0 {
        let p = pow10((scale - 1) as nat);
        lemma_pow10_positive((scale - 1) as nat);
        lemma_div_denominator(mag as int, 10, p as int);
        assert(mag >= LIMIT) by {
            assert(mag / pow10(scale) <= mag) by {
                vstd::arithmetic::div_mod::lemma_div_is_ordered_by_denominator(
                    mag as int,
                    1,
                    pow10(scale) as int,
                );
            }
        }
        lemma_reduce_big(mag / 10, (scale - 1) as nat);
    }
}

proof fn lemma_reduce_bounds(mag: nat, scale: nat)
    ensures
        reduce(mag, scale).1 <= scale,
        reduce(mag, scale).1 == 0 || (reduce(mag, scale).1 <= MAX_SCALE && reduce(mag, scale).0
            < LIMIT && reduce(mag, scale).0 % 10 != 0),
        reduce(mag, scale).0 <= mag,
    decreases scale,
{
    if scale > 0 && (scale > MAX_SCALE || mag >= LIMIT || mag % 10 == 0) {
        lemma_reduce_bounds(mag / 10, (scale - 1) as nat);
    }
}

proof fn lemma_make_wf(neg: bool, mag: nat, scale: nat)
    ensures
        make(neg, mag, scale).wf(),
{
    lemma_reduce_bounds(mag, scale);
    let (m, s) = reduce(mag, scale);
    if m < LIMIT && s > 0 {
        assert((-m) % 10 != 0) by {
            if (-m) % 10 == 0 {
                assert(m % 10 == 0);
            }
        }
    }
}

proof fn lemma_digits_value_mono(s: Seq<char>, c: char)
    requires
        is_digit(c),
    ensures
        digits_value(s.push(c)) >= digits_value(s),
        digits_value(s.push(c)) == digits_value(s) * 10 + digit_of(c),
{
    assert(s.push(c).drop_last() =~= s);
}

proof fn lemma_digits_value_concat(a: Seq<char>, b: Seq<char>)
    ensures
        digits_value(a + b) == digits_value(a) * pow10(b.len()) + digits_value(b),
    decreases b.len(),
{
    if b.len() == 0 {
        assert(a + b =~= a);
        assert(pow10(0) == 1);
    } else {
        let b1 = b.drop_last();
        lemma_digits_value_concat(a, b1);
        assert((a + b).drop_last() =~= a + b1);
        assert((a + b).last() == b.last());
        let x = digits_value(a);
        let p = pow10(b1.len());
        let y = digits_value(b1);
        let d = digit_of(b.last());
        assert(pow10(b.len()) == 10 * p);
        assert(digits_value(a + b) == digits_value(a + b1) * 10 + d);
        assert(digits_value(b) == y * 10 + d);
        assert((x * p + y) * 10 + d == x * (10 * p) + (y * 10 + d)) by (nonlinear_arith);
    }
}

spec fn k_of(scale: nat, s: nat) -> nat {
    (scale - 1 - s) as nat
}

/// Without truncation, `reduce` only drops zeros: the value stays.
proof fn lemma_reduce_exact(mag: nat, scale: nat)
    requires
        mag < LIMIT,
        scale <= MAX_SCALE,
    ensures
        reduce(mag, scale).1 <= scale,
        reduce(mag, scale).0 * pow10((scale - reduce(mag, scale).1) as nat) == mag,
    decreases scale,
{
    lemma_reduce_bounds(mag, scale);
    if scale > 0 && mag % 10 == 0 {
        lemma_reduce_exact(mag / 10, (scale - 1) as nat);
        assert(reduce(mag, scale) == reduce(mag / 10, (scale - 1) as nat));
        let (m, s) = reduce(mag, scale);
        assert(m * pow10(k_of(scale, s)) == mag / 10);
        assert(mag == 10 * (mag / 10));
        let k = k_of(scale, s);
        assert(pow10((scale - s) as nat) == 10 * pow10(k));
        assert(m * (10 * pow10(k)) == 10 * (m * pow10(k))) by (nonlinear_arith);
        assert(m * pow10((scale - s) as nat) == mag);
    } else {
        assert(reduce(mag, scale) == (mag, scale));
        assert(pow10(0) == 1);
        assert(mag * pow10(0) == mag);
    }
}

/// A literal with at most `MAX_SCALE` fractional digits whose digits make a
/// number under `LIMIT` denotes exactly that many over `10^f`, where `f`
/// counts its fractional digits: `1.50` is `150 / 10^2`, kept as `15 / 10`.
pub proof fn law_literal_value_exact(t: Seq<char>)
    requires
        frac_digits(t).len() <= MAX_SCALE,
        digits_value(int_digits(t) + frac_digits(t)) < LIMIT,
    ensures
        ({
            let f = frac_digits(t).len();
            let all = digits_value(int_digits(t) + frac_digits(t));
            literal_value(t) matches Number::Finite { mant, scale } && 0 <= mant && scale <= f
                && mant * pow10((f - scale) as nat) == all
        }),
{
    let i = int_digits(t);
    let fr = frac_digits(t);
    let f = fr.len();
    lemma_digits_value_concat(i, fr);
    lemma_pow10_positive(f);
    let iv = digits_value(i);
    assert(iv * pow10(f) >= iv) by (nonlinear_arith)
        requires
            pow10(f) >= 1,
    ;
    assert(fr.take(f as int) =~= fr);
    let mag = iv * pow10(f) + digits_value(fr);
    lemma_reduce_exact(mag, f);
    lemma_reduce_bounds(mag, f);
}

// ---------------------------------------------------------------- exec
fn digit_at(text: &str, n: usize, i: usize) -> (r: bool)
    requires
        n == text@.len(),
    ensures
        r == (i < n && is_digit(text@[i as int])),
{
    if i < n {
        let c = text.get_char(i);
        '0' <= c && c <= '9'
    } else {
        false
    }
}

fn pow10_exec(n: u32) -> (r: u128)
    requires
        n <= 36,
    ensures
        r == pow10(n as nat),
        r <= 1000000000000000000000000000000000000,
{
    let mut r: u128 = 1;
    let mut i: u32 = 0;
    proof {
        lemma_pow10_values();
    }
    while i < n
        invariant
            i <= n <= 36,
            r == pow10(i as nat),
            pow10(36) == 1000000000000000000000000000000000000,
        decreases n - i,
    {
        proof {
            lemma_pow10_mono((i + 1) as nat, 36);
        }
        r = r * 10;
        i = i + 1;
    }
    proof {
        lemma_pow10_mono(n as nat, 36);
    }
    r
}

fn magnitude(m: i64) -> (r: u128)
    ensures
        r == abs(m as int),
{
    if m < 0 {
        (-(m as i128)) as u128
    } else {
        m as u128
    }
}

/// Builds the number nearest to `(neg ? -1 : 1) * mag / 10^scale` towards zero.
fn make_exec(neg: bool, mag: u128, scale: u32) -> (r: Number)
    ensures
        r == make(neg, mag as nat, scale as nat),
        r.wf(),
{
    let mut m = mag;
    let mut s = scale;
    while s > 0 && (s > MAX_SCALE || m >= LIMIT as u128 || m % 10 == 0)
        invariant
            reduce(m as nat, s as nat) == reduce(mag as nat, scale as nat),
        decreases s,
    {
        m = m / 10;
        s = s - 1;
    }
    proof {
        lemma_make_wf(neg, mag as nat, scale as nat);
    }
    if m >= LIMIT as u128 {
        if neg {
            Number::NegInf
        } else {
            Number::PosInf
        }
    } else if neg {
        Number::Finite { mant: -(m as i64), scale: s }
    } else {
        Number::Finite { mant: m as i64, scale: s }
    }
}

/// Builds the number nearest to `x / 10^scale` towards zero.
fn from_int_exec(x: i128, scale: u32) -> (r: Number)
    requires
        -10000000000000000000000000000000000000 < x < 10000000000000000000000000000000000000,
    ensures
        r == from_int(x as int, scale as nat),
        r.wf(),
{
    let neg = x < 0;
    let mag: u128 = if neg {
        (-x) as u128
    } else {
        x as u128
    };
    make_exec(neg, mag, scale)
}

proof fn lemma_scaled_bound(m: int, p: int)
    requires
        -1000000000000000000 < m < 1000000000000000000,
        1 <= p <= 10000000000000000,
    ensures
        -10000000000000000000000000000000000 < m * p < 10000000000000000000000000000000000,
{
    assert(-1000000000000000000 * p < m * p < 1000000000000000000 * p) by (nonlinear_arith)
        requires
            -1000000000000000000 < m < 1000000000000000000,
            1 <= p,
    ;
}

/// `q * b + r == a * 10^16` by long division, one digit at a time.
fn long_div(a: u128, b: u128) -> (q: u128)
    requires
        0 < b,
        a / b < LIMIT,
        a < 10000000000000000000000000000000000,
        b < 10000000000000000000000000000000000,
    ensures
        q == (a * pow10(MAX_SCALE as nat)) / (b as int),
{
    let mut q: u128 = a / b;
    let mut r: u128 = a % b;
    let mut i: u32 = 0;
    proof {
        lemma_pow10_values();
        vstd::arithmetic::div_mod::lemma_fundamental_div_mod(a as int, b as int);
        assert(pow10(0) == 1);
        assert(a < LIMIT * b) by (nonlinear_arith)
            requires
                a / b < LIMIT,
                0 < b,
        ;
    }
    while i < MAX_SCALE
        invariant
            0 < b < 10000000000000000000000000000000000,
            i <= MAX_SCALE,
            r < b,
            q * b + r == a * pow10(i as nat),
            a < LIMIT * b,
            q < LIMIT * pow10(i as nat),
            pow10(16) == 10000000000000000,
        decreases MAX_SCALE - i,
    {
        let ghost p = pow10(i as nat);
        proof {
            lemma_pow10_mono(i as nat, 15);
            lemma_pow10_mono(15, 16);
            assert(pow10(15) == 1000000000000000) by {
                reveal_with_fuel(pow10, 16);
            }
            assert(q * 10 + 9 < 100000000000000000000000000000000000) by (nonlinear_arith)
                requires
                    q < LIMIT * p,
                    p <= 1000000000000000,
            ;
            assert(r * 10 < 100000000000000000000000000000000000) by (nonlinear_arith)
                requires
                    r < b < 10000000000000000000000000000000000,
            ;
        }
        let r10 = r * 10;
        let d = r10 / b;
        let nr = r10 % b;
        proof {
            vstd::arithmetic::div_mod::lemma_fundamental_div_mod(r10 as int, b as int);
            assert(pow10((i + 1) as nat) == 10 * p);
            assert(d < 10) by (nonlinear_arith)
                requires
                    d == r10 / b,
                    r10 == r * 10,
                    r < b,
                    0 < b,
            ;
            assert((q * 10 + d) * b + nr == a * (10 * p)) by (nonlinear_arith)
                requires
                    q * b + r == a * p,
                    b * d + nr == r10,
                    r10 == r * 10,
            ;
            assert(q * 10 + d < LIMIT * (10 * p)) by (nonlinear_arith)
                requires
                    q < LIMIT * p,
                    d < 10,
            ;
        }
        q = q * 10 + d;
        r = nr;
        i = i + 1;
    }
    proof {
        lemma_div_multiples_vanish_fancy(q as int, r as int, b as int);
        assert(b * q + r == q * b + r) by (nonlinear_arith);
    }
    q
}

impl Number {
    /// The number in normal form.
    pub fn normalized(self) -> (r: Number)
        ensures
            r == normal(self),
            r.wf(),
    {
        match self {
            Number::Finite { mant, scale } => from_int_exec(mant as i128, scale),
            _ => self,
        }
    }

    pub fn negated(self) -> (r: Number)
        requires
            self.wf(),
        ensures
            r == negation(self),
            r.wf(),
    {
        match self {
            Number::Finite { mant, scale } => {
                proof {
                    if scale > 0 && (-mant) % 10 == 0 {
                        assert(mant % 10 == 0);
                    }
                }
                Number::Finite { mant: -mant, scale }
            },
            Number::PosInf => Number::NegInf,
            Number::NegInf => Number::PosInf,
            Number::NaN => Number::NaN,
        }
    }

    fn negative(self) -> (r: bool)
        ensures
            r == self.is_negative(),
    {
        match self {
            Number::Finite { mant, .. } => mant < 0,
            Number::NegInf => true,
            _ => false,
        }
    }

    fn zero_valued(self) -> (r: bool)
        ensures
            r == self.is_zero(),
    {
        match self {
            Number::Finite { mant, .. } => mant == 0,
            _ => false,
        }
    }

    /// `self + other`.
    pub fn sum(self, other: Number) -> (r: Number)
        requires
            self.wf(),
            other.wf(),
        ensures
            r == sum_of(self, other),
            r.wf(),
    {
        match (self, other) {
            (Number::Finite { mant: ma, scale: sa }, Number::Finite { mant: mb, scale: sb }) => {
                let s = if sa < sb {
                    sb
                } else {
                    sa
                };
                let pa = pow10_exec(s - sa);
                let pb = pow10_exec(s - sb);
                proof {
                    lemma_pow10_values();
                    lemma_pow10_mono((s - sa) as nat, 16);
                    lemma_pow10_mono((s - sb) as nat, 16);
                    lemma_pow10_positive((s - sa) as nat);
                    lemma_pow10_positive((s - sb) as nat);
                    lemma_scaled_bound(ma as int, pa as int);
                    lemma_scaled_bound(mb as int, pb as int);
                }
                let x = (ma as i128) * (pa as i128) + (mb as i128) * (pb as i128);
                from_int_exec(x, s)
            },
            (Number::NaN, _) | (_, Number::NaN) => Number::NaN,
            (Number::PosInf, Number::NegInf) | (Number::NegInf, Number::PosInf) => Number::NaN,
            (Number::PosInf, _) | (_, Number::PosInf) => Number::PosInf,
            _ => Number::NegInf,
        }
    }

    /// `self - other`.
    pub fn difference(self, other: Number) -> (r: Number)
        requires
            self.wf(),
            other.wf(),
        ensures
            r == difference_of(self, other),
            r.wf(),
    {
        self.sum(other.negated())
    }

    /// `self * other`.
    pub fn product(self, other: Number) -> (r: Number)
        requires
            self.wf(),
            other.wf(),
        ensures
            r == product_of(self, other),
            r.wf(),
    {
        match (self, other) {
            (Number::Finite { mant: ma, scale: sa }, Number::Finite { mant: mb, scale: sb }) => {
                proof {
                    assert(-1000000000000000000000000000000000000 < ma * mb
                        < 1000000000000000000000000000000000000) by (nonlinear_arith)
                        requires
                            -1000000000000000000 < ma < 1000000000000000000,
                            -1000000000000000000 < mb < 1000000000000000000,
                    ;
                }
                let x = (ma as i128) * (mb as i128);
                from_int_exec(x, sa + sb)
            },
            (Number::NaN, _) | (_, Number::NaN) => Number::NaN,
            _ => if self.zero_valued() || other.zero_valued() {
                Number::NaN
            } else if self.negative() != other.negative() {
                Number::NegInf
            } else {
                Number::PosInf
            },
        }
    }

    /// `self / other`.
    pub fn quotient(self, other: Number) -> (r: Number)
        requires
            self.wf(),
            other.wf(),
        ensures
            r == quotient_of(self, other),
            r.wf(),
    {
        match (self, other) {
            (Number::Finite { mant: ma, scale: sa }, Number::Finite { mant: mb, scale: sb }) => {
                if mb == 0 {
                    if ma == 0 {
                        Number::NaN
                    } else if ma < 0 {
                        Number::NegInf
                    } else {
                        Number::PosInf
                    }
                } else {
                    let neg = (ma < 0) != (mb < 0);
                    let pa = pow10_exec(sa);
                    let pb = pow10_exec(sb);
                    let ua = magnitude(ma);
                    let ub = magnitude(mb);
                    proof {
                        lemma_pow10_values();
                        lemma_pow10_mono(sa as nat, 16);
                        lemma_pow10_mono(sb as nat, 16);
                        lemma_pow10_positive(sa as nat);
                        lemma_pow10_positive(sb as nat);
                        lemma_scaled_bound(ua as int, pb as int);
                        lemma_scaled_bound(ub as int, pa as int);
                        assert(ub * pa >= 1) by (nonlinear_arith)
                            requires
                                ub >= 1,
                                pa >= 1,
                        ;
                    }
                    let a = ua * pb;
                    let b = ub * pa;
                    let ghost big = ((a * pow10(MAX_SCALE as nat)) / (b as int)) as nat;
                    if a / b >= LIMIT as u128 {
                        proof {
                            let p = pow10(MAX_SCALE as nat) as int;
                            lemma_div_denominator(a as nat * p, b as int, p);
                            lemma_div_denominator(a as nat * p, p, b as int);
                            assert(p * b == b * p) by (nonlinear_arith);
                            assert((a * p) / p == a) by {
                                lemma_div_multiples_vanish(a as int, p);
                                assert(a * p == p * a) by (nonlinear_arith);
                            }
                            lemma_reduce_big(big, MAX_SCALE as nat);
                            assert(ua * pb * p == a * p);
                        }
                        if neg {
                            Number::NegInf
                        } else {
                            Number::PosInf
                        }
                    } else {
                        let q = long_div(a, b);
                        proof {
                            assert(ua * pb * pow10(MAX_SCALE as nat) == a * pow10(
                                MAX_SCALE as nat,
                            ));
                        }
                        make_exec(neg, q, MAX_SCALE)
                    }
                }
            },
            (Number::NaN, _) | (_, Number::NaN) => Number::NaN,
            (Number::Finite { .. }, _) => Number::Finite { mant: 0, scale: 0 },
            (_, Number::Finite { .. }) => if self.negative() != other.negative() {
                Number::NegInf
            } else {
                Number::PosInf
            },
            _ => Number::NaN,
        }
    }

    /// `self % other`: the remainder of the division truncated towards zero.
    pub fn remainder(self, other: Number) -> (r: Number)
        requires
            self.wf(),
            other.wf(),
        ensures
            r == remainder_of(self, other),
            r.wf(),
    {
        match (self, other) {
            (Number::Finite { mant: ma, scale: sa }, Number::Finite { mant: mb, scale: sb }) => {
                if mb == 0 {
                    Number::NaN
                } else {
                    let s = if sa < sb {
                        sb
                    } else {
                        sa
                    };
                    let pa = pow10_exec(s - sa);
                    let pb = pow10_exec(s - sb);
                    let ua = magnitude(ma);
                    let ub = magnitude(mb);
                    proof {
                        lemma_pow10_values();
                        lemma_pow10_mono((s - sa) as nat, 16);
                        lemma_pow10_mono((s - sb) as nat, 16);
                        lemma_pow10_positive((s - sa) as nat);
                        lemma_pow10_positive((s - sb) as nat);
                        lemma_scaled_bound(ua as int, pa as int);
                        lemma_scaled_bound(ub as int, pb as int);
                        assert(ub * pb >= 1) by (nonlinear_arith)
                            requires
                                ub >= 1,
                                pb >= 1,
                        ;
                    }
                    let rem = (ua * pa) % (ub * pb);
                    make_exec(ma < 0, rem, s)
                }
            },
            (Number::Finite { .. }, Number::PosInf) | (Number::Finite { .. }, Number::NegInf) => self,
            _ => Number::NaN,
        }
    }

    /// The number written by the literal `text`.
    pub fn from_literal(text: &str) -> (r: Number)
        ensures
            r == literal_value(text@),
            r.wf(),
    {
        let n = text.unicode_len();
        let ghost t = text@;
        // integer part
        let mut i: usize = 0;
        let mut iv: u128 = 0;
        let mut big = false;
        proof {
            lemma_pow10_values();
            assert(t.take(0) =~= Seq::<char>::empty());
            assert(t.skip(0) =~= t);
        }
        while digit_at(text, n, i)
            invariant
                n == t.len(),
                i <= n,
                text@ == t,
                forall|j: int| 0 <= j < i ==> is_digit(#[trigger] t[j]),
                !big ==> iv == digits_value(t.take(i as int)) && iv < LIMIT,
                big ==> digits_value(t.take(i as int)) >= LIMIT,
                digit_run(t) == i + digit_run(t.skip(i as int)),
            decreases n - i,
        {
            let c = text.get_char(i);
            proof {
                lemma_digits_value_mono(t.take(i as int), c);
                assert(t.take(i as int).push(c) =~= t.take(i + 1));
                assert(t.skip(i as int).drop_first() =~= t.skip(i + 1));
            }
            if !big {
                let d = (c as u32 - '0' as u32) as u128;
                iv = iv * 10 + d;
                if iv >= LIMIT as u128 {
                    big = true;
                }
            }
            i = i + 1;
        }
        proof {
            assert(digit_run(t.skip(i as int)) == 0);
            assert(int_digits(t) =~= t.take(i as int));
        }
        if big {
            return Number::PosInf;
        }
        // fractional part
        let mut k: u32 = 0;
        let mut fv: u128 = 0;
        let ghost f = frac_digits(t);
        if i < n && i + 1 < n && text.get_char(i) == '.' && digit_at(text, n, i + 1) {
            let start = i + 1;
            let mut j: usize = start;
            let ghost rest = t.skip(start as int);
            proof {
                assert(rest.take(0) =~= Seq::<char>::empty());
                assert(rest.skip(0) =~= rest);
                assert(pow10(0) == 1);
            }
            while k < MAX_SCALE && digit_at(text, n, j)
                invariant
                    n == t.len(),
                    start <= j <= n,
                    text@ == t,
                    rest == t.skip(start as int),
                    k == j - start,
                    k <= MAX_SCALE,
                    fv == digits_value(rest.take(k as int)),
                    fv < pow10(k as nat),
                    digit_run(rest) == k + digit_run(rest.skip(k as int)),
                    pow10(16) == 10000000000000000,
                decreases n - j,
            {
                let c = text.get_char(j);
                proof {
                    lemma_digits_value_mono(rest.take(k as int), c);
                    assert(rest.take(k as int).push(c) =~= rest.take(k + 1));
                    assert(rest.skip(k as int).drop_first() =~= rest.skip(k + 1));
                    assert(rest[k as int] == c);
                    lemma_pow10_mono(k as nat, 16);
                    assert(pow10((k + 1) as nat) == 10 * pow10(k as nat));
                }
                let d = (c as u32 - '0' as u32) as u128;
                fv = fv * 10 + d;
                k = k + 1;
                j = j + 1;
            }
            proof {
                let m = if f.len() < MAX_SCALE {
                    f.len()
                } else {
                    MAX_SCALE as nat
                };
                lemma_digit_run_len(rest);
                if k < MAX_SCALE {
                    assert(digit_run(rest.skip(k as int)) == 0);
                }
                assert(f =~= rest.take(digit_run(rest) as int));
                assert(m == k);
                assert(f.take(k as int) =~= rest.take(k as int));
            }
        } else {
            proof {
                if i < n && t[i as int] == '.' {
                    if i + 1 < n {
                        assert(t.skip(i + 1)[0] == t[i + 1]);
                    }
                    assert(digit_run(t.skip(i + 1)) == 0);
                }
                assert(f =~= Seq::<char>::empty());
                assert(f.take(0) =~= Seq::<char>::empty());
            }
        }
        let p = pow10_exec(k);
        proof {
            lemma_pow10_mono(k as nat, 16);
            assert(iv * p < 100000000000000000000000000000000000) by (nonlinear_arith)
                requires
                    iv < 1000000000000000000,
                    p <= 10000000000000000,
            ;
        }
        make_exec(false, iv * p + fv, k)
    }
}

fn digit_str(d: u64) -> (r: &'static str)
    requires
        d < 10,
    ensures
        r@ == seq![digit_chars()[d as int]],
{
    let all = "0123456789";
    proof {
        reveal_strlit("0123456789");
        assert(all@ =~= digit_chars());
    }
    let r = all.substring_char(d as usize, d as usize + 1);
    proof {
        assert(r@ =~= seq![digit_chars()[d as int]]);
    }
    r
}

pub(crate) fn push_digits(n: u64, out: &mut String)
    ensures
        final(out)@ == old(out)@ + digits(n as nat),
    decreases n,
{
    if n >= 10 {
        push_digits(n / 10, out);
    }
    out.append(digit_str(n % 10));
    proof {
        if n < 10 {
            assert(n % 10 == n);
        }
        assert(final(out)@ =~= old(out)@ + digits(n as nat));
    }
}

fn push_fixed_digits(n: u64, k: u32, out: &mut String)
    ensures
        final(out)@ == old(out)@ + fixed_digits(n as nat, k as nat),
    decreases k,
{
    if k > 0 {
        push_fixed_digits(n / 10, k - 1, out);
        out.append(digit_str(n % 10));
        proof {
            assert(final(out)@ =~= old(out)@ + fixed_digits(n as nat, k as nat));
        }
    } else {
        proof {
            assert(final(out)@ =~= old(out)@ + fixed_digits(n as nat, k as nat));
        }
    }
}

impl Number {
    /// The number as it is written out.
    pub fn to_text(&self) -> (r: String)
        requires
            self.wf(),
        ensures
            r@ == render(*self),
    {
        match *self {
            Number::Finite { mant, scale } => {
                let mag = magnitude(mant) as u64;
                let p = pow10_exec(scale);
                proof {
                    lemma_pow10_positive(scale as nat);
                    lemma_pow10_mono(scale as nat, 18);
                    lemma_pow10_values();
                }
                let p = p as u64;
                let mut out = String::new();
                if mant < 0 {
                    proof {
                        reveal_strlit("-");
                    }
                    out.append("-");
                }
                push_digits(mag / p, &mut out);
                if scale > 0 {
                    proof {
                        reveal_strlit(".");
                    }
                    out.append(".");
                    push_fixed_digits(mag % p, scale, &mut out);
                }
                proof {
                    assert(out@ =~= render(*self));
                }
                out
            },
            Number::PosInf => {
                proof {
                    reveal_strlit("inf");
                }
                "inf".to_owned()
            },
            Number::NegInf => {
                proof {
                    reveal_strlit("-inf");
                }
                "-inf".to_owned()
            },
            Number::NaN => {
                proof {
                    reveal_strlit("NaN");
                }
                "NaN".to_owned()
            },
        }
    }
}

} // verus!
