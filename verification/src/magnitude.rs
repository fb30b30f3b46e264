//! The numeric part of a quantity, kept as an exact term over the literals
//! it was built from.  Whoever needs a floating-point value evaluates the
//! term; decisions that need the value are taken here where exact
//! arithmetic settles them: from the exact value when it is a small
//! rational, and from the sign of the term (see [`sign_of`]) otherwise.
use vstd::prelude::*;

use crate::eval::{is_logarithm, logarithm};
use crate::text::{chars_eq_str, from_chars, slice_vec, to_chars};

verus! {

/// A closed-interval-or-open-interval bound check taken from a function
/// definition (`domain=` or `range=`), with bounds kept as their text; an
/// empty bound text is unbounded.
#[derive(Debug, Clone)]
pub struct Interval {
    /// Text of the lower bound (empty: no lower bound).
    pub min: String,
    /// Text of the upper bound (empty: no upper bound).
    pub max: String,
    /// `true` when the lower bound is exclusive (`(`).
    pub min_open: bool,
    /// `true` when the upper bound is exclusive (`)`).
    pub max_open: bool,
}

/// The numeric factor of a quantity as a term: each variant is one
/// floating-point operation of the engine, applied to its operands.
#[derive(Debug)]
pub enum Magnitude {
    /// The number one.
    One,
    /// A decimal literal, by its text (e.g. `3.15`, `1e10`).
    Decimal(String),
    /// The value of a hexadecimal literal.
    Integer(i64),
    /// Product of two factors.
    Product(Box<Magnitude>, Box<Magnitude>),
    /// Quotient of two factors.
    Quotient(Box<Magnitude>, Box<Magnitude>),
    /// Sum of two factors.
    Sum(Box<Magnitude>, Box<Magnitude>),
    /// Negation.
    Negation(Box<Magnitude>),
    /// `1 / x`.
    Reciprocal(Box<Magnitude>),
    /// `x` raised to an integer power.
    IntPower(Box<Magnitude>, i32),
    /// The `n`-th root `x^(1/n)`; evaluating it fails with `NotRoot` when
    /// `x` is negative.
    Root(Box<Magnitude>, i32),
    /// `x` raised to a real power.
    RealPower(Box<Magnitude>, Box<Magnitude>),
    /// A built-in numeric function (e.g. `sin`, `ln`, `log3`) applied to a
    /// dimensionless value; evaluating a logarithm fails with `NotInDomain`
    /// when its argument is not positive.
    Function(String, Box<Magnitude>),
    /// Linear interpolation in the named table.
    TableLookup(String, Box<Magnitude>),
    /// Reverse interpolation in the named table: the input whose output is
    /// the operand.
    TableInverse(String, Box<Magnitude>),
    /// `value`, provided that `check` lies in `domain`; otherwise the
    /// evaluation fails with `NotInDomain`.
    Guarded(Box<Magnitude>, Box<Magnitude>, Interval),
}

/// The bounds text and openness of an interval.
pub open spec fn interval_view(i: Interval) -> (Seq<char>, Seq<char>, bool, bool) {
    (i.min@, i.max@, i.min_open, i.max_open)
}

/// The mathematical content of a [`Magnitude`]: the same term with texts as
/// character sequences.
pub enum MagView {
    /// The number one.
    One,
    /// A decimal literal.
    Decimal(Seq<char>),
    /// An integer.
    Integer(int),
    /// Product.
    Product(Box<MagView>, Box<MagView>),
    /// Quotient.
    Quotient(Box<MagView>, Box<MagView>),
    /// Sum.
    Sum(Box<MagView>, Box<MagView>),
    /// Negation.
    Negation(Box<MagView>),
    /// Reciprocal.
    Reciprocal(Box<MagView>),
    /// Integer power.
    IntPower(Box<MagView>, int),
    /// Root.
    Root(Box<MagView>, int),
    /// Real power.
    RealPower(Box<MagView>, Box<MagView>),
    /// Built-in function.
    Function(Seq<char>, Box<MagView>),
    /// Table interpolation.
    TableLookup(Seq<char>, Box<MagView>),
    /// Reverse table interpolation.
    TableInverse(Seq<char>, Box<MagView>),
    /// Value guarded by a domain check.
    Guarded(Box<MagView>, Box<MagView>, (Seq<char>, Seq<char>, bool, bool)),
}

/// The view of a term.
pub open spec fn mag_view(m: Magnitude) -> MagView
    decreases m,
{
    match m {
        Magnitude::One => MagView::One,
        Magnitude::Decimal(t) => MagView::Decimal(t@),
        Magnitude::Integer(v) => MagView::Integer(v as int),
        Magnitude::Product(a, b) => MagView::Product(Box::new(mag_view(*a)), Box::new(mag_view(*b))),
        Magnitude::Quotient(a, b) => MagView::Quotient(Box::new(mag_view(*a)), Box::new(mag_view(*b))),
        Magnitude::Sum(a, b) => MagView::Sum(Box::new(mag_view(*a)), Box::new(mag_view(*b))),
        Magnitude::Negation(a) => MagView::Negation(Box::new(mag_view(*a))),
        Magnitude::Reciprocal(a) => MagView::Reciprocal(Box::new(mag_view(*a))),
        Magnitude::IntPower(a, n) => MagView::IntPower(Box::new(mag_view(*a)), n as int),
        Magnitude::Root(a, n) => MagView::Root(Box::new(mag_view(*a)), n as int),
        Magnitude::RealPower(a, b) => MagView::RealPower(Box::new(mag_view(*a)), Box::new(mag_view(*b))),
        Magnitude::Function(f, a) => MagView::Function(f@, Box::new(mag_view(*a))),
        Magnitude::TableLookup(f, a) => MagView::TableLookup(f@, Box::new(mag_view(*a))),
        Magnitude::TableInverse(f, a) => MagView::TableInverse(f@, Box::new(mag_view(*a))),
        Magnitude::Guarded(v, c, i) => MagView::Guarded(
            Box::new(mag_view(*v)),
            Box::new(mag_view(*c)),
            interval_view(i),
        ),
    }
}

/// Whether `x` fits in an `i128`.
pub open spec fn fits_i128(x: int) -> bool {
    i128::MIN <= x <= i128::MAX
}

/// `Some((n, d))` when both parts fit in an `i128`.
pub open spec fn bounded_ratio(n: int, d: int) -> Option<(int, int)> {
    if fits_i128(n) && fits_i128(d) {
        Some((n, d))
    } else {
        None
    }
}

/// Whether every character is an ASCII digit.
pub open spec fn all_digits(s: Seq<char>) -> bool {
    forall|i: int| 0 <= i < s.len() ==> '0' <= #[trigger] s[i] <= '9'
}

/// The value of a string of decimal digits.
pub open spec fn digits_value(s: Seq<char>) -> int
    decreases s.len(),
{
    if s.len() == 0 {
        0
    } else {
        digits_value(s.drop_last()) * 10 + (s.last() as int - '0' as int)
    }
}

/// Ten to the power `n`.
pub open spec fn pow10(n: nat) -> int
    decreases n,
{
    if n == 0 {
        1
    } else {
        10 * pow10((n - 1) as nat)
    }
}

/// The exact value of a decimal literal without exponent and with at most
/// eighteen digits, as `(numerator, denominator)`.
pub open spec fn plain_decimal(t: Seq<char>) -> Option<(int, int)> {
    if all_digits(t) && 1 <= t.len() <= 18 {
        Some((digits_value(t), 1))
    } else if exists|k: int|
        0 <= k < t.len() && t[k] == '.' && all_digits(t.take(k)) && all_digits(t.skip(k + 1)) && 1
            <= t.len() - 1 <= 18 {
        let k = choose|k: int|
            0 <= k < t.len() && t[k] == '.' && all_digits(t.take(k)) && all_digits(t.skip(k + 1))
                && 1 <= t.len() - 1 <= 18;
        Some((digits_value(t.take(k) + t.skip(k + 1)), pow10((t.len() - k - 1) as nat)))
    } else {
        None
    }
}

/// The exact rational value `(numerator, denominator > 0)` of a term, when
/// it is built from decimal literals by products, quotients, sums,
/// negations, reciprocals and roots that come out exact, and by built-in
/// functions at the points where their value is exact (`sin 0 = 0`,
/// `exp 0 = 1`, `ln 1 = 0`, `abs`), with every intermediate part fitting
/// in an `i128`.
pub open spec fn exact_value(m: MagView) -> Option<(int, int)>
    decreases m,
{
    match m {
        MagView::One => Some((1, 1)),
        MagView::Decimal(t) => decimal_value(t),
        MagView::Integer(v) => Some((v, 1)),
        MagView::Product(a, b) => match (exact_value(*a), exact_value(*b)) {
            (Some(x), Some(y)) => bounded_ratio(x.0 * y.0, x.1 * y.1),
            _ => None,
        },
        MagView::Quotient(a, b) => match (exact_value(*a), exact_value(*b)) {
            (Some(x), Some(y)) => if y.0 == 0 {
                None
            } else {
                let n = x.0 * y.1;
                let d = x.1 * y.0;
                if !fits_i128(n) || !fits_i128(d) {
                    None
                } else if d > 0 {
                    Some((n, d))
                } else {
                    bounded_ratio(-n, -d)
                }
            },
            _ => None,
        },
        MagView::Sum(a, b) => match (exact_value(*a), exact_value(*b)) {
            (Some(x), Some(y)) => {
                let p = x.0 * y.1;
                let q = y.0 * x.1;
                if fits_i128(p) && fits_i128(q) {
                    bounded_ratio(p + q, x.1 * y.1)
                } else {
                    None
                }
            },
            _ => None,
        },
        MagView::Negation(a) => match exact_value(*a) {
            Some(x) => bounded_ratio(-x.0, x.1),
            None => None,
        },
        MagView::Reciprocal(a) => match exact_value(*a) {
            Some(x) => if x.0 == 0 {
                None
            } else if x.0 > 0 {
                Some((x.1, x.0))
            } else {
                bounded_ratio(-x.1, -x.0)
            },
            None => None,
        },
        MagView::Root(a, n) => match exact_value(*a) {
            Some(x) => if 1 <= n <= u32::MAX && x.0 >= 0 {
                match (int_root(x.0, n as nat), int_root(x.1, n as nat)) {
                    (Some(r), Some(q)) => Some((r, q)),
                    _ => None,
                }
            } else {
                None
            },
            None => None,
        },
        MagView::Function(f, a) => match exact_value(*a) {
            Some(x) => if x.0 == 0 && is_zero_at_zero_fn(f) {
                Some((0, 1))
            } else if x.0 == 0 && is_one_at_zero_fn(f) {
                Some((1, 1))
            } else if x.0 == x.1 && is_logarithm(f) {
                Some((0, 1))
            } else if f == "abs"@ {
                bounded_ratio(abs_int(x.0), x.1)
            } else {
                None
            },
            None => None,
        },
        _ => None,
    }
}

/// The sign of an integer: `1`, `0` or `-1`.
pub open spec fn sgn(x: int) -> int {
    if x > 0 {
        1
    } else if x < 0 {
        -1
    } else {
        0
    }
}

/// The part of a literal before its exponent mark.
pub open spec fn mantissa(t: Seq<char>) -> Seq<char> {
    match exp_mark(t) {
        Some(k) => t.take(k),
        None => t,
    }
}

/// Whether `c` may stand in the mantissa of a decimal literal.
pub open spec fn is_mantissa_char(c: char) -> bool {
    ('0' <= c && c <= '9') || c == '.'
}

/// The sign of a decimal literal whose mantissa is digits and points with
/// at least one digit: zero when every digit is `0`, else positive (the
/// exponent only scales it).
pub open spec fn literal_sign(t: Seq<char>) -> Option<int> {
    let m = mantissa(t);
    if (forall|i: int| 0 <= i < m.len() ==> is_mantissa_char(#[trigger] m[i])) && (exists|i: int|
        0 <= i < m.len() && '0' <= #[trigger] m[i] <= '9') {
        if exists|i: int| 0 <= i < m.len() && '1' <= #[trigger] m[i] <= '9' {
            Some(1)
        } else {
            Some(0)
        }
    } else {
        None
    }
}

/// The built-in functions that are positive for every argument.
pub open spec fn is_positive_fn(f: Seq<char>) -> bool {
    f == "exp"@ || f == "cosh"@ || f == "sech"@
}

/// The built-in functions whose value has the sign of their argument.
pub open spec fn is_sign_keeping_fn(f: Seq<char>) -> bool {
    f == "sinh"@ || f == "tanh"@ || f == "asinh"@ || f == "atan"@ || f == "asin"@ || f == "atanh"@
}

/// The built-in functions that are zero at zero.
pub open spec fn is_zero_at_zero_fn(f: Seq<char>) -> bool {
    is_sign_keeping_fn(f) || f == "sin"@ || f == "tan"@
}

/// The built-in functions that are one at zero.
pub open spec fn is_one_at_zero_fn(f: Seq<char>) -> bool {
    f == "exp"@ || f == "cos"@ || f == "cosh"@ || f == "sech"@
}

/// The sign (`1`, `0` or `-1`) of the real value of a term, where exact
/// arithmetic decides it: from the exact value when there is one, else from
/// the signs of the operands (literals of any size, products, quotients,
/// sums of like signs, negations, reciprocals, integer powers, real powers
/// of positive bases or to exact whole exponents, roots, functions of known
/// sign, logarithms of exact arguments, guarded values).  `None` where
/// only the floating-point value would tell.
pub open spec fn sign_of(m: MagView) -> Option<int>
    decreases m,
{
    match exact_value(m) {
        Some(x) => Some(sgn(x.0)),
        None => match m {
            MagView::Decimal(t) => literal_sign(t),
            MagView::Product(a, b) => match (sign_of(*a), sign_of(*b)) {
                (Some(x), Some(y)) => Some(x * y),
                _ => None,
            },
            MagView::Quotient(a, b) => match (sign_of(*a), sign_of(*b)) {
                (Some(x), Some(y)) => if y == 0 {
                    None
                } else {
                    Some(x * y)
                },
                _ => None,
            },
            MagView::Sum(a, b) => match (sign_of(*a), sign_of(*b)) {
                (Some(x), Some(y)) => if x == y || y == 0 {
                    Some(x)
                } else if x == 0 {
                    Some(y)
                } else {
                    None
                },
                _ => None,
            },
            MagView::Negation(a) => match sign_of(*a) {
                Some(x) => Some(-x),
                None => None,
            },
            MagView::Reciprocal(a) => match sign_of(*a) {
                Some(x) => if x == 0 {
                    None
                } else {
                    Some(x)
                },
                None => None,
            },
            MagView::IntPower(a, p) => if p == 0 {
                Some(1)
            } else if p < 0 {
                None
            } else {
                match sign_of(*a) {
                    Some(x) => if x == 0 {
                        Some(0)
                    } else if p % 2 == 0 {
                        Some(1)
                    } else {
                        Some(x)
                    },
                    None => None,
                }
            },
            MagView::Root(a, n) => match sign_of(*a) {
                Some(x) => if x >= 0 && n >= 1 {
                    Some(x)
                } else {
                    None
                },
                None => None,
            },
            MagView::RealPower(a, b) => match sign_of(*a) {
                Some(x) => if x == 1 {
                    Some(1)
                } else {
                    match exact_value(*b) {
                        Some(e) => if e.1 == 1 && e.0 >= 0 {
                            if e.0 == 0 {
                                Some(1)
                            } else if x == 0 {
                                Some(0)
                            } else if e.0 % 2 == 0 {
                                Some(1)
                            } else {
                                Some(x)
                            }
                        } else {
                            None
                        },
                        None => None,
                    }
                },
                None => None,
            },
            MagView::Function(f, a) => if is_positive_fn(f) {
                Some(1)
            } else if is_logarithm(f) {
                match exact_value(*a) {
                    Some(x) => if x.0 > 0 {
                        Some(sgn(x.0 - x.1))
                    } else {
                        None
                    },
                    None => None,
                }
            } else {
                match sign_of(*a) {
                    Some(x) => if is_sign_keeping_fn(f) {
                        Some(x)
                    } else if f == "abs"@ {
                        Some(x * x)
                    } else {
                        None
                    },
                    None => None,
                }
            },
            MagView::Guarded(v, c, i) => sign_of(*v),
            _ => None,
        },
    }
}

/// The term is negative by exact arithmetic (see [`sign_of`]).
pub open spec fn known_negative(m: MagView) -> bool {
    sign_of(m) == Some(-1int)
}

/// The term is zero by exact arithmetic (see [`sign_of`]).
pub open spec fn known_zero(m: MagView) -> bool {
    sign_of(m) == Some(0int)
}

/// The value of an interval bound's text: a decimal literal with an
/// optional sign.
pub open spec fn bound_value(t: Seq<char>) -> Option<(int, int)> {
    if t.len() > 0 && t[0] == '-' {
        match decimal_value(t.drop_first()) {
            Some(v) => bounded_ratio(-v.0, v.1),
            None => None,
        }
    } else if t.len() > 0 && t[0] == '+' {
        decimal_value(t.drop_first())
    } else {
        decimal_value(t)
    }
}

/// The sign of `x - b` for the exact value `x` and the bound `b` written
/// `t`, when `b` is exact and the cross products fit in an `i128`.
pub open spec fn bound_relation(x: (int, int), t: Seq<char>) -> Option<int> {
    match bound_value(t) {
        Some(b) => if fits_i128(x.0 * b.1) && fits_i128(b.0 * x.1) {
            Some(sgn(x.0 * b.1 - b.0 * x.1))
        } else {
            None
        },
        None => None,
    }
}

/// Whether the exact value of `m` lies outside the interval `iv` (bounds
/// text, bounds text, lower open, upper open); `false` wherever the value or
/// a bound is not exact, so that only evaluation can tell.
pub open spec fn outside_interval(m: MagView, iv: (Seq<char>, Seq<char>, bool, bool)) -> bool {
    match exact_value(m) {
        Some(x) => {
            ||| match bound_relation(x, iv.0) {
                Some(c) => c < 0 || (iv.2 && c == 0),
                None => false,
            }
            ||| match bound_relation(x, iv.1) {
                Some(c) => c > 0 || (iv.3 && c == 0),
                None => false,
            }
        },
        None => false,
    }
}

/// Greatest common divisor by Euclid's algorithm.
pub open spec fn gcd(a: nat, b: nat) -> nat
    decreases b,
{
    if b == 0 {
        a
    } else {
        gcd(b, a % b)
    }
}

/// The absolute value.
pub open spec fn abs_int(x: int) -> int {
    if x < 0 {
        -x
    } else {
        x
    }
}

/// The exponent `p/q` in lowest terms of the exact value `(n, d)`, when
/// `q < 100` and `p` fits in an `i32`: the rational exponents that the
/// engine accepts for a quantity with dimensions.
pub open spec fn small_rational(n: int, d: int) -> Option<(int, int)> {
    let g = gcd(abs_int(n) as nat, d as nat) as int;
    if g == 0 {
        None
    } else {
        let p = n / g;
        let q = d / g;
        if q < 100 && i32::MIN <= p <= i32::MAX {
            Some((p, q))
        } else {
            None
        }
    }
}

fn digits_value_of(s: &Vec<char>, from: usize, to: usize) -> (v: i128)
    requires
        from <= to <= s@.len(),
        to - from <= 18,
        all_digits(s@.subrange(from as int, to as int)),
    ensures
        v as int == digits_value(s@.subrange(from as int, to as int)),
        0 <= v < pow10((to - from) as nat),
{
    let mut v: i128 = 0;
    let mut i = from;
    proof {
        lemma_pow10_monotone(0, 18);
        lemma_pow10_18();
    }
    while i < to
        invariant
            from <= i <= to <= s@.len(),
            to - from <= 18,
            all_digits(s@.subrange(from as int, to as int)),
            v as int == digits_value(s@.subrange(from as int, i as int)),
            0 <= v < pow10((i - from) as nat),
            pow10(18) == 1_000_000_000_000_000_000,
        decreases to - i,
    {
        let ghost sub = s@.subrange(from as int, (i + 1) as int);
        proof {
            assert(sub.drop_last() =~= s@.subrange(from as int, i as int));
            assert(s@.subrange(from as int, to as int)[i - from] == s@[i as int]);
            lemma_pow10_monotone((i + 1 - from) as nat, 18);
            assert(pow10((i + 1 - from) as nat) == 10 * pow10((i - from) as nat));
        }
        let d = (s[i] as u32 - '0' as u32) as i128;
        assert(v * 10 + d < pow10((i + 1 - from) as nat));
        v = v * 10 + d;
        i = i + 1;
    }
    v
}

proof fn lemma_pow10_monotone(a: nat, b: nat)
    requires
        a <= b,
    ensures
        1 <= pow10(a) <= pow10(b),
    decreases b,
{
    if b > 0 {
        if a < b {
            lemma_pow10_monotone(a, (b - 1) as nat);
        } else {
            lemma_pow10_monotone((a - 1) as nat, (b - 1) as nat);
        }
    }
}

proof fn lemma_pow10_18()
    ensures
        pow10(18) == 1_000_000_000_000_000_000,
{
    reveal_with_fuel(pow10, 19);
}

/// The exact value of a decimal literal text, as [`plain_decimal`].
fn exact_decimal(t: &String) -> (r: Option<(i128, i128)>)
    ensures
        match r {
            Some(x) => plain_decimal(t@) == Some((x.0 as int, x.1 as int)) && x.1 > 0,
            None => plain_decimal(t@) is None,
        },
{
    let s = crate::text::to_chars(t.as_str());
    let n = s.len();
    if n == 0 || n > 19 {
        return None;
    }
    // find the first dot and check every other character is a digit
    let mut dot: usize = n;
    let mut i: usize = 0;
    while i < n
        invariant
            n == s@.len(),
            s@ == t@,
            i <= n,
            dot == n || (dot < i && s@[dot as int] == '.'),
            forall|j: int| 0 <= j < i && j != dot ==> '0' <= #[trigger] s@[j] <= '9',
        decreases n - i,
    {
        let c = s[i];
        if c == '.' && dot == n {
            dot = i;
        } else if !('0' <= c && c <= '9') {
            proof {
                assert(!all_digits(s@));
                if exists|k: int|
                    0 <= k < s@.len() && s@[k] == '.' && all_digits(s@.take(k)) && all_digits(
                        s@.skip(k + 1),
                    ) && 1 <= s@.len() - 1 <= 18 {
                    let k = choose|k: int|
                        0 <= k < s@.len() && s@[k] == '.' && all_digits(s@.take(k)) && all_digits(
                            s@.skip(k + 1),
                        ) && 1 <= s@.len() - 1 <= 18;
                    if i < k {
                        assert(s@.take(k)[i as int] == c);
                    } else if i > k {
                        assert(s@.skip(k + 1)[i - k - 1] == c);
                    } else {
                        assert(s@.take(k)[dot as int] == '.');
                    }
                }

            }
            return None;
        }
        i = i + 1;
    }
    proof {
        lemma_pow10_18();
    }
    if dot == n {
        if n > 18 {
            return None;
        }
        let v = digits_value_of(&s, 0, n);
        proof {
            assert(s@.subrange(0, n as int) =~= s@);
        }
        Some((v, 1))
    } else {
        if n - 1 > 18 || n - 1 < 1 {
            proof {
                assert(!all_digits(s@)) by {
                    assert(!('0' <= s@[dot as int] <= '9'));
                }
            }
            return None;
        }
        let ghost k = dot as int;
        proof {
            assert(all_digits(s@.take(k)));
            assert(all_digits(s@.skip(k + 1)));
            assert(!all_digits(s@)) by {
                assert(!('0' <= s@[dot as int] <= '9'));
            }
        }
        // collect the digits without the dot
        let mut ds: Vec<char> = Vec::new();
        let mut j: usize = 0;
        while j < n
            invariant
                n == s@.len(),
                dot < n,
                j <= n,
                ds@ == (if j <= dot {
                    s@.take(j as int)
                } else {
                    s@.take(dot as int) + s@.subrange(dot + 1, j as int)
                }),
            decreases n - j,
        {
            if j != dot {
                ds.push(s[j]);
            }
            proof {
                if j < dot {
                    assert(s@.take(j + 1) =~= s@.take(j as int).push(s@[j as int]));
                } else if j == dot {
                    assert(s@.take(dot as int) + s@.subrange(dot + 1, dot + 1) =~= s@.take(
                        dot as int,
                    ));
                } else {
                    assert(s@.subrange(dot + 1, j + 1) =~= s@.subrange(dot + 1, j as int).push(
                        s@[j as int],
                    ));
                }
            }
            j = j + 1;
        }
        proof {
            assert(ds@ =~= s@.take(k) + s@.skip(k + 1));
            assert(ds@.subrange(0, (n - 1) as int) =~= ds@);
            assert(all_digits(ds@));
            // uniqueness of the dot position
            let k2 = choose|k2: int|
                0 <= k2 < s@.len() && s@[k2] == '.' && all_digits(s@.take(k2)) && all_digits(
                    s@.skip(k2 + 1),
                ) && 1 <= s@.len() - 1 <= 18;
            if k2 < k {
                assert(s@.take(k)[k2] == '.');
            } else if k2 > k {
                assert(s@.skip(k2 + 1).len() >= 0);
                assert(s@.take(k2)[k] == '.');
            }
            lemma_pow10_monotone((n - 1 - dot) as nat, 18);
        }
        let v = digits_value_of(&ds, 0, n - 1);
        let mut d: i128 = 1;
        let mut e: usize = 0;
        while e < n - 1 - dot
            invariant
                dot < n,
                e <= n - 1 - dot,
                n - 1 - dot <= 18,
                d as int == pow10(e as nat),
                pow10((n - 1 - dot) as nat) <= pow10(18),
                pow10(18) == 1_000_000_000_000_000_000,
            decreases n - 1 - dot - e,
        {
            proof {
                lemma_pow10_monotone((e + 1) as nat, (n - 1 - dot) as nat);
            }
            d = d * 10;
            e = e + 1;
        }
        proof {
            lemma_pow10_monotone(0, e as nat);
        }
        Some((v, d))
    }
}

/// The index of the first `e` or `E` of `s`.
pub open spec fn exp_mark(s: Seq<char>) -> Option<int>
    decreases s.len(),
{
    if s.len() == 0 {
        None
    } else if s[0] == 'e' || s[0] == 'E' {
        Some(0)
    } else {
        match exp_mark(s.drop_first()) {
            Some(i) => Some(i + 1),
            None => None,
        }
    }
}

/// A decimal exponent: an optional sign and one or two digits.
pub open spec fn exp_value(s: Seq<char>) -> Option<int> {
    if s.len() >= 1 && (s[0] == '+' || s[0] == '-') {
        let d = s.drop_first();
        if 1 <= d.len() <= 2 && all_digits(d) {
            Some(if s[0] == '-' { -digits_value(d) } else { digits_value(d) })
        } else {
            None
        }
    } else if 1 <= s.len() <= 2 && all_digits(s) {
        Some(digits_value(s))
    } else {
        None
    }
}

/// The exact value of a decimal literal: a plain decimal (see
/// [`plain_decimal`]), optionally followed by `e` or `E` and an exponent
/// (see [`exp_value`]), when numerator and denominator fit in an `i128`.
pub open spec fn decimal_value(t: Seq<char>) -> Option<(int, int)> {
    match exp_mark(t) {
        None => plain_decimal(t),
        Some(k) => match (plain_decimal(t.take(k)), exp_value(t.skip(k + 1))) {
            (Some(m), Some(e)) => if e >= 0 {
                bounded_ratio(m.0 * pow10(e as nat), m.1)
            } else {
                bounded_ratio(m.0, m.1 * pow10((-e) as nat))
            },
            _ => None,
        },
    }
}

proof fn lemma_exp_mark(s: Seq<char>)
    ensures
        match exp_mark(s) {
            Some(k) => 0 <= k < s.len() && (s[k] == 'e' || s[k] == 'E') && forall|j: int|
                0 <= j < k ==> !(#[trigger] s[j] == 'e' || s[j] == 'E'),
            None => forall|j: int| 0 <= j < s.len() ==> !(#[trigger] s[j] == 'e' || s[j] == 'E'),
        },
    decreases s.len(),
{
    if s.len() > 0 && !(s[0] == 'e' || s[0] == 'E') {
        lemma_exp_mark(s.drop_first());
        assert forall|j: int| 1 <= j < s.len() implies s[j] == s.drop_first()[j - 1] by {}
    }
}

proof fn lemma_pow10_add(a: nat, b: nat)
    ensures
        pow10(a + b) == pow10(a) * pow10(b),
    decreases b,
{
    if b > 0 {
        lemma_pow10_add(a, (b - 1) as nat);
        assert(pow10(a + b) == 10 * pow10((a + b - 1) as nat));
        assert(pow10(a) * pow10(b) == pow10(a) * (10 * pow10((b - 1) as nat)));
        assert(pow10(a) * (10 * pow10((b - 1) as nat)) == 10 * (pow10(a) * pow10((b - 1) as nat))) by (nonlinear_arith);
    }
}

/// `x * pow10(e)` keeps growing in size: once a part does not fit, the
/// whole does not either.
proof fn lemma_scaled_unbounded(x: int, j: nat, e: nat)
    requires
        x != 0,
        j <= e,
        !fits_i128(x * pow10(j)),
    ensures
        !fits_i128(x * pow10(e)),
{
    lemma_pow10_add(j, (e - j) as nat);
    lemma_pow10_monotone(0, (e - j) as nat);
    let p = pow10(j);
    let q = pow10((e - j) as nat);
    assert(pow10(e) == p * q);
    assert(x * (p * q) == (x * p) * q) by (nonlinear_arith);
    assert(!fits_i128((x * p) * q)) by (nonlinear_arith)
        requires
            q >= 1,
            !fits_i128(x * p),
    {
    }
}

/// The exponent of a literal after its `e`: `(value, ok)`.
fn exponent_of_literal(s: &Vec<char>, from: usize) -> (r: Option<i32>)
    requires
        from <= s@.len(),
    ensures
        match r {
            Some(e) => exp_value(s@.skip(from as int)) == Some(e as int) && -99 <= e <= 99,
            None => exp_value(s@.skip(from as int)) is None,
        },
{
    let ghost t = s@.skip(from as int);
    let n = s.len();
    let mut i = from;
    let mut neg = false;
    if i < n && (s[i] == '+' || s[i] == '-') {
        neg = s[i] == '-';
        i = i + 1;
    }
    let len = n - i;
    if len < 1 || len > 2 {
        proof {
            if t.len() >= 1 && (t[0] == '+' || t[0] == '-') {
                assert(t.drop_first().len() == len);
            }
        }
        return None;
    }
    let mut v: i32 = 0;
    let mut j = i;
    while j < n
        invariant
            i <= j <= n,
            n == s@.len(),
            n - i <= 2,
            t == s@.skip(from as int),
            from <= i <= from + 1,
            i == from + 1 ==> (s@[from as int] == '+' || s@[from as int] == '-'),
            i == from ==> (from < n ==> !(s@[from as int] == '+' || s@[from as int] == '-')),
            0 <= v < 100,
            all_digits(s@.subrange(i as int, j as int)),
            v as int == digits_value(s@.subrange(i as int, j as int)),
            0 <= v < pow10((j - i) as nat),
        decreases n - j,
    {
        let c = s[j];
        if !('0' <= c && c <= '9') {
            proof {
                let d = s@.subrange(i as int, n as int);
                assert(d[j - i] == c);
                assert(!all_digits(d));
                if i > from {
                    assert(t.drop_first() =~= d);
                } else {
                    assert(t =~= d);
                    assert(!(t[0] == '+' || t[0] == '-'));
                }
            }
            return None;
        }
        proof {
            let a = s@.subrange(i as int, j as int);
            let b = s@.subrange(i as int, j + 1);
            assert(b.drop_last() =~= a);
            reveal_with_fuel(pow10, 3);
            assert(pow10((j + 1 - i) as nat) == 10 * pow10((j - i) as nat));
        }
        v = v * 10 + (c as u32 - '0' as u32) as i32;
        j = j + 1;
    }
    proof {
        let d = s@.subrange(i as int, n as int);
        if i > from {
            assert(t.drop_first() =~= d);
        } else {
            assert(t =~= d);
            assert(!(t[0] == '+' || t[0] == '-')) by {
                assert(all_digits(d));
                assert('0' <= d[0] <= '9');
            }
        }
    }
    if neg {
        Some(-v)
    } else {
        Some(v)
    }
}

/// The exact value of a decimal literal, as [`decimal_value`].
fn exact_literal(t: &String) -> (r: Option<(i128, i128)>)
    ensures
        match r {
            Some(x) => decimal_value(t@) == Some((x.0 as int, x.1 as int)) && x.1 > 0,
            None => decimal_value(t@) is None,
        },
{
    let s = crate::text::to_chars(t.as_str());
    let n = s.len();
    proof {
        lemma_exp_mark(t@);
    }
    let mut k: usize = 0;
    while k < n && !(s[k] == 'e' || s[k] == 'E')
        invariant
            k <= n,
            n == s@.len(),
            s@ == t@,
            forall|j: int| 0 <= j < k ==> !(#[trigger] s@[j] == 'e' || s@[j] == 'E'),
        decreases n - k,
    {
        k = k + 1;
    }
    if k == n {
        proof {
            match exp_mark(t@) {
                Some(m) => {
                    assert(!(s@[m] == 'e' || s@[m] == 'E'));
                },
                None => {},
            }
        }
        return exact_decimal(t);
    }
    proof {
        match exp_mark(t@) {
            Some(m) => {
                if m < k {
                    assert(!(s@[m] == 'e' || s@[m] == 'E'));
                }
                if k < m {
                    assert(!(t@[k as int] == 'e' || t@[k as int] == 'E'));
                }
            },
            None => {
                assert(!(t@[k as int] == 'e' || t@[k as int] == 'E'));
            },
        }
        assert(exp_mark(t@) == Some(k as int));
    }
    let mant_chars = crate::text::slice_vec(&s, 0, k);
    let mant = crate::text::from_chars(mant_chars.as_slice());
    proof {
        assert(mant@ =~= t@.take(k as int));
    }
    let m = match exact_decimal(&mant) {
        Some(m) => m,
        None => {
            return None;
        },
    };
    let e = match exponent_of_literal(&s, k + 1) {
        Some(e) => e,
        None => {
            return None;
        },
    };
    proof {
        assert(s@.skip(k + 1) == t@.skip(k + 1));
        lemma_pow10_monotone(0, 99);
    }
    if e >= 0 {
        if m.0 == 0 {
            proof {
                assert(m.0 * pow10(e as nat) == 0);
            }
            return Some((0, m.1));
        }
        let mut v: i128 = m.0;
        let mut j: i32 = 0;
        proof {
            assert(pow10(0) == 1);
            assert(m.0 * pow10(0) == m.0);
        }
        while j < e
            invariant
                0 <= j <= e <= 99,
                m.0 != 0,
                exp_mark(t@) == Some(k as int),
                plain_decimal(t@.take(k as int)) == Some((m.0 as int, m.1 as int)),
                exp_value(t@.skip(k + 1)) == Some(e as int),
                v as int == m.0 * pow10(j as nat),
            decreases e - j,
        {
            proof {
                assert(pow10((j + 1) as nat) == 10 * pow10(j as nat));
                assert(m.0 * pow10((j + 1) as nat) == (m.0 * pow10(j as nat)) * 10) by (nonlinear_arith)
                    requires
                        pow10((j + 1) as nat) == 10 * pow10(j as nat),
                ;
            }
            match v.checked_mul(10) {
                Some(w) => {
                    v = w;
                },
                None => {
                    proof {
                        lemma_scaled_unbounded(m.0 as int, (j + 1) as nat, e as nat);
                        assert(decimal_value(t@) is None);
                    }
                    return None;
                },
            }
            j = j + 1;
        }
        Some((v, m.1))
    } else {
        let mut d: i128 = m.1;
        let mut j: i32 = 0;
        let ghost ne = -e;
        proof {
            assert(pow10(0) == 1);
            assert(m.1 * pow10(0) == m.1);
        }
        while j < -e
            invariant
                0 <= j <= -e <= 99,
                ne == -e,
                exp_mark(t@) == Some(k as int),
                plain_decimal(t@.take(k as int)) == Some((m.0 as int, m.1 as int)),
                exp_value(t@.skip(k + 1)) == Some(e as int),
                m.1 > 0,
                d as int == m.1 * pow10(j as nat),
            decreases -e - j,
        {
            proof {
                assert(pow10((j + 1) as nat) == 10 * pow10(j as nat));
                assert(m.1 * pow10((j + 1) as nat) == (m.1 * pow10(j as nat)) * 10) by (nonlinear_arith)
                    requires
                        pow10((j + 1) as nat) == 10 * pow10(j as nat),
                ;
            }
            match d.checked_mul(10) {
                Some(w) => {
                    d = w;
                },
                None => {
                    proof {
                        lemma_scaled_unbounded(m.1 as int, (j + 1) as nat, ne as nat);
                        assert(decimal_value(t@) is None);
                    }
                    return None;
                },
            }
            j = j + 1;
        }
        proof {
            lemma_pow10_monotone(0, j as nat);
            assert(d as int >= m.1) by (nonlinear_arith)
                requires
                    d as int == m.1 * pow10(j as nat),
                    pow10(j as nat) >= 1,
                    m.1 > 0,
            ;
        }
        Some((m.0, d))
    }
}

/// `r` to the power `n`.
pub open spec fn ipow(r: int, n: nat) -> int
    decreases n,
{
    if n == 0 {
        1
    } else {
        r * ipow(r, (n - 1) as nat)
    }
}

/// The non-negative integer `n`-th root of `p`, when `p` is a perfect power.
pub open spec fn int_root(p: int, n: nat) -> Option<int> {
    if exists|r: int| r >= 0 && #[trigger] ipow(r, n) == p {
        Some(choose|r: int| r >= 0 && #[trigger] ipow(r, n) == p)
    } else {
        None
    }
}

proof fn lemma_ipow_nonneg(r: int, n: nat)
    requires
        r >= 0,
    ensures
        ipow(r, n) >= 0,
        r >= 1 ==> ipow(r, n) >= 1,
    decreases n,
{
    if n > 0 {
        lemma_ipow_nonneg(r, (n - 1) as nat);
        let b = ipow(r, (n - 1) as nat);
        assert(r * b >= 0) by (nonlinear_arith)
            requires
                r >= 0,
                b >= 0,
        ;
        assert(r >= 1 ==> r * b >= 1) by (nonlinear_arith)
            requires
                r >= 0,
                r >= 1 ==> b >= 1,
        ;
    }
}

/// For `n >= 1`, powers grow strictly with the base.
proof fn lemma_ipow_strict(a: int, b: int, n: nat)
    requires
        0 <= a < b,
        n >= 1,
    ensures
        ipow(a, n) < ipow(b, n),
    decreases n,
{
    if n == 1 {
        assert(ipow(a, 1) == a * ipow(a, 0));
        assert(ipow(b, 1) == b * ipow(b, 0));
    } else {
        lemma_ipow_strict(a, b, (n - 1) as nat);
        lemma_ipow_nonneg(a, (n - 1) as nat);
        let x = ipow(a, (n - 1) as nat);
        let y = ipow(b, (n - 1) as nat);
        assert(a * x < b * y) by (nonlinear_arith)
            requires
                0 <= a < b,
                0 <= x < y,
        ;
    }
}

/// For a base of at least one, powers grow with the exponent; a base of at
/// least one raised to `n >= 1` is at least the base.
proof fn lemma_ipow_grows(r: int, k: nat, n: nat)
    requires
        r >= 1,
        k <= n,
    ensures
        ipow(r, k) <= ipow(r, n),
        n >= 1 ==> ipow(r, n) >= r,
    decreases n,
{
    lemma_ipow_nonneg(r, n);
    if n > 0 {
        lemma_ipow_nonneg(r, (n - 1) as nat);
        let b = ipow(r, (n - 1) as nat);
        assert(r * b >= b && r * b >= r) by (nonlinear_arith)
            requires
                r >= 1,
                b >= 1,
        ;
        if k < n {
            lemma_ipow_grows(r, k, (n - 1) as nat);
        }
    }
}

/// `r^n` when it is at most `cap`, else `None`.
fn pow_capped(r: i128, n: u32, cap: i128) -> (v: Option<i128>)
    requires
        r >= 0,
        cap >= 0,
    ensures
        match v {
            Some(x) => x as int == ipow(r as int, n as nat) && x <= cap,
            None => ipow(r as int, n as nat) > cap,
        },
{
    if n == 0 {
        if 1 <= cap {
            return Some(1);
        }
        return None;
    }
    if r <= 1 {
        proof {
            lemma_ipow_nonneg(r as int, n as nat);
            if r == 1 {
                lemma_ipow_grows(1, n as nat, n as nat);
                assert(ipow(1, n as nat) <= 1) by {
                    lemma_ipow_one(n as nat);
                }
            } else {
                assert(ipow(0, n as nat) == 0 * ipow(0, (n - 1) as nat));
            }
        }
        if r <= cap {
            return Some(r);
        }
        return None;
    }
    let mut acc: i128 = 1;
    let mut i: u32 = 0;
    while i < n
        invariant
            r >= 2,
            cap >= 0,
            i <= n,
            acc as int == ipow(r as int, i as nat),
            acc <= cap || i == 0,
            1 <= acc,
        decreases n - i,
    {
        proof {
            assert(ipow(r as int, (i + 1) as nat) == r * ipow(r as int, i as nat));
        }
        match acc.checked_mul(r) {
            Some(x) => {
                proof {
                    assert(x == r * acc && x >= 2) by (nonlinear_arith)
                        requires
                            x == acc * r,
                            acc >= 1,
                            r >= 2,
                    ;
                }
                if x > cap {
                    proof {
                        lemma_ipow_grows(r as int, (i + 1) as nat, n as nat);
                    }
                    return None;
                }
                acc = x;
            },
            None => {
                proof {
                    assert(r * acc > i128::MAX) by (nonlinear_arith)
                        requires
                            acc >= 1,
                            r >= 2,
                            !(i128::MIN <= acc * r <= i128::MAX),
                    ;
                    lemma_ipow_grows(r as int, (i + 1) as nat, n as nat);
                }
                return None;
            },
        }
        i = i + 1;
    }
    Some(acc)
}

proof fn lemma_ipow_one(n: nat)
    ensures
        ipow(1, n) == 1,
    decreases n,
{
    if n > 0 {
        lemma_ipow_one((n - 1) as nat);
    }
}

/// The integer `n`-th root of `p`, as [`int_root`].
fn int_root_of(p: i128, n: u32) -> (r: Option<i128>)
    requires
        p >= 0,
        n >= 1,
    ensures
        match r {
            Some(x) => int_root(p as int, n as nat) == Some(x as int),
            None => int_root(p as int, n as nat) is None,
        },
{
    let mut lo: i128 = 0;
    let mut hi: i128 = p;
    proof {
        assert(ipow(0, n as nat) == 0 * ipow(0, (n - 1) as nat));
        lemma_ipow_grows(p + 1, n as nat, n as nat);
    }
    while lo < hi
        invariant
            0 <= lo <= hi <= p,
            n >= 1,
            ipow(lo as int, n as nat) <= p,
            ipow(hi + 1, n as nat) > p,
        decreases hi - lo,
    {
        let d = hi - lo;
        let mid = lo + d / 2 + d % 2;
        match pow_capped(mid, n, p) {
            Some(_) => {
                lo = mid;
            },
            None => {
                hi = mid - 1;
            },
        }
    }
    let v = pow_capped(lo, n, p);
    match v {
        Some(x) => {
            if x == p {
                proof {
                    assert(ipow(lo as int, n as nat) == p);
                    let c = choose|c: int| c >= 0 && #[trigger] ipow(c, n as nat) == p;
                    if c < lo {
                        lemma_ipow_strict(c, lo as int, n as nat);
                    }
                    if c > lo {
                        lemma_ipow_strict(lo as int, c, n as nat);
                    }
                }
                Some(lo)
            } else {
                proof {
                    assert forall|c: int| c >= 0 implies #[trigger] ipow(c, n as nat) != p by {
                        if c < lo {
                            lemma_ipow_strict(c, lo as int, n as nat);
                        } else if c > lo {
                            if c > lo + 1 {
                                lemma_ipow_strict(lo + 1, c, n as nat);
                            }
                        }
                    }
                }
                None
            }
        },
        None => {
            proof {
                assert(false);
            }
            None
        },
    }
}

fn positive_fn(f: &Vec<char>) -> (b: bool)
    ensures
        b == is_positive_fn(f@),
{
    proof {
        reveal_strlit("exp");
        reveal_strlit("cosh");
        reveal_strlit("sech");
    }
    chars_eq_str(f, "exp") || chars_eq_str(f, "cosh") || chars_eq_str(f, "sech")
}

fn sign_keeping_fn(f: &Vec<char>) -> (b: bool)
    ensures
        b == is_sign_keeping_fn(f@),
{
    proof {
        reveal_strlit("sinh");
        reveal_strlit("tanh");
        reveal_strlit("asinh");
        reveal_strlit("atan");
        reveal_strlit("asin");
        reveal_strlit("atanh");
    }
    chars_eq_str(f, "sinh") || chars_eq_str(f, "tanh") || chars_eq_str(f, "asinh") || chars_eq_str(f, "atan")
        || chars_eq_str(f, "asin") || chars_eq_str(f, "atanh")
}

fn zero_at_zero_fn(f: &Vec<char>) -> (b: bool)
    ensures
        b == is_zero_at_zero_fn(f@),
{
    proof {
        reveal_strlit("sin");
        reveal_strlit("tan");
    }
    sign_keeping_fn(f) || chars_eq_str(f, "sin") || chars_eq_str(f, "tan")
}

fn one_at_zero_fn(f: &Vec<char>) -> (b: bool)
    ensures
        b == is_one_at_zero_fn(f@),
{
    proof {
        reveal_strlit("exp");
        reveal_strlit("cos");
        reveal_strlit("cosh");
        reveal_strlit("sech");
    }
    chars_eq_str(f, "exp") || chars_eq_str(f, "cos") || chars_eq_str(f, "cosh") || chars_eq_str(f, "sech")
}

fn sign_product(x: i8, y: i8) -> (r: i8)
    requires
        -1 <= x <= 1,
        -1 <= y <= 1,
    ensures
        r == x * y,
        -1 <= r <= 1,
{
    let r: i8 = if x == 0 {
        0
    } else if x == 1 {
        y
    } else {
        -y
    };
    assert(r == x * y) by (nonlinear_arith)
        requires
            -1 <= x <= 1,
            x == 0 ==> r == 0,
            x == 1 ==> r == y,
            x == -1 ==> r == -y,
    ;
    r
}

fn is_abs(f: &Vec<char>) -> (b: bool)
    ensures
        b == (f@ == "abs"@),
{
    chars_eq_str(f, "abs")
}

/// The sign of a decimal literal, as [`literal_sign`].
fn literal_sign_of(t: &String) -> (r: Option<i8>)
    ensures
        match r {
            Some(s) => literal_sign(t@) == Some(s as int) && 0 <= s <= 1,
            None => literal_sign(t@) is None,
        },
{
    let s = to_chars(t.as_str());
    let ghost sv = s@;
    proof {
        lemma_exp_mark(sv);
    }
    let mut i: usize = 0;
    let mut digit = false;
    let mut nonzero = false;
    while i < s.len() && s[i] != 'e' && s[i] != 'E'
        invariant
            sv == s@,
            sv == t@,
            i <= sv.len(),
            forall|j: int| 0 <= j < i ==> !(#[trigger] sv[j] == 'e' || sv[j] == 'E'),
            forall|j: int| 0 <= j < i ==> is_mantissa_char(#[trigger] sv[j]),
            digit == exists|j: int| 0 <= j < i && '0' <= #[trigger] sv[j] <= '9',
            nonzero == exists|j: int| 0 <= j < i && '1' <= #[trigger] sv[j] <= '9',
            match exp_mark(sv) {
                Some(k) => 0 <= k < sv.len() && (sv[k] == 'e' || sv[k] == 'E') && forall|j: int|
                    0 <= j < k ==> !(#[trigger] sv[j] == 'e' || sv[j] == 'E'),
                None => forall|j: int| 0 <= j < sv.len() ==> !(#[trigger] sv[j] == 'e' || sv[j] == 'E'),
            },
        decreases sv.len() - i,
    {
        let c = s[i];
        if !(('0' <= c && c <= '9') || c == '.') {
            proof {
                let m = mantissa(sv);
                match exp_mark(sv) {
                    Some(k) => {
                        assert(k > i);
                    },
                    None => {},
                }
                assert(m[i as int] == c);
                assert(!is_mantissa_char(m[i as int]));
            }
            return None;
        }
        if '0' <= c && c <= '9' {
            digit = true;
        }
        if '1' <= c && c <= '9' {
            nonzero = true;
        }
        i = i + 1;
    }
    proof {
        let m = mantissa(sv);
        match exp_mark(sv) {
            Some(k) => {
                assert(k == i);
            },
            None => {
                assert(i == sv.len());
            },
        }
        assert(m =~= sv.take(i as int));
        assert forall|j: int| 0 <= j < m.len() implies is_mantissa_char(#[trigger] m[j]) by {
            assert(m[j] == sv[j]);
        }
        if digit {
            let j = choose|j: int| 0 <= j < i && '0' <= #[trigger] sv[j] <= '9';
            assert(m[j] == sv[j]);
        }
        if exists|j: int| 0 <= j < m.len() && '0' <= #[trigger] m[j] <= '9' {
            let j = choose|j: int| 0 <= j < m.len() && '0' <= #[trigger] m[j] <= '9';
            assert(m[j] == sv[j]);
        }
        if nonzero {
            let j = choose|j: int| 0 <= j < i && '1' <= #[trigger] sv[j] <= '9';
            assert(m[j] == sv[j]);
        }
        if exists|j: int| 0 <= j < m.len() && '1' <= #[trigger] m[j] <= '9' {
            let j = choose|j: int| 0 <= j < m.len() && '1' <= #[trigger] m[j] <= '9';
            assert(m[j] == sv[j]);
        }
    }
    if !digit {
        None
    } else if nonzero {
        Some(1)
    } else {
        Some(0)
    }
}

/// The value of an interval bound, as [`bound_value`].
fn bound_exact(t: &String) -> (r: Option<(i128, i128)>)
    ensures
        match r {
            Some(b) => bound_value(t@) == Some((b.0 as int, b.1 as int)) && b.1 > 0,
            None => bound_value(t@) is None,
        },
{
    let s = to_chars(t.as_str());
    if s.len() > 0 && (s[0] == '-' || s[0] == '+') {
        let tail = slice_vec(&s, 1, s.len());
        let rest = from_chars(tail.as_slice());
        assert(rest@ =~= t@.drop_first());
        let v = exact_literal(&rest)?;
        if s[0] == '-' {
            if v.0 == i128::MIN {
                return None;
            }
            Some((-v.0, v.1))
        } else {
            Some(v)
        }
    } else {
        exact_literal(t)
    }
}

/// The sign of `x - b` for the bound `b` written `t`, as [`bound_relation`].
fn compare_bound(x: (i128, i128), t: &String) -> (r: Option<i8>)
    requires
        x.1 > 0,
    ensures
        match r {
            Some(c) => bound_relation((x.0 as int, x.1 as int), t@) == Some(c as int),
            None => bound_relation((x.0 as int, x.1 as int), t@) is None,
        },
{
    let b = bound_exact(t)?;
    let l = x.0.checked_mul(b.1)?;
    let r = b.0.checked_mul(x.1)?;
    Some(if l > r {
        1
    } else if l < r {
        -1
    } else {
        0
    })
}

impl Interval {
    /// Whether the exact value of `m` lies outside the interval, as
    /// [`outside_interval`].
    pub fn excludes(&self, m: &Magnitude) -> (b: bool)
        ensures
            b == outside_interval(mag_view(*m), interval_view(*self)),
    {
        let x = match m.exact() {
            Some(x) => x,
            None => return false,
        };
        let low = match compare_bound(x, &self.min) {
            Some(c) => c < 0 || (self.min_open && c == 0),
            None => false,
        };
        let high = match compare_bound(x, &self.max) {
            Some(c) => c > 0 || (self.max_open && c == 0),
            None => false,
        };
        low || high
    }
}

impl Magnitude {
    /// The exact value of the term, as [`exact_value`].
    pub fn exact(&self) -> (r: Option<(i128, i128)>)
        ensures
            match r {
                Some(x) => exact_value(mag_view(*self)) == Some((x.0 as int, x.1 as int)) && x.1 > 0,
                None => exact_value(mag_view(*self)) is None,
            },
        decreases *self,
    {
        match self {
            Magnitude::One => Some((1, 1)),
            Magnitude::Decimal(t) => exact_literal(t),
            Magnitude::Integer(v) => Some((*v as i128, 1)),
            Magnitude::Product(a, b) => {
                let x = a.exact()?;
                let y = b.exact()?;
                let n = x.0.checked_mul(y.0)?;
                let d = x.1.checked_mul(y.1)?;
                assert(d > 0) by (nonlinear_arith)
                    requires
                        d == x.1 * y.1,
                        x.1 > 0,
                        y.1 > 0,
                ;
                Some((n, d))
            },
            Magnitude::Quotient(a, b) => {
                let x = a.exact()?;
                let y = b.exact()?;
                if y.0 == 0 {
                    return None;
                }
                let n = x.0.checked_mul(y.1)?;
                let d = x.1.checked_mul(y.0)?;
                assert(d != 0) by (nonlinear_arith)
                    requires
                        d == x.1 * y.0,
                        x.1 > 0,
                        y.0 != 0,
                ;
                if d > 0 {
                    Some((n, d))
                } else {
                    if n == i128::MIN || d == i128::MIN {
                        return None;
                    }
                    Some((-n, -d))
                }
            },
            Magnitude::Sum(a, b) => {
                let x = a.exact()?;
                let y = b.exact()?;
                let p = x.0.checked_mul(y.1)?;
                let q = y.0.checked_mul(x.1)?;
                let n = p.checked_add(q)?;
                let d = x.1.checked_mul(y.1)?;
                assert(d > 0) by (nonlinear_arith)
                    requires
                        d == x.1 * y.1,
                        x.1 > 0,
                        y.1 > 0,
                ;
                Some((n, d))
            },
            Magnitude::Negation(a) => {
                let x = a.exact()?;
                if x.0 == i128::MIN {
                    return None;
                }
                Some((-x.0, x.1))
            },
            Magnitude::Reciprocal(a) => {
                let x = a.exact()?;
                if x.0 == 0 {
                    None
                } else if x.0 > 0 {
                    Some((x.1, x.0))
                } else {
                    if x.0 == i128::MIN || x.1 == i128::MIN {
                        return None;
                    }
                    Some((-x.1, -x.0))
                }
            },
            Magnitude::Root(a, n) => {
                let x = a.exact()?;
                if *n < 1 || x.0 < 0 {
                    return None;
                }
                let r = int_root_of(x.0, *n as u32)?;
                let q = int_root_of(x.1, *n as u32)?;
                proof {
                    let c = choose|c: int| c >= 0 && #[trigger] ipow(c, *n as nat) == x.1;
                    if c == 0 {
                        assert(ipow(0, *n as nat) == 0 * ipow(0, (*n - 1) as nat));
                    }
                }
                Some((r, q))
            },
            Magnitude::Function(f, a) => {
                let x = a.exact()?;
                let fc = to_chars(f.as_str());
                if x.0 == 0 && zero_at_zero_fn(&fc) {
                    Some((0, 1))
                } else if x.0 == 0 && one_at_zero_fn(&fc) {
                    Some((1, 1))
                } else if x.0 == x.1 && logarithm(&fc) {
                    Some((0, 1))
                } else if is_abs(&fc) {
                    if x.0 == i128::MIN {
                        None
                    } else if x.0 < 0 {
                        Some((-x.0, x.1))
                    } else {
                        Some(x)
                    }
                } else {
                    None
                }
            },
            _ => None,
        }
    }

    /// The sign of the term's value, as [`sign_of`].
    pub fn sign(&self) -> (r: Option<i8>)
        ensures
            match r {
                Some(s) => sign_of(mag_view(*self)) == Some(s as int) && -1 <= s <= 1,
                None => sign_of(mag_view(*self)) is None,
            },
        decreases *self,
    {
        if let Some(x) = self.exact() {
            return Some(if x.0 > 0 {
                1
            } else if x.0 < 0 {
                -1
            } else {
                0
            });
        }
        match self {
            Magnitude::Decimal(t) => literal_sign_of(t),
            Magnitude::Product(a, b) => {
                let x = a.sign()?;
                let y = b.sign()?;
                Some(sign_product(x, y))
            },
            Magnitude::Quotient(a, b) => {
                let x = a.sign()?;
                let y = b.sign()?;
                if y == 0 {
                    None
                } else {
                    Some(sign_product(x, y))
                }
            },
            Magnitude::Sum(a, b) => {
                let x = a.sign()?;
                let y = b.sign()?;
                if x == y || y == 0 {
                    Some(x)
                } else if x == 0 {
                    Some(y)
                } else {
                    None
                }
            },
            Magnitude::Negation(a) => {
                let x = a.sign()?;
                Some(-x)
            },
            Magnitude::Reciprocal(a) => {
                let x = a.sign()?;
                if x == 0 {
                    None
                } else {
                    Some(x)
                }
            },
            Magnitude::IntPower(a, p) => {
                if *p == 0 {
                    return Some(1);
                }
                if *p < 0 {
                    return None;
                }
                let x = a.sign()?;
                if x == 0 {
                    Some(0)
                } else if *p % 2 == 0 {
                    Some(1)
                } else {
                    Some(x)
                }
            },
            Magnitude::Root(a, n) => {
                let x = a.sign()?;
                if x >= 0 && *n >= 1 {
                    Some(x)
                } else {
                    None
                }
            },
            Magnitude::RealPower(a, b) => {
                let x = a.sign()?;
                if x == 1 {
                    return Some(1);
                }
                let e = b.exact()?;
                if e.1 == 1 && e.0 >= 0 {
                    if e.0 == 0 {
                        Some(1)
                    } else if x == 0 {
                        Some(0)
                    } else if e.0 % 2 == 0 {
                        Some(1)
                    } else {
                        Some(x)
                    }
                } else {
                    None
                }
            },
            Magnitude::Function(f, a) => {
                let fc = to_chars(f.as_str());
                if positive_fn(&fc) {
                    Some(1)
                } else if logarithm(&fc) {
                    let x = a.exact()?;
                    if x.0 > 0 {
                        Some(if x.0 > x.1 {
                            1
                        } else if x.0 < x.1 {
                            -1
                        } else {
                            0
                        })
                    } else {
                        None
                    }
                } else {
                    let x = a.sign()?;
                    if sign_keeping_fn(&fc) {
                        Some(x)
                    } else if is_abs(&fc) {
                        Some(sign_product(x, x))
                    } else {
                        None
                    }
                }
            },
            Magnitude::Guarded(v, c, i) => v.sign(),
            _ => None,
        }
    }

    /// Whether the term is known to be negative, as [`known_negative`].
    pub fn is_known_negative(&self) -> (b: bool)
        ensures
            b == known_negative(mag_view(*self)),
    {
        match self.sign() {
            Some(s) => s == -1,
            None => false,
        }
    }

    /// Whether the term is known to be zero, as [`known_zero`].
    pub fn is_known_zero(&self) -> (b: bool)
        ensures
            b == known_zero(mag_view(*self)),
    {
        match self.sign() {
            Some(s) => s == 0,
            None => false,
        }
    }

    /// A copy of the term.
    pub fn duplicate(&self) -> (r: Magnitude)
        ensures
            r == *self,
        decreases *self,
    {
        match self {
            Magnitude::One => Magnitude::One,
            Magnitude::Decimal(t) => Magnitude::Decimal(t.clone()),
            Magnitude::Integer(v) => Magnitude::Integer(*v),
            Magnitude::Product(a, b) => Magnitude::Product(Box::new(a.duplicate()), Box::new(b.duplicate())),
            Magnitude::Quotient(a, b) => Magnitude::Quotient(Box::new(a.duplicate()), Box::new(b.duplicate())),
            Magnitude::Sum(a, b) => Magnitude::Sum(Box::new(a.duplicate()), Box::new(b.duplicate())),
            Magnitude::Negation(a) => Magnitude::Negation(Box::new(a.duplicate())),
            Magnitude::Reciprocal(a) => Magnitude::Reciprocal(Box::new(a.duplicate())),
            Magnitude::IntPower(a, n) => Magnitude::IntPower(Box::new(a.duplicate()), *n),
            Magnitude::Root(a, n) => Magnitude::Root(Box::new(a.duplicate()), *n),
            Magnitude::RealPower(a, b) => Magnitude::RealPower(Box::new(a.duplicate()), Box::new(b.duplicate())),
            Magnitude::Function(f, a) => Magnitude::Function(f.clone(), Box::new(a.duplicate())),
            Magnitude::TableLookup(f, a) => Magnitude::TableLookup(f.clone(), Box::new(a.duplicate())),
            Magnitude::TableInverse(f, a) => Magnitude::TableInverse(f.clone(), Box::new(a.duplicate())),
            Magnitude::Guarded(v, c, i) => Magnitude::Guarded(
                Box::new(v.duplicate()),
                Box::new(c.duplicate()),
                Interval {
                    min: i.min.clone(),
                    max: i.max.clone(),
                    min_open: i.min_open,
                    max_open: i.max_open,
                },
            ),
        }
    }
}

impl Clone for Magnitude {
    /// A copy of the term (see [`Magnitude::duplicate`]).
    fn clone(&self) -> (r: Self)
        ensures
            r == *self,
    {
        self.duplicate()
    }
}

fn gcd_u128(a: u128, b: u128) -> (g: u128)
    ensures
        g as nat == gcd(a as nat, b as nat),
{
    let mut x = a;
    let mut y = b;
    while y != 0
        invariant
            gcd(x as nat, y as nat) == gcd(a as nat, b as nat),
        decreases y,
    {
        let r = x % y;
        x = y;
        y = r;
    }
    x
}

/// The exponent `p/q` in lowest terms of `n/d` (`d > 0`), as
/// [`small_rational`].
pub fn rational_exponent(n: i128, d: i128) -> (r: Option<(i32, i32)>)
    requires
        d > 0,
    ensures
        match r {
            Some(x) => small_rational(n as int, d as int) == Some((x.0 as int, x.1 as int)) && x.1 >= 1,
            None => small_rational(n as int, d as int) is None,
        },
{
    let an: u128 = if n < 0 {
        if n == i128::MIN {
            (i128::MAX as u128) + 1
        } else {
            (-n) as u128
        }
    } else {
        n as u128
    };
    let g = gcd_u128(an, d as u128);
    if g == 0 {
        return None;
    }
    proof {
        assert(an as int == abs_int(n as int));
        lemma_gcd_divides(an as nat, d as nat);
        lemma_gcd_bounded(an as nat, d as nat);
        crate::dims::lemma_neg_divisible(an as int, g as int);
        vstd::arithmetic::div_mod::lemma_div_is_ordered_by_denominator(an as int, 1, g as int);
        vstd::arithmetic::div_mod::lemma_div_is_ordered_by_denominator(d as int, 1, g as int);
    }
    let pa: u128 = an / g;
    let q: u128 = (d as u128) / g;
    if q < 100 && pa <= i32::MAX as u128 + 1 {
        let p: i64 = if n < 0 { 0 - (pa as i64) } else { pa as i64 };
        proof {
            if n < 0 {
                assert(n as int == -(an as int));
            }
        }
        if p >= i32::MIN as i64 && p <= i32::MAX as i64 {
            proof {
                vstd::arithmetic::div_mod::lemma_div_is_ordered(g as int, d as int, g as int);
                vstd::arithmetic::div_mod::lemma_div_by_self(g as int);
            }
            return Some((p as i32, q as i32));
        }
        None
    } else {
        proof {
            if n < 0 {
                assert(n as int == -(an as int));
            }
        }
        None
    }
}

proof fn lemma_gcd_bounded(a: nat, b: nat)
    ensures
        b > 0 ==> gcd(a, b) <= b,
    decreases b,
{
    if b > 0 {
        lemma_gcd_bounded(b, a % b);
        lemma_gcd_divides(b, a % b);
        let g = gcd(b, a % b);
        if g > b {
            // b % g == b when 0 < b < g, contradicting b % g == 0
            vstd::arithmetic::div_mod::lemma_small_mod(b, g);
        }
    }
}

proof fn lemma_gcd_divides(a: nat, b: nat)
    ensures
        (a > 0 || b > 0) ==> gcd(a, b) > 0,
        gcd(a, b) > 0 ==> a % gcd(a, b) == 0 && b % gcd(a, b) == 0,
    decreases b,
{
    if b == 0 {
        if a > 0 {
            vstd::arithmetic::div_mod::lemma_mod_self_0(a as int);
            assert(0nat % a == 0) by (nonlinear_arith) requires a > 0;
        }
    } else {
        lemma_gcd_divides(b, a % b);
        let g = gcd(b, a % b) as int;
        let r = (a % b) as int;
        vstd::arithmetic::div_mod::lemma_fundamental_div_mod(a as int, b as int);
        vstd::arithmetic::div_mod::lemma_fundamental_div_mod(b as int, g);
        vstd::arithmetic::div_mod::lemma_fundamental_div_mod(r, g);
        let qa = (a as int) / (b as int);
        let s = (b as int) / g;
        let t = r / g;
        assert(a as int == g * (s * qa + t)) by (nonlinear_arith)
            requires
                a as int == b as int * qa + r,
                b as int == g * s + 0,
                r == g * t + 0,
        ;
        vstd::arithmetic::div_mod::lemma_mod_multiples_basic(s * qa + t, g);
        assert((s * qa + t) * g == g * (s * qa + t)) by (nonlinear_arith);
    }
}

} // verus!
