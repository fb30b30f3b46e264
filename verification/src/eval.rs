//! Evaluation of unit expressions against a database.
//!
//! The meaning of an expression is given by the spec functions below, from
//! [`eval_text`] down; the executable evaluator is proved to compute it.
use vstd::prelude::*;

use crate::database::{first_prefix, prefix_applies, prefix_def, Database, FunctionDef, TableDef, UnitEntry};
use crate::dims::{divisible_by, exponent_of, fits_i32, inverse_dims, power_dims, product_dims, quotient_dims, root_dims};
use crate::error::ErrorCode;
use crate::dims::Dimensions;
use crate::magnitude::{
    abs_int, exact_value, interval_view, known_negative, outside_interval, known_zero, mag_view, rational_exponent, small_rational,
    Interval, MagView, Magnitude,
};
use crate::unit::Unit;
use crate::syntax::{expr_size, lex, list_size, parse_token_list, parse_tokens, token_text, tokenize, Expr, ExprList, Kind, Token};
use crate::text::{chars_eq_str, from_chars, slice_vec, to_chars, utf8_len, utf8_length};

verus! {

/// A value: dimensions and the factor's term.
pub type Val = (Map<Seq<char>, int>, MagView);

/// A checked interval: the term to check and the interval's bounds.
pub type Guard = (MagView, (Seq<char>, Seq<char>, bool, bool));

/// How many definitions and function bodies may be evaluated one inside
/// another.
pub const MAX_DEPTH: usize = 256;

/// The dimensionless value one.
pub open spec fn one_val() -> Val {
    (Map::empty(), MagView::One)
}

/// The value bound to `name` by the innermost binding in `env`.
pub open spec fn env_get(env: Seq<(Seq<char>, Val)>, name: Seq<char>) -> Option<Val>
    decreases env.len(),
{
    if env.len() == 0 {
        None
    } else if env.last().0 == name {
        Some(env.last().1)
    } else {
        env_get(env.drop_last(), name)
    }
}

/// The product of two values; `BadNum` when an exponent leaves `i32`.
pub open spec fn mul_vals(a: Val, b: Val) -> Result<Val, ErrorCode> {
    if forall|k: Seq<char>| fits_i32(#[trigger] exponent_of(a.0, k) + exponent_of(b.0, k)) {
        Ok((product_dims(a.0, b.0), MagView::Product(Box::new(a.1), Box::new(b.1))))
    } else {
        Err(ErrorCode::BadNum)
    }
}

/// The quotient of two values; `BadNum` when an exponent leaves `i32`.
pub open spec fn div_vals(a: Val, b: Val) -> Result<Val, ErrorCode> {
    if forall|k: Seq<char>| fits_i32(#[trigger] exponent_of(a.0, k) - exponent_of(b.0, k)) {
        Ok((quotient_dims(a.0, b.0), MagView::Quotient(Box::new(a.1), Box::new(b.1))))
    } else {
        Err(ErrorCode::BadNum)
    }
}

/// The `n`-th root of a value: `NotRoot` when the factor is negative by
/// exact arithmetic (see [`known_negative`]) or an exponent is not a
/// multiple of `n`; where only the floating-point value tells the sign, the
/// root term carries the check to evaluation.
pub open spec fn root_val(a: Val, n: int) -> Result<Val, ErrorCode> {
    if known_negative(a.1) || !divisible_by(a.0, n) {
        Err(ErrorCode::NotRoot)
    } else {
        Ok((root_dims(a.0, n), MagView::Root(Box::new(a.1), n)))
    }
}

/// `r` raised to the integer power `p`: the `|p|`-th power, then the
/// reciprocal when `p < 0`; `BadNum` when an exponent leaves `i32`.
pub open spec fn int_power_val(r: Val, p: int) -> Result<Val, ErrorCode> {
    let ap = if p < 0 {
        -p
    } else {
        p
    };
    if !fits_i32(ap) || !(forall|k: Seq<char>| #[trigger] r.0.contains_key(k) ==> fits_i32(r.0[k] * ap)) {
        Err(ErrorCode::BadNum)
    } else if p < 0 {
        Ok((inverse_dims(power_dims(r.0, ap)), MagView::Reciprocal(Box::new(MagView::IntPower(Box::new(r.1), ap)))))
    } else {
        Ok((power_dims(r.0, ap), MagView::IntPower(Box::new(r.1), ap)))
    }
}

/// `base` raised to the rational power `p/q`: the `q`-th root (when
/// `q != 1`), then the integer power `p`.
pub open spec fn rational_power_val(base: Val, p: int, q: int) -> Result<Val, ErrorCode> {
    if q != 1 {
        match root_val(base, q) {
            Err(c) => Err(c),
            Ok(r) => int_power_val(r, p),
        }
    } else {
        int_power_val(base, p)
    }
}

/// `base ^ exp`: the exponent must be dimensionless; a dimensionless base
/// takes any exponent, a base with dimensions only an exponent known to be
/// a rational `p/q` in lowest terms with `q < 100`.
pub open spec fn apply_power(base: Val, exp: Val) -> Result<Val, ErrorCode> {
    if exp.0 != Map::<Seq<char>, int>::empty() {
        Err(ErrorCode::Parse)
    } else if base.0 == Map::<Seq<char>, int>::empty() {
        Ok((Map::empty(), MagView::RealPower(Box::new(base.1), Box::new(exp.1))))
    } else {
        match exact_value(exp.1) {
            None => Err(ErrorCode::IrrationalExponent),
            Some(x) => match small_rational(x.0, x.1) {
                None => Err(ErrorCode::IrrationalExponent),
                Some(y) => rational_power_val(base, y.0, y.1),
            },
        }
    }
}

/// The text of the token at index `i`, when it lies within `s`.
pub open spec fn leaf_text(s: Seq<char>, t: Seq<Token>, i: int) -> Option<Seq<char>> {
    if 0 <= i < t.len() && t[i].start <= t[i].end <= s.len() {
        Some(token_text(s, t[i]))
    } else {
        None
    }
}

/// The value of a hexadecimal digit.
pub open spec fn hex_digit_value(c: char) -> int {
    if '0' <= c <= '9' {
        c as int - '0' as int
    } else if 'a' <= c <= 'f' {
        c as int - 'a' as int + 10
    } else {
        c as int - 'A' as int + 10
    }
}

/// Whether every character is a hexadecimal digit.
pub open spec fn all_hex(s: Seq<char>) -> bool {
    forall|i: int| 0 <= i < s.len() ==> #[trigger] crate::syntax::is_hex_digit(s[i])
}

/// The value of a string of hexadecimal digits.
pub open spec fn hex_value(s: Seq<char>) -> int
    decreases s.len(),
{
    if s.len() == 0 {
        0
    } else {
        hex_value(s.drop_last()) * 16 + hex_digit_value(s.last())
    }
}

/// The value of a number token: a decimal literal by its text, a
/// hexadecimal one by its value (`Parse` beyond `i64`).
pub open spec fn number_val(kind: Kind, text: Seq<char>) -> Result<Val, ErrorCode> {
    if kind == Kind::Dec {
        Ok((Map::empty(), MagView::Decimal(text)))
    } else if kind == Kind::Hex {
        if all_hex(text) && hex_value(text) <= i64::MAX {
            Ok((Map::empty(), MagView::Integer(hex_value(text))))
        } else {
            Err(ErrorCode::Parse)
        }
    } else {
        Err(ErrorCode::Parse)
    }
}

/// How a built-in function treats its argument.
pub enum Builtin {
    /// `sqrt`, `cbrt`, `cuberoot`: the root of the given order.
    Root(i32),
    /// `abs`: any dimensions, kept.
    Abs,
    /// A function of a dimensionless number.
    Plain,
    /// A trigonometric function: a dimensionless number or an angle.
    AngleIn,
    /// An inverse trigonometric function: a dimensionless number in, an
    /// angle out.
    AngleOut,
}

/// Whether every character is an ASCII digit.
pub open spec fn all_ascii_digits(s: Seq<char>) -> bool {
    forall|i: int| 0 <= i < s.len() ==> '0' <= #[trigger] s[i] <= '9'
}

/// The value of a string of decimal digits.
pub open spec fn dec_value(s: Seq<char>) -> int
    decreases s.len(),
{
    if s.len() == 0 {
        0
    } else {
        dec_value(s.drop_last()) * 10 + (s.last() as int - '0' as int)
    }
}

/// The built-in functions of a dimensionless number.
pub open spec fn is_plain_builtin(n: Seq<char>) -> bool {
    n == "exp"@ || n == "ln"@ || n == "log"@ || n == "log10"@ || n == "log2"@ || n == "round"@
        || n == "floor"@ || n == "ceil"@ || n == "asinh"@ || n == "acosh"@ || n == "atanh"@ || n
        == "acsch"@ || n == "asech"@ || n == "acoth"@ || n == "sinh"@ || n == "cosh"@ || n
        == "tanh"@ || n == "csch"@ || n == "sech"@ || n == "coth"@ || n == "erf"@ || n == "erfc"@
        || n == "lnGamma"@ || n == "Gamma"@ || n == "factorial"@
}

/// The trigonometric built-in functions.
pub open spec fn is_angle_in_builtin(n: Seq<char>) -> bool {
    n == "secant"@ || n == "sin"@ || n == "cos"@ || n == "tan"@ || n == "csc"@ || n == "cot"@
}

/// The inverse trigonometric built-in functions.
pub open spec fn is_angle_out_builtin(n: Seq<char>) -> bool {
    n == "asecant"@ || n == "acos"@ || n == "asin"@ || n == "atan"@ || n == "acsc"@ || n == "acot"@
}

/// `logN` for a base `N > 1` in decimal digits.
pub open spec fn is_log_base(n: Seq<char>) -> bool {
    n.len() > 3 && n[0] == 'l' && n[1] == 'o' && n[2] == 'g' && all_ascii_digits(n.skip(3))
        && dec_value(n.skip(3)) > 1
}

/// The logarithms: defined for positive arguments only.
pub open spec fn is_logarithm(n: Seq<char>) -> bool {
    n == "ln"@ || n == "log"@ || n == "log10"@ || n == "log2"@ || is_log_base(n)
}

/// The built-in function called `name`, if any.
pub open spec fn builtin(name: Seq<char>) -> Option<Builtin> {
    if name == "sqrt"@ {
        Some(Builtin::Root(2))
    } else if name == "cbrt"@ || name == "cuberoot"@ {
        Some(Builtin::Root(3))
    } else if name == "abs"@ {
        Some(Builtin::Abs)
    } else if is_plain_builtin(name) {
        Some(Builtin::Plain)
    } else if is_angle_in_builtin(name) {
        Some(Builtin::AngleIn)
    } else if is_angle_out_builtin(name) {
        Some(Builtin::AngleOut)
    } else if is_log_base(name) {
        Some(Builtin::Plain)
    } else {
        None
    }
}

/// The singular forms tried for a name that is not a unit: for names longer
/// than three bytes, `-ies` to `-y`, `-es` to `-e` then without, `-s`
/// dropped.
pub open spec fn plural_candidates(name: Seq<char>) -> Seq<Seq<char>> {
    let n = name.len();
    if utf8_len(name) <= 3 {
        Seq::empty()
    } else if n >= 3 && name[n - 3] == 'i' && name[n - 2] == 'e' && name[n - 1] == 's' {
        seq![name.take(n - 3).push('y')]
    } else if n >= 2 && name[n - 2] == 'e' && name[n - 1] == 's' {
        seq![name.take(n - 2).push('e'), name.take(n - 2)]
    } else if n >= 1 && name[n - 1] == 's' {
        seq![name.take(n - 1)]
    } else {
        Seq::empty()
    }
}

/// The first candidate that is a unit.
pub open spec fn first_unit(units: Map<Seq<char>, UnitEntry>, c: Seq<Seq<char>>) -> Option<
    Seq<char>,
>
    decreases c.len(),
{
    if c.len() == 0 {
        None
    } else if units.contains_key(c[0]) {
        Some(c[0])
    } else {
        first_unit(units, c.drop_first())
    }
}

/// The parameter `i`'s optional entry of a per-parameter list.
pub open spec fn opt_text_at(v: Seq<Option<String>>, i: int) -> Option<Seq<char>> {
    if 0 <= i < v.len() {
        match v[i] {
            Some(s) => Some(s@),
            None => None,
        }
    } else {
        None
    }
}

/// The parameter `i`'s optional interval.
pub open spec fn interval_at(v: Seq<Option<crate::magnitude::Interval>>, i: int) -> Option<
    (Seq<char>, Seq<char>, bool, bool),
> {
    if 0 <= i < v.len() {
        match v[i] {
            Some(iv) => Some(interval_view(iv)),
            None => None,
        }
    } else {
        None
    }
}

/// The optional text of an optional string.
pub open spec fn opt_text(o: Option<String>) -> Option<Seq<char>> {
    match o {
        Some(s) => Some(s@),
        None => None,
    }
}

/// The optional interval view of an optional interval.
pub open spec fn opt_interval(o: Option<crate::magnitude::Interval>) -> Option<
    (Seq<char>, Seq<char>, bool, bool),
> {
    match o {
        Some(iv) => Some(interval_view(iv)),
        None => None,
    }
}

/// `env` extended by binding each parameter to its argument, in order.
pub open spec fn bind_params(env: Seq<(Seq<char>, Val)>, params: Seq<String>, args: Seq<Val>) -> Seq<
    (Seq<char>, Val),
>
    decreases params.len(),
{
    if params.len() == 0 || args.len() == 0 {
        env
    } else {
        bind_params(env.push((params[0]@, args[0])), params.drop_first(), args.drop_first())
    }
}

/// `v` with its factor wrapped in each of the guards, in order.
pub open spec fn apply_guards(v: Val, g: Seq<Option<Guard>>) -> Val
    decreases g.len(),
{
    if g.len() == 0 {
        v
    } else {
        let w = match g[0] {
            Some((c, iv)) => (v.0, MagView::Guarded(Box::new(v.1), Box::new(c), iv)),
            None => v,
        };
        apply_guards(w, g.drop_first())
    }
}

/// The value of the expression text `text`.
pub open spec fn eval_text(
    db: Database,
    env: Seq<(Seq<char>, Val)>,
    res: Seq<Seq<char>>,
    fuel: nat,
    text: Seq<char>,
) -> Result<Val, ErrorCode>
    decreases fuel, 0nat, 0nat,
{
    if fuel == 0 {
        Err(ErrorCode::Parse)
    } else {
        let t = lex(text);
        match parse_tokens(text, t) {
            None => Err(ErrorCode::Parse),
            Some(e) => eval_tree(db, env, res, (fuel - 1) as nat, text, t, e),
        }
    }
}

/// The unit `radian`, or one when it does not evaluate.
pub open spec fn radian_val(db: Database, env: Seq<(Seq<char>, Val)>, res: Seq<Seq<char>>, fuel: nat) -> Val
    decreases fuel, 1nat, 0nat,
{
    match eval_text(db, env, res, fuel, "radian"@) {
        Ok(v) => v,
        Err(_) => one_val(),
    }
}

/// Checks an argument against a unit it must conform to and an interval
/// its value (divided by the unit) must lie in: `NotInDomain` at once when
/// the exact value lies outside, else the guard to keep, if any, whose
/// check evaluation makes.
pub open spec fn validate_arg(
    db: Database,
    env: Seq<(Seq<char>, Val)>,
    res: Seq<Seq<char>>,
    fuel: nat,
    arg: Val,
    unit: Option<Seq<char>>,
    dom: Option<(Seq<char>, Seq<char>, bool, bool)>,
) -> Result<Option<Guard>, ErrorCode>
    decreases fuel, 1nat, 0nat,
{
    let value: Result<MagView, ErrorCode> = match unit {
        Some(u) => match eval_text(db, env, res, fuel, u) {
            Err(c) => Err(c),
            Ok(uv) => if arg.0 != uv.0 {
                Err(ErrorCode::BadFuncArg)
            } else {
                Ok(MagView::Quotient(Box::new(arg.1), Box::new(uv.1)))
            },
        },
        None => Ok(arg.1),
    };
    match value {
        Err(c) => Err(c),
        Ok(m) => match dom {
            None => Ok(None),
            Some(iv) => if outside_interval(m, iv) {
                Err(ErrorCode::NotInDomain)
            } else {
                Ok(Some((m, iv)))
            },
        },
    }
}

/// Validates arguments `i..` of a call of `f`.
pub open spec fn check_args(
    db: Database,
    env: Seq<(Seq<char>, Val)>,
    res: Seq<Seq<char>>,
    fuel: nat,
    f: FunctionDef,
    args: Seq<Val>,
    i: int,
) -> Result<Seq<Option<Guard>>, ErrorCode>
    decreases fuel, 2nat, (args.len() - i) as nat,
{
    if i < 0 || i >= args.len() {
        Ok(Seq::empty())
    } else {
        match validate_arg(db, env, res, fuel, args[i], opt_text_at(f.units@, i), interval_at(f.domain@, i)) {
            Err(c) => Err(c),
            Ok(g) => match check_args(db, env, res, fuel, f, args, i + 1) {
                Err(c) => Err(c),
                Ok(gs) => Ok(seq![g] + gs),
            },
        }
    }
}

/// A call of the user function `f` on evaluated arguments.
pub open spec fn call_user(
    db: Database,
    env: Seq<(Seq<char>, Val)>,
    res: Seq<Seq<char>>,
    fuel: nat,
    f: FunctionDef,
    args: Seq<Val>,
) -> Result<Val, ErrorCode>
    decreases fuel, 3nat, 0nat,
{
    if args.len() != f.params@.len() {
        Err(ErrorCode::Parse)
    } else if f.params@.len() == 0 {
        eval_text(db, env, res, fuel, f.forward@)
    } else {
        let guards = if f.noerror {
            Ok(Seq::empty())
        } else {
            check_args(db, env, res, fuel, f, args, 0)
        };
        match guards {
            Err(c) => Err(c),
            Ok(g) => match eval_text(db, bind_params(env, f.params@, args), res, fuel, f.forward@) {
                Err(c) => Err(c),
                Ok(v) => Ok(apply_guards(v, g)),
            },
        }
    }
}

/// `~name(arg)`: the inverse of function `name`, whose own name is the
/// variable of its inverse formula.
pub open spec fn call_inverse(
    db: Database,
    env: Seq<(Seq<char>, Val)>,
    res: Seq<Seq<char>>,
    fuel: nat,
    name: Seq<char>,
    arg: Val,
) -> Result<Val, ErrorCode>
    decreases fuel, 3nat, 0nat,
{
    if !db.function_map().contains_key(name) {
        Err(ErrorCode::UnknownUnit)
    } else {
        let f = db.function_map()[name];
        if f.params@.len() != 1 {
            Err(ErrorCode::Parse)
        } else {
            match f.reverse {
                None => Err(ErrorCode::Parse),
                Some(rev) => {
                    let guard = if f.noerror {
                        Ok(None)
                    } else {
                        validate_arg(db, env, res, fuel, arg, opt_text(f.inverse_unit), opt_interval(f.range))
                    };
                    match guard {
                        Err(c) => Err(c),
                        Ok(g) => match eval_text(db, env.push((name, arg)), res, fuel, rev@) {
                            Err(c) => Err(c),
                            Ok(v) => Ok(apply_guards(v, seq![g])),
                        },
                    }
                },
            }
        }
    }
}

/// Whether the exact value of `m` lies where the built-in function `f` is
/// undefined and the engine reports `Parse`: outside `[-1, 1]` for `acos`
/// and `asin`, inside `(-1, 1)` for `asecant` and `acsc`, below one for
/// `acosh`, outside `(-1, 1)` for `atanh`, outside `(0, 1]` for `asech`,
/// inside `[-1, 1]` for `acoth`, a negative or fractional `factorial`, and
/// zero for `acsch`, `csc`, `cot`, `csch`, `coth` and `Gamma`.  Where the
/// value is not exact the check is made when the term is evaluated.
pub open spec fn outside_builtin_domain(f: Seq<char>, m: MagView) -> bool {
    match exact_value(m) {
        Some(x) => {
            let p = x.0;
            let q = x.1;
            ||| (f == "acos"@ || f == "asin"@) && abs_int(p) > q
            ||| (f == "asecant"@ || f == "acsc"@) && abs_int(p) < q
            ||| f == "acosh"@ && p < q
            ||| f == "atanh"@ && abs_int(p) >= q
            ||| f == "asech"@ && (p <= 0 || p > q)
            ||| f == "acoth"@ && abs_int(p) <= q
            ||| f == "factorial"@ && (p < 0 || p % q != 0)
            ||| (f == "acsch"@ || f == "csc"@ || f == "cot"@ || f == "csch"@ || f == "coth"@ || f
                == "Gamma"@) && p == 0
        },
        None => false,
    }
}

/// The dimensionless value `f(t)`, or `Parse` where the exact value of `t`
/// lies outside the domain of `f` (see [`outside_builtin_domain`]).
pub open spec fn checked_fn(f: Seq<char>, t: MagView) -> Result<Val, ErrorCode> {
    if outside_builtin_domain(f, t) {
        Err(ErrorCode::Parse)
    } else {
        Ok((Map::empty(), MagView::Function(f, Box::new(t))))
    }
}

/// A call of a built-in function or a table.
pub open spec fn call_builtin(
    db: Database,
    env: Seq<(Seq<char>, Val)>,
    res: Seq<Seq<char>>,
    fuel: nat,
    name: Seq<char>,
    arg: Val,
) -> Result<Val, ErrorCode>
    decreases fuel, 3nat, 0nat,
{
    let none = Map::<Seq<char>, int>::empty();
    match builtin(name) {
        Some(Builtin::Root(n)) => root_val(arg, n as int),
        Some(Builtin::Abs) => Ok((arg.0, MagView::Function(name, Box::new(arg.1)))),
        Some(Builtin::Plain) => if arg.0 != none {
            Err(ErrorCode::Parse)
        } else if is_logarithm(name) && (known_zero(arg.1) || known_negative(arg.1)) {
            Err(ErrorCode::NotInDomain)
        } else {
            checked_fn(name, arg.1)
        },
        Some(Builtin::AngleIn) => if arg.0 == none {
            checked_fn(name, arg.1)
        } else {
            let r = radian_val(db, env, res, fuel);
            if arg.0 == r.0 {
                checked_fn(name, MagView::Quotient(Box::new(arg.1), Box::new(r.1)))
            } else {
                Err(ErrorCode::Parse)
            }
        },
        Some(Builtin::AngleOut) => if arg.0 != none || outside_builtin_domain(name, arg.1) {
            Err(ErrorCode::Parse)
        } else {
            let r = radian_val(db, env, res, fuel);
            Ok((r.0, MagView::Product(Box::new(r.1), Box::new(MagView::Function(name, Box::new(arg.1))))))
        },
        None => if db.table_map().contains_key(name) {
            if arg.0 != none {
                Err(ErrorCode::Parse)
            } else {
                match eval_text(db, env, res, fuel, db.table_map()[name].unit@) {
                    Err(c) => Err(c),
                    Ok(u) => Ok((u.0, MagView::Product(Box::new(MagView::TableLookup(name, Box::new(arg.1))), Box::new(u.1)))),
                }
            }
        } else {
            Err(ErrorCode::UnknownUnit)
        },
    }
}

/// A call `name(args)`: a user function first, else a one-argument
/// built-in or table.
pub open spec fn call_named(
    db: Database,
    env: Seq<(Seq<char>, Val)>,
    res: Seq<Seq<char>>,
    fuel: nat,
    name: Seq<char>,
    args: Seq<Val>,
) -> Result<Val, ErrorCode>
    decreases fuel, 4nat, 0nat,
{
    if db.function_map().contains_key(name) {
        call_user(db, env, res, fuel, db.function_map()[name], args)
    } else if args.len() != 1 {
        Err(ErrorCode::Parse)
    } else {
        call_builtin(db, env, res, fuel, name, args[0])
    }
}

/// The value of a unit entry: a primitive is itself with exponent one, a
/// dimensionless primitive is one, a derived unit the value of its
/// definition (`Parse` when the unit is already being resolved).
pub open spec fn resolve_entry(
    db: Database,
    env: Seq<(Seq<char>, Val)>,
    res: Seq<Seq<char>>,
    fuel: nat,
    name: Seq<char>,
    entry: UnitEntry,
) -> Result<Val, ErrorCode>
    decreases fuel, 1nat, 0nat,
{
    match entry {
        UnitEntry::Primitive => Ok((Map::empty().insert(name, 1), MagView::One)),
        UnitEntry::DimensionlessPrimitive => Ok(one_val()),
        UnitEntry::Derived(def) => if res.contains(name) {
            Err(ErrorCode::Parse)
        } else {
            eval_text(db, env, res.push(name), fuel, def@)
        },
    }
}

/// The value of a name: a bound variable, a unit, a unit in the plural, a
/// prefix on its own, or a prefix followed by a unit; else `UnknownUnit`.
pub open spec fn resolve_name(
    db: Database,
    env: Seq<(Seq<char>, Val)>,
    res: Seq<Seq<char>>,
    fuel: nat,
    name: Seq<char>,
) -> Result<Val, ErrorCode>
    decreases fuel, 4nat, 0nat,
{
    let units = db.unit_map();
    match env_get(env, name) {
        Some(v) => Ok(v),
        None => if units.contains_key(name) {
            resolve_entry(db, env, res, fuel, name, units[name])
        } else {
            match first_unit(units, plural_candidates(name)) {
                Some(sing) => resolve_entry(db, env, res, fuel, sing, units[sing]),
                None => match prefix_def(db.prefix_list(), name) {
                    Some(d) => eval_text(db, env, res, fuel, d),
                    None => match first_prefix(db.prefix_list(), name, db.unit_map()) {
                        Some(i) => {
                            let pr = db.prefix_list()[i];
                            let rest = name.skip(pr.0.len() as int);
                            match eval_text(db, env, res, fuel, pr.1) {
                                Err(c) => Err(c),
                                Ok(pv) => match resolve_entry(db, env, res, fuel, rest, units[rest]) {
                                    Err(c) => Err(c),
                                    Ok(uv) => mul_vals(uv, pv),
                                },
                            }
                        },
                        None => Err(ErrorCode::UnknownUnit),
                    },
                },
            }
        },
    }
}

/// The value of a parsed expression.
pub open spec fn eval_tree(
    db: Database,
    env: Seq<(Seq<char>, Val)>,
    res: Seq<Seq<char>>,
    fuel: nat,
    s: Seq<char>,
    t: Seq<Token>,
    e: Expr,
) -> Result<Val, ErrorCode>
    decreases fuel, 6nat, expr_size(e),
{
    let none = Map::<Seq<char>, int>::empty();
    match e {
        Expr::Num(i) => match leaf_text(s, t, i as int) {
            None => Err(ErrorCode::Parse),
            Some(txt) => number_val(t[i as int].kind, txt),
        },
        Expr::Name(i) => match leaf_text(s, t, i as int) {
            None => Err(ErrorCode::Parse),
            Some(txt) => resolve_name(db, env, res, fuel, txt),
        },
        Expr::Call(i, l) => match leaf_text(s, t, i as int) {
            None => Err(ErrorCode::Parse),
            Some(txt) => match eval_args(db, env, res, fuel, s, t, *l) {
                Err(c) => Err(c),
                Ok(args) => call_named(db, env, res, fuel, txt, args),
            },
        },
        Expr::Inverse(i, a) => match leaf_text(s, t, i as int) {
            None => Err(ErrorCode::Parse),
            Some(txt) => match eval_tree(db, env, res, fuel, s, t, *a) {
                Err(c) => Err(c),
                Ok(v) => call_inverse(db, env, res, fuel, txt, v),
            },
        },
        Expr::Neg(a) => match eval_tree(db, env, res, fuel, s, t, *a) {
            Err(c) => Err(c),
            Ok(v) => Ok((v.0, MagView::Negation(Box::new(v.1)))),
        },
        Expr::Per(a) => match eval_tree(db, env, res, fuel, s, t, *a) {
            Err(c) => Err(c),
            Ok(v) => Ok((inverse_dims(v.0), MagView::Reciprocal(Box::new(v.1)))),
        },
        Expr::Pow(a, b) => match eval_tree(db, env, res, fuel, s, t, *a) {
            Err(c) => Err(c),
            Ok(x) => match eval_tree(db, env, res, fuel, s, t, *b) {
                Err(c) => Err(c),
                Ok(y) => apply_power(x, y),
            },
        },
        Expr::Mul(a, b) => match eval_tree(db, env, res, fuel, s, t, *a) {
            Err(c) => Err(c),
            Ok(x) => match eval_tree(db, env, res, fuel, s, t, *b) {
                Err(c) => Err(c),
                Ok(y) => mul_vals(x, y),
            },
        },
        Expr::Div(a, b) => match eval_tree(db, env, res, fuel, s, t, *a) {
            Err(c) => Err(c),
            Ok(x) => match eval_tree(db, env, res, fuel, s, t, *b) {
                Err(c) => Err(c),
                Ok(y) => div_vals(x, y),
            },
        },
        Expr::NumDiv(a, b) => match eval_tree(db, env, res, fuel, s, t, *a) {
            Err(c) => Err(c),
            Ok(x) => match eval_tree(db, env, res, fuel, s, t, *b) {
                Err(c) => Err(c),
                Ok(y) => if x.0 != none || y.0 != none {
                    Err(ErrorCode::Parse)
                } else {
                    div_vals(x, y)
                },
            },
        },
        Expr::Juxt(a, b) => match eval_tree(db, env, res, fuel, s, t, *a) {
            Err(c) => Err(c),
            Ok(x) => if x.0 == none && known_zero(x.1) {
                match eval_tree(db, env, res, fuel, s, t, *b) {
                    Ok(y) => mul_vals(x, y),
                    Err(c) => if c == ErrorCode::UnknownUnit {
                        Ok(x)
                    } else {
                        Err(c)
                    },
                }
            } else {
                match eval_tree(db, env, res, fuel, s, t, *b) {
                    Err(c) => Err(c),
                    Ok(y) => mul_vals(x, y),
                }
            },
        },
        Expr::Add(a, b) => match eval_tree(db, env, res, fuel, s, t, *a) {
            Err(c) => Err(c),
            Ok(x) => match eval_tree(db, env, res, fuel, s, t, *b) {
                Err(c) => Err(c),
                Ok(y) => if x.0 == y.0 {
                    Ok((x.0, MagView::Sum(Box::new(x.1), Box::new(y.1))))
                } else {
                    Err(ErrorCode::BadSum)
                },
            },
        },
        Expr::Sub(a, b) => match eval_tree(db, env, res, fuel, s, t, *a) {
            Err(c) => Err(c),
            Ok(x) => match eval_tree(db, env, res, fuel, s, t, *b) {
                Err(c) => Err(c),
                Ok(y) => if x.0 == y.0 {
                    Ok((x.0, MagView::Sum(Box::new(x.1), Box::new(MagView::Negation(Box::new(y.1))))))
                } else {
                    Err(ErrorCode::BadSum)
                },
            },
        },
    }
}

/// The values of call arguments, left to right.
pub open spec fn eval_args(
    db: Database,
    env: Seq<(Seq<char>, Val)>,
    res: Seq<Seq<char>>,
    fuel: nat,
    s: Seq<char>,
    t: Seq<Token>,
    l: ExprList,
) -> Result<Seq<Val>, ErrorCode>
    decreases fuel, 6nat, list_size(l),
{
    match l {
        ExprList::Nil => Ok(Seq::empty()),
        ExprList::Cons(e, rest) => match eval_tree(db, env, res, fuel, s, t, *e) {
            Err(c) => Err(c),
            Ok(v) => match eval_args(db, env, res, fuel, s, t, *rest) {
                Err(c) => Err(c),
                Ok(vs) => Ok(seq![v] + vs),
            },
        },
    }
}


/// A name longer than three bytes that ends in `es` (not `ies`), is neither
/// bound nor a unit, and whose form without the final `s` is no unit either,
/// means the unit named by its stem without `es`: `inches` is `inch`.
pub proof fn lemma_es_plural_is_stem(
    db: Database,
    env: Seq<(Seq<char>, Val)>,
    res: Seq<Seq<char>>,
    fuel: nat,
    name: Seq<char>,
)
    requires
        utf8_len(name) > 3,
        name.len() >= 2,
        name[name.len() - 2] == 'e',
        name[name.len() - 1] == 's',
        !(name.len() >= 3 && name[name.len() - 3] == 'i'),
        env_get(env, name) is None,
        !db.unit_map().contains_key(name),
        !db.unit_map().contains_key(name.take(name.len() - 1)),
        db.unit_map().contains_key(name.take(name.len() - 2)),
        env_get(env, name.take(name.len() - 2)) is None,
    ensures
        resolve_name(db, env, res, fuel, name) == resolve_name(db, env, res, fuel, name.take(name.len() - 2)),
{
    let n = name.len();
    let stem = name.take(n - 2);
    let units = db.unit_map();
    assert(stem.push('e') =~= name.take(n - 1));
    let c = plural_candidates(name);
    assert(c == seq![stem.push('e'), stem]);
    assert(c.drop_first() =~= seq![stem]);
    assert(seq![stem].drop_first() =~= Seq::<Seq<char>>::empty());
    assert(first_unit(units, seq![stem]) == Some(stem));
    assert(first_unit(units, c) == Some(stem));
}

/// A name longer than three bytes that ends in `es` (not `ies`) and is
/// neither bound nor a unit means, before anything else, the unit named by
/// the name without its final `s` when there is one: `lines` is `line`.
pub proof fn lemma_es_plural_prefers_e(
    db: Database,
    env: Seq<(Seq<char>, Val)>,
    res: Seq<Seq<char>>,
    fuel: nat,
    name: Seq<char>,
)
    requires
        utf8_len(name) > 3,
        name.len() >= 2,
        name[name.len() - 2] == 'e',
        name[name.len() - 1] == 's',
        !(name.len() >= 3 && name[name.len() - 3] == 'i'),
        env_get(env, name) is None,
        !db.unit_map().contains_key(name),
        db.unit_map().contains_key(name.take(name.len() - 1)),
        env_get(env, name.take(name.len() - 1)) is None,
    ensures
        resolve_name(db, env, res, fuel, name) == resolve_name(db, env, res, fuel, name.take(name.len() - 1)),
{
    let n = name.len();
    let stem = name.take(n - 2);
    let units = db.unit_map();
    assert(stem.push('e') =~= name.take(n - 1));
    let c = plural_candidates(name);
    assert(c == seq![stem.push('e'), stem]);
    assert(first_unit(units, c) == Some(name.take(n - 1)));
}

/// A name longer than three bytes that ends in `s` but not `es`, and is
/// neither bound nor a unit, means the unit named without the `s` when
/// there is one: `meters` is `meter`.
pub proof fn lemma_s_plural_drops_s(
    db: Database,
    env: Seq<(Seq<char>, Val)>,
    res: Seq<Seq<char>>,
    fuel: nat,
    name: Seq<char>,
)
    requires
        utf8_len(name) > 3,
        name.len() >= 2,
        name[name.len() - 2] != 'e',
        name[name.len() - 1] == 's',
        env_get(env, name) is None,
        !db.unit_map().contains_key(name),
        db.unit_map().contains_key(name.take(name.len() - 1)),
        env_get(env, name.take(name.len() - 1)) is None,
    ensures
        resolve_name(db, env, res, fuel, name) == resolve_name(db, env, res, fuel, name.take(name.len() - 1)),
{
    let n = name.len();
    let units = db.unit_map();
    let c = plural_candidates(name);
    assert(c == seq![name.take(n - 1)]);
    assert(first_unit(units, c) == Some(name.take(n - 1)));
}

/// A name longer than three bytes that ends in `ies`, and is neither bound
/// nor a unit, means the unit named with `y` in place of `ies` when there
/// is one: `calories` is `calory`.
pub proof fn lemma_ies_plural_is_y(
    db: Database,
    env: Seq<(Seq<char>, Val)>,
    res: Seq<Seq<char>>,
    fuel: nat,
    name: Seq<char>,
)
    requires
        utf8_len(name) > 3,
        name.len() >= 3,
        name[name.len() - 3] == 'i',
        name[name.len() - 2] == 'e',
        name[name.len() - 1] == 's',
        env_get(env, name) is None,
        !db.unit_map().contains_key(name),
        db.unit_map().contains_key(name.take(name.len() - 3).push('y')),
        env_get(env, name.take(name.len() - 3).push('y')) is None,
    ensures
        resolve_name(db, env, res, fuel, name) == resolve_name(db, env, res, fuel, name.take(name.len() - 3).push('y')),
{
    let n = name.len();
    let units = db.unit_map();
    let y = name.take(n - 3).push('y');
    let c = plural_candidates(name);
    assert(c == seq![y]);
    assert(first_unit(units, c) == Some(y));
}

/// A user function called with the wrong number of arguments fails with
/// `Parse` before any argument is checked or any formula evaluated; the
/// caller's bindings are passed in and never changed.
pub proof fn lemma_call_user_arity(
    db: Database,
    env: Seq<(Seq<char>, Val)>,
    res: Seq<Seq<char>>,
    fuel: nat,
    f: FunctionDef,
    args: Seq<Val>,
)
    requires
        args.len() != f.params@.len(),
    ensures
        call_user(db, env, res, fuel, f, args) == Err::<Val, ErrorCode>(ErrorCode::Parse),
{
}

/// Evaluating a text never fails with `NotAFunc`: that code belongs to
/// conversions through an inverse.
pub proof fn lemma_eval_text_not_a_func(
    db: Database,
    env: Seq<(Seq<char>, Val)>,
    res: Seq<Seq<char>>,
    fuel: nat,
    text: Seq<char>,
)
    ensures
        eval_text(db, env, res, fuel, text) != Err::<Val, ErrorCode>(ErrorCode::NotAFunc),
    decreases fuel, 0nat, 0nat,
{
    if fuel > 0 {
        let t = lex(text);
        if let Some(e) = parse_tokens(text, t) {
            lemma_eval_tree_not_a_func(db, env, res, (fuel - 1) as nat, text, t, e);
        }
    }
}

proof fn lemma_resolve_entry_not_a_func(
    db: Database,
    env: Seq<(Seq<char>, Val)>,
    res: Seq<Seq<char>>,
    fuel: nat,
    name: Seq<char>,
    entry: UnitEntry,
)
    ensures
        resolve_entry(db, env, res, fuel, name, entry) != Err::<Val, ErrorCode>(ErrorCode::NotAFunc),
    decreases fuel, 1nat, 0nat,
{
    if let UnitEntry::Derived(def) = entry {
        if !res.contains(name) {
            lemma_eval_text_not_a_func(db, env, res.push(name), fuel, def@);
        }
    }
}

proof fn lemma_validate_arg_not_a_func(
    db: Database,
    env: Seq<(Seq<char>, Val)>,
    res: Seq<Seq<char>>,
    fuel: nat,
    arg: Val,
    unit: Option<Seq<char>>,
    dom: Option<(Seq<char>, Seq<char>, bool, bool)>,
)
    ensures
        validate_arg(db, env, res, fuel, arg, unit, dom) != Err::<Option<Guard>, ErrorCode>(ErrorCode::NotAFunc),
    decreases fuel, 1nat, 0nat,
{
    if let Some(u) = unit {
        lemma_eval_text_not_a_func(db, env, res, fuel, u);
    }
}

proof fn lemma_check_args_not_a_func(
    db: Database,
    env: Seq<(Seq<char>, Val)>,
    res: Seq<Seq<char>>,
    fuel: nat,
    f: FunctionDef,
    args: Seq<Val>,
    i: int,
)
    ensures
        check_args(db, env, res, fuel, f, args, i) != Err::<Seq<Option<Guard>>, ErrorCode>(ErrorCode::NotAFunc),
    decreases fuel, 2nat, (args.len() - i) as nat,
{
    if 0 <= i < args.len() {
        lemma_validate_arg_not_a_func(db, env, res, fuel, args[i], opt_text_at(f.units@, i), interval_at(f.domain@, i));
        lemma_check_args_not_a_func(db, env, res, fuel, f, args, i + 1);
    }
}

proof fn lemma_call_user_not_a_func(
    db: Database,
    env: Seq<(Seq<char>, Val)>,
    res: Seq<Seq<char>>,
    fuel: nat,
    f: FunctionDef,
    args: Seq<Val>,
)
    ensures
        call_user(db, env, res, fuel, f, args) != Err::<Val, ErrorCode>(ErrorCode::NotAFunc),
    decreases fuel, 3nat, 0nat,
{
    if args.len() == f.params@.len() {
        if f.params@.len() == 0 {
            lemma_eval_text_not_a_func(db, env, res, fuel, f.forward@);
        } else {
            if !f.noerror {
                lemma_check_args_not_a_func(db, env, res, fuel, f, args, 0);
            }
            lemma_eval_text_not_a_func(db, bind_params(env, f.params@, args), res, fuel, f.forward@);
        }
    }
}

proof fn lemma_call_inverse_not_a_func(
    db: Database,
    env: Seq<(Seq<char>, Val)>,
    res: Seq<Seq<char>>,
    fuel: nat,
    name: Seq<char>,
    arg: Val,
)
    ensures
        call_inverse(db, env, res, fuel, name, arg) != Err::<Val, ErrorCode>(ErrorCode::NotAFunc),
    decreases fuel, 3nat, 0nat,
{
    if db.function_map().contains_key(name) {
        let f = db.function_map()[name];
        if let Some(rev) = f.reverse {
            if !f.noerror {
                lemma_validate_arg_not_a_func(db, env, res, fuel, arg, opt_text(f.inverse_unit), opt_interval(f.range));
            }
            lemma_eval_text_not_a_func(db, env.push((name, arg)), res, fuel, rev@);
        }
    }
}

proof fn lemma_call_builtin_not_a_func(
    db: Database,
    env: Seq<(Seq<char>, Val)>,
    res: Seq<Seq<char>>,
    fuel: nat,
    name: Seq<char>,
    arg: Val,
)
    ensures
        call_builtin(db, env, res, fuel, name, arg) != Err::<Val, ErrorCode>(ErrorCode::NotAFunc),
    decreases fuel, 3nat, 0nat,
{
    if builtin(name) is None && db.table_map().contains_key(name) {
        lemma_eval_text_not_a_func(db, env, res, fuel, db.table_map()[name].unit@);
    }
}

proof fn lemma_call_named_not_a_func(
    db: Database,
    env: Seq<(Seq<char>, Val)>,
    res: Seq<Seq<char>>,
    fuel: nat,
    name: Seq<char>,
    args: Seq<Val>,
)
    ensures
        call_named(db, env, res, fuel, name, args) != Err::<Val, ErrorCode>(ErrorCode::NotAFunc),
    decreases fuel, 4nat, 0nat,
{
    if db.function_map().contains_key(name) {
        lemma_call_user_not_a_func(db, env, res, fuel, db.function_map()[name], args);
    } else if args.len() == 1 {
        lemma_call_builtin_not_a_func(db, env, res, fuel, name, args[0]);
    }
}

proof fn lemma_resolve_name_not_a_func(
    db: Database,
    env: Seq<(Seq<char>, Val)>,
    res: Seq<Seq<char>>,
    fuel: nat,
    name: Seq<char>,
)
    ensures
        resolve_name(db, env, res, fuel, name) != Err::<Val, ErrorCode>(ErrorCode::NotAFunc),
    decreases fuel, 4nat, 0nat,
{
    let units = db.unit_map();
    if env_get(env, name) is None {
        if units.contains_key(name) {
            lemma_resolve_entry_not_a_func(db, env, res, fuel, name, units[name]);
        } else if let Some(sing) = first_unit(units, plural_candidates(name)) {
            lemma_resolve_entry_not_a_func(db, env, res, fuel, sing, units[sing]);
        } else if let Some(d) = prefix_def(db.prefix_list(), name) {
            lemma_eval_text_not_a_func(db, env, res, fuel, d);
        } else if let Some(i) = first_prefix(db.prefix_list(), name, db.unit_map()) {
            let pr = db.prefix_list()[i];
            let rest = name.skip(pr.0.len() as int);
            lemma_eval_text_not_a_func(db, env, res, fuel, pr.1);
            lemma_resolve_entry_not_a_func(db, env, res, fuel, rest, units[rest]);
        }
    }
}

proof fn lemma_eval_tree_not_a_func(
    db: Database,
    env: Seq<(Seq<char>, Val)>,
    res: Seq<Seq<char>>,
    fuel: nat,
    s: Seq<char>,
    t: Seq<Token>,
    e: Expr,
)
    ensures
        eval_tree(db, env, res, fuel, s, t, e) != Err::<Val, ErrorCode>(ErrorCode::NotAFunc),
    decreases fuel, 6nat, expr_size(e),
{
    match e {
        Expr::Num(i) => {},
        Expr::Name(i) => {
            if let Some(txt) = leaf_text(s, t, i as int) {
                lemma_resolve_name_not_a_func(db, env, res, fuel, txt);
            }
        },
        Expr::Call(i, l) => {
            lemma_eval_args_not_a_func(db, env, res, fuel, s, t, *l);
            if let Some(txt) = leaf_text(s, t, i as int) {
                if let Ok(args) = eval_args(db, env, res, fuel, s, t, *l) {
                    lemma_call_named_not_a_func(db, env, res, fuel, txt, args);
                }
            }
        },
        Expr::Inverse(i, a) => {
            lemma_eval_tree_not_a_func(db, env, res, fuel, s, t, *a);
            if let Some(txt) = leaf_text(s, t, i as int) {
                if let Ok(v) = eval_tree(db, env, res, fuel, s, t, *a) {
                    lemma_call_inverse_not_a_func(db, env, res, fuel, txt, v);
                }
            }
        },
        Expr::Neg(a) => {
            lemma_eval_tree_not_a_func(db, env, res, fuel, s, t, *a);
        },
        Expr::Per(a) => {
            lemma_eval_tree_not_a_func(db, env, res, fuel, s, t, *a);
        },
        Expr::Pow(a, b) => {
            lemma_eval_tree_not_a_func(db, env, res, fuel, s, t, *a);
            lemma_eval_tree_not_a_func(db, env, res, fuel, s, t, *b);
        },
        Expr::Mul(a, b) => {
            lemma_eval_tree_not_a_func(db, env, res, fuel, s, t, *a);
            lemma_eval_tree_not_a_func(db, env, res, fuel, s, t, *b);
        },
        Expr::Div(a, b) => {
            lemma_eval_tree_not_a_func(db, env, res, fuel, s, t, *a);
            lemma_eval_tree_not_a_func(db, env, res, fuel, s, t, *b);
        },
        Expr::NumDiv(a, b) => {
            lemma_eval_tree_not_a_func(db, env, res, fuel, s, t, *a);
            lemma_eval_tree_not_a_func(db, env, res, fuel, s, t, *b);
        },
        Expr::Juxt(a, b) => {
            lemma_eval_tree_not_a_func(db, env, res, fuel, s, t, *a);
            lemma_eval_tree_not_a_func(db, env, res, fuel, s, t, *b);
        },
        Expr::Add(a, b) => {
            lemma_eval_tree_not_a_func(db, env, res, fuel, s, t, *a);
            lemma_eval_tree_not_a_func(db, env, res, fuel, s, t, *b);
        },
        Expr::Sub(a, b) => {
            lemma_eval_tree_not_a_func(db, env, res, fuel, s, t, *a);
            lemma_eval_tree_not_a_func(db, env, res, fuel, s, t, *b);
        },
    }
}

proof fn lemma_eval_args_not_a_func(
    db: Database,
    env: Seq<(Seq<char>, Val)>,
    res: Seq<Seq<char>>,
    fuel: nat,
    s: Seq<char>,
    t: Seq<Token>,
    l: ExprList,
)
    ensures
        eval_args(db, env, res, fuel, s, t, l) != Err::<Seq<Val>, ErrorCode>(ErrorCode::NotAFunc),
    decreases fuel, 6nat, list_size(l),
{
    if let ExprList::Cons(e, rest) = l {
        lemma_eval_tree_not_a_func(db, env, res, fuel, s, t, *e);
        lemma_eval_args_not_a_func(db, env, res, fuel, s, t, *rest);
    }
}

} // verus!

verus! {

/// The value of a unit.
pub open spec fn unit_val(u: Unit) -> Val {
    (u.dimensions(), mag_view(u.factor_term()))
}

/// `r` is the executable form of the outcome `v`.
pub open spec fn outcome(r: Result<Unit, ErrorCode>, v: Result<Val, ErrorCode>) -> bool {
    match r {
        Ok(u) => u.wf() && v == Ok::<Val, ErrorCode>(unit_val(u)),
        Err(c) => v == Err::<Val, ErrorCode>(c),
    }
}

/// The bindings of an environment.
pub open spec fn env_view(env: Seq<(String, Unit)>) -> Seq<(Seq<char>, Val)> {
    env.map_values(|p: (String, Unit)| (p.0@, unit_val(p.1)))
}

/// Every unit of an environment is well formed.
pub open spec fn env_wf(env: Seq<(String, Unit)>) -> bool {
    forall|i: int| 0 <= i < env.len() ==> (#[trigger] env[i]).1.wf()
}

/// The texts of a list of names.
pub open spec fn names_view(res: Seq<String>) -> Seq<Seq<char>> {
    res.map_values(|s: String| s@)
}

/// The values of a list of units.
pub open spec fn vals_view(v: Seq<Unit>) -> Seq<Val> {
    v.map_values(|u: Unit| unit_val(u))
}

/// Every unit of a list is well formed.
pub open spec fn units_wf(v: Seq<Unit>) -> bool {
    forall|i: int| 0 <= i < v.len() ==> (#[trigger] v[i]).wf()
}

/// The view of an optional guard.
pub open spec fn guard_view(g: Option<(Magnitude, Interval)>) -> Option<Guard> {
    match g {
        Some((m, iv)) => Some((mag_view(m), interval_view(iv))),
        None => None,
    }
}

/// The views of a list of optional guards.
pub open spec fn guards_view(g: Seq<Option<(Magnitude, Interval)>>) -> Seq<Option<Guard>> {
    g.map_values(|x: Option<(Magnitude, Interval)>| guard_view(x))
}

fn mul_units(a: Unit, b: Unit) -> (r: Result<Unit, ErrorCode>)
    requires
        a.wf(),
        b.wf(),
    ensures
        outcome(r, mul_vals(unit_val(a), unit_val(b))),
{
    if a.can_multiply(&b) {
        let mut a = a;
        let _ = a.multiply(b);
        Ok(a)
    } else {
        Err(ErrorCode::BadNum)
    }
}

fn div_units(a: Unit, b: Unit) -> (r: Result<Unit, ErrorCode>)
    requires
        a.wf(),
        b.wf(),
    ensures
        outcome(r, div_vals(unit_val(a), unit_val(b))),
{
    if a.can_divide(&b) {
        let mut a = a;
        let _ = a.divide(b);
        Ok(a)
    } else {
        Err(ErrorCode::BadNum)
    }
}

fn negate_unit(u: Unit) -> (r: Unit)
    requires
        u.wf(),
    ensures
        r.wf(),
        unit_val(r) == (unit_val(u).0, MagView::Negation(Box::new(unit_val(u).1))),
{
    let (d, m) = u.into_parts();
    Unit::from_parts(d, Magnitude::Negation(Box::new(m)))
}

fn root_unit(u: Unit, n: i32) -> (r: Result<Unit, ErrorCode>)
    requires
        u.wf(),
        n > 0,
    ensures
        outcome(r, root_val(unit_val(u), n as int)),
{
    let mut u = u;
    match u.root(n) {
        Ok(()) => Ok(u),
        Err(_) => Err(ErrorCode::NotRoot),
    }
}

fn int_power_unit(b: Unit, p: i32) -> (r: Result<Unit, ErrorCode>)
    requires
        b.wf(),
    ensures
        outcome(r, int_power_val(unit_val(b), p as int)),
{
    if p == i32::MIN {
        return Err(ErrorCode::BadNum);
    }
    let ap: i32 = if p < 0 {
        -p
    } else {
        p
    };
    if !b.can_pow(ap) {
        return Err(ErrorCode::BadNum);
    }
    let ghost v0 = unit_val(b);
    let mut b = b;
    let _ = b.pow(ap);
    let ghost v1 = unit_val(b);
    assert(v1 == (power_dims(v0.0, ap as int), MagView::IntPower(Box::new(v0.1), ap as int)));
    if p < 0 {
        b.invert();
        assert(unit_val(b) == (inverse_dims(v1.0), MagView::Reciprocal(Box::new(v1.1))));
    }
    Ok(b)
}

fn power_unit(base: Unit, exp: Unit) -> (r: Result<Unit, ErrorCode>)
    requires
        base.wf(),
        exp.wf(),
    ensures
        outcome(r, apply_power(unit_val(base), unit_val(exp))),
{
    if !exp.is_dimensionless() {
        return Err(ErrorCode::Parse);
    }
    if base.is_dimensionless() {
        let (_, bm) = base.into_parts();
        let (_, em) = exp.into_parts();
        return Ok(Unit::from_parts(Dimensions::empty(), Magnitude::RealPower(Box::new(bm), Box::new(em))));
    }
    let (n, d) = match exp.magnitude().exact() {
        Some(x) => x,
        None => {
            return Err(ErrorCode::IrrationalExponent);
        },
    };
    let (p, q) = match rational_exponent(n, d) {
        Some(x) => x,
        None => {
            return Err(ErrorCode::IrrationalExponent);
        },
    };
    if q != 1 {
        match root_unit(base, q) {
            Ok(r) => int_power_unit(r, p),
            Err(c) => Err(c),
        }
    } else {
        int_power_unit(base, p)
    }
}

fn env_lookup(env: &Vec<(String, Unit)>, name: &String) -> (r: Option<Unit>)
    requires
        env_wf(env@),
    ensures
        match r {
            Some(u) => u.wf() && env_get(env_view(env@), name@) == Some(unit_val(u)),
            None => env_get(env_view(env@), name@) is None,
        },
{
    let ghost v = env_view(env@);
    let mut i = env.len();
    proof {
        assert(v.take(i as int) =~= v);
    }
    while i > 0
        invariant
            i <= env@.len(),
            v == env_view(env@),
            env_wf(env@),
            env_get(v, name@) == env_get(v.take(i as int), name@),
        decreases i,
    {
        i = i - 1;
        proof {
            assert(v.take(i + 1).drop_last() =~= v.take(i as int));
            assert(v.take(i + 1).last() == v[i as int]);
            assert(v[i as int] == (env@[i as int].0@, unit_val(env@[i as int].1)));
        }
        if env[i].0 == *name {
            return Some(env[i].1.duplicate());
        }
    }
    None
}

fn dup_env(env: &Vec<(String, Unit)>) -> (r: Vec<(String, Unit)>)
    requires
        env_wf(env@),
    ensures
        env_wf(r@),
        env_view(r@) == env_view(env@),
{
    let mut r: Vec<(String, Unit)> = Vec::new();
    let mut i: usize = 0;
    while i < env.len()
        invariant
            i <= env@.len(),
            env_wf(env@),
            env_wf(r@),
            r@.len() == i,
            env_view(r@) == env_view(env@).take(i as int),
        decreases env@.len() - i,
    {
        let name = env[i].0.clone();
        let u = env[i].1.duplicate();
        let ghost before = r@;
        r.push((name, u));
        proof {
            assert forall|k: int| 0 <= k < i + 1 implies #[trigger] env_view(r@)[k] == env_view(env@).take(i + 1)[k] by {
                if k < i {
                    assert(r@[k] == before[k]);
                    assert(env_view(before)[k] == env_view(env@).take(i as int)[k]);
                }
            }
            assert(env_view(r@) =~= env_view(env@).take(i + 1));
        }
        i = i + 1;
    }
    proof {
        assert(env_view(env@).take(env@.len() as int) =~= env_view(env@));
    }
    r
}

fn has_name(res: &Vec<String>, name: &String) -> (b: bool)
    ensures
        b == names_view(res@).contains(name@),
{
    let mut i: usize = 0;
    while i < res.len()
        invariant
            i <= res@.len(),
            forall|j: int| 0 <= j < i ==> #[trigger] names_view(res@)[j] != name@,
        decreases res@.len() - i,
    {
        if res[i] == *name {
            proof {
                assert(names_view(res@)[i as int] == name@);
            }
            return true;
        }
        i = i + 1;
    }
    false
}

fn with_name(res: &Vec<String>, name: &String) -> (r: Vec<String>)
    ensures
        names_view(r@) == names_view(res@).push(name@),
{
    let mut r: Vec<String> = Vec::new();
    let mut i: usize = 0;
    while i < res.len()
        invariant
            i <= res@.len(),
            r@.len() == i,
            names_view(r@) == names_view(res@).take(i as int),
        decreases res@.len() - i,
    {
        let ghost before = r@;
        r.push(res[i].clone());
        proof {
            assert forall|k: int| 0 <= k < i + 1 implies #[trigger] names_view(r@)[k] == names_view(res@).take(i + 1)[k] by {
                if k < i {
                    assert(r@[k] == before[k]);
                    assert(names_view(before)[k] == names_view(res@).take(i as int)[k]);
                }
            }
            assert(names_view(r@) =~= names_view(res@).take(i + 1));
        }
        i = i + 1;
    }
    let ghost before = r@;
    r.push(name.clone());
    proof {
        assert(names_view(res@).take(res@.len() as int) =~= names_view(res@));
        assert forall|k: int| 0 <= k < r@.len() implies #[trigger] names_view(r@)[k] == names_view(res@).push(name@)[k] by {
            if k < res@.len() {
                assert(r@[k] == before[k]);
                assert(names_view(before)[k] == names_view(res@)[k]);
            }
        }
        assert(names_view(r@) =~= names_view(res@).push(name@));
    }
    r
}

} // verus!

verus! {

fn plain_builtin(n: &Vec<char>) -> (b: bool)
    ensures
        b == is_plain_builtin(n@),
{
    chars_eq_str(n, "exp") || chars_eq_str(n, "ln") || chars_eq_str(n, "log") || chars_eq_str(n, "log10")
        || chars_eq_str(n, "log2") || chars_eq_str(n, "round") || chars_eq_str(n, "floor")
        || chars_eq_str(n, "ceil") || chars_eq_str(n, "asinh") || chars_eq_str(n, "acosh")
        || chars_eq_str(n, "atanh") || chars_eq_str(n, "acsch") || chars_eq_str(n, "asech")
        || chars_eq_str(n, "acoth") || chars_eq_str(n, "sinh") || chars_eq_str(n, "cosh")
        || chars_eq_str(n, "tanh") || chars_eq_str(n, "csch") || chars_eq_str(n, "sech")
        || chars_eq_str(n, "coth") || chars_eq_str(n, "erf") || chars_eq_str(n, "erfc")
        || chars_eq_str(n, "lnGamma") || chars_eq_str(n, "Gamma") || chars_eq_str(n, "factorial")
}

fn angle_in_builtin(n: &Vec<char>) -> (b: bool)
    ensures
        b == is_angle_in_builtin(n@),
{
    chars_eq_str(n, "secant") || chars_eq_str(n, "sin") || chars_eq_str(n, "cos") || chars_eq_str(n, "tan")
        || chars_eq_str(n, "csc") || chars_eq_str(n, "cot")
}

fn angle_out_builtin(n: &Vec<char>) -> (b: bool)
    ensures
        b == is_angle_out_builtin(n@),
{
    chars_eq_str(n, "asecant") || chars_eq_str(n, "acos") || chars_eq_str(n, "asin") || chars_eq_str(n, "atan")
        || chars_eq_str(n, "acsc") || chars_eq_str(n, "acot")
}

fn log_base(n: &Vec<char>) -> (b: bool)
    ensures
        b == is_log_base(n@),
{
    if !(n.len() > 3 && n[0] == 'l' && n[1] == 'o' && n[2] == 'g') {
        return false;
    }
    let ghost d = n@.skip(3);
    // the value of the digits, capped at two
    let mut v: u8 = 0;
    let mut i: usize = 3;
    while i < n.len()
        invariant
            3 <= i <= n@.len(),
            d == n@.skip(3),
            all_ascii_digits(n@.subrange(3, i as int)),
            v as int == (if dec_value(n@.subrange(3, i as int)) >= 2 { 2 } else { dec_value(n@.subrange(3, i as int)) }),
            dec_value(n@.subrange(3, i as int)) >= 0,
        decreases n@.len() - i,
    {
        let c = n[i];
        if !('0' <= c && c <= '9') {
            proof {
                assert(d[i - 3] == c);
            }
            return false;
        }
        proof {
            assert(n@.subrange(3, i + 1).drop_last() =~= n@.subrange(3, i as int));
            assert(n@.subrange(3, i + 1).last() == c);
        }
        let digit = (c as u32 - '0' as u32) as u8;
        let w: u8 = if v >= 2 { 2 } else { v * 10 + digit };
        v = if w >= 2 { 2 } else { w };
        i = i + 1;
    }
    proof {
        assert(n@.subrange(3, n@.len() as int) =~= d);
    }
    v >= 2
}

pub(crate) fn logarithm(n: &Vec<char>) -> (b: bool)
    ensures
        b == is_logarithm(n@),
{
    proof {
        reveal_strlit("ln");
        reveal_strlit("log");
        reveal_strlit("log10");
        reveal_strlit("log2");
    }
    chars_eq_str(n, "ln") || chars_eq_str(n, "log") || chars_eq_str(n, "log10") || chars_eq_str(n, "log2")
        || log_base(n)
}

fn builtin_of(n: &Vec<char>) -> (r: Option<Builtin>)
    ensures
        r == builtin(n@),
{
    if chars_eq_str(n, "sqrt") {
        Some(Builtin::Root(2))
    } else if chars_eq_str(n, "cbrt") || chars_eq_str(n, "cuberoot") {
        Some(Builtin::Root(3))
    } else if chars_eq_str(n, "abs") {
        Some(Builtin::Abs)
    } else if plain_builtin(n) {
        Some(Builtin::Plain)
    } else if angle_in_builtin(n) {
        Some(Builtin::AngleIn)
    } else if angle_out_builtin(n) {
        Some(Builtin::AngleOut)
    } else if log_base(n) {
        Some(Builtin::Plain)
    } else {
        None
    }
}

fn plural_forms(n: &Vec<char>) -> (r: Vec<Vec<char>>)
    ensures
        r@.len() == plural_candidates(n@).len(),
        forall|k: int| 0 <= k < r@.len() ==> #[trigger] r@[k]@ == plural_candidates(n@)[k],
{
    let mut r: Vec<Vec<char>> = Vec::new();
    let len = n.len();
    if utf8_length(n) <= 3 {
        return r;
    }
    if len >= 3 && n[len - 3] == 'i' && n[len - 2] == 'e' && n[len - 1] == 's' {
        let mut b = slice_vec(n, 0, len - 3);
        b.push('y');
        r.push(b);
    } else if len >= 2 && n[len - 2] == 'e' && n[len - 1] == 's' {
        let mut b = slice_vec(n, 0, len - 2);
        let c = slice_vec(n, 0, len - 2);
        b.push('e');
        r.push(b);
        r.push(c);
    } else if len >= 1 && n[len - 1] == 's' {
        r.push(slice_vec(n, 0, len - 1));
    }
    r
}

fn leaf(s: &Vec<char>, t: &Vec<Token>, i: usize) -> (r: Option<Vec<char>>)
    ensures
        match r {
            Some(v) => leaf_text(s@, t@, i as int) == Some(v@) && i < t@.len(),
            None => leaf_text(s@, t@, i as int) is None,
        },
{
    if i < t.len() && t[i].start <= t[i].end && t[i].end <= s.len() {
        Some(slice_vec(s, t[i].start, t[i].end))
    } else {
        None
    }
}

fn hex_number(text: &Vec<char>) -> (r: Option<i64>)
    ensures
        match r {
            Some(v) => all_hex(text@) && hex_value(text@) == v as int,
            None => !(all_hex(text@) && hex_value(text@) <= i64::MAX),
        },
{
    let mut v: u128 = 0;
    let mut i: usize = 0;
    while i < text.len()
        invariant
            i <= text@.len(),
            all_hex(text@.take(i as int)),
            v as int == hex_value(text@.take(i as int)),
            v <= i64::MAX,
        decreases text@.len() - i,
    {
        let c = text[i];
        proof {
            assert(text@.take(i + 1).drop_last() =~= text@.take(i as int));
            assert(text@.take(i + 1).last() == c);
        }
        let d: u128 = if '0' <= c && c <= '9' {
            (c as u32 - '0' as u32) as u128
        } else if 'a' <= c && c <= 'f' {
            (c as u32 - 'a' as u32 + 10) as u128
        } else if 'A' <= c && c <= 'F' {
            (c as u32 - 'A' as u32 + 10) as u128
        } else {
            proof {
                assert(!crate::syntax::is_hex_digit(text@[i as int]));
            }
            return None;
        };
        let w = v * 16 + d;
        proof {
            assert(all_hex(text@.take(i + 1))) by {
                assert forall|k: int| 0 <= k < i + 1 implies #[trigger] crate::syntax::is_hex_digit(text@.take(i + 1)[k]) by {
                    if k < i {
                        assert(text@.take(i + 1)[k] == text@.take(i as int)[k]);
                    }
                }
            }
        }
        if w > i64::MAX as u128 {
            proof {
                lemma_hex_value_grows(text@, i + 1);
            }
            return None;
        }
        v = w;
        i = i + 1;
    }
    proof {
        assert(text@.take(text@.len() as int) =~= text@);
    }
    Some(v as i64)
}

proof fn lemma_hex_value_grows(s: Seq<char>, k: int)
    requires
        0 <= k <= s.len(),
        all_hex(s.take(k)),
    ensures
        all_hex(s) ==> hex_value(s) >= hex_value(s.take(k)) >= 0,
    decreases s.len() - k,
{
    lemma_hex_value_nonneg(s.take(k));
    if k < s.len() && all_hex(s) {
        assert(all_hex(s.take(k + 1))) by {
            assert forall|j: int| 0 <= j < k + 1 implies #[trigger] crate::syntax::is_hex_digit(s.take(k + 1)[j]) by {
                assert(s.take(k + 1)[j] == s[j]);
            }
        }
        lemma_hex_value_grows(s, k + 1);
        assert(s.take(k + 1).drop_last() =~= s.take(k));
        assert(s.take(k + 1).last() == s[k]);
        assert(crate::syntax::is_hex_digit(s[k]));
    } else if k == s.len() {
        assert(s.take(k) =~= s);
    }
}

proof fn lemma_hex_value_nonneg(s: Seq<char>)
    requires
        all_hex(s),
    ensures
        hex_value(s) >= 0,
    decreases s.len(),
{
    if s.len() > 0 {
        assert(all_hex(s.drop_last())) by {
            assert forall|j: int| 0 <= j < s.len() - 1 implies #[trigger] crate::syntax::is_hex_digit(s.drop_last()[j]) by {
                assert(s.drop_last()[j] == s[j]);
            }
        }
        lemma_hex_value_nonneg(s.drop_last());
        assert(crate::syntax::is_hex_digit(s[s.len() - 1]));
    }
}

fn number_unit(kind: Kind, text: &Vec<char>) -> (r: Result<Unit, ErrorCode>)
    ensures
        outcome(r, number_val(kind, text@)),
{
    if kind == Kind::Dec {
        Ok(Unit::from_parts(Dimensions::empty(), Magnitude::Decimal(from_chars(text.as_slice()))))
    } else if kind == Kind::Hex {
        match hex_number(text) {
            Some(v) => Ok(Unit::from_parts(Dimensions::empty(), Magnitude::Integer(v))),
            None => Err(ErrorCode::Parse),
        }
    } else {
        Err(ErrorCode::Parse)
    }
}

} // verus!

verus! {

fn dup_interval(i: &Interval) -> (r: Interval)
    ensures
        interval_view(r) == interval_view(*i),
{
    Interval { min: i.min.clone(), max: i.max.clone(), min_open: i.min_open, max_open: i.max_open }
}

proof fn lemma_first_unit(units: Map<Seq<char>, UnitEntry>, c: Seq<Seq<char>>)
    ensures
        first_unit(units, c) matches Some(x) ==> units.contains_key(x),
    decreases c.len(),
{
    if c.len() > 0 && !units.contains_key(c[0]) {
        lemma_first_unit(units, c.drop_first());
    }
}

fn first_unit_name(db: &Database, cands: &Vec<Vec<char>>) -> (r: Option<String>)
    requires
        db.wf(),
    ensures
        ({
            let cv = cands@.map_values(|v: Vec<char>| v@);
            match r {
                Some(n) => first_unit(db.unit_map(), cv) == Some(n@),
                None => first_unit(db.unit_map(), cv) is None,
            }
        }),
{
    let ghost cv = cands@.map_values(|v: Vec<char>| v@);
    let mut k: usize = 0;
    proof {
        assert(cv.skip(0) =~= cv);
    }
    while k < cands.len()
        invariant
            k <= cands@.len(),
            db.wf(),
            cv == cands@.map_values(|v: Vec<char>| v@),
            first_unit(db.unit_map(), cv) == first_unit(db.unit_map(), cv.skip(k as int)),
        decreases cands@.len() - k,
    {
        let n = from_chars(cands[k].as_slice());
        proof {
            assert(cv.skip(k as int)[0] == n@);
            assert(cv.skip(k as int).drop_first() =~= cv.skip(k + 1));
        }
        match db.unit(&n) {
            Some(_) => {
                return Some(n);
            },
            None => {},
        }
        k = k + 1;
    }
    proof {
        assert(cv.skip(k as int) =~= Seq::<Seq<char>>::empty());
    }
    None
}

fn wrap_guard(u: Unit, g: &Option<(Magnitude, Interval)>) -> (r: Unit)
    requires
        u.wf(),
    ensures
        r.wf(),
        unit_val(r) == (match guard_view(*g) {
            Some((c, iv)) => (unit_val(u).0, MagView::Guarded(Box::new(unit_val(u).1), Box::new(c), iv)),
            None => unit_val(u),
        }),
{
    match g {
        Some((c, iv)) => {
            let (d, m) = u.into_parts();
            Unit::from_parts(d, Magnitude::Guarded(Box::new(m), Box::new(c.duplicate()), dup_interval(iv)))
        },
        None => u,
    }
}

fn wrap_guards(u: Unit, g: &Vec<Option<(Magnitude, Interval)>>) -> (r: Unit)
    requires
        u.wf(),
    ensures
        r.wf(),
        unit_val(r) == apply_guards(unit_val(u), guards_view(g@)),
{
    let ghost gv = guards_view(g@);
    let ghost v0 = unit_val(u);
    let mut cur = u;
    let mut i: usize = 0;
    proof {
        assert(gv.skip(0) =~= gv);
    }
    while i < g.len()
        invariant
            i <= g@.len(),
            cur.wf(),
            gv == guards_view(g@),
            apply_guards(v0, gv) == apply_guards(unit_val(cur), gv.skip(i as int)),
        decreases g@.len() - i,
    {
        let ghost before = unit_val(cur);
        cur = wrap_guard(cur, &g[i]);
        proof {
            assert(gv.skip(i as int)[0] == guard_view(g@[i as int]));
            assert(gv.skip(i as int).drop_first() =~= gv.skip(i + 1));
        }
        i = i + 1;
    }
    proof {
        assert(gv.skip(i as int) =~= Seq::<Option<Guard>>::empty());
    }
    cur
}

proof fn lemma_bind_step(
    env: Seq<(Seq<char>, Val)>,
    p: Seq<String>,
    a: Seq<Val>,
    i: int,
)
    requires
        0 <= i < p.len(),
        p.len() == a.len(),
    ensures
        bind_params(env, p.skip(i), a.skip(i)) == bind_params(
            env.push((p[i]@, a[i])),
            p.skip(i + 1),
            a.skip(i + 1),
        ),
{
    assert(p.skip(i)[0] == p[i]);
    assert(a.skip(i)[0] == a[i]);
    assert(p.skip(i).drop_first() =~= p.skip(i + 1));
    assert(a.skip(i).drop_first() =~= a.skip(i + 1));
}

fn bind_env(env: &Vec<(String, Unit)>, params: &Vec<String>, args: &Vec<Unit>) -> (r: Vec<(String, Unit)>)
    requires
        env_wf(env@),
        units_wf(args@),
        params@.len() == args@.len(),
    ensures
        env_wf(r@),
        env_view(r@) == bind_params(env_view(env@), params@, vals_view(args@)),
{
    let mut r = dup_env(env);
    let ghost av = vals_view(args@);
    let mut i: usize = 0;
    proof {
        assert(params@.skip(0) =~= params@);
        assert(av.skip(0) =~= av);
    }
    while i < args.len()
        invariant
            i <= args@.len(),
            params@.len() == args@.len(),
            units_wf(args@),
            env_wf(r@),
            av == vals_view(args@),
            bind_params(env_view(env@), params@, av) == bind_params(env_view(r@), params@.skip(i as int), av.skip(i as int)),
        decreases args@.len() - i,
    {
        proof {
            lemma_bind_step(env_view(r@), params@, av, i as int);
        }
        let ghost before = r@;
        let u = args[i].duplicate();
        r.push((params[i].clone(), u));
        proof {
            assert(av[i as int] == unit_val(args@[i as int]));
            assert forall|k: int| 0 <= k < r@.len() implies #[trigger] env_view(r@)[k] == env_view(before).push((params@[i as int]@, av[i as int]))[k] by {
                if k < before.len() {
                    assert(r@[k] == before[k]);
                }
            }
            assert(env_view(r@) =~= env_view(before).push((params@[i as int]@, av[i as int])));
            assert forall|k: int| 0 <= k < r@.len() implies (#[trigger] r@[k]).1.wf() by {
                if k < before.len() {
                    assert(r@[k] == before[k]);
                }
            }
        }
        i = i + 1;
    }
    proof {
        assert(params@.skip(i as int) =~= Seq::<String>::empty());
    }
    r
}

fn run_text(db: &Database, env: &Vec<(String, Unit)>, res: &Vec<String>, fuel: usize, text: &Vec<char>) -> (r: Result<Unit, ErrorCode>)
    requires
        db.wf(),
        env_wf(env@),
    ensures
        outcome(r, eval_text(*db, env_view(env@), names_view(res@), fuel as nat, text@)),
    decreases fuel, 0int, 0int,
{
    if fuel == 0 {
        return Err(ErrorCode::Parse);
    }
    let t = tokenize(text);
    match parse_token_list(text, &t) {
        None => Err(ErrorCode::Parse),
        Some(e) => run_tree(db, env, res, fuel - 1, text, &t, &e),
    }
}

fn run_radian(db: &Database, env: &Vec<(String, Unit)>, res: &Vec<String>, fuel: usize) -> (u: Unit)
    requires
        db.wf(),
        env_wf(env@),
    ensures
        u.wf(),
        unit_val(u) == radian_val(*db, env_view(env@), names_view(res@), fuel as nat),
    decreases fuel, 1int, 0int,
{
    let rad = to_chars("radian");
    match run_text(db, env, res, fuel, &rad) {
        Ok(u) => u,
        Err(_) => Unit::new(),
    }
}

fn run_validate(
    db: &Database,
    env: &Vec<(String, Unit)>,
    res: &Vec<String>,
    fuel: usize,
    arg: &Unit,
    unit: &Option<String>,
    dom: &Option<Interval>,
) -> (r: Result<Option<(Magnitude, Interval)>, ErrorCode>)
    requires
        db.wf(),
        env_wf(env@),
        arg.wf(),
    ensures
        match r {
            Ok(g) => validate_arg(*db, env_view(env@), names_view(res@), fuel as nat, unit_val(*arg), opt_text(*unit), opt_interval(*dom)) == Ok::<Option<Guard>, ErrorCode>(guard_view(g)),
            Err(c) => validate_arg(*db, env_view(env@), names_view(res@), fuel as nat, unit_val(*arg), opt_text(*unit), opt_interval(*dom)) == Err::<Option<Guard>, ErrorCode>(c),
        },
    decreases fuel, 1int, 0int,
{
    let value: Magnitude = match unit {
        Some(u) => {
            let uc = to_chars(u.as_str());
            match run_text(db, env, res, fuel, &uc) {
                Err(c) => {
                    return Err(c);
                },
                Ok(uv) => {
                    if !arg.is_conformable(&uv) {
                        return Err(ErrorCode::BadFuncArg);
                    }
                    let (_, um) = uv.into_parts();
                    Magnitude::Quotient(Box::new(arg.magnitude().duplicate()), Box::new(um))
                },
            }
        },
        None => arg.magnitude().duplicate(),
    };
    match dom {
        None => Ok(None),
        Some(iv) => {
            if iv.excludes(&value) {
                return Err(ErrorCode::NotInDomain);
            }
            Ok(Some((value, dup_interval(iv))))
        },
    }
}

fn run_check(
    db: &Database,
    env: &Vec<(String, Unit)>,
    res: &Vec<String>,
    fuel: usize,
    f: &FunctionDef,
    args: &Vec<Unit>,
    i: usize,
) -> (r: Result<Vec<Option<(Magnitude, Interval)>>, ErrorCode>)
    requires
        db.wf(),
        env_wf(env@),
        units_wf(args@),
        i <= args@.len(),
    ensures
        match r {
            Ok(g) => check_args(*db, env_view(env@), names_view(res@), fuel as nat, *f, vals_view(args@), i as int) == Ok::<Seq<Option<Guard>>, ErrorCode>(guards_view(g@)),
            Err(c) => check_args(*db, env_view(env@), names_view(res@), fuel as nat, *f, vals_view(args@), i as int) == Err::<Seq<Option<Guard>>, ErrorCode>(c),
        },
    decreases fuel, 2int, args@.len() - i,
{
    if i >= args.len() {
        let v: Vec<Option<(Magnitude, Interval)>> = Vec::new();
        assert(guards_view(v@) =~= Seq::<Option<Guard>>::empty());
        return Ok(v);
    }
    let unit: Option<String> = if i < f.units.len() {
        match &f.units[i] {
            Some(u) => Some(u.clone()),
            None => None,
        }
    } else {
        None
    };
    let dom: Option<Interval> = if i < f.domain.len() {
        match &f.domain[i] {
            Some(d) => Some(dup_interval(d)),
            None => None,
        }
    } else {
        None
    };
    proof {
        assert(opt_text(unit) == opt_text_at(f.units@, i as int));
        assert(opt_interval(dom) == interval_at(f.domain@, i as int));
        assert(vals_view(args@)[i as int] == unit_val(args@[i as int]));
    }
    let g = match run_validate(db, env, res, fuel, &args[i], &unit, &dom) {
        Ok(g) => g,
        Err(c) => {
            return Err(c);
        },
    };
    let mut rest = match run_check(db, env, res, fuel, f, args, i + 1) {
        Ok(r) => r,
        Err(c) => {
            return Err(c);
        },
    };
    let ghost rv = rest@;
    rest.insert(0, g);
    proof {
        assert(guards_view(rest@) =~= seq![guard_view(g)] + guards_view(rv));
    }
    Ok(rest)
}

fn run_user(
    db: &Database,
    env: &Vec<(String, Unit)>,
    res: &Vec<String>,
    fuel: usize,
    f: &FunctionDef,
    args: Vec<Unit>,
) -> (r: Result<Unit, ErrorCode>)
    requires
        db.wf(),
        env_wf(env@),
        units_wf(args@),
    ensures
        outcome(r, call_user(*db, env_view(env@), names_view(res@), fuel as nat, *f, vals_view(args@))),
    decreases fuel, 3int, 0int,
{
    if args.len() != f.params.len() {
        return Err(ErrorCode::Parse);
    }
    if f.params.len() == 0 {
        let body = to_chars(f.forward.as_str());
        return run_text(db, env, res, fuel, &body);
    }
    let guards: Vec<Option<(Magnitude, Interval)>> = if f.noerror {
        let v: Vec<Option<(Magnitude, Interval)>> = Vec::new();
        assert(guards_view(v@) =~= Seq::<Option<Guard>>::empty());
        v
    } else {
        match run_check(db, env, res, fuel, f, &args, 0) {
            Ok(g) => g,
            Err(c) => {
                return Err(c);
            },
        }
    };
    let env2 = bind_env(env, &f.params, &args);
    let body = to_chars(f.forward.as_str());
    match run_text(db, &env2, res, fuel, &body) {
        Err(c) => Err(c),
        Ok(v) => Ok(wrap_guards(v, &guards)),
    }
}

fn run_inverse(
    db: &Database,
    env: &Vec<(String, Unit)>,
    res: &Vec<String>,
    fuel: usize,
    name: &String,
    arg: Unit,
) -> (r: Result<Unit, ErrorCode>)
    requires
        db.wf(),
        env_wf(env@),
        arg.wf(),
    ensures
        outcome(r, call_inverse(*db, env_view(env@), names_view(res@), fuel as nat, name@, unit_val(arg))),
    decreases fuel, 3int, 0int,
{
    let f = match db.function(name) {
        None => {
            return Err(ErrorCode::UnknownUnit);
        },
        Some(f) => f,
    };
    if f.params.len() != 1 {
        return Err(ErrorCode::Parse);
    }
    let rev = match &f.reverse {
        None => {
            return Err(ErrorCode::Parse);
        },
        Some(r) => r,
    };
    let guard: Option<(Magnitude, Interval)> = if f.noerror {
        None
    } else {
        match run_validate(db, env, res, fuel, &arg, &f.inverse_unit, &f.range) {
            Ok(g) => g,
            Err(c) => {
                return Err(c);
            },
        }
    };
    let ghost av = unit_val(arg);
    let mut env2 = dup_env(env);
    let ghost before = env2@;
    env2.push((name.clone(), arg));
    proof {
        assert forall|k: int| 0 <= k < env2@.len() implies #[trigger] env_view(env2@)[k] == env_view(env@).push((name@, av))[k] by {
            if k < before.len() {
                assert(env2@[k] == before[k]);
            }
        }
        assert(env_view(env2@) =~= env_view(env@).push((name@, av)));
        assert forall|k: int| 0 <= k < env2@.len() implies (#[trigger] env2@[k]).1.wf() by {
            if k < before.len() {
                assert(env2@[k] == before[k]);
            }
        }
    }
    let body = to_chars(rev.as_str());
    match run_text(db, &env2, res, fuel, &body) {
        Err(c) => Err(c),
        Ok(v) => {
            let mut gs: Vec<Option<(Magnitude, Interval)>> = Vec::new();
            gs.push(guard);
            proof {
                assert(guards_view(gs@) =~= seq![guard_view(guard)]);
            }
            Ok(wrap_guards(v, &gs))
        },
    }
}

fn apply_fn(name: &String, arg: Unit) -> (r: Unit)
    requires
        arg.wf(),
    ensures
        r.wf(),
        unit_val(r) == (unit_val(arg).0, MagView::Function(name@, Box::new(unit_val(arg).1))),
{
    let (d, m) = arg.into_parts();
    Unit::from_parts(d, Magnitude::Function(name.clone(), Box::new(m)))
}

fn outside_domain(f: &Vec<char>, m: &Magnitude) -> (b: bool)
    ensures
        b == outside_builtin_domain(f@, mag_view(*m)),
{
    proof {
        reveal_strlit("acos");
        reveal_strlit("asin");
        reveal_strlit("asecant");
        reveal_strlit("acsc");
        reveal_strlit("acosh");
        reveal_strlit("atanh");
        reveal_strlit("asech");
        reveal_strlit("acoth");
        reveal_strlit("factorial");
        reveal_strlit("acsch");
        reveal_strlit("csc");
        reveal_strlit("cot");
        reveal_strlit("csch");
        reveal_strlit("coth");
        reveal_strlit("Gamma");
    }
    let x = match m.exact() {
        Some(x) => x,
        None => return false,
    };
    let p = x.0;
    let q = x.1;
    if p == i128::MIN {
        proof {
            assert(abs_int(p as int) > q);
        }
        return chars_eq_str(f, "acos") || chars_eq_str(f, "asin") || chars_eq_str(f, "acosh") || chars_eq_str(f, "atanh")
            || chars_eq_str(f, "asech") || chars_eq_str(f, "factorial");
    }
    let a = if p < 0 {
        -p
    } else {
        p
    };
    ((chars_eq_str(f, "acos") || chars_eq_str(f, "asin")) && a > q)
        || ((chars_eq_str(f, "asecant") || chars_eq_str(f, "acsc")) && a < q)
        || (chars_eq_str(f, "acosh") && p < q)
        || (chars_eq_str(f, "atanh") && a >= q)
        || (chars_eq_str(f, "asech") && (p <= 0 || p > q))
        || (chars_eq_str(f, "acoth") && a <= q)
        || (chars_eq_str(f, "factorial") && (p < 0 || p % q != 0))
        || ((chars_eq_str(f, "acsch") || chars_eq_str(f, "csc") || chars_eq_str(f, "cot") || chars_eq_str(f, "csch")
            || chars_eq_str(f, "coth") || chars_eq_str(f, "Gamma")) && p == 0)
}

fn angle_in_unit(name: &String, arg: Unit, rad: Unit) -> (r: Result<Unit, ErrorCode>)
    requires
        arg.wf(),
        rad.wf(),
    ensures
        outcome(
            r,
            if unit_val(arg).0 == unit_val(rad).0 {
                checked_fn(name@, MagView::Quotient(Box::new(unit_val(arg).1), Box::new(unit_val(rad).1)))
            } else {
                Err(ErrorCode::Parse)
            },
        ),
{
    if !arg.is_conformable(&rad) {
        return Err(ErrorCode::Parse);
    }
    let (_, m) = arg.into_parts();
    let (_, rm) = rad.into_parts();
    let q = Magnitude::Quotient(Box::new(m), Box::new(rm));
    assert(mag_view(q) == MagView::Quotient(Box::new(mag_view(m)), Box::new(mag_view(rm))));
    let nc = to_chars(name.as_str());
    if outside_domain(&nc, &q) {
        return Err(ErrorCode::Parse);
    }
    let f = Magnitude::Function(name.clone(), Box::new(q));
    assert(mag_view(f) == MagView::Function(name@, Box::new(mag_view(q))));
    Ok(Unit::from_parts(Dimensions::empty(), f))
}

fn angle_out_unit(name: &String, arg: Unit, rad: Unit) -> (r: Unit)
    requires
        arg.wf(),
        rad.wf(),
    ensures
        r.wf(),
        unit_val(r) == (unit_val(rad).0, MagView::Product(
            Box::new(unit_val(rad).1),
            Box::new(MagView::Function(name@, Box::new(unit_val(arg).1))),
        )),
{
    let (rd, rm) = rad.into_parts();
    let (_, m) = arg.into_parts();
    let f = Magnitude::Function(name.clone(), Box::new(m));
    assert(mag_view(f) == MagView::Function(name@, Box::new(mag_view(m))));
    let p = Magnitude::Product(Box::new(rm), Box::new(f));
    assert(mag_view(p) == MagView::Product(Box::new(mag_view(rm)), Box::new(mag_view(f))));
    Unit::from_parts(rd, p)
}

fn table_result(name: &String, arg: Unit, u: Unit) -> (r: Unit)
    requires
        arg.wf(),
        u.wf(),
    ensures
        r.wf(),
        unit_val(r) == (unit_val(u).0, MagView::Product(
            Box::new(MagView::TableLookup(name@, Box::new(unit_val(arg).1))),
            Box::new(unit_val(u).1),
        )),
{
    let (ud, um) = u.into_parts();
    let (_, m) = arg.into_parts();
    let tl = Magnitude::TableLookup(name.clone(), Box::new(m));
    assert(mag_view(tl) == MagView::TableLookup(name@, Box::new(mag_view(m))));
    let p = Magnitude::Product(Box::new(tl), Box::new(um));
    assert(mag_view(p) == MagView::Product(Box::new(mag_view(tl)), Box::new(mag_view(um))));
    Unit::from_parts(ud, p)
}

#[verifier::spinoff_prover]
#[verifier::rlimit(80)]
fn run_builtin(
    db: &Database,
    env: &Vec<(String, Unit)>,
    res: &Vec<String>,
    fuel: usize,
    name: &String,
    arg: Unit,
) -> (r: Result<Unit, ErrorCode>)
    requires
        db.wf(),
        env_wf(env@),
        arg.wf(),
    ensures
        outcome(r, call_builtin(*db, env_view(env@), names_view(res@), fuel as nat, name@, unit_val(arg))),
    decreases fuel, 3int, 0int,
{
    let nc = to_chars(name.as_str());
    let ghost av = unit_val(arg);
    let ghost spec = call_builtin(*db, env_view(env@), names_view(res@), fuel as nat, name@, av);
    match builtin_of(&nc) {
        Some(Builtin::Root(n)) => root_unit(arg, n),
        Some(Builtin::Abs) => Ok(apply_fn(name, arg)),
        Some(Builtin::Plain) => {
            if !arg.is_dimensionless() {
                return Err(ErrorCode::Parse);
            }
            if logarithm(&nc) && (arg.magnitude().is_known_zero() || arg.magnitude().is_known_negative()) {
                return Err(ErrorCode::NotInDomain);
            }
            if outside_domain(&nc, arg.magnitude()) {
                return Err(ErrorCode::Parse);
            }
            Ok(apply_fn(name, arg))
        },
        Some(Builtin::AngleIn) => {
            if arg.is_dimensionless() {
                if outside_domain(&nc, arg.magnitude()) {
                    return Err(ErrorCode::Parse);
                }
                return Ok(apply_fn(name, arg));
            }
            let rad = run_radian(db, env, res, fuel);
            angle_in_unit(name, arg, rad)
        },
        Some(Builtin::AngleOut) => {
            if !arg.is_dimensionless() || outside_domain(&nc, arg.magnitude()) {
                return Err(ErrorCode::Parse);
            }
            let rad = run_radian(db, env, res, fuel);
            Ok(angle_out_unit(name, arg, rad))
        },
        None => match db.table(name) {
            Some(tb) => {
                if !arg.is_dimensionless() {
                    return Err(ErrorCode::Parse);
                }
                let uc = to_chars(tb.unit.as_str());
                match run_text(db, env, res, fuel, &uc) {
                    Err(c) => Err(c),
                    Ok(u) => Ok(table_result(name, arg, u)),
                }
            },
            None => Err(ErrorCode::UnknownUnit),
        },
    }
}

fn run_named(
    db: &Database,
    env: &Vec<(String, Unit)>,
    res: &Vec<String>,
    fuel: usize,
    name: &String,
    args: Vec<Unit>,
) -> (r: Result<Unit, ErrorCode>)
    requires
        db.wf(),
        env_wf(env@),
        units_wf(args@),
    ensures
        outcome(r, call_named(*db, env_view(env@), names_view(res@), fuel as nat, name@, vals_view(args@))),
    decreases fuel, 4int, 0int,
{
    match db.function(name) {
        Some(f) => run_user(db, env, res, fuel, f, args),
        None => {
            if args.len() != 1 {
                return Err(ErrorCode::Parse);
            }
            let mut args = args;
            let ghost av = vals_view(args@);
            let a = args.pop().unwrap();
            proof {
                assert(av[0] == unit_val(a));
            }
            run_builtin(db, env, res, fuel, name, a)
        },
    }
}

fn run_entry(
    db: &Database,
    env: &Vec<(String, Unit)>,
    res: &Vec<String>,
    fuel: usize,
    name: &String,
    entry: &UnitEntry,
) -> (r: Result<Unit, ErrorCode>)
    requires
        db.wf(),
        env_wf(env@),
    ensures
        outcome(r, resolve_entry(*db, env_view(env@), names_view(res@), fuel as nat, name@, *entry)),
    decreases fuel, 1int, 0int,
{
    match entry {
        UnitEntry::Primitive => Ok(Unit::from_parts(Dimensions::primitive(name.clone()), Magnitude::One)),
        UnitEntry::DimensionlessPrimitive => Ok(Unit::new()),
        UnitEntry::Derived(def) => {
            if has_name(res, name) {
                return Err(ErrorCode::Parse);
            }
            let res2 = with_name(res, name);
            let body = to_chars(def.as_str());
            run_text(db, env, &res2, fuel, &body)
        },
    }
}

#[verifier::spinoff_prover]
#[verifier::rlimit(80)]
fn run_name(db: &Database, env: &Vec<(String, Unit)>, res: &Vec<String>, fuel: usize, name: &String) -> (r:
    Result<Unit, ErrorCode>)
    requires
        db.wf(),
        env_wf(env@),
    ensures
        outcome(r, resolve_name(*db, env_view(env@), names_view(res@), fuel as nat, name@)),
    decreases fuel, 4int, 0int,
{
    match env_lookup(env, name) {
        Some(u) => {
            return Ok(u);
        },
        None => {},
    }
    match db.unit(name) {
        Some(e) => {
            return run_entry(db, env, res, fuel, name, e);
        },
        None => {},
    }
    let nc = to_chars(name.as_str());
    let cands = plural_forms(&nc);
    proof {
        assert(cands@.map_values(|v: Vec<char>| v@) =~= plural_candidates(name@));
    }
    match first_unit_name(db, &cands) {
        Some(sing) => {
            match db.unit(&sing) {
                Some(e) => {
                    return run_entry(db, env, res, fuel, &sing, e);
                },
                None => {
                    proof {
                        lemma_first_unit(db.unit_map(), plural_candidates(name@));
                    }
                    return Err(ErrorCode::Parse);
                },
            }
        },
        None => {},
    }
    match db.find_prefix_by_name(name) {
        Some(d) => {
            let dc = to_chars(d.as_str());
            return run_text(db, env, res, fuel, &dc);
        },
        None => {},
    }
    match db.find_with_prefix(name) {
        Some((d, rest)) => {
            let dc = to_chars(d.as_str());
            let pv = match run_text(db, env, res, fuel, &dc) {
                Ok(v) => v,
                Err(c) => {
                    return Err(c);
                },
            };
            match db.unit(&rest) {
                Some(e) => {
                    let uv = match run_entry(db, env, res, fuel, &rest, e) {
                        Ok(v) => v,
                        Err(c) => {
                            return Err(c);
                        },
                    };
                    mul_units(uv, pv)
                },
                None => Err(ErrorCode::Parse),
            }
        },
        None => Err(ErrorCode::UnknownUnit),
    }
}

fn run_tree(
    db: &Database,
    env: &Vec<(String, Unit)>,
    res: &Vec<String>,
    fuel: usize,
    s: &Vec<char>,
    t: &Vec<Token>,
    e: &Expr,
) -> (r: Result<Unit, ErrorCode>)
    requires
        db.wf(),
        env_wf(env@),
    ensures
        outcome(r, eval_tree(*db, env_view(env@), names_view(res@), fuel as nat, s@, t@, *e)),
    decreases fuel, 6int, expr_size(*e),
{
    match e {
        Expr::Num(i) => match leaf(s, t, *i) {
            None => Err(ErrorCode::Parse),
            Some(txt) => number_unit(t[*i].kind, &txt),
        },
        Expr::Name(i) => match leaf(s, t, *i) {
            None => Err(ErrorCode::Parse),
            Some(txt) => {
                let n = from_chars(txt.as_slice());
                run_name(db, env, res, fuel, &n)
            },
        },
        Expr::Call(i, l) => match leaf(s, t, *i) {
            None => Err(ErrorCode::Parse),
            Some(txt) => {
                let n = from_chars(txt.as_slice());
                match run_args(db, env, res, fuel, s, t, l) {
                    Err(c) => Err(c),
                    Ok(args) => run_named(db, env, res, fuel, &n, args),
                }
            },
        },
        Expr::Inverse(i, a) => match leaf(s, t, *i) {
            None => Err(ErrorCode::Parse),
            Some(txt) => {
                let n = from_chars(txt.as_slice());
                match run_tree(db, env, res, fuel, s, t, a) {
                    Err(c) => Err(c),
                    Ok(v) => run_inverse(db, env, res, fuel, &n, v),
                }
            },
        },
        Expr::Neg(a) => match run_tree(db, env, res, fuel, s, t, a) {
            Err(c) => Err(c),
            Ok(v) => Ok(negate_unit(v)),
        },
        Expr::Per(a) => match run_tree(db, env, res, fuel, s, t, a) {
            Err(c) => Err(c),
            Ok(v) => {
                let mut v = v;
                v.invert();
                Ok(v)
            },
        },
        Expr::Pow(a, b) => match run_tree(db, env, res, fuel, s, t, a) {
            Err(c) => Err(c),
            Ok(x) => match run_tree(db, env, res, fuel, s, t, b) {
                Err(c) => Err(c),
                Ok(y) => power_unit(x, y),
            },
        },
        Expr::Mul(a, b) => match run_tree(db, env, res, fuel, s, t, a) {
            Err(c) => Err(c),
            Ok(x) => match run_tree(db, env, res, fuel, s, t, b) {
                Err(c) => Err(c),
                Ok(y) => mul_units(x, y),
            },
        },
        Expr::Div(a, b) => match run_tree(db, env, res, fuel, s, t, a) {
            Err(c) => Err(c),
            Ok(x) => match run_tree(db, env, res, fuel, s, t, b) {
                Err(c) => Err(c),
                Ok(y) => div_units(x, y),
            },
        },
        Expr::NumDiv(a, b) => match run_tree(db, env, res, fuel, s, t, a) {
            Err(c) => Err(c),
            Ok(x) => match run_tree(db, env, res, fuel, s, t, b) {
                Err(c) => Err(c),
                Ok(y) => {
                    if !x.is_dimensionless() || !y.is_dimensionless() {
                        Err(ErrorCode::Parse)
                    } else {
                        div_units(x, y)
                    }
                },
            },
        },
        Expr::Juxt(a, b) => match run_tree(db, env, res, fuel, s, t, a) {
            Err(c) => Err(c),
            Ok(x) => {
                if x.is_dimensionless() && x.magnitude().is_known_zero() {
                    match run_tree(db, env, res, fuel, s, t, b) {
                        Ok(y) => mul_units(x, y),
                        Err(c) => {
                            if c == ErrorCode::UnknownUnit {
                                Ok(x)
                            } else {
                                Err(c)
                            }
                        },
                    }
                } else {
                    match run_tree(db, env, res, fuel, s, t, b) {
                        Err(c) => Err(c),
                        Ok(y) => mul_units(x, y),
                    }
                }
            },
        },
        Expr::Add(a, b) => match run_tree(db, env, res, fuel, s, t, a) {
            Err(c) => Err(c),
            Ok(x) => match run_tree(db, env, res, fuel, s, t, b) {
                Err(c) => Err(c),
                Ok(y) => {
                    if x.is_conformable(&y) {
                        let mut x = x;
                        let _ = x.add(y);
                        Ok(x)
                    } else {
                        Err(ErrorCode::BadSum)
                    }
                },
            },
        },
        Expr::Sub(a, b) => match run_tree(db, env, res, fuel, s, t, a) {
            Err(c) => Err(c),
            Ok(x) => match run_tree(db, env, res, fuel, s, t, b) {
                Err(c) => Err(c),
                Ok(y) => {
                    let y = negate_unit(y);
                    if x.is_conformable(&y) {
                        let mut x = x;
                        let _ = x.add(y);
                        Ok(x)
                    } else {
                        Err(ErrorCode::BadSum)
                    }
                },
            },
        },
    }
}

fn run_args(
    db: &Database,
    env: &Vec<(String, Unit)>,
    res: &Vec<String>,
    fuel: usize,
    s: &Vec<char>,
    t: &Vec<Token>,
    l: &ExprList,
) -> (r: Result<Vec<Unit>, ErrorCode>)
    requires
        db.wf(),
        env_wf(env@),
    ensures
        match r {
            Ok(v) => units_wf(v@) && eval_args(*db, env_view(env@), names_view(res@), fuel as nat, s@, t@, *l) == Ok::<Seq<Val>, ErrorCode>(vals_view(v@)),
            Err(c) => eval_args(*db, env_view(env@), names_view(res@), fuel as nat, s@, t@, *l) == Err::<Seq<Val>, ErrorCode>(c),
        },
    decreases fuel, 6int, list_size(*l),
{
    match l {
        ExprList::Nil => {
            let v: Vec<Unit> = Vec::new();
            assert(vals_view(v@) =~= Seq::<Val>::empty());
            Ok(v)
        },
        ExprList::Cons(e, rest) => match run_tree(db, env, res, fuel, s, t, e) {
            Err(c) => Err(c),
            Ok(v) => match run_args(db, env, res, fuel, s, t, rest) {
                Err(c) => Err(c),
                Ok(vs) => {
                    let ghost before = vs@;
                    let ghost vv = unit_val(v);
                    let mut vs = vs;
                    vs.insert(0, v);
                    proof {
                        assert(vals_view(vs@) =~= seq![vv] + vals_view(before));
                        assert forall|k: int| 0 <= k < vs@.len() implies (#[trigger] vs@[k]).wf() by {
                            if k > 0 {
                                assert(vs@[k] == before[k - 1]);
                            }
                        }
                    }
                    Ok(vs)
                },
            },
        },
    }
}

/// Evaluates the expression text `text` with no variables bound.
pub fn evaluate(db: &Database, text: &Vec<char>) -> (r: Result<Unit, ErrorCode>)
    requires
        db.wf(),
    ensures
        outcome(r, eval_text(*db, Seq::empty(), Seq::empty(), MAX_DEPTH as nat, text@)),
{
    let env: Vec<(String, Unit)> = Vec::new();
    let res: Vec<String> = Vec::new();
    proof {
        assert(env_view(env@) =~= Seq::<(Seq<char>, Val)>::empty());
        assert(names_view(res@) =~= Seq::<Seq<char>>::empty());
    }
    run_text(db, &env, &res, MAX_DEPTH, text)
}

/// Evaluates the expression text `text` with `name` bound to `value`.
pub fn evaluate_with(db: &Database, text: &Vec<char>, name: &String, value: Unit) -> (r: Result<
    Unit,
    ErrorCode,
>)
    requires
        db.wf(),
        value.wf(),
    ensures
        outcome(r, eval_text(*db, seq![(name@, unit_val(value))], Seq::empty(), MAX_DEPTH as nat, text@)),
{
    let ghost vv = unit_val(value);
    let mut env: Vec<(String, Unit)> = Vec::new();
    env.push((name.clone(), value));
    let res: Vec<String> = Vec::new();
    proof {
        assert(env_view(env@) =~= seq![(name@, vv)]);
        assert(names_view(res@) =~= Seq::<Seq<char>>::empty());
    }
    run_text(db, &env, &res, MAX_DEPTH, text)
}

} // verus!
