use gnu_units::database::{parse_function_def, parse_intervals_multi};
use gnu_units::{
    conformable, convert, list_definitions, parse, reload_currency, DefinitionKind, ErrorCode,
    Magnitude, Registry, Unit, UnitsError,
};

/// A small definitions file in the format of the GNU units database.
const DEFS: &str = "\
# primitive units
m        !
kg       !
s        !
K        !
radian   !dimensionless

meter    m
second   s
gram     1|1000 kg
g        gram
minute   60 s

kilo-    1000
k-       kilo
centi-   1|100
c-       centi
milli-   1|1000
micro-   1e-6

inch     2.54 cm
mile     1609.344 m
degR     5|9 K

tempC(x) units=[1;K] domain=[-273.15,) range=[0,) x K + 273.15 K ; tempC / K - 273.15
tempF(x) units=[1;K] domain=[-459.67,) range=[0,) (x + 459.67) degR ; tempF / degR - 459.67
gasmark[degR] 1 734.67 2 759.67 5 834.67 10 959.67
";

fn registry() -> Registry {
    Registry::load(DEFS, &Vec::new(), &Vec::new())
}

/// The value of an arithmetic factor term, in floating point; the exact
/// value the library computes where it has one.
fn value(m: &Magnitude) -> f64 {
    if let Some((n, d)) = m.exact() {
        return n as f64 / d as f64;
    }
    match m {
        Magnitude::One => 1.0,
        Magnitude::Decimal(t) => t.parse::<f64>().unwrap(),
        Magnitude::Integer(v) => *v as f64,
        Magnitude::Product(a, b) => value(a) * value(b),
        Magnitude::Quotient(a, b) => value(a) / value(b),
        Magnitude::Sum(a, b) => value(a) + value(b),
        Magnitude::Negation(a) => -value(a),
        Magnitude::Reciprocal(a) => 1.0 / value(a),
        Magnitude::IntPower(a, n) => value(a).powi(*n),
        Magnitude::Root(a, n) => value(a).powf(1.0 / f64::from(*n)),
        Magnitude::RealPower(a, b) => value(a).powf(value(b)),
        other => panic!("not an arithmetic term: {other:?}"),
    }
}

/// The points of a table of the database, sorted by input.
fn points(reg: &Registry, name: &str) -> Vec<(f64, f64)> {
    let t = reg.db().table(&name.to_string()).expect("table");
    let nums: Vec<f64> = t.words.iter().filter_map(|w| w.parse::<f64>().ok()).collect();
    let mut p: Vec<(f64, f64)> = nums.chunks_exact(2).map(|c| (c[0], c[1])).collect();
    p.sort_by(|a, b| a.0.partial_cmp(&b.0).unwrap());
    p
}

/// The value of any factor term against the database of `reg`; `None`
/// when a check the term carries fails.
fn eval_in(reg: &Registry, m: &Magnitude) -> Option<f64> {
    let ev = |x: &Magnitude| eval_in(reg, x);
    Some(match m {
        Magnitude::Function(f, a) => {
            let x = ev(a)?;
            match f.as_str() {
                "round" => x.round(),
                "asin" => x.asin(),
                "sin" => x.sin(),
                "abs" => x.abs(),
                "ln" | "log" | "log2" if x <= 0.0 => return None,
                "ln" => x.ln(),
                other => panic!("function {other} not covered"),
            }
        }
        Magnitude::TableLookup(t, a) => {
            let x = ev(a)?;
            let p = points(reg, t);
            let w = p.windows(2).find(|w| w[0].0 <= x && x <= w[1].0)?;
            w[0].1 + (x - w[0].0) / (w[1].0 - w[0].0) * (w[1].1 - w[0].1)
        }
        Magnitude::TableInverse(t, a) => {
            let y = ev(a)?;
            let p = points(reg, t);
            let w = p.windows(2).find(|w| w[0].1 <= y && y <= w[1].1)?;
            w[0].0 + (y - w[0].1) / (w[1].1 - w[0].1) * (w[1].0 - w[0].0)
        }
        Magnitude::Guarded(v, c, i) => {
            let x = ev(c)?;
            let lo = if i.min.is_empty() { f64::NEG_INFINITY } else { i.min.parse().unwrap() };
            let hi = if i.max.is_empty() { f64::INFINITY } else { i.max.parse().unwrap() };
            let ok_lo = if i.min_open { x > lo } else { x >= lo };
            let ok_hi = if i.max_open { x < hi } else { x <= hi };
            if !(ok_lo && ok_hi) {
                return None;
            }
            ev(v)?
        }
        Magnitude::Product(a, b) => ev(a)? * ev(b)?,
        Magnitude::Quotient(a, b) => ev(a)? / ev(b)?,
        Magnitude::Sum(a, b) => ev(a)? + ev(b)?,
        Magnitude::Negation(a) => -ev(a)?,
        Magnitude::Reciprocal(a) => 1.0 / ev(a)?,
        Magnitude::IntPower(a, n) => ev(a)?.powi(*n),
        Magnitude::Root(a, n) => {
            let x = ev(a)?;
            if x < 0.0 {
                return None;
            }
            x.powf(1.0 / f64::from(*n))
        }
        Magnitude::RealPower(a, b) => ev(a)?.powf(ev(b)?),
        other => value(other),
    })
}

fn factor_in(reg: &Registry, u: Unit) -> f64 {
    let (_, m) = u.into_parts();
    eval_in(reg, &m).expect("a value")
}

fn factor_of(u: Unit) -> f64 {
    let (_, m) = u.into_parts();
    value(&m)
}

#[test]
fn units_error_copy_semantics() {
    let source = UnitsError(ErrorCode::BadSum);

    let copy = source;

    assert_eq!(copy, source);
}

#[test]
fn lib_error_on_unary_plus() {
    let reg = registry();

    let result = Unit::parse(&reg, "+5");

    assert!(result.is_err());
}

#[test]
fn integration_error_on_unary_plus() {
    let reg = registry();

    let result = Unit::parse(&reg, "+5");

    assert!(result.is_err());
}

#[test]
fn all_definitions_have_non_empty_names() {
    let reg = registry();
    let defs = list_definitions(&reg);

    for d in defs.iter() {
        assert!(!d.name.is_empty(), "found a definition with an empty name");
    }
}

#[test]
fn base_units_dimensionless_is_empty() {
    let reg = registry();
    let unit = Unit::parse(&reg, "42").unwrap();

    let base = unit.base_units();

    assert_eq!(base, "");
}

#[test]
fn base_units_of_dimensionless_is_empty() {
    let reg = registry();
    let unit = Unit::parse(&reg, "42").unwrap();

    let result = unit.base_units();

    assert_eq!(result, "");
}

#[test]
fn root_even_negative_is_error() {
    let reg = registry();
    let mut unit = Unit::parse(&reg, "-4").unwrap();

    let result = unit.root(2);

    assert!(result.is_err(), "even root of negative should fail");
}

#[test]
fn root_odd_negative_is_error() {
    let reg = registry();
    let mut unit = Unit::parse(&reg, "-8").unwrap();

    let result = unit.root(3);

    assert!(
        result.is_err(),
        "odd root of negative should fail (matching C behavior)"
    );
}

#[test]
fn list_definitions_returns_independent_copy() {
    let reg = registry();
    let mut first = list_definitions(&reg);
    let first_len = first.len();
    first.clear();

    let second = list_definitions(&reg);

    assert_eq!(second.len(), first_len);
}

#[test]
fn rational_exponent_one_third() {
    let reg = registry();

    let result = Unit::parse(&reg, "m^(1|3)");

    assert!(
        result.is_err(),
        "m^(1|3) should fail (integer-only dimension exponents)"
    );
}

#[test]
fn non_divisible_root_returns_not_root() {
    let reg = registry();

    let result = Unit::parse(&reg, "m^(1|3)");

    assert!(result.is_err());
    assert_eq!(result.unwrap_err().code(), ErrorCode::NotRoot);
}

#[test]
fn error_on_add_incompatible_dimensions() {
    let reg = registry();
    let mut a = Unit::parse(&reg, "m").unwrap();
    let b = Unit::parse(&reg, "kg").unwrap();

    let result = a.add(b);

    assert!(result.is_err());
    assert_eq!(result.unwrap_err().code(), ErrorCode::BadSum);
}

#[test]
fn error_on_negative_pow() {
    let reg = registry();
    let mut a = Unit::parse(&reg, "3").unwrap();

    let result = a.pow(-1);

    assert!(result.is_err());
}

#[test]
fn km_is_conformable_with_mile() {
    let reg = registry();
    let km = Unit::parse(&reg, "km").unwrap();
    let miles = Unit::parse(&reg, "mile").unwrap();

    assert!(km.is_conformable(&miles));
}

#[test]
fn m_is_not_conformable_with_kg() {
    let reg = registry();
    let m = Unit::parse(&reg, "m").unwrap();
    let kg = Unit::parse(&reg, "kg").unwrap();

    assert!(!m.is_conformable(&kg));
}

#[test]
fn error_on_conformable_invalid_expr() {
    let reg = registry();

    let result = conformable(&reg, "invalidUnitXYZ999");

    assert!(result.is_err());
}

#[test]
fn list_definitions_not_empty() {
    // a database of the size of the GNU units one: the fixture plus
    // twelve hundred derived units
    let mut text = String::from(DEFS);
    for i in 0..1200 {
        text.push_str(&format!("unit{i:04} {i} m\n"));
    }
    let reg = Registry::load(&text, &Vec::new(), &Vec::new());

    let defs = list_definitions(&reg);

    assert!(defs.len() > 1000);
}

#[test]
fn list_definitions_sorted_alphabetically() {
    let reg = registry();
    let defs = list_definitions(&reg);

    let names: Vec<&str> = defs.iter().map(|d| d.name.as_str()).collect();
    let mut sorted = names.clone();
    sorted.sort_unstable();
    assert_eq!(names, sorted);
}

#[test]
fn error_code_on_unknown_unit() {
    let reg = registry();

    let err = Unit::parse(&reg, "invalidUnitXYZ999").err().unwrap();

    assert_eq!(err.code(), ErrorCode::UnknownUnit);
}

// ---- arithmetic and conversion scenarios ----

#[test]
fn multiply_five_by_three() {
    let reg = registry();
    let mut a = Unit::parse(&reg, "5").unwrap();
    let b = Unit::parse(&reg, "3").unwrap();

    a.multiply(b).unwrap();

    assert_eq!(factor_of(a), 15.0);
}

#[test]
fn divide_ten_by_two() {
    let reg = registry();
    let mut a = Unit::parse(&reg, "10").unwrap();
    let b = Unit::parse(&reg, "2").unwrap();

    a.divide(b).unwrap();

    assert_eq!(factor_of(a), 5.0);
}

#[test]
fn add_three_and_seven() {
    let reg = registry();
    let mut a = Unit::parse(&reg, "3").unwrap();
    let b = Unit::parse(&reg, "7").unwrap();

    a.add(b).unwrap();

    assert_eq!(factor_of(a), 10.0);
}

#[test]
fn invert_five() {
    let reg = registry();
    let mut a = Unit::parse(&reg, "5").unwrap();

    a.invert();

    assert!((factor_of(a) - 0.2).abs() < 1e-12);
}

#[test]
fn pow_three_squared() {
    let reg = registry();
    let mut a = Unit::parse(&reg, "3").unwrap();

    a.pow(2).unwrap();

    assert_eq!(factor_of(a), 9.0);
}

#[test]
fn root_sqrt_nine() {
    let reg = registry();
    let mut a = Unit::parse(&reg, "9").unwrap();

    a.root(2).unwrap();

    assert!((factor_of(a) - 3.0).abs() < 1e-12);
}

#[test]
fn fractional_exponent_dimensionless() {
    let reg = registry();
    let unit = Unit::parse(&reg, "8^(1|3)").unwrap();

    assert!((factor_of(unit) - 2.0).abs() < 1e-9);
}

#[test]
fn parse_power_negative_dimensionless() {
    let reg = registry();
    let unit = Unit::parse(&reg, "2^-1").unwrap();

    assert!((factor_of(unit) - 0.5).abs() < 1e-12);
}

#[test]
fn deeply_nested_parentheses() {
    let reg = registry();
    let unit = Unit::parse(&reg, "(((((((((( 1 ))))))))))").unwrap();

    assert_eq!(factor_of(unit), 1.0);
}

#[test]
fn builtin_factor() {
    let reg = registry();
    for (input, expected) in [
        ("8^(1|3)", 2.0),
        ("asin(1)", std::f64::consts::FRAC_PI_2),
        ("cuberoot(27)", 3.0),
        ("round(3.7)", 4.0),
    ] {
        let v = Unit::parse(&reg, input).unwrap();

        let f = factor_in(&reg, v);
        assert!((f - expected).abs() < 1e-9, "{input} factor = {f}, expected {expected}");
    }
}

#[test]
fn cuberoot_of_27() {
    let reg = registry();
    let unit = Unit::parse(&reg, "cuberoot(27)").unwrap();

    assert!((factor_of(unit) - 3.0).abs() < 1e-9);
}

#[test]
fn error_on_invalid_root() {
    let reg = registry();
    for n in [0, -1] {
        let mut a = Unit::parse(&reg, "9").unwrap();

        let result = a.root(n);

        assert!(result.is_err());
    }
}

#[test]
fn error_on_invalid_parse() {
    let reg = registry();
    for input in ["\0", ")"] {
        let result = Unit::parse(&reg, input);

        assert!(result.is_err(), "parse({input:?}) should fail");
    }
}

#[test]
fn parse_named_unit() {
    let reg = registry();
    for input in ["km", "m", "kg"] {
        let result = Unit::parse(&reg, input);

        assert!(result.is_ok(), "parse({input:?}) should succeed");
        assert!(factor_of(result.unwrap()) > 0.0);
    }
}

#[test]
fn parse_numeric_factor() {
    let reg = registry();
    for (input, expected) in [("5", 5.0), ("3.15", 3.15), ("1e10", 1e10)] {
        let result = Unit::parse(&reg, input);

        assert!(result.is_ok(), "parse({input:?}) should succeed");
        assert!((factor_of(result.unwrap()) - expected).abs() < 1e-6);
    }
}

#[test]
fn convert_compatible_units() {
    let reg = registry();
    for (from, to, expected, tol) in [
        ("km", "m", 1000.0, 1e-9),
        ("inch", "cm", 2.54, 1e-9),
        ("minute", "s", 60.0, 1e-9),
        ("5 km", "mile", 3.107, 0.001),
    ] {
        let result = convert(&reg, from, to);

        assert!(result.is_ok(), "convert({from:?}, {to:?}) should succeed");
        let factor = value(&result.unwrap());
        assert!((factor - expected).abs() < tol, "got {factor}, expected {expected}");
    }
}

#[test]
fn error_on_convert_incompatible() {
    let reg = registry();
    for (from, to) in [
        ("km", "kg"),
        ("invalidUnitXYZ999", "m"),
        ("m", "invalidUnitXYZ999"),
    ] {
        let result = convert(&reg, from, to);

        assert!(result.is_err(), "convert({from:?}, {to:?}) should fail");
    }
}

#[test]
fn convert_to_km_to_m() {
    let reg = registry();
    let km = Unit::parse(&reg, "km").unwrap();
    let m = Unit::parse(&reg, "m").unwrap();

    let result = km.convert_to(m);

    assert!(result.is_ok());
    assert!((value(&result.unwrap()) - 1000.0).abs() < 1e-9);
}

#[test]
fn error_on_convert_to_incompatible_units() {
    let reg = registry();
    let m = Unit::parse(&reg, "m").unwrap();
    let kg = Unit::parse(&reg, "kg").unwrap();

    let result = m.convert_to(kg);

    assert_eq!(result.unwrap_err().code(), ErrorCode::NotANumber);
}

#[test]
fn base_units_of_m_contains_m() {
    let reg = registry();
    let unit = Unit::parse(&reg, "m").unwrap();

    let result = unit.base_units();

    assert!(result.contains('m'), "got {result:?}");
}

#[test]
fn base_units_contains_expected() {
    let reg = registry();
    assert_eq!(Unit::parse(&reg, "m").unwrap().base_units(), "m");
    assert_eq!(Unit::parse(&reg, "kg m/s^2").unwrap().base_units(), "kg m / s s");
}

#[test]
fn parse_m_inverse_has_inverse_dimension() {
    let reg = registry();
    let unit = Unit::parse(&reg, "m^-1").unwrap();

    let base = unit.base_units();

    assert!(base.contains("/ m"), "expected '/ m' in base_units, got: {base}");
    assert_eq!(factor_of(unit), 1.0);
}

#[test]
fn parse_pipe_operator() {
    let reg = registry();
    for (input, expected) in [("1|2", 0.5), ("3|8", 0.375), ("5|9", 5.0 / 9.0)] {
        let unit = Unit::parse(&reg, input).unwrap();

        assert!((factor_of(unit) - expected).abs() < 1e-12);
    }
}

#[test]
fn pipe_numdiv_with_unit() {
    let reg = registry();
    let v = Unit::parse(&reg, "3|8 m").unwrap();

    assert!(v.base_units().contains('m'));
    assert!((factor_of(v) - 0.375).abs() < 1e-12);
}

#[test]
fn per_keyword_inverts() {
    let reg = registry();

    let result = convert(&reg, "per meter", "1/m");

    assert!(result.is_ok());
    assert!((value(&result.unwrap()) - 1.0).abs() < 1e-9);
}

#[test]
fn parse_hex_literal() {
    let reg = registry();
    let unit = Unit::parse(&reg, "0xff").unwrap();

    assert_eq!(factor_of(unit), 255.0);
}

#[test]
fn parse_malformed_hex_is_zero() {
    let reg = registry();
    let unit = Unit::parse(&reg, "0xGG").unwrap();

    assert_eq!(factor_of(unit), 0.0);
}

#[test]
fn parse_error_code_is_e_parse() {
    let reg = registry();

    let err = Unit::parse(&reg, "2 )").unwrap_err();

    assert_eq!(err.code(), ErrorCode::Parse);
}

#[test]
fn to_number_returns_factor() {
    let reg = registry();
    let unit = Unit::parse(&reg, "42").unwrap();

    let result = unit.to_number();

    assert_eq!(value(&result.unwrap()), 42.0);
}

#[test]
fn error_on_to_number() {
    let reg = registry();
    for input in ["m", "kg m/s^2"] {
        let unit = Unit::parse(&reg, input).unwrap();

        let result = unit.to_number();

        assert_eq!(result.unwrap_err().code(), ErrorCode::NotANumber);
    }
}

#[test]
fn add_incompatible_dimensions_returns_badsum() {
    let reg = registry();

    let result = convert(&reg, "m + kg", "m");

    assert_eq!(result.unwrap_err().code(), ErrorCode::BadSum);
}

#[test]
fn prefix_resolution() {
    let reg = registry();
    for (from, to, expected) in [
        ("kilogram", "gram", 1000.0),
        ("milligram", "gram", 0.001),
        ("microsecond", "second", 1e-6),
    ] {
        let result = convert(&reg, from, to);

        assert!(result.is_ok(), "convert({from:?}, {to:?})");
        let f = value(&result.unwrap());
        assert!((f - expected).abs() < expected * 1e-9, "{from}: {f}");
    }
}

#[test]
fn conformable_km_contains_m_and_mile() {
    let reg = registry();

    let result = conformable(&reg, "km").unwrap();

    assert!(result.contains(&"m".to_owned()));
    assert!(result.contains(&"mile".to_owned()));
}

#[test]
fn conformable_does_not_contain_wrong_domain() {
    let reg = registry();

    let result = conformable(&reg, "km").unwrap();

    assert!(!result.contains(&"kg".to_owned()));
    assert!(!result.contains(&"s".to_owned()));
}

#[test]
fn table_dimension_mismatch_returns_bad_func_arg() {
    let reg = registry();

    let result = convert(&reg, "5 m", "gasmark");

    assert_eq!(result.unwrap_err().code(), ErrorCode::BadFuncArg);
}

#[test]
fn table_lookup_gasmark() {
    let reg = registry();

    let m = convert(&reg, "gasmark(5)", "degR").unwrap();

    assert!((eval_in(&reg, &m).unwrap() - 834.67).abs() < 0.1);
}

#[test]
fn table_parse_factor() {
    let reg = registry();
    for (input, expected) in [("gasmark(1)", 734.67), ("gasmark(5)", 834.67), ("gasmark(10)", 959.67)] {
        let m = convert(&reg, input, "degR").unwrap();

        let f = eval_in(&reg, &m).unwrap();
        assert!((f - expected).abs() < 0.1, "{input}: {f}");
    }
}

#[test]
fn inverse_function_tilde() {
    let reg = registry();

    let unit = Unit::parse(&reg, "~tempC(0 K)").unwrap();

    assert_eq!(unit.base_units(), "");
    assert!((factor_in(&reg, unit) - (-273.15)).abs() < 0.01);
}

#[test]
fn convert_temperature() {
    let reg = registry();
    for (from, to, expected) in [
        ("273.15 K", "tempC", 0.0),
        ("373.15 K", "tempC", 100.0),
        ("273.15 K", "tempF", 32.0),
    ] {
        let m = convert(&reg, from, to).unwrap();

        let f = eval_in(&reg, &m).unwrap();
        assert!((f - expected).abs() < 1e-6, "convert({from}, {to}) = {f}");
    }
}

#[test]
fn forward_function_to_kelvin() {
    let reg = registry();
    for (input, expected) in [
        ("tempC(0)", 273.15),
        ("tempC(100)", 373.15),
        ("tempF(32)", 273.15),
        ("tempF(212)", 373.15),
    ] {
        let m = convert(&reg, input, "K").unwrap();

        let f = eval_in(&reg, &m).unwrap();
        assert!((f - expected).abs() < 0.01, "convert({input}, K) = {f}");
    }
}

#[test]
fn error_on_builtin_domain() {
    let reg = registry();
    for expr in ["ln(0)", "ln(-1)", "log(0)", "log(-1)", "log2(0)"] {
        let result = convert(&reg, expr, "1");

        assert_eq!(result.unwrap_err().code(), ErrorCode::NotInDomain, "convert({expr:?}, \"1\")");
    }
}

#[test]
fn root_of_inexact_negative_factor_fails_when_evaluated() {
    let reg = registry();
    let mut u = Unit::parse(&reg, "sin(4)").unwrap();

    u.root(2).unwrap();

    let (_, m) = u.into_parts();
    assert!(eval_in(&reg, &m).is_none());
}

#[test]
fn root_with_float_sign_fails_and_keeps_unit() {
    let reg = registry();
    let mut u = Unit::parse(&reg, "sin(4) m^2").unwrap();
    let before = u.base_units();

    assert_eq!(u.root_with_sign(2, true).unwrap_err().code(), ErrorCode::NotRoot);
    assert_eq!(u.base_units(), before);
    assert!(matches!(u.magnitude(), Magnitude::Product(..)));

    let mut v = Unit::parse(&reg, "4 m^2").unwrap();
    assert!(v.root_with_sign(2, false).is_ok());
    assert_eq!(v.base_units(), "m");
}

#[test]
fn root_of_negative_factor_beyond_exact_range_fails() {
    let reg = registry();
    for expr in ["-ln(2)", "ln(0.5)", "-1e40", "-(1e40 * 3e40)", "-(2^0.5)", "-exp(3)", "-(1e40)^3", "(-1e40)^3"] {
        let mut u = Unit::parse(&reg, expr).unwrap();
        let before = u.magnitude().clone();

        assert_eq!(u.root(2).unwrap_err().code(), ErrorCode::NotRoot, "root(2) of {expr}");
        assert!(u.magnitude().clone().exact() == before.exact());
    }
}

#[test]
fn sign_of_terms_beyond_exact_range() {
    let reg = registry();
    let sign = |e: &str| Unit::parse(&reg, e).unwrap().magnitude().sign();
    assert_eq!(sign("-ln(2)"), Some(-1));
    assert_eq!(sign("ln(2)"), Some(1));
    assert_eq!(sign("ln(1)"), Some(0));
    assert_eq!(sign("1e40"), Some(1));
    assert_eq!(sign("0.000e70"), Some(0));
    assert_eq!(sign("-((1e40)^2)"), Some(-1));
    assert_eq!(sign("(-1e40)^2"), Some(1));
    assert_eq!(sign("exp(-5) * -3"), Some(-1));
    assert_eq!(sign("sin(4)"), None);
    assert_eq!(sign("1e40 - 1e40"), None);
}

#[test]
fn definition_kind_name_invariant() {
    let reg = registry();
    for d in list_definitions(&reg).iter() {
        match d.kind {
            DefinitionKind::Prefix => assert!(d.name.ends_with('-')),
            DefinitionKind::Table => assert!(d.name.contains('[')),
            DefinitionKind::Function => assert!(d.name.contains('(')),
            _ => {}
        }
    }
}

#[test]
fn list_definitions_contains_known_kind_entry() {
    let reg = registry();
    let defs = list_definitions(&reg);

    assert!(defs
        .iter()
        .any(|d| d.canonical_name() == "tempC" && d.kind == DefinitionKind::Function));
    assert!(defs
        .iter()
        .any(|d| d.canonical_name() == "gasmark" && d.kind == DefinitionKind::Table));
    assert!(defs.iter().any(|d| d.name == "kilo-"));
}

#[test]
fn free_parse_matches_method() {
    let reg = registry();

    let a = parse(&reg, "km").unwrap();
    let b = Unit::parse(&reg, "km").unwrap();

    assert_eq!(a.base_units(), b.base_units());
    assert_eq!(factor_of(a), factor_of(b));
}

#[test]
fn reload_currency_replaces_units_and_keeps_order() {
    let mut reg = registry();
    let before = list_definitions(&reg).len();

    reload_currency(&mut reg, "mile 1600 m\ndollar !\n", &Vec::new(), &Vec::new());

    let defs = list_definitions(&reg);
    // `mile` was replaced, `dollar` is new
    assert_eq!(defs.len(), before + 1);
    let names: Vec<&str> = defs.iter().map(|d| d.name.as_str()).collect();
    let mut sorted = names.clone();
    sorted.sort();
    assert_eq!(names, sorted);
    let mile = defs.iter().find(|d| d.name == "mile").unwrap();
    assert_eq!(mile.definition, "1600 m");
    let m = convert(&reg, "mile", "m").unwrap();
    assert_eq!(value(&m), 1600.0);
}

#[test]
fn units_error_message_has_number() {
    let err = UnitsError(ErrorCode::BadNum);

    assert!(err.message().contains("20"));
    assert_eq!(err.message(), "GNU units error code 20");
}

#[test]
fn units_error_predicates() {
    assert!(UnitsError(ErrorCode::NotANumber).is_not_dimensionless());
    assert!(!UnitsError(ErrorCode::Parse).is_not_dimensionless());
    assert!(UnitsError(ErrorCode::Parse).is_invalid_unit());
    assert!(UnitsError(ErrorCode::UnknownUnit).is_invalid_unit());
    assert!(!UnitsError(ErrorCode::NotANumber).is_invalid_unit());
    assert_eq!(UnitsError(ErrorCode::Parse), UnitsError(ErrorCode::Parse));
    assert_ne!(UnitsError(ErrorCode::Parse), UnitsError(ErrorCode::BadSum));
}

#[test]
fn error_code_numbers_round_trip() {
    for code in [
        ErrorCode::Normal,
        ErrorCode::Parse,
        ErrorCode::BadSum,
        ErrorCode::NotANumber,
        ErrorCode::NotRoot,
        ErrorCode::UnknownUnit,
        ErrorCode::NotInDomain,
        ErrorCode::BadFuncArg,
        ErrorCode::IrrationalExponent,
        ErrorCode::NotAFunc,
        ErrorCode::BadNum,
    ] {
        assert_eq!(ErrorCode::from_raw(code.raw()), code);
    }
    assert_eq!(ErrorCode::BadNum.raw(), 20);
    assert_eq!(ErrorCode::from_raw(99), ErrorCode::Parse);
}

#[test]
fn initial_unit_is_one_and_dimensionless() {
    let u = Unit::new();

    assert!(u.is_dimensionless());
    assert_eq!(u.base_units(), "");
    assert_eq!(factor_of(u), 1.0);
}

#[test]
fn multiply_then_divide_restores_dimensions() {
    let reg = registry();
    let mut a = Unit::parse(&reg, "kg m").unwrap();
    let b = Unit::parse(&reg, "s").unwrap();
    let b2 = Unit::parse(&reg, "s").unwrap();

    a.multiply(b).unwrap();
    a.divide(b2).unwrap();

    assert_eq!(a.base_units(), "kg m");
}

#[test]
fn function_definition_metadata() {
    let def: Vec<char> = "units=[1;K] domain=[-273.15,) range=[0,) x K + 273.15 K ; tempC / K - 273.15"
        .chars()
        .collect();

    let f = parse_function_def(vec!["x".to_string()], &def).unwrap();

    assert_eq!(f.params, vec!["x".to_string()]);
    assert_eq!(f.units, vec![Some("1".to_string())]);
    assert_eq!(f.inverse_unit, Some("K".to_string()));
    let d = f.domain[0].as_ref().unwrap();
    assert_eq!((d.min.as_str(), d.max.as_str(), d.min_open, d.max_open), ("-273.15", "", false, true));
    let r = f.range.as_ref().unwrap();
    assert_eq!((r.min.as_str(), r.max.as_str(), r.min_open, r.max_open), ("0", "", false, true));
    assert!(!f.noerror);
    assert_eq!(f.forward, "x K + 273.15 K");
    assert_eq!(f.reverse, Some("tempC / K - 273.15".to_string()));
}

#[test]
fn function_definition_without_formula_is_none() {
    let def: Vec<char> = "noerror units=[m]".chars().collect();

    assert!(parse_function_def(vec!["x".to_string()], &def).is_none());
}

#[test]
fn intervals_read_in_sequence() {
    let v: Vec<char> = "[1,2], (3,4] [5] rest".chars().collect();

    let (ints, at) = parse_intervals_multi(&v, 0, 3);

    assert_eq!(ints.len(), 3);
    let a = ints[0].as_ref().unwrap();
    assert_eq!((a.min.as_str(), a.max.as_str(), a.min_open, a.max_open), ("1", "2", false, false));
    let b = ints[1].as_ref().unwrap();
    assert_eq!((b.min.as_str(), b.max.as_str(), b.min_open, b.max_open), ("3", "4", true, false));
    assert!(ints[2].is_none());
    assert_eq!(&v[at..].iter().collect::<String>(), " rest");
}

#[test]
fn include_and_variables_are_followed() {
    let main = "!set FLAVOR sweet\n!var FLAVOR sweet\nsugar 2 kg\n!endvar\n!var FLAVOR sour\nlemon 3 kg\n!endvar\nkg !\n!include extra.units\n";
    let includes = vec![("extra.units".to_string(), "pinch 1|16 kg\n".to_string())];

    let reg = Registry::load(main, &Vec::new(), &includes);

    let names: Vec<String> = list_definitions(&reg).into_iter().map(|d| d.name).collect();
    assert_eq!(names, vec!["kg", "pinch", "sugar"]);
    assert_eq!(value(&convert(&reg, "sugar", "pinch").unwrap()), 32.0);
}

#[test]
fn later_definition_wins() {
    let reg = Registry::load("m !\nfoot 0.3 m\nfoot 0.3048 m\n", &Vec::new(), &Vec::new());

    let defs = list_definitions(&reg);
    let foot: Vec<_> = defs.iter().filter(|d| d.name == "foot").collect();
    assert_eq!(foot.len(), 1);
    assert_eq!(foot[0].definition, "0.3048 m");
    assert_eq!(value(&convert(&reg, "foot", "m").unwrap()), 0.3048);
}

#[test]
fn invert_twice_restores_dimensions() {
    let reg = registry();
    let mut a = Unit::parse(&reg, "kg m / s^2").unwrap();

    a.invert();
    assert_eq!(a.base_units(), "s s / kg m");
    a.invert();

    assert_eq!(a.base_units(), "kg m / s s");
}

#[test]
fn power_then_root_restores_dimensions() {
    let reg = registry();
    let mut a = Unit::parse(&reg, "m / s").unwrap();

    a.pow(3).unwrap();
    assert_eq!(a.base_units(), "m m m / s s s");
    a.root(3).unwrap();

    assert_eq!(a.base_units(), "m / s");
}

#[test]
fn unit_converts_to_itself() {
    let reg = registry();
    let a = Unit::parse(&reg, "kg m / s^2").unwrap();
    let b = Unit::parse(&reg, "kg m / s^2").unwrap();

    let f = a.convert_to(b).unwrap();

    assert_eq!(value(&f), 1.0);
}

#[test]
fn definitions_equal_by_canonical_name_and_kind() {
    let def = |name: &str, definition: &str, kind: DefinitionKind| gnu_units::Definition {
        name: name.to_string(),
        definition: definition.to_string(),
        kind,
    };

    assert!(def("tempC(x)", "a", DefinitionKind::Function) == def("tempC(y)", "b", DefinitionKind::Function));
    assert!(def("kilo-", "1000", DefinitionKind::Prefix) == def("kilo", "1e3", DefinitionKind::Prefix));
    assert!(def("m", "!", DefinitionKind::Unit) != def("m", "!", DefinitionKind::Alias));
    assert!(def("m", "!", DefinitionKind::Unit) != def("meter", "m", DefinitionKind::Unit));
}

#[test]
fn km_to_miles_through_plural() {
    let reg = registry();

    let factor = value(&convert(&reg, "km", "miles").unwrap());

    assert!((factor - 0.62137).abs() < 1e-4);
    let a = Unit::parse(&reg, "km").unwrap();
    let b = Unit::parse(&reg, "miles").unwrap();
    assert!(a.is_conformable(&b));
    assert!(conformable(&reg, "m").unwrap().contains(&"mile".to_string()));
    assert_eq!(parse(&reg, "kg m/s^2").unwrap().base_units(), "kg m / s s");
}

#[test]
fn question_marks_do_not_parse() {
    let reg = registry();

    let err = Unit::parse(&reg, "???").unwrap_err();

    assert!(err.code() == ErrorCode::Parse || err.code() == ErrorCode::UnknownUnit);
}

#[test]
fn initial_factor_is_one() {
    for unit in [Unit::new(), Unit::default()] {
        assert_eq!(unit.base_units(), "");
        assert_eq!(factor_of(unit), 1.0);
    }
}

#[test]
fn clone_preserves_factor() {
    let reg = registry();
    let first = Unit::parse(&reg, "5 km").unwrap();

    let cloned = first.clone();

    assert_eq!(cloned.base_units(), first.base_units());
    assert_eq!(factor_of(cloned), factor_of(first));
}

#[test]
fn builtin_range_errors_on_exact_arguments() {
    let reg = registry();
    for expr in [
        "acos(2)", "asin(-3/2)", "asecant(0.5)", "acsc(0)", "acosh(0.5)", "atanh(1)", "asech(0)",
        "asech(2)", "acoth(1)", "acsch(0)", "factorial(-1)", "factorial(2.5)", "csc(0)", "cot(0)",
        "csch(0)", "coth(0)", "Gamma(0)",
    ] {
        let code = Unit::parse(&reg, expr).err().map(|e| e.code());
        assert_eq!(code, Some(ErrorCode::Parse), "{expr}");
    }
    for expr in ["acos(0.5)", "asin(1)", "acosh(1)", "factorial(3)", "asech(1)", "atanh(0.5)", "csc(1)"] {
        assert!(Unit::parse(&reg, expr).is_ok(), "{expr}");
    }
}

#[test]
fn exact_argument_outside_function_domain_fails_first() {
    let reg = registry();
    let code = |e: &str| Unit::parse(&reg, e).err().map(|e| e.code());
    assert_eq!(code("tempC(-500) + kg"), Some(ErrorCode::NotInDomain));
    assert_eq!(code("tempC(-300)"), Some(ErrorCode::NotInDomain));
    assert_eq!(code("tempF(-460) + kg"), Some(ErrorCode::NotInDomain));
    assert!(Unit::parse(&reg, "tempC(-273.15)").is_ok());
    assert_eq!(code("tempC(20) + kg"), Some(ErrorCode::BadSum));
}

#[test]
fn zero_valued_function_swallows_unknown_unit() {
    let reg = registry();
    let u = Unit::parse(&reg, "sin(0) nosuchunit").unwrap();
    assert!(u.is_dimensionless());
    assert_eq!(eval_in(&reg, u.magnitude()), Some(0.0));
}

#[test]
fn exponent_exact_at_special_points() {
    let reg = registry();
    assert_eq!(Unit::parse(&reg, "m^exp(0)").unwrap().base_units(), "m");
    assert_eq!(Unit::parse(&reg, "m^(2 cos(0))").unwrap().base_units(), "m m");
    assert_eq!(Unit::parse(&reg, "m^(1 + ln(1))").unwrap().base_units(), "m");
    assert_eq!(Unit::parse(&reg, "m^abs(-2)").unwrap().base_units(), "m m");
}

#[test]
fn convert_func_not_a_func_only_in_listed_cases() {
    let defs = "m !\nhalve(x) x / 2\nback(x) 2 x ; nosuch back\ntbl[m] 1 2 3 4\n";
    let reg = Registry::load(defs, &Vec::new(), &Vec::new());
    let code = |f: &str, t: &str| gnu_units::convert_func(&reg, f, t).err().map(|e| e.code());
    assert_eq!(code("3", "halve"), Some(ErrorCode::NotAFunc));
    assert_eq!(code("3", "nosuchthing"), Some(ErrorCode::NotAFunc));
    assert_eq!(code("3 +", "back"), Some(ErrorCode::NotAFunc));
    assert_eq!(code("3 +", "tbl"), Some(ErrorCode::NotAFunc));
    assert_eq!(code("3", "back"), Some(ErrorCode::UnknownUnit));
    assert_eq!(code("3", "tbl"), Some(ErrorCode::BadFuncArg));
    assert!(gnu_units::convert_func(&reg, "2 m", "tbl").is_ok());
}

#[test]
fn user_function_arity_mismatch_is_parse_error() {
    let reg = registry();
    let code = |e: &str| Unit::parse(&reg, e).err().map(|e| e.code());
    assert_eq!(code("tempC(1, 2)"), Some(ErrorCode::Parse));
    assert!(Unit::parse(&reg, "tempC(1)").is_ok());
}

#[test]
fn conformable_exactly_when_base_units_text_equal() {
    let reg = registry();
    let pairs = [("km", "mile"), ("m", "kg"), ("kg m / s", "g inch / minute"), ("1", "2"), ("m^2", "m")];
    for (a, b) in pairs {
        let x = Unit::parse(&reg, a).unwrap();
        let y = Unit::parse(&reg, b).unwrap();
        assert_eq!(x.is_conformable(&y), x.base_units() == y.base_units(), "{a} vs {b}");
    }
}
