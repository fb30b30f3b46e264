use gnu_units::database::{Database, UnitEntry};
use gnu_units::dims::Dimensions;
use gnu_units::eval::evaluate_with;
use gnu_units::{ErrorCode, Magnitude, Registry, Unit};

const DEFS: &str = "\
m        !
kg       !
s        !
kilo-    1000
gram     1|1000 kg
square(x) x^2
";

fn registry() -> Registry {
    Registry::load(DEFS, &Vec::new(), &Vec::new())
}

/// The value of an arithmetic factor term, in floating point.
fn value(m: &Magnitude) -> f64 {
    match m {
        Magnitude::One => 1.0,
        Magnitude::Decimal(t) => t.parse::<f64>().unwrap(),
        Magnitude::Integer(v) => *v as f64,
        Magnitude::Product(a, b) => value(a) * value(b),
        Magnitude::Quotient(a, b) => value(a) / value(b),
        Magnitude::Sum(a, b) => value(a) + value(b),
        Magnitude::Negation(a) => -value(a),
        Magnitude::Reciprocal(a) => 1.0 / value(a),
        Magnitude::IntPower(a, n) => value(a).powi(*n),
        Magnitude::Root(a, n) => value(a).powf(1.0 / f64::from(*n)),
        Magnitude::RealPower(a, b) => value(a).powf(value(b)),
        other => panic!("not an arithmetic term: {other:?}"),
    }
}

fn parsed(input: &str) -> (f64, String) {
    let reg = registry();
    let u = Unit::parse(&reg, input).unwrap();
    let base = u.base_units();
    let (_, m) = u.into_parts();
    (value(&m), base)
}

fn error_of(input: &str) -> ErrorCode {
    let reg = registry();
    Unit::parse(&reg, input).err().unwrap().code()
}

#[test]
fn parse_simple_number() {
    assert_eq!(parsed("7"), (7.0, String::new()));
}

#[test]
fn parse_multiplication() {
    assert_eq!(parsed("2 * 3"), (6.0, String::new()));
}

#[test]
fn parse_division() {
    assert_eq!(parsed("10 / 2"), (5.0, String::new()));
}

#[test]
fn parse_unary_minus() {
    assert_eq!(parsed("-5"), (-5.0, String::new()));
}

#[test]
fn call_builtin_sqrt() {
    let (f, base) = parsed("sqrt(4)");
    assert!((f - 2.0).abs() < 1e-12);
    assert_eq!(base, "");
}

#[test]
fn parse_power() {
    assert_eq!(parsed("m^3"), (1.0, "m m m".to_string()));
}

#[test]
fn parse_double_star_power() {
    assert_eq!(parsed("kg**2"), (1.0, "kg kg".to_string()));
}

#[test]
fn parse_parentheses() {
    assert_eq!(parsed("(2 * m)"), (2.0, "m".to_string()));
}

#[test]
fn parse_juxtaposition() {
    assert_eq!(parsed("5 m"), (5.0, "m".to_string()));
}

#[test]
fn resolve_prefix() {
    let (f, base) = parsed("kilogram");
    assert!((f - 1.0).abs() < 1e-9);
    assert_eq!(base, "kg");
}

#[test]
fn call_user_function() {
    let (f, _) = parsed("square(3)");
    assert!((f - 9.0).abs() < 1e-12);
}

#[test]
fn error_on_empty() {
    let reg = registry();
    assert!(Unit::parse(&reg, "").is_err());
    assert!(Unit::parse(&reg, "   ").is_err());
}

#[test]
fn error_on_unbalanced_parens() {
    let reg = registry();
    assert!(Unit::parse(&reg, "(2").is_err());
    assert!(Unit::parse(&reg, ")").is_err());
}

#[test]
fn error_on_trailing_input() {
    assert_eq!(error_of("2 )"), ErrorCode::Parse);
}

#[test]
fn parseunit_with_vars_resolves_binding() {
    let reg = registry();
    let three = Unit::parse(&reg, "3").unwrap();
    let text: Vec<char> = "x".chars().collect();

    let v = evaluate_with(reg.db(), &text, &"x".to_string(), three).ok().unwrap();

    assert_eq!(v.base_units(), "");
    let (_, m) = v.into_parts();
    assert!((value(&m) - 3.0).abs() < 1e-12);
}

#[test]
fn error_on_parseunit_with_vars_trailing_input() {
    let reg = registry();
    let one = Unit::new();
    let text: Vec<char> = "2 )".chars().collect();

    let r = evaluate_with(reg.db(), &text, &"x".to_string(), one);

    assert!(matches!(r, Err(ErrorCode::Parse)));
}

#[test]
fn power_signed_exponent() {
    assert_eq!(parsed("m^-1").1, "1 / m");
    assert_eq!(parsed("m**-2").1, "1 / m m");
}

#[test]
fn parse_hex_number() {
    assert_eq!(parsed("0xff"), (255.0, String::new()));
    assert_eq!(parsed("0xFF"), (255.0, String::new()));
    assert_eq!(parsed("0x0"), (0.0, String::new()));
}

#[test]
fn parse_malformed_hex_matches_c_strtod() {
    assert_eq!(parsed("0xGG"), (0.0, String::new()));
}

#[test]
fn parse_malformed_hex_does_not_acquire_dimensions() {
    assert_eq!(parsed("0xkg"), (0.0, String::new()));
}

#[test]
fn parse_malformed_hex_0xm_is_dimensionless_zero() {
    assert_eq!(parsed("0xm"), (0.0, String::new()));
}

#[test]
fn zero_factor_does_not_swallow_parse_error() {
    let reg = registry();
    assert!(Unit::parse(&reg, "0 )").is_err());
}

#[test]
fn error_on_unary_plus_in_exponent() {
    let reg = registry();
    assert!(Unit::parse(&reg, "m^+2").is_err());
}

#[test]
fn error_on_unknown_unit_message() {
    assert_eq!(error_of("ZZZNOTAUNIT"), ErrorCode::UnknownUnit);
}

#[test]
fn error_on_incompatible_dimensions_addition() {
    assert_eq!(error_of("m + kg"), ErrorCode::BadSum);
}

#[test]
fn insert_unit_variant() {
    for (name, def, expected) in [
        ("base", "!", "primitive"),
        ("rad", "!dimensionless", "dimensionless"),
        ("km", "1000 m", "derived"),
    ] {
        let mut db = Database::new();

        db.insert_unit(&name.to_string(), &def.to_string());

        let label = match db.unit(&name.to_string()).unwrap() {
            UnitEntry::Primitive => "primitive",
            UnitEntry::DimensionlessPrimitive => "dimensionless",
            UnitEntry::Derived(_) => "derived",
        };
        assert_eq!(label, expected);
    }
}

#[test]
fn insert_unit_dimensionless_with_interior_spaces() {
    let mut db = Database::new();

    db.insert_unit(&"rad".to_string(), &"!  dimensionless".to_string());

    assert!(matches!(
        db.unit(&"rad".to_string()),
        Some(UnitEntry::DimensionlessPrimitive)
    ));
}

#[test]
fn insert_unit_derived_stores_trimmed_definition() {
    let mut db = Database::new();

    db.insert_unit(&"foo".to_string(), &"  100 kg  ".to_string());

    assert!(matches!(db.unit(&"foo".to_string()), Some(UnitEntry::Derived(s)) if s == "100 kg"));
}

#[test]
fn insert_prefix_longest_first() {
    let mut db = Database::new();
    db.insert_unit(&"m".to_string(), &"!".to_string());
    db.insert_prefix(&"k-".to_string(), &"1000".to_string());
    db.insert_prefix(&"kilo-".to_string(), &" 1000 ".to_string());

    assert_eq!(
        db.find_with_prefix(&"kilom".to_string()),
        Some(("1000".to_string(), "m".to_string()))
    );
    assert_eq!(db.find_prefix_by_name(&"kilo".to_string()), Some("1000".to_string()));
}

#[test]
fn insert_table_reads_unit_and_words() {
    let mut db = Database::new();

    db.insert_table(&"gasmark[degR]".to_string(), &"1 734.67  2 759.67".to_string());

    let t = db.table(&"gasmark".to_string()).unwrap();
    assert_eq!(t.unit, "degR");
    assert_eq!(t.words, vec!["1", "734.67", "2", "759.67"]);
}

fn primitive(name: &str) -> Dimensions {
    Dimensions::primitive(name.to_string())
}

#[test]
fn one_is_dimensionless() {
    let u = Unit::new();
    assert!(u.is_dimensionless());
    let (_, m) = u.into_parts();
    assert_eq!(value(&m), 1.0);
}

#[test]
fn primitive_has_dimension() {
    let d = primitive("m");
    assert_eq!(d.get(&"m".to_string()), 1);
    assert!(!d.is_dimensionless());
}

#[test]
fn multiply_assign_dimensions() {
    let mut d = primitive("m");
    d.multiply(&primitive("kg"));
    assert_eq!(d.get(&"m".to_string()), 1);
    assert_eq!(d.get(&"kg".to_string()), 1);
}

#[test]
fn divide_assign_dimensions() {
    let mut d = primitive("m");
    d.divide(&primitive("s"));
    assert_eq!(d.get(&"m".to_string()), 1);
    assert_eq!(d.get(&"s".to_string()), -1);
}

#[test]
fn divide_assign_same_unit_cancels() {
    let mut d = primitive("m");
    d.divide(&primitive("m"));
    assert!(d.is_dimensionless());
    assert_eq!(d.get(&"m".to_string()), 0);
}

#[test]
fn add_assign_same_dimensions() {
    let mut a = Unit::from_parts(primitive("m"), Magnitude::Integer(3));
    let b = Unit::from_parts(primitive("m"), Magnitude::Integer(7));

    assert!(a.add(b).is_ok());

    assert_eq!(a.base_units(), "m");
    let (_, m) = a.into_parts();
    assert_eq!(value(&m), 10.0);
}

#[test]
fn add_assign_different_fails() {
    let mut a = Unit::from_parts(primitive("m"), Magnitude::One);
    let b = Unit::from_parts(primitive("kg"), Magnitude::One);

    assert!(a.add(b).is_err());
}

#[test]
fn invert_dimensions() {
    let mut d = primitive("m");
    d.invert();
    assert_eq!(d.get(&"m".to_string()), -1);
}

#[test]
fn pow_assign_factor_and_dims() {
    for (n, expected_factor, expected_exp) in [(2, 9.0, 2), (3, 27.0, 3), (0, 1.0, 0)] {
        let mut u = Unit::from_parts(primitive("m"), Magnitude::Integer(3));

        u.pow(n).unwrap();

        assert_eq!(u.dims().get(&"m".to_string()), expected_exp);
        let (_, m) = u.into_parts();
        assert!((value(&m) - expected_factor).abs() < 1e-9);
    }
}

#[test]
fn root_assign_success() {
    let mut d = primitive("m");
    d.power(4);
    let mut u = Unit::from_parts(d, Magnitude::Integer(16));

    assert!(u.root(2).is_ok());

    assert_eq!(u.dims().get(&"m".to_string()), 2);
    let (_, m) = u.into_parts();
    assert!((value(&m) - 4.0).abs() < 1e-12);
}

#[test]
fn root_assign_non_divisible_fails() {
    let mut u = Unit::from_parts(primitive("m"), Magnitude::One);

    assert_eq!(u.root(2).unwrap_err().code(), ErrorCode::NotRoot);
    assert_eq!(u.dims().get(&"m".to_string()), 1);
}

#[test]
fn base_units_string_cases() {
    assert_eq!(Dimensions::empty().base_units_string(), "");
    let mut d = primitive("kg");
    d.multiply(&primitive("m"));
    assert_eq!(d.base_units_string(), "kg m");
    let mut d = primitive("m");
    d.divide(&primitive("s"));
    assert_eq!(d.base_units_string(), "m / s");
}

#[test]
fn exponent_literals_and_exact_roots_rationalise() {
    assert_eq!(parsed("m^1e0").1, "m");
    assert_eq!(parsed("m^sqrt(4)").1, "m m");
    assert_eq!(parsed("m^(2.5e-1 * 4)").1, "m");
    assert_eq!(error_of("m^0.3"), ErrorCode::NotRoot);
    assert_eq!(error_of("m^ln(2)"), ErrorCode::IrrationalExponent);
}

#[test]
fn zero_with_exponent_swallows_unknown_unit() {
    assert_eq!(parsed("0e3 nosuchunit"), (0.0, String::new()));
}

#[test]
fn root_of_negative_literal_with_exponent_fails() {
    let reg = registry();
    let mut u = Unit::parse(&reg, "-1e3").unwrap();

    assert_eq!(u.root(3).unwrap_err().code(), ErrorCode::NotRoot);
}

#[test]
fn exact_values_of_literals() {
    let m = |t: &str| Magnitude::Decimal(t.to_string()).exact();
    assert_eq!(m("1.5e2"), Some((1500, 10)));
    assert_eq!(m("25E-2"), Some((25, 100)));
    assert_eq!(m("0e99"), Some((0, 1)));
    assert_eq!(m("1e99"), None);
    let r = Magnitude::Root(Box::new(Magnitude::Decimal("6.25".to_string())), 2).exact();
    assert_eq!(r, Some((25, 10)));
    let r = Magnitude::Root(Box::new(Magnitude::Decimal("2".to_string())), 2).exact();
    assert_eq!(r, None);
}
