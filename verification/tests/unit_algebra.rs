//! Unit algebra: parsing, canonicalization and arithmetic.

use prism_core::units::ParsedUnit;

#[test]
fn test_parse_valid() {
    let cases = vec![
        ("USD", "USD"),
        ("m/s", "m/s"),
        ("m*m", "m^2"),
        ("m^2/m", "m"), // Cancellation logic check
        ("1", "1"),     // Identity
    ];

    for (input, expected) in cases {
        let u = ParsedUnit::from_str(input).expect("Failed to parse");
        assert_eq!(u.to_string(), expected, "Input: {}", input);
    }
}

#[test]
fn test_parse_invalid() {
    let failures = vec![
        "",           // Empty
        "   ",        // Whitespace
        "USD//MWh",   // Double slash
        "USD^bar",    // Non-numeric exponent
    ];

    for input in failures {
        assert!(ParsedUnit::from_str(input).is_err(), "Should fail: '{}'", input);
    }
}

#[test]
fn test_arithmetic() {
    // (kg * m / s^2) * s = kg * m / s
    let mut force = ParsedUnit::from_str("kg*m/s^2").unwrap();
    let time = ParsedUnit::from_str("s").unwrap();

    force.multiply(&time);
    assert_eq!(force.to_string(), "kg*m/s");
}

#[test]
fn test_unit_multiplication() {
    let mut u1 = ParsedUnit::from_str("kg*m").unwrap();
    let u2 = ParsedUnit::from_str("m/s^2").unwrap();
    u1.multiply_by(&u2);
    assert_eq!(u1.to_string(), "kg*m^2/s^2");
}

#[test]
fn test_unit_division() {
    let mut u1 = ParsedUnit::from_str("m/s").unwrap();
    let u2 = ParsedUnit::from_str("s").unwrap();
    u1.divide_by(&u2);
    assert_eq!(u1.to_string(), "m/s^2");
}

#[test]
fn test_unit_round_trip() {
    // The canonical form re-parses to the same exponent bag.
    for s in ["kg*m/s^2", "USD", "m^3/kg^2", "a*b*c/d", "x^12"] {
        let parsed = ParsedUnit::from_str(s).unwrap();
        let canonical = parsed.to_string();
        let reparsed = ParsedUnit::from_str(canonical.as_str()).unwrap();
        assert!(parsed.same_bag(&reparsed), "round trip failed for {}", s);
        // Canonicalization is idempotent.
        assert_eq!(reparsed.to_string(), canonical);
    }
}

#[test]
fn test_multiplication_commutes() {
    let a = ParsedUnit::from_str("kg*m/s^2").unwrap();
    let b = ParsedUnit::from_str("s*A^3").unwrap();
    let mut ab = a.clone();
    ab.multiply(&b);
    let mut ba = b.clone();
    ba.multiply(&a);
    assert!(ab.same_bag(&ba));
    assert_eq!(ab.to_string(), ba.to_string());
}

#[test]
fn test_divide_then_multiply_cancels() {
    let a = ParsedUnit::from_str("kg*m/s^2").unwrap();
    let b = ParsedUnit::from_str("m/s").unwrap();
    let mut q = a.clone();
    q.divide(&b);
    q.multiply(&b);
    assert!(q.same_bag(&a));
}

#[test]
fn test_dimensionless_prints_as_one() {
    let u = ParsedUnit::from_str("m/m").unwrap();
    assert_eq!(u.to_string(), "1");
    let v = ParsedUnit::from_str("USD*h/h").unwrap();
    assert_eq!(v.to_string(), "USD");
}

#[test]
fn test_exponent_aggregation() {
    let u = ParsedUnit::from_str("m*m*m").unwrap();
    assert_eq!(u.to_string(), "m^3");
    let v = ParsedUnit::from_str("1/s").unwrap();
    assert_eq!(v.to_string(), "1/s");
}
