use lp_modeler::num::{parse_usize_exec, Decimal};
use lp_modeler::util::is_zero;

fn parse(s: &str) -> Option<Decimal> {
    let v: Vec<char> = s.chars().collect();
    Decimal::parse(&v)
}

fn text(d: &Decimal) -> String {
    let mut v: Vec<char> = Vec::new();
    d.write_text(&mut v);
    v.into_iter().collect()
}

#[test]
fn decimal_canonical_form() {
    let d = Decimal::new(false, 1500, -2).unwrap();
    assert_eq!(d.significand(), 15);
    assert_eq!(d.exponent(), 0);
    assert_eq!(d, parse("15.0").unwrap());
    assert_eq!(Decimal::new(true, 0, 7).unwrap(), Decimal::zero());
    assert_eq!(Decimal::new(false, 1_000_000_000_000_000_001, 0), None);
    assert_eq!(Decimal::from_i32(-120).exponent(), 1);
    assert!(Decimal::from_i32(-120).is_negative());
}

#[test]
fn decimal_text() {
    assert_eq!(text(&Decimal::from_i32(10)), "10");
    assert_eq!(text(&Decimal::from_i32(-7)), "-7");
    assert_eq!(text(&Decimal::new(false, 85, -1).unwrap()), "8.5");
    assert_eq!(text(&Decimal::new(true, 5, -3).unwrap()), "-0.005");
    assert_eq!(text(&Decimal::zero()), "0");
}

#[test]
fn decimal_parse() {
    assert_eq!(parse("5"), Some(Decimal::from_i32(5)));
    assert_eq!(parse("-0.25"), Decimal::new(true, 25, -2));
    assert_eq!(parse(".5"), Decimal::new(false, 5, -1));
    assert_eq!(parse("3."), Some(Decimal::from_i32(3)));
    assert_eq!(parse("+1e3"), Some(Decimal::from_i32(1000)));
    assert_eq!(parse("2.5E-2"), Decimal::new(false, 25, -3));
    assert_eq!(parse(""), None);
    assert_eq!(parse("."), None);
    assert_eq!(parse("abc"), None);
    assert_eq!(parse("1e"), None);
    assert_eq!(parse("inf"), None);
}

#[test]
fn decimal_text_reads_back() {
    for s in ["0", "12", "-3.75", "0.0001", "123456789", "-0.5"] {
        let d = parse(s).unwrap();
        assert_eq!(parse(&text(&d)), Some(d));
        assert_eq!(text(&d), s);
    }
}

#[test]
fn decimal_arithmetic() {
    let a = parse("1.5").unwrap();
    let b = parse("-0.25").unwrap();
    assert_eq!(a.checked_add(&b), parse("1.25"));
    assert_eq!(a.checked_sub(&b), parse("1.75"));
    assert_eq!(a.checked_mul(&b), parse("-0.375"));
    assert_eq!(a.neg(), parse("-1.5").unwrap());
    assert_eq!(parse("1e-30").unwrap().checked_add(&Decimal::from_i32(1)), None);
    assert_eq!(Decimal::zero().checked_add(&parse("1e-30").unwrap()), parse("1e-30"));
}

#[test]
fn decimal_comparison() {
    let a = parse("1.5").unwrap();
    let b = parse("2").unwrap();
    assert!(a.less_than(&b));
    assert!(!b.less_than(&a));
    assert!(!a.less_than(&a));
    assert!(parse("-3").unwrap().less_than(&parse("-2.5").unwrap()));
    assert!(parse("1e-40").unwrap().less_than(&parse("1e30").unwrap()));
    assert!(!parse("1e30").unwrap().less_than(&parse("999").unwrap()));
    assert!(Decimal::zero().less_than(&parse("0.001").unwrap()));
}

#[test]
fn decimal_near_zero() {
    assert!(parse("0.000001").unwrap().is_zero());
    assert!(!parse("0.00001").unwrap().is_zero());
    assert!(is_zero(parse("-0.000009").unwrap()));
    assert!(!is_zero(parse("1").unwrap()));
}

#[test]
fn decimal_integer_part() {
    assert_eq!(parse("3.9").unwrap().trunc_i32(), 3);
    assert_eq!(parse("-3.9").unwrap().trunc_i32(), -3);
    assert_eq!(parse("1e12").unwrap().trunc_i32(), i32::MAX);
    assert_eq!(parse("-1e12").unwrap().trunc_i32(), i32::MIN);
    assert_eq!(parse("1e-30").unwrap().trunc_i32(), 0);
}

#[test]
fn usize_reading() {
    let p = |s: &str| parse_usize_exec(&s.chars().collect::<Vec<char>>());
    assert_eq!(p("42"), Some(42));
    assert_eq!(p("+7"), Some(7));
    assert_eq!(p("-1"), None);
    assert_eq!(p("+"), None);
    assert_eq!(p(""), None);
    assert_eq!(p("99999999999999999999999"), None);
}
