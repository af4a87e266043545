use polyfill_library::range::range_satisfied;
use polyfill_library::ua::{UA, U};

fn ua(family: &str, major: u64, minor: u64, patch: u64, unknown: bool) -> UA {
    UA { family: family.to_string(), major, minor, patch, unknown }
}

fn sat(v: (u64, u64, u64), r: &str) -> bool {
    range_satisfied(v.0, v.1, v.2, &r.to_string())
}

#[test]
fn range_any() {
    assert!(sat((1, 2, 3), "*"));
    assert!(sat((0, 0, 0), ""));
    assert!(sat((7, 0, 0), "x"));
}

#[test]
fn range_comparators() {
    assert!(sat((40, 0, 0), "<50"));
    assert!(!sat((50, 0, 0), "<50"));
    assert!(sat((50, 0, 0), ">=50"));
    assert!(!sat((49, 9, 9), ">=50"));
    assert!(sat((9, 2, 0), "<9.3"));
    assert!(!sat((9, 3, 0), "<9.3"));
    assert!(sat((11, 5, 0), "<=11"));
    assert!(!sat((12, 0, 0), "<=11"));
    assert!(sat((12, 0, 0), ">11"));
    assert!(!sat((11, 9, 9), ">11"));
    assert!(sat((11, 0, 1), ">11.0.0"));
    assert!(sat((10, 4, 7), "10"));
    assert!(!sat((11, 0, 0), "10"));
    assert!(sat((10, 4, 7), "=10.4"));
    assert!(sat((5, 0, 0), ">=4 <6"));
    assert!(!sat((6, 0, 0), ">=4 <6"));
}

#[test]
fn range_hyphen() {
    assert!(sat((6, 0, 0), "6 - 28"));
    assert!(sat((28, 9, 1), "6 - 28"));
    assert!(!sat((29, 0, 0), "6 - 28"));
    assert!(!sat((5, 9, 9), "6 - 28"));
    assert!(sat((100, 0, 0), "9 - *"));
    assert!(sat((4, 4, 0), "4.4 - 4.4.4"));
    assert!(!sat((4, 4, 5), "4.4 - 4.4.4"));
}

#[test]
fn range_alternatives() {
    assert!(sat((3, 0, 0), "<4 || >10"));
    assert!(sat((12, 0, 0), "<4 || >10"));
    assert!(!sat((7, 0, 0), "<4 || >10"));
}

#[test]
fn range_invalid_matches_nothing() {
    assert!(!sat((1, 0, 0), "banana"));
    assert!(!sat((1, 0, 0), "1.2.3.4"));
    assert!(!sat((1, 0, 0), "* || banana"));
    assert!(!sat((1, 0, 0), "99999999999999999999999"));
    assert!(!sat((1, 0, 0), "1.*.3"));
}

#[test]
fn ua_reports_its_values() {
    let u = U::Current(ua("chrome", 40, 0, 0, false));
    assert!(!u.is_unknown());
    assert_eq!(u.get_family(), "chrome");
    assert!(u.satisfies("<50".to_string()));
    assert!(!u.satisfies(">=50".to_string()));
    let o = U::Old(ua("other", 0, 0, 0, true));
    assert!(o.is_unknown());
    assert_eq!(o.get_family(), "other");
    assert!(o.satisfies("*".to_string()));
}

#[test]
fn hyphen_range_is_inclusive_bounds() {
    for v in [(5, 9, 9), (6, 0, 0), (17, 3, 1), (28, 0, 0), (28, 0, 1), (29, 0, 0)] {
        assert_eq!(sat(v, "6 - 28.0.0"), sat(v, ">=6 <=28.0.0"));
        assert_eq!(sat(v, "6 - 28"), sat(v, ">=6 <=28"));
    }
}

#[test]
fn wildcard_admits_every_version() {
    for v in [(0, 0, 0), (1, 2, 3), (u64::MAX, u64::MAX, u64::MAX)] {
        assert!(sat(v, "*"));
    }
}
