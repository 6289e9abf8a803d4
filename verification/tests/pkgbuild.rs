use rchan::pkgbuild::ParseError;
use rchan::pkgbuild::parse_pkgbuild;

#[test]
fn test_parse_pkgbuild() {
    let content = "\
pkgname=example
pkgver=1.2.3
pkgrel=2
pkgdesc=\"An example package\"
";
    let ver = parse_pkgbuild(content).unwrap();
    assert_eq!(ver.pkgver, "1.2.3");
    assert_eq!(ver.pkgrel, "2");
    assert_eq!(ver.canonical(), "1.2.3-2");
}

#[test]
fn test_parse_pkgbuild_long_version() {
    let content = "pkgver=1.02.3.4\npkgrel=10\n";
    let ver = parse_pkgbuild(content).unwrap();
    assert_eq!(ver.pkgver, "1.02.3.4");
    assert_eq!(ver.pkgrel, "10");
}

#[test]
fn test_parse_pkgbuild_single_digit() {
    let content = "pkgver=3\npkgrel=1\n";
    let ver = parse_pkgbuild(content).unwrap();
    assert_eq!(ver.pkgver, "3");
    assert_eq!(ver.pkgrel, "1");
}

#[test]
fn test_parse_pkgbuild_missing_pkgver() {
    let content = "pkgrel=1\n";
    assert!(parse_pkgbuild(content).is_err());
}

#[test]
fn test_parse_pkgbuild_missing_pkgrel() {
    let content = "pkgver=1.0.0\n";
    assert!(parse_pkgbuild(content).is_err());
}

#[test]
fn missing_pkgver_named_even_with_pkgrel_present() {
    let err = parse_pkgbuild("pkgrel=7\nother=1\n").unwrap_err();
    assert!(matches!(err, ParseError::MissingPkgver));
    assert!(err.message().contains("pkgver"));
}

#[test]
fn missing_pkgrel_named_when_pkgver_valid() {
    let err = parse_pkgbuild("pkgver=2.4\n").unwrap_err();
    assert!(matches!(err, ParseError::MissingPkgrel));
    assert!(err.message().contains("pkgrel"));
}

#[test]
fn missing_both_reports_pkgver_first() {
    let err = parse_pkgbuild("pkgname=x\n").unwrap_err();
    assert!(matches!(err, ParseError::MissingPkgver));
}

#[test]
fn first_matching_line_wins() {
    let ver = parse_pkgbuild("pkgver=1.1\npkgver=9.9\npkgrel=2\npkgrel=8\n").unwrap();
    assert_eq!(ver.pkgver, "1.1");
    assert_eq!(ver.pkgrel, "2");
}

#[test]
fn fields_found_in_either_order() {
    let ver = parse_pkgbuild("pkgrel=2\nsomething=else\npkgver=1.2.3\n").unwrap();
    assert_eq!(ver.canonical(), "1.2.3-2");
}

#[test]
fn indented_assignment_is_not_anchored() {
    let err = parse_pkgbuild("  pkgver=1.0\npkgrel=1\n").unwrap_err();
    assert!(matches!(err, ParseError::MissingPkgver));
}

#[test]
fn prefixed_line_is_not_a_match() {
    let ver = parse_pkgbuild("xpkgver=9\npkgver=2\npkgrel=1\n").unwrap();
    assert_eq!(ver.pkgver, "2");
}

#[test]
fn value_must_open_with_a_digit() {
    let err = parse_pkgbuild("pkgver=.5\npkgrel=1\n").unwrap_err();
    assert!(matches!(err, ParseError::MissingPkgver));
}

#[test]
fn pkgrel_value_takes_no_dots() {
    let ver = parse_pkgbuild("pkgver=1.0\npkgrel=2.5\n").unwrap();
    assert_eq!(ver.pkgrel, "2");
}

#[test]
fn value_stops_at_first_other_character() {
    let ver = parse_pkgbuild("pkgver=1.0rc1\npkgrel=3x\n").unwrap();
    assert_eq!(ver.pkgver, "1.0");
    assert_eq!(ver.pkgrel, "3");
}

#[test]
fn extraction_is_idempotent() {
    let content = "pkgname=example\npkgver=4.5.6\npkgrel=3\n";
    let first = parse_pkgbuild(content).unwrap();
    let second = parse_pkgbuild(content).unwrap();
    assert!(first == second);
    assert_eq!(first.pkgver, second.pkgver);
    assert_eq!(first.pkgrel, second.pkgrel);
    assert_eq!(first.canonical(), second.canonical());
}

#[test]
fn equality_is_structural_on_both_fields() {
    let a = parse_pkgbuild("pkgver=1.2.3\npkgrel=2\n").unwrap();
    let b = parse_pkgbuild("pkgver=1.2.3\npkgrel=2\n").unwrap();
    let c = parse_pkgbuild("pkgver=1.2.3\npkgrel=10\n").unwrap();
    let d = parse_pkgbuild("pkgver=1.2.4\npkgrel=2\n").unwrap();
    assert!(a == b);
    assert!(a != c);
    assert!(a != d);
    assert_ne!(a.canonical(), c.canonical());
    assert_eq!(a.canonical(), "1.2.3-2");
    assert_eq!(c.canonical(), "1.2.3-10");
}
