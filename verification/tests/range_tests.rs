//! The requirement grammar and its membership semantics.

use hexpm::version::{Range, Version};

fn v(s: &str) -> Version {
    Version::parse(s).unwrap()
}

fn range(s: &str) -> Range {
    Range::new(s.to_string()).unwrap()
}

fn contains(spec: &str, version: &str) -> bool {
    range(spec).contains(&v(version))
}

#[test]
fn display_preserves_the_spec_verbatim() {
    for s in ["~> 1.2", "  >= 1.0.0 ", "> 1 and < 2 or == 4.5.2", "1.2.3"] {
        assert_eq!(range(s).to_display_string(), s);
    }
}

#[test]
fn pessimistic_two_components() {
    // ~> 1.2 spans the rest of the major.
    assert!(contains("~> 1.2", "1.2.0"));
    assert!(contains("~> 1.2", "1.9.9"));
    assert!(!contains("~> 1.2", "2.0.0"));
    assert!(!contains("~> 1.2", "1.1.9"));
}

#[test]
fn pessimistic_three_components() {
    // ~> 1.2.3 spans the rest of the minor.
    assert!(contains("~> 1.2.3", "1.2.3"));
    assert!(contains("~> 1.2.3", "1.2.99"));
    assert!(!contains("~> 1.2.3", "1.3.0"));
    assert!(!contains("~> 1.2.3", "1.2.2"));
}

#[test]
fn pessimistic_with_pre_release_bound() {
    assert!(contains("~> 1.2.3-rc1", "1.2.3-rc2"));
    assert!(contains("~> 1.2.3-rc1", "1.2.5"));
    assert!(!contains("~> 1.2.3-rc1", "1.3.0"));
}

#[test]
fn pessimistic_needs_two_components() {
    assert!(Range::new("~> 1".to_string()).is_err());
}

#[test]
fn strict_greater_excludes_other_pre_releases() {
    assert!(!contains("> 1.0.0", "2.0.0-rc1"));
    assert!(contains("> 1.0.0", "2.0.0"));
    assert!(contains("> 1.0.0-a", "1.0.0-rc1"));
}

#[test]
fn not_equal_excludes_exactly_its_version() {
    assert!(!contains("!= 1.2.3", "1.2.3"));
    for other in ["1.2.2", "1.2.4", "1.2.4-rc1", "0.0.1", "9.9.9"] {
        assert!(contains("!= 1.2.3", other), "excluded {}", other);
    }
}

#[test]
fn and_or_combination() {
    let spec = "> 1 and < 2 or == 4.5.2";
    assert!(contains(spec, "1.9.9"));
    assert!(contains(spec, "4.5.2"));
    assert!(!contains(spec, "2.0.0"));
    assert!(!contains(spec, "4.5.3"));
}

#[test]
fn missing_operator_means_exact() {
    assert!(contains("1.2.3", "1.2.3"));
    assert!(!contains("1.2.3", "1.2.4"));
}

#[test]
fn comparison_operators() {
    assert!(contains(">= 1.0.0", "1.0.0"));
    assert!(!contains(">= 1.0.0", "0.9.9"));
    assert!(contains("<= 1.0.0", "1.0.0"));
    assert!(contains("< 2", "1.9.9"));
    assert!(!contains("< 2", "2.0.0"));
    assert!(contains("== 4.5.2", "4.5.2"));
}

#[test]
fn non_pre_bounds_reject_pre_releases() {
    assert!(!contains(">= 1.0.0", "1.5.0-rc1"));
    assert!(!contains("< 2.0.0", "1.5.0-rc1"));
    assert!(!contains("~> 1.2", "1.5.0-rc1"));
}

#[test]
fn invalid_requirements_are_rejected() {
    for s in ["", "   ", "><", "1.0.0 and", "1.0.0 or", "and 1.0.0", "1.0.0 1.0.0", "~>", "= 1.0.0"] {
        assert!(Range::new(s.to_string()).is_err(), "accepted {:?}", s);
    }
}

#[test]
fn partial_literals_default_missing_components_to_zero() {
    assert!(contains("== 1.2", "1.2.0"));
    assert!(!contains("== 1.2", "1.2.1"));
    assert!(contains(">= 1", "1.0.0"));
    assert!(!contains(">= 1", "0.9.9"));
}

#[test]
fn whitespace_between_tokens_is_free() {
    assert!(contains(">=1.0.0", "1.0.0"));
    assert!(contains("  ~>   1.2  ", "1.5.0"));
    assert!(contains("> 1 and<2", "1.5.0"));
}

#[test]
fn oversized_components_are_rejected() {
    assert!(Version::parse("4294967296.0.0").is_err());
    assert!(Version::parse("4294967295.0.0").is_ok());
    assert!(Range::new("~> 1.4294967295.0".to_string()).is_err());
    assert!(Range::new("~> 4294967295.0".to_string()).is_err());
    assert!(Range::new(">= 4294967295.0.0".to_string()).is_ok());
}

#[test]
fn smallest_pre_release_version_parses() {
    let p = v("0.0.0-0");
    assert_eq!(p.to_version_string(), "0.0.0-0");
    assert!(contains("< 0.0.1-x", "0.0.0-0"));
}

#[test]
fn range_from_version_pins_it() {
    let r = Range::from_version(&v("1.2.3"));
    assert_eq!(r.to_display_string(), "1.2.3");
    assert!(r.contains(&v("1.2.3")));
    assert!(!r.contains(&v("1.2.4")));
    // Build metadata never distinguishes versions.
    assert!(r.contains(&v("1.2.3+nightly")));
}

#[test]
fn exact_compiled_range() {
    let iv = hexpm::version::exact(v("1.0.0"));
    assert!(iv.contains(&v("1.0.0")));
    assert!(!iv.contains(&v("1.0.1")));
    assert!(!iv.contains(&v("1.0.0-rc1")));
}
