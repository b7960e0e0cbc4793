//! The version grammar: parsing, display round trips, ordering, bumping.

use std::cmp::Ordering;

use hexpm::version::{AlphaOrNumeric, Identifier, PreOrder, Version};

fn v(s: &str) -> Version {
    Version::parse(s).unwrap()
}

#[test]
fn parse_simple_version() {
    let p = v("1.2.3");
    assert_eq!(p.major, 1);
    assert_eq!(p.minor, 2);
    assert_eq!(p.patch, 3);
    assert!(p.pre.is_empty());
    assert!(p.build.is_none());
}

#[test]
fn parse_pre_and_build() {
    let p = v("1.0.0-alpha.3+20130417140000.amd64");
    assert_eq!(p.major, 1);
    assert_eq!(
        p.pre,
        vec![
            Identifier::AlphaNumeric("alpha".to_string()),
            Identifier::Numeric(3)
        ]
    );
    assert_eq!(p.build.as_deref(), Some("20130417140000.amd64"));
}

#[test]
fn parse_rejects_bad_versions() {
    for s in [
        "", "1", "1.2", "1.2.3.4", "01.0.0", "1.00.0", "1.0.0-", "1.0.0-01", "1.0.0+", "a.b.c",
        "1.0.0 ", " 1.0.0", "1.0.0-beta..", "4294967296.0.0",
    ] {
        assert!(Version::parse(s).is_err(), "accepted {:?}", s);
    }
}

#[test]
fn display_round_trips_accepted_literals() {
    for s in [
        "0.0.0",
        "1.2.3",
        "10.20.30",
        "1.0.0-rc1",
        "1.0.0-alpha.3",
        "1.0.0-0",
        "1.0.0-rc.1+build.5",
        "1.0.0+20130417140000",
        "1.0.0-a-b.c-d+x-y.z",
    ] {
        assert_eq!(v(s).to_version_string(), s);
    }
}

#[test]
fn ordering_chain() {
    // 1.0.0-rc1 < 1.0.0 < 1.0.1 < 1.1.0 < 2.0.0
    let chain = ["1.0.0-rc1", "1.0.0", "1.0.1", "1.1.0", "2.0.0"];
    for w in chain.windows(2) {
        assert_eq!(v(w[0]).compare(&v(w[1])), Ordering::Less, "{} < {}", w[0], w[1]);
        assert_eq!(v(w[1]).compare(&v(w[0])), Ordering::Greater);
    }
}

#[test]
fn numeric_pre_identifiers_compare_numerically() {
    assert_eq!(v("1.0.0-2").compare(&v("1.0.0-10")), Ordering::Less);
}

#[test]
fn numeric_pre_identifiers_below_alphanumeric() {
    assert_eq!(v("1.0.0-1").compare(&v("1.0.0-a")), Ordering::Less);
}

#[test]
fn build_metadata_is_order_neutral() {
    assert_eq!(v("1.0.0+a").compare(&v("1.0.0+b")), Ordering::Equal);
    assert_eq!(v("1.0.0+a").compare(&v("1.0.0")), Ordering::Equal);
}

#[test]
fn exactly_one_ordering_outcome() {
    let samples = ["1.0.0", "1.0.0-rc1", "1.0.0-rc1.2", "2.3.4", "1.0.0+b"];
    for a in samples {
        for b in samples {
            let ab = v(a).compare(&v(b));
            let ba = v(b).compare(&v(a));
            assert_eq!(ab.reverse(), ba, "{} vs {}", a, b);
        }
    }
}

#[test]
fn pre_release_list_order() {
    assert_eq!(v("1.0.0-rc1").compare(&v("1.0.0-rc1.0")), Ordering::Less);
    assert_eq!(v("1.0.0-alpha").compare(&v("1.0.0-beta")), Ordering::Less);
    assert_eq!(v("1.0.0-alpha.1").compare(&v("1.0.0-alpha.1")), Ordering::Equal);
}

#[test]
fn bump_non_pre_is_next_patch() {
    assert_eq!(v("1.2.3").bump(), v("1.2.4"));
}

#[test]
fn bump_numeric_pre_identifier() {
    assert_eq!(v("1.0.0-11").bump(), v("1.0.0-12"));
    assert_eq!(v("1.0.0-rc.1").bump(), v("1.0.0-rc.2"));
}

#[test]
fn bump_alphanumeric_pre_identifier() {
    assert_eq!(v("1.0.0-rc1").bump(), v("1.0.0-rc2"));
    assert_eq!(v("1.0.0-alpha").bump(), v("1.0.0-alpha1"));
    assert_eq!(v("1.0.0-rc1a").bump(), v("1.0.0-rc1a1"));
}

#[test]
fn bump_carrying_digit_run_appends_a_zero_identifier() {
    // Rebuilding rc9 as rc10 would move the identifier *down* in ASCII
    // order, so the list gains a zero identifier instead.
    assert_eq!(v("1.0.0-rc9").bump(), v("1.0.0-rc9.0"));
    assert_eq!(v("1.0.0-a99").bump(), v("1.0.0-a99.0"));
    // A purely numeric identifier compares numerically and never carries.
    assert_eq!(v("1.0.0-9").bump(), v("1.0.0-10"));
    assert_eq!(v("1.0.0-rc.9").bump(), v("1.0.0-rc.10"));
}

#[test]
fn bump_clears_build() {
    assert_eq!(v("1.0.0-rc1+x").bump(), v("1.0.0-rc2"));
}

#[test]
fn bump_components() {
    assert_eq!(v("1.2.3").bump_major(), v("2.0.0"));
    assert_eq!(v("1.2.3").bump_minor(), v("1.3.0"));
    assert_eq!(v("1.2.3-rc1").bump_patch(), v("1.2.4"));
}

#[test]
fn bump_is_strictly_greater() {
    for s in [
        "1.2.3", "1.0.0-rc1", "1.0.0-alpha.9", "1.0.0-9", "1.0.0-rc9", "1.0.0-a99",
        "1.0.0-9z9", "1.0.0-rc.9",
    ] {
        let a = v(s);
        let b = a.bump();
        assert_eq!(a.compare(&b), Ordering::Less, "{} < bump", s);
    }
}

#[test]
fn split_alphanumeric_segments() {
    let segs = hexpm::version::split_alphanumeric("rc10a");
    assert_eq!(
        segs,
        vec![
            AlphaOrNumeric::Alpha("rc".to_string()),
            AlphaOrNumeric::Numeric(10),
            AlphaOrNumeric::Alpha("a".to_string()),
        ]
    );
}

#[test]
fn identifier_concat() {
    let a = Identifier::Numeric(12).concat("rc");
    assert_eq!(a, Identifier::AlphaNumeric("12rc".to_string()));
    let b = Identifier::AlphaNumeric("rc".to_string()).concat("1");
    assert_eq!(b, Identifier::AlphaNumeric("rc1".to_string()));
}

#[test]
fn pre_order_empty_is_greatest() {
    let none = PreOrder(vec![]);
    let rc = PreOrder(vec![Identifier::AlphaNumeric("rc1".to_string())]);
    assert!(none.is_empty());
    assert!(!rc.is_empty());
    assert_eq!(none.compare(&rc), Ordering::Greater);
    assert_eq!(rc.compare(&none), Ordering::Less);
    assert_eq!(none.compare(&PreOrder(vec![])), Ordering::Equal);
}

#[test]
fn tuple_carries_the_order_key() {
    let t = v("1.2.3-rc1").tuple();
    assert_eq!(t.0, 1);
    assert_eq!(t.1, 2);
    assert_eq!(t.2, 3);
    assert_eq!(t.3 .0, vec![Identifier::AlphaNumeric("rc1".to_string())]);
}

#[test]
fn version_new_and_is_pre() {
    let p = Version::new(4, 5, 6);
    assert_eq!(p, v("4.5.6"));
    assert!(!p.is_pre());
    assert!(v("1.0.0-rc1").is_pre());
}

#[test]
fn parse_more_input_error() {
    match Version::parse("1.0.0 and more") {
        Err(hexpm::version::parser::Error::MoreInput(rest)) => {
            assert_eq!(rest, " and more");
        }
        other => panic!("expected MoreInput, got {:?}", other),
    }
}
