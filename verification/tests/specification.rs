use mylog::specification::Specification;
use mylog::LevelFilter;

#[test]
fn default() {
    let s = Specification::new("");
    assert_eq!(s.get_level("foo"), LevelFilter::Error);
    assert_eq!(s.max, LevelFilter::Error);
}

#[test]
fn blah() {
    let s = Specification::new("info,crate1=off,crate2=warn,crate2::inner=trace,crate3");
    assert_eq!(s.max, LevelFilter::Trace);
    assert_eq!(s.get_level("crate1"), LevelFilter::Off);
    assert_eq!(s.get_level("crate2::something"), LevelFilter::Warn);
    assert_eq!(s.get_level("crate2::inner::something"), LevelFilter::Trace);
    assert_eq!(s.get_level("crate3"), LevelFilter::Trace);
    assert_eq!(s.get_level("crate4"), LevelFilter::Info);
}

/// A bare level name is a global rule; the level name parser is exercised
/// through compilation.
#[test]
fn bare_level_name() {
    let s = Specification::new("debug");
    assert_eq!(s.get_level("anything"), LevelFilter::Debug);
    assert_eq!(s.max, LevelFilter::Debug);
}

/// Level names are matched ignoring ASCII case.
#[test]
fn level_names_case_insensitive() {
    let s = Specification::new("INFO,crate1=WaRn");
    assert_eq!(s.get_level("crate1::x"), LevelFilter::Warn);
    assert_eq!(s.get_level("other"), LevelFilter::Info);
}

/// A directive with an unparseable level is dropped; compilation still
/// succeeds and the rest of the specification stands.
#[test]
fn unparseable_level_dropped() {
    let s = Specification::new("info,crate1=bogus");
    assert_eq!(s.get_level("crate1::x"), LevelFilter::Info);
    assert_eq!(s.max, LevelFilter::Info);
}

/// When every directive is dropped, the default catch-all `Error` rule takes
/// over.
#[test]
fn all_dropped_falls_back_to_default() {
    let s = Specification::new("crate1=bogus");
    assert_eq!(s.get_level("crate1::x"), LevelFilter::Error);
    assert_eq!(s.max, LevelFilter::Error);
}

/// A bare token that is not a level name enables everything under that
/// prefix.
#[test]
fn bare_prefix_implicit_max() {
    let s = Specification::new("crate1");
    assert_eq!(s.get_level("crate1::x"), LevelFilter::Trace);
    assert_eq!(s.max, LevelFilter::Trace);
    assert_eq!(s.get_level("unrelated"), LevelFilter::Off);
}

/// Empty tokens are ignored.
#[test]
fn empty_tokens_ignored() {
    let s = Specification::new(",,info,");
    assert_eq!(s.get_level("foo"), LevelFilter::Info);
}

/// An empty prefix before `=` is an explicit global rule.
#[test]
fn empty_prefix_rule() {
    let s = Specification::new("=debug");
    assert_eq!(s.get_level("foo"), LevelFilter::Debug);
}

/// Only the first `=` separates prefix from level, so everything after it
/// must parse as a level name; here it does not and the directive is
/// dropped.
#[test]
fn split_on_first_equals() {
    let s = Specification::new("a=trace=off,b=debug");
    assert_eq!(s.get_level("b::x"), LevelFilter::Debug);
    assert_eq!(s.get_level("a::x"), LevelFilter::Off);
}

/// Equal-length prefixes keep their original relative order, so the earlier
/// one wins for a target both match.
#[test]
fn equal_prefixes_keep_order() {
    let s = Specification::new("foo=info,foo=warn");
    assert_eq!(s.get_level("foo::x"), LevelFilter::Info);
}

/// `off` is a level name too, and the maximum over an all-off specification
/// is `Off`.
#[test]
fn off_specification() {
    let s = Specification::new("off");
    assert_eq!(s.get_level("foo"), LevelFilter::Off);
    assert_eq!(s.max, LevelFilter::Off);
}
