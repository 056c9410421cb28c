use rnp::range::{parse_npm_version, VersionRequirement};
use rnp::version::{parse_version, render_version, version_cmp};

fn req(t: &str) -> VersionRequirement {
    parse_npm_version(t.as_bytes()).expect("requirement should parse")
}

fn ver(t: &str) -> rnp::version::Version {
    parse_version(t.as_bytes()).expect("version should parse")
}

#[test]
fn wildcard_patch_range() {
    let r = req("1.2.x");
    assert!(r.matches(&ver("1.2.0")));
    assert!(r.matches(&ver("1.2.99")));
    assert!(!r.matches(&ver("1.3.0")));
}

#[test]
fn hyphen_range_bounds() {
    let r = req("1.2.3 - 2.0.0");
    assert!(r.matches(&ver("2.0.0")));
    assert!(!r.matches(&ver("2.0.1")));
    assert!(r.matches(&ver("1.2.3")));
    assert!(!r.matches(&ver("1.2.2")));
}

#[test]
fn caret_pre_one_tightens_to_minor() {
    let r = req("^0.2.3");
    assert!(r.matches(&ver("0.2.9")));
    assert!(!r.matches(&ver("0.3.0")));
    assert!(!r.matches(&ver("0.2.2")));
}

#[test]
fn caret_zero_zero_tightens_to_patch() {
    let r = req("^0.0.3");
    assert!(r.matches(&ver("0.0.3")));
    assert!(!r.matches(&ver("0.0.4")));
}

#[test]
fn caret_ordinary() {
    let r = req("^1.2.3");
    assert!(r.matches(&ver("1.2.3")));
    assert!(r.matches(&ver("1.9.0")));
    assert!(!r.matches(&ver("2.0.0")));
    assert!(!r.matches(&ver("1.2.2")));
}

#[test]
fn tilde_allows_patch_only() {
    let r = req("~1.2.3");
    assert!(r.matches(&ver("1.2.9")));
    assert!(!r.matches(&ver("1.3.0")));
}

#[test]
fn empty_and_star_mean_any() {
    for text in ["", "*", "x"] {
        let r = req(text);
        assert!(r.matches(&ver("0.0.1")));
        assert!(r.matches(&ver("99.1.2")));
        assert!(r.matches(&ver("1.0.0-alpha")));
    }
}

#[test]
fn disjunction_and_operators() {
    let r = req("<1.0.0 || >=2.0.0 <3.0.0");
    assert!(r.matches(&ver("0.9.0")));
    assert!(r.matches(&ver("2.5.0")));
    assert!(!r.matches(&ver("1.5.0")));
    assert!(!r.matches(&ver("3.0.0")));
}

#[test]
fn operator_token_separated_from_version() {
    let r = req(">= 1.2.3");
    assert!(r.matches(&ver("1.2.3")));
    assert!(!r.matches(&ver("1.2.2")));
}

#[test]
fn display_echoes_original_text() {
    let r = req("^1.2.3 || ~2.0.0");
    assert_eq!(r.display(), b"^1.2.3 || ~2.0.0".to_vec());
}

#[test]
fn malformed_requirement_is_an_error() {
    assert!(parse_npm_version(b"not a requirement").is_err());
    assert!(parse_npm_version(b">=").is_err());
}

#[test]
fn version_parse_rejects_malformed() {
    assert!(parse_version(b"1.2").is_none());
    assert!(parse_version(b"01.2.3").is_none());
    assert!(parse_version(b"1.2.3-").is_none());
    assert!(parse_version(b"1.2.3-01").is_none());
    assert!(parse_version(b"").is_none());
}

#[test]
fn version_parse_accepts_pre_and_build() {
    let v = parse_version(b"1.2.3-alpha.1+build.5").expect("should parse");
    assert_eq!(v.major, 1);
    assert_eq!(v.minor, 2);
    assert_eq!(v.patch, 3);
    assert_eq!(render_version(&v), b"1.2.3-alpha.1+build.5".to_vec());
}

#[test]
fn prerelease_ordering() {
    let order = [
        "1.0.0-alpha",
        "1.0.0-alpha.1",
        "1.0.0-alpha.beta",
        "1.0.0-beta",
        "1.0.0-beta.2",
        "1.0.0-beta.11",
        "1.0.0-rc.1",
        "1.0.0",
    ];
    for w in order.windows(2) {
        let a = ver(w[0]);
        let b = ver(w[1]);
        assert!(version_cmp(&a, &b) < 0, "{} should precede {}", w[0], w[1]);
    }
}

#[test]
fn build_metadata_ignored_by_order() {
    assert_eq!(version_cmp(&ver("1.2.3+a"), &ver("1.2.3+b")), 0);
}
