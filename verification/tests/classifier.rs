use cargo_bom::classify::{package_licenses, split_expression, trim_str};
use cargo_bom::model::LicenseClassification;

fn ids(c: &LicenseClassification) -> Vec<String> {
    match c {
        LicenseClassification::Identifiers(v) => v.clone(),
        other => panic!("expected Identifiers, got {:?}", other),
    }
}

#[test]
fn classifier_normalizes_separators() {
    let legacy = package_licenses(&Some("MIT/Apache-2.0".to_string()), &None);
    let spdx = package_licenses(&Some("Apache-2.0 OR MIT".to_string()), &None);
    assert_eq!(ids(&legacy), vec!["Apache-2.0".to_string(), "MIT".to_string()]);
    assert_eq!(ids(&spdx), vec!["Apache-2.0".to_string(), "MIT".to_string()]);
    assert_eq!(legacy, spdx);
}

#[test]
fn classifier_missing_without_metadata() {
    let c = package_licenses(&None, &None);
    assert_eq!(c, LicenseClassification::Missing);
}

#[test]
fn classifier_prefers_expression_over_file() {
    let c = package_licenses(
        &Some("MIT".to_string()),
        &Some("LICENSE-MIT".to_string()),
    );
    assert_eq!(ids(&c), vec!["MIT".to_string()]);
}

#[test]
fn classifier_declared_file_alone() {
    let c = package_licenses(&None, &Some("COPYING".to_string()));
    assert_eq!(c, LicenseClassification::DeclaredFile("COPYING".to_string()));
}

#[test]
fn classifier_splits_on_and() {
    let c = package_licenses(&Some("MIT AND Apache-2.0".to_string()), &None);
    assert_eq!(ids(&c), vec!["Apache-2.0".to_string(), "MIT".to_string()]);
}

#[test]
fn classifier_drops_empty_tokens() {
    let c = package_licenses(&Some("MIT OR ".to_string()), &None);
    assert_eq!(ids(&c), vec!["MIT".to_string()]);
    let blank = package_licenses(&Some("  ".to_string()), &None);
    assert_eq!(ids(&blank), Vec::<String>::new());
}

#[test]
fn classifier_dedups_repeated_identifier() {
    let c = package_licenses(&Some("MIT OR MIT/MIT".to_string()), &None);
    assert_eq!(ids(&c), vec!["MIT".to_string()]);
}

#[test]
fn classifier_three_way_expression() {
    let c = package_licenses(
        &Some("Unlicense OR MIT OR Apache-2.0".to_string()),
        &None,
    );
    assert_eq!(
        ids(&c),
        vec![
            "Apache-2.0".to_string(),
            "MIT".to_string(),
            "Unlicense".to_string()
        ]
    );
}

#[test]
fn display_joins_identifiers() {
    let c = package_licenses(&Some("MIT OR Apache-2.0".to_string()), &None);
    assert_eq!(c.display_string(), "Apache-2.0, MIT");
}

#[test]
fn display_fixed_strings() {
    let file = package_licenses(&None, &Some("COPYING".to_string()));
    assert_eq!(file.display_string(), "Specified in license file");
    let missing = package_licenses(&None, &None);
    assert_eq!(missing.display_string(), "Missing");
}

#[test]
fn split_keeps_raw_untrimmed_tokens() {
    let toks = split_expression("A OR B/C");
    assert_eq!(
        toks,
        vec!["A ".to_string(), " B".to_string(), "C".to_string()]
    );
}

#[test]
fn trim_removes_ascii_whitespace() {
    assert_eq!(trim_str("  MIT \t\r\n"), "MIT");
    assert_eq!(trim_str(""), "");
    assert_eq!(trim_str(" \t "), "");
    assert_eq!(trim_str("a b"), "a b");
}
