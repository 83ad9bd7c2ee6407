use cargo_ebuild::license::{collect_license_atoms, parse_license};
use cargo_ebuild::order::{insert_atom, sort_strings, str_leq};
use cargo_ebuild::package::{ResolvedPackage, SourceOrigin};
use cargo_ebuild::text::{find_str, join, split_str, str_eq, trim};

fn pkg_with_license(name: &str, license: Option<&str>, license_file: Option<&str>) -> ResolvedPackage {
    ResolvedPackage {
        name: name.to_string(),
        version: "1.0.0".to_string(),
        origin: SourceOrigin::DefaultRegistry,
        license: license.map(|s| s.to_string()),
        license_file: license_file.map(|s| s.to_string()),
    }
}

#[test]
fn split_on_slash() {
    assert_eq!(parse_license("MIT/Apache-2.0"), vec!["MIT", "Apache-2.0"]);
}

#[test]
fn split_on_or() {
    assert_eq!(parse_license("MIT OR Apache-2.0"), vec!["MIT", "Apache-2.0"]);
}

#[test]
fn split_on_and() {
    assert_eq!(parse_license("MIT AND BSD-3-Clause"), vec!["MIT", "BSD-3-Clause"]);
}

#[test]
fn split_mixed_separators() {
    assert_eq!(
        parse_license("MIT/Apache-2.0 OR BSD-3-Clause AND ISC"),
        vec!["MIT", "Apache-2.0", "BSD-3-Clause", "ISC"]
    );
}

#[test]
fn split_trims_tokens() {
    assert_eq!(parse_license("  MIT / Apache-2.0  "), vec!["MIT", "Apache-2.0"]);
}

#[test]
fn split_single_atom() {
    assert_eq!(parse_license("GPL-2.0"), vec!["GPL-2.0"]);
}

#[test]
fn split_keeps_empty_tokens() {
    assert_eq!(parse_license("MIT/"), vec!["MIT", ""]);
}

#[test]
fn atoms_are_sorted_and_unique() {
    let pkgs = vec![
        pkg_with_license("a", Some("MIT/Apache-2.0"), None),
        pkg_with_license("b", Some("Apache-2.0 OR MIT"), None),
        pkg_with_license("c", Some("BSD-3-Clause"), None),
    ];
    let (atoms, warns) = collect_license_atoms(&pkgs);
    assert_eq!(atoms, vec!["Apache-2.0", "BSD-3-Clause", "MIT"]);
    assert!(warns.is_empty());
    assert_eq!(join(&atoms, " "), "Apache-2.0 BSD-3-Clause MIT");
}

#[test]
fn atoms_skip_empty_tokens() {
    let pkgs = vec![pkg_with_license("a", Some("MIT/"), None)];
    let (atoms, _) = collect_license_atoms(&pkgs);
    assert_eq!(atoms, vec!["MIT"]);
}

#[test]
fn license_file_reference_is_reported() {
    let pkgs = vec![
        pkg_with_license("plain", Some("MIT"), None),
        pkg_with_license("filed", None, Some("LICENSE.txt")),
    ];
    let (atoms, warns) = collect_license_atoms(&pkgs);
    assert_eq!(atoms, vec!["MIT"]);
    assert_eq!(warns, vec!["filed"]);
}

#[test]
fn package_without_license_contributes_nothing() {
    let pkgs = vec![pkg_with_license("quiet", None, None)];
    let (atoms, warns) = collect_license_atoms(&pkgs);
    assert!(atoms.is_empty());
    assert!(warns.is_empty());
}

#[test]
fn trim_removes_surrounding_whitespace() {
    assert_eq!(trim("  spaced out \n"), "spaced out");
    assert_eq!(trim(""), "");
    assert_eq!(trim(" \t "), "");
    assert_eq!(trim("solid"), "solid");
}

#[test]
fn split_str_basic() {
    assert_eq!(split_str("a,b,,c", ","), vec!["a", "b", "", "c"]);
    assert_eq!(split_str("abc", ","), vec!["abc"]);
}

#[test]
fn find_str_first_occurrence() {
    assert_eq!(find_str("abcabc", "bc"), Some(1));
    assert_eq!(find_str("abc", "xy"), None);
}

#[test]
fn string_order_helpers() {
    assert!(str_leq("Apache-2.0", "MIT"));
    assert!(!str_leq("MIT", "Apache-2.0"));
    assert!(str_leq("MIT", "MIT"));
    assert!(str_leq("MIT", "MIT-0"));
    assert!(str_eq("same", "same"));
    assert!(!str_eq("same", "Same"));
}

#[test]
fn sort_strings_keeps_duplicates() {
    let v = vec![
        "pear".to_string(),
        "apple".to_string(),
        "pear".to_string(),
        "fig".to_string(),
    ];
    assert_eq!(sort_strings(&v), vec!["apple", "fig", "pear", "pear"]);
}

#[test]
fn insert_atom_deduplicates() {
    let mut v: Vec<String> = Vec::new();
    insert_atom(&mut v, "MIT".to_string());
    insert_atom(&mut v, "Apache-2.0".to_string());
    insert_atom(&mut v, "MIT".to_string());
    assert_eq!(v, vec!["Apache-2.0", "MIT"]);
}
