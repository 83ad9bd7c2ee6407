use cargo_ebuild::classify::classify_packages;
use cargo_ebuild::ebuild::Ebuild;
use cargo_ebuild::gen_ebuild_data;
use cargo_ebuild::metadata::EbuildConfig;
use cargo_ebuild::package::{PackageMeta, ResolvedPackage, SourceOrigin};
use cargo_ebuild::text::join;

fn pkg(name: &str, version: &str, origin: SourceOrigin, license: Option<&str>) -> ResolvedPackage {
    ResolvedPackage {
        name: name.to_string(),
        version: version.to_string(),
        origin,
        license: license.map(|s| s.to_string()),
        license_file: None,
    }
}

fn root_meta(
    name: &str,
    version: &str,
    description: Option<&str>,
    homepage: Option<&str>,
    repository: Option<&str>,
) -> PackageMeta {
    PackageMeta {
        name: name.to_string(),
        version: version.to_string(),
        description: description.map(|s| s.to_string()),
        homepage: homepage.map(|s| s.to_string()),
        repository: repository.map(|s| s.to_string()),
    }
}

#[test]
fn classifier_sorts_registry_lines() {
    let pkgs = vec![
        pkg("zlib-sys", "1.1.0", SourceOrigin::DefaultRegistry, None),
        pkg("alpha", "0.2.0", SourceOrigin::DefaultRegistry, None),
        pkg("middle", "3.0.1", SourceOrigin::DefaultRegistry, None),
    ];
    let summary = classify_packages(&pkgs, "root", "1.0.0");
    assert_eq!(
        summary.crate_lines,
        vec!["alpha-0.2.0\n", "middle-3.0.1\n", "zlib-sys-1.1.0\n"]
    );
}

#[test]
fn classifier_excludes_root_and_local_paths() {
    let pkgs = vec![
        pkg("root", "1.0.0", SourceOrigin::DefaultRegistry, None),
        pkg("member", "0.1.0", SourceOrigin::LocalPath, None),
        pkg("dep", "2.0.0", SourceOrigin::DefaultRegistry, None),
    ];
    let summary = classify_packages(&pkgs, "root", "1.0.0");
    assert_eq!(summary.crate_lines, vec!["dep-2.0.0\n"]);
    assert!(summary.vcs_sources.is_empty());
    assert!(summary.unknown_origins.is_empty());
}

#[test]
fn classifier_marks_alternate_registry() {
    let pkgs = vec![pkg(
        "inner",
        "0.5.0",
        SourceOrigin::AlternateRegistry("https://example.test/registry".to_string()),
        None,
    )];
    let summary = classify_packages(&pkgs, "root", "1.0.0");
    assert_eq!(
        summary.crate_lines,
        vec!["inner-0.5.0 @ https://example.test/registry\n"]
    );
}

#[test]
fn classifier_surfaces_vcs_and_unknown() {
    let pkgs = vec![
        pkg(
            "gitdep",
            "0.1.0",
            SourceOrigin::VersionControl("https://example.test/repo.git".to_string()),
            None,
        ),
        pkg("odd", "0.0.1", SourceOrigin::Unknown, None),
    ];
    let summary = classify_packages(&pkgs, "root", "1.0.0");
    assert!(summary.crate_lines.is_empty());
    assert_eq!(summary.vcs_sources, vec!["https://example.test/repo.git"]);
    assert_eq!(summary.unknown_origins, vec!["odd"]);
}

#[test]
fn description_falls_back_to_name() {
    let config = EbuildConfig::from_package(
        root_meta("fallback", "0.1.0", None, None, None),
        Vec::new(),
        Vec::new(),
    );
    assert_eq!(config.description, "fallback");
}

#[test]
fn homepage_falls_back_to_repository_then_empty() {
    let with_repo = EbuildConfig::from_package(
        root_meta("p", "0.1.0", None, None, Some("https://example.test/src")),
        Vec::new(),
        Vec::new(),
    );
    assert_eq!(with_repo.homepage, "https://example.test/src");
    let with_home = EbuildConfig::from_package(
        root_meta(
            "p",
            "0.1.0",
            None,
            Some("https://example.test/home"),
            Some("https://example.test/src"),
        ),
        Vec::new(),
        Vec::new(),
    );
    assert_eq!(with_home.homepage, "https://example.test/home");
    let bare = EbuildConfig::from_package(
        root_meta("p", "0.1.0", None, None, None),
        Vec::new(),
        Vec::new(),
    );
    assert_eq!(bare.homepage, "");
}

#[test]
fn missing_license_yields_unknown_license() {
    let config = EbuildConfig::from_package(
        root_meta("p", "0.1.0", None, None, None),
        Vec::new(),
        Vec::new(),
    );
    assert_eq!(config.license, "unknown license");
}

#[test]
fn assembler_trims_fields() {
    let config = EbuildConfig::from_package(
        root_meta("p", "0.1.0", Some("  padded description  "), Some(" https://example.test "), None),
        Vec::new(),
        vec!["MIT".to_string()],
    );
    assert_eq!(config.description, "padded description");
    assert_eq!(config.homepage, "https://example.test");
    assert_eq!(config.license, "MIT");
}

#[test]
fn end_to_end_scenario() {
    let pkgs = vec![
        pkg("demo", "1.2.3", SourceOrigin::LocalPath, None),
        pkg("left-pad", "1.0.0", SourceOrigin::DefaultRegistry, Some("MIT")),
        pkg("demo-core", "0.1.0", SourceOrigin::LocalPath, None),
    ];
    let root = root_meta("demo", "1.2.3", Some("A demonstration"), None, None);
    let report = gen_ebuild_data(&pkgs, root);
    let block = join(&report.config.crates, "");
    assert_eq!(block, "left-pad-1.0.0\n");
    assert_eq!(report.config.license, "MIT");
    assert_eq!(report.config.name, "demo");
    assert_eq!(report.config.version, "1.2.3");
    assert_eq!(report.config.description, "A demonstration");
    assert!(!block.contains("demo-core"));
}

#[test]
fn derivation_is_order_independent() {
    let a = vec![
        pkg("one", "1.0.0", SourceOrigin::DefaultRegistry, Some("MIT")),
        pkg("two", "2.0.0", SourceOrigin::DefaultRegistry, Some("Apache-2.0/ISC")),
        pkg("local", "0.1.0", SourceOrigin::LocalPath, Some("Zlib")),
    ];
    let b = vec![a[2].clone(), a[0].clone(), a[1].clone()];
    let ra = gen_ebuild_data(&a, root_meta("root", "1.0.0", None, None, None));
    let rb = gen_ebuild_data(&b, root_meta("root", "1.0.0", None, None, None));
    assert_eq!(ra.config.crates, rb.config.crates);
    assert_eq!(ra.config.license, rb.config.license);
    assert_eq!(join(&ra.config.crates, ""), join(&rb.config.crates, ""));
}

#[test]
fn rerun_yields_identical_record() {
    let pkgs = vec![
        pkg("dep", "0.3.0", SourceOrigin::DefaultRegistry, Some("MIT OR Apache-2.0")),
        pkg("other", "1.1.1", SourceOrigin::DefaultRegistry, Some("BSD-3-Clause")),
    ];
    let first = gen_ebuild_data(&pkgs, root_meta("app", "2.0.0", Some("An app"), None, None));
    let second = gen_ebuild_data(&pkgs, root_meta("app", "2.0.0", Some("An app"), None, None));
    assert_eq!(first.config, second.config);
}

#[test]
fn ebuild_record_keeps_fields() {
    let e = Ebuild::new(
        "demo",
        "A demonstration",
        "https://example.test",
        "MIT",
        "left-pad-1.0.0\n",
        "1.2.3",
        "generator",
        "0.1.0",
        2026,
    );
    assert_eq!(e.name(), "demo");
    assert_eq!(e.version(), "1.2.3");
}

#[test]
fn license_aggregate_render_is_sorted() {
    let pkgs = vec![
        pkg("x", "1.0.0", SourceOrigin::DefaultRegistry, Some("MIT/Apache-2.0")),
        pkg("y", "1.0.0", SourceOrigin::DefaultRegistry, Some("MIT AND BSD-3-Clause")),
    ];
    let report = gen_ebuild_data(&pkgs, root_meta("root", "1.0.0", None, None, None));
    assert_eq!(report.config.license, "Apache-2.0 BSD-3-Clause MIT");
}

#[test]
fn root_is_excluded_whatever_its_origin() {
    let pkgs = vec![
        pkg("root", "1.0.0", SourceOrigin::DefaultRegistry, Some("MIT")),
        pkg("dep", "2.0.0", SourceOrigin::DefaultRegistry, None),
    ];
    let summary = classify_packages(&pkgs, "root", "1.0.0");
    assert_eq!(summary.crate_lines, vec!["dep-2.0.0\n"]);
    // a different version of the same name is not the root
    let other = classify_packages(&pkgs, "root", "9.9.9");
    assert_eq!(other.crate_lines, vec!["dep-2.0.0\n", "root-1.0.0\n"]);
}

#[test]
fn root_license_still_counts_toward_the_summary() {
    let pkgs = vec![
        pkg("root", "1.0.0", SourceOrigin::LocalPath, Some("GPL-2.0")),
        pkg("dep", "2.0.0", SourceOrigin::DefaultRegistry, Some("MIT")),
    ];
    let report = gen_ebuild_data(&pkgs, root_meta("root", "1.0.0", None, None, None));
    assert_eq!(report.config.license, "GPL-2.0 MIT");
}

#[test]
fn empty_resolved_set_yields_empty_block() {
    let report = gen_ebuild_data(&Vec::new(), root_meta("bare", "0.1.0", None, None, None));
    assert!(report.config.crates.is_empty());
    assert_eq!(join(&report.config.crates, ""), "");
    assert_eq!(report.config.license, "unknown license");
}

#[test]
fn license_file_packages_are_reported_by_pipeline() {
    let pkgs = vec![ResolvedPackage {
        name: "filed".to_string(),
        version: "1.0.0".to_string(),
        origin: SourceOrigin::DefaultRegistry,
        license: None,
        license_file: Some("LICENSE".to_string()),
    }];
    let report = gen_ebuild_data(&pkgs, root_meta("root", "1.0.0", None, None, None));
    assert_eq!(report.license_file_packages, vec!["filed"]);
    assert_eq!(report.config.license, "unknown license");
}
