//! Derivation of a deterministic package-description artifact (a Gentoo-style
//! ebuild) from a resolved dependency graph.
//!
//! The crate takes a set of resolved package records, classifies each record
//! by the origin of its sources, collects the exact `name-version` pins of
//! the registry dependencies, normalizes the per-package license expressions
//! into one sorted set of license atoms, and assembles the result into an
//! immutable record from which the textual artifact is rendered.

pub mod classify;
pub mod ebuild;
pub mod laws;
pub mod license;
pub mod metadata;
pub mod order;
pub mod package;
pub mod text;

use crate::classify::{classify_packages, sorted_crate_lines, unknown_names_of, vcs_urls_of};
use crate::license::{canonical_atoms, collect_license_atoms, lemma_canonical_atoms,
    license_file_names};
use crate::metadata::{description_of, homepage_of, license_summary, EbuildConfig};
use crate::order::{lemma_lex_total_ordering, lemma_sorted_unique_set, lex_leq_fn};
use crate::package::{PackageMeta, ResolvedPackage};
use crate::text::trim_spec;
use vstd::prelude::*;
use vstd::relations::sorted_by;

verus! {

/// Everything one run derives from the resolved graph: the artifact
/// record, and the diagnostic side lists that the caller reports to the
/// operator.
#[derive(Debug)]
pub struct EbuildReport {
    /// The assembled artifact record.
    pub config: EbuildConfig,
    /// The URLs of version-control packages, which cannot be pinned as
    /// crate lines and need manual handling.
    pub vcs_sources: Vec<String>,
    /// The names of packages whose origin was not recognized; they are
    /// excluded from the crate lines and reported instead.
    pub unknown_origins: Vec<String>,
    /// The names of packages whose license is only a file reference and
    /// therefore contributes no atom to the summary.
    pub license_file_packages: Vec<String>,
}

/// Derives the artifact record from a resolved dependency graph and the
/// root package's metadata.
///
/// The crate lines are exactly the pins of the non-root registry
/// packages, sorted; the license summary is derived from the canonical
/// atom set of all packages; the descriptive fields follow the
/// documented fallback chains.  The result is a function of the set of
/// resolved records alone: the order in which they stand changes
/// nothing but the order of the diagnostic side lists.
pub fn gen_ebuild_data(packages: &Vec<ResolvedPackage>, root: PackageMeta) -> (r: EbuildReport)
    ensures
        r.config.name@ == root.name@,
        r.config.version@ == root.version@,
        r.config.description@ == trim_spec(description_of(root)),
        r.config.homepage@ == trim_spec(homepage_of(root)),
        r.config.license@ == license_summary(canonical_atoms(packages@)),
        r.config.crates.deep_view() == sorted_crate_lines(packages@, root.name@, root.version@),
        sorted_by(r.config.crates.deep_view(), lex_leq_fn()),
        r.vcs_sources.deep_view() == vcs_urls_of(packages@, root.name@, root.version@),
        r.unknown_origins.deep_view() == unknown_names_of(packages@, root.name@, root.version@),
        r.license_file_packages.deep_view() == license_file_names(packages@),
{
    let summary = classify_packages(packages, root.name.as_str(), root.version.as_str());
    let (atoms, license_file_packages) = collect_license_atoms(packages);
    proof {
        lemma_canonical_atoms(packages@);
        lemma_sorted_unique_set(atoms.deep_view(), canonical_atoms(packages@));
        lemma_lex_total_ordering();
        crate::classify::crate_lines_of(packages@, root.name@, root.version@).lemma_sort_by_ensures(
            lex_leq_fn(),
        );
    }
    let config = EbuildConfig::from_package(root, summary.crate_lines, atoms);
    EbuildReport {
        config,
        vcs_sources: summary.vcs_sources,
        unknown_origins: summary.unknown_origins,
        license_file_packages,
    }
}

} // verus!
