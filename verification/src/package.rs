//! The data model of a resolved dependency graph: one record per resolved
//! package, a closed classification of source origins, and the metadata of
//! the root package.

use vstd::prelude::*;

verus! {

/// Where a resolved package's sources come from.  Every package has
/// exactly one origin, and the classifier matches on all of them, so a new
/// kind of origin cannot fall through silently.
#[derive(Debug, Clone, PartialEq, Eq)]
pub enum SourceOrigin {
    /// The default crates registry; the package is pinned as a
    /// `name-version` crate line.
    DefaultRegistry,
    /// A registry other than the default one, reached through the recorded
    /// URL; the packager must configure an extra fetch source.
    AlternateRegistry(String),
    /// A local filesystem path: a workspace member, not an external
    /// dependency to document.
    LocalPath,
    /// A version-control repository at the recorded URL; such a package
    /// cannot be pinned as a crate line and is surfaced separately.
    VersionControl(String),
    /// An origin the classifier does not recognize; the package is
    /// reported and excluded rather than silently dropped.
    Unknown,
}

/// One resolved package: its identity, where its sources come from, and
/// what it says about its license.
#[derive(Debug, Clone, PartialEq, Eq)]
pub struct ResolvedPackage {
    /// The package's name.
    pub name: String,
    /// The exact resolved version, as a string.
    pub version: String,
    /// Where the package's sources come from.
    pub origin: SourceOrigin,
    /// The license expression of the package's manifest, when present.
    pub license: Option<String>,
    /// A license-file reference, when the manifest carries one instead of
    /// an expression.
    pub license_file: Option<String>,
}

/// The metadata of the root package, from which the descriptive fields of
/// the artifact are derived.
#[derive(Debug, Clone, PartialEq, Eq)]
pub struct PackageMeta {
    /// The root package's name.
    pub name: String,
    /// The root package's version, as a string.
    pub version: String,
    /// The manifest's description field, when present.
    pub description: Option<String>,
    /// The manifest's homepage field, when present.
    pub homepage: Option<String>,
    /// The manifest's repository field, when present.
    pub repository: Option<String>,
}

} // verus!
