//! Assembly of the final artifact record from the root package's
//! metadata, the sorted crate lines and the aggregated license atoms.
//!
//! Every descriptive field falls back in a fixed order when its primary
//! source is absent: the description falls back to the package name, the
//! homepage to the repository URL and then to the empty string, and the
//! license summary to the literal `unknown license`.  All string fields
//! are trimmed before assembly.

use crate::package::PackageMeta;
use crate::text::{join, join_spec, trim, trim_spec};
use vstd::prelude::*;

verus! {

/// The description the artifact gets: the manifest's description when
/// present, else the package's name.
pub open spec fn description_of(p: PackageMeta) -> Seq<char> {
    match p.description {
        Some(d) => d@,
        None => p.name@,
    }
}

/// The homepage the artifact gets: the manifest's homepage when present,
/// else its repository URL, else the empty string.
pub open spec fn homepage_of(p: PackageMeta) -> Seq<char> {
    match p.homepage {
        Some(h) => h@,
        None => match p.repository {
            Some(r) => r@,
            None => Seq::<char>::empty(),
        },
    }
}

/// The license summary derived from the atom list: the atoms joined with
/// single spaces and trimmed when that yields something, else the literal
/// `unknown license`.
pub open spec fn license_summary(atoms: Seq<Seq<char>>) -> Seq<char> {
    let joined = trim_spec(join_spec(atoms, " "@));
    if joined.len() == 0 {
        "unknown license"@
    } else {
        joined
    }
}

/// The immutable record from which the artifact is rendered: the root
/// package's descriptive fields, the aggregated license summary, and the
/// sorted crate lines.  It is assembled once per run and never mutated.
#[derive(Debug, Clone, PartialEq, Eq)]
pub struct EbuildConfig {
    /// The root package's name.
    pub name: String,
    /// The root package's version.
    pub version: String,
    /// An inherited ebuild class, unset here.
    pub inherit: Option<String>,
    /// The homepage, after the fallback chain.
    pub homepage: String,
    /// The description, after the fallback chain.
    pub description: String,
    /// The license summary, after the fallback chain.
    pub license: String,
    /// A fetch restriction, unset here.
    pub restrict: Option<String>,
    /// The installation slot, unset here.
    pub slot: Option<String>,
    /// The keyword list, unset here.
    pub keywords: Option<String>,
    /// The use-flag list, unset here.
    pub iuse: Option<String>,
    /// Build-time dependencies, unset here.
    pub depend: Option<String>,
    /// Run-time dependencies, unset here.
    pub rdepend: Option<String>,
    /// Post-merge dependencies, unset here.
    pub pdepend: Option<String>,
    /// Whether the run-time dependencies equal the build-time ones.
    pub depend_is_rdepend: bool,
    /// The crate lines, sorted, each newline-terminated.
    pub crates: Vec<String>,
}

impl EbuildConfig {
    /// Assembles the record: a pure function of the root metadata, the
    /// crate lines and the license atoms, with the documented fallback
    /// chain for each descriptive field.
    pub fn from_package(package: PackageMeta, crates: Vec<String>, licenses: Vec<String>) -> (r:
        Self)
        ensures
            r.name@ == package.name@,
            r.version@ == package.version@,
            r.description@ == trim_spec(description_of(package)),
            r.homepage@ == trim_spec(homepage_of(package)),
            r.license@ == license_summary(licenses.deep_view()),
            r.crates == crates,
            r.inherit is None,
            r.restrict is None,
            r.slot is None,
            r.keywords is None,
            r.iuse is None,
            r.depend is None,
            r.rdepend is None,
            r.pdepend is None,
            r.depend_is_rdepend,
    {
        let description = match &package.description {
            Some(d) => trim(d.as_str()),
            None => trim(package.name.as_str()),
        };
        let homepage = match &package.homepage {
            Some(h) => trim(h.as_str()),
            None => match &package.repository {
                Some(rp) => trim(rp.as_str()),
                None => {
                    proof {
                        assert(trim_spec(Seq::<char>::empty()) =~= Seq::<char>::empty());
                    }
                    String::new()
                },
            },
        };
        let joined = join(&licenses, " ");
        let trimmed = trim(joined.as_str());
        let license = if trimmed.unicode_len() == 0 {
            String::from_str("unknown license")
        } else {
            trimmed
        };
        EbuildConfig {
            name: package.name,
            version: package.version,
            inherit: None,
            homepage,
            description,
            license,
            restrict: None,
            slot: None,
            keywords: None,
            iuse: None,
            depend: None,
            rdepend: None,
            pdepend: None,
            depend_is_rdepend: true,
            crates,
        }
    }
}

} // verus!
