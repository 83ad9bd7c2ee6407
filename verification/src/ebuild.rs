//! The rendering-input record of one ebuild: every field the textual
//! template consumes, held as plain strings, plus the year stamped into
//! the header.

use vstd::prelude::*;

verus! {

/// The abstract value of an [`Ebuild`]: each field as a character
/// sequence, and the year as an integer.
pub struct EbuildView {
    /// The package name.
    pub name: Seq<char>,
    /// The description line.
    pub description: Seq<char>,
    /// The homepage line.
    pub homepage: Seq<char>,
    /// The license summary line.
    pub license: Seq<char>,
    /// The crates block, one newline-terminated pin per line.
    pub crates: Seq<char>,
    /// The package version.
    pub version: Seq<char>,
    /// The name of the tool recorded as the generator.
    pub provider: Seq<char>,
    /// The version of the recorded generator.
    pub provider_version: Seq<char>,
    /// The year stamped into the header.
    pub this_year: int,
}

/// Everything the template needs to render one ebuild.
#[derive(Debug)]
pub struct Ebuild {
    name: String,
    description: String,
    homepage: String,
    license: String,
    crates: String,
    version: String,
    provider: String,
    provider_version: String,
    this_year: i32,
}

impl View for Ebuild {
    type V = EbuildView;

    closed spec fn view(&self) -> EbuildView {
        EbuildView {
            name: self.name@,
            description: self.description@,
            homepage: self.homepage@,
            license: self.license@,
            crates: self.crates@,
            version: self.version@,
            provider: self.provider@,
            provider_version: self.provider_version@,
            this_year: self.this_year as int,
        }
    }
}

impl Ebuild {
    /// Builds the record from its rendered fields: each field is held
    /// exactly as given.
    pub fn new(
        name: &str,
        description: &str,
        homepage: &str,
        license: &str,
        crates: &str,
        version: &str,
        provider: &str,
        provider_version: &str,
        year: i32,
    ) -> (r: Ebuild)
        ensures
            r@.name == name@,
            r@.description == description@,
            r@.homepage == homepage@,
            r@.license == license@,
            r@.crates == crates@,
            r@.version == version@,
            r@.provider == provider@,
            r@.provider_version == provider_version@,
            r@.this_year == year as int,
    {
        Ebuild {
            name: String::from_str(name),
            description: String::from_str(description),
            homepage: String::from_str(homepage),
            license: String::from_str(license),
            crates: String::from_str(crates),
            version: String::from_str(version),
            provider: String::from_str(provider),
            provider_version: String::from_str(provider_version),
            this_year: year,
        }
    }

    /// The ebuild's package name.
    pub fn name(&self) -> (r: String)
        ensures
            r@ == self@.name,
    {
        self.name.clone()
    }

    /// The ebuild's package version.
    pub fn version(&self) -> (r: String)
        ensures
            r@ == self@.version,
    {
        self.version.clone()
    }
}

} // verus!
