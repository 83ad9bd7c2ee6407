//! Classification of resolved packages by source origin, and derivation
//! of the sorted crate-line list.
//!
//! The classifier excludes the root package and every local-path package
//! (workspace members are not external dependencies), emits a pin line
//! for each registry package, collects the URLs of version-control
//! packages into a side list, and reports packages of unrecognized origin
//! instead of dropping them silently.  Each decision depends only on the
//! package's own record, never on the order of the walk; the final line
//! list is sorted, so the output is a function of the set of packages
//! alone.

use crate::order::{lex_leq_fn, sort_strings};
use crate::package::{ResolvedPackage, SourceOrigin};
use crate::text::concat_str;
use crate::text::str_eq;
use vstd::prelude::*;
use vstd::relations::sorted_by;

verus! {

/// Whether `p` is the root package itself: the package whose name and
/// version are those of the root.
pub open spec fn is_root_pkg(p: ResolvedPackage, root_name: Seq<char>, root_version: Seq<char>) -> bool {
    p.name@ == root_name && p.version@ == root_version
}

/// The crate line of a package from the default registry: the exact pin
/// `name-version`, newline-terminated.
pub open spec fn registry_line(name: Seq<char>, version: Seq<char>) -> Seq<char> {
    name + "-"@ + version + "\n"@
}

/// The crate line of a package from an alternate registry: the pin,
/// then ` @ ` and the registry URL the packager must configure as an
/// extra fetch source, newline-terminated.
pub open spec fn alternate_line(name: Seq<char>, version: Seq<char>, url: Seq<char>) -> Seq<char> {
    name + "-"@ + version + " @ "@ + url + "\n"@
}

/// Whether the classifier emits a crate line for `p`: the package is not
/// the root, and its origin is a registry, default or alternate.
pub open spec fn emits_line(p: ResolvedPackage, rn: Seq<char>, rv: Seq<char>) -> bool {
    !is_root_pkg(p, rn, rv) && (p.origin is DefaultRegistry || p.origin is AlternateRegistry)
}

/// The crate line emitted for `p`, by the origin of its sources.
pub open spec fn line_of(p: ResolvedPackage) -> Seq<char> {
    match p.origin {
        SourceOrigin::AlternateRegistry(u) => alternate_line(p.name@, p.version@, u@),
        _ => registry_line(p.name@, p.version@),
    }
}

/// The crate lines of the resolved set, one per emitting package, in
/// package order, before sorting.
pub open spec fn crate_lines_of(pkgs: Seq<ResolvedPackage>, rn: Seq<char>, rv: Seq<char>) -> Seq<
    Seq<char>,
>
    decreases pkgs.len(),
{
    if pkgs.len() == 0 {
        Seq::<Seq<char>>::empty()
    } else {
        let rest = crate_lines_of(pkgs.drop_last(), rn, rv);
        if emits_line(pkgs.last(), rn, rv) {
            rest.push(line_of(pkgs.last()))
        } else {
            rest
        }
    }
}

/// The crate-line list of the artifact: the emitted lines in lexicographic
/// order.
pub open spec fn sorted_crate_lines(pkgs: Seq<ResolvedPackage>, rn: Seq<char>, rv: Seq<char>) -> Seq<
    Seq<char>,
> {
    crate_lines_of(pkgs, rn, rv).sort_by(lex_leq_fn())
}

/// The URLs of the version-control packages, in package order.  Such
/// packages cannot be pinned as crate lines and need manual handling.
pub open spec fn vcs_urls_of(pkgs: Seq<ResolvedPackage>, rn: Seq<char>, rv: Seq<char>) -> Seq<
    Seq<char>,
>
    decreases pkgs.len(),
{
    if pkgs.len() == 0 {
        Seq::<Seq<char>>::empty()
    } else {
        let rest = vcs_urls_of(pkgs.drop_last(), rn, rv);
        match pkgs.last().origin {
            SourceOrigin::VersionControl(u) => if !is_root_pkg(pkgs.last(), rn, rv) {
                rest.push(u@)
            } else {
                rest
            },
            _ => rest,
        }
    }
}

/// The names of the packages whose origin the classifier does not
/// recognize, in package order.
pub open spec fn unknown_names_of(pkgs: Seq<ResolvedPackage>, rn: Seq<char>, rv: Seq<char>) -> Seq<
    Seq<char>,
>
    decreases pkgs.len(),
{
    if pkgs.len() == 0 {
        Seq::<Seq<char>>::empty()
    } else {
        let rest = unknown_names_of(pkgs.drop_last(), rn, rv);
        if pkgs.last().origin is Unknown && !is_root_pkg(pkgs.last(), rn, rv) {
            rest.push(pkgs.last().name@)
        } else {
            rest
        }
    }
}

/// What the classifier hands on: the sorted crate lines, the side list of
/// version-control URLs, and the names of packages of unrecognized
/// origin.
pub struct GraphSummary {
    /// The crate lines, sorted lexicographically.
    pub crate_lines: Vec<String>,
    /// The URLs of version-control packages, in package order.
    pub vcs_sources: Vec<String>,
    /// The names of packages of unrecognized origin, in package order.
    pub unknown_origins: Vec<String>,
}

/// The crate line of a default-registry package.
fn make_registry_line(name: &str, version: &str) -> (r: String)
    ensures
        r@ == registry_line(name@, version@),
{
    let a = concat_str(name, "-");
    let b = concat_str(a.as_str(), version);
    let c = concat_str(b.as_str(), "\n");
    proof {
        assert(c@ =~= registry_line(name@, version@));
    }
    c
}

/// The crate line of an alternate-registry package.
fn make_alternate_line(name: &str, version: &str, url: &str) -> (r: String)
    ensures
        r@ == alternate_line(name@, version@, url@),
{
    let a = concat_str(name, "-");
    let b = concat_str(a.as_str(), version);
    let c = concat_str(b.as_str(), " @ ");
    let d = concat_str(c.as_str(), url);
    let e = concat_str(d.as_str(), "\n");
    proof {
        assert(e@ =~= alternate_line(name@, version@, url@));
    }
    e
}

/// Walks the resolved set once, classifies every package by its origin,
/// and returns the sorted crate lines together with the version-control
/// and unknown-origin side lists.
pub fn classify_packages(pkgs: &Vec<ResolvedPackage>, root_name: &str, root_version: &str) -> (r:
    GraphSummary)
    ensures
        r.crate_lines.deep_view() == sorted_crate_lines(pkgs@, root_name@, root_version@),
        r.vcs_sources.deep_view() == vcs_urls_of(pkgs@, root_name@, root_version@),
        r.unknown_origins.deep_view() == unknown_names_of(pkgs@, root_name@, root_version@),
{
    let ghost rn = root_name@;
    let ghost rv = root_version@;
    let n = pkgs.len();
    let mut lines: Vec<String> = Vec::new();
    let mut vcs: Vec<String> = Vec::new();
    let mut unknown: Vec<String> = Vec::new();
    proof {
        assert(pkgs@.take(0) =~~= Seq::<ResolvedPackage>::empty());
        assert(lines.deep_view() =~~= crate_lines_of(pkgs@.take(0), rn, rv));
        assert(vcs.deep_view() =~~= vcs_urls_of(pkgs@.take(0), rn, rv));
        assert(unknown.deep_view() =~~= unknown_names_of(pkgs@.take(0), rn, rv));
    }
    let mut i: usize = 0;
    while i < n
        invariant
            n == pkgs@.len(),
            rn == root_name@,
            rv == root_version@,
            0 <= i <= n,
            lines.deep_view() == crate_lines_of(pkgs@.take(i as int), rn, rv),
            vcs.deep_view() == vcs_urls_of(pkgs@.take(i as int), rn, rv),
            unknown.deep_view() == unknown_names_of(pkgs@.take(i as int), rn, rv),
        decreases n - i,
    {
        let ghost oldlines = lines.deep_view();
        let ghost oldvcs = vcs.deep_view();
        let ghost oldunknown = unknown.deep_view();
        let pkg = &pkgs[i];
        let at_root = str_eq(pkg.name.as_str(), root_name) && str_eq(
            pkg.version.as_str(),
            root_version,
        );
        proof {
            assert(at_root == is_root_pkg(pkgs@[i as int], rn, rv));
        }
        if !at_root {
            match &pkg.origin {
                SourceOrigin::DefaultRegistry => {
                    let line = make_registry_line(pkg.name.as_str(), pkg.version.as_str());
                    lines.push(line);
                },
                SourceOrigin::AlternateRegistry(u) => {
                    let line = make_alternate_line(
                        pkg.name.as_str(),
                        pkg.version.as_str(),
                        u.as_str(),
                    );
                    lines.push(line);
                },
                SourceOrigin::LocalPath => {},
                SourceOrigin::VersionControl(u) => {
                    vcs.push(u.clone());
                },
                SourceOrigin::Unknown => {
                    unknown.push(pkg.name.clone());
                },
            }
        }
        proof {
            let t1 = pkgs@.take(i + 1);
            assert(t1.drop_last() =~~= pkgs@.take(i as int));
            assert(t1.last() == pkgs@[i as int]);
            if emits_line(pkgs@[i as int], rn, rv) {
                assert(lines.deep_view() =~~= oldlines.push(line_of(pkgs@[i as int])));
            } else {
                assert(lines.deep_view() == oldlines);
            }
            assert(lines.deep_view() == crate_lines_of(t1, rn, rv));
            assert(vcs.deep_view() == vcs_urls_of(t1, rn, rv));
            assert(unknown.deep_view() == unknown_names_of(t1, rn, rv));
        }
        i = i + 1;
    }
    proof {
        assert(pkgs@.take(n as int) =~~= pkgs@);
    }
    let sorted = sort_strings(&lines);
    proof {
        let unsorted = crate_lines_of(pkgs@, rn, rv);
        crate::order::lemma_lex_total_ordering();
        unsorted.lemma_sort_by_ensures(lex_leq_fn());
        vstd::seq_lib::lemma_sorted_unique(
            sorted.deep_view(),
            unsorted.sort_by(lex_leq_fn()),
            lex_leq_fn(),
        );
    }
    GraphSummary { crate_lines: sorted, vcs_sources: vcs, unknown_origins: unknown }
}

} // verus!
