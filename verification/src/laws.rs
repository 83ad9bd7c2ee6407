//! The global laws of the derivation: determinism of the artifact under
//! reordering of the resolved set, correctness of the origin filtering,
//! and identity of repeated runs.

use crate::classify::{crate_lines_of, emits_line, line_of, registry_line, sorted_crate_lines};
use crate::license::{atoms_of_package, atoms_of_packages, canonical_atoms, lemma_canonical_atoms};
use crate::metadata::{description_of, homepage_of, license_summary};
use crate::order::{lemma_lex_total_ordering, lemma_sorted_unique_set, lex_leq_fn};
use crate::package::{PackageMeta, ResolvedPackage};
use crate::text::trim_spec;
use crate::EbuildReport;
use vstd::prelude::*;
use vstd::seq_lib::lemma_multiset_commutative;
use vstd::seq_lib::lemma_sorted_unique;
use vstd::seq_lib::group_to_multiset_ensures;
use vstd::multiset::Multiset;

verus! {

/// The crate lines of a concatenation are the concatenation of the crate
/// lines.
proof fn lemma_crate_lines_concat(u: Seq<ResolvedPackage>, v: Seq<ResolvedPackage>, rn: Seq<char>, rv: Seq<char>)
    ensures
        crate_lines_of(u + v, rn, rv) == crate_lines_of(u, rn, rv) + crate_lines_of(v, rn, rv),
    decreases v.len(),
{
    if v.len() == 0 {
        assert(u + v =~= u);
        assert(crate_lines_of(u, rn, rv) + crate_lines_of(v, rn, rv) =~= crate_lines_of(
            u,
            rn,
            rv,
        ));
    } else {
        let w = u + v;
        assert(w.drop_last() =~= u + v.drop_last());
        assert(w.last() == v.last());
        lemma_crate_lines_concat(u, v.drop_last(), rn, rv);
        if emits_line(v.last(), rn, rv) {
            assert(crate_lines_of(w, rn, rv) =~= crate_lines_of(u, rn, rv) + crate_lines_of(
                v,
                rn,
                rv,
            ));
        } else {
            assert(crate_lines_of(w, rn, rv) =~= crate_lines_of(u, rn, rv) + crate_lines_of(
                v,
                rn,
                rv,
            ));
        }
    }
}

/// The crate lines of a single package.
proof fn lemma_crate_lines_single(p: ResolvedPackage, rn: Seq<char>, rv: Seq<char>)
    ensures
        emits_line(p, rn, rv) ==> crate_lines_of(seq![p], rn, rv) == seq![line_of(p)],
        !emits_line(p, rn, rv) ==> crate_lines_of(seq![p], rn, rv) == Seq::<Seq<char>>::empty(),
{
    assert(crate_lines_of(Seq::<ResolvedPackage>::empty(), rn, rv) == Seq::<Seq<char>>::empty());
    assert(seq![p].drop_last() =~= Seq::<ResolvedPackage>::empty());
    assert(seq![p].last() == p);
    if emits_line(p, rn, rv) {
        assert(crate_lines_of(seq![p], rn, rv) =~= seq![line_of(p)]);
    }
}

/// Two resolved sets that hold the same records, the same number of
/// times each, emit the same crate lines up to order.
proof fn lemma_crate_lines_multiset(
    a: Seq<ResolvedPackage>,
    b: Seq<ResolvedPackage>,
    rn: Seq<char>,
    rv: Seq<char>,
)
    requires
        a.to_multiset() == b.to_multiset(),
    ensures
        crate_lines_of(a, rn, rv).to_multiset() == crate_lines_of(b, rn, rv).to_multiset(),
    decreases a.len(),
{
    broadcast use group_to_multiset_ensures;
    broadcast use vstd::multiset::group_multiset_axioms;

    if a.len() == 0 {
        assert(a.to_multiset().len() == 0);
        assert(b.to_multiset().len() == 0);
        assert(b.len() == 0);
        assert(a =~= b);
    } else {
        let x = a.last();
        let a0 = a.drop_last();
        assert(a =~= a0.push(x));
        assert(a.to_multiset() =~= a0.push(x).to_multiset());
        assert(a0.push(x).to_multiset() =~= a0.to_multiset().insert(x));
        assert(a.to_multiset().count(x) > 0);
        assert(b.to_multiset().count(x) > 0);
        assert(b.contains(x));
        let i = choose|i: int| 0 <= i < b.len() && b[i] == x;
        let b0 = b.remove(i);
        assert(b0.to_multiset() =~= b.to_multiset().remove(x));
        assert(a0.to_multiset() =~= a.to_multiset().remove(x)) by {
            assert(a0.to_multiset().insert(x).remove(x) =~= a0.to_multiset());
        }
        lemma_crate_lines_multiset(a0, b0, rn, rv);
        // decompose b around position i
        let left = b.subrange(0, i);
        let right = b.subrange(i + 1, b.len() as int);
        assert(b =~= left + (seq![x] + right)) by {
            assert(b[i] == x);
        }
        assert(b0 =~= left + right);
        lemma_crate_lines_concat(left, seq![x] + right, rn, rv);
        lemma_crate_lines_concat(seq![x], right, rn, rv);
        lemma_crate_lines_concat(left, right, rn, rv);
        lemma_crate_lines_single(x, rn, rv);
        let ll = crate_lines_of(left, rn, rv);
        let lr = crate_lines_of(right, rn, rv);
        let lx = crate_lines_of(seq![x], rn, rv);
        assert(crate_lines_of(b, rn, rv) == ll + (lx + lr));
        assert(crate_lines_of(b0, rn, rv) == ll + lr);
        lemma_multiset_commutative(ll, lx + lr);
        lemma_multiset_commutative(lx, lr);
        lemma_multiset_commutative(ll, lr);
        // the lines of a are the lines of a0, plus the line of x when it
        // emits one
        if emits_line(x, rn, rv) {
            assert(crate_lines_of(a, rn, rv) == crate_lines_of(a0, rn, rv).push(line_of(x)));
            assert(crate_lines_of(a, rn, rv).to_multiset() =~= crate_lines_of(
                a0,
                rn,
                rv,
            ).to_multiset().insert(line_of(x)));
            assert(lx.to_multiset() =~= Multiset::<Seq<char>>::empty().insert(line_of(x))) by {
                assert(lx =~= Seq::<Seq<char>>::empty().push(line_of(x)));
            }
            assert(crate_lines_of(b, rn, rv).to_multiset() =~= crate_lines_of(
                b0,
                rn,
                rv,
            ).to_multiset().insert(line_of(x)));
            assert(crate_lines_of(a, rn, rv).to_multiset() =~= crate_lines_of(
                b,
                rn,
                rv,
            ).to_multiset());
        } else {
            assert(crate_lines_of(a, rn, rv) == crate_lines_of(a0, rn, rv));
            assert(lx.to_multiset() =~= Multiset::<Seq<char>>::empty());
            assert(crate_lines_of(b, rn, rv).to_multiset() =~= crate_lines_of(
                b0,
                rn,
                rv,
            ).to_multiset());
            assert(crate_lines_of(a, rn, rv).to_multiset() =~= crate_lines_of(
                b,
                rn,
                rv,
            ).to_multiset());
        }
    }
}

/// Two resolved sets with the same records hold the same atoms.
proof fn lemma_atoms_multiset(a: Seq<ResolvedPackage>, b: Seq<ResolvedPackage>)
    requires
        a.to_multiset() == b.to_multiset(),
    ensures
        atoms_of_packages(a) =~= atoms_of_packages(b),
{
    broadcast use group_to_multiset_ensures;

    assert forall|t: Seq<char>| atoms_of_packages(a).contains(t) implies atoms_of_packages(
        b,
    ).contains(t) by {
        let i = choose|i: int|
            0 <= i < a.len() && (#[trigger] atoms_of_package(a[i])).contains(t);
        assert(a.contains(a[i]));
        assert(a.to_multiset().count(a[i]) > 0);
        assert(b.to_multiset().count(a[i]) > 0);
        assert(b.contains(a[i]));
        let j = choose|j: int| 0 <= j < b.len() && b[j] == a[i];
        assert(atoms_of_package(b[j]).contains(t));
    }
    assert forall|t: Seq<char>| atoms_of_packages(b).contains(t) implies atoms_of_packages(
        a,
    ).contains(t) by {
        let i = choose|i: int|
            0 <= i < b.len() && (#[trigger] atoms_of_package(b[i])).contains(t);
        assert(b.contains(b[i]));
        assert(b.to_multiset().count(b[i]) > 0);
        assert(a.to_multiset().count(b[i]) > 0);
        assert(a.contains(b[i]));
        let j = choose|j: int| 0 <= j < a.len() && a[j] == b[i];
        assert(atoms_of_package(a[j]).contains(t));
    }
}

/// Determinism of the artifact: two walks of the same resolved graph,
/// however its records are ordered, derive the same sorted crate-line
/// list and the same license summary.  The output depends on the set of
/// records alone, never on iteration order.
pub proof fn lemma_artifact_deterministic(
    a: Seq<ResolvedPackage>,
    b: Seq<ResolvedPackage>,
    rn: Seq<char>,
    rv: Seq<char>,
)
    requires
        a.to_multiset() == b.to_multiset(),
    ensures
        sorted_crate_lines(a, rn, rv) == sorted_crate_lines(b, rn, rv),
        canonical_atoms(a) == canonical_atoms(b),
        license_summary(canonical_atoms(a)) == license_summary(canonical_atoms(b)),
{
    lemma_lex_total_ordering();
    // crate lines: equal multisets of lines, and sorting a multiset has
    // exactly one result
    lemma_crate_lines_multiset(a, b, rn, rv);
    let la = crate_lines_of(a, rn, rv);
    let lb = crate_lines_of(b, rn, rv);
    la.lemma_sort_by_ensures(lex_leq_fn());
    lb.lemma_sort_by_ensures(lex_leq_fn());
    lemma_sorted_unique(la.sort_by(lex_leq_fn()), lb.sort_by(lex_leq_fn()), lex_leq_fn());
    // license atoms: equal atom sets, and the sorted duplicate-free form
    // of a set is unique
    lemma_atoms_multiset(a, b);
    lemma_canonical_atoms(a);
    lemma_canonical_atoms(b);
    lemma_sorted_unique_set(canonical_atoms(a), canonical_atoms(b));
}

/// How many of the packages emit the crate line `l`.
pub open spec fn emit_count(pkgs: Seq<ResolvedPackage>, rn: Seq<char>, rv: Seq<char>, l: Seq<char>) -> int
    decreases pkgs.len(),
{
    if pkgs.len() == 0 {
        0
    } else {
        emit_count(pkgs.drop_last(), rn, rv, l) + if emits_line(pkgs.last(), rn, rv)
            && line_of(pkgs.last()) == l {
            1 as int
        } else {
            0 as int
        }
    }
}

/// The crate lines before sorting hold `l` as often as packages emit it.
proof fn lemma_unsorted_count(pkgs: Seq<ResolvedPackage>, rn: Seq<char>, rv: Seq<char>, l: Seq<char>)
    ensures
        crate_lines_of(pkgs, rn, rv).to_multiset().count(l) == emit_count(pkgs, rn, rv, l),
    decreases pkgs.len(),
{
    broadcast use group_to_multiset_ensures;
    broadcast use vstd::multiset::group_multiset_axioms;

    if pkgs.len() == 0 {
        let m = crate_lines_of(pkgs, rn, rv).to_multiset();
        assert(m.len() == 0);
        if m.count(l) > 0 {
            assert(crate_lines_of(pkgs, rn, rv).contains(l));
        }
    } else {
        let rest = pkgs.drop_last();
        lemma_unsorted_count(rest, rn, rv, l);
        if emits_line(pkgs.last(), rn, rv) {
            assert(crate_lines_of(pkgs, rn, rv) == crate_lines_of(rest, rn, rv).push(
                line_of(pkgs.last()),
            ));
            assert(crate_lines_of(pkgs, rn, rv).to_multiset() =~= crate_lines_of(
                rest,
                rn,
                rv,
            ).to_multiset().insert(line_of(pkgs.last())));
        }
    }
}

/// Each crate line of the sorted list occurs exactly as often as the
/// packages emit it: sorting neither adds, drops nor duplicates a line.
pub proof fn lemma_line_count(pkgs: Seq<ResolvedPackage>, rn: Seq<char>, rv: Seq<char>, l: Seq<char>)
    ensures
        sorted_crate_lines(pkgs, rn, rv).to_multiset().count(l) == emit_count(pkgs, rn, rv, l),
{
    lemma_lex_total_ordering();
    crate_lines_of(pkgs, rn, rv).lemma_sort_by_ensures(lex_leq_fn());
    lemma_unsorted_count(pkgs, rn, rv, l);
}

/// When no package emits the line `l`, `l` is emitted zero times.
proof fn lemma_emit_count_zero(pkgs: Seq<ResolvedPackage>, rn: Seq<char>, rv: Seq<char>, l: Seq<char>)
    requires
        forall|j: int|
            0 <= j < pkgs.len() && emits_line(#[trigger] pkgs[j], rn, rv) ==> line_of(pkgs[j])
                != l,
    ensures
        emit_count(pkgs, rn, rv, l) == 0,
    decreases pkgs.len(),
{
    if pkgs.len() > 0 {
        let rest = pkgs.drop_last();
        assert(forall|j: int|
            0 <= j < rest.len() && emits_line(#[trigger] rest[j], rn, rv) ==> line_of(rest[j])
                != l) by {
            assert(forall|j: int| 0 <= j < rest.len() ==> rest[j] == pkgs[j]);
        }
        lemma_emit_count_zero(rest, rn, rv, l);
        assert(pkgs[pkgs.len() - 1] == pkgs.last());
    }
}

/// A positive emit count names an emitting package.
proof fn lemma_emit_count_pos(pkgs: Seq<ResolvedPackage>, rn: Seq<char>, rv: Seq<char>, l: Seq<char>)
    requires
        emit_count(pkgs, rn, rv, l) > 0,
    ensures
        exists|i: int|
            0 <= i < pkgs.len() && emits_line(#[trigger] pkgs[i], rn, rv) && line_of(pkgs[i])
                == l,
    decreases pkgs.len(),
{
    let rest = pkgs.drop_last();
    if emits_line(pkgs.last(), rn, rv) && line_of(pkgs.last()) == l {
        assert(pkgs[pkgs.len() - 1] == pkgs.last());
    } else {
        lemma_emit_count_pos(rest, rn, rv, l);
        let i = choose|i: int|
            0 <= i < rest.len() && emits_line(#[trigger] rest[i], rn, rv) && line_of(rest[i])
                == l;
        assert(pkgs[i] == rest[i]);
    }
}

/// Every crate line of the artifact comes from a package that the
/// classifier admits: a package that is not the root and whose origin is
/// a registry.  Nothing else reaches the line list.
pub proof fn lemma_line_has_source(pkgs: Seq<ResolvedPackage>, rn: Seq<char>, rv: Seq<char>, l: Seq<char>)
    requires
        sorted_crate_lines(pkgs, rn, rv).contains(l),
    ensures
        exists|i: int|
            0 <= i < pkgs.len() && emits_line(#[trigger] pkgs[i], rn, rv) && line_of(pkgs[i])
                == l,
{
    broadcast use group_to_multiset_ensures;

    assert(sorted_crate_lines(pkgs, rn, rv).to_multiset().count(l) > 0);
    lemma_line_count(pkgs, rn, rv, l);
    lemma_emit_count_pos(pkgs, rn, rv, l);
}

/// When exactly one package emits the line `l`, it is emitted once.
proof fn lemma_emit_count_one(pkgs: Seq<ResolvedPackage>, rn: Seq<char>, rv: Seq<char>, i: int)
    requires
        0 <= i < pkgs.len(),
        emits_line(pkgs[i], rn, rv),
        forall|j: int|
            0 <= j < pkgs.len() && j != i && emits_line(#[trigger] pkgs[j], rn, rv)
                ==> line_of(pkgs[j]) != line_of(pkgs[i]),
    ensures
        emit_count(pkgs, rn, rv, line_of(pkgs[i])) == 1,
    decreases pkgs.len(),
{
    let l = line_of(pkgs[i]);
    let n = pkgs.len() - 1;
    let rest = pkgs.drop_last();
    assert(pkgs[n] == pkgs.last());
    assert(forall|j: int| 0 <= j < rest.len() ==> rest[j] == pkgs[j]);
    if i == n {
        assert(forall|j: int|
            0 <= j < rest.len() && emits_line(#[trigger] rest[j], rn, rv) ==> line_of(rest[j])
                != l);
        lemma_emit_count_zero(rest, rn, rv, l);
    } else {
        lemma_emit_count_one(rest, rn, rv, i);
    }
}

/// Filtering correctness, inclusion half: a package that is not the root
/// and comes from a registry puts its line into the artifact exactly
/// once, as long as no other admitted package renders the same text (two
/// distinct name-version identities render differently unless their
/// rendered pins collide).
pub proof fn lemma_registry_line_exactly_once(
    pkgs: Seq<ResolvedPackage>,
    rn: Seq<char>,
    rv: Seq<char>,
    i: int,
)
    requires
        0 <= i < pkgs.len(),
        emits_line(pkgs[i], rn, rv),
        forall|j: int|
            0 <= j < pkgs.len() && j != i && emits_line(#[trigger] pkgs[j], rn, rv)
                ==> line_of(pkgs[j]) != line_of(pkgs[i]),
    ensures
        sorted_crate_lines(pkgs, rn, rv).to_multiset().count(line_of(pkgs[i])) == 1,
        sorted_crate_lines(pkgs, rn, rv).contains(line_of(pkgs[i])),
{
    broadcast use group_to_multiset_ensures;

    lemma_line_count(pkgs, rn, rv, line_of(pkgs[i]));
    lemma_emit_count_one(pkgs, rn, rv, i);
    assert(sorted_crate_lines(pkgs, rn, rv).to_multiset().count(line_of(pkgs[i])) > 0);
}

/// Filtering correctness, exclusion half: a local-path package puts no
/// pin into the artifact.  Its own record never emits; the line can only
/// occur if some admitted package happens to render the identical text,
/// which the hypothesis rules out.
pub proof fn lemma_local_path_excluded(
    pkgs: Seq<ResolvedPackage>,
    rn: Seq<char>,
    rv: Seq<char>,
    i: int,
)
    requires
        0 <= i < pkgs.len(),
        pkgs[i].origin is LocalPath,
        forall|j: int|
            0 <= j < pkgs.len() && emits_line(#[trigger] pkgs[j], rn, rv) ==> line_of(pkgs[j])
                != registry_line(pkgs[i].name@, pkgs[i].version@),
    ensures
        !sorted_crate_lines(pkgs, rn, rv).contains(
            registry_line(pkgs[i].name@, pkgs[i].version@),
        ),
{
    broadcast use group_to_multiset_ensures;

    let l = registry_line(pkgs[i].name@, pkgs[i].version@);
    lemma_line_count(pkgs, rn, rv, l);
    lemma_emit_count_zero(pkgs, rn, rv, l);
    if sorted_crate_lines(pkgs, rn, rv).contains(l) {
        assert(sorted_crate_lines(pkgs, rn, rv).to_multiset().count(l) > 0);
    }
}

/// Idempotence: two runs of the derivation over the same resolved set
/// and the same root metadata produce artifact records that agree field
/// for field; the derivation keeps no state between runs.
pub proof fn lemma_rerun_identical(
    r1: EbuildReport,
    r2: EbuildReport,
    pkgs: Seq<ResolvedPackage>,
    root: PackageMeta,
)
    requires
        r1.config.name@ == root.name@,
        r1.config.version@ == root.version@,
        r1.config.description@ == trim_spec(description_of(root)),
        r1.config.homepage@ == trim_spec(homepage_of(root)),
        r1.config.license@ == license_summary(canonical_atoms(pkgs)),
        r1.config.crates.deep_view() == sorted_crate_lines(pkgs, root.name@, root.version@),
        r2.config.name@ == root.name@,
        r2.config.version@ == root.version@,
        r2.config.description@ == trim_spec(description_of(root)),
        r2.config.homepage@ == trim_spec(homepage_of(root)),
        r2.config.license@ == license_summary(canonical_atoms(pkgs)),
        r2.config.crates.deep_view() == sorted_crate_lines(pkgs, root.name@, root.version@),
    ensures
        r1.config.name@ == r2.config.name@,
        r1.config.version@ == r2.config.version@,
        r1.config.description@ == r2.config.description@,
        r1.config.homepage@ == r2.config.homepage@,
        r1.config.license@ == r2.config.license@,
        r1.config.crates.deep_view() == r2.config.crates.deep_view(),
{
}

} // verus!
