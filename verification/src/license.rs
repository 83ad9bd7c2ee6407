//! License normalization: splitting compound license expressions into
//! atomic license identifiers and accumulating a project-wide sorted,
//! duplicate-free collection of atoms.
//!
//! An expression may use the historical slash syntax (`MIT/Apache-2.0`) or
//! the boolean-operator syntax (`MIT OR Apache-2.0`, `MIT AND
//! BSD-3-Clause`); both split into the same atoms.

use crate::order::{dedup_sorted, insert_atom, lemma_dedup_sorted, lemma_lex_total_ordering,
    lemma_to_set_concat, lex_leq_fn, sorted_unique};
use crate::package::ResolvedPackage;
use crate::text::{split_spec, split_str, trim, trim_spec};
use vstd::prelude::*;

verus! {

/// The slash separator of a compound license expression.
pub open spec fn slash_sep() -> Seq<char> {
    "/"@
}

/// The textual ` OR ` separator.
pub open spec fn or_sep() -> Seq<char> {
    " OR "@
}

/// The textual ` AND ` separator.
pub open spec fn and_sep() -> Seq<char> {
    " AND "@
}

/// The trimmed tokens of a license expression: the expression is split on
/// `/`, each piece on ` OR `, each of those pieces on ` AND `, and every
/// resulting token is trimmed of surrounding whitespace.
pub open spec fn license_tokens(s: Seq<char>) -> Seq<Seq<char>> {
    split_spec(s, slash_sep()).flat_map(|p: Seq<char>| split_spec(p, or_sep())).flat_map(
        |p: Seq<char>| split_spec(p, and_sep()),
    ).map_values(|p: Seq<char>| trim_spec(p))
}

/// Splits every string of `parts` on `sep` and concatenates the pieces,
/// keeping their order.
fn split_all(parts: &Vec<String>, sep: &str) -> (r: Vec<String>)
    requires
        sep@.len() >= 1,
    ensures
        r.deep_view() == parts.deep_view().flat_map(|p: Seq<char>| split_spec(p, sep@)),
{
    let ghost f = |p: Seq<char>| split_spec(p, sep@);
    let ghost pv = parts.deep_view();
    let n = parts.len();
    let mut out: Vec<String> = Vec::new();
    proof {
        assert(pv.take(0) =~~= Seq::<Seq<char>>::empty());
        assert(Seq::<Seq<char>>::empty().map_values(f) =~~= Seq::<Seq<Seq<char>>>::empty());
        assert(Seq::<Seq<Seq<char>>>::empty().flatten() =~~= Seq::<Seq<char>>::empty());
        assert(out.deep_view() =~~= pv.take(0).flat_map(f));
    }
    let mut i: usize = 0;
    while i < n
        invariant
            n == parts@.len(),
            pv == parts.deep_view(),
            f == (|p: Seq<char>| split_spec(p, sep@)),
            sep@.len() >= 1,
            0 <= i <= n,
            out.deep_view() == pv.take(i as int).flat_map(f),
        decreases n - i,
    {
        let ghost oldout = out.deep_view();
        let mut pieces = split_str(parts[i].as_str(), sep);
        let ghost piecesv = pieces.deep_view();
        out.append(&mut pieces);
        proof {
            assert(piecesv == f(pv[i as int]));
            assert(out.deep_view() =~~= oldout + piecesv);
            pv.lemma_flat_map_take_append(f, i as int);
            assert(out.deep_view() =~~= pv.take(i + 1).flat_map(f));
        }
        i = i + 1;
    }
    proof {
        assert(pv.take(n as int) =~~= pv);
    }
    out
}

/// Trims every string of `parts`, keeping their order.
fn trim_all(parts: &Vec<String>) -> (r: Vec<String>)
    ensures
        r.deep_view() == parts.deep_view().map_values(|p: Seq<char>| trim_spec(p)),
{
    let n = parts.len();
    let mut out: Vec<String> = Vec::new();
    let mut i: usize = 0;
    while i < n
        invariant
            n == parts@.len(),
            0 <= i <= n,
            out.deep_view() =~~= parts.deep_view().take(i as int).map_values(
                |p: Seq<char>| trim_spec(p),
            ),
        decreases n - i,
    {
        let ghost oldout = out.deep_view();
        let t = trim(parts[i].as_str());
        out.push(t);
        proof {
            let f = |p: Seq<char>| trim_spec(p);
            let pv = parts.deep_view();
            assert(t@ == trim_spec(pv[i as int]));
            assert(out.deep_view() =~~= oldout.push(t@));
            assert(pv.take(i + 1) =~~= pv.take(i as int).push(pv[i as int]));
            assert(out.deep_view() =~~= pv.take(i + 1).map_values(f));
        }
        i = i + 1;
    }
    proof {
        assert(parts.deep_view().take(parts.deep_view().len() as int) =~~= parts.deep_view());
    }
    out
}

/// The trimmed tokens of the license expression `lic_str`, in the order in
/// which they stand in the expression: the expression is split on `/`, on
/// ` OR ` and on ` AND `, and each token is trimmed.
pub fn parse_license(lic_str: &str) -> (r: Vec<String>)
    ensures
        r.deep_view() == license_tokens(lic_str@),
{
    proof {
        reveal_strlit("/");
        reveal_strlit(" OR ");
        reveal_strlit(" AND ");
    }
    let l0 = split_str(lic_str, "/");
    proof {
        assert(l0.deep_view() == split_spec(lic_str@, slash_sep()));
    }
    let l1 = split_all(&l0, " OR ");
    let l2 = split_all(&l1, " AND ");
    let r = trim_all(&l2);
    proof {
        assert(l1.deep_view() == split_spec(lic_str@, slash_sep()).flat_map(
            |p: Seq<char>| split_spec(p, or_sep()),
        ));
        assert(r.deep_view() == license_tokens(lic_str@));
    }
    r
}

/// The tokens of `toks` that are non-empty, in order.
pub open spec fn keep_nonempty(toks: Seq<Seq<char>>) -> Seq<Seq<char>>
    decreases toks.len(),
{
    if toks.len() == 0 {
        Seq::<Seq<char>>::empty()
    } else {
        let rest = keep_nonempty(toks.drop_last());
        if toks.last().len() > 0 {
            rest.push(toks.last())
        } else {
            rest
        }
    }
}

/// The set of non-empty tokens among `toks`.
pub open spec fn nonempty_token_set(toks: Seq<Seq<char>>) -> Set<Seq<char>> {
    Set::new(|a: Seq<char>| toks.contains(a) && a.len() > 0)
}

/// `keep_nonempty` keeps exactly the non-empty tokens.
pub proof fn lemma_keep_nonempty(toks: Seq<Seq<char>>)
    ensures
        keep_nonempty(toks).to_set() =~= nonempty_token_set(toks),
    decreases toks.len(),
{
    if toks.len() == 0 {
        assert forall|a: Seq<char>| !keep_nonempty(toks).contains(a) by {}
        assert(keep_nonempty(toks).to_set() =~= nonempty_token_set(toks));
    } else {
        let t = toks.drop_last();
        let x = toks.last();
        lemma_keep_nonempty(t);
        assert forall|a: Seq<char>| toks.contains(a) <==> (t.contains(a) || a == x) by {
            if toks.contains(a) {
                let k = choose|k: int| 0 <= k < toks.len() && toks[k] == a;
                if k < toks.len() - 1 {
                    assert(t[k] == a);
                }
            }
            if t.contains(a) {
                let k = choose|k: int| 0 <= k < t.len() && t[k] == a;
                assert(toks[k] == a);
            }
            assert(toks[toks.len() - 1] == x);
        }
        let kn = keep_nonempty(toks);
        let knt = keep_nonempty(t);
        if x.len() > 0 {
            assert(kn == knt.push(x));
            assert forall|a: Seq<char>| kn.contains(a) <==> (knt.contains(a) || a == x) by {
                if kn.contains(a) {
                    let k = choose|k: int| 0 <= k < kn.len() && kn[k] == a;
                    if k < kn.len() - 1 {
                        assert(knt[k] == a);
                    }
                }
                if knt.contains(a) {
                    let k = choose|k: int| 0 <= k < knt.len() && knt[k] == a;
                    assert(kn[k] == a);
                }
                assert(kn[kn.len() - 1] == x);
            }
            assert forall|a: Seq<char>|
                kn.to_set().contains(a) <==> nonempty_token_set(toks).contains(a) by {
                assert(kn.to_set().contains(a) == kn.contains(a));
                assert(kn.contains(a) <==> (knt.contains(a) || a == x));
                assert(knt.contains(a) == nonempty_token_set(t).contains(a));
                assert(toks.contains(a) <==> (t.contains(a) || a == x));
            }
            assert(kn.to_set() =~= nonempty_token_set(toks));
        } else {
            assert(kn == knt);
            assert forall|a: Seq<char>|
                kn.to_set().contains(a) <==> nonempty_token_set(toks).contains(a) by {
                assert(kn.to_set().contains(a) == knt.contains(a));
                assert(knt.contains(a) == nonempty_token_set(t).contains(a));
                if nonempty_token_set(toks).contains(a) {
                    assert(toks.contains(a) && a.len() > 0);
                    assert(t.contains(a) || a == x);
                    assert(a != x);
                }
                if nonempty_token_set(t).contains(a) {
                    assert(toks.contains(a));
                }
            }
            assert(kn.to_set() =~= nonempty_token_set(toks));
        }
    }
}

/// The license atoms of one package: the non-empty trimmed tokens of its
/// license expression, none when the package carries no expression.
pub open spec fn atoms_of_package(p: ResolvedPackage) -> Set<Seq<char>> {
    match p.license {
        Some(l) => nonempty_token_set(license_tokens(l@)),
        None => Set::<Seq<char>>::empty(),
    }
}

/// The license atoms of a whole resolved set: an atom belongs to the set
/// exactly when some package's expression yields it.  Membership depends
/// only on which packages occur, never on their order.
pub open spec fn atoms_of_packages(pkgs: Seq<ResolvedPackage>) -> Set<Seq<char>> {
    Set::new(
        |a: Seq<char>|
            exists|i: int|
                0 <= i < pkgs.len() && (#[trigger] atoms_of_package(pkgs[i])).contains(a),
    )
}

/// The names of the packages that carry a license-file reference, in the
/// order in which the packages stand.
pub open spec fn license_file_names(pkgs: Seq<ResolvedPackage>) -> Seq<Seq<char>>
    decreases pkgs.len(),
{
    if pkgs.len() == 0 {
        Seq::<Seq<char>>::empty()
    } else {
        let rest = license_file_names(pkgs.drop_last());
        if pkgs.last().license_file is Some {
            rest.push(pkgs.last().name@)
        } else {
            rest
        }
    }
}

/// Extending the package prefix by one package adds that package's atoms.
proof fn lemma_atoms_take_step(pkgs: Seq<ResolvedPackage>, i: int)
    requires
        0 <= i < pkgs.len(),
    ensures
        atoms_of_packages(pkgs.take(i + 1)) =~= atoms_of_packages(pkgs.take(i)).union(
            atoms_of_package(pkgs[i]),
        ),
{
    let a1 = atoms_of_packages(pkgs.take(i + 1));
    let a0 = atoms_of_packages(pkgs.take(i));
    assert forall|a: Seq<char>| a1.contains(a) implies a0.union(atoms_of_package(pkgs[i])).contains(
        a,
    ) by {
        let k = choose|k: int|
            0 <= k < pkgs.take(i + 1).len() && (#[trigger] atoms_of_package(
                pkgs.take(i + 1)[k],
            )).contains(a);
        if k < i {
            assert(pkgs.take(i)[k] == pkgs.take(i + 1)[k]);
            assert(atoms_of_package(pkgs.take(i)[k]).contains(a));
        } else {
            assert(pkgs.take(i + 1)[k] == pkgs[i]);
        }
    }
    assert forall|a: Seq<char>| a0.union(atoms_of_package(pkgs[i])).contains(a) implies a1.contains(
        a,
    ) by {
        if a0.contains(a) {
            let k = choose|k: int|
                0 <= k < pkgs.take(i).len() && (#[trigger] atoms_of_package(
                    pkgs.take(i)[k],
                )).contains(a);
            assert(pkgs.take(i + 1)[k] == pkgs.take(i)[k]);
            assert(atoms_of_package(pkgs.take(i + 1)[k]).contains(a));
        } else {
            assert(pkgs.take(i + 1)[i] == pkgs[i]);
            assert(atoms_of_package(pkgs.take(i + 1)[i]).contains(a));
        }
    }
}

/// All non-empty license tokens of the resolved set, in package order,
/// duplicates kept.
pub open spec fn all_atom_tokens(pkgs: Seq<ResolvedPackage>) -> Seq<Seq<char>>
    decreases pkgs.len(),
{
    if pkgs.len() == 0 {
        Seq::<Seq<char>>::empty()
    } else {
        all_atom_tokens(pkgs.drop_last()) + (match pkgs.last().license {
            Some(l) => keep_nonempty(license_tokens(l@)),
            None => Seq::<Seq<char>>::empty(),
        })
    }
}

/// The canonical atom list of a resolved set: every atom exactly once, in
/// lexicographic order.
pub open spec fn canonical_atoms(pkgs: Seq<ResolvedPackage>) -> Seq<Seq<char>> {
    dedup_sorted(all_atom_tokens(pkgs).sort_by(lex_leq_fn()))
}

/// The tokens collected over the whole set are exactly its atoms.
proof fn lemma_all_atom_tokens_set(pkgs: Seq<ResolvedPackage>)
    ensures
        all_atom_tokens(pkgs).to_set() =~= atoms_of_packages(pkgs),
    decreases pkgs.len(),
{
    if pkgs.len() == 0 {
        assert forall|a: Seq<char>| !all_atom_tokens(pkgs).contains(a) by {}
        assert(all_atom_tokens(pkgs).to_set() =~= atoms_of_packages(pkgs));
    } else {
        let t = pkgs.drop_last();
        let last = pkgs.last();
        lemma_all_atom_tokens_set(t);
        let last_toks: Seq<Seq<char>> = match last.license {
            Some(l) => keep_nonempty(license_tokens(l@)),
            None => Seq::<Seq<char>>::empty(),
        };
        lemma_to_set_concat(all_atom_tokens(t), last_toks);
        assert(last_toks.to_set() =~= atoms_of_package(last)) by {
            match last.license {
                Some(l) => {
                    lemma_keep_nonempty(license_tokens(l@));
                },
                None => {
                    assert forall|a: Seq<char>| !last_toks.contains(a) by {}
                },
            }
        }
        assert(pkgs.take(pkgs.len() - 1) =~~= t);
        assert(pkgs.take(pkgs.len() as int) =~~= pkgs);
        lemma_atoms_take_step(pkgs, pkgs.len() - 1);
        assert(all_atom_tokens(pkgs).to_set() =~= atoms_of_packages(pkgs));
    }
}

/// The canonical atom list is sorted, free of duplicates, and holds
/// exactly the atoms of the resolved set.
pub proof fn lemma_canonical_atoms(pkgs: Seq<ResolvedPackage>)
    ensures
        sorted_unique(canonical_atoms(pkgs)),
        canonical_atoms(pkgs).to_set() =~= atoms_of_packages(pkgs),
{
    broadcast use vstd::seq_lib::group_to_multiset_ensures;

    let all = all_atom_tokens(pkgs);
    lemma_lex_total_ordering();
    all.lemma_sort_by_ensures(lex_leq_fn());
    let srt = all.sort_by(lex_leq_fn());
    lemma_dedup_sorted(srt);
    assert forall|a: Seq<char>| srt.contains(a) == all.contains(a) by {
        assert(srt.contains(a) <==> srt.to_multiset().count(a) > 0);
        assert(all.contains(a) <==> all.to_multiset().count(a) > 0);
    }
    assert(srt.to_set() =~= all.to_set());
    lemma_all_atom_tokens_set(pkgs);
    assert(canonical_atoms(pkgs).to_set() =~= atoms_of_packages(pkgs));
}

/// Walks the resolved set once and accumulates the sorted, duplicate-free
/// collection of license atoms, together with the names of the packages
/// whose license is only a file reference and therefore cannot contribute
/// an atom.
pub fn collect_license_atoms(pkgs: &Vec<ResolvedPackage>) -> (r: (Vec<String>, Vec<String>))
    ensures
        sorted_unique(r.0.deep_view()),
        r.0.deep_view().to_set() == atoms_of_packages(pkgs@),
        r.1.deep_view() == license_file_names(pkgs@),
{
    let n = pkgs.len();
    let mut atoms: Vec<String> = Vec::new();
    let mut warns: Vec<String> = Vec::new();
    proof {
        assert(atoms.deep_view() =~~= Seq::<Seq<char>>::empty());
        assert(warns.deep_view() =~~= Seq::<Seq<char>>::empty());
        assert(pkgs@.take(0) =~~= Seq::<ResolvedPackage>::empty());
        assert(atoms.deep_view().to_set() =~= atoms_of_packages(pkgs@.take(0)));
    }
    let mut i: usize = 0;
    while i < n
        invariant
            n == pkgs@.len(),
            0 <= i <= n,
            sorted_unique(atoms.deep_view()),
            atoms.deep_view().to_set() == atoms_of_packages(pkgs@.take(i as int)),
            warns.deep_view() == license_file_names(pkgs@.take(i as int)),
        decreases n - i,
    {
        let ghost base = atoms.deep_view().to_set();
        let pkg = &pkgs[i];
        match &pkg.license {
            Some(l) => {
                let toks = parse_license(l.as_str());
                let ghost td = toks.deep_view();
                let m = toks.len();
                let mut j: usize = 0;
                proof {
                    assert(td.take(0) =~~= Seq::<Seq<char>>::empty());
                    assert(base.union(nonempty_token_set(td.take(0))) =~= base);
                }
                while j < m
                    invariant
                        m == toks@.len(),
                        td == toks.deep_view(),
                        0 <= j <= m,
                        sorted_unique(atoms.deep_view()),
                        atoms.deep_view().to_set() == base.union(nonempty_token_set(
                            td.take(j as int),
                        )),
                    decreases m - j,
                {
                    let ghost before = atoms.deep_view().to_set();
                    let tok = toks[j].clone();
                    proof {
                        assert(tok@ == td[j as int]);
                    }
                    if tok.unicode_len() > 0 {
                        insert_atom(&mut atoms, tok);
                    }
                    proof {
                        let t1 = td.take(j + 1);
                        let t0 = td.take(j as int);
                        assert forall|a: Seq<char>|
                            t1.contains(a) <==> (t0.contains(a) || a == td[j as int]) by {
                            if t1.contains(a) {
                                let k = choose|k: int| 0 <= k < t1.len() && t1[k] == a;
                                if k < j {
                                    assert(t0[k] == a);
                                }
                            }
                            if t0.contains(a) {
                                let k = choose|k: int| 0 <= k < t0.len() && t0[k] == a;
                                assert(t1[k] == a);
                            }
                            assert(t1[j as int] == td[j as int]);
                        }
                        if td[j as int].len() > 0 {
                            assert(atoms.deep_view().to_set() =~= before.insert(td[j as int]));
                            assert(atoms.deep_view().to_set() =~= base.union(nonempty_token_set(
                                td.take(j + 1),
                            )));
                        } else {
                            assert(nonempty_token_set(td.take(j + 1)) =~= nonempty_token_set(
                                td.take(j as int),
                            ));
                        }
                    }
                    j = j + 1;
                }
                proof {
                    assert(td.take(m as int) =~~= td);
                    assert(td == license_tokens(l@));
                    assert(atoms_of_package(pkgs@[i as int]) =~= nonempty_token_set(td));
                    lemma_atoms_take_step(pkgs@, i as int);
                    assert(atoms.deep_view().to_set() =~= atoms_of_packages(
                        pkgs@.take(i + 1),
                    ));
                }
            },
            None => {
                proof {
                    lemma_atoms_take_step(pkgs@, i as int);
                    assert(atoms_of_package(pkgs@[i as int]) =~= Set::<Seq<char>>::empty());
                    assert(atoms.deep_view().to_set() =~= atoms_of_packages(
                        pkgs@.take(i + 1),
                    ));
                }
            },
        }
        let ghost oldwarns = warns.deep_view();
        if pkg.license_file.is_some() {
            warns.push(pkg.name.clone());
        }
        proof {
            assert(pkgs@.take(i + 1).drop_last() =~~= pkgs@.take(i as int));
            assert(pkgs@.take(i + 1).last() == pkgs@[i as int]);
            if pkgs@[i as int].license_file is Some {
                assert(warns.deep_view() =~~= oldwarns.push(pkgs@[i as int].name@));
                assert(warns.deep_view() == license_file_names(pkgs@.take(i + 1)));
            } else {
                assert(warns.deep_view() == license_file_names(pkgs@.take(i + 1)));
            }
        }
        i = i + 1;
    }
    proof {
        assert(pkgs@.take(n as int) =~~= pkgs@);
    }
    (atoms, warns)
}

} // verus!
