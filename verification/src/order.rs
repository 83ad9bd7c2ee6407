//! Lexicographic ordering of strings and sorted string collections.
//!
//! Strings are ordered by Unicode scalar value, character by character,
//! which coincides with the byte order of their UTF-8 encodings.  The
//! module keeps two kinds of collections in that order: a sorted,
//! duplicate-free vector (the license-atom set) and a sorted vector that
//! keeps duplicates (the crate-line list).

use crate::text::str_eq;
use vstd::multiset::Multiset;
use vstd::prelude::*;
use vstd::relations::{antisymmetric, reflexive, sorted_by, strongly_connected, total_ordering,
    transitive};
use vstd::utf8::char_u32_cast;

verus! {

/// Lexicographic order on character sequences, by Unicode scalar value:
/// whether `a` comes at or before `b`.
pub open spec fn lex_leq(a: Seq<char>, b: Seq<char>) -> bool
    decreases a.len(),
{
    if a.len() == 0 {
        true
    } else if b.len() == 0 {
        false
    } else if (a[0] as u32) < (b[0] as u32) {
        true
    } else if (a[0] as u32) > (b[0] as u32) {
        false
    } else {
        lex_leq(a.drop_first(), b.drop_first())
    }
}

/// The order `lex_leq` as a relation value, in the form the sortedness
/// predicates take.
pub open spec fn lex_leq_fn() -> spec_fn(Seq<char>, Seq<char>) -> bool {
    |a: Seq<char>, b: Seq<char>| lex_leq(a, b)
}

proof fn lemma_lex_refl(a: Seq<char>)
    ensures
        lex_leq(a, a),
    decreases a.len(),
{
    if a.len() > 0 {
        lemma_lex_refl(a.drop_first());
    }
}

proof fn lemma_lex_antisym(a: Seq<char>, b: Seq<char>)
    requires
        lex_leq(a, b),
        lex_leq(b, a),
    ensures
        a == b,
    decreases a.len(),
{
    if a.len() == 0 {
        assert(b.len() == 0);
        assert(a =~= b);
    } else {
        assert(b.len() > 0);
        assert((a[0] as u32) == (b[0] as u32));
        char_u32_cast(a[0], a[0] as u32);
        char_u32_cast(b[0], b[0] as u32);
        assert(a[0] == b[0]);
        lemma_lex_antisym(a.drop_first(), b.drop_first());
        assert(a.len() == b.len());
        assert forall|i: int| 0 <= i < a.len() implies a[i] == b[i] by {
            if i > 0 {
                assert(a[i] == a.drop_first()[i - 1]);
                assert(b[i] == b.drop_first()[i - 1]);
            }
        }
        assert(a =~= b);
    }
}

proof fn lemma_lex_trans(a: Seq<char>, b: Seq<char>, c: Seq<char>)
    requires
        lex_leq(a, b),
        lex_leq(b, c),
    ensures
        lex_leq(a, c),
    decreases a.len(),
{
    if a.len() == 0 {
    } else {
        assert(b.len() > 0);
        assert(c.len() > 0);
        if (a[0] as u32) == (b[0] as u32) && (b[0] as u32) == (c[0] as u32) {
            lemma_lex_trans(a.drop_first(), b.drop_first(), c.drop_first());
        }
    }
}

proof fn lemma_lex_connected(a: Seq<char>, b: Seq<char>)
    ensures
        lex_leq(a, b) || lex_leq(b, a),
    decreases a.len(),
{
    if a.len() > 0 && b.len() > 0 && (a[0] as u32) == (b[0] as u32) {
        lemma_lex_connected(a.drop_first(), b.drop_first());
    }
}

/// `lex_leq` is a total ordering: every pair of strings is comparable,
/// and two strings each at or before the other are equal.
pub proof fn lemma_lex_total_ordering()
    ensures
        total_ordering(lex_leq_fn()),
{
    let r = lex_leq_fn();
    assert forall|a: Seq<char>| #[trigger] r(a, a) by {
        lemma_lex_refl(a);
    }
    assert(reflexive(r));
    assert forall|a: Seq<char>, b: Seq<char>| #[trigger] r(a, b) && #[trigger] r(b, a) implies a
        == b by {
        lemma_lex_antisym(a, b);
    }
    assert(antisymmetric(r));
    assert forall|a: Seq<char>, b: Seq<char>, c: Seq<char>|
        #[trigger] r(a, b) && #[trigger] r(b, c) implies r(a, c) by {
        lemma_lex_trans(a, b, c);
    }
    assert(transitive(r));
    assert forall|a: Seq<char>, b: Seq<char>| #[trigger] r(a, b) || #[trigger] r(b, a) by {
        lemma_lex_connected(a, b);
    }
    assert(strongly_connected(r));
}

/// When the first `i` characters of `a` and `b` agree, their order is the
/// order of their remainders.
proof fn lemma_lex_skip(a: Seq<char>, b: Seq<char>, i: int)
    requires
        0 <= i <= a.len(),
        i <= b.len(),
        forall|j: int| 0 <= j < i ==> a[j] == b[j],
    ensures
        lex_leq(a, b) == lex_leq(a.skip(i), b.skip(i)),
    decreases i,
{
    if i > 0 {
        assert(a.len() > 0 && b.len() > 0);
        assert(a[0] == b[0]);
        let a1 = a.drop_first();
        let b1 = b.drop_first();
        assert(forall|j: int| 0 <= j < i - 1 ==> #[trigger] a1[j] == b1[j]);
        lemma_lex_skip(a1, b1, i - 1);
        assert(a1.skip(i - 1) =~= a.skip(i));
        assert(b1.skip(i - 1) =~= b.skip(i));
    } else {
        assert(a.skip(0) =~= a);
        assert(b.skip(0) =~= b);
    }
}

/// Whether `a` comes at or before `b` in lexicographic order.
pub fn str_leq(a: &str, b: &str) -> (r: bool)
    ensures
        r == lex_leq(a@, b@),
{
    let na = a.unicode_len();
    let nb = b.unicode_len();
    let mut i: usize = 0;
    loop
        invariant
            na == a@.len(),
            nb == b@.len(),
            0 <= i <= na,
            i <= nb,
            forall|j: int| 0 <= j < i ==> a@[j] == b@[j],
        decreases na - i,
    {
        proof {
            lemma_lex_skip(a@, b@, i as int);
        }
        if i == na {
            return true;
        }
        if i == nb {
            return false;
        }
        let ca = a.get_char(i);
        let cb = b.get_char(i);
        let ua = ca as u32;
        let ub = cb as u32;
        if ua < ub {
            assert(a@.skip(i as int)[0] == ca && b@.skip(i as int)[0] == cb);
            return true;
        }
        if ua > ub {
            assert(a@.skip(i as int)[0] == ca && b@.skip(i as int)[0] == cb);
            return false;
        }
        proof {
            char_u32_cast(ca, ua);
            char_u32_cast(cb, ub);
            assert(a@[i as int] == b@[i as int]);
        }
        i = i + 1;
    }
}

/// A sorted vector of strings without duplicates: the shape of the
/// license-atom collection.
pub open spec fn sorted_unique(s: Seq<Seq<char>>) -> bool {
    sorted_by(s, lex_leq_fn()) && s.no_duplicates()
}

/// The least position at which `x` could be inserted into the sorted
/// vector `v` without disturbing its order.
fn lower_insert_pos(v: &Vec<String>, x: &str) -> (i: usize)
    requires
        sorted_by(v.deep_view(), lex_leq_fn()),
    ensures
        0 <= i <= v@.len(),
        forall|j: int| 0 <= j < i ==> !lex_leq(x@, v.deep_view()[j]),
        i < v@.len() ==> lex_leq(x@, v.deep_view()[i as int]),
{
    let n = v.len();
    let mut i: usize = 0;
    while i < n
        invariant
            n == v@.len(),
            0 <= i <= n,
            forall|j: int| 0 <= j < i ==> !lex_leq(x@, v.deep_view()[j]),
        decreases n - i,
    {
        if str_leq(x, v[i].as_str()) {
            return i;
        }
        i = i + 1;
    }
    i
}

/// Inserts the atom `x` into the sorted, duplicate-free vector `v`,
/// keeping it sorted and duplicate-free; an atom already present is not
/// inserted again.
pub fn insert_atom(v: &mut Vec<String>, x: String)
    requires
        sorted_unique(old(v).deep_view()),
    ensures
        sorted_unique(final(v).deep_view()),
        final(v).deep_view().to_set() == old(v).deep_view().to_set().insert(x@),
{
    proof {
        lemma_lex_total_ordering();
    }
    let ghost ov = v.deep_view();
    let i = lower_insert_pos(v, x.as_str());
    if i < v.len() && str_eq(v[i].as_str(), x.as_str()) {
        proof {
            assert(ov.contains(x@)) by {
                assert(ov[i as int] == x@);
            }
            assert(ov.to_set() =~= ov.to_set().insert(x@));
        }
        return;
    }
    v.insert(i, x);
    proof {
        let nv = v.deep_view();
        assert(nv =~~= ov.insert(i as int, x@));
        ov.insert_ensures(i as int, x@);
        // order around the insertion point
        assert forall|p: int, q: int| 0 <= p < q < nv.len() implies #[trigger] lex_leq_fn()(
            nv[p],
            nv[q],
        ) by {
            lemma_lex_connected_pub(x@, ov, i as int, p, q);
        }
        assert(sorted_by(nv, lex_leq_fn()));
        // no duplicates
        assert forall|p: int, q: int|
            0 <= p < nv.len() && 0 <= q < nv.len() && p != q implies nv[p] != nv[q] by {
            lemma_insert_no_dup(x@, ov, i as int, p, q);
        }
        // set of elements
        assert(nv =~~= ov.subrange(0, i as int) + seq![x@] + ov.subrange(i as int, ov.len() as int));
        lemma_to_set_three(ov.subrange(0, i as int), x@, ov.subrange(i as int, ov.len() as int));
        assert(ov.subrange(0, i as int) + ov.subrange(i as int, ov.len() as int) =~= ov);
        lemma_to_set_concat(ov.subrange(0, i as int), ov.subrange(i as int, ov.len() as int));
        assert(nv.to_set() =~= ov.to_set().insert(x@));
    }
}

/// Helper for the sortedness of an insertion: the relation between two
/// positions of `s.insert(i, x)` when everything before `i` is strictly
/// below `x` and `x` is at or below everything from `i` on.
#[verifier::rlimit(50)]
proof fn lemma_lex_connected_pub(x: Seq<char>, s: Seq<Seq<char>>, i: int, p: int, q: int)
    requires
        sorted_by(s, lex_leq_fn()),
        0 <= i <= s.len(),
        forall|j: int| 0 <= j < i ==> !lex_leq(x, s[j]),
        i < s.len() ==> lex_leq(x, s[i]),
        0 <= p < q < s.insert(i, x).len(),
    ensures
        lex_leq_fn()(s.insert(i, x)[p], s.insert(i, x)[q]),
{
    s.insert_ensures(i, x);
    let t = s.insert(i, x);
    if p < i {
        lemma_lex_connected(x, s[p]);
        assert(lex_leq(s[p], x));
    }
    if q > i {
        if i < s.len() {
            if q - 1 > i {
                assert(lex_leq_fn()(s[i], s[q - 1]));
                lemma_lex_trans(x, s[i], s[q - 1]);
            }
            assert(lex_leq(x, s[q - 1]));
        }
    }
    if p == i || q == i {
        // one side is x itself
        if p == i {
            assert(t[p] == x);
            assert(t[q] == s[q - 1]);
            assert(lex_leq(x, s[q - 1]));
        } else {
            assert(t[q] == x);
            assert(t[p] == s[p]);
            assert(lex_leq(s[p], x));
        }
    } else if q < i {
        assert(t[p] == s[p] && t[q] == s[q]);
    } else if p > i {
        assert(t[p] == s[p - 1] && t[q] == s[q - 1]);
    } else {
        // p < i < q
        assert(t[p] == s[p] && t[q] == s[q - 1]);
        lemma_lex_connected(x, s[p]);
        if q - 1 == p {
            assert(lex_leq(s[p], x) && lex_leq(x, s[q - 1]));
            lemma_lex_trans(s[p], x, s[q - 1]);
        } else {
            assert(lex_leq_fn()(s[p], s[q - 1]));
        }
    }
}

/// Helper for freedom from duplicates after an insertion that skips a
/// present element.
proof fn lemma_insert_no_dup(x: Seq<char>, s: Seq<Seq<char>>, i: int, p: int, q: int)
    requires
        sorted_unique(s),
        0 <= i <= s.len(),
        forall|j: int| 0 <= j < i ==> !lex_leq(x, s[j]),
        i < s.len() ==> lex_leq(x, s[i]) && s[i] != x,
        0 <= p < s.insert(i, x).len(),
        0 <= q < s.insert(i, x).len(),
        p != q,
    ensures
        s.insert(i, x)[p] != s.insert(i, x)[q],
{
    s.insert_ensures(i, x);
    let t = s.insert(i, x);
    // x occurs nowhere in s
    assert forall|j: int| 0 <= j < s.len() implies s[j] != x by {
        if j < i {
            lemma_lex_refl(x);
        } else {
            if s[j] == x {
                assert(lex_leq_fn()(s[i], s[j]) || i == j);
                lemma_lex_antisym(x, s[i]);
            }
        }
    }
    if p != i && q != i {
        let p0: int = if p < i { p } else { p - 1 };
        let q0: int = if q < i { q } else { q - 1 };
        assert(t[p] == s[p0] && t[q] == s[q0]);
        assert(p0 != q0);
    }
}

/// The set of elements of the concatenation of two sequences is the union
/// of their sets.
pub proof fn lemma_to_set_concat(a: Seq<Seq<char>>, b: Seq<Seq<char>>)
    ensures
        (a + b).to_set() =~= a.to_set().union(b.to_set()),
{
    assert forall|e: Seq<char>| (a + b).to_set().contains(e) implies a.to_set().union(
        b.to_set(),
    ).contains(e) by {
        let k = choose|k: int| 0 <= k < (a + b).len() && (a + b)[k] == e;
        if k < a.len() {
            assert(a[k] == e);
        } else {
            assert(b[k - a.len()] == e);
        }
    }
    assert forall|e: Seq<char>| a.to_set().union(b.to_set()).contains(e) implies (a
        + b).to_set().contains(e) by {
        if a.to_set().contains(e) {
            let k = choose|k: int| 0 <= k < a.len() && a[k] == e;
            assert((a + b)[k] == e);
        } else {
            let k = choose|k: int| 0 <= k < b.len() && b[k] == e;
            assert((a + b)[a.len() + k] == e);
        }
    }
}

/// The set of elements of `a + [x] + b`.
proof fn lemma_to_set_three(a: Seq<Seq<char>>, x: Seq<char>, b: Seq<Seq<char>>)
    ensures
        (a + seq![x] + b).to_set() =~= (a + b).to_set().insert(x),
{
    lemma_to_set_concat(a + seq![x], b);
    lemma_to_set_concat(a, seq![x]);
    lemma_to_set_concat(a, b);
    assert(seq![x].to_set() =~= Set::empty().insert(x)) by {
        assert(seq![x][0] == x);
        assert forall|e: Seq<char>| seq![x].to_set().contains(e) implies e == x by {
            let k = choose|k: int| 0 <= k < 1 && seq![x][k] == e;
        }
    }
}

/// Sorts the strings of `v` lexicographically, keeping duplicates: the
/// result holds the same strings, the same number of times each.
pub fn sort_strings(v: &Vec<String>) -> (r: Vec<String>)
    ensures
        sorted_by(r.deep_view(), lex_leq_fn()),
        r.deep_view().to_multiset() == v.deep_view().to_multiset(),
{
    proof {
        lemma_lex_total_ordering();
    }
    let n = v.len();
    let mut out: Vec<String> = Vec::new();
    proof {
        assert(out.deep_view() =~~= Seq::<Seq<char>>::empty());
        assert(v.deep_view().take(0) =~~= Seq::<Seq<char>>::empty());
    }
    let mut k: usize = 0;
    while k < n
        invariant
            n == v@.len(),
            0 <= k <= n,
            sorted_by(out.deep_view(), lex_leq_fn()),
            out.deep_view().to_multiset() == v.deep_view().take(k as int).to_multiset(),
        decreases n - k,
    {
        let ghost oldout = out.deep_view();
        let x = v[k].clone();
        proof {
            assert(x@ == v@[k as int]@);
            assert(x@ == v.deep_view()[k as int]);
        }
        let i = lower_insert_pos(&out, x.as_str());
        let ghost xv = x@;
        out.insert(i, x);
        proof {
            let nv = out.deep_view();
            assert(nv =~~= oldout.insert(i as int, xv));
            oldout.insert_ensures(i as int, xv);
            assert forall|p: int, q: int| 0 <= p < q < nv.len() implies #[trigger] lex_leq_fn()(
                nv[p],
                nv[q],
            ) by {
                lemma_lex_connected_pub(xv, oldout, i as int, p, q);
            }
            // multiset: insert in the middle adds one occurrence
            assert(nv =~~= oldout.subrange(0, i as int) + seq![xv] + oldout.subrange(
                i as int,
                oldout.len() as int,
            ));
            lemma_multiset_three(oldout.subrange(0, i as int), xv, oldout.subrange(
                i as int,
                oldout.len() as int,
            ));
            assert(oldout.subrange(0, i as int) + oldout.subrange(i as int, oldout.len() as int)
                =~= oldout);
            vstd::seq_lib::lemma_multiset_commutative(oldout.subrange(0, i as int),
                oldout.subrange(i as int, oldout.len() as int));
            assert(nv.to_multiset() =~= oldout.to_multiset().insert(xv));
            // the prefix of v grows by the same element
            let tk = v.deep_view().take(k as int);
            let tk1 = v.deep_view().take(k + 1);
            assert(tk1 =~~= tk.push(v.deep_view()[k as int]));
            tk.to_multiset_ensures();
        }
        k = k + 1;
    }
    proof {
        assert(v.deep_view().take(n as int) =~~= v.deep_view());
    }
    out
}

/// A sorted sequence with every run of equal neighbours collapsed to one
/// element.
pub open spec fn dedup_sorted(s: Seq<Seq<char>>) -> Seq<Seq<char>>
    decreases s.len(),
{
    if s.len() <= 1 {
        s
    } else if s[0] == s[1] {
        dedup_sorted(s.drop_first())
    } else {
        seq![s[0]] + dedup_sorted(s.drop_first())
    }
}

/// Collapsing equal neighbours of a sorted sequence yields a sorted
/// sequence without duplicates that holds the same set of elements.
pub proof fn lemma_dedup_sorted(s: Seq<Seq<char>>)
    requires
        sorted_by(s, lex_leq_fn()),
    ensures
        sorted_unique(dedup_sorted(s)),
        dedup_sorted(s).to_set() =~= s.to_set(),
    decreases s.len(),
{
    let d = dedup_sorted(s);
    if s.len() <= 1 {
        if s.len() == 1 {
            assert(s.contains(s[0]));
        }
    } else {
        let t = s.drop_first();
        assert(sorted_by(t, lex_leq_fn())) by {
            assert forall|p: int, q: int| 0 <= p < q < t.len() implies #[trigger] lex_leq_fn()(
                t[p],
                t[q],
            ) by {
                assert(t[p] == s[p + 1] && t[q] == s[q + 1]);
            }
        }
        lemma_dedup_sorted(t);
        assert forall|e: Seq<char>| s.contains(e) <==> (e == s[0] || t.contains(e)) by {
            if s.contains(e) {
                let k = choose|k: int| 0 <= k < s.len() && s[k] == e;
                if k > 0 {
                    assert(t[k - 1] == e);
                }
            }
            if t.contains(e) {
                let k = choose|k: int| 0 <= k < t.len() && t[k] == e;
                assert(s[k + 1] == e);
            }
        }
        if s[0] == s[1] {
            assert(t.contains(s[0])) by {
                assert(t[0] == s[1]);
            }
            assert(d.to_set() =~= s.to_set());
        } else {
            lemma_to_set_concat(seq![s[0]], dedup_sorted(t));
            assert(seq![s[0]].to_set() =~= Set::empty().insert(s[0])) by {
                assert(seq![s[0]][0] == s[0]);
                assert(seq![s[0]].contains(s[0]));
                assert forall|e: Seq<char>| seq![s[0]].contains(e) implies e == s[0] by {
                    let k = choose|k: int| 0 <= k < 1 && seq![s[0]][k] == e;
                }
            }
            assert(d.to_set() =~= s.to_set());
            // s[0] is strictly below every element of t, so it does not
            // recur in the deduplicated tail
            assert forall|e: Seq<char>| dedup_sorted(t).contains(e) implies e != s[0] by {
                assert(dedup_sorted(t).to_set().contains(e));
                assert(t.contains(e));
                let k = choose|k: int| 0 <= k < t.len() && t[k] == e;
                if e == s[0] {
                    assert(lex_leq_fn()(s[0], s[1]));
                    if k + 1 > 1 {
                        assert(lex_leq_fn()(s[1], s[k + 1]));
                        lemma_lex_antisym(s[1], s[k + 1]);
                    }
                }
            }
            assert(d =~~= seq![s[0]] + dedup_sorted(t));
            assert(d.no_duplicates()) by {
                assert forall|p: int, q: int|
                    0 <= p < d.len() && 0 <= q < d.len() && p != q implies d[p] != d[q] by {
                    if p > 0 && q > 0 {
                        assert(d[p] == dedup_sorted(t)[p - 1]);
                        assert(d[q] == dedup_sorted(t)[q - 1]);
                    } else if p == 0 {
                        assert(dedup_sorted(t).contains(d[q])) by {
                            assert(dedup_sorted(t)[q - 1] == d[q]);
                        }
                    } else {
                        assert(dedup_sorted(t).contains(d[p])) by {
                            assert(dedup_sorted(t)[p - 1] == d[p]);
                        }
                    }
                }
            }
            assert(sorted_by(d, lex_leq_fn())) by {
                assert forall|p: int, q: int| 0 <= p < q < d.len() implies #[trigger] lex_leq_fn()(
                    d[p],
                    d[q],
                ) by {
                    if p > 0 {
                        assert(d[p] == dedup_sorted(t)[p - 1]);
                        assert(d[q] == dedup_sorted(t)[q - 1]);
                    } else {
                        let e = d[q];
                        assert(dedup_sorted(t).contains(e)) by {
                            assert(dedup_sorted(t)[q - 1] == e);
                        }
                        assert(dedup_sorted(t).to_set().contains(e));
                        assert(t.contains(e));
                        let k = choose|k: int| 0 <= k < t.len() && t[k] == e;
                        assert(lex_leq_fn()(s[0], s[k + 1]));
                    }
                }
            }
        }
    }
}

/// Two sorted, duplicate-free sequences with the same set of elements are
/// the same sequence: the sorted form of a set is unique.
pub proof fn lemma_sorted_unique_set(x: Seq<Seq<char>>, y: Seq<Seq<char>>)
    requires
        sorted_unique(x),
        sorted_unique(y),
        x.to_set() == y.to_set(),
    ensures
        x == y,
{
    broadcast use vstd::seq_lib::group_to_multiset_ensures;

    x.lemma_multiset_has_no_duplicates();
    y.lemma_multiset_has_no_duplicates();
    assert forall|e: Seq<char>| #[trigger] x.to_multiset().count(e) == y.to_multiset().count(
        e,
    ) by {
        assert(x.to_set().contains(e) == x.contains(e));
        assert(y.to_set().contains(e) == y.contains(e));
        if x.contains(e) {
            assert(x.to_multiset().count(e) > 0);
            assert(y.to_multiset().count(e) > 0);
        } else {
            assert(x.to_multiset().count(e) == 0) by {
                if x.to_multiset().count(e) > 0 {
                    assert(x.contains(e));
                }
            }
            assert(y.to_multiset().count(e) == 0) by {
                if y.to_multiset().count(e) > 0 {
                    assert(y.contains(e));
                }
            }
        }
    }
    assert(x.to_multiset() =~= y.to_multiset());
    lemma_lex_total_ordering();
    vstd::seq_lib::lemma_sorted_unique(x, y, lex_leq_fn());
    assert(x =~= y);
}

/// The multiset of elements of `a + [x] + b`.
proof fn lemma_multiset_three(a: Seq<Seq<char>>, x: Seq<char>, b: Seq<Seq<char>>)
    ensures
        (a + seq![x] + b).to_multiset() =~= (a + b).to_multiset().insert(x),
{
    vstd::seq_lib::lemma_multiset_commutative(a + seq![x], b);
    vstd::seq_lib::lemma_multiset_commutative(a, seq![x]);
    vstd::seq_lib::lemma_multiset_commutative(a, b);
    assert(seq![x].to_multiset() =~= Seq::<Seq<char>>::empty().push(x).to_multiset()) by {
        assert(seq![x] =~~= Seq::<Seq<char>>::empty().push(x));
    }
    Seq::<Seq<char>>::empty().to_multiset_ensures();
    assert(Seq::<Seq<char>>::empty().to_multiset() =~= Multiset::<Seq<char>>::empty());
    assert(seq![x].to_multiset() =~= Multiset::<Seq<char>>::empty().insert(x));
}

} // verus!
