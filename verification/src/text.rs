//! Low-level text operations: whitespace trimming, substring search,
//! splitting on a separator, and joining.
//!
//! All executable functions are specified against mathematical functions on
//! `Seq<char>`, the view of `&str` and `String`.

use vstd::prelude::*;

verus! {

/// The whitespace characters that trimming removes: ASCII space, tab,
/// line feed and carriage return.
pub open spec fn is_space(c: char) -> bool {
    c == ' ' || c == '\t' || c == '\n' || c == '\r'
}

/// `s` with every leading whitespace character removed.
pub open spec fn trim_start_spec(s: Seq<char>) -> Seq<char>
    decreases s.len(),
{
    if s.len() > 0 && is_space(s[0]) {
        trim_start_spec(s.drop_first())
    } else {
        s
    }
}

/// `s` with every trailing whitespace character removed.
pub open spec fn trim_end_spec(s: Seq<char>) -> Seq<char>
    decreases s.len(),
{
    if s.len() > 0 && is_space(s[s.len() - 1]) {
        trim_end_spec(s.drop_last())
    } else {
        s
    }
}

/// `s` with leading and trailing whitespace removed.
pub open spec fn trim_spec(s: Seq<char>) -> Seq<char> {
    trim_end_spec(trim_start_spec(s))
}

/// Dropping `k` leading whitespace characters, up to the first
/// non-whitespace character, is exactly what `trim_start_spec` does.
proof fn lemma_trim_start_skip(s: Seq<char>, k: int)
    requires
        0 <= k <= s.len(),
        forall|j: int| 0 <= j < k ==> is_space(s[j]),
        k == s.len() || !is_space(s[k]),
    ensures
        trim_start_spec(s) == s.skip(k),
    decreases k,
{
    if k == 0 {
        assert(s.skip(0) =~= s);
    } else {
        assert(is_space(s[0]));
        let t = s.drop_first();
        assert(forall|j: int| 0 <= j < k - 1 ==> is_space(#[trigger] t[j]));
        lemma_trim_start_skip(t, k - 1);
        assert(t.skip(k - 1) =~= s.skip(k));
    }
}

/// Dropping every trailing whitespace character, down to the last
/// non-whitespace character, is exactly what `trim_end_spec` does.
proof fn lemma_trim_end_take(s: Seq<char>, m: int)
    requires
        0 <= m <= s.len(),
        forall|j: int| m <= j < s.len() ==> is_space(s[j]),
        m == 0 || !is_space(s[m - 1]),
    ensures
        trim_end_spec(s) == s.take(m),
    decreases s.len(),
{
    if m == s.len() {
        assert(s.take(m) =~= s);
    } else {
        assert(is_space(s[s.len() - 1]));
        let t = s.drop_last();
        lemma_trim_end_take(t, m);
        assert(t.take(m) =~= s.take(m));
    }
}

/// Whether `c` is one of the whitespace characters that trimming removes.
fn is_space_char(c: char) -> (r: bool)
    ensures
        r == is_space(c),
{
    c == ' ' || c == '\t' || c == '\n' || c == '\r'
}

/// A copy of `s` with leading and trailing whitespace removed.
pub fn trim(s: &str) -> (r: String)
    ensures
        r@ == trim_spec(s@),
{
    let n = s.unicode_len();
    let mut a: usize = 0;
    while a < n && is_space_char(s.get_char(a))
        invariant
            n == s@.len(),
            0 <= a <= n,
            forall|j: int| 0 <= j < a ==> is_space(s@[j]),
        decreases n - a,
    {
        a = a + 1;
    }
    proof {
        lemma_trim_start_skip(s@, a as int);
    }
    if a == n {
        proof {
            assert(trim_start_spec(s@) =~= Seq::<char>::empty());
            assert(trim_spec(s@) =~= Seq::<char>::empty());
        }
        String::new()
    } else {
        let mut b: usize = n;
        while b > a && is_space_char(s.get_char(b - 1))
            invariant
                n == s@.len(),
                0 <= a < n,
                a <= b <= n,
                !is_space(s@[a as int]),
                forall|j: int| b <= j < n ==> is_space(s@[j]),
            decreases b,
        {
            b = b - 1;
        }
        proof {
            let t = s@.skip(a as int);
            let m = b - a;
            assert(forall|j: int| m <= j < t.len() ==> is_space(#[trigger] t[j]));
            assert(b > a);
            assert(!is_space(t[m - 1]) || m == 0) by {
                if b == a {
                } else {
                    assert(t[m - 1] == s@[b - 1]);
                }
            }
            lemma_trim_end_take(t, m as int);
            assert(t.take(m as int) =~= s@.subrange(a as int, b as int));
        }
        let r = s.substring_char(a, b);
        String::from_str(r)
    }
}

/// Whether the characters of `sep` occur in `s` starting at position `i`.
pub open spec fn is_match_at(s: Seq<char>, sep: Seq<char>, i: int) -> bool {
    0 <= i && i + sep.len() <= s.len() && s.subrange(i, i + sep.len()) == sep
}

/// The position of the leftmost occurrence of `sep` in `s`, or `-1` when
/// `sep` does not occur in `s`.
pub open spec fn find_spec(s: Seq<char>, sep: Seq<char>) -> int
    recommends
        sep.len() >= 1,
    decreases s.len(),
{
    if sep.len() < 1 || s.len() < sep.len() {
        -1
    } else if s.take(sep.len() as int) == sep {
        0
    } else if find_spec(s.drop_first(), sep) < 0 {
        -1
    } else {
        find_spec(s.drop_first(), sep) + 1
    }
}

/// `find_spec` returns either `-1`, and then `sep` occurs nowhere in `s`,
/// or the position of an occurrence before which there is none.
pub proof fn lemma_find_spec(s: Seq<char>, sep: Seq<char>)
    requires
        sep.len() >= 1,
    ensures
        find_spec(s, sep) < 0 ==> forall|i: int| !is_match_at(s, sep, i),
        find_spec(s, sep) >= 0 ==> is_match_at(s, sep, find_spec(s, sep)),
        find_spec(s, sep) >= 0 ==> forall|i: int|
            0 <= i < find_spec(s, sep) ==> !is_match_at(s, sep, i),
    decreases s.len(),
{
    let r = find_spec(s, sep);
    if sep.len() < 1 || s.len() < sep.len() {
        assert(forall|i: int| !is_match_at(s, sep, i));
    } else if s.take(sep.len() as int) == sep {
        assert(s.take(sep.len() as int) =~= s.subrange(0, sep.len() as int));
    } else {
        let t = s.drop_first();
        lemma_find_spec(t, sep);
        assert forall|i: int| 1 <= i && i + sep.len() <= s.len() implies (is_match_at(
            s,
            sep,
            i,
        ) == is_match_at(t, sep, i - 1)) by {
            assert(s.subrange(i, i + sep.len()) =~= t.subrange(i - 1, i - 1 + sep.len()));
        }
        assert(!is_match_at(s, sep, 0)) by {
            assert(s.subrange(0, sep.len() as int) =~= s.take(sep.len() as int));
        }
        if find_spec(t, sep) < 0 {
            assert forall|i: int| !is_match_at(s, sep, i) by {
                if 1 <= i && i + sep.len() <= s.len() {
                    assert(!is_match_at(t, sep, i - 1));
                }
            }
        }
    }
}

/// Whether `sep` occurs in `s` starting at position `i`.
fn match_at(s: &str, sep: &str, i: usize, n: usize, m: usize) -> (r: bool)
    requires
        n == s@.len(),
        m == sep@.len(),
        0 <= i,
        i + m <= n,
    ensures
        r == is_match_at(s@, sep@, i as int),
{
    let mut k: usize = 0;
    while k < m
        invariant
            n == s@.len(),
            m == sep@.len(),
            i + m <= n,
            0 <= k <= m,
            forall|j: int| 0 <= j < k ==> s@[i + j] == sep@[j],
        decreases m - k,
    {
        if s.get_char(i + k) != sep.get_char(k) {
            assert(s@.subrange(i as int, i + m) != sep@) by {
                assert(s@.subrange(i as int, i + m)[k as int] == s@[i + k]);
            }
            return false;
        }
        k = k + 1;
    }
    assert(s@.subrange(i as int, i + m) =~= sep@);
    true
}

/// The position of the leftmost occurrence of `sep` in `s`, if there is one.
pub fn find_str(s: &str, sep: &str) -> (r: Option<usize>)
    requires
        sep@.len() >= 1,
    ensures
        match r {
            Some(i) => i == find_spec(s@, sep@),
            None => find_spec(s@, sep@) < 0,
        },
{
    let n = s.unicode_len();
    let m = sep.unicode_len();
    if m > n {
        proof {
            lemma_find_spec(s@, sep@);
        }
        return None;
    }
    let mut i: usize = 0;
    while i <= n - m
        invariant
            n == s@.len(),
            m == sep@.len(),
            1 <= m <= n,
            0 <= i <= n - m + 1,
            forall|j: int| 0 <= j < i ==> !is_match_at(s@, sep@, j),
        decreases n - i,
    {
        if match_at(s, sep, i, n, m) {
            proof {
                lemma_find_spec(s@, sep@);
                let f = find_spec(s@, sep@);
                assert(is_match_at(s@, sep@, i as int));
                assert(f >= 0);
                assert(!(f < i) && !(f > i));
            }
            return Some(i);
        }
        i = i + 1;
    }
    proof {
        lemma_find_spec(s@, sep@);
        assert forall|j: int| !is_match_at(s@, sep@, j) by {
            if 0 <= j && j + sep@.len() <= s@.len() {
                assert(j < i);
            }
        }
    }
    None
}

/// The pieces of `s` cut at each occurrence of `sep`, found left to right.
/// A string without an occurrence of `sep` is one piece, so the result is
/// never empty.
pub open spec fn split_spec(s: Seq<char>, sep: Seq<char>) -> Seq<Seq<char>>
    recommends
        sep.len() >= 1,
    decreases s.len(),
{
    let i = find_spec(s, sep);
    if sep.len() < 1 || i < 0 || i + sep.len() > s.len() {
        seq![s]
    } else {
        seq![s.take(i)] + split_spec(s.skip(i + sep.len()), sep)
    }
}

/// The pieces of `s` cut at each occurrence of `sep`.
pub fn split_str(s: &str, sep: &str) -> (r: Vec<String>)
    requires
        sep@.len() >= 1,
    ensures
        r.deep_view() == split_spec(s@, sep@),
    decreases s@.len(),
{
    let n = s.unicode_len();
    let m = sep.unicode_len();
    match find_str(s, sep) {
        None => {
            let mut r: Vec<String> = Vec::new();
            r.push(String::from_str(s));
            proof {
                assert(r.deep_view() =~~= split_spec(s@, sep@));
            }
            r
        },
        Some(i) => {
            proof {
                lemma_find_spec(s@, sep@);
                assert(is_match_at(s@, sep@, i as int));
            }
            let piece = s.substring_char(0, i);
            let rest = s.substring_char(i + m, n);
            let mut r = split_str(rest, sep);
            r.insert(0, String::from_str(piece));
            proof {
                assert(piece@ =~= s@.take(i as int));
                assert(rest@ =~= s@.skip(i + m));
                assert(r.deep_view() =~~= seq![s@.take(i as int)] + split_spec(
                    s@.skip(i + m),
                    sep@,
                ));
            }
            r
        },
    }
}

/// The concatenation of `a` and `b`.
pub fn concat_str(a: &str, b: &str) -> (r: String)
    ensures
        r@ == a@ + b@,
{
    let mut r = String::from_str(a);
    r.append(b);
    r
}

/// Whether `a` and `b` hold the same characters.
pub fn str_eq(a: &str, b: &str) -> (r: bool)
    ensures
        r == (a@ == b@),
{
    let n = a.unicode_len();
    if n != b.unicode_len() {
        return false;
    }
    let mut i: usize = 0;
    while i < n
        invariant
            n == a@.len(),
            n == b@.len(),
            0 <= i <= n,
            forall|j: int| 0 <= j < i ==> a@[j] == b@[j],
        decreases n - i,
    {
        if a.get_char(i) != b.get_char(i) {
            return false;
        }
        i = i + 1;
    }
    proof {
        assert(a@ =~= b@);
    }
    true
}

/// The elements of `parts` concatenated with `sep` between neighbours.
pub open spec fn join_spec(parts: Seq<Seq<char>>, sep: Seq<char>) -> Seq<char>
    decreases parts.len(),
{
    if parts.len() == 0 {
        Seq::<char>::empty()
    } else if parts.len() == 1 {
        parts[0]
    } else {
        parts[0] + sep + join_spec(parts.drop_first(), sep)
    }
}

/// Appending one more part to a join appends a separator and the part.
pub proof fn lemma_join_push(parts: Seq<Seq<char>>, x: Seq<char>, sep: Seq<char>)
    ensures
        parts.len() == 0 ==> join_spec(parts.push(x), sep) == x,
        parts.len() > 0 ==> join_spec(parts.push(x), sep) == join_spec(parts, sep) + sep + x,
    decreases parts.len(),
{
    let p = parts.push(x);
    if parts.len() == 0 {
        assert(p.len() == 1 && p[0] == x);
    } else if parts.len() == 1 {
        assert(p.len() == 2);
        assert(p.drop_first() =~~= seq![x]);
        assert(join_spec(p, sep) == p[0] + sep + join_spec(p.drop_first(), sep));
        assert(join_spec(p.drop_first(), sep) == x);
    } else {
        assert(p.drop_first() =~~= parts.drop_first().push(x));
        lemma_join_push(parts.drop_first(), x, sep);
        assert(join_spec(p, sep) == p[0] + sep + join_spec(parts.drop_first().push(x), sep));
        assert(join_spec(p, sep) =~= parts[0] + sep + (join_spec(parts.drop_first(), sep) + sep
            + x));
        assert(parts[0] + sep + (join_spec(parts.drop_first(), sep) + sep + x) =~= (parts[0] + sep
            + join_spec(parts.drop_first(), sep)) + sep + x);
    }
}

/// The elements of `parts` joined into one string, with `sep` between
/// neighbours.
pub fn join(parts: &Vec<String>, sep: &str) -> (r: String)
    ensures
        r@ == join_spec(parts.deep_view(), sep@),
{
    let n = parts.len();
    let mut r = String::new();
    let mut i: usize = 0;
    while i < n
        invariant
            n == parts@.len(),
            0 <= i <= n,
            r@ == join_spec(parts.deep_view().take(i as int), sep@),
        decreases n - i,
    {
        if i > 0 {
            r.append(sep);
        }
        r.append(parts[i].as_str());
        proof {
            let pv = parts.deep_view();
            assert(pv.take(i + 1) =~~= pv.take(i as int).push(pv[i as int]));
            lemma_join_push(pv.take(i as int), pv[i as int], sep@);
        }
        i = i + 1;
    }
    proof {
        assert(parts.deep_view().take(n as int) =~~= parts.deep_view());
    }
    r
}

} // verus!
