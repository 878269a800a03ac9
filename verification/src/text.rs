//! Verified string utilities: equality, lexicographic order, separator
//! search, and joining of `group.name` bundle paths.

use vstd::prelude::*;

verus! {

/// Strict lexicographic order on character sequences, ordering characters by
/// Unicode scalar value. This is the order in which `str` values sort.
pub open spec fn lex_lt(a: Seq<char>, b: Seq<char>) -> bool
    decreases a.len(),
{
    if b.len() == 0 {
        false
    } else if a.len() == 0 {
        true
    } else if a[0] != b[0] {
        a[0] < b[0]
    } else {
        lex_lt(a.drop_first(), b.drop_first())
    }
}

/// The smallest index `i` with `from <= i < s.len()` and `s[i] == c`,
/// or `s.len()` when `c` does not occur at or after `from`.
pub open spec fn first_index_of(s: Seq<char>, c: char, from: int) -> int
    decreases s.len() - from,
{
    if from < 0 || from >= s.len() {
        s.len() as int
    } else if s[from] == c {
        from
    } else {
        first_index_of(s, c, from + 1)
    }
}

/// A bundle path: the group name, a dot, and the entry name.
pub open spec fn spec_join_path(group: Seq<char>, name: Seq<char>) -> Seq<char> {
    group + seq!['.'] + name
}

/// No sequence is lexicographically before itself.
pub proof fn lemma_lex_irrefl(a: Seq<char>)
    ensures
        !lex_lt(a, a),
    decreases a.len(),
{
    if a.len() > 0 {
        lemma_lex_irrefl(a.drop_first());
    }
}

/// Any two sequences are equal or lexicographically ordered one way.
pub proof fn lemma_lex_connected(a: Seq<char>, b: Seq<char>)
    ensures
        a == b || lex_lt(a, b) || lex_lt(b, a),
    decreases a.len(),
{
    if a.len() == 0 && b.len() == 0 {
        assert(a =~= b);
    } else if a.len() > 0 && b.len() > 0 && a[0] == b[0] {
        lemma_lex_connected(a.drop_first(), b.drop_first());
        if a.drop_first() == b.drop_first() {
            assert(a.drop_first().len() == a.len() - 1);
            assert(b.drop_first().len() == b.len() - 1);
            assert(a.len() == b.len());
            assert forall|i: int| 0 <= i < a.len() implies a[i] == b[i] by {
                if i >= 1 {
                    assert(a[i] == a.drop_first()[i - 1]);
                    assert(b[i] == b.drop_first()[i - 1]);
                }
            }
            assert(a =~= b);
        }
    } else if a.len() == 0 {
        assert(lex_lt(a, b));
    } else if b.len() == 0 {
        assert(lex_lt(b, a));
    } else {
        if a[0] < b[0] {
            assert(lex_lt(a, b));
        } else {
            assert(b[0] < a[0]);
            assert(lex_lt(b, a));
        }
    }
}

/// Lexicographic order is transitive.
pub proof fn lemma_lex_trans(a: Seq<char>, b: Seq<char>, c: Seq<char>)
    requires
        lex_lt(a, b),
        lex_lt(b, c),
    ensures
        lex_lt(a, c),
    decreases a.len(),
{
    if a.len() > 0 && b.len() > 0 && c.len() > 0 && a[0] == b[0] && b[0] == c[0] {
        lemma_lex_trans(a.drop_first(), b.drop_first(), c.drop_first());
    }
}

/// Lexicographic order is asymmetric.
pub proof fn lemma_lex_asym(a: Seq<char>, b: Seq<char>)
    requires
        lex_lt(a, b),
    ensures
        !lex_lt(b, a),
        a != b,
{
    lemma_lex_irrefl(a);
    if lex_lt(b, a) {
        lemma_lex_trans(a, b, a);
    }
}

/// A sequence of strings in non-decreasing lexicographic order.
pub open spec fn sorted_lex(s: Seq<Seq<char>>) -> bool {
    forall|i: int, j: int| 0 <= i < j < s.len() ==> lex_lt(s[i], s[j]) || s[i] == s[j]
}

/// `first_index_of` indeed points at the first occurrence.
pub proof fn lemma_first_index_of(s: Seq<char>, c: char, from: int)
    requires
        0 <= from <= s.len(),
    ensures
        from <= first_index_of(s, c, from) <= s.len(),
        first_index_of(s, c, from) < s.len() ==> s[first_index_of(s, c, from)] == c,
        forall|j: int| from <= j < first_index_of(s, c, from) ==> s[j] != c,
    decreases s.len() - from,
{
    if from < s.len() && s[from] != c {
        lemma_first_index_of(s, c, from + 1);
    }
}

/// Character-by-character string equality.
#[verifier::loop_isolation(false)]
pub fn str_eq(a: &str, b: &str) -> (r: bool)
    ensures
        r == (a@ == b@),
{
    let alen = a.unicode_len();
    let blen = b.unicode_len();
    if alen != blen {
        return false;
    }
    let mut i: usize = 0;
    while i < alen
        invariant
            0 <= i <= alen,
            alen == a@.len(),
            alen == b@.len(),
            forall|j: int| 0 <= j < i ==> a@[j] == b@[j],
        decreases alen - i,
    {
        if a.get_char(i) != b.get_char(i) {
            return false;
        }
        i += 1;
    }
    proof {
        assert(a@ =~= b@);
    }
    true
}

/// Character-by-character lexicographic comparison: is `a` strictly
/// before `b`?
#[verifier::loop_isolation(false)]
pub fn str_lt(a: &str, b: &str) -> (r: bool)
    ensures
        r == lex_lt(a@, b@),
{
    let alen = a.unicode_len();
    let blen = b.unicode_len();
    let mut i: usize = 0;
    proof {
        assert(a@.skip(0) =~= a@);
        assert(b@.skip(0) =~= b@);
    }
    loop
        invariant
            0 <= i <= alen,
            i <= blen,
            alen == a@.len(),
            blen == b@.len(),
            lex_lt(a@, b@) == lex_lt(a@.skip(i as int), b@.skip(i as int)),
        decreases alen - i,
    {
        if i == blen {
            return false;
        }
        if i == alen {
            return true;
        }
        let ca = a.get_char(i);
        let cb = b.get_char(i);
        if ca != cb {
            return ca < cb;
        }
        proof {
            assert(a@.skip(i as int).drop_first() =~= a@.skip(i + 1));
            assert(b@.skip(i as int).drop_first() =~= b@.skip(i + 1));
        }
        i += 1;
    }
}

/// The first index at or after `from` where character `c` occurs in `s`,
/// or the length of `s` when it does not occur.
#[verifier::loop_isolation(false)]
pub fn find_char_from(s: &str, c: char, from: usize) -> (r: usize)
    requires
        from <= s@.len(),
    ensures
        r == first_index_of(s@, c, from as int),
        from <= r <= s@.len(),
        r < s@.len() ==> s@[r as int] == c,
        forall|j: int| from <= j < r ==> s@[j] != c,
{
    proof {
        lemma_first_index_of(s@, c, from as int);
    }
    let len = s.unicode_len();
    let mut i: usize = from;
    while i < len
        invariant
            from <= i <= len,
            len == s@.len(),
            first_index_of(s@, c, from as int) == first_index_of(s@, c, i as int),
            forall|j: int| from <= j < i ==> s@[j] != c,
        decreases len - i,
    {
        if s.get_char(i) == c {
            return i;
        }
        i += 1;
    }
    len
}

/// Copy a `&str` into an owned `String`.
pub fn str_to_string(s: &str) -> (r: String)
    ensures
        r@ == s@,
{
    String::from_str(s)
}

/// Concatenate two string slices into an owned `String`.
pub fn str_concat(a: &str, b: &str) -> (r: String)
    ensures
        r@ == a@ + b@,
{
    String::from_str(a).concat(b)
}

/// The first position whose element is not lexicographically before `x`,
/// in a sorted or unsorted vector scanned from the front.
#[verifier::loop_isolation(false)]
pub fn lower_bound(v: &Vec<String>, x: &str) -> (r: usize)
    ensures
        r <= v@.len(),
        forall|m: int| 0 <= m < r ==> lex_lt(v.deep_view()[m], x@),
        r < v@.len() ==> !lex_lt(v.deep_view()[r as int], x@),
{
    let mut i: usize = 0;
    while i < v.len()
        invariant
            i <= v.len(),
            forall|m: int| 0 <= m < i ==> lex_lt(v.deep_view()[m], x@),
        decreases v.len() - i,
    {
        if !str_lt(v[i].as_str(), x) {
            return i;
        }
        i += 1;
    }
    v.len()
}

/// Insert a string into a sorted vector, keeping it sorted; the contents
/// gain exactly the new element.
#[verifier::loop_isolation(false)]
pub fn sorted_insert(v: &mut Vec<String>, x: String)
    requires
        sorted_lex(old(v).deep_view()),
    ensures
        sorted_lex(final(v).deep_view()),
        final(v).deep_view().to_multiset() == old(v).deep_view().to_multiset().insert(x@),
{
    broadcast use vstd::seq_lib::group_to_multiset_ensures;

    let ghost d0 = v.deep_view();
    let pos = lower_bound(v, x.as_str());
    v.insert(pos, x);
    let ghost d1 = v.deep_view();
    proof {
        assert(d1 =~= d0.insert(pos as int, x@));
        assert forall|n: int| pos <= n < d0.len() implies lex_lt(x@, d0[n]) || x@ == d0[n] by {
            lemma_lex_connected(x@, d0[pos as int]);
            if n > pos {
                if lex_lt(x@, d0[pos as int]) && lex_lt(d0[pos as int], d0[n]) {
                    lemma_lex_trans(x@, d0[pos as int], d0[n]);
                }
            }
        }
        assert forall|i: int, j: int| 0 <= i < j < d1.len() implies lex_lt(d1[i], d1[j]) || d1[i]
            == d1[j] by {
            if i < pos && j == pos {
            } else if i == pos && j > pos {
            } else if i < pos && j > pos {
            }
        }
        assert(d1.remove(pos as int) =~= d0);
        assert(d1.to_multiset().remove(x@) =~= d0.to_multiset());
        assert(d1.to_multiset().contains(x@));
        assert(d1.to_multiset() =~= d0.to_multiset().insert(x@)) by {
            assert(forall|y: Seq<char>|
                #[trigger] d1.to_multiset().count(y) == d0.to_multiset().insert(x@).count(y));
        }
    }
}

/// Build the bundle path `group.name`.
pub fn join_path(group: &str, name: &str) -> (r: String)
    ensures
        r@ == spec_join_path(group@, name@),
{
    let mut out = String::from_str(group);
    out.append(".");
    out.append(name);
    proof {
        reveal_strlit(".");
        assert("."@ =~= seq!['.']);
        assert(out@ =~= spec_join_path(group@, name@));
    }
    out
}

} // verus!
