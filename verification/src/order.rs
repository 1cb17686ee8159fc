//! Lexicographic order on character sequences, and sorting of path lists.
//!
//! Paths are compared character by character, by code point; for UTF-8
//! encoded strings this agrees with the usual byte-wise comparison.

use vstd::prelude::*;
use vstd::string::StrSliceExecFns;

verus! {

/// `a` is less than or equal to `b` in lexicographic order by code point.
pub open spec fn lex_le(a: Seq<char>, b: Seq<char>) -> bool
    decreases a.len(),
{
    if a.len() == 0 {
        true
    } else if b.len() == 0 {
        false
    } else if a[0] == b[0] {
        lex_le(a.drop_first(), b.drop_first())
    } else {
        a[0] < b[0]
    }
}

/// A sequence of paths in ascending lexicographic order.
pub open spec fn lex_sorted(s: Seq<Seq<char>>) -> bool {
    forall|i: int, j: int| 0 <= i < j < s.len() ==> lex_le(s[i], s[j])
}

/// Any two sequences compare one way or the other.
pub proof fn lemma_lex_total(a: Seq<char>, b: Seq<char>)
    ensures
        lex_le(a, b) || lex_le(b, a),
    decreases a.len(),
{
    if a.len() == 0 {
        assert(lex_le(a, b));
    } else if b.len() == 0 {
        assert(lex_le(b, a));
    } else if a[0] == b[0] {
        lemma_lex_total(a.drop_first(), b.drop_first());
    } else {
        assert(a[0] < b[0] || b[0] < a[0]);
    }
}

/// The order is transitive.
pub proof fn lemma_lex_transitive(a: Seq<char>, b: Seq<char>, c: Seq<char>)
    requires
        lex_le(a, b),
        lex_le(b, c),
    ensures
        lex_le(a, c),
    decreases a.len(),
{
    if a.len() > 0 && b.len() > 0 && c.len() > 0 && a[0] == b[0] && b[0] == c[0] {
        lemma_lex_transitive(a.drop_first(), b.drop_first(), c.drop_first());
    }
}

/// Comparing whole sequences is the same as comparing what is left after a
/// common prefix.
proof fn lemma_lex_skip_common(a: Seq<char>, b: Seq<char>, k: int)
    requires
        0 <= k <= a.len(),
        k <= b.len(),
        forall|j: int| 0 <= j < k ==> a[j] == b[j],
    ensures
        lex_le(a, b) == lex_le(a.skip(k), b.skip(k)),
    decreases k,
{
    if k > 0 {
        assert(a.len() > 0 && b.len() > 0 && a[0] == b[0]);
        assert(a.drop_first().skip(k - 1) =~= a.skip(k));
        assert(b.drop_first().skip(k - 1) =~= b.skip(k));
        lemma_lex_skip_common(a.drop_first(), b.drop_first(), k - 1);
    } else {
        assert(a.skip(0) =~= a);
        assert(b.skip(0) =~= b);
    }
}

/// Decides `lex_le` on two string slices.
pub fn str_le(a: &str, b: &str) -> (r: bool)
    ensures
        r == lex_le(a@, b@),
{
    let la = a.unicode_len();
    let lb = b.unicode_len();
    let mut i: usize = 0;
    while i < la && i < lb
        invariant
            i <= la,
            i <= lb,
            la == a@.len(),
            lb == b@.len(),
            forall|j: int| 0 <= j < i ==> a@[j] == b@[j],
        decreases la - i,
    {
        let ca = a.get_char(i);
        let cb = b.get_char(i);
        if ca != cb {
            proof {
                lemma_lex_skip_common(a@, b@, i as int);
            }
            return ca < cb;
        }
        i = i + 1;
    }
    proof {
        lemma_lex_skip_common(a@, b@, i as int);
    }
    la <= lb
}

/// The position in `r` at which `x` belongs: the index of the first
/// element that is above `x`, so that equal elements stay in front.
fn insert_pos(x: &str, r: &Vec<String>) -> (j: usize)
    ensures
        j <= r@.len(),
        forall|k: int| 0 <= k < j ==> lex_le(r@[k]@, x@),
        j < r@.len() ==> !lex_le(r@[j as int]@, x@),
{
    let mut j: usize = 0;
    while j < r.len()
        invariant
            j <= r@.len(),
            forall|k: int| 0 <= k < j ==> lex_le(r@[k]@, x@),
        decreases r@.len() - j,
    {
        if !str_le(r[j].as_str(), x) {
            return j;
        }
        j = j + 1;
    }
    j
}

/// `v` rearranged in ascending lexicographic order.
pub fn sort_strings(v: Vec<String>) -> (r: Vec<String>)
    ensures
        r.deep_view() == sort_by_path((|p: Seq<char>| p), v.deep_view()),
{
    let mut out: Vec<String> = Vec::new();
    let mut i: usize = 0;
    proof {
        assert(out.deep_view() =~= Seq::<Seq<char>>::empty());
        assert(v.deep_view().subrange(0, 0) =~= Seq::<Seq<char>>::empty());
    }
    while i < v.len()
        invariant
            i <= v@.len(),
            out.deep_view() == sort_by_path((|p: Seq<char>| p), v.deep_view().subrange(0, i as int)),
        decreases v@.len() - i,
    {
        let x = v[i].clone();
        let j = insert_pos(x.as_str(), &out);
        let ghost prev = out.deep_view();
        proof {
            let key = (|p: Seq<char>| p);
            assert forall|k: int| 0 <= k < j implies lex_le(key(prev[k]), key(x@)) by {
                assert(prev[k] == out@[k]@);
                assert(key(prev[k]) == prev[k]);
                assert(key(x@) == x@);
            }
            if j < prev.len() {
                assert(prev[j as int] == out@[j as int]@);
                assert(!lex_le(key(prev[j as int]), key(x@)));
            }
            lemma_insert_by_path_at(key, x@, prev, j as int);
        }
        out.insert(j, x);
        proof {
            let whole = v.deep_view();
            assert(out.deep_view() =~= prev.insert(j as int, x@));
            assert(whole.subrange(0, i + 1).drop_last() =~= whole.subrange(0, i as int));
            assert(whole.subrange(0, i + 1).last() == x@);
        }
        i = i + 1;
    }
    proof {
        assert(v.deep_view().subrange(0, i as int) =~= v.deep_view());
    }
    out
}

/// `x` placed behind every leading element of `s` whose key is at or
/// below the key of `x`, and in front of the first whose key is above it:
/// an element with an equal key stays in front of `x`.
pub open spec fn insert_by_path<T>(key: spec_fn(T) -> Seq<char>, x: T, s: Seq<T>) -> Seq<T>
    decreases s.len(),
{
    if s.len() == 0 {
        seq![x]
    } else if lex_le(key(s[0]), key(x)) {
        seq![s[0]] + insert_by_path(key, x, s.drop_first())
    } else {
        seq![x] + s
    }
}

/// `s` rearranged in ascending order of its elements' keys, by repeated
/// insertion. Elements with equal keys keep their relative order.
pub open spec fn sort_by_path<T>(key: spec_fn(T) -> Seq<char>, s: Seq<T>) -> Seq<T>
    decreases s.len(),
{
    if s.len() == 0 {
        Seq::empty()
    } else {
        insert_by_path(key, s.last(), sort_by_path(key, s.drop_last()))
    }
}

/// The keys of `s` are in ascending order.
pub open spec fn sorted_by_path<T>(key: spec_fn(T) -> Seq<char>, s: Seq<T>) -> bool {
    forall|i: int, j: int| 0 <= i < j < s.len() ==> lex_le(key(s[i]), key(s[j]))
}

/// Inserting before the first element whose key is above the key of `x`
/// is the same as inserting at that position.
pub proof fn lemma_insert_by_path_at<T>(key: spec_fn(T) -> Seq<char>, x: T, s: Seq<T>, j: int)
    requires
        0 <= j <= s.len(),
        forall|k: int| 0 <= k < j ==> lex_le(key(s[k]), key(x)),
        j < s.len() ==> !lex_le(key(s[j as int]), key(x)),
    ensures
        insert_by_path(key, x, s) == s.insert(j, x),
    decreases s.len(),
{
    if j == 0 {
        if s.len() == 0 {
            assert(insert_by_path(key, x, s) =~= s.insert(0, x));
        } else {
            assert(seq![x] + s =~= s.insert(0, x));
        }
    } else {
        lemma_insert_by_path_at(key, x, s.drop_first(), j - 1);
        assert(seq![s[0]] + s.drop_first().insert(j - 1, x) =~= s.insert(j, x));
    }
}

/// What insertion does to length, ordering and contents.
pub proof fn lemma_insert_by_path_props<T>(key: spec_fn(T) -> Seq<char>, x: T, s: Seq<T>)
    requires
        sorted_by_path(key, s),
    ensures
        insert_by_path(key, x, s).len() == s.len() + 1,
        sorted_by_path(key, insert_by_path(key, x, s)),
        insert_by_path(key, x, s).to_multiset() == s.to_multiset().insert(x),
    decreases s.len(),
{
    broadcast use vstd::seq_lib::group_to_multiset_ensures;

    let r = insert_by_path(key, x, s);
    if s.len() == 0 {
        assert(r =~= Seq::empty().push(x));
        assert(r.to_multiset() =~= s.to_multiset().insert(x));
    } else if !lex_le(key(s[0]), key(x)) {
        lemma_lex_total(key(s[0]), key(x));
        assert(lex_le(key(x), key(s[0])));
        assert(r =~= s.insert(0, x));
        assert forall|i: int, j: int| 0 <= i < j < r.len() implies lex_le(
            key(r[i]),
            key(r[j]),
        ) by {
            if i == 0 && j > 1 {
                lemma_lex_transitive(key(x), key(s[0]), key(s[j - 1]));
            }
        }
        assert(r =~= s.insert(0, x));
        lemma_to_multiset_insert(s, 0, x);
    } else {
        let t = insert_by_path(key, x, s.drop_first());
        lemma_insert_by_path_props(key, x, s.drop_first());
        assert(r =~= seq![s[0]] + t);
        assert forall|i: int, j: int| 0 <= i < j < r.len() implies lex_le(
            key(r[i]),
            key(r[j]),
        ) by {
            if i == 0 {
                let e = t[j - 1];
                assert(t.to_multiset().count(e) > 0);
                if e == x {
                    assert(lex_le(key(s[0]), key(r[j])));
                } else {
                    assert(s.drop_first().to_multiset().count(e) > 0);
                    assert(s.drop_first().contains(e));
                    let w = choose|w: int|
                        0 <= w < s.drop_first().len() && s.drop_first()[w] == e;
                    assert(s[w + 1] == e);
                }
            }
        }
        assert(s =~= seq![s[0]] + s.drop_first());
        vstd::seq_lib::lemma_multiset_commutative(seq![s[0]], t);
        vstd::seq_lib::lemma_multiset_commutative(seq![s[0]], s.drop_first());
        assert(r.to_multiset() =~= s.to_multiset().insert(x));
    }
}

/// Inserting into a sequence adds one occurrence to its multiset.
proof fn lemma_to_multiset_insert<T>(s: Seq<T>, j: int, x: T)
    requires
        0 <= j <= s.len(),
    ensures
        s.insert(j, x).to_multiset() == s.to_multiset().insert(x),
    decreases s.len(),
{
    broadcast use vstd::seq_lib::group_to_multiset_ensures;

    if j == s.len() {
        assert(s.insert(j, x) =~= s.push(x));
    } else {
        lemma_to_multiset_insert(s.drop_last(), j, x);
        assert(s.insert(j, x) =~= s.drop_last().insert(j, x).push(s.last()));
        assert(s =~= s.drop_last().push(s.last()));
        assert(s.insert(j, x).to_multiset() =~= s.drop_last().insert(
            j,
            x,
        ).to_multiset().insert(s.last()));
        assert(s.to_multiset() =~= s.drop_last().to_multiset().insert(s.last()));
        assert(s.insert(j, x).to_multiset() =~= s.to_multiset().insert(x));
    }
}

/// Sorting keeps the length and the contents and orders the keys.
pub proof fn lemma_sort_by_path_props<T>(key: spec_fn(T) -> Seq<char>, s: Seq<T>)
    ensures
        sort_by_path(key, s).len() == s.len(),
        sorted_by_path(key, sort_by_path(key, s)),
        sort_by_path(key, s).to_multiset() == s.to_multiset(),
    decreases s.len(),
{
    broadcast use vstd::seq_lib::group_to_multiset_ensures;

    if s.len() > 0 {
        lemma_sort_by_path_props(key, s.drop_last());
        lemma_insert_by_path_props(key, s.last(), sort_by_path(key, s.drop_last()));
        assert(s =~= s.drop_last().push(s.last()));
        assert(s.to_multiset() =~= s.drop_last().to_multiset().insert(s.last()));
    }
}

} // verus!
