//! Identifiers are strings: unit hashes, balls and addresses. This module
//! gives them their mathematical reading (a `Seq<char>`), the byte-wise order
//! by which balls are sorted, and the few executable helpers built on both.

use vstd::prelude::*;
use vstd::string::*;
use vstd::utf8::*;

verus! {

/// The texts held by a sequence of strings, in order.
pub open spec fn texts(v: Seq<String>) -> Seq<Seq<char>> {
    Seq::new(v.len(), |i: int| v[i]@)
}

/// The text held by an optional string.
pub open spec fn opt_text(o: Option<String>) -> Option<Seq<char>> {
    match o {
        Some(s) => Some(s@),
        None => None,
    }
}

/// Lexicographic order on byte strings: `a` is a prefix of `b`, or the first
/// byte at which they differ is smaller in `a`.
pub open spec fn bytes_le(a: Seq<u8>, b: Seq<u8>) -> bool {
    exists|k: int|
        0 <= k <= a.len() && k <= b.len() && #[trigger] common_prefix(a, b, k) && (k == a.len() || (
        k < b.len() && a[k] < b[k]))
}

/// `a` and `b` agree on their first `k` bytes.
pub open spec fn common_prefix(a: Seq<u8>, b: Seq<u8>, k: int) -> bool {
    forall|j: int| 0 <= j < k ==> a[j] == b[j]
}

/// The order of texts: byte-wise on their UTF-8 encoding, which is how
/// strings compare and how a binary collation sorts them.
pub open spec fn text_le(a: Seq<char>, b: Seq<char>) -> bool {
    bytes_le(encode_utf8(a), encode_utf8(b))
}

/// Every earlier text is no larger than every later one.
pub open spec fn sorted_texts(s: Seq<Seq<char>>) -> bool {
    forall|i: int, j: int| 0 <= i < j < s.len() ==> text_le(s[i], s[j])
}

/// `s` with `x` put in behind the last element that is no larger than `x`.
pub open spec fn insert_text(s: Seq<Seq<char>>, x: Seq<char>) -> Seq<Seq<char>>
    decreases s.len(),
{
    if s.len() == 0 {
        seq![x]
    } else if text_le(s.last(), x) {
        s.push(x)
    } else {
        insert_text(s.drop_last(), x).push(s.last())
    }
}

/// The texts of `s` in ascending order; equal texts keep their order.
pub open spec fn sort_texts(s: Seq<Seq<char>>) -> Seq<Seq<char>>
    decreases s.len(),
{
    if s.len() == 0 {
        s
    } else {
        insert_text(sort_texts(s.drop_last()), s.last())
    }
}

/// The byte order is total.
pub proof fn lemma_bytes_le_total(a: Seq<u8>, b: Seq<u8>)
    ensures
        bytes_le(a, b) || bytes_le(b, a),
{
    let k = first_difference(a, b, 0);
    lemma_first_difference(a, b, 0);
    assert(common_prefix(a, b, k));
    assert(common_prefix(b, a, k));
}

/// The first index from `from` on at which `a` and `b` differ or one ends.
spec fn first_difference(a: Seq<u8>, b: Seq<u8>, from: int) -> int
    decreases a.len() - from,
{
    if 0 <= from < a.len() && from < b.len() && a[from] == b[from] {
        first_difference(a, b, from + 1)
    } else {
        from
    }
}

proof fn lemma_first_difference(a: Seq<u8>, b: Seq<u8>, from: int)
    requires
        0 <= from <= a.len(),
        from <= b.len(),
        common_prefix(a, b, from),
    ensures
        from <= first_difference(a, b, from) <= a.len(),
        first_difference(a, b, from) <= b.len(),
        common_prefix(a, b, first_difference(a, b, from)),
        first_difference(a, b, from) < a.len() && first_difference(a, b, from) < b.len() ==> a[first_difference(
            a,
            b,
            from,
        )] != b[first_difference(a, b, from)],
    decreases a.len() - from,
{
    if from < a.len() && from < b.len() && a[from] == b[from] {
        assert(common_prefix(a, b, from + 1));
        lemma_first_difference(a, b, from + 1);
    }
}

/// The byte order is transitive.
pub proof fn lemma_bytes_le_transitive(a: Seq<u8>, b: Seq<u8>, c: Seq<u8>)
    requires
        bytes_le(a, b),
        bytes_le(b, c),
    ensures
        bytes_le(a, c),
{
    let k1 = choose|k: int|
        0 <= k <= a.len() && k <= b.len() && #[trigger] common_prefix(a, b, k) && (k == a.len() || (
        k < b.len() && a[k] < b[k]));
    let k2 = choose|k: int|
        0 <= k <= b.len() && k <= c.len() && #[trigger] common_prefix(b, c, k) && (k == b.len() || (
        k < c.len() && b[k] < c[k]));
    let k = if k1 <= k2 {
        k1
    } else {
        k2
    };
    assert(common_prefix(a, c, k));
}

/// The order of texts is total.
pub proof fn lemma_text_le_total(a: Seq<char>, b: Seq<char>)
    ensures
        text_le(a, b) || text_le(b, a),
{
    lemma_bytes_le_total(encode_utf8(a), encode_utf8(b));
}

/// The order of texts is transitive.
pub proof fn lemma_text_le_transitive(a: Seq<char>, b: Seq<char>, c: Seq<char>)
    requires
        text_le(a, b),
        text_le(b, c),
    ensures
        text_le(a, c),
{
    lemma_bytes_le_transitive(encode_utf8(a), encode_utf8(b), encode_utf8(c));
}

/// Inserting into a sorted sequence keeps it sorted and adds exactly `x`.
pub proof fn lemma_insert_text(s: Seq<Seq<char>>, x: Seq<char>)
    requires
        sorted_texts(s),
    ensures
        sorted_texts(insert_text(s, x)),
        insert_text(s, x).len() == s.len() + 1,
        insert_text(s, x).to_multiset() == s.to_multiset().insert(x),
    decreases s.len(),
{
    broadcast use vstd::seq_lib::to_multiset_build;

    if s.len() == 0 {
        assert(seq![x] =~= Seq::<Seq<char>>::empty().push(x));
        assert(s =~= Seq::<Seq<char>>::empty());
    } else if text_le(s.last(), x) {
        let r = s.push(x);
        assert forall|i: int, j: int| 0 <= i < j < r.len() implies text_le(r[i], r[j]) by {
            if j == s.len() {
                if i < s.len() - 1 {
                    lemma_text_le_transitive(s[i], s.last(), x);
                }
            }
        }
    } else {
        let init = s.drop_last();
        let last = s.last();
        lemma_insert_text(init, x);
        lemma_text_le_total(last, x);
        let t = insert_text(init, x);
        let r = t.push(last);
        assert(s =~= init.push(last));
        assert forall|i: int| 0 <= i < t.len() implies text_le(#[trigger] t[i], last) by {
            t.to_multiset_ensures();
            init.to_multiset_ensures();
            assert(t.to_multiset().count(t[i]) > 0);
            if t[i] == x {
            } else {
                assert(init.to_multiset().count(t[i]) > 0);
                assert(init.contains(t[i]));
                let j = choose|j: int| 0 <= j < init.len() && init[j] == t[i];
                assert(text_le(s[j], s[s.len() - 1]));
            }
        }
        assert forall|i: int, j: int| 0 <= i < j < r.len() implies text_le(r[i], r[j]) by {
            if j == t.len() {
            } else {
                assert(text_le(t[i], t[j]));
            }
        }
        assert(r.to_multiset() =~= s.to_multiset().insert(x));
    }
}

/// What sorting promises: the result is in ascending order and holds the
/// same texts, each as often as before.
pub proof fn lemma_sort_texts(s: Seq<Seq<char>>)
    ensures
        sorted_texts(sort_texts(s)),
        sort_texts(s).len() == s.len(),
        sort_texts(s).to_multiset() == s.to_multiset(),
    decreases s.len(),
{
    broadcast use vstd::seq_lib::to_multiset_build;

    if s.len() == 0 {
    } else {
        lemma_sort_texts(s.drop_last());
        lemma_insert_text(sort_texts(s.drop_last()), s.last());
        assert(s =~= s.drop_last().push(s.last()));
    }
}

/// Whether `a` comes before `b`, or equals it, in byte order.
pub fn string_le(a: &String, b: &String) -> (r: bool)
    ensures
        r == text_le(a@, b@),
{
    let x = a.as_str().as_bytes();
    let y = b.as_str().as_bytes();
    let mut i: usize = 0;
    while i < x.len() && i < y.len()
        invariant
            i <= x@.len(),
            i <= y@.len(),
            common_prefix(x@, y@, i as int),
            x@ == encode_utf8(a@),
            y@ == encode_utf8(b@),
        decreases x@.len() - i,
    {
        if x[i] != y[i] {
            let r = x[i] < y[i];
            proof {
                if !r {
                    assert forall|k: int|
                        0 <= k <= x@.len() && k <= y@.len() && #[trigger] common_prefix(x@, y@, k) implies !(k
                        == x@.len() || (k < y@.len() && x@[k] < y@[k])) by {
                        if k > i {
                            assert(x@[i as int] == y@[i as int]);
                        }
                    }
                }
            }
            return r;
        }
        i = i + 1;
    }
    let r = x.len() <= y.len();
    proof {
        if !r {
            assert forall|k: int|
                0 <= k <= x@.len() && k <= y@.len() && #[trigger] common_prefix(x@, y@, k) implies !(k
                == x@.len() || (k < y@.len() && x@[k] < y@[k])) by {
                if k < y@.len() {
                    assert(x@[k] == y@[k]);
                }
            }
        }
    }
    r
}

/// A copy of `v`, string for string.
pub fn clone_strings(v: &Vec<String>) -> (r: Vec<String>)
    ensures
        texts(r@) == texts(v@),
{
    let mut r: Vec<String> = Vec::new();
    let mut i: usize = 0;
    while i < v.len()
        invariant
            i <= v.len(),
            r.len() == i,
            forall|j: int| 0 <= j < i ==> r[j]@ == v[j]@,
        decreases v.len() - i,
    {
        r.push(v[i].clone());
        i = i + 1;
    }
    assert(texts(r@) =~= texts(v@));
    r
}

/// A copy of an optional string.
pub fn clone_opt_string(o: &Option<String>) -> (r: Option<String>)
    ensures
        opt_text(r) == opt_text(*o),
{
    match o {
        Some(s) => Some(s.clone()),
        None => None,
    }
}

/// Whether some string of `v` holds the text of `x`.
pub fn contains_string(v: &Vec<String>, x: &String) -> (r: bool)
    ensures
        r == texts(v@).contains(x@),
{
    let mut i: usize = 0;
    while i < v.len()
        invariant
            i <= v.len(),
            forall|j: int| 0 <= j < i ==> v[j]@ != x@,
        decreases v.len() - i,
    {
        if v[i] == *x {
            assert(texts(v@)[i as int] == x@);
            return true;
        }
        i = i + 1;
    }
    assert forall|j: int| 0 <= j < texts(v@).len() implies texts(v@)[j] != x@ by {}
    false
}

/// Puts `x` into the sorted `v` behind the last element no larger than it.
pub fn insert_sorted(v: &mut Vec<String>, x: String)
    ensures
        texts(final(v)@) == insert_text(texts(old(v)@), x@),
{
    let mut i: usize = v.len();
    let ghost s = texts(v@);
    proof {
        assert(s.subrange(0, i as int) =~= s);
        assert(insert_text(s, x@) + s.subrange(i as int, s.len() as int) =~= insert_text(s, x@));
    }
    while i > 0 && !string_le(&v[i - 1], &x)
        invariant
            i <= v.len(),
            *v == *old(v),
            s == texts(v@),
            insert_text(s, x@) == insert_text(s.subrange(0, i as int), x@) + s.subrange(
                i as int,
                s.len() as int,
            ),
        decreases i,
    {
        proof {
            let p = s.subrange(0, i as int);
            assert(p.last() == s[i - 1]);
            assert(p.drop_last() =~= s.subrange(0, i - 1));
            assert(insert_text(p, x@) == insert_text(p.drop_last(), x@).push(p.last()));
            assert(insert_text(s.subrange(0, i - 1), x@).push(s[i - 1]) + s.subrange(
                i as int,
                s.len() as int,
            ) =~= insert_text(s.subrange(0, i - 1), x@) + s.subrange(i - 1, s.len() as int));
        }
        i = i - 1;
    }
    proof {
        let p = s.subrange(0, i as int);
        if i > 0 {
            assert(p.last() == s[i - 1]);
        }
        assert(insert_text(p, x@) == p.push(x@));
        assert(p.push(x@) + s.subrange(i as int, s.len() as int) =~= s.insert(i as int, x@));
    }
    v.insert(i, x);
    assert(texts(v@) =~= s.insert(i as int, x@));
}

} // verus!
