//! The order in which the entries of a directory are visited: by path,
//! compared byte by byte, entries with equal paths kept in listing order.

use vstd::prelude::*;
use vstd::multiset::Multiset;

verus! {

/// Lexicographic order on byte sequences, a proper prefix first.
pub open spec fn bytes_le(a: Seq<u8>, b: Seq<u8>) -> bool
    decreases a.len(),
{
    if a.len() == 0 {
        true
    } else if b.len() == 0 {
        false
    } else if a[0] != b[0] {
        a[0] < b[0]
    } else {
        bytes_le(a.drop_first(), b.drop_first())
    }
}

/// `s` with `x` placed after every element whose key is not greater than
/// the key of `x`, counted from the end: in a sorted `s`, after all
/// elements with a key up to that of `x` and before the rest.
pub open spec fn insert_by_key<T>(s: Seq<T>, x: T, key: spec_fn(T) -> Seq<u8>) -> Seq<T>
    decreases s.len(),
{
    if s.len() == 0 {
        seq![x]
    } else if bytes_le(key(s.last()), key(x)) {
        s.push(x)
    } else {
        insert_by_key(s.drop_last(), x, key).push(s.last())
    }
}

/// `s` ordered by key, elements with equal keys in the order they came in.
pub open spec fn sort_by_key<T>(s: Seq<T>, key: spec_fn(T) -> Seq<u8>) -> Seq<T>
    decreases s.len(),
{
    if s.len() == 0 {
        s
    } else {
        insert_by_key(sort_by_key(s.drop_last(), key), s.last(), key)
    }
}

/// Every element's key is at most the key of every later element.
pub open spec fn sorted_by_key<T>(s: Seq<T>, key: spec_fn(T) -> Seq<u8>) -> bool {
    forall|i: int, j: int| 0 <= i < j < s.len() ==> bytes_le(key(s[i]), key(s[j]))
}

pub proof fn lemma_bytes_le_total(a: Seq<u8>, b: Seq<u8>)
    ensures
        bytes_le(a, b) || bytes_le(b, a),
    decreases a.len(),
{
    if a.len() > 0 && b.len() > 0 && a[0] == b[0] {
        lemma_bytes_le_total(a.drop_first(), b.drop_first());
    }
}

pub proof fn lemma_bytes_le_trans(a: Seq<u8>, b: Seq<u8>, c: Seq<u8>)
    requires
        bytes_le(a, b),
        bytes_le(b, c),
    ensures
        bytes_le(a, c),
    decreases a.len(),
{
    if a.len() > 0 && b.len() > 0 && c.len() > 0 && a[0] == b[0] && b[0] == c[0] {
        lemma_bytes_le_trans(a.drop_first(), b.drop_first(), c.drop_first());
    }
}

/// Inserting into a sorted sequence keeps it sorted and adds exactly the one
/// element.
pub proof fn lemma_insert_by_key<T>(s: Seq<T>, x: T, key: spec_fn(T) -> Seq<u8>)
    requires
        sorted_by_key(s, key),
    ensures
        sorted_by_key(insert_by_key(s, x, key), key),
        insert_by_key(s, x, key).to_multiset() == s.to_multiset().insert(x),
        insert_by_key(s, x, key).len() == s.len() + 1,
    decreases s.len(),
{
    broadcast use vstd::seq_lib::group_to_multiset_ensures;

    let r = insert_by_key(s, x, key);
    if s.len() == 0 {
        assert(r =~= Seq::<T>::empty().push(x));
        assert(Seq::<T>::empty().to_multiset() =~= Multiset::empty());
    } else if bytes_le(key(s.last()), key(x)) {
        assert forall|i: int, j: int| 0 <= i < j < r.len() implies bytes_le(
            key(r[i]),
            key(r[j]),
        ) by {
            if j == s.len() {
                if i < s.len() - 1 {
                    lemma_bytes_le_trans(key(s[i]), key(s.last()), key(x));
                }
            }
        }
    } else {
        let s0 = s.drop_last();
        assert(sorted_by_key(s0, key));
        lemma_insert_by_key(s0, x, key);
        let r0 = insert_by_key(s0, x, key);
        assert(s0.push(s.last()) =~= s);
        lemma_bytes_le_total(key(s.last()), key(x));
        assert forall|i: int| 0 <= i < r0.len() implies bytes_le(key(r0[i]), key(s.last())) by {
            let m = r0.to_multiset();
            assert(m.count(r0[i]) > 0);
            if r0[i] != x {
                assert(s0.to_multiset().count(r0[i]) > 0);
                assert(s0.contains(r0[i]));
                let k = choose|k: int| 0 <= k < s0.len() && s0[k] == r0[i];
                assert(s[k] == s0[k]);
            }
        }
        assert forall|i: int, j: int| 0 <= i < j < r.len() implies bytes_le(
            key(r[i]),
            key(r[j]),
        ) by {
            if j == r.len() - 1 {
                assert(r[i] == r0[i]);
            } else {
                assert(r[i] == r0[i] && r[j] == r0[j]);
            }
        }
    }
}

/// The order is a sorting: sorted, and made of the same elements.
pub proof fn lemma_sort_by_key<T>(s: Seq<T>, key: spec_fn(T) -> Seq<u8>)
    ensures
        sorted_by_key(sort_by_key(s, key), key),
        sort_by_key(s, key).to_multiset() == s.to_multiset(),
        sort_by_key(s, key).len() == s.len(),
    decreases s.len(),
{
    broadcast use vstd::seq_lib::group_to_multiset_ensures;

    if s.len() > 0 {
        lemma_sort_by_key(s.drop_last(), key);
        lemma_insert_by_key(sort_by_key(s.drop_last(), key), s.last(), key);
        assert(s.drop_last().push(s.last()) =~= s);
    }
}


/// Whether `a` comes before `b` or equals it, byte by byte.
pub fn bytes_leq(a: &[u8], b: &[u8]) -> (r: bool)
    ensures
        r == bytes_le(a@, b@),
{
    let mut i: usize = 0;
    proof {
        assert(a@.skip(0) =~= a@);
        assert(b@.skip(0) =~= b@);
    }
    while i < a.len() && i < b.len() && a[i] == b[i]
        invariant
            i <= a@.len(),
            i <= b@.len(),
            bytes_le(a@, b@) == bytes_le(a@.skip(i as int), b@.skip(i as int)),
        decreases a@.len() - i,
    {
        proof {
            assert(a@.skip(i as int).drop_first() =~= a@.skip(i + 1));
            assert(b@.skip(i as int).drop_first() =~= b@.skip(i + 1));
        }
        i += 1;
    }
    if i == a.len() {
        true
    } else if i == b.len() {
        false
    } else {
        a[i] < b[i]
    }
}


/// No two elements of `s` have the same key.
pub open spec fn distinct_keys<T>(s: Seq<T>, key: spec_fn(T) -> Seq<u8>) -> bool {
    forall|i: int, j: int| 0 <= i < j < s.len() ==> key(s[i]) != key(s[j])
}

pub proof fn lemma_bytes_le_reflexive(a: Seq<u8>)
    ensures
        bytes_le(a, a),
    decreases a.len(),
{
    if a.len() > 0 {
        lemma_bytes_le_reflexive(a.drop_first());
    }
}

pub proof fn lemma_bytes_le_antisymmetric(a: Seq<u8>, b: Seq<u8>)
    requires
        bytes_le(a, b),
        bytes_le(b, a),
    ensures
        a == b,
    decreases a.len(),
{
    if a.len() > 0 && b.len() > 0 {
        lemma_bytes_le_antisymmetric(a.drop_first(), b.drop_first());
        assert(a =~= seq![a[0]] + a.drop_first());
        assert(b =~= seq![b[0]] + b.drop_first());
    }
}

proof fn lemma_position_of<T>(s: Seq<T>, x: T) -> (k: int)
    requires
        s.to_multiset().count(x) > 0,
    ensures
        0 <= k < s.len(),
        s[k] == x,
{
    broadcast use vstd::seq_lib::group_to_multiset_ensures;

    assert(s.contains(x));
    choose|k: int| 0 <= k < s.len() && s[k] == x
}

/// Two sorted sequences made of the same elements, no two of which share a
/// key, are equal.
pub proof fn lemma_sorted_unique<T>(x: Seq<T>, y: Seq<T>, key: spec_fn(T) -> Seq<u8>)
    requires
        sorted_by_key(x, key),
        sorted_by_key(y, key),
        x.to_multiset() == y.to_multiset(),
        distinct_keys(x, key),
    ensures
        x == y,
    decreases x.len(),
{
    broadcast use vstd::seq_lib::group_to_multiset_ensures;
    broadcast use vstd::multiset::group_multiset_axioms;

    x.to_multiset_ensures();
    y.to_multiset_ensures();
    if x.len() == 0 {
        assert(y.len() == 0);
        assert(x =~= y);
    } else {
        assert(y.len() == x.len());
        let n = x.len() - 1;
        let e = x.last();
        let k = lemma_position_of(x, y.last());
        let j = lemma_position_of(y, e);
        lemma_bytes_le_reflexive(key(e));
        if k < n {
            assert(bytes_le(key(x[k]), key(e)));
        }
        if j < n {
            assert(bytes_le(key(y[j]), key(y.last())));
        }
        assert(bytes_le(key(x[k]), key(e)));
        assert(bytes_le(key(e), key(x[k])));
        lemma_bytes_le_antisymmetric(key(x[k]), key(e));
        assert(k == n);
        assert(y.last() == e);
        let x0 = x.drop_last();
        let y0 = y.drop_last();
        assert(x0.push(e) =~= x);
        assert(y0.push(e) =~= y);
        assert(x0.to_multiset() =~= y0.to_multiset()) by {
            assert(x0.to_multiset().insert(e) == y0.to_multiset().insert(e));
            assert forall|z: T| x0.to_multiset().count(z) == y0.to_multiset().count(z) by {
                assert(x0.to_multiset().insert(e).count(z) == y0.to_multiset().insert(e).count(z));
            }
        }
        lemma_sorted_unique(x0, y0, key);
    }
}

/// Sorting keeps keys distinct: no two elements of the sorted sequence share
/// a key when no two elements of the unsorted one did.
pub proof fn lemma_sort_keeps_distinct_keys<T>(a: Seq<T>, key: spec_fn(T) -> Seq<u8>)
    requires
        distinct_keys(a, key),
    ensures
        distinct_keys(sort_by_key(a, key), key),
{
    broadcast use vstd::seq_lib::group_to_multiset_ensures;

    lemma_sort_by_key(a, key);
    let sa = sort_by_key(a, key);
    assert(a.no_duplicates()) by {
        assert forall|i: int, j: int| 0 <= i < a.len() && 0 <= j < a.len() && i != j implies a[i]
            != a[j] by {
            if i < j {
                assert(key(a[i]) != key(a[j]));
            } else {
                assert(key(a[j]) != key(a[i]));
            }
        }
    }
    a.lemma_multiset_has_no_duplicates();
    sa.lemma_multiset_has_no_duplicates_conv();
    assert forall|i: int, j: int| 0 <= i < j < sa.len() implies key(sa[i]) != key(sa[j]) by {
        let p = lemma_position_of(a, sa[i]);
        let q = lemma_position_of(a, sa[j]);
        assert(sa[i] != sa[j]);
        if p < q {
            assert(key(a[p]) != key(a[q]));
        } else if q < p {
            assert(key(a[q]) != key(a[p]));
        }
    }
}

/// Every element of the sorted sequence is an element of the unsorted one.
pub proof fn lemma_sorted_element<T>(a: Seq<T>, key: spec_fn(T) -> Seq<u8>, i: int) -> (k: int)
    requires
        0 <= i < sort_by_key(a, key).len(),
    ensures
        0 <= k < a.len(),
        a[k] == sort_by_key(a, key)[i],
{
    broadcast use vstd::seq_lib::group_to_multiset_ensures;

    lemma_sort_by_key(a, key);
    let sa = sort_by_key(a, key);
    assert(sa.to_multiset().count(sa[i]) > 0);
    lemma_position_of(a, sa[i])
}

/// The walk order does not depend on the order a listing gives: two
/// listings of the same entries, no two of which share a path, are put in
/// the same order.
pub proof fn law_order_ignores_listing_order<T>(a: Seq<T>, b: Seq<T>, key: spec_fn(T) -> Seq<u8>)
    requires
        a.to_multiset() == b.to_multiset(),
        distinct_keys(a, key),
    ensures
        sort_by_key(a, key) == sort_by_key(b, key),
{
    lemma_sort_by_key(a, key);
    lemma_sort_by_key(b, key);
    lemma_sort_keeps_distinct_keys(a, key);
    lemma_sorted_unique(sort_by_key(a, key), sort_by_key(b, key), key);
}

} // verus!
