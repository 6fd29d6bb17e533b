//! Paths as sequences of components, and the order in which a walk of a
//! directory tree lists its files: component by component, each component
//! compared by its UTF-8 bytes, a path before the paths under it.

use vstd::prelude::*;
use vstd::utf8::encode_utf8;
use crate::encoding::{lemma_encode_concat, lemma_encode_injective};
use crate::order::{bytes_le, lemma_bytes_le_antisymmetric};
use crate::text::{lemma_pieces_append_plain, pieces};

verus! {

/// What the name of an entry of `dir` is appended to: the directory itself
/// when it ends with a slash, else the directory and a slash.
pub open spec fn base(dir: Seq<char>) -> Seq<char> {
    if dir.len() > 0 && dir.last() == '/' {
        dir
    } else {
        dir.push('/')
    }
}

/// The components of a path: its pieces between slashes.
pub open spec fn components(p: Seq<char>) -> Seq<Seq<char>> {
    pieces(p, '/')
}

/// The components that every path directly in `dir` starts with.
pub open spec fn dir_components(dir: Seq<char>) -> Seq<Seq<char>> {
    components(base(dir).drop_last())
}

/// `p` names an entry directly in `dir`: the directory's base followed by
/// a non-empty name without a slash.
pub open spec fn is_child(dir: Seq<char>, p: Seq<char>) -> bool {
    let b = base(dir);
    &&& p.len() > b.len()
    &&& p.take(b.len() as int) == b
    &&& forall|k: int| b.len() <= k < p.len() ==> p[k] != '/'
}

/// The name of an entry directly in `dir`.
pub open spec fn child_name(dir: Seq<char>, p: Seq<char>) -> Seq<char> {
    p.skip(base(dir).len() as int)
}

/// The strict order of component sequences: at the first component where
/// they differ, the one whose bytes come first; a proper prefix before the
/// sequences it starts.
pub open spec fn components_lt(a: Seq<Seq<char>>, b: Seq<Seq<char>>) -> bool
    decreases a.len(),
{
    if b.len() == 0 {
        false
    } else if a.len() == 0 {
        true
    } else if a[0] != b[0] {
        bytes_le(encode_utf8(a[0]), encode_utf8(b[0]))
    } else {
        components_lt(a.drop_first(), b.drop_first())
    }
}

/// `a` comes strictly before `b` in path order.
pub open spec fn path_lt(a: Seq<char>, b: Seq<char>) -> bool {
    components_lt(components(a), components(b))
}

/// No sequence of components comes before itself.
pub proof fn lemma_components_lt_irreflexive(a: Seq<Seq<char>>)
    ensures
        !components_lt(a, a),
    decreases a.len(),
{
    if a.len() > 0 {
        lemma_components_lt_irreflexive(a.drop_first());
    }
}

/// A common first part decides nothing.
pub proof fn lemma_components_lt_prefix(p: Seq<Seq<char>>, a: Seq<Seq<char>>, b: Seq<Seq<char>>)
    ensures
        components_lt(p + a, p + b) == components_lt(a, b),
    decreases p.len(),
{
    if p.len() > 0 {
        lemma_components_lt_prefix(p.drop_first(), a, b);
        assert((p + a).drop_first() =~= p.drop_first() + a);
        assert((p + b).drop_first() =~= p.drop_first() + b);
    } else {
        assert(p + a =~= a);
        assert(p + b =~= b);
    }
}

/// Bytes in common at the front decide nothing.
pub proof fn lemma_bytes_le_prefix(p: Seq<u8>, a: Seq<u8>, b: Seq<u8>)
    ensures
        bytes_le(p + a, p + b) == bytes_le(a, b),
    decreases p.len(),
{
    if p.len() > 0 {
        lemma_bytes_le_prefix(p.drop_first(), a, b);
        assert((p + a).drop_first() =~= p.drop_first() + a);
        assert((p + b).drop_first() =~= p.drop_first() + b);
    } else {
        assert(p + a =~= a);
        assert(p + b =~= b);
    }
}

/// An entry directly in `dir` has the directory's components and then its
/// name; it does not end with a slash, so the entries in it start with all
/// of its components.
pub proof fn lemma_child_components(dir: Seq<char>, p: Seq<char>)
    requires
        is_child(dir, p),
    ensures
        components(p) == dir_components(dir).push(child_name(dir, p)),
        p == base(dir) + child_name(dir, p),
        dir_components(p) == components(p),
        child_name(dir, p).len() > 0,
{
    let b = base(dir);
    let name = child_name(dir, p);
    assert(p =~= b + name);
    assert(b.last() == '/');
    assert(b.drop_last().push('/') =~= b);
    assert(pieces(b, '/') == pieces(b.drop_last(), '/').push(Seq::<char>::empty()));
    assert forall|i: int| 0 <= i < name.len() implies name[i] != '/' by {
        assert(name[i] == p[b.len() + i]);
    }
    lemma_pieces_append_plain(b, name, '/');
    assert(Seq::<char>::empty() + name =~= name);
    let d = pieces(b.drop_last(), '/');
    assert(d.push(Seq::<char>::empty()).update(d.len() as int, name) =~= d.push(name));
    assert(p.last() == p[p.len() - 1]);
    assert(base(p).drop_last() =~= p);
}

/// Two entries of the same directory come in byte order of their paths
/// exactly when their names do.
pub proof fn lemma_child_bytes(dir: Seq<char>, p: Seq<char>, q: Seq<char>)
    requires
        is_child(dir, p),
        is_child(dir, q),
    ensures
        bytes_le(encode_utf8(p), encode_utf8(q)) == bytes_le(
            encode_utf8(child_name(dir, p)),
            encode_utf8(child_name(dir, q)),
        ),
        p != q ==> child_name(dir, p) != child_name(dir, q),
{
    lemma_child_components(dir, p);
    lemma_child_components(dir, q);
    let b = base(dir);
    lemma_encode_concat(b, child_name(dir, p));
    lemma_encode_concat(b, child_name(dir, q));
    lemma_bytes_le_prefix(
        encode_utf8(b),
        encode_utf8(child_name(dir, p)),
        encode_utf8(child_name(dir, q)),
    );
}

/// Two texts whose encodings are each at most the other are equal.
pub proof fn lemma_names_antisymmetric(a: Seq<char>, b: Seq<char>)
    requires
        bytes_le(encode_utf8(a), encode_utf8(b)),
        bytes_le(encode_utf8(b), encode_utf8(a)),
    ensures
        a == b,
{
    lemma_bytes_le_antisymmetric(encode_utf8(a), encode_utf8(b));
    lemma_encode_injective(a, b);
}

/// Paths that share the components `d` and differ in the next one come in
/// the order of that component.
pub proof fn lemma_components_lt_at(d: Seq<Seq<char>>, a: Seq<Seq<char>>, b: Seq<Seq<char>>)
    requires
        a.len() > d.len(),
        b.len() > d.len(),
        a.take(d.len() as int) == d,
        b.take(d.len() as int) == d,
        a[d.len() as int] != b[d.len() as int],
        bytes_le(encode_utf8(a[d.len() as int]), encode_utf8(b[d.len() as int])),
    ensures
        components_lt(a, b),
{
    let n = d.len() as int;
    assert(a =~= d + a.skip(n));
    assert(b =~= d + b.skip(n));
    lemma_components_lt_prefix(d, a.skip(n), b.skip(n));
    assert(a.skip(n)[0] == a[n]);
    assert(b.skip(n)[0] == b[n]);
}

} // verus!
