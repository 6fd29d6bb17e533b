//! The mathematical model of a text: its lines, literal substrings and ASCII
//! case folding, stated once for any element type and used both for the
//! characters of a `str` and for its UTF-8 bytes.

use vstd::prelude::*;
use vstd::utf8::*;
use crate::encoding::{
    lemma_char_code, lemma_encode_concat, lemma_encode_drop_last, lemma_encode_empty, lemma_encode_push, lemma_scalar_bytes,
};

verus! {

/// The pieces of `s` between separators, as `split(sep)` yields them: one
/// more piece than there are separators, each possibly empty.
pub open spec fn pieces<T>(s: Seq<T>, sep: T) -> Seq<Seq<T>>
    decreases s.len(),
{
    if s.len() == 0 {
        seq![Seq::<T>::empty()]
    } else {
        let p = pieces(s.drop_last(), sep);
        if s.last() == sep {
            p.push(Seq::<T>::empty())
        } else {
            p.update(p.len() - 1, p.last().push(s.last()))
        }
    }
}

/// `l` without one trailing `cr`, if it ends with one.
pub open spec fn strip_last<T>(l: Seq<T>, cr: T) -> Seq<T> {
    if l.len() > 0 && l.last() == cr {
        l.drop_last()
    } else {
        l
    }
}

/// The lines of `s`: every piece that a line feed `nl` ends, without that line
/// feed and without a carriage return `cr` just before it, followed by the
/// unterminated rest when it is not empty. A final line feed therefore
/// starts no empty line, and a carriage return that no line feed follows is
/// kept.
pub open spec fn lines_of<T>(s: Seq<T>, nl: T, cr: T) -> Seq<Seq<T>> {
    let p = pieces(s, nl);
    let ended = p.drop_last().map_values(|l: Seq<T>| strip_last(l, cr));
    if p.last().len() == 0 {
        ended
    } else {
        ended.push(p.last())
    }
}

/// The lines of a text, as `str::lines` yields them.
pub open spec fn text_lines(s: Seq<char>) -> Seq<Seq<char>> {
    lines_of(s, '\n', '\r')
}

/// The lines of a UTF-8 byte sequence, split at the byte 0x0A and with a
/// 0x0D before it removed.
pub open spec fn byte_lines(s: Seq<u8>) -> Seq<Seq<u8>> {
    lines_of(s, 10u8, 13u8)
}

/// `needle` stands in `hay` starting at position `i`.
pub open spec fn occurs_at<T>(hay: Seq<T>, needle: Seq<T>, i: int) -> bool {
    0 <= i && i + needle.len() <= hay.len() && hay.subrange(i, i + needle.len()) == needle
}

/// `needle` is a contiguous part of `hay`; the empty needle is part of every
/// sequence.
pub open spec fn has_substring<T>(hay: Seq<T>, needle: Seq<T>) -> bool {
    exists|i: int| occurs_at(hay, needle, i)
}

/// A character with `'A'..='Z'` mapped to `'a'..='z'` and every other
/// character, accented letters included, unchanged.
pub open spec fn ascii_lower(c: char) -> char {
    if 'A' <= c && c <= 'Z' {
        ((c as u32) + 32) as char
    } else {
        c
    }
}

/// A text with every ASCII capital letter made lower case.
pub open spec fn ascii_lowercase(s: Seq<char>) -> Seq<char> {
    s.map_values(|c: char| ascii_lower(c))
}

/// A character with `'a'..='z'` mapped to `'A'..='Z'` and every other
/// character unchanged.
pub open spec fn ascii_upper(c: char) -> char {
    if 'a' <= c && c <= 'z' {
        ((c as u32) - 32) as char
    } else {
        c
    }
}

/// A text with every ASCII small letter made upper case.
pub open spec fn ascii_uppercase(s: Seq<char>) -> Seq<char> {
    s.map_values(|c: char| ascii_upper(c))
}

/// A byte with 0x41..=0x5A mapped to 0x61..=0x7A and every other byte
/// unchanged.
pub open spec fn ascii_lower_byte(b: u8) -> u8 {
    if 0x41 <= b && b <= 0x5A {
        (b + 32) as u8
    } else {
        b
    }
}

/// A byte sequence with every ASCII capital letter made lower case.
pub open spec fn ascii_lowercase_bytes(s: Seq<u8>) -> Seq<u8> {
    s.map_values(|b: u8| ascii_lower_byte(b))
}

/// The encoding of every element of a sequence of texts.
pub open spec fn encode_all(ls: Seq<Seq<char>>) -> Seq<Seq<u8>> {
    ls.map_values(|l: Seq<char>| encode_utf8(l))
}

/* pieces */

pub proof fn lemma_pieces_len<T>(s: Seq<T>, sep: T)
    ensures
        pieces(s, sep).len() >= 1,
    decreases s.len(),
{
    if s.len() > 0 {
        lemma_pieces_len(s.drop_last(), sep);
    }
}

/// Appending elements none of which is a separator extends the last piece.
pub proof fn lemma_pieces_append_plain<T>(t: Seq<T>, u: Seq<T>, sep: T)
    requires
        forall|i: int| 0 <= i < u.len() ==> u[i] != sep,
    ensures
        pieces(t + u, sep) == pieces(t, sep).update(
            pieces(t, sep).len() - 1,
            pieces(t, sep).last() + u,
        ),
    decreases u.len(),
{
    lemma_pieces_len(t, sep);
    let p = pieces(t, sep);
    if u.len() == 0 {
        assert(t + u =~= t);
        assert(p.last() + u =~= p.last());
        assert(p.update(p.len() - 1, p.last() + u) =~= p);
    } else {
        let u0 = u.drop_last();
        lemma_pieces_append_plain(t, u0, sep);
        assert((t + u).drop_last() =~= t + u0);
        assert((t + u).last() == u.last());
        let q = pieces(t + u0, sep);
        lemma_pieces_len(t + u0, sep);
        assert(q.last() == p.last() + u0);
        assert((p.last() + u0).push(u.last()) =~= p.last() + u);
        assert(q.update(q.len() - 1, q.last().push(u.last())) =~= p.update(
            p.len() - 1,
            p.last() + u,
        ));
    }
}

/// Splitting the encoding at line feeds gives the encodings of the pieces of
/// the text.
pub proof fn lemma_pieces_encode(s: Seq<char>)
    ensures
        pieces(encode_utf8(s), 10u8) == encode_all(pieces(s, '\n')),
    decreases s.len(),
{
    lemma_pieces_len(s, '\n');
    if s.len() == 0 {
        assert(encode_utf8(s) =~= Seq::<u8>::empty());
        assert(encode_all(pieces(s, '\n')) =~= seq![Seq::<u8>::empty()]);
    } else {
        let s0 = s.drop_last();
        let c = s.last();
        lemma_pieces_encode(s0);
        lemma_pieces_len(s0, '\n');
        lemma_encode_drop_last(s);
        lemma_scalar_bytes(c);
        let e0 = encode_utf8(s0);
        let ec = encode_scalar(c as u32);
        let p = pieces(s0, '\n');
        if c == '\n' {
            assert(ec =~= seq![10u8]);
            assert((e0 + ec).drop_last() =~= e0);
            assert(encode_utf8(Seq::<char>::empty()) =~= Seq::<u8>::empty());
            assert(encode_all(p.push(Seq::<char>::empty())) =~= encode_all(p).push(
                Seq::<u8>::empty(),
            ));
        } else {
            assert forall|i: int| 0 <= i < ec.len() implies ec[i] != 10u8 by {
                if (c as u32) < 0x80 {
                    assert(ec[i] == (c as u32) as u8);
                    assert((c as u32) != 10) by {
                        if (c as u32) == 10 {
                            lemma_char_code(c, '\n');
                        }
                    }
                } else {
                    assert(ec[i] >= 0x80);
                }
            }
            lemma_pieces_append_plain(e0, ec, 10u8);
            lemma_encode_push(p.last(), c);
            assert(encode_all(p.update(p.len() - 1, p.last().push(c))) =~= encode_all(p).update(
                p.len() - 1,
                encode_all(p).last() + ec,
            ));
        }
    }
}

/* lines */

/// Removing a trailing carriage return commutes with encoding.
pub proof fn lemma_strip_encode(l: Seq<char>)
    ensures
        encode_utf8(strip_last(l, '\r')) == strip_last(encode_utf8(l), 13u8),
{
    if l.len() > 0 {
        let c = l.last();
        lemma_encode_drop_last(l);
        lemma_scalar_bytes(c);
        let e0 = encode_utf8(l.drop_last());
        let ec = encode_scalar(c as u32);
        assert(encode_utf8(l).last() == ec.last());
        if c == '\r' {
            assert(ec =~= seq![13u8]);
            assert(encode_utf8(l).drop_last() =~= e0);
        } else if (c as u32) < 0x80 {
            assert(ec.last() == (c as u32) as u8);
            assert((c as u32) != 13) by {
                if (c as u32) == 13 {
                    lemma_char_code(c, '\r');
                }
            }
        } else {
            assert(ec.last() >= 0x80);
        }
    } else {
        lemma_encode_empty(l);
    }
}

/// The lines of the encoding are the encodings of the lines.
pub proof fn lemma_lines_encode(s: Seq<char>)
    ensures
        byte_lines(encode_utf8(s)) == encode_all(text_lines(s)),
{
    let p = pieces(s, '\n');
    let pb = pieces(encode_utf8(s), 10u8);
    lemma_pieces_encode(s);
    lemma_pieces_len(s, '\n');
    let ended = p.drop_last().map_values(|l: Seq<char>| strip_last(l, '\r'));
    let ended_b = pb.drop_last().map_values(|l: Seq<u8>| strip_last(l, 13u8));
    assert forall|i: int| 0 <= i < ended.len() implies #[trigger] ended_b[i] == encode_utf8(
        ended[i],
    ) by {
        lemma_strip_encode(p[i]);
    }
    assert(ended_b =~= encode_all(ended));
    lemma_encode_empty(p.last());
    if p.last().len() != 0 {
        assert(encode_all(ended.push(p.last())) =~= ended_b.push(pb.last()));
    }
}


/* ASCII case folding */

/// Folding the characters and then encoding is folding the bytes of the
/// encoding: the bytes of a non-ASCII character are all at least 0x80 and
/// are left alone.
pub proof fn lemma_lowercase_encode(s: Seq<char>)
    ensures
        encode_utf8(ascii_lowercase(s)) == ascii_lowercase_bytes(encode_utf8(s)),
    decreases s.len(),
{
    if s.len() == 0 {
        assert(ascii_lowercase(s) =~= s);
        assert(ascii_lowercase_bytes(encode_utf8(s)) =~= encode_utf8(s));
    } else {
        let s0 = s.drop_last();
        let c = s.last();
        lemma_lowercase_encode(s0);
        lemma_encode_drop_last(s);
        assert(ascii_lowercase(s) =~= ascii_lowercase(s0).push(ascii_lower(c)));
        lemma_encode_push(ascii_lowercase(s0), ascii_lower(c));
        lemma_scalar_bytes(c);
        lemma_scalar_bytes(ascii_lower(c));
        let ec = encode_scalar(c as u32);
        let el = encode_scalar(ascii_lower(c) as u32);
        if (c as u32) < 0x80 {
            assert(el =~= ec.map_values(|b: u8| ascii_lower_byte(b)));
        } else {
            assert(ascii_lower(c) == c);
            assert(el =~= ec.map_values(|b: u8| ascii_lower_byte(b)));
        }
        assert(ascii_lowercase_bytes(encode_utf8(s0) + ec) =~= ascii_lowercase_bytes(
            encode_utf8(s0),
        ) + ec.map_values(|b: u8| ascii_lower_byte(b)));
    }
}

/* substrings */

/// A needle that stands in the text stands in the encoding, at the byte
/// offset of its first character.
pub proof fn lemma_occurs_encode(h: Seq<char>, n: Seq<char>, i: int)
    requires
        occurs_at(h, n, i),
    ensures
        occurs_at(encode_utf8(h), encode_utf8(n), encode_utf8(h.take(i)).len() as int),
{
    let a = h.take(i);
    let r = h.skip(i + n.len());
    assert(h =~= a + n + r);
    lemma_encode_concat(a + n, r);
    lemma_encode_concat(a, n);
    let ea = encode_utf8(a);
    let en = encode_utf8(n);
    let eh = encode_utf8(h);
    assert(eh.subrange(ea.len() as int, (ea.len() + en.len()) as int) =~= en);
}

/// When a valid byte sequence `p` begins the valid byte sequence `x`, the end
/// of `p` is a character boundary of `x`.
pub proof fn lemma_prefix_boundary(x: Seq<u8>, p: Seq<u8>)
    requires
        valid_utf8(x),
        valid_utf8(p),
        p.len() <= x.len(),
        x.subrange(0, p.len() as int) == p,
    ensures
        is_char_boundary(x, p.len() as int),
    decreases p.len(),
{
    if p.len() > 0 {
        assert(p[0] == x[0]);
        let len = length_of_first_scalar(p);
        assert(length_of_first_scalar(x) == len);
        let px = pop_first_scalar(x);
        let pp = pop_first_scalar(p);
        assert(px.subrange(0, pp.len() as int) =~= pp);
        lemma_prefix_boundary(px, pp);
    }
}

/// A needle whose encoding stands in the encoding of a text stands in the
/// text: a match of a non-empty encoding begins on a leading byte and ends on
/// a scalar boundary, so it covers whole characters.
pub proof fn lemma_occurs_decode(h: Seq<char>, n: Seq<char>, k: int)
    requires
        n.len() > 0,
        occurs_at(encode_utf8(h), encode_utf8(n), k),
    ensures
        has_substring(h, n),
{
    let b = encode_utf8(h);
    let p = encode_utf8(n);
    encode_utf8_valid_utf8(h);
    encode_utf8_valid_utf8(n);
    encode_utf8_decode_utf8(h);
    encode_utf8_decode_utf8(n);
    lemma_scalar_bytes(n[0]);
    assert(p == encode_scalar(n[0] as u32) + encode_utf8(n.drop_first()));
    assert(b[k] == p[0]);
    is_char_boundary_iff_not_is_continuation_byte(b, k);
    valid_utf8_split(b, k);
    decode_utf8_split(b, k);
    let x = b.subrange(k, b.len() as int);
    assert(x.subrange(0, p.len() as int) =~= p);
    lemma_prefix_boundary(x, p);
    valid_utf8_split(x, p.len() as int);
    decode_utf8_split(x, p.len() as int);
    let a = decode_utf8(b.subrange(0, k));
    let rest = decode_utf8(x.subrange(p.len() as int, x.len() as int));
    assert(h =~= a + n + rest);
    assert(h.subrange(a.len() as int, (a.len() + n.len()) as int) =~= n);
    assert(occurs_at(h, n, a.len() as int));
}

/// A needle stands in a text exactly when its encoding stands in the
/// encoding of the text.
pub proof fn lemma_substring_encode(h: Seq<char>, n: Seq<char>)
    ensures
        has_substring(encode_utf8(h), encode_utf8(n)) == has_substring(h, n),
{
    if has_substring(h, n) {
        let i = choose|i: int| occurs_at(h, n, i);
        lemma_occurs_encode(h, n, i);
    }
    if has_substring(encode_utf8(h), encode_utf8(n)) {
        if n.len() == 0 {
            assert(h.subrange(0, 0) =~= n);
            assert(occurs_at(h, n, 0));
        } else {
            let k = choose|k: int| occurs_at(encode_utf8(h), encode_utf8(n), k);
            lemma_occurs_decode(h, n, k);
        }
    }
}


/// After a separator, the pieces of what follows start afresh: the empty
/// piece that the separator ends with gives way to them.
pub proof fn lemma_pieces_after_sep<T>(t: Seq<T>, u: Seq<T>, sep: T)
    requires
        t.len() > 0,
        t.last() == sep,
    ensures
        pieces(t + u, sep) == pieces(t, sep).drop_last() + pieces(u, sep),
    decreases u.len(),
{
    let x = pieces(t, sep).drop_last();
    lemma_pieces_len(t.drop_last(), sep);
    if u.len() == 0 {
        assert(t + u =~= t);
        assert(x + pieces(u, sep) =~= pieces(t, sep));
    } else {
        let u0 = u.drop_last();
        lemma_pieces_after_sep(t, u0, sep);
        lemma_pieces_len(u0, sep);
        assert((t + u).drop_last() =~= t + u0);
        assert((t + u).last() == u.last());
        let p0 = pieces(u0, sep);
        if u.last() == sep {
            assert((x + p0).push(Seq::<T>::empty()) =~= x + p0.push(Seq::<T>::empty()));
        } else {
            let q = x + p0;
            assert(q.last() == p0.last());
            assert(q.update(q.len() - 1, q.last().push(u.last())) =~= x + p0.update(
                p0.len() - 1,
                p0.last().push(u.last()),
            ));
        }
    }
}

/// Lines split at a line break: the lines of a text that is empty or ends
/// with a line feed, followed by the lines of what comes after it.
pub proof fn lemma_lines_concat<T>(t: Seq<T>, u: Seq<T>, nl: T, cr: T)
    requires
        t.len() == 0 || t.last() == nl,
    ensures
        lines_of(t + u, nl, cr) == lines_of(t, nl, cr) + lines_of(u, nl, cr),
{
    if t.len() == 0 {
        assert(t + u =~= u);
        assert(pieces(t, nl).drop_last() =~= Seq::<Seq<T>>::empty());
        assert(lines_of(t, nl, cr) =~= Seq::<Seq<T>>::empty());
        assert(lines_of(t, nl, cr) + lines_of(u, nl, cr) =~= lines_of(u, nl, cr));
    } else {
        lemma_pieces_after_sep(t, u, nl);
        lemma_pieces_len(t.drop_last(), nl);
        lemma_pieces_len(u, nl);
        let x = pieces(t, nl).drop_last();
        let pu = pieces(u, nl);
        let p = x + pu;
        let f = |l: Seq<T>| strip_last(l, cr);
        assert(p.drop_last() =~= x + pu.drop_last());
        assert(p.last() == pu.last());
        assert((x + pu.drop_last()).map_values(f) =~= x.map_values(f) + pu.drop_last().map_values(
            f,
        ));
        assert(pieces(t, nl).last().len() == 0);
        if pu.last().len() == 0 {
        } else {
            assert((x.map_values(f) + pu.drop_last().map_values(f)).push(pu.last()) =~= x.map_values(
                f,
            ) + pu.drop_last().map_values(f).push(pu.last()));
        }
    }
}

/// The lines of a line that holds no line feed, followed by one, are that
/// line, without a carriage return at its end.
pub proof fn lemma_lines_of_one<T>(l: Seq<T>, nl: T, cr: T)
    requires
        forall|k: int| 0 <= k < l.len() ==> l[k] != nl,
    ensures
        lines_of(l.push(nl), nl, cr) == seq![strip_last(l, cr)],
{
    lemma_pieces_append_plain(Seq::<T>::empty(), l, nl);
    assert(Seq::<T>::empty() + l =~= l);
    assert(pieces(Seq::<T>::empty(), nl).update(0, Seq::<T>::empty() + l) =~= seq![l]);
    assert(l.push(nl).drop_last() =~= l);
    let p = pieces(l.push(nl), nl);
    assert(p =~= seq![l, Seq::<T>::empty()]);
    assert(p.drop_last() =~= seq![l]);
    assert(seq![l].map_values(|x: Seq<T>| strip_last(x, cr)) =~= seq![strip_last(l, cr)]);
}

/* laws */

/// No piece holds a separator.
pub proof fn lemma_pieces_no_sep<T>(s: Seq<T>, sep: T)
    ensures
        forall|i: int, j: int|
            0 <= i < pieces(s, sep).len() && 0 <= j < pieces(s, sep)[i].len() ==> pieces(
                s,
                sep,
            )[i][j] != sep,
    decreases s.len(),
{
    if s.len() > 0 {
        lemma_pieces_no_sep(s.drop_last(), sep);
        lemma_pieces_len(s.drop_last(), sep);
        let p = pieces(s.drop_last(), sep);
        if s.last() != sep {
            let q = p.update(p.len() - 1, p.last().push(s.last()));
            assert forall|i: int, j: int| 0 <= i < q.len() && 0 <= j < q[i].len() implies q[i][j]
                != sep by {
                if i == p.len() - 1 && j < p.last().len() {
                    assert(q[i][j] == p[i][j]);
                }
            }
        }
    }
}

/// No line of a text holds a line feed.
pub proof fn law_lines_hold_no_line_feed(s: Seq<char>)
    ensures
        forall|i: int, j: int|
            0 <= i < text_lines(s).len() && 0 <= j < text_lines(s)[i].len() ==> text_lines(
                s,
            )[i][j] != '\n',
{
    let p = pieces(s, '\n');
    lemma_pieces_no_sep(s, '\n');
    lemma_pieces_len(s, '\n');
    let ls = text_lines(s);
    assert forall|i: int, j: int| 0 <= i < ls.len() && 0 <= j < ls[i].len() implies ls[i][j]
        != '\n' by {
        assert(ls[i][j] == p[i][j]);
    }
}

/// Lowercasing keeps a substring a substring.
pub proof fn law_substring_survives_lowercasing(hay: Seq<char>, needle: Seq<char>)
    requires
        has_substring(hay, needle),
    ensures
        has_substring(ascii_lowercase(hay), ascii_lowercase(needle)),
{
    let i = choose|i: int| occurs_at(hay, needle, i);
    assert(ascii_lowercase(hay).subrange(i, i + needle.len()) =~= ascii_lowercase(needle));
    assert(occurs_at(ascii_lowercase(hay), ascii_lowercase(needle), i));
}

/// The empty needle stands in every sequence.
pub proof fn law_empty_needle<T>(hay: Seq<T>)
    ensures
        has_substring(hay, Seq::<T>::empty()),
{
    assert(hay.subrange(0, 0) =~= Seq::<T>::empty());
    assert(occurs_at(hay, Seq::<T>::empty(), 0));
}

} // verus!
