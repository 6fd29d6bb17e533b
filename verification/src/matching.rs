//! Selecting the lines of a text that contain a literal pattern, with or
//! without ASCII case folding.

use vstd::prelude::*;
use vstd::utf8::*;
use crate::encoding::{lemma_after_ascii_boundary, lemma_encode_injective};
use crate::text::{
    ascii_lower_byte, ascii_lowercase, ascii_lowercase_bytes, byte_lines, encode_all,
    has_substring, lemma_lines_encode, lemma_lowercase_encode, lemma_pieces_len,
    lemma_substring_encode, occurs_at, pieces, strip_last, text_lines, ascii_lower, ascii_upper,
    ascii_uppercase, lemma_lines_concat,
};

verus! {

/// Whether a line is selected: it contains the pattern, or, when case is
/// ignored, its ASCII-lowercased form contains the ASCII-lowercased pattern.
pub open spec fn line_matches(line: Seq<char>, pattern: Seq<char>, ignore_case: bool) -> bool {
    if ignore_case {
        has_substring(ascii_lowercase(line), ascii_lowercase(pattern))
    } else {
        has_substring(line, pattern)
    }
}

/// `line_matches` as a predicate on lines.
pub open spec fn selects(pattern: Seq<char>, ignore_case: bool) -> spec_fn(Seq<char>) -> bool {
    |line: Seq<char>| line_matches(line, pattern, ignore_case)
}

/// The lines of `text`, in order, that `line_matches` selects.
pub open spec fn matching_text_lines(text: Seq<char>, pattern: Seq<char>, ignore_case: bool) -> Seq<
    Seq<char>,
> {
    text_lines(text).filter(selects(pattern, ignore_case))
}

/// The lines of `text` that contain `pattern`.
pub open spec fn lines_containing(text: Seq<char>, pattern: Seq<char>) -> Seq<Seq<char>> {
    matching_text_lines(text, pattern, false)
}

/// The lines of `text` that contain `pattern` once both are ASCII-lowercased.
pub open spec fn lines_containing_ignoring_case(text: Seq<char>, pattern: Seq<char>) -> Seq<
    Seq<char>,
> {
    matching_text_lines(text, pattern, true)
}

/// The views of a sequence of string slices.
pub open spec fn views<'a>(ls: Seq<&'a str>) -> Seq<Seq<char>> {
    ls.map_values(|l: &'a str| l@)
}

/* the same selection on UTF-8 bytes */

/// A byte sequence, folded when case is ignored.
pub open spec fn folded(s: Seq<u8>, ignore_case: bool) -> Seq<u8> {
    if ignore_case {
        ascii_lowercase_bytes(s)
    } else {
        s
    }
}

/// `line_matches` on encodings.
pub open spec fn byte_line_matches(line: Seq<u8>, pattern: Seq<u8>, ignore_case: bool) -> bool {
    has_substring(folded(line, ignore_case), folded(pattern, ignore_case))
}

/// `byte_line_matches` as a predicate on lines.
pub open spec fn byte_selects(pattern: Seq<u8>, ignore_case: bool) -> spec_fn(Seq<u8>) -> bool {
    |line: Seq<u8>| byte_line_matches(line, pattern, ignore_case)
}

/// The UTF-8 bytes of a sequence of string slices.
pub open spec fn bytes_of<'a>(ls: Seq<&'a str>) -> Seq<Seq<u8>> {
    ls.map_values(|l: &'a str| encode_utf8(l@))
}

/// Selecting a line by its encoding is selecting it by its characters.
pub proof fn lemma_line_matches_encode(line: Seq<char>, pattern: Seq<char>, ignore_case: bool)
    ensures
        byte_line_matches(encode_utf8(line), encode_utf8(pattern), ignore_case) == line_matches(
            line,
            pattern,
            ignore_case,
        ),
{
    if ignore_case {
        lemma_lowercase_encode(line);
        lemma_lowercase_encode(pattern);
        lemma_substring_encode(ascii_lowercase(line), ascii_lowercase(pattern));
    } else {
        lemma_substring_encode(line, pattern);
    }
}

/// Filtering encoded lines by the byte selection is encoding the lines
/// selected by characters.
pub proof fn lemma_filter_encode(ls: Seq<Seq<char>>, pattern: Seq<char>, ignore_case: bool)
    ensures
        encode_all(ls).filter(byte_selects(encode_utf8(pattern), ignore_case)) == encode_all(
            ls.filter(selects(pattern, ignore_case)),
        ),
    decreases ls.len(),
{
    reveal(Seq::filter);
    let bsel = byte_selects(encode_utf8(pattern), ignore_case);
    let sel = selects(pattern, ignore_case);
    if ls.len() == 0 {
        assert(encode_all(ls) =~= Seq::<Seq<u8>>::empty());
        assert(encode_all(ls).filter(bsel) =~= Seq::<Seq<u8>>::empty());
        assert(ls.filter(sel) =~= ls);
    } else {
        let l0 = ls.drop_last();
        lemma_filter_encode(l0, pattern, ignore_case);
        assert(encode_all(ls).drop_last() =~= encode_all(l0));
        assert(encode_all(ls).last() == encode_utf8(ls.last()));
        lemma_line_matches_encode(ls.last(), pattern, ignore_case);
        if sel(ls.last()) {
            assert(encode_all(l0.filter(sel).push(ls.last())) =~= encode_all(l0.filter(sel)).push(
                encode_utf8(ls.last()),
            ));
        }
    }
}

/// A byte with its ASCII capital letter, if any, made lower case, when case
/// is ignored; the byte itself otherwise.
fn fold_byte(b: u8, ignore_case: bool) -> (r: u8)
    ensures
        r == (if ignore_case {
            ascii_lower_byte(b)
        } else {
            b
        }),
{
    if ignore_case && 0x41 <= b && b <= 0x5A {
        b + 32
    } else {
        b
    }
}

/// Whether `pattern` stands in `hay[lo..hi]`, both folded when case is
/// ignored.
fn range_has_pattern(hay: &[u8], lo: usize, hi: usize, pattern: &[u8], ignore_case: bool) -> (r:
    bool)
    requires
        lo <= hi <= hay@.len(),
    ensures
        r == byte_line_matches(hay@.subrange(lo as int, hi as int), pattern@, ignore_case),
{
    let ghost line = hay@.subrange(lo as int, hi as int);
    let ghost fl = folded(line, ignore_case);
    let ghost fp = folded(pattern@, ignore_case);
    let m = pattern.len();
    if m > hi - lo {
        assert forall|k: int| !occurs_at(fl, fp, k) by {}
        return false;
    }
    let mut i: usize = lo;
    while i <= hi - m
        invariant
            lo <= i <= hi - m + 1,
            m == pattern@.len(),
            m <= hi - lo,
            hi <= hay@.len(),
            line == hay@.subrange(lo as int, hi as int),
            fl == folded(line, ignore_case),
            fp == folded(pattern@, ignore_case),
            forall|k: int| 0 <= k < i - lo ==> !occurs_at(fl, fp, k),
        decreases hi - m + 1 - i,
    {
        let mut j: usize = 0;
        let mut same = true;
        while j < m && same
            invariant
                lo <= i <= hi - m,
                m == pattern@.len(),
                hi <= hay@.len(),
                line == hay@.subrange(lo as int, hi as int),
                fl == folded(line, ignore_case),
                fp == folded(pattern@, ignore_case),
                0 <= j <= m,
                same ==> forall|t: int| 0 <= t < j ==> fl[i - lo + t] == fp[t],
                !same ==> fl[i - lo + j - 1] != fp[j - 1] && j > 0,
            decreases m - j,
        {
            if fold_byte(hay[i + j], ignore_case) != fold_byte(pattern[j], ignore_case) {
                same = false;
            }
            j += 1;
        }
        if same {
            assert(fl.subrange(i - lo, i - lo + m) =~= fp);
            assert(occurs_at(fl, fp, i - lo));
            return true;
        }
        assert(!occurs_at(fl, fp, i - lo)) by {
            if occurs_at(fl, fp, i - lo) {
                assert(fl.subrange(i - lo, i - lo + m)[j - 1] == fp[j - 1]);
            }
        }
        i += 1;
    }
    assert forall|k: int| !occurs_at(fl, fp, k) by {}
    false
}


/// The lines that a line feed ended, each without a carriage return before
/// that line feed.
pub open spec fn ended_lines(done: Seq<Seq<u8>>) -> Seq<Seq<u8>> {
    done.map_values(|l: Seq<u8>| strip_last(l, 13u8))
}

/// The part of `text` between two byte offsets that each lie at an end of
/// the text or next to an ASCII byte.
fn slice_between<'a>(text: &'a str, start: usize, end: usize) -> (part: &'a str)
    requires
        start <= end <= encode_utf8(text@).len(),
        start == 0 || encode_utf8(text@)[start - 1] < 0x80,
        end == encode_utf8(text@).len() || encode_utf8(text@)[end as int] < 0x80,
    ensures
        encode_utf8(part@) == encode_utf8(text@).subrange(start as int, end as int),
{
    let ghost b = encode_utf8(text@);
    proof {
        encode_utf8_valid_utf8(text@);
        is_char_boundary_start_end_of_seq(b);
        if start > 0 {
            lemma_after_ascii_boundary(b, start as int);
        }
    }
    let (_, tail) = text.split_at(start);
    let ghost t = encode_utf8(tail@);
    proof {
        assert(t =~= b.subrange(start as int, b.len() as int));
        encode_utf8_valid_utf8(tail@);
        is_char_boundary_start_end_of_seq(t);
        if end < b.len() {
            assert(t[end - start] == b[end as int]);
            is_char_boundary_iff_not_is_continuation_byte(t, end - start);
        }
    }
    let (part, _) = tail.split_at(end - start);
    proof {
        assert(encode_utf8(part@) =~= b.subrange(start as int, end as int));
    }
    part
}

/// The lines of `contents`, in order, that contain `pattern`, both
/// ASCII-lowercased first when `ignore_case` is set.
pub fn matches<'a>(pattern: &str, contents: &'a str, ignore_case: bool) -> (found: Vec<&'a str>)
    ensures
        views(found@) == matching_text_lines(contents@, pattern@, ignore_case),
{
    let hay = contents.as_bytes();
    let pat = pattern.as_bytes();
    let n = hay.len();
    let ghost hb = hay@;
    let ghost sel = byte_selects(pat@, ignore_case);
    let mut found: Vec<&'a str> = Vec::new();
    let mut start: usize = 0;
    let mut i: usize = 0;
    proof {
        assert(hb.take(0) =~= Seq::<u8>::empty());
        assert(hb.subrange(0, 0) =~= Seq::<u8>::empty());
        reveal(Seq::filter);
        assert(ended_lines(pieces(hb.take(0), 10u8).drop_last()) =~= Seq::<Seq<u8>>::empty());
        assert(bytes_of(found@) =~= Seq::<Seq<u8>>::empty());
    }
    while i < n
        invariant
            n == hb.len(),
            hay@ == hb,
            hb == encode_utf8(contents@),
            pat@ == encode_utf8(pattern@),
            sel == byte_selects(pat@, ignore_case),
            start <= i <= n,
            start == 0 || hb[start - 1] == 10u8,
            pieces(hb.take(i as int), 10u8).last() == hb.subrange(start as int, i as int),
            bytes_of(found@) == ended_lines(pieces(hb.take(i as int), 10u8).drop_last()).filter(
                sel,
            ),
        decreases n - i,
    {
        let ghost p = pieces(hb.take(i as int), 10u8);
        proof {
            lemma_pieces_len(hb.take(i as int), 10u8);
            assert(hb.take(i + 1).drop_last() =~= hb.take(i as int));
            assert(hb.take(i + 1).last() == hb[i as int]);
        }
        if hay[i] == 10 {
            let end = if i > start && hay[i - 1] == 13 {
                i - 1
            } else {
                i
            };
            let ghost line = hb.subrange(start as int, end as int);
            proof {
                assert(strip_last(p.last(), 13u8) =~= line);
                assert(pieces(hb.take(i + 1), 10u8) == p.push(Seq::<u8>::empty()));
                assert(p.push(Seq::<u8>::empty()).drop_last() =~= p);
                assert(ended_lines(p) =~= ended_lines(p.drop_last()).push(line));
                reveal(Seq::filter);
                assert(ended_lines(p).drop_last() =~= ended_lines(p.drop_last()));
            }
            if range_has_pattern(hay, start, end, pat, ignore_case) {
                let part = slice_between(contents, start, end);
                found.push(part);
                proof {
                    assert(bytes_of(found@) =~= ended_lines(p.drop_last()).filter(sel).push(line));
                }
            }
            start = i + 1;
            proof {
                assert(hb.subrange(start as int, (i + 1) as int) =~= Seq::<u8>::empty());
            }
        } else {
            proof {
                let q = pieces(hb.take(i + 1), 10u8);
                assert(q == p.update(p.len() - 1, p.last().push(hb[i as int])));
                assert(q.drop_last() =~= p.drop_last());
                assert(q.last() =~= hb.subrange(start as int, i + 1));
            }
        }
        i += 1;
    }
    let ghost p = pieces(hb, 10u8);
    proof {
        assert(hb.take(n as int) =~= hb);
        lemma_pieces_len(hb, 10u8);
    }
    if start < n {
        if range_has_pattern(hay, start, n, pat, ignore_case) {
            let part = slice_between(contents, start, n);
            found.push(part);
            proof {
                assert(bytes_of(found@) =~= ended_lines(p.drop_last()).filter(sel).push(p.last()));
            }
        }
        proof {
            reveal(Seq::filter);
            let ls = ended_lines(p.drop_last()).push(p.last());
            assert(ls.drop_last() =~= ended_lines(p.drop_last()));
            assert(byte_lines(hb) == ls);
        }
    } else {
        proof {
            assert(p.last().len() == 0);
            assert(byte_lines(hb) == ended_lines(p.drop_last()));
        }
    }
    proof {
        let m = matching_text_lines(contents@, pattern@, ignore_case);
        lemma_lines_encode(contents@);
        lemma_filter_encode(text_lines(contents@), pattern@, ignore_case);
        assert(bytes_of(found@) == encode_all(m));
        assert forall|k: int| 0 <= k < found@.len() implies #[trigger] views(found@)[k] == m[k] by {
            assert(bytes_of(found@)[k] == encode_all(m)[k]);
            lemma_encode_injective(found@[k]@, m[k]);
        }
        assert(views(found@) =~= m);
    }
    found
}

/// The lines of `contents` that contain `pattern` as a literal substring, in
/// order, each a slice of `contents`.
pub fn matching_lines<'a>(pattern: &str, contents: &'a str) -> (found: Vec<&'a str>)
    ensures
        views(found@) == lines_containing(contents@, pattern@),
{
    matches(pattern, contents, false)
}

/// The lines of `contents` that contain `pattern` once ASCII capital letters
/// in both are made lower case; other characters, accented letters
/// included, must match exactly.
pub fn matching_lines_ignoring_case<'a>(pattern: &str, contents: &'a str) -> (found: Vec<&'a str>)
    ensures
        views(found@) == lines_containing_ignoring_case(contents@, pattern@),
{
    matches(pattern, contents, true)
}


/* laws */

/// A line that contains the pattern is also found when case is ignored.
pub proof fn law_exact_match_is_caseless_match(line: Seq<char>, pattern: Seq<char>)
    requires
        line_matches(line, pattern, false),
    ensures
        line_matches(line, pattern, true),
{
    crate::text::law_substring_survives_lowercasing(line, pattern);
}

/// The lines found with case taken into account are among those found with
/// case ignored, in the same order.
pub proof fn law_exact_matches_among_caseless_matches(text: Seq<char>, pattern: Seq<char>)
    ensures
        lines_containing(text, pattern) == lines_containing_ignoring_case(text, pattern).filter(
            selects(pattern, false),
        ),
{
    lemma_filter_narrower(text_lines(text), pattern);
}

proof fn lemma_filter_narrower(ls: Seq<Seq<char>>, pattern: Seq<char>)
    ensures
        ls.filter(selects(pattern, false)) == ls.filter(selects(pattern, true)).filter(
            selects(pattern, false),
        ),
    decreases ls.len(),
{
    reveal(Seq::filter);
    if ls.len() > 0 {
        let l0 = ls.drop_last();
        lemma_filter_narrower(l0, pattern);
        let exact = selects(pattern, false);
        let caseless = selects(pattern, true);
        if exact(ls.last()) {
            law_exact_match_is_caseless_match(ls.last(), pattern);
            let f = l0.filter(caseless);
            assert(f.push(ls.last()).drop_last() =~= f);
        } else if caseless(ls.last()) {
            let f = l0.filter(caseless);
            assert(f.push(ls.last()).drop_last() =~= f);
        }
    }
}

/// The empty pattern selects every line, whether case is ignored or not.
pub proof fn law_empty_pattern_selects_every_line(text: Seq<char>, ignore_case: bool)
    ensures
        matching_text_lines(text, Seq::empty(), ignore_case) == text_lines(text),
{
    lemma_select_all(text_lines(text), ignore_case);
}

proof fn lemma_select_all(ls: Seq<Seq<char>>, ignore_case: bool)
    ensures
        ls.filter(selects(Seq::empty(), ignore_case)) == ls,
    decreases ls.len(),
{
    reveal(Seq::filter);
    if ls.len() > 0 {
        lemma_select_all(ls.drop_last(), ignore_case);
        crate::text::law_empty_needle(ls.last());
        crate::text::law_empty_needle(ascii_lowercase(ls.last()));
        assert(ascii_lowercase(Seq::<char>::empty()) =~= Seq::<char>::empty());
        assert(ls.drop_last().push(ls.last()) =~= ls);
    }
}

/// Splitting a text at a line break splits what is found the same way:
/// the lines found in a text that is empty or ends with a line feed,
/// followed by those found in what comes after it.
pub proof fn law_matches_split_at_line_break(
    first: Seq<char>,
    second: Seq<char>,
    pattern: Seq<char>,
    ignore_case: bool,
)
    requires
        first.len() == 0 || first.last() == '\n',
    ensures
        matching_text_lines(first + second, pattern, ignore_case) == matching_text_lines(
            first,
            pattern,
            ignore_case,
        ) + matching_text_lines(second, pattern, ignore_case),
{
    lemma_lines_concat(first, second, '\n', '\r');
    Seq::filter_distributes_over_add(
        text_lines(first),
        text_lines(second),
        selects(pattern, ignore_case),
    );
}

/// Patterns that differ only in ASCII case find the same lines when case is
/// ignored.
pub proof fn law_caseless_search_ignores_pattern_case(
    text: Seq<char>,
    pattern: Seq<char>,
    other: Seq<char>,
)
    requires
        ascii_lowercase(other) == ascii_lowercase(pattern),
    ensures
        lines_containing_ignoring_case(text, other) == lines_containing_ignoring_case(
            text,
            pattern,
        ),
{
    assert(selects(other, true) =~= selects(pattern, true));
}

/// With case ignored, a pattern finds the same lines as its ASCII upper
/// case and its ASCII lower case forms.
pub proof fn law_pattern_case_is_ignored(text: Seq<char>, pattern: Seq<char>)
    ensures
        lines_containing_ignoring_case(text, ascii_uppercase(pattern))
            == lines_containing_ignoring_case(text, pattern),
        lines_containing_ignoring_case(text, ascii_lowercase(pattern))
            == lines_containing_ignoring_case(text, pattern),
{
    assert(ascii_lowercase(ascii_uppercase(pattern)) =~= ascii_lowercase(pattern)) by {
        assert forall|k: int| 0 <= k < pattern.len() implies ascii_lower(
            ascii_upper(pattern[k]),
        ) == ascii_lower(pattern[k]) by {
            let c = pattern[k];
            if 'a' <= c && c <= 'z' {
                assert(ascii_upper(c) as u32 == c as u32 - 32);
                assert(ascii_lower(ascii_upper(c)) as u32 == c as u32);
            }
        }
    }
    assert(ascii_lowercase(ascii_lowercase(pattern)) =~= ascii_lowercase(pattern)) by {
        assert forall|k: int| 0 <= k < pattern.len() implies ascii_lower(
            ascii_lower(pattern[k]),
        ) == ascii_lower(pattern[k]) by {
            let c = pattern[k];
            if 'A' <= c && c <= 'Z' {
                assert(ascii_lower(c) as u32 == c as u32 + 32);
            }
        }
    }
    law_caseless_search_ignores_pattern_case(text, pattern, ascii_uppercase(pattern));
    law_caseless_search_ignores_pattern_case(text, pattern, ascii_lowercase(pattern));
}

/// An ASCII letter, small or capital.
pub open spec fn is_ascii_letter(c: char) -> bool {
    ('a' <= c && c <= 'z') || ('A' <= c && c <= 'Z')
}

/// A pattern without ASCII letters finds the same lines whether case is
/// ignored or not.
pub proof fn law_case_is_moot_without_letters(text: Seq<char>, pattern: Seq<char>)
    requires
        forall|k: int| 0 <= k < pattern.len() ==> !is_ascii_letter(#[trigger] pattern[k]),
    ensures
        lines_containing_ignoring_case(text, pattern) == lines_containing(text, pattern),
{
    assert(ascii_lowercase(pattern) =~= pattern);
    assert forall|line: Seq<char>| #[trigger] selects(pattern, true)(line) == selects(
        pattern,
        false,
    )(line) by {
        let low = ascii_lowercase(line);
        let n = pattern.len();
        assert forall|i: int| occurs_at(low, pattern, i) == occurs_at(line, pattern, i) by {
            if 0 <= i && i + n <= line.len() {
                if occurs_at(low, pattern, i) {
                    assert forall|k: int| 0 <= k < n implies line[i + k] == pattern[k] by {
                        assert(low.subrange(i, i + n)[k] == pattern[k]);
                        assert(low[i + k] == ascii_lower(line[i + k]));
                        let c = line[i + k];
                        if 'A' <= c && c <= 'Z' {
                            assert(ascii_lower(c) as u32 == c as u32 + 32);
                            assert(!is_ascii_letter(pattern[k]));
                        }
                    }
                    assert(line.subrange(i, i + n) =~= pattern);
                }
                if occurs_at(line, pattern, i) {
                    assert forall|k: int| 0 <= k < n implies low[i + k] == pattern[k] by {
                        assert(line.subrange(i, i + n)[k] == pattern[k]);
                        assert(!is_ascii_letter(pattern[k]));
                    }
                    assert(low.subrange(i, i + n) =~= pattern);
                }
            }
        }
        if has_substring(low, pattern) {
            let i = choose|i: int| occurs_at(low, pattern, i);
            assert(occurs_at(line, pattern, i));
        }
        if has_substring(line, pattern) {
            let i = choose|i: int| occurs_at(line, pattern, i);
            assert(occurs_at(low, pattern, i));
        }
    }
    assert(selects(pattern, true) =~= selects(pattern, false));
}

} // verus!
