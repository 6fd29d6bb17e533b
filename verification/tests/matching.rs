use lib::{matching_lines, matching_lines_ignoring_case};

#[test]
fn matching_lines_keeps_only_lines_with_the_pattern() {
    let text = "apple\nbanana\napplesauce\ncherry\n";
    assert_eq!(matching_lines("apple", text), vec!["apple", "applesauce"]);
}

#[test]
fn matching_lines_is_empty_when_nothing_matches() {
    let text = "one\ntwo\nthree\n";
    assert!(matching_lines("xyz", text).is_empty());
}

#[test]
fn matching_lines_is_case_sensitive() {
    let text = "Apple\napple\n";
    assert_eq!(matching_lines("apple", text), vec!["apple"]);
}

#[test]
fn matching_lines_ignoring_case_matches_regardless_of_ascii_case() {
    let text = "Apple\napple\nAPPLE\nbanana\n";
    assert_eq!(
        matching_lines_ignoring_case("apple", text),
        vec!["Apple", "apple", "APPLE"]
    );
}

#[test]
fn matching_lines_ignoring_case_is_still_empty_when_nothing_matches() {
    let text = "one\ntwo\nthree\n";
    assert!(matching_lines_ignoring_case("XYZ", text).is_empty());
}

#[test]
fn matching_lines_ignoring_case_does_not_fold_non_ascii_case() {
    // "café" and "CAFÉ" differ only in the accented letter's case:
    // ASCII-only folding leaves accented letters untouched, so they
    // must not match here even though the flag is set.
    let text = "CAFÉ\n";
    assert!(matching_lines_ignoring_case("café", text).is_empty());
}

#[test]
fn carriage_return_before_line_feed_is_not_part_of_the_line() {
    let text = "alpha\r\nbeta\r\nalphabet";
    assert_eq!(matching_lines("alpha", text), vec!["alpha", "alphabet"]);
}

#[test]
fn carriage_return_without_line_feed_stays_in_the_last_line() {
    assert_eq!(matching_lines("x", "ax\r"), vec!["ax\r"]);
    assert_eq!(matching_lines("\r", "a\r\nb\r"), vec!["b\r"]);
}

#[test]
fn final_line_feed_starts_no_empty_line() {
    assert_eq!(matching_lines("", "a\nb\n"), vec!["a", "b"]);
    assert_eq!(matching_lines("", "a\n\nb"), vec!["a", "", "b"]);
    assert_eq!(matching_lines("", "\n"), vec![""]);
    assert!(matching_lines("", "").is_empty());
}

#[test]
fn empty_pattern_selects_every_line() {
    assert_eq!(matching_lines("", "one\ntwo"), vec!["one", "two"]);
    assert_eq!(matching_lines_ignoring_case("", "One\nTWO\n"), vec!["One", "TWO"]);
}

#[test]
fn pattern_longer_than_every_line_matches_nothing() {
    assert!(matching_lines("abcdef", "abc\nabcde\n").is_empty());
}

#[test]
fn pattern_may_sit_anywhere_in_the_line() {
    assert_eq!(
        matching_lines("needle", "needle first\nlast needle\nin the needle middle\nneedl e"),
        vec!["needle first", "last needle", "in the needle middle"]
    );
}

#[test]
fn multi_byte_characters_are_matched_whole() {
    let text = "naïve\nnaive\nüber\n日本語のテキスト\n";
    assert_eq!(matching_lines("ï", text), vec!["naïve"]);
    assert_eq!(matching_lines("本語", text), vec!["日本語のテキスト"]);
    assert_eq!(matching_lines("ber", text), vec!["über"]);
    // A byte sequence inside one character is no match of another character.
    assert!(matching_lines("é", "ë\n").is_empty());
}

#[test]
fn ignoring_case_folds_only_ascii_letters() {
    let text = "HELLO World\nhello world\nÄpfel\näpfel\n";
    assert_eq!(
        matching_lines_ignoring_case("hElLo", text),
        vec!["HELLO World", "hello world"]
    );
    assert_eq!(matching_lines_ignoring_case("äPFEL", text), vec!["äpfel"]);
    assert_eq!(matching_lines_ignoring_case("[", "[x]\n{y}\n"), vec!["[x]"]);
}

#[test]
fn ignoring_case_keeps_the_lines_as_written() {
    let text = "MiXeD Case\n";
    assert_eq!(matching_lines_ignoring_case("mixed", text), vec!["MiXeD Case"]);
}

#[test]
fn lines_are_slices_of_the_contents() {
    let text = String::from("first match\nsecond\nthird match\n");
    let found = matching_lines("match", &text);
    assert_eq!(found.len(), 2);
    let start = text.as_ptr() as usize;
    assert_eq!(found[0].as_ptr() as usize - start, 0);
    assert_eq!(found[1].as_ptr() as usize - start, 19);
}

#[test]
fn ignoring_case_does_not_fold_sharp_s() {
    // Folding "ß" to "ss" takes full Unicode case folding, which is not done.
    assert!(matching_lines_ignoring_case("STRASSE", "Straße\n").is_empty());
    assert!(matching_lines_ignoring_case("straße", "STRASSE\n").is_empty());
    assert_eq!(matching_lines_ignoring_case("STRAßE", "straße\n"), vec!["straße"]);
}

#[test]
fn exact_matches_are_among_caseless_matches() {
    let text = "Needle\nneedle\nNEEDLE\nhay\nneedles\n";
    let exact = matching_lines("needle", text);
    let caseless = matching_lines_ignoring_case("needle", text);
    assert_eq!(exact, vec!["needle", "needles"]);
    assert_eq!(caseless, vec!["Needle", "needle", "NEEDLE", "needles"]);
    let kept: Vec<&str> = caseless.iter().copied().filter(|l| l.contains("needle")).collect();
    assert_eq!(kept, exact);
}

#[test]
fn found_lines_hold_no_line_feed() {
    for line in matching_lines("", "a\r\nb\n\nc\rd\n") {
        assert!(!line.contains('\n'));
    }
    assert_eq!(matching_lines("", "a\r\nb\n\nc\rd\n"), vec!["a", "b", "", "c\rd"]);
}

fn samples() -> Vec<String> {
    let pieces = ["", "a", "A", "ab", "\n", "\r", "\r\n", "é", "É", "ß", "x\r", "日本", "\n\n", "Ab\r\nc"];
    let mut texts = Vec::new();
    for p in pieces {
        for q in pieces {
            for r in pieces {
                texts.push(format!("{}{}{}", p, q, r));
            }
        }
    }
    texts
}

#[test]
fn lines_agree_with_str_lines() {
    for text in samples() {
        let expected: Vec<&str> = text.lines().collect();
        assert_eq!(matching_lines("", &text), expected, "text {:?}", text);
    }
}

#[test]
fn matches_agree_with_str_contains() {
    let patterns = ["", "a", "A", "b", "ab", "\r", "é", "É", "日", "本", "x\r", "c"];
    for text in samples() {
        for pattern in patterns {
            let expected: Vec<&str> = text.lines().filter(|l| l.contains(pattern)).collect();
            assert_eq!(matching_lines(pattern, &text), expected, "{:?} in {:?}", pattern, text);
            let lowered = pattern.to_ascii_lowercase();
            let expected: Vec<&str> = text
                .lines()
                .filter(|l| l.to_ascii_lowercase().contains(&lowered))
                .collect();
            assert_eq!(
                matching_lines_ignoring_case(pattern, &text),
                expected,
                "{:?} in {:?}, case ignored",
                pattern,
                text
            );
        }
    }
}

#[test]
fn matches_split_where_the_text_is_split_at_a_line_break() {
    let first = "apple\nbanana\n";
    let second = "applesauce\r\ncherry";
    let whole = format!("{first}{second}");
    let mut parts = matching_lines("apple", first);
    parts.extend(matching_lines("apple", second));
    assert_eq!(matching_lines("apple", &whole), parts);
    assert_eq!(parts, vec!["apple", "applesauce"]);
}

#[test]
fn searching_the_found_lines_again_finds_them_all() {
    let text = "apple\nbanana\napplesauce\ncherry\n";
    let found = matching_lines("apple", text);
    let output: String = found.iter().map(|l| format!("{l}\n")).collect();
    assert_eq!(matching_lines("apple", &output), found);
    let found = matching_lines_ignoring_case("APPLE", text);
    let output: String = found.iter().map(|l| format!("{l}\n")).collect();
    assert_eq!(matching_lines_ignoring_case("APPLE", &output), found);
}

#[test]
fn caseless_search_ignores_the_case_of_the_pattern() {
    let text = "Apple pie\nAPPLE\napple\nbanana\n";
    let lower = matching_lines_ignoring_case("apple", text);
    assert_eq!(matching_lines_ignoring_case("APPLE", text), lower);
    assert_eq!(matching_lines_ignoring_case("aPpLe", text), lower);
    assert_eq!(lower, vec!["Apple pie", "APPLE", "apple"]);
}

#[test]
fn case_is_moot_for_a_pattern_without_letters() {
    let text = "a-1\nB-2\nc_3\nÉ-4\n";
    assert_eq!(matching_lines_ignoring_case("-", text), matching_lines("-", text));
    assert_eq!(matching_lines_ignoring_case("-", text), vec!["a-1", "B-2", "É-4"]);
    assert_eq!(matching_lines_ignoring_case("_3", text), vec!["c_3"]);
}
