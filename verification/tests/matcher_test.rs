use text_marker::matcher::{
    find_ranges, find_subslice, is_word_byte, offsets_to_positions, Position, Range,
};

fn r(sl: u32, sc: u32, el: u32, ec: u32) -> Range {
    Range { start: Position { line: sl, character: sc }, end: Position { line: el, character: ec } }
}

#[test]
fn matches_word_boundary_only() {
    let text = "foo foobar foo";
    let got = find_ranges(text, &["foo".to_string()]);
    assert_eq!(got, vec![r(0, 0, 0, 3), r(0, 11, 0, 14)]);
}

#[test]
fn matches_japanese_substring() {
    let text = "対話の対話";
    let got = find_ranges(text, &["対話".to_string()]);
    assert_eq!(got, vec![r(0, 0, 0, 2), r(0, 3, 0, 5)]);
}

#[test]
fn matches_across_lines() {
    let text = "alpha\nbeta foo\ngamma";
    let got = find_ranges(text, &["foo".to_string()]);
    assert_eq!(got, vec![r(1, 5, 1, 8)]);
}

#[test]
fn surrogate_pair_counts_as_two_utf16() {
    let text = "😀 foo";
    let got = find_ranges(text, &["foo".to_string()]);
    assert_eq!(got, vec![r(0, 3, 0, 6)]);
}

#[test]
fn empty_word_is_ignored() {
    let got = find_ranges("foo", &["".to_string()]);
    assert_eq!(got, Vec::<Range>::new());
}

#[test]
fn multiple_words() {
    let text = "foo bar";
    let mut got = find_ranges(text, &["foo".to_string(), "bar".to_string()]);
    got.sort_by_key(|r| r.start.character);
    assert_eq!(got, vec![r(0, 0, 0, 3), r(0, 4, 0, 7)]);
}

#[test]
fn results_come_in_order_of_occurrence() {
    let got = find_ranges("bar foo bar", &["foo".to_string(), "bar".to_string()]);
    assert_eq!(got, vec![r(0, 0, 0, 3), r(0, 4, 0, 7), r(0, 8, 0, 11)]);
}

#[test]
fn same_start_follows_word_order() {
    let got = find_ranges("foo bar", &["foo bar".to_string(), "foo".to_string()]);
    assert_eq!(got, vec![r(0, 0, 0, 7), r(0, 0, 0, 3)]);
}

#[test]
fn duplicate_words_match_twice() {
    let got = find_ranges("x foo", &["foo".to_string(), "foo".to_string()]);
    assert_eq!(got, vec![r(0, 2, 0, 5), r(0, 2, 0, 5)]);
}

#[test]
fn overlapping_occurrences_are_all_found() {
    let got = find_ranges("aa-aa", &["aa".to_string()]);
    assert_eq!(got, vec![r(0, 0, 0, 2), r(0, 3, 0, 5)]);
    let got = find_ranges(".a.a.", &["a.a".to_string()]);
    assert_eq!(got, vec![r(0, 1, 0, 4)]);
}

#[test]
fn underscore_and_digits_are_word_bytes() {
    assert!(find_ranges("foo_ foo1 _foo", &["foo".to_string()]).is_empty());
    assert!(is_word_byte(b'_'));
    assert!(is_word_byte(b'7'));
    assert!(is_word_byte(b'Z'));
    assert!(!is_word_byte(b'-'));
    assert!(!is_word_byte(0xe3));
}

#[test]
fn column_after_multibyte_prefix() {
    // "é" is two bytes in UTF-8 and one UTF-16 unit; "𝄞" is four bytes and two units.
    let got = find_ranges("é𝄞 x\r\nx", &["x".to_string()]);
    assert_eq!(got, vec![r(0, 4, 0, 5), r(1, 0, 1, 1)]);
}

#[test]
fn word_at_end_of_text() {
    let got = find_ranges("a foo", &["foo".to_string()]);
    assert_eq!(got, vec![r(0, 2, 0, 5)]);
    let got = find_ranges("foo\n", &["foo".to_string()]);
    assert_eq!(got, vec![r(0, 0, 0, 3)]);
}

#[test]
fn find_subslice_first_occurrence() {
    assert_eq!(find_subslice(b"abcabc", b"ca"), Some(2));
    assert_eq!(find_subslice(b"abcabc", b"abc"), Some(0));
    assert_eq!(find_subslice(b"abc", b"abcd"), None);
    assert_eq!(find_subslice(b"abc", b""), None);
    assert_eq!(find_subslice(b"abc", b"x"), None);
}

fn p(line: u32, character: u32) -> Position {
    Position { line, character }
}

#[test]
fn offsets_map_to_lines_and_utf16_columns() {
    let text = "a😀b\ncd";
    // bytes: a(0) 😀(1..5) b(5) \n(6) c(7) d(8), end 9
    let got = offsets_to_positions(text, vec![9, 0, 5, 7, 1, 6, 5]);
    assert_eq!(got, vec![p(1, 2), p(0, 0), p(0, 3), p(1, 0), p(0, 1), p(0, 4), p(0, 3)]);
}

#[test]
fn positions_grow_with_the_offset() {
    let text = "é x\n\ny";
    let offsets: Vec<usize> = (0..=text.len()).filter(|&b| text.is_char_boundary(b)).collect();
    let got = offsets_to_positions(text, offsets);
    for w in got.windows(2) {
        assert!((w[0].line, w[0].character) < (w[1].line, w[1].character));
    }
}

#[test]
fn word_lists_combine() {
    let text = "foo bar foo baz bar";
    let w1 = vec!["foo".to_string(), "baz".to_string()];
    let w2 = vec!["bar".to_string()];
    let mut both = find_ranges(text, &[w1.clone(), w2.clone()].concat());
    let mut separate = find_ranges(text, &w1);
    separate.extend(find_ranges(text, &w2));
    both.sort_by_key(|r| (r.start.line, r.start.character, r.end.character));
    separate.sort_by_key(|r| (r.start.line, r.start.character, r.end.character));
    assert_eq!(both, separate);
}

#[test]
fn offsets_inside_a_character_stop_the_later_ones() {
    // "é" is bytes 1..3; offset 2 falls inside it.
    let got = offsets_to_positions("aéb", vec![4, 2, 0, 1, 3, 9]);
    assert_eq!(got, vec![p(0, 0), p(0, 0), p(0, 0), p(0, 1), p(0, 0), p(0, 0)]);
    let got = offsets_to_positions("aé", vec![2]);
    assert_eq!(got, vec![p(0, 0)]);
    let got = offsets_to_positions("ab", vec![1, 7, 2]);
    assert_eq!(got, vec![p(0, 1), p(0, 0), p(0, 2)]);
}
