use justify_text::justify::split_words;
use justify_text::JustifyTextExtension;

#[test]
fn scenario_quick_brown_fox() {
    let j = JustifyTextExtension::new();
    let out = j.justify_text("The quick brown fox jumps over", 10);
    assert_eq!(out, "The  quick\nbrown  fox\njumps over");
}

#[test]
fn empty_input_gives_empty_output() {
    let j = JustifyTextExtension::new();
    assert_eq!(j.justify_text("", 10), "");
}

#[test]
fn whitespace_only_gives_empty_output() {
    let j = JustifyTextExtension::new();
    assert_eq!(j.justify_text(" \t\n  \r ", 10), "");
}

#[test]
fn single_word_final_line_is_padded() {
    let j = JustifyTextExtension::new();
    assert_eq!(j.justify_text("hi", 5), "hi   ");
}

#[test]
fn overlong_word_stands_alone_unpadded() {
    let j = JustifyTextExtension::new();
    assert_eq!(j.justify_text("abcdefghij", 5), "abcdefghij");
    assert_eq!(j.justify_text("abcdef ghijkl", 3), "abcdef\nghijkl");
}

#[test]
fn remainder_goes_to_leftmost_gaps() {
    let j = JustifyTextExtension::new();
    let out = j.justify_text("aaa bbb ccc x", 12);
    assert_eq!(out, "aaa  bbb ccc\nx           ");
}

#[test]
fn full_lines_are_exactly_the_width() {
    let j = JustifyTextExtension::new();
    let out = j.justify_text("ab cd ef", 5);
    assert_eq!(out, "ab cd\nef   ");
    for line in out.split('\n') {
        assert_eq!(line.chars().count(), 5);
    }
}

#[test]
fn single_word_non_final_line_is_padded() {
    let j = JustifyTextExtension::new();
    assert_eq!(j.justify_text("ab cdefgh", 4), "ab  \ncdefgh");
}

#[test]
fn unicode_whitespace_separates_words() {
    let j = JustifyTextExtension::new();
    assert_eq!(j.justify_text("a\u{3000}b\u{00A0}c", 5), "a b c");
}

#[test]
fn widths_count_characters_not_bytes() {
    let j = JustifyTextExtension::new();
    assert_eq!(j.justify_text("h\u{e9}llo w\u{f6}rld", 11), "h\u{e9}llo w\u{f6}rld");
}

#[test]
fn width_zero_puts_each_word_on_its_own_line() {
    let j = JustifyTextExtension::new();
    assert_eq!(j.justify_text("a b", 0), "a\nb");
}

#[test]
fn rejustifying_at_the_same_width_reproduces_the_block() {
    let j = JustifyTextExtension::new();
    let once = j.justify_text("The quick brown fox jumps over", 10);
    let twice = j.justify_text(&once, 10);
    assert_eq!(twice, once);
}

#[test]
fn output_keeps_the_words_in_order() {
    let j = JustifyTextExtension::new();
    let text = "one two three four five six seven";
    let out = j.justify_text(text, 9);
    assert_eq!(split_words(&out), split_words(text));
}

#[test]
fn splitting_discards_empty_tokens() {
    let words = split_words("  alpha\t\tbeta \n gamma  ");
    assert_eq!(words, vec!["alpha".to_string(), "beta".to_string(), "gamma".to_string()]);
}
