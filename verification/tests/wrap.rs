use macroquad_toolkit::ui::wrap_words;

/// Five pixels per character.
fn within(chars: usize) -> impl Fn(&str) -> bool {
    move |line: &str| line.chars().count() * 5 <= chars * 5
}

#[test]
fn words_fill_a_line_and_then_start_the_next() {
    assert_eq!(wrap_words("the quick brown fox", within(10)), ["the quick", "brown fox"]);
    assert_eq!(wrap_words("one two", within(7)), ["one two"]);
    assert_eq!(wrap_words("ab cd ef", within(5)), ["ab cd", "ef"]);
}

#[test]
fn runs_of_whitespace_become_single_spaces() {
    assert_eq!(wrap_words("  a \t b   c  ", within(20)), ["a b c"]);
}

#[test]
fn line_feeds_start_paragraphs_and_blank_ones_stay() {
    assert_eq!(wrap_words("a\n\nb", within(10)), ["a", "", "b"]);
    assert_eq!(wrap_words("a\n   \nb\n", within(10)), ["a", "", "b", ""]);
}

#[test]
fn empty_text_is_one_empty_line() {
    assert_eq!(wrap_words("", within(10)), [""]);
    assert_eq!(wrap_words("   ", within(10)), [""]);
}

#[test]
fn an_over_long_word_is_cut_into_pieces_that_fit() {
    assert_eq!(wrap_words("ab abcdefgh c", within(3)), ["ab", "abc", "def", "gh", "c"]);
    assert_eq!(wrap_words("abcdef", within(0)), ["a", "b", "c", "d", "e", "f"]);
}

#[test]
fn nothing_but_whitespace_is_lost() {
    let text = "Balance {} is\tlow\n\nTop up soon, please";
    for width in 1..30 {
        let lines = wrap_words(text, within(width));
        assert!(!lines.is_empty());
        let kept: String = lines.concat().chars().filter(|c| !c.is_whitespace()).collect();
        let visible: String = text.chars().filter(|c| !c.is_whitespace()).collect();
        assert_eq!(kept, visible);
    }
}
