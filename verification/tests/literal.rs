use macroquad_toolkit::ui::wrap_literal;

fn width(text: &str) -> f32 {
    text.chars()
        .map(|ch| if ch.is_ascii() { 5.0 } else { 12.0 })
        .sum()
}

/// The fit test for a budget of `budget` pixels, as the drawing code builds
/// it: a line fits unless it measures wider than the budget.
fn within(budget: f32) -> impl Fn(&str) -> bool {
    move |line: &str| !(width(line) > budget.max(0.0))
}

#[test]
fn paths_keep_spaces_unicode_and_every_original_byte() {
    let path = "C:\\Users\\Tester  Name\\存档\\saved camp.json";
    let lines = wrap_literal(path, within(37.0));
    assert_eq!(lines.concat(), path);
    assert!(lines.iter().all(|line| width(line) <= 37.0));
}

#[test]
fn exact_fit_empty_and_narrow_widths_do_not_drop_text() {
    assert_eq!(wrap_literal("abc", within(15.0)), ["abc"]);
    assert_eq!(wrap_literal("", within(15.0)), [""]);
    assert_eq!(wrap_literal("存a", within(1.0)), ["存", "a"]);
}

#[test]
fn a_glyph_wider_than_the_budget_keeps_its_own_line() {
    assert_eq!(wrap_literal("a存b", within(6.0)), ["a", "存", "b"]);
    assert_eq!(wrap_literal("abcdef", within(10.0)), ["ab", "cd", "ef"]);
    assert_eq!(wrap_literal("abc", within(-3.0)), ["a", "b", "c"]);
}

#[test]
fn a_line_ends_where_the_fit_test_first_refuses() {
    // A fit test that refuses two-character lines but accepts longer ones:
    // a line grows one accepted character at a time, so it breaks at once.
    let lines = wrap_literal("abcd", |line: &str| line.chars().count() != 2);
    assert_eq!(lines, ["a", "b", "c", "d"]);
}
