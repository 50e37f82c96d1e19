use macroquad_toolkit::ui::{letter_count, transform, PseudoMarks, PseudoSwitch};

/// The three knobs of pseudolocalisation, expansion included.
#[derive(Clone, Copy)]
struct Settings {
    expansion: f32,
    brackets: bool,
    accents: bool,
}

fn plain() -> Settings {
    Settings {
        expansion: 0.4,
        brackets: true,
        accents: true,
    }
}

/// Padding is the letter count times the expansion, rounded.
fn transform_with(text: &str, settings: Settings) -> String {
    let padding = (letter_count(text) as f32 * settings.expansion).round() as usize;
    transform(
        text,
        PseudoMarks {
            brackets: settings.brackets,
            accents: settings.accents,
        },
        padding,
    )
}

#[test]
fn pseudo_the_text_grows_by_about_the_expansion() {
    let out = transform_with("Session Limits", plain());
    let letters = |s: &str| s.chars().filter(|c| c.is_alphanumeric()).count();
    assert!(out.chars().count() > "Session Limits".chars().count());
    assert_eq!(letters(&out), letters("Session Limits"));
    assert_eq!(out.matches('\u{00B7}').count(), 5);
}

#[test]
fn pseudo_the_words_stay_readable() {
    let out = transform_with("Paytable", plain());
    assert!(out.contains("Páýtáblé"));
}

#[test]
fn pseudo_every_string_is_bracketed_so_a_glued_label_is_obvious() {
    let glued = format!(
        "{}{}",
        transform_with("Level ", plain()),
        transform_with("5", plain())
    );
    assert!(glued.contains("]["), "{}", glued);
}

#[test]
fn pseudo_placeholders_are_left_alone() {
    let out = transform_with("Balance {}", plain());
    assert!(out.contains("{}"), "{}", out);
    let inside: String = out
        .split('{')
        .skip(1)
        .filter_map(|part| part.split('}').next())
        .collect();
    assert!(inside.is_empty(), "placeholder contains {:?}", inside);
}

#[test]
fn pseudo_named_and_formatted_placeholders_survive() {
    for source in ["{:.1}% of play", "{name} won {:>4}", "{{literal}}"] {
        let out = transform_with(source, plain());
        let braces = |s: &str| s.matches(['{', '}']).count();
        assert_eq!(braces(&out), braces(source), "{} -> {}", source, out);
    }
}

#[test]
fn pseudo_digits_stay_digits() {
    let out = transform_with("1,009,419 credits", plain());
    assert!(out.contains("1,009,419"), "{}", out);
}

#[test]
fn pseudo_an_empty_string_still_gets_a_marker() {
    let out = transform_with("", plain());
    assert!(out.starts_with('['));
    assert!(out.ends_with(']'));
}

#[test]
fn pseudo_the_transform_can_be_turned_down() {
    let quiet = Settings {
        expansion: 0.4,
        brackets: false,
        accents: false,
    };
    let out = transform_with("Settings", quiet);
    assert!(out.starts_with("Settings"), "{}", out);
    assert!(!out.contains('['));
}

#[test]
fn pseudo_expansion_of_zero_still_marks_the_string() {
    let out = transform_with(
        "Ok",
        Settings {
            expansion: 0.0,
            ..plain()
        },
    );
    assert!(out.starts_with('[') && out.ends_with(']'));
}

#[test]
fn tests_the_text_grows_by_about_the_expansion() {
    let out = transform_with("Session Limits", plain());
    let letters = |s: &str| s.chars().filter(|c| c.is_alphanumeric()).count();
    assert!(out.chars().count() > "Session Limits".chars().count());
    assert_eq!(letters(&out), letters("Session Limits"));
    assert_eq!(out.matches('\u{00B7}').count(), 5);
}

#[test]
fn tests_the_words_stay_readable() {
    let out = transform_with("Paytable", plain());
    assert!(out.contains("Páýtáblé"));
}

#[test]
fn tests_every_string_is_bracketed_so_a_glued_label_is_obvious() {
    let glued = format!(
        "{}{}",
        transform_with("Level ", plain()),
        transform_with("5", plain())
    );
    assert!(glued.contains("]["), "{}", glued);
}

#[test]
fn tests_placeholders_are_left_alone() {
    let out = transform_with("Balance {}", plain());
    assert!(out.contains("{}"), "{}", out);
    let inside: String = out
        .split('{')
        .skip(1)
        .filter_map(|part| part.split('}').next())
        .collect();
    assert!(inside.is_empty(), "placeholder contains {:?}", inside);
}

#[test]
fn tests_named_and_formatted_placeholders_survive() {
    for source in ["{:.1}% of play", "{name} won {:>4}", "{{literal}}"] {
        let out = transform_with(source, plain());
        let braces = |s: &str| s.matches(['{', '}']).count();
        assert_eq!(braces(&out), braces(source), "{} -> {}", source, out);
    }
}

#[test]
fn tests_digits_stay_digits() {
    let out = transform_with("1,009,419 credits", plain());
    assert!(out.contains("1,009,419"), "{}", out);
}

#[test]
fn tests_an_empty_string_still_gets_a_marker() {
    let out = transform_with("", plain());
    assert!(out.starts_with('['));
    assert!(out.ends_with(']'));
}

#[test]
fn tests_the_transform_can_be_turned_down() {
    let quiet = Settings {
        expansion: 0.4,
        brackets: false,
        accents: false,
    };
    let out = transform_with("Settings", quiet);
    assert!(out.starts_with("Settings"), "{}", out);
    assert!(!out.contains('['));
}

#[test]
fn tests_expansion_of_zero_still_marks_the_string() {
    let out = transform_with(
        "Ok",
        Settings {
            expansion: 0.0,
            ..plain()
        },
    );
    assert!(out.starts_with('[') && out.ends_with(']'));
}

#[test]
fn accents_cover_the_latin_vowels_and_friends() {
    let out = transform("aeiouncsy AEIOUNCSY bdz", PseudoMarks { brackets: false, accents: true }, 1);
    assert_eq!(out, "áéíóúñçśý ÁÉÍÓÚÑÇŚÝ bdz\u{00B7}");
}

#[test]
fn padding_is_exact_and_never_below_one() {
    let marks = PseudoMarks { brackets: true, accents: false };
    assert_eq!(transform("ab", marks, 0), "[ab\u{00B7}]");
    assert_eq!(transform("ab", marks, 3), "[ab\u{00B7}\u{00B7}\u{00B7}]");
}

#[test]
fn text_inside_braces_is_never_accented() {
    let marks = PseudoMarks { brackets: false, accents: true };
    assert_eq!(transform("{name} sa", marks, 1), "{name} śá\u{00B7}");
    assert_eq!(transform("a}a{a", marks, 1), "á}á{a\u{00B7}");
}

#[test]
fn letters_are_counted_in_the_unicode_sense() {
    assert_eq!(letter_count("Session Limits"), 13);
    assert_eq!(letter_count("Páýtáblé 42!"), 10);
    assert_eq!(letter_count(""), 0);
}

#[test]
fn the_switch_is_off_until_a_style_is_enabled() {
    let mut switch: PseudoSwitch<u8> = PseudoSwitch::new();
    assert_eq!(switch.style_to_apply(), None);
    switch.enable(7);
    assert_eq!(switch.active(), Some(7));
    assert_eq!(switch.style_to_apply(), Some(7));
    switch.disable();
    assert_eq!(switch.active(), None);
    assert_eq!(switch.style_to_apply(), None);
}

#[test]
fn a_live_guard_suppresses_and_its_drop_restores() {
    let mut switch: PseudoSwitch<u8> = PseudoSwitch::new();
    switch.enable(3);
    switch.suppress();
    switch.suppress();
    assert_eq!(switch.depth(), 2);
    assert_eq!(switch.style_to_apply(), None);
    assert_eq!(switch.active(), Some(3));
    switch.release();
    assert_eq!(switch.style_to_apply(), None);
    switch.release();
    assert_eq!(switch.depth(), 0);
    assert_eq!(switch.style_to_apply(), Some(3));
}

#[test]
fn ascii_letters_and_digits_are_what_is_counted() {
    assert_eq!(letter_count("Session Limits"), 13);
    assert_eq!(letter_count("{} x 42!"), 3);
    assert_eq!(letter_count(""), 0);
    assert_eq!(letter_count("Śéttíñgś 3"), 9);
}
