//! Turning numbers and names into the strings a player reads.

use vstd::prelude::*;
use crate::text::{decimal, decimal_chars, digit, digit_char, push_char, push_decimal};
use crate::ui::binary32::{binary32_millions_tenths, millions_tenths};
use crate::ui::number::{grouped_digits, magnitude, push_grouped, sign_prefix, unsigned_magnitude};

verus! {

broadcast use vstd::string::group_string_axioms;

/// What [`format_money`] writes: sign, dollar sign, comma-grouped digits.
pub open spec fn money_text(value: i64) -> Seq<char> {
    sign_prefix(value) + seq!['$'] + grouped_digits(decimal(magnitude(value)), ',')
}

/// Format an integer currency value with comma separators: `-$1,234,567`.
pub fn format_money(value: i64) -> (text: String)
    requires
        value != i64::MIN,
    ensures
        text@ == money_text(value),
{
    let digits = decimal_chars(unsigned_magnitude(value));
    let mut out = String::new();
    if value < 0 {
        push_char(&mut out, '-');
    }
    push_char(&mut out, '$');
    assert(out@ == sign_prefix(value) + seq!['$']);
    push_grouped(&mut out, &digits, digits.len(), ',');
    assert(digits@.take(digits@.len() as int) =~= digits@);
    out
}

/// Law: money is the grouped figure behind a dollar sign. A positive or zero
/// amount is `$` followed by exactly what [`grouped`](crate::ui::grouped)
/// writes; a negative one puts the minus sign before the dollar sign.
pub proof fn lemma_money_is_grouped_with_a_dollar_sign(value: i64)
    ensures
        value >= 0 ==> money_text(value) == seq!['$'] + crate::ui::number::grouped_text(value, ','),
        value < 0 ==> money_text(value) == seq!['-', '$'] + grouped_digits(decimal(magnitude(value)), ','),
{
    assert(sign_prefix(value) + seq!['$'] + grouped_digits(decimal(magnitude(value)), ',') =~= if value >= 0 {
        seq!['$'] + crate::ui::number::grouped_text(value, ',')
    } else {
        seq!['-', '$'] + grouped_digits(decimal(magnitude(value)), ',')
    });
}

/// What [`format_compact_money`] writes. Millions go through binary32
/// arithmetic (see [`binary32_millions_tenths`]) and keep one decimal;
/// thousands are truncated to whole `k`.
pub open spec fn compact_money_text(value: i64) -> Seq<char> {
    let a = magnitude(value);
    let head = sign_prefix(value) + seq!['$'];
    if a >= 1_000_000 {
        let t = binary32_millions_tenths(a);
        head + decimal(t / 10) + seq!['.', digit_char(t % 10), 'm']
    } else if a >= 1_000 {
        head + decimal(a / 1_000) + seq!['k']
    } else {
        head + decimal(a)
    }
}

/// Format an integer currency value compactly for dense UI: `$999`,
/// `$12k`, `$1.2m`.
pub fn format_compact_money(value: i64) -> (text: String)
    requires
        value != i64::MIN,
    ensures
        text@ == compact_money_text(value),
{
    let a = unsigned_magnitude(value);
    let mut out = String::new();
    if value < 0 {
        push_char(&mut out, '-');
    }
    push_char(&mut out, '$');
    assert(out@ == sign_prefix(value) + seq!['$']);
    if a >= 1_000_000 {
        let t = millions_tenths(a);
        push_decimal(&mut out, t / 10);
        push_char(&mut out, '.');
        push_char(&mut out, digit(t % 10));
        push_char(&mut out, 'm');
    } else if a >= 1_000 {
        push_decimal(&mut out, a / 1_000);
        push_char(&mut out, 'k');
    } else {
        push_decimal(&mut out, a);
    }
    assert(out@ =~= compact_money_text(value));
    out
}

/// `n` written with at least two digits, as `{:02}` writes it.
pub open spec fn two_digits(n: nat) -> Seq<char> {
    if n < 10 { seq!['0', digit_char(n)] } else { decimal(n) }
}

/// What [`format_clock`] writes.
pub open spec fn clock_text(hour: u32, minute: u32) -> Seq<char> {
    two_digits((hour % 24) as nat) + seq![':'] + two_digits((minute % 60) as nat)
}

fn push_two_digits(out: &mut String, n: u64)
    ensures
        final(out)@ == old(out)@ + two_digits(n as nat),
{
    if n < 10 {
        push_char(out, '0');
        push_char(out, digit(n));
        assert(final(out)@ =~= old(out)@ + two_digits(n as nat));
    } else {
        push_decimal(out, n);
    }
}

/// Format an in-game clock as `HH:MM` (e.g. `08:30`). Hours wrap at 24,
/// minutes at 60.
pub fn format_clock(hour: u32, minute: u32) -> (text: String)
    ensures
        text@ == clock_text(hour, minute),
{
    let mut out = String::new();
    push_two_digits(&mut out, (hour % 24) as u64);
    push_char(&mut out, ':');
    push_two_digits(&mut out, (minute % 60) as u64);
    assert(out@ =~= clock_text(hour, minute));
    out
}

/// What [`format_mmss`] writes: whole minutes (at least two digits, never
/// wrapped) and the seconds left over.
pub open spec fn mmss_text(total: nat) -> Seq<char> {
    two_digits(total / 60) + seq![':'] + two_digits(total % 60)
}

/// What [`format_hmmss`] writes: `H:MM:SS` from an hour on, `MM:SS` below.
pub open spec fn hmmss_text(total: nat) -> Seq<char> {
    if total / 3600 > 0 {
        decimal(total / 3600) + seq![':'] + two_digits((total % 3600) / 60) + seq![':'] + two_digits(total % 60)
    } else {
        mmss_text(total)
    }
}

/// Format elapsed whole seconds as `MM:SS` (e.g. `07:42`). Minutes keep
/// growing past an hour (`75:03`).
pub fn format_mmss(total: u64) -> (text: String)
    ensures
        text@ == mmss_text(total as nat),
{
    let mut out = String::new();
    push_two_digits(&mut out, total / 60);
    push_char(&mut out, ':');
    push_two_digits(&mut out, total % 60);
    assert(out@ =~= mmss_text(total as nat));
    out
}

/// Format elapsed whole seconds as `H:MM:SS` once an hour is reached,
/// otherwise as `MM:SS`.
pub fn format_hmmss(total: u64) -> (text: String)
    ensures
        text@ == hmmss_text(total as nat),
{
    let hours = total / 3600;
    if hours > 0 {
        let mut out = String::new();
        push_decimal(&mut out, hours);
        push_char(&mut out, ':');
        push_two_digits(&mut out, (total % 3600) / 60);
        push_char(&mut out, ':');
        push_two_digits(&mut out, total % 60);
        assert(out@ =~= hmmss_text(total as nat));
        out
    } else {
        format_mmss(total)
    }
}

/// Law: below an hour the two duration formats agree, and from an hour on
/// the long form's minutes and seconds are the short form's seconds part
/// with the hours split off.
pub proof fn lemma_durations_agree_below_an_hour(total: nat)
    ensures
        total < 3600 ==> hmmss_text(total) == mmss_text(total),
        total >= 3600 ==> hmmss_text(total) == decimal(total / 3600) + seq![':'] + mmss_text(total % 3600),
{
    if total >= 3600 {
        assert(total / 3600 > 0);
        assert((total % 3600) % 60 == total % 60) by {
            vstd::arithmetic::div_mod::lemma_mod_mod(total as int, 60, 60);
        }
        assert(hmmss_text(total) =~= decimal(total / 3600) + seq![':'] + mmss_text(total % 3600));
    }
}

/// The ASCII upper-case form of `c`; anything but `a`..`z` is unchanged.
pub open spec fn ascii_upper(c: char) -> char {
    if 'a' <= c && c <= 'z' { ((c as int) - 32) as char } else { c }
}

fn to_ascii_upper(c: char) -> (u: char)
    ensures
        u == ascii_upper(c),
{
    if 'a' <= c && c <= 'z' {
        ((c as u8) - 32u8) as char
    } else {
        c
    }
}

/// `s` with its first character upper-cased (ASCII only).
pub open spec fn capitalized(s: Seq<char>) -> Seq<char> {
    if s.len() == 0 { s } else { s.update(0, ascii_upper(s[0])) }
}

/// Capitalize the first character of a string.
pub fn capitalize(s: &str) -> (text: String)
    ensures
        text@ == capitalized(s@),
{
    let mut out = String::new();
    let mut first = true;
    for ch in it: s.chars()
        invariant
            it.seq() == s@,
            first == (it.index() == 0),
            out@ == capitalized(s@.take(it.index())),
    {
        let ghost i = it.index();
        if first {
            push_char(&mut out, to_ascii_upper(ch));
            first = false;
        } else {
            push_char(&mut out, ch);
        }
        assert(out@ =~= capitalized(s@.take(i + 1)));
    }
    assert(s@.take(s@.len() as int) =~= s@);
    out
}

/// The display form of a snake_case key: each `_` becomes a space and the
/// first character of every underscore-separated word is upper-cased.
pub open spec fn display_text(key: Seq<char>) -> Seq<char> {
    Seq::new(
        key.len(),
        |i: int|
            if key[i] == '_' {
                ' '
            } else if i == 0 || key[i - 1] == '_' {
                ascii_upper(key[i])
            } else {
                key[i]
            },
    )
}

/// The underscore-separated words of `key`, as `str::split('_')` yields
/// them (empty words included).
pub open spec fn split_words(key: Seq<char>) -> Seq<Seq<char>>
    decreases key.len(),
{
    if key.len() == 0 {
        seq![Seq::empty()]
    } else {
        let words = split_words(key.drop_last());
        if key.last() == '_' {
            words.push(Seq::empty())
        } else {
            words.update(words.len() - 1, words.last().push(key.last()))
        }
    }
}

/// Words joined with single spaces.
pub open spec fn join_words(words: Seq<Seq<char>>) -> Seq<char>
    decreases words.len(),
{
    if words.len() == 0 {
        Seq::empty()
    } else if words.len() == 1 {
        words[0]
    } else {
        join_words(words.drop_last()) + seq![' '] + words.last()
    }
}

proof fn lemma_split_words_shape(key: Seq<char>)
    ensures
        split_words(key).len() >= 1,
        split_words(key).last().len() == 0 <==> (key.len() == 0 || key.last() == '_'),
    decreases key.len(),
{
    if key.len() > 0 {
        lemma_split_words_shape(key.drop_last());
    }
}

/// Law: a display name is the key split at underscores, each word
/// capitalized, joined with spaces.
pub proof fn lemma_display_name_is_capitalized_words(key: Seq<char>)
    ensures
        display_text(key) == join_words(split_words(key).map_values(|w: Seq<char>| capitalized(w))),
    decreases key.len(),
{
    if key.len() == 0 {
        assert(display_text(key) =~= Seq::<char>::empty());
        assert(split_words(key).map_values(|w: Seq<char>| capitalized(w)) =~= seq![Seq::<char>::empty()]);
    } else {
        let prev = key.drop_last();
        let c = key.last();
        lemma_display_name_is_capitalized_words(prev);
        lemma_split_words_shape(prev);
        let words = split_words(prev);
        let n = words.len() as int;
        let caps = words.map_values(|w: Seq<char>| capitalized(w));
        let x = if c == '_' {
            ' '
        } else if prev.len() == 0 || prev.last() == '_' {
            ascii_upper(c)
        } else {
            c
        };
        assert(display_text(key) =~= display_text(prev).push(x));
        if c == '_' {
            let caps1 = split_words(key).map_values(|w: Seq<char>| capitalized(w));
            assert(caps1 =~= caps.push(Seq::empty()));
            assert(caps1.drop_last() =~= caps);
            assert(join_words(caps1) =~= join_words(caps).push(' '));
        } else {
            let last = words.last();
            let caps1 = split_words(key).map_values(|w: Seq<char>| capitalized(w));
            let new_last = capitalized(last.push(c));
            assert(caps1 =~= caps.update(n - 1, new_last));
            if last.len() == 0 {
                assert(new_last =~= seq![ascii_upper(c)]);
            } else {
                assert(new_last =~= capitalized(last).push(c));
            }
            if n == 1 {
                assert(join_words(caps1) == new_last);
                assert(join_words(caps) == capitalized(last));
            } else {
                assert(caps1.drop_last() =~= caps.drop_last());
                assert(join_words(caps1) == join_words(caps.drop_last()) + seq![' '] + new_last);
                assert(join_words(caps) == join_words(caps.drop_last()) + seq![' '] + capitalized(last));
            }
            assert(join_words(caps1) =~= join_words(caps).push(x));
        }
    }
}

/// Format a type key (snake_case) into a display name (Title Case):
/// `health_potion` becomes `Health Potion`.
pub fn display_name(type_key: &str) -> (text: String)
    ensures
        text@ == display_text(type_key@),
{
    let mut out = String::new();
    let mut word_start = true;
    for ch in it: type_key.chars()
        invariant
            it.seq() == type_key@,
            word_start == (it.index() == 0 || type_key@[it.index() - 1] == '_'),
            out@ == display_text(type_key@.take(it.index())),
    {
        let ghost i = it.index();
        if ch == '_' {
            push_char(&mut out, ' ');
            word_start = true;
        } else {
            if word_start {
                push_char(&mut out, to_ascii_upper(ch));
            } else {
                push_char(&mut out, ch);
            }
            word_start = false;
        }
        assert(out@ =~= display_text(type_key@.take(i + 1)));
    }
    assert(type_key@.take(type_key@.len() as int) =~= type_key@);
    out
}

/// Law: capitalising upper-cases a first letter `a`..`z` to the letter 32
/// code points below it (`A`..`Z`) and changes nothing else; a first
/// character that is not a lower-case ASCII letter is left as it is.
pub proof fn lemma_capitalize_upper_cases_a_first_letter(s: Seq<char>)
    ensures
        capitalized(s).len() == s.len(),
        forall|i: int| 1 <= i < s.len() ==> #[trigger] capitalized(s)[i] == s[i],
        s.len() > 0 && 'a' <= s[0] && s[0] <= 'z' ==> capitalized(s)[0] as int == s[0] as int - 32,
        s.len() > 0 && !('a' <= s[0] && s[0] <= 'z') ==> capitalized(s)[0] == s[0],
{
}

/// Law: in a display name every word that starts with a lower-case ASCII
/// letter starts with the letter 32 code points below it, every underscore
/// is a space, and every other character is kept.
pub proof fn lemma_display_name_upper_cases_word_starts(key: Seq<char>)
    ensures
        display_text(key).len() == key.len(),
        forall|i: int| 0 <= i < key.len() && key[i] == '_' ==> #[trigger] display_text(key)[i] == ' ',
        forall|i: int| 0 <= i < key.len() && (i == 0 || key[i - 1] == '_') && 'a' <= key[i] && key[i] <= 'z'
            ==> #[trigger] display_text(key)[i] as int == key[i] as int - 32,
        forall|i: int| 0 <= i < key.len() && key[i] != '_' && !((i == 0 || key[i - 1] == '_') && 'a' <= key[i] && key[i] <= 'z')
            ==> #[trigger] display_text(key)[i] == key[i],
{
}

} // verus!
