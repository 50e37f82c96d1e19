//! Writing numbers the way people read them.
//!
//! [`grouped`] keeps every digit and inserts separators; [`compact`] trades
//! the low digits for width (`1.2M`) and never rounds up.

use vstd::prelude::*;
use crate::text::{decimal, decimal_chars, digit, digit_char, is_digit, lemma_decimal_digits, push_char, push_decimal};

verus! {

/// The magnitude of a signed value, as a mathematical integer.
pub open spec fn magnitude(value: i64) -> nat {
    if value < 0 { (-value) as nat } else { value as nat }
}

/// `"-"` for a negative value, nothing otherwise.
pub open spec fn sign_prefix(value: i64) -> Seq<char> {
    if value < 0 { seq!['-'] } else { Seq::empty() }
}

/// Digits split into groups of three from the right, joined by `sep`.
pub open spec fn grouped_digits(digits: Seq<char>, sep: char) -> Seq<char>
    decreases digits.len(),
{
    if digits.len() <= 3 {
        digits
    } else {
        grouped_digits(digits.subrange(0, digits.len() - 3), sep).push(sep)
            + digits.subrange(digits.len() - 3, digits.len() as int)
    }
}

/// What [`grouped_with`] writes for `value`.
pub open spec fn grouped_text(value: i64, sep: char) -> Seq<char> {
    sign_prefix(value) + grouped_digits(decimal(magnitude(value)), sep)
}

/// `s` with every `c` taken out.
pub open spec fn without(s: Seq<char>, c: char) -> Seq<char>
    decreases s.len(),
{
    if s.len() == 0 {
        s
    } else if s.last() == c {
        without(s.drop_last(), c)
    } else {
        without(s.drop_last(), c).push(s.last())
    }
}

/// The unsigned magnitude of a value, including `i64::MIN`.
pub fn unsigned_magnitude(value: i64) -> (m: u64)
    ensures
        m == magnitude(value),
{
    if value < 0 {
        ((-(value + 1)) as u64) + 1
    } else {
        value as u64
    }
}

/// Append `digits[0..end]` grouped in threes.
pub(crate) fn push_grouped(out: &mut String, digits: &Vec<char>, end: usize, sep: char)
    requires
        end <= digits@.len(),
    ensures
        final(out)@ == old(out)@ + grouped_digits(digits@.take(end as int), sep),
    decreases end,
{
    let ghost d = digits@.take(end as int);
    if end <= 3 {
        let mut i: usize = 0;
        while i < end
            invariant
                i <= end <= digits@.len(),
                d == digits@.take(end as int),
                out@ == old(out)@ + d.take(i as int),
            decreases end - i,
        {
            push_char(out, digits[i]);
            i = i + 1;
            assert(d.take(i as int) =~= d.take(i - 1).push(d[i - 1]));
        }
        assert(d.take(end as int) =~= d);
    } else {
        push_grouped(out, digits, end - 3, sep);
        push_char(out, sep);
        push_char(out, digits[end - 3]);
        push_char(out, digits[end - 2]);
        push_char(out, digits[end - 1]);
        assert(d.subrange(0, d.len() - 3) =~= digits@.take(end - 3));
        assert(d.subrange(d.len() - 3, d.len() as int) =~= seq![
            digits@[end - 3],
            digits@[end - 2],
            digits@[end - 1],
        ]);
        assert(final(out)@ =~= old(out)@ + grouped_digits(d, sep));
    }
}

/// `1009419` becomes `1,009,419`, with the sign preserved.
pub fn grouped(value: i64) -> (text: String)
    ensures
        text@ == grouped_text(value, ','),
{
    grouped_with(value, ',')
}

/// [`grouped`], with the separator chosen by the caller.
pub fn grouped_with(value: i64, separator: char) -> (text: String)
    ensures
        text@ == grouped_text(value, separator),
{
    let digits = decimal_chars(unsigned_magnitude(value));
    let mut out = String::new();
    if value < 0 {
        push_char(&mut out, '-');
    }
    assert(out@ == sign_prefix(value));
    push_grouped(&mut out, &digits, digits.len(), separator);
    assert(digits@.take(digits@.len() as int) =~= digits@);
    out
}

/// The unit [`compact`] shortens a magnitude to, if any.
pub open spec fn compact_unit(m: nat) -> Option<(nat, char)> {
    if m >= 1_000_000_000 {
        Some((1_000_000_000nat, 'B'))
    } else if m >= 1_000_000 {
        Some((1_000_000nat, 'M'))
    } else if m >= 1_000 {
        Some((1_000nat, 'K'))
    } else {
        None
    }
}

/// Whole units shown for a magnitude at a scale.
pub open spec fn compact_whole(m: nat, scale: nat) -> nat {
    m / scale
}

/// The tenths digit, rounded toward zero.
pub open spec fn compact_tenths(m: nat, scale: nat) -> nat {
    (m % scale) * 10 / scale
}

/// Whether the tenths digit is written: only below three whole digits and
/// only when it is not zero.
pub open spec fn compact_shows_tenths(m: nat, scale: nat) -> bool {
    compact_whole(m, scale) < 100 && compact_tenths(m, scale) != 0
}

/// What [`compact`] writes for a magnitude.
pub open spec fn compact_digits(m: nat) -> Seq<char> {
    match compact_unit(m) {
        None => decimal(m),
        Some((scale, suffix)) => if compact_shows_tenths(m, scale) {
            decimal(compact_whole(m, scale)).push('.').push(
                digit_char(compact_tenths(m, scale)),
            ).push(suffix)
        } else {
            decimal(compact_whole(m, scale)).push(suffix)
        },
    }
}

/// What [`compact`] writes for `value`.
pub open spec fn compact_text(value: i64) -> Seq<char> {
    sign_prefix(value) + compact_digits(magnitude(value))
}

/// The quantity a compact label stands for, read back as a number.
pub open spec fn compact_shown(m: nat) -> nat {
    match compact_unit(m) {
        None => m,
        Some((scale, _)) => compact_whole(m, scale) * scale + if compact_shows_tenths(m, scale) {
            compact_tenths(m, scale) * (scale / 10)
        } else {
            0
        },
    }
}

/// `1_240_000` becomes `1.2M`. Rounds toward zero, so a compact figure is
/// never larger than the number it stands for.
pub fn compact(value: i64) -> (text: String)
    ensures
        text@ == compact_text(value),
{
    let magnitude = unsigned_magnitude(value);
    let mut out = String::new();
    if value < 0 {
        push_char(&mut out, '-');
    }
    assert(out@ == sign_prefix(value));
    let (scale, suffix): (u64, char) = if magnitude >= 1_000_000_000 {
        (1_000_000_000, 'B')
    } else if magnitude >= 1_000_000 {
        (1_000_000, 'M')
    } else if magnitude >= 1_000 {
        (1_000, 'K')
    } else {
        push_decimal(&mut out, magnitude);
        return out;
    };
    let whole = magnitude / scale;
    let rest = magnitude % scale;
    assert(rest * 10 <= 10_000_000_000) by (nonlinear_arith)
        requires rest < scale, scale <= 1_000_000_000;
    let tenths = rest * 10 / scale;
    assert(tenths < 10) by (nonlinear_arith)
        requires tenths as int == (rest as int * 10) / scale as int, rest < scale, scale > 0;
    push_decimal(&mut out, whole);
    if whole < 100 && tenths != 0 {
        push_char(&mut out, '.');
        push_char(&mut out, digit(tenths));
    }
    push_char(&mut out, suffix);
    assert(out@ =~= compact_text(value));
    out
}

/// A figure that always shows its sign: `+400`, `-400`, `0`.
pub fn signed(value: i64) -> (text: String)
    ensures
        text@ == if value > 0 { seq!['+'] + grouped_text(value, ',') } else { grouped_text(value, ',') },
{
    if value > 0 {
        let mut out = String::new();
        push_char(&mut out, '+');
        let rest = grouped(value);
        out.append(rest.as_str());
        out
    } else {
        grouped(value)
    }
}

/// Taking a character out of a concatenation takes it out of each part.
pub proof fn lemma_without_concat(a: Seq<char>, b: Seq<char>, c: char)
    ensures
        without(a + b, c) == without(a, c) + without(b, c),
    decreases b.len(),
{
    if b.len() == 0 {
        assert(a + b =~= a);
        assert(without(a, c) + without(b, c) =~= without(a, c));
    } else {
        assert((a + b).drop_last() =~= a + b.drop_last());
        assert((a + b).last() == b.last());
        lemma_without_concat(a, b.drop_last(), c);
        if b.last() != c {
            assert(without(a, c) + without(b, c) =~= (without(a, c) + without(b.drop_last(), c)).push(b.last()));
        }
    }
}

/// A sequence that does not contain `c` is unchanged by taking `c` out.
pub proof fn lemma_without_absent(s: Seq<char>, c: char)
    requires
        forall|i: int| 0 <= i < s.len() ==> s[i] != c,
    ensures
        without(s, c) == s,
    decreases s.len(),
{
    if s.len() > 0 {
        lemma_without_absent(s.drop_last(), c);
        assert(s.drop_last().push(s.last()) =~= s);
    }
}

/// Law: grouping never loses or invents a digit. Taking the separators back
/// out of the grouped digits gives the digits, whenever the separator is not
/// itself one of them.
pub proof fn lemma_grouping_keeps_every_digit(digits: Seq<char>, sep: char)
    requires
        forall|i: int| 0 <= i < digits.len() ==> digits[i] != sep,
    ensures
        without(grouped_digits(digits, sep), sep) == digits,
    decreases digits.len(),
{
    if digits.len() <= 3 {
        lemma_without_absent(digits, sep);
    } else {
        let head = digits.subrange(0, digits.len() - 3);
        let tail = digits.subrange(digits.len() - 3, digits.len() as int);
        lemma_grouping_keeps_every_digit(head, sep);
        lemma_without_concat(grouped_digits(head, sep).push(sep), tail, sep);
        assert(grouped_digits(head, sep).push(sep).drop_last() =~= grouped_digits(head, sep));
        lemma_without_absent(tail, sep);
        assert(head + tail =~= digits);
    }
}

/// Law: [`grouped_with`] keeps exactly the digits of the magnitude. With the
/// separators taken out, the text is the sign followed by the plain numeral.
pub proof fn lemma_grouped_keeps_the_number(value: i64, sep: char)
    requires
        !is_digit(sep),
    ensures
        without(grouped_text(value, sep), sep) == without(sign_prefix(value), sep) + decimal(magnitude(value)),
{
    let d = decimal(magnitude(value));
    lemma_decimal_digits(magnitude(value));
    assert forall|i: int| 0 <= i < d.len() implies d[i] != sep by {
        assert(is_digit(d[i]));
    }
    lemma_without_concat(sign_prefix(value), grouped_digits(d, sep), sep);
    lemma_grouping_keeps_every_digit(d, sep);
}

/// Law: numbers below a thousand are written exactly as `to_string` would.
pub proof fn lemma_small_numbers_are_left_alone(value: i64, sep: char)
    requires
        0 <= value < 1000,
    ensures
        grouped_text(value, sep) == decimal(value as nat),
{
    reveal_with_fuel(crate::text::pow10, 4);
    assert(crate::text::pow10(3) == 1000);
    crate::text::lemma_decimal_len_below(value as nat, 3, 1000);
    assert(Seq::<char>::empty() + decimal(value as nat) =~= decimal(value as nat));
}

/// Law: a compact label never overstates. The quantity it shows is at most
/// the magnitude, and falls short of it by less than one shown step: a tenth
/// of the unit when the tenths digit is written, a whole unit otherwise.
pub proof fn lemma_compact_never_rounds_up(m: nat)
    ensures
        compact_shown(m) <= m,
        match compact_unit(m) {
            None => compact_shown(m) == m,
            Some((scale, _)) => if compact_shows_tenths(m, scale) {
                m < compact_shown(m) + scale / 10
            } else {
                m < compact_shown(m) + scale
            },
        },
{
    match compact_unit(m) {
        None => {},
        Some((scale, _)) => {
            let whole = m / scale;
            let r = m % scale;
            let t = r * 10 / scale;
            let step = scale / 10;
            assert(scale == step * 10);
            assert(m == whole * scale + r) by (nonlinear_arith)
                requires whole == m / scale, r == m % scale, scale > 0;
            assert(r < scale) by (nonlinear_arith)
                requires r == m % scale, scale > 0;
            assert(t * step <= r && r < t * step + step) by (nonlinear_arith)
                requires t == r * 10 / scale, scale == step * 10, step > 0, r < scale;
        },
    }
}

proof fn lemma_grouping_only_adds(digits: Seq<char>, sep: char)
    ensures
        grouped_digits(digits, sep).len() >= digits.len(),
    decreases digits.len(),
{
    if digits.len() > 3 {
        lemma_grouping_only_adds(digits.subrange(0, digits.len() - 3), sep);
    }
}

/// Dropping the last three digits of a number of at least four digits.
proof fn lemma_decimal_len_div1000(n: nat)
    requires
        n >= 1000,
    ensures
        decimal(n).len() == decimal(n / 1000).len() + 3,
{
    assert(n / 10 >= 100);
    assert(n / 10 / 10 >= 10);
    assert(n / 10 / 10 / 10 == n / 1000) by {
        vstd::arithmetic::div_mod::lemma_div_denominator(n as int, 10, 10);
        vstd::arithmetic::div_mod::lemma_div_denominator(n as int, 100, 10);
    }
    assert(decimal(n).len() == decimal(n / 10).len() + 1);
    assert(decimal(n / 10).len() == decimal(n / 10 / 10).len() + 1);
    assert(decimal(n / 10 / 10).len() == decimal(n / 10 / 10 / 10).len() + 1);
}

/// Law: a compact label is never wider than the grouped figure it stands
/// for.
pub proof fn lemma_compact_is_never_wider(value: i64, sep: char)
    ensures
        compact_text(value).len() <= grouped_text(value, sep).len(),
{
    let m = magnitude(value);
    lemma_grouping_only_adds(decimal(m), sep);
    match compact_unit(m) {
        None => {},
        Some((scale, _)) => {
            lemma_decimal_len_div1000(m);
            if scale >= 1_000_000 {
                lemma_decimal_len_div1000(m / 1000);
                assert(m / 1000 / 1000 == m / 1_000_000) by {
                    vstd::arithmetic::div_mod::lemma_div_denominator(m as int, 1000, 1000);
                }
                if scale == 1_000_000_000 {
                    lemma_decimal_len_div1000(m / 1_000_000);
                    assert(m / 1_000_000 / 1000 == m / 1_000_000_000) by {
                        vstd::arithmetic::div_mod::lemma_div_denominator(m as int, 1_000_000, 1000);
                    }
                }
            }
        },
    }
}

/// Where digit `i` of an `n`-digit numeral lands once grouped: after the
/// separators that precede it, one for every full group of three to its
/// right fewer than the total.
pub open spec fn grouped_position(n: int, i: int) -> int {
    i + (n - 1) / 3 - (n - 1 - i) / 3
}

/// Law: grouping puts a separator before every digit whose distance from the
/// end is a multiple of three, and nowhere else. An `n`-digit numeral grows
/// by one separator per full group of three after the first group; every
/// digit keeps its order; and the character just before digit `i` (for
/// `0 < i < n`) is the separator exactly when `n - i` is a multiple of three.
/// So every group has three digits but the first, which has one to three.
pub proof fn lemma_groups_of_three_from_the_right(digits: Seq<char>, sep: char)
    requires
        digits.len() >= 1,
        forall|i: int| 0 <= i < digits.len() ==> digits[i] != sep,
    ensures
        grouped_digits(digits, sep).len() == digits.len() + (digits.len() - 1) / 3,
        forall|i: int| 0 <= i < digits.len() ==>
            #[trigger] grouped_digits(digits, sep)[grouped_position(digits.len() as int, i)] == digits[i],
        forall|i: int| 0 < i < digits.len() ==>
            (grouped_digits(digits, sep)[#[trigger] grouped_position(digits.len() as int, i) - 1] == sep
                <==> (digits.len() - i) % 3 == 0),
    decreases digits.len(),
{
    let n = digits.len() as int;
    let g = grouped_digits(digits, sep);
    if n <= 3 {
        assert forall|i: int| 0 <= i < n implies grouped_position(n, i) == i by {}
    } else {
        let m = n - 3;
        let head = digits.subrange(0, m);
        let tail = digits.subrange(m, n);
        lemma_groups_of_three_from_the_right(head, sep);
        let gh = grouped_digits(head, sep);
        assert(g == gh.push(sep) + tail);
        assert((m + 2) / 3 == (m - 1) / 3 + 1);
        assert forall|i: int| 0 <= i < n implies #[trigger] g[grouped_position(n, i)] == digits[i] by {
            if i < m {
                assert((n - 1 - i) / 3 == (m - 1 - i) / 3 + 1);
                assert(grouped_position(n, i) == grouped_position(m, i));
                assert(head[i] == digits[i]);
            } else {
                assert((n - 1 - i) / 3 == 0);
                assert(grouped_position(n, i) == gh.len() + 1 + (i - m));
                assert(tail[i - m] == digits[i]);
            }
        }
        assert forall|i: int| 0 < i < n implies (g[#[trigger] grouped_position(n, i) - 1] == sep <==> (n - i) % 3 == 0) by {
            if i < m {
                assert((n - 1 - i) / 3 == (m - 1 - i) / 3 + 1);
                assert(grouped_position(n, i) == grouped_position(m, i));
                assert((n - i) % 3 == (m - i) % 3);
            } else if i == m {
                assert(grouped_position(n, i) - 1 == gh.len());
            } else {
                assert((n - 1 - i) / 3 == 0);
                assert(grouped_position(n, i) - 1 == gh.len() + (i - m));
                assert(tail[i - 1 - m] == digits[i - 1]);
            }
        }
    }
}

/// The unit a magnitude of at least a thousand is shortened to.
pub open spec fn unit_scale(m: nat) -> nat {
    if m >= 1_000_000_000 { 1_000_000_000 } else if m >= 1_000_000 { 1_000_000 } else { 1_000 }
}

/// The suffix of that unit.
pub open spec fn unit_suffix(m: nat) -> char {
    if m >= 1_000_000_000 { 'B' } else if m >= 1_000_000 { 'M' } else { 'K' }
}

/// Law: a compact label is the whole number of units, then the tenths digit
/// whenever fewer than a hundred units are shown and the tenth is not zero,
/// then the unit's suffix; the rule is the same for thousands, millions and
/// billions. Below a thousand the number is written out.
pub proof fn lemma_compact_label(m: nat)
    ensures
        m < 1_000 ==> compact_digits(m) == decimal(m),
        m >= 1_000 && m / unit_scale(m) < 100 && (m % unit_scale(m)) * 10 / unit_scale(m) != 0
            ==> compact_digits(m) == decimal(m / unit_scale(m)) + seq![
                '.',
                (((m % unit_scale(m)) * 10 / unit_scale(m)) + 48) as char,
                unit_suffix(m),
            ],
        m >= 1_000 && !(m / unit_scale(m) < 100 && (m % unit_scale(m)) * 10 / unit_scale(m) != 0)
            ==> compact_digits(m) == decimal(m / unit_scale(m)) + seq![unit_suffix(m)],
{
    if m >= 1_000 {
        let s = unit_scale(m);
        assert(compact_unit(m) == Some((s, unit_suffix(m))));
        if compact_shows_tenths(m, s) {
            assert(compact_digits(m) =~= decimal(m / s) + seq!['.', digit_char((m % s) * 10 / s), unit_suffix(m)]);
        } else {
            assert(compact_digits(m) =~= decimal(m / s) + seq![unit_suffix(m)]);
        }
    }
}

} // verus!
