//! Character-level building blocks shared by the formatting modules.

use vstd::prelude::*;

verus! {

broadcast use vstd::string::group_string_axioms;

/// Append one character to a string.
///
/// Trusted: `String::push` appends `c` to the end of the string, as its
/// documentation states.
#[verifier::external_body]
pub(crate) fn push_char(s: &mut String, c: char)
    ensures
        final(s)@ == old(s)@.push(c),
{
    s.push(c);
}

/// The ASCII digit for `d`, which is below ten.
pub open spec fn digit_char(d: nat) -> char {
    (d + 48) as char
}

/// The decimal numeral of `n`, most significant digit first, without
/// leading zeros (zero itself is `"0"`).
pub open spec fn decimal(n: nat) -> Seq<char>
    decreases n,
{
    if n < 10 {
        seq![digit_char(n)]
    } else {
        decimal(n / 10).push(digit_char(n % 10))
    }
}

/// The digit character of a value below ten.
pub fn digit(d: u64) -> (c: char)
    requires
        d < 10,
    ensures
        c == digit_char(d as nat),
{
    ((d as u8) + 48u8) as char
}

/// Append the decimal numeral of `n`.
pub fn push_decimal(out: &mut String, n: u64)
    ensures
        final(out)@ == old(out)@ + decimal(n as nat),
    decreases n,
{
    if n >= 10 {
        push_decimal(out, n / 10);
    }
    push_char(out, digit(n % 10));
    assert(final(out)@ =~= old(out)@ + decimal(n as nat));
}

/// The decimal numeral of `n` as a vector of characters.
pub fn decimal_chars(n: u64) -> (digits: Vec<char>)
    ensures
        digits@ == decimal(n as nat),
    decreases n,
{
    let mut digits = if n >= 10 { decimal_chars(n / 10) } else { Vec::new() };
    digits.push(digit(n % 10));
    assert(digits@ =~= decimal(n as nat));
    digits
}

/// A decimal numeral is never empty and holds only ASCII digits.
pub proof fn lemma_decimal_digits(n: nat)
    ensures
        decimal(n).len() >= 1,
        forall|i: int| 0 <= i < decimal(n).len() ==> is_digit(#[trigger] decimal(n)[i]),
    decreases n,
{
    if n >= 10 {
        lemma_decimal_digits(n / 10);
    }
}

/// Numbers below 10^k have at most k digits.
pub proof fn lemma_decimal_len_below(n: nat, k: nat, bound: nat)
    requires
        n < bound,
        bound == pow10(k),
        k >= 1,
    ensures
        decimal(n).len() <= k,
    decreases k,
{
    if n >= 10 {
        lemma_pow10_step(k);
        lemma_decimal_len_below(n / 10, (k - 1) as nat, pow10((k - 1) as nat));
    }
}

pub open spec fn pow10(k: nat) -> nat
    decreases k,
{
    if k == 0 { 1 } else { 10 * pow10((k - 1) as nat) }
}

proof fn lemma_pow10_step(k: nat)
    requires
        k >= 1,
    ensures
        pow10(k) == 10 * pow10((k - 1) as nat),
{
}

pub open spec fn is_digit(c: char) -> bool {
    '0' <= c && c <= '9'
}

/// Number of `c` in `s`.
pub open spec fn count_char(s: Seq<char>, c: char) -> nat
    decreases s.len(),
{
    if s.len() == 0 {
        0
    } else {
        count_char(s.drop_last(), c) + if s.last() == c { 1nat } else { 0nat }
    }
}

/// The number a string of decimal digits stands for.
pub open spec fn numeral_value(s: Seq<char>) -> int
    decreases s.len(),
{
    if s.len() == 0 {
        0
    } else {
        numeral_value(s.drop_last()) * 10 + (s.last() as int - 48)
    }
}

/// Law: a decimal numeral reads back as its number. It is made of ASCII
/// digits, has no leading zero (only zero itself starts with `0`), and its
/// digits, read most significant first, give `n`.
pub proof fn lemma_decimal_reads_back(n: nat)
    ensures
        numeral_value(decimal(n)) == n,
        forall|i: int| 0 <= i < decimal(n).len() ==> '0' <= #[trigger] decimal(n)[i] && decimal(n)[i] <= '9',
        decimal(n)[0] == '0' ==> n == 0,
    decreases n,
{
    lemma_decimal_digits(n);
    let d = decimal(n);
    assert(d.last() as int == n % 10 + 48);
    assert(numeral_value(d) == numeral_value(d.drop_last()) * 10 + (d.last() as int - 48));
    assert(n == (n / 10) * 10 + n % 10);
    if n >= 10 {
        lemma_decimal_reads_back(n / 10);
        assert(d.drop_last() == decimal(n / 10));
        assert(d[0] == decimal(n / 10)[0]);
    } else {
        assert(d.drop_last() =~= Seq::<char>::empty());
    }
}

} // verus!
