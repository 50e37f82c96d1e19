//! Pseudolocalisation: text transformed on its way to the screen so that it
//! is still readable English but has the properties text in other languages
//! has.
//!
//! - Longer: padded with middle dots after the text.
//! - Accented: `Settings` becomes `Śéttíñgś`, which shows a font with no
//!   glyph for `é` at once.
//! - Bracketed: `[Śéttíñgś··]`, so a label glued together from two strings
//!   shows up as `[..][..]`.
//!
//! Format placeholders (`{}`, `{name}`, `{:>4}`) pass through untouched so a
//! caller that formats after the transform keeps working.
//!
//! How much padding a string gets is the number of its letters times a
//! real-valued expansion factor, rounded; that product is computed by the
//! caller and handed in as `padding`.

use vstd::prelude::*;
use crate::text::push_char;

verus! {

broadcast use vstd::string::group_string_axioms;

/// The marks a transform adds.
#[derive(Debug, Clone, Copy, PartialEq, Eq, Structural)]
pub struct PseudoMarks {
    /// Wrap each string in brackets, so a glued-together label is visible.
    pub brackets: bool,
    /// Substitute accented look-alikes.
    pub accents: bool,
}

/// The accented look-alike of a Latin letter; everything else, digits and
/// punctuation included, is unchanged.
pub open spec fn accented(ch: char) -> char {
    if ch == 'a' { 'á' }
    else if ch == 'e' { 'é' }
    else if ch == 'i' { 'í' }
    else if ch == 'o' { 'ó' }
    else if ch == 'u' { 'ú' }
    else if ch == 'n' { 'ñ' }
    else if ch == 'c' { 'ç' }
    else if ch == 's' { 'ś' }
    else if ch == 'y' { 'ý' }
    else if ch == 'A' { 'Á' }
    else if ch == 'E' { 'É' }
    else if ch == 'I' { 'Í' }
    else if ch == 'O' { 'Ó' }
    else if ch == 'U' { 'Ú' }
    else if ch == 'N' { 'Ñ' }
    else if ch == 'C' { 'Ç' }
    else if ch == 'S' { 'Ś' }
    else if ch == 'Y' { 'Ý' }
    else { ch }
}

/// A look-alike with a diacritic.
pub fn accent(ch: char) -> (out: char)
    ensures
        out == accented(ch),
{
    match ch {
        'a' => 'á',
        'e' => 'é',
        'i' => 'í',
        'o' => 'ó',
        'u' => 'ú',
        'n' => 'ñ',
        'c' => 'ç',
        's' => 'ś',
        'y' => 'ý',
        'A' => 'Á',
        'E' => 'É',
        'I' => 'Í',
        'O' => 'Ó',
        'U' => 'Ú',
        'N' => 'Ñ',
        'C' => 'Ç',
        'S' => 'Ś',
        'Y' => 'Ý',
        other => other,
    }
}

/// Whether the text so far has opened a placeholder that is not yet closed.
pub open spec fn inside_placeholder(prefix: Seq<char>) -> bool
    decreases prefix.len(),
{
    if prefix.len() == 0 {
        false
    } else if prefix.last() == '{' {
        true
    } else if prefix.last() == '}' {
        false
    } else {
        inside_placeholder(prefix.drop_last())
    }
}

/// The text with letters outside placeholders accented (when accents are
/// on); braces and everything inside a placeholder are kept.
pub open spec fn accented_body(text: Seq<char>, accents: bool) -> Seq<char> {
    Seq::new(
        text.len(),
        |i: int|
            if text[i] == '{' || text[i] == '}' || !accents || inside_placeholder(text.take(i)) {
                text[i]
            } else {
                accented(text[i])
            },
    )
}

/// `n` middle dots.
pub open spec fn dots(n: nat) -> Seq<char> {
    Seq::new(n, |i: int| '\u{00B7}')
}

/// What [`transform`] writes.
pub open spec fn pseudo_text(text: Seq<char>, marks: PseudoMarks, padding: nat) -> Seq<char> {
    (if marks.brackets { seq!['['] } else { Seq::empty() })
        + accented_body(text, marks.accents)
        + dots(if padding == 0 { 1 } else { padding })
        + (if marks.brackets { seq![']'] } else { Seq::empty() })
}

/// Pseudolocalise `text`: optional opening bracket, the text with letters
/// accented outside placeholders, `padding` middle dots (at least one), and
/// an optional closing bracket.
pub fn transform(text: &str, marks: PseudoMarks, padding: usize) -> (out: String)
    ensures
        out@ == pseudo_text(text@, marks, padding as nat),
{
    let mut out = String::new();
    if marks.brackets {
        push_char(&mut out, '[');
    }
    let ghost head = out@;
    let mut in_placeholder = false;
    for ch in it: text.chars()
        invariant
            it.seq() == text@,
            in_placeholder == inside_placeholder(text@.take(it.index())),
            out@ == head + accented_body(text@.take(it.index()), marks.accents),
    {
        let ghost i = it.index();
        if ch == '{' {
            in_placeholder = true;
            push_char(&mut out, ch);
        } else if ch == '}' {
            in_placeholder = false;
            push_char(&mut out, ch);
        } else if in_placeholder || !marks.accents {
            push_char(&mut out, ch);
        } else {
            push_char(&mut out, accent(ch));
        }
        proof {
            let t = text@.take(i + 1);
            assert(t.drop_last() =~= text@.take(i));
            assert forall|k: int| 0 <= k < i implies #[trigger] t.take(k) == text@.take(i).take(k) by {
                assert(t.take(k) =~= text@.take(i).take(k));
            }
            assert(t.take(i) =~= text@.take(i));
            assert(out@ =~= head + accented_body(t, marks.accents));
        }
    }
    assert(text@.take(text@.len() as int) =~= text@);
    let ghost body = out@;
    let count = if padding == 0 { 1 } else { padding };
    let mut k: usize = 0;
    while k < count
        invariant
            k <= count,
            count == if padding == 0 { 1 } else { padding },
            out@ == body + dots(k as nat),
        decreases count - k,
    {
        push_char(&mut out, '\u{00B7}');
        k = k + 1;
        assert(out@ =~= body + dots(k as nat));
    }
    if marks.brackets {
        push_char(&mut out, ']');
    }
    assert(out@ =~= pseudo_text(text@, marks, padding as nat));
    out
}

/// Whether `c` is alphabetic or numeric in the Unicode sense, as
/// `char::is_alphanumeric` decides it.
pub uninterp spec fn alphanumeric(c: char) -> bool;

/// Whether `c` is an ASCII letter or digit.
pub open spec fn ascii_alphanumeric(c: char) -> bool {
    ('a' <= c && c <= 'z') || ('A' <= c && c <= 'Z') || ('0' <= c && c <= '9')
}

/// Trusted: `char::is_alphanumeric`, which reports whether `c` has the
/// Unicode `Alphabetic` property or is a numeric character. The contract
/// names that decision, which depends on `c` alone, and states it for ASCII,
/// where the only alphabetic characters are the Latin letters and the only
/// numeric ones the digits; beyond ASCII it rests on the Unicode tables and
/// is left unsaid.
#[verifier::external_body]
fn is_alphanumeric(c: char) -> (r: bool)
    ensures
        r == alphanumeric(c),
        (c as u32) < 128 ==> (r <==> ascii_alphanumeric(c)),
{
    c.is_alphanumeric()
}

/// Number of letters and digits in `s`.
pub open spec fn letters_in(s: Seq<char>) -> nat
    decreases s.len(),
{
    if s.len() == 0 {
        0
    } else {
        letters_in(s.drop_last()) + if alphanumeric(s.last()) { 1nat } else { 0nat }
    }
}

/// Whether every character of `s` is ASCII.
pub open spec fn all_ascii(s: Seq<char>) -> bool {
    forall|i: int| 0 <= i < s.len() ==> (#[trigger] s[i] as u32) < 128
}

/// Number of ASCII letters and digits in `s`.
pub open spec fn ascii_letters_in(s: Seq<char>) -> nat
    decreases s.len(),
{
    if s.len() == 0 {
        0
    } else {
        ascii_letters_in(s.drop_last()) + if ascii_alphanumeric(s.last()) { 1nat } else { 0nat }
    }
}

/// How many letters and digits `text` holds: what the padding of a
/// pseudolocalised string is measured against. For ASCII text these are
/// exactly the Latin letters and the digits.
pub fn letter_count(text: &str) -> (n: usize)
    ensures
        n == letters_in(text@),
        all_ascii(text@) ==> n == ascii_letters_in(text@),
{
    let total = text.unicode_len();
    let mut n: usize = 0;
    for ch in it: text.chars()
        invariant
            it.seq() == text@,
            total == text@.len(),
            n == letters_in(text@.take(it.index())),
            all_ascii(text@) ==> n == ascii_letters_in(text@.take(it.index())),
            n <= it.index(),
    {
        let ghost i = it.index();
        assert(text@.take(i + 1).drop_last() =~= text@.take(i));
        assert(text@.take(i + 1).last() == text@[i]);
        if is_alphanumeric(ch) {
            n = n + 1;
        }
    }
    assert(text@.take(text@.len() as int) =~= text@);
    n
}

/// The per-thread switch state behind pseudolocalisation: the style in
/// force, if any, and how many suppressing guards are alive. Text is
/// transformed only while a style is in force and no guard is alive, so a
/// string built from already transformed pieces is not transformed twice.
pub struct PseudoSwitch<S> {
    active: Option<S>,
    depth: u32,
}

impl<S: Copy> PseudoSwitch<S> {
    /// The style in force.
    pub closed spec fn spec_active(&self) -> Option<S> {
        self.active
    }

    /// How many suppressing guards are alive.
    pub closed spec fn spec_depth(&self) -> nat {
        self.depth as nat
    }

    /// Off, with no guard alive.
    pub fn new() -> (switch: Self)
        ensures
            switch.spec_active() == None::<S>,
            switch.spec_depth() == 0,
    {
        PseudoSwitch { active: None, depth: 0 }
    }

    /// Put `style` in force.
    pub fn enable(&mut self, style: S)
        ensures
            final(self).spec_active() == Some(style),
            final(self).spec_depth() == old(self).spec_depth(),
    {
        self.active = Some(style);
    }

    /// Turn pseudolocalisation off.
    pub fn disable(&mut self)
        ensures
            final(self).spec_active() == None::<S>,
            final(self).spec_depth() == old(self).spec_depth(),
    {
        self.active = None;
    }

    /// The style in force, whether or not a guard suppresses it.
    pub fn active(&self) -> (style: Option<S>)
        ensures
            style == self.spec_active(),
    {
        self.active
    }

    /// How many suppressing guards are alive.
    pub fn depth(&self) -> (depth: u32)
        ensures
            depth == self.spec_depth(),
    {
        self.depth
    }

    /// A guard comes alive.
    pub fn suppress(&mut self)
        requires
            old(self).spec_depth() < u32::MAX,
        ensures
            final(self).spec_depth() == old(self).spec_depth() + 1,
            final(self).spec_active() == old(self).spec_active(),
    {
        self.depth = self.depth + 1;
    }

    /// A guard is dropped.
    pub fn release(&mut self)
        requires
            old(self).spec_depth() > 0,
        ensures
            final(self).spec_depth() == old(self).spec_depth() - 1,
            final(self).spec_active() == old(self).spec_active(),
    {
        self.depth = self.depth - 1;
    }

    /// Law: a guard leaves no trace. A switch that a guard came alive on and
    /// was then dropped from is the switch it was before.
    pub proof fn lemma_a_dropped_guard_leaves_no_trace(before: Self, during: Self, after: Self)
        requires
            during.spec_depth() == before.spec_depth() + 1,
            during.spec_active() == before.spec_active(),
            after.spec_depth() == during.spec_depth() - 1,
            after.spec_active() == during.spec_active(),
        ensures
            after == before,
    {
    }

    /// The style to transform text with now: none while a guard is alive,
    /// otherwise the style in force.
    pub fn style_to_apply(&self) -> (style: Option<S>)
        ensures
            style == if self.spec_depth() > 0 { None } else { self.spec_active() },
    {
        if self.depth > 0 {
            None
        } else {
            self.active
        }
    }
}

} // verus!
