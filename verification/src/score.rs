//! Musical scales: pitches placed by scale degree rather than by hand.
//!
//! A scale is held as intervals from its tonic, so a degree above the octave
//! keeps working: degree 7 of a seven-step scale is the root an octave up and
//! degree -1 the step below the root.

use vstd::prelude::*;

verus! {

/// The natural minor scale.
pub const MINOR: [i32; 7] = [0, 2, 3, 5, 7, 8, 10];

/// The major scale.
pub const MAJOR: [i32; 7] = [0, 2, 4, 5, 7, 9, 11];

/// Minor pentatonic: the five degrees that cannot clash with each other.
pub const PENTATONIC_MINOR: [i32; 5] = [0, 3, 5, 7, 10];

/// A key: where it starts and which steps it takes.
#[derive(Debug, Clone, Copy)]
pub struct Scale {
    /// Semitones from A4 to the tonic. Negative goes down.
    pub root: i32,
    pub steps: &'static [i32],
}

/// Semitones above A4 of a scale degree: the octave is the degree divided
/// by the number of steps, rounded down, and the step is the remainder.
pub open spec fn degree_semitones(root: int, steps: Seq<i32>, degree: int) -> int {
    root + (degree / steps.len() as int) * 12 + steps[degree % steps.len() as int] as int
}

/// Whether some step of the scale has the pitch class of `semitone`.
pub open spec fn has_pitch_class(root: int, steps: Seq<i32>, semitone: int) -> bool {
    exists|i: int| 0 <= i < steps.len() && #[trigger] (steps[i] as int % 12) == (semitone - root) % 12
}

impl Scale {
    pub fn new(root: i32, steps: &'static [i32]) -> (scale: Self)
        ensures
            scale.root == root,
            scale.steps@ == steps@,
    {
        Self { root, steps }
    }

    /// Semitones above A4 for a scale degree, wrapping into octaves. A
    /// negative degree walks down the scale rather than reflecting.
    pub fn semitones(&self, degree: i32) -> (semitones: i32)
        requires
            self.steps@.len() > 0,
            self.steps@.len() <= i32::MAX,
            i32::MIN <= degree_semitones(self.root as int, self.steps@, degree as int) <= i32::MAX,
            i32::MIN <= (degree as int / self.steps@.len() as int) * 12 <= i32::MAX,
            i32::MIN <= self.root + (degree as int / self.steps@.len() as int) * 12 <= i32::MAX,
        ensures
            semitones == degree_semitones(self.root as int, self.steps@, degree as int),
    {
        let len = self.steps.len() as i32;
        let octave = match degree.checked_div_euclid(len) {
            Some(q) => q,
            None => 0,
        };
        let index = match degree.checked_rem_euclid(len) {
            Some(r) => r,
            None => 0,
        };
        let step = self.steps[index as usize];
        self.root + octave * 12 + step
    }

    /// Whether the pitch class of `semitone` is in this scale.
    pub fn contains_semitone(&self, semitone: i32) -> (contained: bool)
        requires
            i32::MIN <= semitone - self.root <= i32::MAX,
        ensures
            contained == has_pitch_class(self.root as int, self.steps@, semitone as int),
    {
        let relative = match (semitone - self.root).checked_rem_euclid(12) {
            Some(r) => r,
            None => 0,
        };
        let mut i: usize = 0;
        while i < self.steps.len()
            invariant
                i <= self.steps@.len(),
                relative == (semitone - self.root) % 12,
                forall|j: int| 0 <= j < i ==> (self.steps@[j] as int % 12) != relative,
            decreases self.steps@.len() - i,
        {
            let step = self.steps[i];
            let class = match step.checked_rem_euclid(12) {
                Some(r) => r,
                None => 0,
            };
            if class == relative {
                return true;
            }
            i = i + 1;
        }
        false
    }
}

/// Law: a scale recognises its own notes. Every degree, however far above
/// or below the root, lands on a pitch class the scale contains.
pub proof fn lemma_every_degree_is_in_the_scale(root: int, steps: Seq<i32>, degree: int)
    requires
        steps.len() > 0,
    ensures
        has_pitch_class(root, steps, degree_semitones(root, steps, degree)),
{
    let len = steps.len() as int;
    let i = degree % len;
    let octave = degree / len;
    let s = degree_semitones(root, steps, degree);
    assert(s - root == octave * 12 + steps[i] as int);
    assert((octave * 12 + steps[i] as int) % 12 == (steps[i] as int) % 12) by (nonlinear_arith);
    assert((steps[i] as int % 12) == (s - root) % 12);
}

/// Law: degrees walk the scale in whole octaves. Moving a degree by the
/// number of steps moves the pitch by exactly twelve semitones.
pub proof fn lemma_a_full_turn_is_an_octave(root: int, steps: Seq<i32>, degree: int)
    requires
        steps.len() > 0,
    ensures
        degree_semitones(root, steps, degree + steps.len()) == degree_semitones(root, steps, degree) + 12,
{
    let len = steps.len() as int;
    assert((degree + len) / len == degree / len + 1) by (nonlinear_arith)
        requires len > 0;
    assert((degree + len) % len == degree % len) by (nonlinear_arith)
        requires len > 0;
}

} // verus!
