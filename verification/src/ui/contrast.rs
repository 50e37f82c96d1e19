//! Whether text can be read off what it is drawn on: the two WCAG contrast
//! thresholds.
//!
//! The thresholds themselves (4.5:1 and 3:1) and the luminance arithmetic
//! are real-valued and live with the drawing code; the library names the
//! levels so that audits and layouts can agree on which one applies.

use vstd::prelude::*;

verus! {

/// The two WCAG thresholds.
#[derive(Debug, Clone, Copy, PartialEq, Eq, Structural)]
pub enum Level {
    /// 4.5:1, what small text should reach.
    Body,
    /// 3.0:1, the floor, allowed for large text and treated as the line
    /// below which anything is a defect.
    Large,
}

} // verus!
