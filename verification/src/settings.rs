//! The cosmetic-effects policy shared by every game.
//!
//! Games store these two switches with the rest of their settings and the
//! toolkit consults them before shaking the screen or pulsing a widget.
//! Reduced motion wins: with it on, no shake is played whatever the shake
//! switch says.

use vstd::prelude::*;

verus! {

/// The effect switches as last applied.
#[derive(Debug, Clone, Copy, PartialEq, Eq, Structural)]
pub struct MotionFlags {
    /// Disables pulses, shakes, and impact particles.
    pub reduced_motion: bool,
    /// Whether screen-shake effects are enabled.
    pub screen_shake: bool,
}

impl Default for MotionFlags {
    /// Full motion: no reduction, shake on.
    fn default() -> (flags: Self)
        ensures
            !flags.reduced_motion,
            flags.screen_shake,
    {
        MotionFlags { reduced_motion: false, screen_shake: true }
    }
}

/// Whether screen shake may play: the switch is on and reduced motion is
/// off.
pub fn screen_shake_enabled(flags: &MotionFlags) -> (enabled: bool)
    ensures
        enabled == (flags.screen_shake && !flags.reduced_motion),
{
    flags.screen_shake && !flags.reduced_motion
}

/// Whether reduced motion is in force.
pub fn reduced_motion_enabled(flags: &MotionFlags) -> (enabled: bool)
    ensures
        enabled == flags.reduced_motion,
{
    flags.reduced_motion
}

} // verus!
