use macroquad_toolkit::settings::{reduced_motion_enabled, screen_shake_enabled, MotionFlags};

#[test]
fn reduced_motion_silences_the_shake() {
    let defaults = MotionFlags::default();
    assert!(screen_shake_enabled(&defaults));
    assert!(!reduced_motion_enabled(&defaults));

    let reduced = MotionFlags {
        reduced_motion: true,
        screen_shake: true,
    };
    assert!(!screen_shake_enabled(&reduced));
    assert!(reduced_motion_enabled(&reduced));

    let no_shake = MotionFlags {
        reduced_motion: false,
        screen_shake: false,
    };
    assert!(!screen_shake_enabled(&no_shake));
}
