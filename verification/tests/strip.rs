use macroquad_toolkit::strip::{travel_symbols, StopAnnouncer};

/// Whole revolutions every strip turns before its stop, as the default feel
/// of the original sets them.
const REVOLUTIONS: usize = 2;

#[test]
fn every_strip_travels_a_whole_number_of_revolutions() {
    for index in 0..6 {
        let travel = travel_symbols(40, 7, 7, index, REVOLUTIONS);
        assert_eq!(travel % 40, 0, "strip {} travels a fractional strip", index);
    }
}

#[test]
fn a_strip_that_does_not_move_still_turns_a_full_revolution() {
    assert!(travel_symbols(40, 12, 12, 0, REVOLUTIONS) >= 40);
}

#[test]
fn a_strip_lands_exactly_on_its_target() {
    for index in 0..6 {
        for target in [0usize, 1, 17, 39] {
            let travel = travel_symbols(40, 7, target, index, REVOLUTIONS);
            assert_eq!((7 + travel) % 40, target, "strip {} missed its stop", index);
        }
    }
}

#[test]
fn later_strips_turn_one_more_revolution_every_second_strip() {
    assert_eq!(travel_symbols(40, 0, 5, 0, 2), 85);
    assert_eq!(travel_symbols(40, 0, 5, 1, 2), 85);
    assert_eq!(travel_symbols(40, 0, 5, 2, 2), 125);
    assert_eq!(travel_symbols(40, 0, 5, 5, 2), 165);
    assert_eq!(travel_symbols(40, 39, 1, 0, 0), 2);
    assert_eq!(travel_symbols(40, 47, 41, 0, 1), 74);
    assert_eq!(travel_symbols(0, 3, 9, 4, 1), 3);
}

#[test]
fn a_strip_is_announced_in_the_tick_it_comes_to_rest() {
    let mut announcer = StopAnnouncer::new(2);
    // Strip 0 is held and still turning; strip 1 has stopped.
    assert_eq!(announcer.announce(&[false, true], &[10, 5]), vec![1]);
    assert_eq!(announcer.announce(&[true, true], &[10, 5]), vec![0]);
    assert!(announcer.all_announced());
    assert!(announcer.announce(&[true, true], &[10, 5]).is_empty());
}

#[test]
fn stops_in_one_tick_come_out_in_stop_order() {
    let mut announcer = StopAnnouncer::new(4);
    assert_eq!(announcer.announce(&[true, true, false, true], &[9, 3, 1, 3]), vec![1, 3, 0]);
    assert!(!announcer.all_announced());
    assert_eq!(announcer.announce(&[true, true, true, true], &[9, 3, 1, 3]), vec![2]);
    assert!(announcer.all_announced());
}

#[test]
fn every_stop_is_announced_once_over_many_ticks() {
    let stops_at = [0u32, 1, 2, 3, 4];
    let mut announcer = StopAnnouncer::new(5);
    let mut order = Vec::new();
    for tick in 0..10u32 {
        let settled: Vec<bool> = stops_at.iter().map(|t| *t <= tick / 2).collect();
        order.extend(announcer.announce(&settled, &stops_at));
    }
    assert_eq!(order, vec![0, 1, 2, 3, 4]);
    assert!(announcer.all_announced());
}

#[test]
fn an_empty_row_is_announced_at_once() {
    let mut announcer = StopAnnouncer::new(0);
    assert!(announcer.all_announced());
    assert!(announcer.announce(&[], &[]).is_empty());
}
