use folder_size::timer::Timer;

#[test]
fn timer_fires_once_budget_is_consumed() {
    let mut t = Timer::new(10);
    assert!(!t.tick(7));
    // 3 remained; 5 elapsed, so the timer fires and 10 - 5 % 10 = 5 remain
    assert!(t.tick(5));
    assert!(!t.tick(4));
    assert!(t.tick(1));
}

#[test]
fn timer_rolls_long_pauses_into_one_report() {
    let mut t = Timer::new(400);
    // a long pause triggers once, not once per missed interval
    assert!(t.tick(1700));
    // 1700 % 400 = 100 already counted toward the next window
    assert!(!t.tick(299));
    assert!(t.tick(1));
}

#[test]
fn timer_zero_elapsed_never_fires() {
    let mut t = Timer::new(400);
    for _ in 0..100 {
        assert!(!t.tick(0));
    }
    assert!(t.tick(400));
}

#[test]
fn timer_fire_count_bounded_by_whole_intervals() {
    let mut t = Timer::new(10);
    let mut fired = 0u64;
    let mut elapsed = 0u64;
    for step in [0u64, 10, 20, 0, 30, 10, 0, 0, 10, 40] {
        elapsed += step;
        if t.tick(step) {
            fired += 1;
        }
    }
    assert!(fired * 10 <= elapsed);
    assert_eq!(fired, 6);
}

#[test]
fn timer_roll_over_can_halve_the_spacing() {
    let mut t = Timer::new(10);
    let mut fires = 0u64;
    for e in [19u64, 1, 9, 1, 9] {
        if t.tick(e) {
            fires += 1;
        }
    }
    // all five ticks fire although only 39 elapsed: after a fire only the
    // elapsed time modulo one interval rolls over, so reports can come as
    // close as half an interval apart (never closer)
    assert_eq!(fires, 5);
    assert!(fires * 10 <= 2 * 39 + 10);
}
