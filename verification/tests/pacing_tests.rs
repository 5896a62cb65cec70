use nlx_replay::pacing::PacedSchedule;

#[test]
fn five_items_at_ten_units_complete_on_schedule() {
    // Simulated clock: each action takes negligible time (1 unit), each wait
    // is taken in full, so every step lands exactly on its deadline and the
    // run over 5 items spans exactly 5 * 10 units.
    let start: u64 = 1000;
    let period: u64 = 10;
    let mut schedule = PacedSchedule::new(start, period);
    let mut now = start;
    for k in 0..5u64 {
        now += 1; // the action
        let wait = schedule.wait_before_next(now);
        now += wait;
        assert_eq!(now, start + (k + 1) * period);
        schedule.advance();
    }
    assert_eq!(now, start + 5 * period);
}

#[test]
fn wait_is_the_time_left_to_the_deadline() {
    let schedule = PacedSchedule::new(100, 10);
    assert_eq!(schedule.wait_before_next(100), 10);
    assert_eq!(schedule.wait_before_next(107), 3);
    assert_eq!(schedule.wait_before_next(110), 0);
}

#[test]
fn overrun_skips_the_wait_but_keeps_the_schedule() {
    let mut schedule = PacedSchedule::new(0, 10);
    // The first action overruns its period by 5 units.
    assert_eq!(schedule.wait_before_next(15), 0);
    schedule.advance();
    // The schedule still stands at the original deadlines, not at wake time.
    assert_eq!(schedule.next_deadline, 20);
    assert_eq!(schedule.wait_before_next(15), 5);
}

#[test]
fn deadlines_advance_by_exactly_one_period() {
    let mut schedule = PacedSchedule::new(7, 3);
    assert_eq!(schedule.next_deadline, 10);
    schedule.advance();
    assert_eq!(schedule.next_deadline, 13);
    schedule.advance();
    assert_eq!(schedule.next_deadline, 16);
    assert_eq!(schedule.period, 3);
}
