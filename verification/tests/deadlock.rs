use oskit::deadlock::DeadlockState;

fn enabled() -> DeadlockState {
    let mut d = DeadlockState::default();
    d.set_enabled(true);
    d
}

#[test]
fn mutex_checks_off_by_default() {
    let mut d = DeadlockState::default();
    d.on_mutex_acquired(1, 0);
    assert!(!d.enabled);
    assert!(!d.mutex_should_deadlock(1, 0));
}

#[test]
fn mutex_free_never_deadlocks() {
    let mut d = enabled();
    d.register_mutex(3);
    assert!(!d.mutex_should_deadlock(1, 3));
    assert!(!d.mutex_should_deadlock(1, 7));
}

#[test]
fn mutex_relock_by_holder_deadlocks() {
    let mut d = enabled();
    d.on_mutex_acquired(1, 0);
    assert!(d.mutex_should_deadlock(1, 0));
    assert!(!d.mutex_should_deadlock(2, 0));
}

#[test]
fn mutex_two_thread_cycle_detected() {
    let mut d = enabled();
    d.on_mutex_acquired(1, 0);
    d.on_mutex_acquired(2, 1);
    assert!(!d.mutex_should_deadlock(1, 1));
    d.on_mutex_blocked(1, 1);
    assert!(d.mutex_should_deadlock(2, 0));
    assert!(!d.mutex_should_deadlock(3, 0));
}

#[test]
fn mutex_three_thread_cycle_detected() {
    let mut d = enabled();
    d.on_mutex_acquired(1, 0);
    d.on_mutex_acquired(2, 1);
    d.on_mutex_acquired(3, 2);
    d.on_mutex_blocked(1, 1);
    d.on_mutex_blocked(2, 2);
    assert!(d.mutex_should_deadlock(3, 0));
    assert!(!d.mutex_should_deadlock(4, 0));
}

#[test]
fn mutex_unlock_hands_over() {
    let mut d = enabled();
    d.on_mutex_acquired(1, 0);
    d.on_mutex_blocked(2, 0);
    d.on_mutex_unlocked(0, Some(2));
    assert!(d.mutex_should_deadlock(2, 0));
    assert!(!d.mutex_should_deadlock(1, 0));
    d.on_mutex_unlocked(0, None);
    assert!(!d.mutex_should_deadlock(2, 0));
}

#[test]
fn semaphore_single_resource() {
    let mut d = enabled();
    d.register_semaphore(0, 1);
    assert!(!d.semaphore_should_deadlock(1, 0));
    d.on_semaphore_down_granted(1, 0);
    // thread 2 waiting is safe: thread 1 can finish and release
    assert!(!d.semaphore_should_deadlock(2, 0));
    d.on_semaphore_blocked(2, 0);
    // thread 1 asking again while holding the only unit cannot end well
    assert!(d.semaphore_should_deadlock(1, 0));
}

#[test]
fn semaphore_crossed_requests_deadlock() {
    let mut d = enabled();
    d.register_semaphore(0, 1);
    d.register_semaphore(1, 1);
    d.on_semaphore_down_granted(1, 0);
    d.on_semaphore_down_granted(2, 1);
    assert!(!d.semaphore_should_deadlock(1, 1));
    d.on_semaphore_blocked(1, 1);
    assert!(d.semaphore_should_deadlock(2, 0));
}

#[test]
fn semaphore_release_lets_waiter_proceed() {
    let mut d = enabled();
    d.register_semaphore(0, 1);
    d.on_semaphore_down_granted(1, 0);
    d.on_semaphore_blocked(2, 0);
    d.on_semaphore_up(1, 0, Some(2));
    // thread 2 now holds the unit and thread 1 holds nothing
    assert!(!d.semaphore_should_deadlock(1, 0));
    d.on_semaphore_up(2, 0, None);
    assert!(!d.semaphore_should_deadlock(3, 0));
}

#[test]
fn semaphore_checks_off_when_disabled() {
    let mut d = DeadlockState::default();
    d.register_semaphore(0, 0);
    d.on_semaphore_blocked(1, 0);
    assert!(!d.semaphore_should_deadlock(2, 0));
}

#[test]
fn semaphore_registered_late_reaches_known_threads() {
    let mut d = enabled();
    d.register_semaphore(0, 2);
    d.on_semaphore_down_granted(1, 0);
    d.register_semaphore(2, 0);
    // semaphore 2 has no units; thread 1 holds one unit of semaphore 0 only
    assert!(d.semaphore_should_deadlock(1, 2));
    d.register_semaphore(2, 1);
    assert!(!d.semaphore_should_deadlock(1, 2));
}

#[test]
fn semaphore_counters_reported() {
    let mut d = enabled();
    d.register_semaphore(0, 2);
    assert_eq!(d.semaphore_count(), 1);
    assert_eq!(d.free_units(0), 2);
    assert_eq!(d.sem_counters(5, 0), (0, 0));
    d.on_semaphore_down_granted(5, 0);
    assert_eq!(d.free_units(0), 1);
    assert_eq!(d.sem_counters(5, 0), (1, 0));
    d.on_semaphore_blocked(6, 0);
    assert_eq!(d.sem_counters(6, 0), (0, 1));
    d.on_semaphore_up(5, 0, Some(6));
    assert_eq!(d.sem_counters(5, 0), (0, 0));
    assert_eq!(d.sem_counters(6, 0), (1, 0));
    assert_eq!(d.free_units(0), 1);
    // a check that is let through leaves the counters as they were
    assert!(!d.semaphore_should_deadlock(7, 0));
    assert_eq!(d.sem_counters(7, 0), (0, 0));
}

#[test]
fn more_free_units_keep_a_safe_state_safe() {
    // thread 1 holds the only unit of semaphore 0 and thread 2 waits for it;
    // thread 3 waiting too is safe, since thread 1 can finish and release
    let mut d = enabled();
    d.register_semaphore(0, 1);
    d.on_semaphore_down_granted(1, 0);
    d.on_semaphore_blocked(2, 0);
    assert!(!d.semaphore_should_deadlock(3, 0));
    assert!(d.semaphore_should_deadlock(1, 0));
    // with a unit more of semaphore 0 the answers can only get better
    d.register_semaphore(0, 1);
    assert!(!d.semaphore_should_deadlock(3, 0));
    assert!(!d.semaphore_should_deadlock(1, 0));
}

#[test]
fn banker_check_direct() {
    let mut d = enabled();
    assert!(d.semaphore_safe());
    d.register_semaphore(0, 1);
    d.on_semaphore_down_granted(1, 0);
    d.on_semaphore_blocked(2, 0);
    // thread 1 needs nothing more, finishes and frees the unit for thread 2
    assert!(d.semaphore_safe());
    d.on_semaphore_blocked(1, 0);
    // now thread 1 waits for the unit it holds: nobody can finish
    assert!(!d.semaphore_safe());
    d.register_semaphore(0, 1);
    assert!(d.semaphore_safe());
}
