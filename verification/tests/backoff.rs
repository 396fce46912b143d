use crossync::base::backoff::{Backoff, Pause};

#[test]
fn a_wait_spins_then_yields_then_completes() {
    let mut backoff = Backoff::new(2);
    for step in 0..=6u32 {
        assert_eq!(backoff.is_yielding(), step >= 6);
        assert!(!backoff.is_completed());
        assert_eq!(backoff.snooze(), Pause::Spun(1 << step));
    }
    assert!(!backoff.is_completed());
    assert_eq!(backoff.snooze(), Pause::Yield);
    assert!(!backoff.is_completed());
    assert_eq!(backoff.snooze(), Pause::Yield);
    assert!(backoff.is_completed());
    assert_eq!(backoff.snooze(), Pause::Yield);
    assert!(backoff.is_completed());
    backoff.reset();
    assert!(!backoff.is_completed());
    assert_eq!(backoff.snooze(), Pause::Spun(1));
}

#[test]
fn the_limits_follow_the_number_of_processors() {
    for (processors, steps) in [(1, 9), (2, 9), (3, 13), (8, 13), (9, 17), (32, 17), (33, 23), (0, 23)] {
        let mut backoff = Backoff::new(processors);
        let mut taken = 0;
        while !backoff.is_completed() {
            backoff.snooze();
            taken += 1;
        }
        assert_eq!(taken, steps);
    }
}

#[test]
fn a_spin_never_yields() {
    let mut backoff = Backoff::new(4);
    let hints: Vec<usize> = (0..12).map(|_| backoff.spin()).collect();
    assert_eq!(hints, vec![1, 2, 4, 8, 16, 32, 64, 128, 256, 256, 256, 256]);
    assert!(!backoff.is_completed());
    assert!(backoff.is_yielding());
}

#[test]
fn the_spinning_steps_can_be_skipped() {
    let mut backoff = Backoff::new(4);
    backoff.yielder();
    assert_eq!(backoff.snooze(), Pause::Yield);
}

#[test]
fn a_counted_wait_keeps_no_state() {
    assert_eq!(Backoff::cpu_relax(0), Pause::Spun(2));
    assert_eq!(Backoff::cpu_relax(1), Pause::Spun(4));
    assert_eq!(Backoff::cpu_relax(2), Pause::Spun(8));
    assert_eq!(Backoff::cpu_relax(3), Pause::Yield);
    assert_eq!(Backoff::cpu_relax(9), Pause::Yield);
    assert_eq!(Backoff::cpu_relax(10), Pause::Idle);
    assert_eq!(Backoff::cpu_relax(u32::MAX), Pause::Idle);
}
