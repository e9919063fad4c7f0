use mfsk::station::grid_state::{
    GridAction, GridState, ACQUIRE_TRIGGER_SLOTS, LOCK_MIN_DECODES, REACQUIRE_TRIGGER_SLOTS,
};

#[test]
fn an_unplaced_grid_acquires_on_its_first_empty_slot() {
    let mut g = GridState::new_unplaced();
    assert!(matches!(g.observe(0), GridAction::Acquire { .. }));
}

#[test]
fn an_unplaced_grid_still_locks_if_the_first_slot_is_good() {
    let mut g = GridState::new_unplaced();
    assert_eq!(
        g.observe_with_phase(6, Some(20_000)),
        GridAction::Lock { n_dec: 6 }
    );
}

#[test]
fn a_grid_that_decodes_but_is_off_centre_neither_locks_nor_holds() {
    let mut g = GridState::new();
    assert!(!g.is_locked(), "an off-centre grid must not lock");
    assert!(matches!(
        g.observe_with_phase(6, Some(-680_000)),
        GridAction::Acquire { .. }
    ));
}

#[test]
fn the_same_count_locks_once_the_phase_is_centred() {
    let mut g = GridState::new();
    assert_eq!(
        g.observe_with_phase(6, Some(-50_000)),
        GridAction::Lock { n_dec: 6 }
    );
    assert!(g.is_locked());
}

#[test]
fn one_decode_a_slot_is_not_a_lock_and_still_reaches_acquisition() {
    let mut g = GridState::new();
    assert!(!g.is_locked(), "one decode a slot must not lock the grid");
    assert_eq!(
        g.observe(1),
        GridAction::Acquire {
            slots: ACQUIRE_TRIGGER_SLOTS,
            relock: false
        }
    );
}

#[test]
fn an_under_par_run_always_terminates_in_acquisition() {
    for n in 0..LOCK_MIN_DECODES {
        let mut g = GridState::new();
        let mut fired = false;
        for _ in 0..ACQUIRE_TRIGGER_SLOTS * 4 {
            if matches!(g.observe(n), GridAction::Acquire { .. }) {
                fired = true;
                break;
            }
        }
        assert!(fired, "n_dec={n} never reached acquisition");
    }
}

#[test]
fn a_real_lock_holds_and_does_not_re_acquire_on_a_quiet_slot() {
    let mut g = GridState::new();
    assert_eq!(g.observe(8), GridAction::Lock { n_dec: 8 });
    assert!(g.is_locked());
    for _ in 0..20 {
        assert_eq!(g.observe(1), GridAction::Hold);
    }
    assert!(g.is_locked());
}

#[test]
fn a_locked_grid_that_goes_silent_re_acquires_and_drops_the_lock() {
    let mut g = GridState::new();
    g.observe(8);
    for _ in 0..REACQUIRE_TRIGGER_SLOTS - 1 {
        assert_eq!(g.observe(0), GridAction::Hold);
    }
    assert_eq!(
        g.observe(0),
        GridAction::Acquire {
            slots: REACQUIRE_TRIGGER_SLOTS,
            relock: true
        }
    );
    assert!(!g.is_locked(), "the lock is given up while re-acquiring");
}

#[test]
fn a_lock_buys_a_longer_leash() {
    let mut cold = GridState::new();
    let mut warm = GridState::new();
    warm.observe(8);
    let mut cold_at = None;
    let mut warm_at = None;
    for i in 1..=REACQUIRE_TRIGGER_SLOTS {
        if matches!(cold.observe(0), GridAction::Acquire { .. }) && cold_at.is_none() {
            cold_at = Some(i);
        }
        if matches!(warm.observe(0), GridAction::Acquire { .. }) && warm_at.is_none() {
            warm_at = Some(i);
        }
    }
    assert_eq!(cold_at, Some(ACQUIRE_TRIGGER_SLOTS));
    assert_eq!(warm_at, Some(REACQUIRE_TRIGGER_SLOTS));
    assert!(warm_at > cold_at);
}

#[test]
fn no_second_acquisition_while_one_is_in_flight() {
    let mut g = GridState::new();
    for _ in 0..ACQUIRE_TRIGGER_SLOTS {
        g.observe(0);
    }
    assert!(g.is_acquiring());
    for _ in 0..10 {
        assert_eq!(g.observe(0), GridAction::Hold);
    }
    g.acquisition_done(false);
    assert_eq!(
        g.observe(0),
        GridAction::Acquire {
            slots: ACQUIRE_TRIGGER_SLOTS + 11,
            relock: false
        }
    );
}

#[test]
fn an_applied_acquisition_resets_the_run() {
    let mut g = GridState::new();
    for _ in 0..ACQUIRE_TRIGGER_SLOTS {
        g.observe(0);
    }
    g.acquisition_done(true);
    assert_eq!(g.lost_slots(), 0);
    assert!(matches!(g.observe(0), GridAction::Acquire { .. }));
}

#[test]
fn a_signal_less_slot_does_not_reach_acquisition() {
    let mut g = GridState::new();
    for _ in 0..10 {
        assert_eq!(
            g.observe_slot(0, None, false),
            GridAction::Hold,
            "a quiet band must not trigger a capture that cannot succeed"
        );
    }
    assert_eq!(g.lost_slots(), 0);
    assert!(matches!(
        g.observe_slot(0, None, true),
        GridAction::Acquire { .. }
    ));
}

#[test]
fn the_hardware_recovery_sequence() {
    let mut g = GridState::new();
    assert!(matches!(g.observe(1), GridAction::Acquire { .. }));
    g.acquisition_done(true);
    assert!(matches!(g.observe(0), GridAction::Acquire { .. }));
    g.acquisition_done(true);
    assert_eq!(g.observe(5), GridAction::Lock { n_dec: 5 });
    assert!(g.is_locked());
}
