use docker_hostmanager::debounce::{
    compute_write_times, step, DebounceAction, DebounceInput, DebounceState,
};

#[test]
fn test_debounce_delays_write() {
    // One signal at t = 0 with a 100 ms window: nothing has been written by
    // t = 30, and exactly one write stands at t = 100 (so it is there by
    // t = 150).
    let writes = compute_write_times(&vec![0], 100);
    assert!(
        writes.iter().all(|&w| w > 30),
        "file written before debounce window expired"
    );
    assert_eq!(
        writes,
        vec![100],
        "file not written after debounce window"
    );
}

#[test]
fn test_debounce_resets_on_new_event() {
    // Signals at t = 0 and t = 60 with a 100 ms window: the second signal
    // resets the timer, so nothing is written at t = 100 or t = 120, and the
    // single write stands at t = 160.
    let writes = compute_write_times(&vec![0, 60], 100);
    assert!(
        writes.iter().all(|&w| w > 100),
        "file written before first debounce expired"
    );
    assert!(
        writes.iter().all(|&w| w > 120),
        "file written before reset debounce expired"
    );
    assert_eq!(
        writes,
        vec![160],
        "file not written after reset debounce expired"
    );
}

#[test]
fn test_idle_after_write_no_spurious_updates() {
    // One signal with a 50 ms window produces exactly one write, and the
    // machine is idle afterwards: a later timer expiry without a new signal
    // writes nothing.
    let writes = compute_write_times(&vec![0], 50);
    assert_eq!(writes, vec![50]);

    let (state, action) = step(DebounceState::Pending, DebounceInput::Elapsed);
    assert_eq!(state, DebounceState::Idle);
    assert_eq!(action, DebounceAction::Write);
    let (state, action) = step(state, DebounceInput::Elapsed);
    assert_eq!(state, DebounceState::Idle);
    assert_eq!(action, DebounceAction::Nothing);
}

#[test]
fn test_debounce_coalesces_many_signals() {
    // Five signals inside one another's windows collapse to one write, one
    // window after the last signal.
    let writes = compute_write_times(&vec![0, 10, 20, 30, 40], 100);
    assert_eq!(writes, vec![140]);
}

#[test]
fn test_debounce_separate_quiet_periods() {
    // A gap at least as long as the window separates two quiescent periods,
    // each with its own write.
    let writes = compute_write_times(&vec![0, 200], 100);
    assert_eq!(writes, vec![100, 300]);
}

#[test]
fn test_debounce_signal_restarts_timer() {
    let (state, action) = step(DebounceState::Idle, DebounceInput::Signal);
    assert_eq!(state, DebounceState::Pending);
    assert_eq!(action, DebounceAction::StartTimer);
    let (state, action) = step(state, DebounceInput::Signal);
    assert_eq!(state, DebounceState::Pending);
    assert_eq!(action, DebounceAction::StartTimer);
}
