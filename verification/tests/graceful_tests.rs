use tproxy::graceful::{ConnectionRecovery, ConnectionState, GracefulShutdown, RetryStep};

#[test]
fn test_graceful_shutdown() {
    let mut gs = GracefulShutdown::new();
    gs.register_connection(1);
    gs.register_connection(2);
    assert_eq!(gs.get_active_connections(), 2);
    gs.unregister_connection(1);
    assert_eq!(gs.get_active_connections(), 1);
}

#[test]
fn test_connection_state() {
    let mut state = ConnectionState::new(1);
    assert!(!state.is_idle(10000));
    assert!(state.should_retry());
    state.increment_retry();
    state.increment_retry();
    state.increment_retry();
    assert!(!state.should_retry());
}

#[test]
fn test_connection_recovery() {
    // An operation that fails twice succeeds on the third attempt.
    let recovery = ConnectionRecovery::new();
    let mut attempt: u32 = 0;
    let mut result = false;
    loop {
        attempt += 1;
        let success = attempt >= 3;
        if success {
            result = true;
            break;
        }
        match recovery.next_step(attempt - 1) {
            RetryStep::SleepThenRetry(_) => continue,
            RetryStep::GiveUp => break,
        }
    }
    assert!(result);
    assert_eq!(attempt, 3);
}

#[test]
fn always_failing_operation_runs_three_times() {
    let recovery = ConnectionRecovery::new();
    let mut attempts: u32 = 0;
    let mut sleeps: Vec<u64> = Vec::new();
    loop {
        attempts += 1;
        // The operation always fails.
        match recovery.next_step(attempts - 1) {
            RetryStep::SleepThenRetry(ms) => sleeps.push(ms),
            RetryStep::GiveUp => break,
        }
    }
    assert_eq!(attempts, 3);
    assert_eq!(sleeps, vec![100, 200]);
}

#[test]
fn drain_empties_the_registry() {
    let mut gs = GracefulShutdown::new();
    gs.register_connection(1);
    gs.register_connection(2);
    gs.initiate_shutdown();
    assert!(gs.is_shutting_down());
    gs.begin_drain();
    gs.finish_drain();
    assert_eq!(gs.get_active_connections(), 0);
}

#[test]
fn idle_sweep_keeps_active_and_closing() {
    let mut gs = GracefulShutdown::new();
    gs.register_connection(1);
    gs.register_connection(2);
    // Age both records far into the past, mark one as closing.
    gs.connections[0].last_activity = 0;
    gs.connections[1].last_activity = 0;
    gs.connections[1].is_closing = true;
    gs.cleanup_idle_connections(300000);
    assert_eq!(gs.get_active_connections(), 1);
    assert!(gs.connections[0].is_closing);
}
