use tproxy::state::{ConnectionStateManager, SessionState, StateManager, TcpState};

#[test]
fn test_tcp_state() {
    let mut state = TcpState::new(1000, 2000, 65535);
    assert_eq!(state.seq, 1000);
    assert_eq!(state.ack, 2000);
    state.update(1100, 2100, 65535);
    assert_eq!(state.seq, 1100);
    assert_eq!(state.ack, 2100);
}

#[test]
fn test_session_state() {
    let mut session = SessionState::new("session123".to_string());
    session.add_cookie("example.com".to_string(), "cookie1=value1".to_string());
    let cookies = session.get_cookies("example.com");
    assert_eq!(cookies.len(), 1);
}

#[test]
fn test_state_manager() {
    let mut manager = StateManager::new();
    let state = TcpState::new(1000, 2000, 65535);
    manager.store_tcp_state("conn1".to_string(), state);
    let retrieved = manager.get_tcp_state("conn1");
    assert!(retrieved.is_some());
    assert_eq!(retrieved.unwrap().seq, 1000);
}

#[test]
fn test_connection_state_manager() {
    let mut manager = ConnectionStateManager::new();
    let id1 = manager.create_connection();
    let id2 = manager.create_connection();
    assert_ne!(id1, id2);
    assert_eq!(manager.get_active_count(), 2);
    manager.remove_connection(id1);
    assert_eq!(manager.get_active_count(), 1);
}

#[test]
fn named_cookies_survive_the_filter() {
    let mut manager = StateManager::new();
    manager.store_cookie("d.example".to_string(), "a=1".to_string());
    manager.store_cookie("d.example".to_string(), "".to_string());
    let kept = manager.get_cookies("d.example");
    assert_eq!(kept, vec!["a=1".to_string()]);
}
