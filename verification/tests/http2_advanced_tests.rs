use tproxy::http2_advanced::{
    parse_settings_pairs, FlowController, HeaderOrderPreserver, Http2Settings, PriorityTree,
    StreamPriority, INITIAL_WINDOW_SIZE,
};

#[test]
fn test_settings_frame() {
    let settings = Http2Settings::ios_safari();
    let frame = settings.to_frame();
    assert_eq!(frame[3], 0x04);
    assert!(frame.len() > 9);
}

#[test]
fn test_flow_controller() {
    let mut fc = FlowController::new(INITIAL_WINDOW_SIZE);
    fc.create_stream(1, INITIAL_WINDOW_SIZE);
    assert!(fc.consume_window(1, 1000).unwrap());
    assert_eq!(fc.connection_window, INITIAL_WINDOW_SIZE - 1000);
}

#[test]
fn test_priority_tree() {
    let tree = PriorityTree::ios_safari_defaults();
    let priority = tree.get_priority(3).unwrap();
    assert_eq!(priority.weight, 200);
}

#[test]
fn test_header_order() {
    let preserver = HeaderOrderPreserver::ios_safari();
    let mut headers = vec![
        ("user-agent".to_string(), "Safari".to_string()),
        (":method".to_string(), "GET".to_string()),
        ("accept".to_string(), "*/*".to_string()),
    ];
    preserver.sort_headers(&mut headers);
    assert_eq!(headers[0].0, ":method");
    assert_eq!(headers[1].0, "accept");
}

#[test]
fn settings_pairs_roundtrip() {
    let settings = Http2Settings::ios_safari();
    let frame = settings.to_frame();
    let pairs = parse_settings_pairs(&frame[9..]);
    assert_eq!(
        pairs,
        vec![(1, 65536), (4, 1048576), (5, 16384)]
    );
}

#[test]
fn backpressure_refills_to_initial() {
    let mut fc = FlowController::new(INITIAL_WINDOW_SIZE);
    fc.create_stream(1, INITIAL_WINDOW_SIZE);
    assert!(fc.record_received(1, 600000));
    fc.check_and_queue_updates();
    let mut conn_sum: u64 = 0;
    let mut stream_sum: u64 = 0;
    while let Some((id, inc)) = fc.pop_window_update() {
        if id == 0 {
            conn_sum += inc as u64;
        } else {
            assert_eq!(id, 1);
            stream_sum += inc as u64;
        }
    }
    assert_eq!(conn_sum, 600000);
    assert_eq!(stream_sum, 600000);
}

#[test]
fn oversized_data_refused() {
    let mut fc = FlowController::new(INITIAL_WINDOW_SIZE);
    fc.create_stream(1, INITIAL_WINDOW_SIZE);
    assert!(!fc.record_received(1, INITIAL_WINDOW_SIZE + 1));
}

#[test]
fn priority_cycle_collapses_to_root() {
    let mut tree = PriorityTree::new();
    tree.add_stream(3, StreamPriority { depends_on: 5, weight: 10, exclusive: false });
    tree.add_stream(5, StreamPriority { depends_on: 3, weight: 10, exclusive: false });
    // 7 depending on 7 through itself is a cycle and reparents to root.
    tree.update_priority(7, StreamPriority { depends_on: 7, weight: 42, exclusive: true });
    let p = tree.get_priority(7).unwrap();
    assert_eq!(p.depends_on, 0);
    assert_eq!(p.weight, 42);
    assert!(p.exclusive);
}

#[test]
fn send_window_saturates() {
    let mut fc = FlowController::new(0x7ffffff0);
    fc.update_window(0, 0x100);
    assert_eq!(fc.connection_window, 0x7fffffff);
}
