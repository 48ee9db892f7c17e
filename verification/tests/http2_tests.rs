use tproxy::http2::{Http2Frame, Http2Handler, FrameError};

#[test]
fn test_frame_parse() {
    let data = vec![0, 0, 4, 0x04, 0, 0, 0, 0, 0, 1, 2, 3, 4];
    let frame = Http2Frame::parse(&data).unwrap();
    assert_eq!(frame.length, 4);
    assert_eq!(frame.frame_type, 0x04);
    assert_eq!(frame.stream_id, 0);
}

#[test]
fn test_http2_handler_creation() {
    let handler = Http2Handler::new_ios_safari();
    assert_eq!(handler.settings.initial_window_size, 1048576);
    assert_eq!(handler.settings.max_frame_size, 16384);
}

#[test]
fn frame_roundtrip() {
    let frame = Http2Frame {
        length: 3,
        frame_type: 0,
        flags: 1,
        stream_id: 5,
        payload: vec![9, 8, 7],
    };
    let bytes = frame.serialize();
    let back = Http2Frame::parse(&bytes).unwrap();
    assert_eq!(back.length, 3);
    assert_eq!(back.frame_type, 0);
    assert_eq!(back.flags, 1);
    assert_eq!(back.stream_id, 5);
    assert_eq!(back.payload, vec![9, 8, 7]);
}

#[test]
fn empty_frame_roundtrip() {
    let frame = Http2Frame {
        length: 0,
        frame_type: 0x04,
        flags: 0,
        stream_id: 0,
        payload: vec![],
    };
    let bytes = frame.serialize();
    assert_eq!(bytes.len(), 9);
    let back = Http2Frame::parse(&bytes).unwrap();
    assert_eq!(back.length, 0);
    assert_eq!(back.payload.len(), 0);
}

#[test]
fn short_frame_refused() {
    match Http2Frame::parse(&[0, 0, 4, 0, 0]) {
        Err(e) => assert_eq!(e, FrameError::TooShort),
        Ok(_) => panic!("parsed a truncated header"),
    }
    // Declared payload longer than the buffer.
    match Http2Frame::parse(&[0, 0, 4, 0, 0, 0, 0, 0, 1, 9]) {
        Err(e) => assert_eq!(e, FrameError::TooShort),
        Ok(_) => panic!("parsed past the buffer"),
    }
}

#[test]
fn ping_echo() {
    let mut handler = Http2Handler::new_ios_safari();
    handler.preface_received = true;
    let ping = vec![
        0, 0, 8, 6, 0, 0, 0, 0, 0, 0x11, 0x22, 0x33, 0x44, 0x55, 0x66, 0x77, 0x88,
    ];
    let resp = handler.handle_incoming_frame(&ping).unwrap();
    let expected = vec![
        0, 0, 8, 6, 1, 0, 0, 0, 0, 0x11, 0x22, 0x33, 0x44, 0x55, 0x66, 0x77, 0x88,
    ];
    assert_eq!(resp, expected);
}

#[test]
fn settings_answered_with_ack() {
    let mut handler = Http2Handler::new_ios_safari();
    // SETTINGS with initial_window_size = 65535.
    let mut frame = vec![0, 0, 6, 4, 0, 0, 0, 0, 0];
    frame.extend_from_slice(&4u16.to_be_bytes());
    frame.extend_from_slice(&65535u32.to_be_bytes());
    handler.preface_received = true;
    let resp = handler.handle_incoming_frame(&frame).unwrap();
    assert_eq!(resp, vec![0, 0, 0, 4, 1, 0, 0, 0, 0]);
    assert_eq!(handler.get_remote_settings().unwrap().initial_window_size, 65535);
}

#[test]
fn preface_consumed() {
    let mut handler = Http2Handler::new_ios_safari();
    let preface = b"PRI * HTTP/2.0\r\n\r\nSM\r\n\r\n".to_vec();
    let resp = handler.handle_incoming_frame(&preface).unwrap();
    assert!(resp.is_empty());
    assert!(handler.preface_received);
}

#[test]
fn preface_and_settings_lead_the_stream() {
    let mut handler = Http2Handler::new_ios_safari();
    let out = handler.build_connection_preface();
    assert_eq!(&out[..24], b"PRI * HTTP/2.0\r\n\r\nSM\r\n\r\n");
    assert_eq!(out[27], 0x04);
    assert!(handler.preface_sent);
}

#[test]
fn stream_ids_are_odd_and_grow_by_two() {
    let mut handler = Http2Handler::new_ios_safari();
    assert_eq!(handler.get_next_stream_id(), 1);
    assert_eq!(handler.get_next_stream_id(), 3);
}

#[test]
fn goaway_frame_bytes() {
    let handler = Http2Handler::new_ios_safari();
    let frame = handler.build_goaway_frame(7, 3);
    assert_eq!(frame[3], 0x07);
    assert_eq!(&frame[9..13], &7u32.to_be_bytes());
    assert_eq!(&frame[13..17], &3u32.to_be_bytes());
}

#[test]
fn window_update_frame_bytes() {
    let handler = Http2Handler::new_ios_safari();
    let frame = handler.build_window_update_frame(1, 600000);
    assert_eq!(frame[3], 0x08);
    assert_eq!(&frame[5..9], &1u32.to_be_bytes());
    assert_eq!(&frame[9..13], &600000u32.to_be_bytes());
}

#[test]
fn zero_increment_window_update_is_a_protocol_error() {
    let mut handler = Http2Handler::new_ios_safari();
    handler.preface_received = true;
    // Stream-scope zero increment: RST_STREAM with PROTOCOL_ERROR.
    let mut frame = vec![0, 0, 4, 8, 0, 0, 0, 0, 1];
    frame.extend_from_slice(&0u32.to_be_bytes());
    let resp = handler.handle_incoming_frame(&frame).unwrap();
    let mut expected = vec![0, 0, 4, 3, 0, 0, 0, 0, 1];
    expected.extend_from_slice(&1u32.to_be_bytes());
    assert_eq!(resp, expected);
    // Connection-scope zero increment: GOAWAY with PROTOCOL_ERROR.
    let mut frame2 = vec![0, 0, 4, 8, 0, 0, 0, 0, 0];
    frame2.extend_from_slice(&0u32.to_be_bytes());
    let resp2 = handler.handle_incoming_frame(&frame2).unwrap();
    assert_eq!(resp2[3], 0x07);
    assert_eq!(&resp2[13..17], &1u32.to_be_bytes());
}

#[test]
fn oversized_data_answered_with_goaway() {
    let mut handler = Http2Handler::new_ios_safari();
    // DATA on an untracked stream is dropped silently.
    let stray = vec![0, 0, 3, 0, 0, 0, 0, 0, 7, 1, 2, 3];
    let resp = handler.process_frame(&Http2Frame::parse(&stray).unwrap());
    assert!(resp.is_empty());
    // DATA beyond the receive window of a tracked stream is a violation.
    handler.create_stream(1).unwrap();
    let oversized = Http2Frame {
        length: 2097152,
        frame_type: 0,
        flags: 0,
        stream_id: 1,
        payload: vec![],
    };
    let resp2 = handler.process_frame(&oversized);
    assert_eq!(resp2[3], 0x07);
    assert_eq!(&resp2[13..17], &3u32.to_be_bytes());
}

#[test]
fn header_block_is_hpack_literals_in_order() {
    let mut handler = Http2Handler::new_ios_safari();
    let headers = vec![
        ("user-agent".to_string(), "safari".to_string()),
        (":method".to_string(), "GET".to_string()),
    ];
    let frame = handler.build_headers_frame(1, headers, true);
    assert_eq!(frame[3], 0x01);
    assert_eq!(frame[4], 0x05);
    // First literal is :method.
    assert_eq!(frame[9], 0x40);
    assert_eq!(frame[10] as usize, ":method".len());
    assert_eq!(&frame[11..18], b":method");
}

#[test]
fn later_settings_pair_overrides_earlier() {
    let mut handler = Http2Handler::new_ios_safari();
    handler.preface_received = true;
    // initial_window_size twice and an unknown identifier: the last value
    // per known identifier wins, the unknown one is ignored.
    let mut frame = vec![0, 0, 18, 4, 0, 0, 0, 0, 0];
    frame.extend_from_slice(&4u16.to_be_bytes());
    frame.extend_from_slice(&1000u32.to_be_bytes());
    frame.extend_from_slice(&0x99u16.to_be_bytes());
    frame.extend_from_slice(&7u32.to_be_bytes());
    frame.extend_from_slice(&4u16.to_be_bytes());
    frame.extend_from_slice(&2000u32.to_be_bytes());
    let resp = handler.handle_incoming_frame(&frame).unwrap();
    assert_eq!(resp, vec![0, 0, 0, 4, 1, 0, 0, 0, 0]);
    let remote = handler.get_remote_settings().unwrap();
    assert_eq!(remote.initial_window_size, 2000);
}
