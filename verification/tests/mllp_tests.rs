use hl7_forge::mllp::{
    extract_mllp_frame, find_frame, process_frame, wrap_mllp, Connection, MllpStats, MLLP_END_1,
    MLLP_END_2, MLLP_START,
};

#[test]
fn test_extract_mllp_frame() {
    let msg = "MSH|^~\\&|TEST\rPID|||123";
    let mut frame = vec![MLLP_START];
    frame.extend_from_slice(msg.as_bytes());
    frame.push(MLLP_END_1);
    frame.push(MLLP_END_2);

    let (extracted, consumed) = extract_mllp_frame(&frame).unwrap();
    assert_eq!(extracted, msg);
    assert_eq!(consumed, frame.len());
}

#[test]
fn test_incomplete_frame() {
    let frame = vec![MLLP_START, b'M', b'S', b'H'];
    assert!(extract_mllp_frame(&frame).is_none());
}

#[test]
fn test_wrap_mllp() {
    let wrapped = wrap_mllp("TEST");
    assert_eq!(wrapped[0], MLLP_START);
    assert_eq!(wrapped[wrapped.len() - 2], MLLP_END_1);
    assert_eq!(wrapped[wrapped.len() - 1], MLLP_END_2);
}

#[test]
fn wrap_gives_the_exact_frame() {
    assert_eq!(wrap_mllp("TEST"), vec![0x0B, b'T', b'E', b'S', b'T', 0x1C, 0x0D]);
    assert_eq!(wrap_mllp(""), vec![0x0B, 0x1C, 0x0D]);
}

#[test]
fn bytes_before_the_frame_are_consumed_with_it() {
    let buf = vec![b'x', b'y', 0x0B, b'A', b'B', 0x1C, 0x0D, b'z'];
    assert_eq!(find_frame(&buf), Some((2, 5)));
    let (text, consumed) = extract_mllp_frame(&buf).unwrap();
    assert_eq!(text, "AB");
    assert_eq!(consumed, 7);
}

#[test]
fn a_lone_file_separator_does_not_end_a_frame() {
    let buf = vec![0x0B, b'A', 0x1C, b'B', 0x1C, 0x0D];
    let (text, consumed) = extract_mllp_frame(&buf).unwrap();
    assert_eq!(text, "A\u{1c}B");
    assert_eq!(consumed, 6);
    assert_eq!(find_frame(&[0x0B, b'A', 0x1C]), None);
    assert_eq!(find_frame(&[b'A', 0x1C, 0x0D]), None);
    assert_eq!(find_frame(&[]), None);
}

#[test]
fn invalid_utf8_is_replaced() {
    let buf = vec![0x0B, b'A', 0xFF, b'B', 0x1C, 0x0D];
    let (text, consumed) = extract_mllp_frame(&buf).unwrap();
    assert_eq!(text, "A\u{FFFD}B");
    assert_eq!(consumed, 6);
}

#[test]
fn unwrapping_a_wrapped_text_gives_it_back() {
    let text = "MSH|^~\\&|A\rPID|||Zo\u{eb}";
    let frame = wrap_mllp(text);
    let (back, consumed) = extract_mllp_frame(&frame).unwrap();
    assert_eq!(back, text);
    assert_eq!(consumed, frame.len());
}

#[test]
fn every_proper_prefix_of_a_frame_is_incomplete() {
    let frame = wrap_mllp("MSH|^~\\&|A\rPID");
    for k in 0..frame.len() {
        assert!(extract_mllp_frame(&frame[..k]).is_none());
    }
    assert!(extract_mllp_frame(&frame).is_some());
}

#[test]
fn split_framing_gives_one_message() {
    let mut stream = vec![0x0Bu8];
    stream.extend_from_slice(b"MSH|^~\\&|A\rPID");
    stream.push(0x1C);
    stream.push(0x0D);
    let mut conn = Connection::new(1024);
    let mut stats = MllpStats::new();
    let mut replies = 0;
    let mut stored = 0;
    for chunk in stream.chunks(3) {
        assert!(conn.receive(chunk));
        while let Some(payload) = conn.next_frame() {
            let out = process_frame(&payload, "10.0.0.1:4000", &mut stats);
            assert_eq!(out.reply[0], MLLP_START);
            replies += 1;
            if out.message.is_some() {
                stored += 1;
            }
        }
    }
    assert_eq!(stats.received, 1);
    assert_eq!(stats.parsed_ok, 1);
    assert_eq!(stats.parse_errors, 0);
    assert_eq!(replies, 1);
    assert_eq!(stored, 1);
    assert!(conn.is_idle());
}

#[test]
fn malformed_message_gets_the_default_nack() {
    let mut conn = Connection::new(1024);
    let mut stats = MllpStats::new();
    assert!(conn.receive(&[0x0B, b'J', b'U', b'N', b'K', 0x1C, 0x0D]));
    let payload = conn.next_frame().unwrap();
    assert_eq!(payload, "JUNK");
    let out = process_frame(&payload, "10.0.0.1:4000", &mut stats);
    assert_eq!(stats.received, 1);
    assert_eq!(stats.parse_errors, 1);
    assert_eq!(stats.parsed_ok, 0);
    assert!(out.message.is_none());
    let expected =
        wrap_mllp("MSH|^~\\&|HL7Forge|HL7Forge|||||ACK||P|2.5\rMSA|AE|UNKNOWN|Message parse error");
    assert_eq!(out.reply, expected);
    let text = String::from_utf8(out.reply[1..out.reply.len() - 2].to_vec()).unwrap();
    assert!(text.contains("MSA|AE|UNKNOWN|"));
    assert!(conn.next_frame().is_none());
    assert!(conn.is_idle());
    assert!(conn.receive(&[0x0B]));
    assert!(!conn.is_idle());
}

#[test]
fn a_connection_over_its_limit_may_not_go_on() {
    let mut conn = Connection::new(4);
    assert!(conn.receive(&[1, 2, 3, 4]));
    assert!(!conn.receive(&[5]));
}

#[test]
fn two_frames_in_one_read_come_out_in_order() {
    let mut conn = Connection::new(1024);
    let mut bytes = wrap_mllp("ONE");
    bytes.extend_from_slice(&wrap_mllp("TWO"));
    bytes.push(0x0B);
    bytes.push(b'T');
    assert!(conn.receive(&bytes));
    assert_eq!(conn.next_frame(), Some("ONE".to_string()));
    assert_eq!(conn.next_frame(), Some("TWO".to_string()));
    assert_eq!(conn.next_frame(), None);
    assert!(!conn.is_idle());
}

#[test]
fn counters_start_at_zero() {
    let stats = MllpStats::new();
    assert_eq!(stats.received, 0);
    assert_eq!(stats.parsed_ok, 0);
    assert_eq!(stats.parse_errors, 0);
    assert_eq!(stats.active_connections, 0);
}

#[test]
fn a_full_counter_starts_over() {
    let mut stats = MllpStats::new();
    stats.received = u64::MAX;
    let _ = process_frame("JUNK", "peer", &mut stats);
    assert_eq!(stats.received, 0);
    assert_eq!(stats.parse_errors, 1);
}

#[test]
fn rewrapping_gives_the_buffer_back_only_for_a_lone_frame() {
    let lone = vec![0x0B, b'A', b'B', 0x1C, 0x0D];
    let (text, consumed) = extract_mllp_frame(&lone).unwrap();
    assert_eq!(consumed, lone.len());
    assert_eq!(wrap_mllp(&text), lone);

    let led = vec![b'x', 0x0B, b'A', b'B', 0x1C, 0x0D];
    let (text, _) = extract_mllp_frame(&led).unwrap();
    assert_ne!(wrap_mllp(&text), led);

    let trailed = vec![0x0B, b'A', b'B', 0x1C, 0x0D, b'y'];
    let (text, consumed) = extract_mllp_frame(&trailed).unwrap();
    assert_eq!(consumed, 5);
    assert_ne!(wrap_mllp(&text), trailed);

    let two = vec![0x0B, b'A', 0x1C, 0x0D, 0x0B, b'B', 0x1C, 0x0D];
    let (text, consumed) = extract_mllp_frame(&two).unwrap();
    assert_eq!(text, "A");
    assert_eq!(consumed, 4);
    assert_ne!(wrap_mllp(&text), two);
}

#[test]
fn a_frame_cut_anywhere_is_extracted_once() {
    let frame = wrap_mllp("MSH|^~\\&|A|B\rPID|||1");
    for k in 0..=frame.len() {
        let mut conn = Connection::new(1024);
        assert!(conn.receive(&frame[..k]));
        let first = conn.next_frame();
        assert!(conn.receive(&frame[k..]));
        let second = conn.next_frame();
        let third = conn.next_frame();
        if k == frame.len() {
            assert_eq!(first, Some("MSH|^~\\&|A|B\rPID|||1".to_string()));
            assert_eq!(second, None);
        } else {
            assert_eq!(first, None);
            assert_eq!(second, Some("MSH|^~\\&|A|B\rPID|||1".to_string()));
        }
        assert_eq!(third, None);
        assert!(conn.is_idle());
    }
}
