use tinymqtt::{MqttClient, MqttError, MqttState};

const CONNACK_OK: [u8; 4] = [0x20, 0x02, 0x00, 0x00];
const CONNACK_REFUSED: [u8; 4] = [0x20, 0x02, 0x00, 0x80];
const PUBLISH_T_HI: [u8; 8] = [0x30, 0x06, 0x00, 0x01, b't', 0x00, b'h', b'i'];

fn state_of<const N: usize>(client: &mut MqttClient<N>) -> MqttState {
    client.receive_packet(&[], |_, _, _| {}).unwrap()
}

fn connected<const N: usize>() -> MqttClient<N> {
    let mut client = MqttClient::<N>::new();
    client.connect("id", None).unwrap();
    let state = client.receive_packet(&CONNACK_OK, |_, _, _| {}).unwrap();
    assert_eq!(state, MqttState::Connected);
    client
}

#[test]
fn a_new_session_is_disconnected() {
    let mut client = MqttClient::<16>::new();
    assert_eq!(state_of(&mut client), MqttState::Disconnected);
}

#[test]
fn receiving_nothing_returns_the_state() {
    let mut client = connected::<32>();
    assert!(matches!(client.receive_packet(&[], |_, _, _| {}), Ok(MqttState::Connected)));
}

#[test]
fn connect_without_credentials() {
    let mut client = MqttClient::<64>::new();
    let packet = client.connect("12345", None).unwrap().to_vec();
    assert_eq!(
        packet,
        vec![
            0x10, 0x12, 0x00, 0x04, b'M', b'Q', b'T', b'T', 0x05, 0x02, 0x00, 0x00, 0x00, 0x00,
            0x05, b'1', b'2', b'3', b'4', b'5',
        ]
    );
}

#[test]
fn connect_with_credentials() {
    let mut client = MqttClient::<64>::new();
    let packet = client.connect("c", Some(("user", "pw"))).unwrap().to_vec();
    assert_eq!(
        packet,
        vec![
            0x10, 0x18, 0x00, 0x04, b'M', b'Q', b'T', b'T', 0x05, 0xC2, 0x00, 0x00, 0x00, 0x00,
            0x01, b'c', 0x00, 0x04, b'u', b's', b'e', b'r', 0x00, 0x02, b'p', b'w',
        ]
    );
}

#[test]
fn connect_with_an_empty_client_id() {
    let mut client = MqttClient::<15>::new();
    let packet = client.connect("", None).unwrap().to_vec();
    assert_eq!(
        packet,
        vec![0x10, 0x0D, 0x00, 0x04, b'M', b'Q', b'T', b'T', 0x05, 0x02, 0x00, 0x00, 0x00, 0x00, 0x00]
    );
}

#[test]
fn connect_takes_the_session_to_connecting() {
    let mut client = MqttClient::<64>::new();
    client.connect("a", None).unwrap();
    assert_eq!(state_of(&mut client), MqttState::Connecting);
}

#[test]
fn connect_takes_a_connected_session_to_connecting() {
    let mut client = connected::<64>();
    client.connect("a", None).unwrap();
    assert_eq!(state_of(&mut client), MqttState::Connecting);
    client.connect("a", Some(("u", "p"))).unwrap();
    assert_eq!(state_of(&mut client), MqttState::Connecting);
}

#[test]
fn connect_with_a_body_of_two_length_bytes() {
    let id = "x".repeat(200);
    let mut client = MqttClient::<256>::new();
    let packet = client.connect(&id, None).unwrap().to_vec();
    assert_eq!(packet.len(), 1 + 2 + 13 + 200);
    assert_eq!(&packet[..3], &[0x10, 0xD5, 0x01]);
    assert_eq!(&packet[14..16], &[0x00, 0xC8]);
    assert!(packet[16..].iter().all(|byte| *byte == b'x'));
}

#[test]
fn a_build_overwrites_the_packet_before_it() {
    let mut client = connected::<64>();
    let long = client.publish("a/long/topic", b"payload").unwrap().to_vec();
    let short = client.publish("t", b"").unwrap().to_vec();
    assert_eq!(long.len(), 26);
    assert_eq!(&long[..4], &[0x30, 0x18, 0x00, 0x0C]);
    assert_eq!(short, vec![0x30, 0x06, 0x00, 0x01, b't', 0x00, 0x00, 0x00]);
}

#[test]
fn publish_needs_a_connected_session() {
    let mut client = MqttClient::<64>::new();
    assert!(matches!(client.publish("t", b"hi"), Err(MqttError::InvalidState)));
    assert_eq!(state_of(&mut client), MqttState::Disconnected);
    client.connect("a", None).unwrap();
    assert!(matches!(client.publish("t", b"hi"), Err(MqttError::InvalidState)));
    assert_eq!(state_of(&mut client), MqttState::Connecting);
}

#[test]
fn subscribe_needs_a_connected_session() {
    let mut client = MqttClient::<64>::new();
    assert!(matches!(client.subscribe("a/b"), Err(MqttError::InvalidState)));
    client.connect("a", None).unwrap();
    assert!(matches!(client.subscribe("a/b"), Err(MqttError::InvalidState)));
    assert_eq!(state_of(&mut client), MqttState::Connecting);
}

#[test]
fn unsubscribe_needs_a_connected_session() {
    let mut client = MqttClient::<64>::new();
    assert!(matches!(client.unsubscribe("a/b"), Err(MqttError::InvalidState)));
    client.connect("a", None).unwrap();
    assert!(matches!(client.unsubscribe("a/b"), Err(MqttError::InvalidState)));
    assert_eq!(state_of(&mut client), MqttState::Connecting);
}

#[test]
fn a_refused_build_takes_no_packet_identifier() {
    let mut client = MqttClient::<64>::new();
    assert!(client.subscribe("a/b").is_err());
    assert!(client.unsubscribe("a/b").is_err());
    client.connect("a", None).unwrap();
    client.receive_packet(&CONNACK_OK, |_, _, _| {}).unwrap();
    let packet = client.subscribe("a/b").unwrap().to_vec();
    assert_eq!(&packet[2..4], &[0x00, 0x01]);
}

#[test]
fn a_refused_build_fits_any_buffer() {
    let mut client = MqttClient::<0>::new();
    assert!(matches!(client.publish("topic", &[0; 100]), Err(MqttError::InvalidState)));
    assert!(matches!(client.subscribe("topic"), Err(MqttError::InvalidState)));
    assert!(matches!(client.unsubscribe("topic"), Err(MqttError::InvalidState)));
}

#[test]
fn publish_builds_a_qos_0_packet() {
    let mut client = connected::<64>();
    let packet = client.publish("gots/test", b"test").unwrap().to_vec();
    assert_eq!(
        packet,
        vec![
            0x30, 0x12, 0x00, 0x09, b'g', b'o', b't', b's', b'/', b't', b'e', b's', b't', 0x00,
            0x00, 0x00, b't', b'e', b's', b't',
        ]
    );
    assert_eq!(state_of(&mut client), MqttState::Connected);
}

#[test]
fn publish_with_a_body_of_two_length_bytes() {
    let payload = [0x5Au8; 300];
    let mut client = connected::<512>();
    let packet = client.publish("t", &payload).unwrap().to_vec();
    assert_eq!(packet.len(), 1 + 2 + 6 + 300);
    assert_eq!(&packet[..9], &[0x30, 0xB2, 0x02, 0x00, 0x01, b't', 0x00, 0x00, 0x00]);
    assert_eq!(&packet[9..], &payload[..]);
}

#[test]
fn publish_fills_the_buffer_to_its_last_byte() {
    let mut client = connected::<20>();
    let packet = client.publish("t", b"0123456789ab").unwrap().to_vec();
    assert_eq!(packet.len(), 20);
    assert_eq!(&packet[..8], &[0x30, 0x12, 0x00, 0x01, b't', 0x00, 0x00, 0x00]);
    assert_eq!(&packet[8..], b"0123456789ab");
}

#[test]
fn subscribe_builds_the_packet_for_a_filter() {
    let mut client = connected::<64>();
    let packet = client.subscribe("a/b").unwrap().to_vec();
    assert_eq!(
        packet,
        vec![0x82, 0x09, 0x00, 0x01, 0x00, 0x00, 0x03, b'a', b'/', b'b', 0x00]
    );
    assert_eq!(state_of(&mut client), MqttState::Connected);
}

#[test]
fn unsubscribe_builds_the_packet_for_a_filter() {
    let mut client = connected::<64>();
    let packet = client.unsubscribe("a/b").unwrap().to_vec();
    assert_eq!(packet, vec![0xA2, 0x08, 0x00, 0x01, 0x00, 0x00, 0x03, b'a', b'/', b'b']);
    assert_eq!(state_of(&mut client), MqttState::Connected);
}

#[test]
fn subscribe_and_unsubscribe_share_the_packet_identifiers() {
    let mut client = connected::<64>();
    let first = client.subscribe("a").unwrap().to_vec();
    let second = client.unsubscribe("a").unwrap().to_vec();
    let third = client.subscribe("b").unwrap().to_vec();
    assert_eq!(&first[2..4], &[0x00, 0x01]);
    assert_eq!(&second[2..4], &[0x00, 0x02]);
    assert_eq!(&third[2..4], &[0x00, 0x03]);
}

#[test]
fn publish_and_connect_take_no_packet_identifier() {
    let mut client = connected::<64>();
    client.publish("t", b"x").unwrap();
    client.connect("id", None).unwrap();
    client.receive_packet(&CONNACK_OK, |_, _, _| {}).unwrap();
    let packet = client.subscribe("a").unwrap().to_vec();
    assert_eq!(&packet[2..4], &[0x00, 0x01]);
}

#[test]
fn packet_identifiers_wrap_to_one() {
    let mut client = connected::<32>();
    for expected in 1..=0xFFFFu32 {
        let packet = client.subscribe("a").unwrap();
        let id = (packet[2] as u32) << 8 | packet[3] as u32;
        assert_eq!(id, expected);
    }
    let packet = client.unsubscribe("a").unwrap().to_vec();
    assert_eq!(&packet[2..4], &[0x00, 0x01]);
}

#[test]
fn connack_with_reason_code_zero_connects() {
    let mut client = MqttClient::<64>::new();
    client.connect("a", None).unwrap();
    let result = client.receive_packet(&CONNACK_OK, |_, _, _| panic!("no message was sent"));
    assert!(matches!(result, Ok(MqttState::Connected)));
    assert_eq!(state_of(&mut client), MqttState::Connected);
}

#[test]
fn connack_connects_a_session_that_never_asked() {
    let mut client = MqttClient::<64>::new();
    let result = client.receive_packet(&CONNACK_OK, |_, _, _| {});
    assert!(matches!(result, Ok(MqttState::Connected)));
}

#[test]
fn connack_with_another_reason_code_is_a_refusal() {
    let mut client = MqttClient::<64>::new();
    client.connect("a", None).unwrap();
    let result = client.receive_packet(&CONNACK_REFUSED, |_, _, _| {});
    assert!(matches!(result, Err(MqttError::ConnectionRefused)));
    assert_eq!(state_of(&mut client), MqttState::Disconnected);
}

#[test]
fn a_refusal_disconnects_a_connected_session() {
    let mut client = connected::<64>();
    let result = client.receive_packet(&[0x20, 0x02, 0x00, 0x01], |_, _, _| {});
    assert!(matches!(result, Err(MqttError::ConnectionRefused)));
    assert_eq!(state_of(&mut client), MqttState::Disconnected);
}

#[test]
fn nothing_behind_a_refusal_is_taken_in() {
    let mut stream = CONNACK_REFUSED.to_vec();
    stream.extend_from_slice(&PUBLISH_T_HI);
    stream.extend_from_slice(&CONNACK_OK);
    let mut client = MqttClient::<64>::new();
    let mut calls = 0;
    let result = client.receive_packet(&stream, |_, _, _| calls += 1);
    assert!(matches!(result, Err(MqttError::ConnectionRefused)));
    assert_eq!(calls, 0);
    assert_eq!(state_of(&mut client), MqttState::Disconnected);
}

#[test]
fn connack_ignores_the_acknowledge_flags() {
    let mut client = MqttClient::<64>::new();
    let result = client.receive_packet(&[0x20, 0x02, 0x01, 0x00], |_, _, _| {});
    assert!(matches!(result, Ok(MqttState::Connected)));
}

#[test]
fn connack_with_properties_is_skipped_to_its_end() {
    let stream = [0x20, 0x05, 0x00, 0x00, 0x02, 0x21, 0x0A, 0xB0, 0x02, 0x00, 0x01];
    let mut client = MqttClient::<64>::new();
    let result = client.receive_packet(&stream, |_, _, _| {});
    assert!(matches!(result, Ok(MqttState::Connected)));
}

#[test]
fn suback_and_unsuback_change_nothing() {
    let mut client = connected::<64>();
    let stream = [0x90, 0x03, 0x00, 0x01, 0x00, 0xB0, 0x03, 0x00, 0x02, 0x11];
    let result = client.receive_packet(&stream, |_, _, _| panic!("no message was sent"));
    assert!(matches!(result, Ok(MqttState::Connected)));
    let mut idle = MqttClient::<64>::new();
    let result = idle.receive_packet(&stream, |_, _, _| {});
    assert!(matches!(result, Ok(MqttState::Disconnected)));
}

#[test]
fn suback_reason_codes_are_not_looked_at() {
    let mut client = connected::<64>();
    let result = client.receive_packet(&[0x90, 0x03, 0x00, 0x01, 0x80], |_, _, _| {});
    assert!(matches!(result, Ok(MqttState::Connected)));
}

#[test]
fn publish_goes_to_the_callback_once() {
    let mut client = connected::<64>();
    let mut seen: Vec<(String, Vec<u8>)> = Vec::new();
    let result = client.receive_packet(&PUBLISH_T_HI, |_, topic, payload| {
        seen.push((topic.to_string(), payload.to_vec()));
    });
    assert!(matches!(result, Ok(MqttState::Connected)));
    assert_eq!(seen, vec![("t".to_string(), b"hi".to_vec())]);
}

#[test]
fn publish_properties_are_skipped() {
    let stream = [
        0x30, 0x0C, 0x00, 0x03, b'a', b'/', b'b', 0x04, 0x01, 0x01, 0x02, 0x00, b'o', b'k',
    ];
    let mut client = connected::<64>();
    let mut seen: Vec<(String, Vec<u8>)> = Vec::new();
    client
        .receive_packet(&stream, |_, topic, payload| {
            seen.push((topic.to_string(), payload.to_vec()));
        })
        .unwrap();
    assert_eq!(seen, vec![("a/b".to_string(), b"ok".to_vec())]);
}

#[test]
fn publish_with_an_empty_payload() {
    let stream = [0x30, 0x04, 0x00, 0x01, b't', 0x00];
    let mut client = connected::<64>();
    let mut seen: Vec<(String, Vec<u8>)> = Vec::new();
    client
        .receive_packet(&stream, |_, topic, payload| {
            seen.push((topic.to_string(), payload.to_vec()));
        })
        .unwrap();
    assert_eq!(seen, vec![("t".to_string(), Vec::new())]);
}

#[test]
fn publish_with_a_long_payload() {
    let mut stream = vec![0x30, 0xB0, 0x02, 0x00, 0x01, b't', 0x00];
    stream.extend_from_slice(&[0x42; 300]);
    let mut client = connected::<64>();
    let mut lengths = Vec::new();
    client
        .receive_packet(&stream, |_, topic, payload| {
            assert_eq!(topic, "t");
            assert!(payload.iter().all(|byte| *byte == 0x42));
            lengths.push(payload.len());
        })
        .unwrap();
    assert_eq!(lengths, vec![300]);
}

#[test]
fn publish_with_a_topic_beyond_ascii() {
    let stream = [0x30, 0x08, 0x00, 0x03, 0xE2, 0x82, 0xAC, 0x00, b'1', b'2'];
    let mut client = connected::<64>();
    let mut seen: Vec<(String, Vec<u8>)> = Vec::new();
    client
        .receive_packet(&stream, |_, topic, payload| {
            seen.push((topic.to_string(), payload.to_vec()));
        })
        .unwrap();
    assert_eq!(seen, vec![("\u{20ac}".to_string(), b"12".to_vec())]);
}

#[test]
fn publish_flags_are_not_looked_at() {
    let stream = [0x3D, 0x06, 0x00, 0x01, b't', 0x00, b'h', b'i'];
    let mut client = connected::<64>();
    let mut calls = 0;
    client.receive_packet(&stream, |_, _, _| calls += 1).unwrap();
    assert_eq!(calls, 1);
}

#[test]
fn publish_is_delivered_whatever_the_state() {
    let mut client = MqttClient::<64>::new();
    let mut calls = 0;
    let result = client.receive_packet(&PUBLISH_T_HI, |_, _, _| calls += 1);
    assert!(matches!(result, Ok(MqttState::Disconnected)));
    assert_eq!(calls, 1);
}

#[test]
fn several_packets_in_one_buffer() {
    let mut stream = CONNACK_OK.to_vec();
    stream.extend_from_slice(&PUBLISH_T_HI);
    stream.extend_from_slice(&[0x90, 0x03, 0x00, 0x01, 0x00]);
    stream.extend_from_slice(&[0x30, 0x07, 0x00, 0x02, b'u', b'v', 0x00, b'y', b'o']);
    let mut client = MqttClient::<64>::new();
    client.connect("a", None).unwrap();
    let mut seen: Vec<(String, Vec<u8>)> = Vec::new();
    let result = client.receive_packet(&stream, |_, topic, payload| {
        seen.push((topic.to_string(), payload.to_vec()));
    });
    assert!(matches!(result, Ok(MqttState::Connected)));
    assert_eq!(
        seen,
        vec![("t".to_string(), b"hi".to_vec()), ("uv".to_string(), b"yo".to_vec())]
    );
}

#[test]
fn an_unknown_packet_stops_the_stream() {
    let mut stream = vec![0x40, 0x02, 0x00, 0x01];
    stream.extend_from_slice(&PUBLISH_T_HI);
    let mut client = connected::<64>();
    let mut calls = 0;
    let result = client.receive_packet(&stream, |_, _, _| calls += 1);
    assert!(matches!(result, Err(MqttError::InvalidPacket)));
    assert_eq!(calls, 0);
    assert_eq!(state_of(&mut client), MqttState::Disconnected);
}

#[test]
fn packets_before_an_unknown_one_are_taken_in() {
    let mut stream = PUBLISH_T_HI.to_vec();
    stream.extend_from_slice(&CONNACK_OK);
    stream.extend_from_slice(&[0xD0, 0x00]);
    stream.extend_from_slice(&PUBLISH_T_HI);
    let mut client = MqttClient::<64>::new();
    let mut calls = 0;
    let result = client.receive_packet(&stream, |_, _, _| calls += 1);
    assert!(matches!(result, Err(MqttError::InvalidPacket)));
    assert_eq!(calls, 1);
    assert_eq!(state_of(&mut client), MqttState::Disconnected);
}

#[test]
fn every_kind_a_client_does_not_take_in_is_invalid() {
    for kind in [0u8, 1, 4, 5, 6, 7, 8, 10, 12, 13, 15] {
        let mut client = connected::<64>();
        let result = client.receive_packet(&[kind << 4, 0x00], |_, _, _| {});
        assert!(matches!(result, Err(MqttError::InvalidPacket)));
        assert_eq!(state_of(&mut client), MqttState::Disconnected);
    }
}

#[test]
fn an_unknown_packet_ends_the_session() {
    let mut client = connected::<64>();
    let result = client.receive_packet(&[0x40, 0x02, 0x00, 0x01], |_, _, _| {});
    assert!(matches!(result, Err(MqttError::InvalidPacket)));
    assert_eq!(state_of(&mut client), MqttState::Disconnected);
    assert!(matches!(client.publish("t", b"x"), Err(MqttError::InvalidState)));
}

#[test]
fn an_unknown_packet_ends_a_session_that_was_connecting() {
    let mut client = MqttClient::<64>::new();
    client.connect("a", None).unwrap();
    let result = client.receive_packet(&[0xC0, 0x00], |_, _, _| {});
    assert!(matches!(result, Err(MqttError::InvalidPacket)));
    assert_eq!(state_of(&mut client), MqttState::Disconnected);
}

#[test]
fn an_unknown_packet_behind_a_message_ends_the_session_the_callback_left() {
    let mut stream = PUBLISH_T_HI.to_vec();
    stream.extend_from_slice(&[0x50, 0x00]);
    let mut client = MqttClient::<64>::new();
    let result = client.receive_packet(&stream, |session, _, _| {
        session.connect("again", None).unwrap();
    });
    assert!(matches!(result, Err(MqttError::InvalidPacket)));
    assert_eq!(state_of(&mut client), MqttState::Disconnected);
}

#[test]
fn disconnect_ends_the_session() {
    let mut client = connected::<64>();
    let result = client.receive_packet(&[0xE0, 0x02, 0x00, 0x00], |_, _, _| {});
    assert!(matches!(result, Err(MqttError::Disconnected)));
    assert_eq!(state_of(&mut client), MqttState::Disconnected);
}

#[test]
fn nothing_behind_a_disconnect_is_taken_in() {
    let mut stream = vec![0xE0, 0x00];
    stream.extend_from_slice(&CONNACK_OK);
    stream.extend_from_slice(&PUBLISH_T_HI);
    let mut client = connected::<64>();
    let mut calls = 0;
    let result = client.receive_packet(&stream, |_, _, _| calls += 1);
    assert!(matches!(result, Err(MqttError::Disconnected)));
    assert_eq!(calls, 0);
    assert_eq!(state_of(&mut client), MqttState::Disconnected);
}

#[test]
fn the_callback_can_use_the_session() {
    let mut client = connected::<64>();
    let mut answers: Vec<Vec<u8>> = Vec::new();
    let result = client.receive_packet(&PUBLISH_T_HI, |session, topic, payload| {
        answers.push(session.publish(topic, payload).unwrap().to_vec());
        answers.push(session.subscribe("more").unwrap().to_vec());
    });
    assert!(matches!(result, Ok(MqttState::Connected)));
    assert_eq!(answers[0], vec![0x30, 0x08, 0x00, 0x01, b't', 0x00, 0x00, 0x00, b'h', b'i']);
    assert_eq!(
        answers[1],
        vec![0x82, 0x0A, 0x00, 0x01, 0x00, 0x00, 0x04, b'm', b'o', b'r', b'e', 0x00]
    );
    let next = client.subscribe("x").unwrap().to_vec();
    assert_eq!(&next[2..4], &[0x00, 0x02]);
}

#[test]
fn the_result_is_the_state_the_callback_leaves() {
    let mut client = connected::<64>();
    let result = client.receive_packet(&PUBLISH_T_HI, |session, _, _| {
        session.connect("again", None).unwrap();
    });
    assert!(matches!(result, Ok(MqttState::Connecting)));
    assert_eq!(state_of(&mut client), MqttState::Connecting);
}

#[test]
fn a_connack_behind_a_message_decides_the_state() {
    let mut stream = PUBLISH_T_HI.to_vec();
    stream.extend_from_slice(&CONNACK_OK);
    let mut client = connected::<64>();
    let result = client.receive_packet(&stream, |session, _, _| {
        session.connect("again", None).unwrap();
    });
    assert!(matches!(result, Ok(MqttState::Connected)));
}

#[test]
fn a_packet_is_left_at_its_declared_end() {
    let stream = [0x90, 0x00, 0x20, 0x02, 0x00, 0x00];
    let mut client = MqttClient::<64>::new();
    let result = client.receive_packet(&stream, |_, _, _| {});
    assert!(matches!(result, Ok(MqttState::Connected)));
}

#[test]
fn a_connack_that_declares_less_than_it_holds() {
    let stream = [0x20, 0x00, 0x90, 0x00];
    let mut client = MqttClient::<64>::new();
    let result = client.receive_packet(&stream, |_, _, _| {});
    assert!(matches!(result, Ok(MqttState::Connected)));
    let refused = [0x20, 0x01, 0x90, 0x01];
    let result = client.receive_packet(&refused, |_, _, _| {});
    assert!(matches!(result, Err(MqttError::ConnectionRefused)));
}

#[test]
fn a_remaining_length_of_two_bytes_is_followed() {
    let mut stream = vec![0x90, 0x80, 0x01];
    stream.extend_from_slice(&[0u8; 128]);
    stream.extend_from_slice(&CONNACK_OK);
    let mut client = MqttClient::<64>::new();
    let result = client.receive_packet(&stream, |_, _, _| {});
    assert!(matches!(result, Ok(MqttState::Connected)));
}

#[test]
fn a_built_publish_is_read_with_its_identifier_field_as_payload() {
    let mut sender = connected::<64>();
    let packet = sender.publish("room/1", b"21.5").unwrap().to_vec();
    let mut receiver = connected::<64>();
    let mut seen: Vec<(String, Vec<u8>)> = Vec::new();
    receiver
        .receive_packet(&packet, |_, topic, payload| {
            seen.push((topic.to_string(), payload.to_vec()));
        })
        .unwrap();
    assert_eq!(seen, vec![("room/1".to_string(), b"\0\021.5".to_vec())]);
}

#[test]
fn errors_and_states_can_be_printed() {
    assert_eq!(format!("{:?}", MqttError::InvalidState), "InvalidState");
    assert_eq!(format!("{:?}", MqttError::InvalidPacket), "InvalidPacket");
    assert_eq!(format!("{:?}", MqttError::ConnectionRefused), "ConnectionRefused");
    assert_eq!(format!("{:?}", MqttError::Disconnected), "Disconnected");
    assert_eq!(format!("{:?}", MqttState::Connecting), "Connecting");
}
