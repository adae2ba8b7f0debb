use tinymqtt::inbound::is_well_formed;
use tinymqtt::reader_writer::is_utf8;
use tinymqtt::{MqttClient, MqttError, MqttState};

const CONNACK_OK: [u8; 4] = [0x20, 0x02, 0x00, 0x00];
const PUBLISH_T_HI: [u8; 8] = [0x30, 0x06, 0x00, 0x01, b't', 0x00, b'h', b'i'];

#[test]
fn utf8_is_told_from_other_bytes() {
    assert!(is_utf8(b""));
    assert!(is_utf8(b"a/b"));
    assert!(is_utf8("gr\u{fc}n \u{20ac} \u{1f600}".as_bytes()));
    assert!(!is_utf8(&[0xFF]));
    assert!(!is_utf8(&[0xC3]));
    assert!(!is_utf8(&[b'a', 0x80]));
    assert!(!is_utf8(&[0xC0, 0x80]));
    assert!(!is_utf8(&[0xED, 0xA0, 0x80]));
    assert!(!is_utf8(&[0xF4, 0x90, 0x80, 0x80]));
}

#[test]
fn an_empty_stream_is_well_formed() {
    assert!(is_well_formed(&[]));
}

#[test]
fn whole_packets_are_well_formed() {
    assert!(is_well_formed(&CONNACK_OK));
    assert!(is_well_formed(&PUBLISH_T_HI));
    assert!(is_well_formed(&[0x90, 0x03, 0x00, 0x01, 0x00]));
    assert!(is_well_formed(&[0xB0, 0x00]));
    assert!(is_well_formed(&[0xE0, 0x00]));
    let mut stream = CONNACK_OK.to_vec();
    stream.extend_from_slice(&PUBLISH_T_HI);
    stream.extend_from_slice(&PUBLISH_T_HI);
    assert!(is_well_formed(&stream));
}

#[test]
fn a_stream_cut_short_is_not_well_formed() {
    let mut stream = CONNACK_OK.to_vec();
    stream.extend_from_slice(&PUBLISH_T_HI);
    stream.extend_from_slice(&[0x90, 0x03, 0x00, 0x01, 0x00]);
    let boundaries = [0, 4, 12, 17];
    for len in 0..=stream.len() {
        assert_eq!(is_well_formed(&stream[..len]), boundaries.contains(&len));
    }
}

#[test]
fn a_lone_first_byte_is_not_well_formed() {
    for first in [0x00u8, 0x20, 0x30, 0x40, 0x90, 0xE0, 0xF0] {
        assert!(!is_well_formed(&[first]));
    }
}

#[test]
fn a_remaining_length_must_end_within_five_bytes() {
    assert!(is_well_formed(&[0x40, 0x80, 0x80, 0x80, 0x80, 0x00]));
    assert!(!is_well_formed(&[0x40, 0x80, 0x80, 0x80, 0x80, 0x80, 0x00]));
    assert!(!is_well_formed(&[0x40, 0x80, 0x80]));
}

#[test]
fn nothing_is_asked_of_what_follows_a_packet_that_stops_the_stream() {
    assert!(is_well_formed(&[0x40, 0x7F]));
    assert!(is_well_formed(&[0xE0, 0x05, 0x01]));
    assert!(is_well_formed(&[0x20, 0x7F, 0x00, 0x80]));
    assert!(is_well_formed(&[0x40, 0x00, 0x30]));
    assert!(is_well_formed(&[0x00, 0x00, 0xFF, 0xFF]));
}

#[test]
fn a_connack_needs_its_two_bytes_and_its_declared_end() {
    assert!(!is_well_formed(&[0x20, 0x02, 0x00]));
    assert!(!is_well_formed(&[0x20, 0x03, 0x00, 0x00]));
    assert!(is_well_formed(&[0x20, 0x03, 0x00, 0x00, 0x00]));
    assert!(is_well_formed(&[0x20, 0x00, 0x90, 0x00]));
    assert!(!is_well_formed(&[0x20, 0x00, 0x90, 0x00, 0x90]));
}

#[test]
fn a_stream_is_followed_by_its_declared_lengths() {
    let stream = [0x20, 0x00, 0x00, 0x00];
    assert!(is_well_formed(&stream));
    let mut client = MqttClient::<8>::new();
    let result = client.receive_packet(&stream, |_, _, _| {});
    assert!(matches!(result, Err(MqttError::InvalidPacket)));
    assert!(matches!(client.receive_packet(&[], |_, _, _| {}), Ok(MqttState::Disconnected)));
}

#[test]
fn a_publish_needs_a_readable_topic() {
    assert!(!is_well_formed(&[0x30, 0x01, 0x00]));
    assert!(!is_well_formed(&[0x30, 0x04, 0x00, 0x05, b't', 0x00]));
    assert!(!is_well_formed(&[0x30, 0x04, 0x00, 0x01, 0xFF, 0x00]));
    assert!(is_well_formed(&[0x30, 0x04, 0x00, 0x01, b't', 0x00]));
    assert!(is_well_formed(&[0x30, 0x03, 0x00, 0x00, 0x00]));
}

#[test]
fn a_publish_needs_its_properties_within_its_length() {
    assert!(!is_well_formed(&[0x30, 0x03, 0x00, 0x01, b't']));
    assert!(!is_well_formed(&[0x30, 0x04, 0x00, 0x01, b't', 0x01]));
    assert!(is_well_formed(&[0x30, 0x05, 0x00, 0x01, b't', 0x01, 0x00]));
    assert!(!is_well_formed(&[0x30, 0x03, 0x00, 0x01, b't', 0x00]));
    assert!(!is_well_formed(&[0x30, 0x04, 0x00, 0x01, b't', 0x80]));
    assert!(!is_well_formed(&[0x30, 0x06, 0x00, 0x01, b't', 0xFF, 0xFF, 0xFF, 0xFF, 0x0F]));
}

#[test]
fn a_declared_length_beyond_the_stream_is_not_well_formed() {
    assert!(!is_well_formed(&[0x90, 0x01]));
    assert!(!is_well_formed(&[0x90, 0xFF, 0xFF, 0xFF, 0xFF, 0x0F]));
    assert!(!is_well_formed(&[0x30, 0xFF, 0xFF, 0xFF, 0x7F, 0x00, 0x01, b't', 0x00]));
}

fn next(seed: &mut u32) -> u32 {
    *seed = seed.wrapping_mul(1_664_525).wrapping_add(1_013_904_223);
    *seed >> 8
}

#[test]
fn every_well_formed_stream_is_taken_in() {
    let firsts = [0x20u8, 0x30, 0x90, 0xB0, 0xE0, 0x40, 0x00, 0x3F];
    let mut seed = 7u32;
    let mut taken = 0;
    for _ in 0..20_000 {
        let len = (next(&mut seed) % 14) as usize;
        let mut stream = Vec::with_capacity(len);
        for place in 0..len {
            let roll = next(&mut seed);
            let byte = if roll % 3 == 0 {
                firsts[(roll / 3) as usize % firsts.len()]
            } else if roll % 3 == 1 {
                ((roll / 3) % 8) as u8
            } else {
                (roll / 3) as u8
            };
            stream.push(if place == 0 { firsts[(roll / 7) as usize % firsts.len()] } else { byte });
        }
        if is_well_formed(&stream) {
            taken += 1;
            let mut client = MqttClient::<8>::new();
            let mut calls = 0;
            let result = client.receive_packet(&stream, |_, _, payload| {
                assert!(payload.len() <= stream.len());
                calls += 1;
            });
            match result {
                Ok(state) => assert!(state == MqttState::Disconnected || state == MqttState::Connected),
                Err(MqttError::InvalidState) => panic!("no packet was built"),
                Err(_) => {
                    let left = client.receive_packet(&[], |_, _, _| {});
                    assert!(matches!(left, Ok(MqttState::Disconnected)));
                },
            }
            assert!(calls <= stream.len() / 6);
        }
    }
    assert!(taken > 1_000);
}
