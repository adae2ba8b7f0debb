//! The catalog of control packets and properties with their numeric codes,
//! the packet-identifier counter, and the layout of the packets a client
//! sends.

use crate::wire::{lemma_var_int_len, length_prefixed, u16_be, var_int};
use vstd::prelude::*;

verus! {

/// The kinds of control packet, each with the code that stands in the high
/// nibble of a packet's first byte.
#[allow(non_camel_case_types)]
#[derive(Debug, Clone, Copy, PartialEq, Eq, Structural)]
pub enum ControlPacketType {
    CONNECT,
    CONNACK,
    PUBLISH,
    PUBACK,
    PUBREC,
    PUBREL,
    PUBCOMP,
    SUBSCRIBE,
    SUBACK,
    UNSUBSCRIBE,
    UNSUBACK,
    PINGREQ,
    PINGRESP,
    DISCONNECT,
    AUTH,
}

impl ControlPacketType {
    /// The code of this kind of packet.
    pub open spec fn spec_code(self) -> u8 {
        match self {
            ControlPacketType::CONNECT => 1,
            ControlPacketType::CONNACK => 2,
            ControlPacketType::PUBLISH => 3,
            ControlPacketType::PUBACK => 4,
            ControlPacketType::PUBREC => 5,
            ControlPacketType::PUBREL => 6,
            ControlPacketType::PUBCOMP => 7,
            ControlPacketType::SUBSCRIBE => 8,
            ControlPacketType::SUBACK => 9,
            ControlPacketType::UNSUBSCRIBE => 10,
            ControlPacketType::UNSUBACK => 11,
            ControlPacketType::PINGREQ => 12,
            ControlPacketType::PINGRESP => 13,
            ControlPacketType::DISCONNECT => 14,
            ControlPacketType::AUTH => 15,
        }
    }

    /// The kind of packet that has the code `code`, if there is one.
    pub open spec fn of_code(code: u8) -> Option<ControlPacketType> {
        if exists|kind: ControlPacketType| kind.spec_code() == code {
            Some(choose|kind: ControlPacketType| kind.spec_code() == code)
        } else {
            None
        }
    }

    /// The code of this kind of packet.
    #[verifier::when_used_as_spec(spec_code)]
    pub fn code(self) -> (code: u8)
        ensures
            code == self.spec_code(),
            1 <= code <= 15,
    {
        match self {
            ControlPacketType::CONNECT => 1,
            ControlPacketType::CONNACK => 2,
            ControlPacketType::PUBLISH => 3,
            ControlPacketType::PUBACK => 4,
            ControlPacketType::PUBREC => 5,
            ControlPacketType::PUBREL => 6,
            ControlPacketType::PUBCOMP => 7,
            ControlPacketType::SUBSCRIBE => 8,
            ControlPacketType::SUBACK => 9,
            ControlPacketType::UNSUBSCRIBE => 10,
            ControlPacketType::UNSUBACK => 11,
            ControlPacketType::PINGREQ => 12,
            ControlPacketType::PINGRESP => 13,
            ControlPacketType::DISCONNECT => 14,
            ControlPacketType::AUTH => 15,
        }
    }

    /// The kind of packet with the given code: there is one for each code
    /// from 1 to 15 and for no other.
    pub fn from_u8(code: u8) -> (kind: Option<Self>)
        ensures
            kind == Self::of_code(code),
            kind is Some <==> 1 <= code <= 15,
            kind is Some ==> kind->0.spec_code() == code,
    {
        let kind = match code {
            1 => Some(ControlPacketType::CONNECT),
            2 => Some(ControlPacketType::CONNACK),
            3 => Some(ControlPacketType::PUBLISH),
            4 => Some(ControlPacketType::PUBACK),
            5 => Some(ControlPacketType::PUBREC),
            6 => Some(ControlPacketType::PUBREL),
            7 => Some(ControlPacketType::PUBCOMP),
            8 => Some(ControlPacketType::SUBSCRIBE),
            9 => Some(ControlPacketType::SUBACK),
            10 => Some(ControlPacketType::UNSUBSCRIBE),
            11 => Some(ControlPacketType::UNSUBACK),
            12 => Some(ControlPacketType::PINGREQ),
            13 => Some(ControlPacketType::PINGRESP),
            14 => Some(ControlPacketType::DISCONNECT),
            15 => Some(ControlPacketType::AUTH),
            _ => None,
        };
        proof {
            if let Some(found) = kind {
                assert(found.spec_code() == code);
            }
        }
        kind
    }
}

/// Two kinds of packet with the same code are the same kind.
pub proof fn lemma_packet_code_is_unique(first: ControlPacketType, second: ControlPacketType)
    requires
        first.spec_code() == second.spec_code(),
    ensures
        first == second,
{
}

/// A kind of packet is found again from its code.
pub proof fn lemma_packet_code_round_trip(kind: ControlPacketType)
    ensures
        ControlPacketType::of_code(kind.spec_code()) == Some(kind),
{
    let found = choose|other: ControlPacketType| other.spec_code() == kind.spec_code();
    lemma_packet_code_is_unique(found, kind);
}

/// The delivery guarantees that the protocol knows.
#[derive(Debug, Clone, Copy, PartialEq, Eq, Structural)]
pub enum MqttQoS {
    AtMostOnce,
    AtLeastOnce,
    ExactlyOnce,
}

/// The properties that a packet can carry, each with the identifier that
/// stands before its value.
#[derive(Debug, Clone, Copy, PartialEq, Eq, Structural)]
pub enum MqttProperty {
    PayloadFormatIndicator,
    MessageExpiryInterval,
    ContentType,
    ResponseTopic,
    CorrelationData,
    SubscriptionIdentifier,
    ReasonString,
}

impl MqttProperty {
    /// The identifier of this property.
    pub open spec fn spec_code(self) -> u8 {
        match self {
            MqttProperty::PayloadFormatIndicator => 0x01,
            MqttProperty::MessageExpiryInterval => 0x02,
            MqttProperty::ContentType => 0x03,
            MqttProperty::ResponseTopic => 0x08,
            MqttProperty::CorrelationData => 0x09,
            MqttProperty::SubscriptionIdentifier => 0x0B,
            MqttProperty::ReasonString => 0x1F,
        }
    }

    /// The identifier of this property.
    #[verifier::when_used_as_spec(spec_code)]
    pub fn code(self) -> (code: u8)
        ensures
            code == self.spec_code(),
    {
        match self {
            MqttProperty::PayloadFormatIndicator => 0x01,
            MqttProperty::MessageExpiryInterval => 0x02,
            MqttProperty::ContentType => 0x03,
            MqttProperty::ResponseTopic => 0x08,
            MqttProperty::CorrelationData => 0x09,
            MqttProperty::SubscriptionIdentifier => 0x0B,
            MqttProperty::ReasonString => 0x1F,
        }
    }

    /// The property with the given identifier, if it is one of those listed.
    pub fn from_u8(code: u8) -> (property: Option<Self>)
        ensures
            property is Some <==> exists|known: MqttProperty| known.spec_code() == code,
            property is Some ==> property->0.spec_code() == code,
    {
        let property = match code {
            0x01 => Some(MqttProperty::PayloadFormatIndicator),
            0x02 => Some(MqttProperty::MessageExpiryInterval),
            0x03 => Some(MqttProperty::ContentType),
            0x08 => Some(MqttProperty::ResponseTopic),
            0x09 => Some(MqttProperty::CorrelationData),
            0x0B => Some(MqttProperty::SubscriptionIdentifier),
            0x1F => Some(MqttProperty::ReasonString),
            _ => None,
        };
        proof {
            if let Some(found) = property {
                assert(found.spec_code() == code);
            }
        }
        property
    }
}

/// The identifier that comes after `id`: the next one up, and 1 after the
/// largest, so that 0 never comes.
pub open spec fn following_id(id: u16) -> u16 {
    if id == 0xFFFF {
        1
    } else {
        (id + 1) as u16
    }
}

/// The source of packet identifiers: it hands out 1, 2, 3 and so on, and
/// never 0.
pub struct PacketIdCounter {
    counter: u16,
}

impl View for PacketIdCounter {
    type V = u16;

    /// The identifier that the next call of `next` returns.
    closed spec fn view(&self) -> u16 {
        self.counter
    }
}

impl PacketIdCounter {
    #[verifier::type_invariant]
    spec fn never_zero(self) -> bool {
        self.counter != 0
    }

    /// A counter whose first identifier is 1.
    pub fn new() -> (counter: Self)
        ensures
            counter@ == 1,
    {
        Self { counter: 1 }
    }

    /// Hands out the next identifier.
    pub fn next(&mut self) -> (id: u16)
        ensures
            id == old(self)@,
            id != 0,
            final(self)@ == following_id(id),
    {
        proof {
            use_type_invariant(&*self);
        }
        let id = self.counter;
        self.counter = self.counter.wrapping_add(1).max(1);
        id
    }
}

/// No identifier is followed by 0, and the largest is followed by 1.
pub proof fn lemma_following_id_is_never_zero(id: u16)
    ensures
        following_id(id) != 0,
        following_id(0xFFFF) == 1,
        id != 0xFFFF ==> following_id(id) == id + 1,
{
}

/// The identifier handed out `count` calls after `id` was.
pub open spec fn id_after(id: u16, count: nat) -> u16
    decreases count,
{
    if count == 0 {
        id
    } else {
        following_id(id_after(id, (count - 1) as nat))
    }
}

/// From 1 on, the identifiers count up one by one as far as the largest.
pub proof fn lemma_ids_count_up(count: nat)
    requires
        count < 0xFFFF,
    ensures
        id_after(1, count) == count + 1,
    decreases count,
{
    if count > 0 {
        lemma_ids_count_up((count - 1) as nat);
    }
}

/// After the largest identifier the count starts again at 1, and no
/// identifier in the sequence is 0.
pub proof fn lemma_ids_wrap_to_one(id: u16, count: nat)
    requires
        id != 0,
    ensures
        id_after(1, 0xFFFF) == 1,
        id_after(id, count) != 0,
    decreases count,
{
    lemma_ids_count_up(0xFFFE);
    assert(id_after(1, 0xFFFF) == following_id(id_after(1, 0xFFFE)));
    if count > 0 {
        lemma_ids_wrap_to_one(id, (count - 1) as nat);
    }
}

/// The first byte of a packet: the kind's code in the high nibble, the flags
/// in the low one.
pub open spec fn first_byte(kind: ControlPacketType, flags: u8) -> u8
    recommends
        flags < 16,
{
    (kind.spec_code() * 16 + flags) as u8
}

/// The number that the remaining-length field holds for a body of `len`
/// bytes: `len` cut to 32 bits.
pub open spec fn remaining_length(len: nat) -> nat {
    len % 0x1_0000_0000
}

/// A whole packet: the first byte, the length of the body as a variable-byte
/// integer, and the body.
pub open spec fn framed(kind: ControlPacketType, flags: u8, body: Seq<u8>) -> Seq<u8>
    recommends
        flags < 16,
{
    seq![first_byte(kind, flags)] + var_int(remaining_length(body.len())) + body
}

/// The bytes of the protocol's name, "MQTT".
pub open spec fn protocol_name() -> Seq<u8> {
    seq![0x4D, 0x51, 0x54, 0x54]
}

/// The connect flags: clean start always, user name and password where
/// credentials are given.
pub open spec fn connect_flags(with_credentials: bool) -> u8 {
    if with_credentials {
        0xC2
    } else {
        0x02
    }
}

/// The body of a CONNECT packet: protocol name, version 5, connect flags,
/// keep-alive 0, no properties, then the client identifier and, where given,
/// user name and password.
pub open spec fn connect_body(client_id: Seq<u8>, credentials: Option<(Seq<u8>, Seq<u8>)>) -> Seq<
    u8,
> {
    length_prefixed(protocol_name()) + seq![0x05u8, connect_flags(credentials is Some), 0, 0, 0]
        + length_prefixed(client_id) + match credentials {
        Some((username, password)) => length_prefixed(username) + length_prefixed(password),
        None => Seq::empty(),
    }
}

/// The body of a PUBLISH packet at QoS 0: topic, packet identifier 0, no
/// properties, then the payload as it is.
pub open spec fn publish_body(topic: Seq<u8>, payload: Seq<u8>) -> Seq<u8> {
    length_prefixed(topic) + seq![0u8, 0, 0] + payload
}

/// The body of a SUBSCRIBE packet: packet identifier, no properties, topic
/// filter, and subscription options that ask for QoS 0.
pub open spec fn subscribe_body(id: u16, topic_filter: Seq<u8>) -> Seq<u8> {
    u16_be(id) + seq![0u8] + length_prefixed(topic_filter) + seq![0u8]
}

/// The body of an UNSUBSCRIBE packet: packet identifier, no properties, topic
/// filter.
pub open spec fn unsubscribe_body(id: u16, topic_filter: Seq<u8>) -> Seq<u8> {
    u16_be(id) + seq![0u8] + length_prefixed(topic_filter)
}

/// The length of a whole packet around a body of `body_len` bytes.
pub open spec fn framed_len(body_len: nat) -> nat {
    1 + var_int(remaining_length(body_len)).len() + body_len
}

/// A packet is as long as its first byte, its remaining-length field and its
/// body together, and the field takes one byte for each seven bits of the
/// body's length.
pub proof fn lemma_framed_len(kind: ControlPacketType, flags: u8, body: Seq<u8>)
    ensures
        framed(kind, flags, body).len() == framed_len(body.len()),
        body.len() < 128 ==> framed_len(body.len()) == body.len() + 2,
        128 <= body.len() < 16_384 ==> framed_len(body.len()) == body.len() + 3,
        16_384 <= body.len() < 2_097_152 ==> framed_len(body.len()) == body.len() + 4,
        2_097_152 <= body.len() < 268_435_456 ==> framed_len(body.len()) == body.len() + 5,
        body.len() + 2 <= framed_len(body.len()) <= body.len() + 6,
{
    lemma_var_int_len(remaining_length(body.len()));
}

/// The lengths of the bodies of the packets a client sends.
pub proof fn lemma_body_lengths(
    client_id: Seq<u8>,
    credentials: Option<(Seq<u8>, Seq<u8>)>,
    topic: Seq<u8>,
    payload: Seq<u8>,
    id: u16,
)
    ensures
        connect_body(client_id, credentials).len() == 13 + client_id.len() + match credentials {
            Some((username, password)) => 4 + username.len() + password.len(),
            None => 0,
        },
        publish_body(topic, payload).len() == 5 + topic.len() + payload.len(),
        subscribe_body(id, topic).len() == 6 + topic.len(),
        unsubscribe_body(id, topic).len() == 5 + topic.len(),
{
}

} // verus!
