//! The packets a client receives: where one stands in a stream of bytes,
//! what it asks of the session, and what taking in a whole stream comes to.

use crate::client::{MqttError, MqttState, SessionView};
use crate::packet::ControlPacketType;
use crate::reader_writer::{is_utf8, MqttMessageReader};
use crate::wire::{u16_from_be, var_int_at, var_int_width, var_int_width_within};
use vstd::prelude::*;
use vstd::utf8::valid_utf8;

verus! {

/// What one received packet asks of the session.
pub enum Inbound {
    /// CONNACK with reason code 0: the session is connected.
    Accepted,
    /// CONNACK with another reason code: the session is disconnected and the
    /// stream is given up.
    Refused,
    /// SUBACK or UNSUBACK: nothing to do.
    Acknowledged,
    /// PUBLISH: the message goes to the callback.
    Message { topic: Seq<u8>, payload: Seq<u8> },
    /// DISCONNECT: the session is disconnected and the stream is given up.
    Closed,
    /// A packet of any other kind, or of no kind: the session is disconnected
    /// and the stream is given up.
    Unknown,
}

impl Inbound {
    /// The error with which the stream is given up at this packet, if it is.
    pub open spec fn error(self) -> Option<MqttError> {
        match self {
            Inbound::Refused => Some(MqttError::ConnectionRefused),
            Inbound::Closed => Some(MqttError::Disconnected),
            Inbound::Unknown => Some(MqttError::InvalidPacket),
            _ => None,
        }
    }

    /// Whether the packets behind this one are still taken in.
    pub open spec fn goes_on(self) -> bool {
        self.error() is None
    }
}

/// The kind of the packet that starts at `at`, read from the high nibble of
/// its first byte.
pub open spec fn kind_at(bytes: Seq<u8>, at: int) -> Option<ControlPacketType> {
    ControlPacketType::of_code(bytes[at] / 16)
}

/// Where the content of the packet at `at` starts: behind the first byte and
/// the remaining-length field.
pub open spec fn content_start(bytes: Seq<u8>, at: int) -> int {
    at + 1 + var_int_width(bytes, at + 1)
}

/// The length that the packet at `at` declares for its content.
pub open spec fn declared_length(bytes: Seq<u8>, at: int) -> nat {
    var_int_at(bytes, at + 1) as nat
}

/// Where the packet at `at` ends by its own declaration, and the next one
/// starts.
pub open spec fn packet_end(bytes: Seq<u8>, at: int) -> int {
    content_start(bytes, at) + declared_length(bytes, at)
}

/// The length of the topic of a PUBLISH packet whose content starts at
/// `from`.
pub open spec fn topic_length(bytes: Seq<u8>, from: int) -> nat {
    u16_from_be(bytes[from], bytes[from + 1]) as nat
}

/// The topic of a PUBLISH packet whose content starts at `from`.
pub open spec fn topic_at(bytes: Seq<u8>, from: int) -> Seq<u8> {
    bytes.subrange(from + 2, from + 2 + topic_length(bytes, from))
}

/// Where the property length of a PUBLISH packet stands: behind the topic.
pub open spec fn properties_at(bytes: Seq<u8>, from: int) -> int {
    from + 2 + topic_length(bytes, from)
}

/// Where the payload of a PUBLISH packet starts: behind the property length
/// and as many bytes of properties as it announces.
pub open spec fn payload_start(bytes: Seq<u8>, from: int) -> int {
    let at = properties_at(bytes, from);
    at + var_int_width(bytes, at) + var_int_at(bytes, at)
}

/// What the packet that starts at `at` asks of the session.
pub open spec fn inbound_at(bytes: Seq<u8>, at: int) -> Inbound {
    let from = content_start(bytes, at);
    match kind_at(bytes, at) {
        Some(ControlPacketType::CONNACK) => if bytes[from + 1] == 0 {
            Inbound::Accepted
        } else {
            Inbound::Refused
        },
        Some(ControlPacketType::SUBACK) | Some(ControlPacketType::UNSUBACK) => Inbound::Acknowledged,
        Some(ControlPacketType::PUBLISH) => Inbound::Message {
            topic: topic_at(bytes, from),
            payload: bytes.subrange(payload_start(bytes, from), packet_end(bytes, at)),
        },
        Some(ControlPacketType::DISCONNECT) => Inbound::Closed,
        _ => Inbound::Unknown,
    }
}

/// Whether the packet that starts at `at` can be taken in: its first byte and
/// remaining-length field are there, everything that is read of it lies
/// within `bytes`, and so does its declared end where the stream goes on
/// behind it.
pub open spec fn readable_at(bytes: Seq<u8>, at: int) -> bool {
    let from = content_start(bytes, at);
    let end = packet_end(bytes, at);
    &&& 0 <= at < bytes.len()
    &&& var_int_width(bytes, at + 1) > 0
    &&& match kind_at(bytes, at) {
        Some(ControlPacketType::CONNACK) => {
            &&& from + 2 <= bytes.len()
            &&& bytes[from + 1] == 0 ==> end <= bytes.len()
        },
        Some(ControlPacketType::SUBACK) | Some(ControlPacketType::UNSUBACK) => end <= bytes.len(),
        Some(ControlPacketType::PUBLISH) => {
            &&& from + 2 <= bytes.len()
            &&& properties_at(bytes, from) <= bytes.len()
            &&& valid_utf8(topic_at(bytes, from))
            &&& var_int_width(bytes, properties_at(bytes, from)) > 0
            &&& payload_start(bytes, from) <= end
            &&& end <= bytes.len()
        },
        _ => true,
    }
}

/// Whether the stream from `at` on can be taken in: every packet up to the
/// end of `bytes`, or up to the one at which the stream is given up, is
/// readable.
pub open spec fn well_formed(bytes: Seq<u8>, at: int) -> bool
    decreases bytes.len() - at,
{
    at < bytes.len() ==> readable_at(bytes, at) && (inbound_at(bytes, at).goes_on()
        ==> well_formed(bytes, packet_end(bytes, at)))
}

/// The number of bytes up to and including the first one at or after `at`
/// whose top bit is clear, if it is among the next `limit` bytes of `bytes`;
/// otherwise 0.
fn width_within(bytes: &[u8], at: usize, limit: usize) -> (width: usize)
    ensures
        width == var_int_width_within(bytes@, at as int, limit as nat),
        width <= limit,
        width > 0 ==> at + width <= bytes@.len(),
    decreases limit,
{
    if limit == 0 || at >= bytes.len() {
        0
    } else if bytes[at] < 128 {
        1
    } else {
        let rest = width_within(bytes, at + 1, limit - 1);
        if rest == 0 {
            0
        } else {
            rest + 1
        }
    }
}

/// Looks at the packet that starts at `at`: nothing where it cannot be taken
/// in; where it can, the place at which the stream goes on behind it, or
/// that the stream is given up at it.
fn readable_packet(packet: &[u8], at: usize) -> (step: Option<Option<usize>>)
    requires
        at < packet@.len(),
    ensures
        step is Some <==> readable_at(packet@, at as int),
        step is Some ==> (step->0 is Some <==> inbound_at(packet@, at as int).goes_on()),
        step is Some && step->0 is Some ==> step->0->0 == packet_end(packet@, at as int)
            && at < step->0->0 <= packet@.len(),
{
    let ghost bytes = packet@;
    let size = packet.len();
    let mut reader = MqttMessageReader::new(packet);
    reader.skip(at);
    let first = reader.read_u8();
    let code = first >> 4;
    assert(code == first / 16) by (bit_vector)
        requires
            code == first >> 4,
    ;
    let kind = ControlPacketType::from_u8(code);
    if width_within(packet, at + 1, 5) == 0 {
        return None;
    }
    let declared = reader.read_variable_int() as usize;
    reader.mark();
    let left = reader.remaining();
    let from = size - left;
    match kind {
        Some(ControlPacketType::CONNACK) => {
            if left < 2 {
                None
            } else if packet[from + 1] != 0 {
                Some(None)
            } else if declared <= left {
                Some(Some(from + declared))
            } else {
                None
            }
        },
        Some(ControlPacketType::SUBACK) | Some(ControlPacketType::UNSUBACK) => {
            if declared <= left {
                Some(Some(from + declared))
            } else {
                None
            }
        },
        Some(ControlPacketType::PUBLISH) => {
            if left < 2 {
                return None;
            }
            let topic_length = reader.read_u16() as usize;
            if topic_length > left - 2 {
                return None;
            }
            if !is_utf8(reader.read_bytes_raw(topic_length)) {
                return None;
            }
            if width_within(packet, from + 2 + topic_length, 5) == 0 {
                return None;
            }
            let property_length = reader.read_variable_int() as usize;
            let read = reader.distance_from_mark();
            if declared <= left && read <= declared && property_length <= declared - read {
                Some(Some(from + declared))
            } else {
                None
            }
        },
        _ => Some(None),
    }
}

/// Whether `packet` is a stream that `receive_packet` can take in: whether
/// every packet in it, up to its end or to the one at which the stream is
/// given up, is whole.
pub fn is_well_formed(packet: &[u8]) -> (whole: bool)
    ensures
        whole == well_formed(packet@, 0),
{
    let mut at: usize = 0;
    while at < packet.len()
        invariant
            at <= packet@.len(),
            well_formed(packet@, 0) == well_formed(packet@, at as int),
        decreases packet@.len() - at,
    {
        match readable_packet(packet, at) {
            None => {
                return false;
            },
            Some(None) => {
                return true;
            },
            Some(Some(next)) => {
                at = next;
            },
        }
    }
    true
}

/// One call of the callback: the session before and after it, and the
/// message that was handed over.
pub struct Delivery {
    pub before: SessionView,
    pub after: SessionView,
    pub topic: Seq<u8>,
    pub payload: Seq<u8>,
}

/// Taking in the stream from `at` on, by a session that is `start`, comes to
/// the session `end` and to `result`, given that the callback was called as
/// `deliveries` says: once for each PUBLISH packet in turn, with the session
/// as it then was and the packet's topic and payload, and the stream went on
/// with the session as the callback left it.
pub open spec fn received(
    start: SessionView,
    bytes: Seq<u8>,
    at: int,
    deliveries: Seq<Delivery>,
    end: SessionView,
    result: Result<MqttState, MqttError>,
) -> bool
    decreases bytes.len() - at,
    when well_formed(bytes, at)
{
    if at >= bytes.len() {
        deliveries.len() == 0 && end == start && result == Ok::<MqttState, MqttError>(start.state)
    } else {
        let next = packet_end(bytes, at);
        match inbound_at(bytes, at) {
            Inbound::Accepted => received(
                SessionView { state: MqttState::Connected, ..start },
                bytes,
                next,
                deliveries,
                end,
                result,
            ),
            Inbound::Refused => {
                &&& deliveries.len() == 0
                &&& end == (SessionView { state: MqttState::Disconnected, ..start })
                &&& result == Err::<MqttState, MqttError>(MqttError::ConnectionRefused)
            },
            Inbound::Acknowledged => received(start, bytes, next, deliveries, end, result),
            Inbound::Message { topic, payload } => {
                &&& deliveries.len() > 0
                &&& deliveries[0].before == start
                &&& deliveries[0].topic == topic
                &&& deliveries[0].payload == payload
                &&& received(
                    deliveries[0].after,
                    bytes,
                    next,
                    deliveries.drop_first(),
                    end,
                    result,
                )
            },
            Inbound::Closed => {
                &&& deliveries.len() == 0
                &&& end == (SessionView { state: MqttState::Disconnected, ..start })
                &&& result == Err::<MqttState, MqttError>(MqttError::Disconnected)
            },
            Inbound::Unknown => {
                &&& deliveries.len() == 0
                &&& end == (SessionView { state: MqttState::Disconnected, ..start })
                &&& result == Err::<MqttState, MqttError>(MqttError::InvalidPacket)
            },
        }
    }
}

/// Whether the stream can be taken up at `at` by a session that is `now`,
/// after `done` was delivered: whatever the rest of the stream comes to from
/// there, the whole stream comes to for a session that was `start`, with
/// the deliveries of the rest behind those that are done.
pub(crate) open spec fn carries_on(
    start: SessionView,
    bytes: Seq<u8>,
    done: Seq<Delivery>,
    now: SessionView,
    at: int,
) -> bool {
    forall|rest: Seq<Delivery>, end: SessionView, result: Result<MqttState, MqttError>| #[trigger]
        received(now, bytes, at, rest, end, result) ==> received(
            start,
            bytes,
            0,
            done + rest,
            end,
            result,
        )
}

/// A stream is taken up at its start with nothing delivered.
pub(crate) proof fn lemma_carries_on_from_start(start: SessionView, bytes: Seq<u8>)
    ensures
        carries_on(start, bytes, Seq::empty(), start, 0),
{
    assert forall|rest: Seq<Delivery>, end: SessionView, result: Result<MqttState, MqttError>| #[trigger]
        received(start, bytes, 0, rest, end, result) implies received(
        start,
        bytes,
        0,
        Seq::<Delivery>::empty() + rest,
        end,
        result,
    ) by {
        assert(Seq::<Delivery>::empty() + rest =~= rest);
    }
}

/// Behind a packet that is no message and lets the stream go on, the stream
/// is taken up at the packet's end, by a session that is connected where the
/// packet was an accepted CONNACK and is as before where it was not.
pub(crate) proof fn lemma_carries_on_behind_packet(
    start: SessionView,
    bytes: Seq<u8>,
    done: Seq<Delivery>,
    now: SessionView,
    at: int,
)
    requires
        carries_on(start, bytes, done, now, at),
        well_formed(bytes, at),
        at < bytes.len(),
        inbound_at(bytes, at) is Accepted || inbound_at(bytes, at) is Acknowledged,
    ensures
        carries_on(
            start,
            bytes,
            done,
            if inbound_at(bytes, at) is Accepted {
                SessionView { state: MqttState::Connected, ..now }
            } else {
                now
            },
            packet_end(bytes, at),
        ),
{
    let then = if inbound_at(bytes, at) is Accepted {
        SessionView { state: MqttState::Connected, ..now }
    } else {
        now
    };
    assert forall|rest: Seq<Delivery>, end: SessionView, result: Result<MqttState, MqttError>| #[trigger]
        received(then, bytes, packet_end(bytes, at), rest, end, result) implies received(
        start,
        bytes,
        0,
        done + rest,
        end,
        result,
    ) by {
        assert(received(now, bytes, at, rest, end, result));
    }
}

/// Behind a message, the stream is taken up at the packet's end by the
/// session as the callback left it, with one more delivery done.
pub(crate) proof fn lemma_carries_on_behind_message(
    start: SessionView,
    bytes: Seq<u8>,
    done: Seq<Delivery>,
    now: SessionView,
    at: int,
    delivery: Delivery,
)
    requires
        carries_on(start, bytes, done, now, at),
        well_formed(bytes, at),
        at < bytes.len(),
        inbound_at(bytes, at) == (Inbound::Message {
            topic: delivery.topic,
            payload: delivery.payload,
        }),
        delivery.before == now,
    ensures
        carries_on(start, bytes, done.push(delivery), delivery.after, packet_end(bytes, at)),
{
    assert forall|rest: Seq<Delivery>, end: SessionView, result: Result<MqttState, MqttError>| #[trigger]
        received(delivery.after, bytes, packet_end(bytes, at), rest, end, result) implies received(
        start,
        bytes,
        0,
        done.push(delivery) + rest,
        end,
        result,
    ) by {
        let longer = seq![delivery] + rest;
        assert(longer[0] == delivery);
        assert(longer.drop_first() =~= rest);
        assert(received(now, bytes, at, longer, end, result));
        assert(done + longer =~= done.push(delivery) + rest);
    }
}

/// Where the rest of the stream comes to its end with no further delivery,
/// the whole stream comes to that end with the deliveries that are done.
pub(crate) proof fn lemma_carries_on_to_the_end(
    start: SessionView,
    bytes: Seq<u8>,
    done: Seq<Delivery>,
    now: SessionView,
    at: int,
    end: SessionView,
    result: Result<MqttState, MqttError>,
)
    requires
        carries_on(start, bytes, done, now, at),
        received(now, bytes, at, Seq::empty(), end, result),
    ensures
        received(start, bytes, 0, done, end, result),
{
    assert(done + Seq::<Delivery>::empty() =~= done);
}

/// Where the stream is given up at the packet at `at` with `error`, the
/// whole stream comes to that error and to a disconnected session, with
/// the deliveries that are done.
pub(crate) proof fn lemma_carries_on_to_a_failure(
    start: SessionView,
    bytes: Seq<u8>,
    done: Seq<Delivery>,
    now: SessionView,
    at: int,
    error: MqttError,
)
    requires
        carries_on(start, bytes, done, now, at),
        well_formed(bytes, 0),
        well_formed(bytes, at),
        at < bytes.len(),
        inbound_at(bytes, at).error() == Some(error),
    ensures
        received(
            start,
            bytes,
            0,
            done,
            SessionView { state: MqttState::Disconnected, ..now },
            Err(error),
        ),
        stream_error(bytes, 0) == Some(error),
{
    let end = SessionView { state: MqttState::Disconnected, ..now };
    let result = Err::<MqttState, MqttError>(error);
    assert(received(now, bytes, at, Seq::empty(), end, result));
    lemma_carries_on_to_the_end(start, bytes, done, now, at, end, result);
    lemma_received_outcome(start, bytes, 0, done, end, result);
}

/// The error, if any, at which the stream from `at` on is given up. It
/// depends on the bytes alone.
pub open spec fn stream_error(bytes: Seq<u8>, at: int) -> Option<MqttError>
    decreases bytes.len() - at,
    when well_formed(bytes, at)
{
    if at >= bytes.len() {
        None
    } else {
        match inbound_at(bytes, at).error() {
            Some(error) => Some(error),
            None => stream_error(bytes, packet_end(bytes, at)),
        }
    }
}

/// The number of messages that the stream from `at` on hands to the
/// callback. It depends on the bytes alone.
pub open spec fn message_count(bytes: Seq<u8>, at: int) -> nat
    decreases bytes.len() - at,
    when well_formed(bytes, at)
{
    if at >= bytes.len() || !inbound_at(bytes, at).goes_on() {
        0
    } else if inbound_at(bytes, at) is Message {
        1 + message_count(bytes, packet_end(bytes, at))
    } else {
        message_count(bytes, packet_end(bytes, at))
    }
}

/// Whether taking in a stream succeeds, with which error it fails, and how
/// often the callback is called depend on the bytes alone. On success the
/// result is the state that the session ends in; every failure leaves the
/// session disconnected, and none is for want of a connected session; and
/// all but the state changes only in the callback.
pub proof fn lemma_received_outcome(
    start: SessionView,
    bytes: Seq<u8>,
    at: int,
    deliveries: Seq<Delivery>,
    end: SessionView,
    result: Result<MqttState, MqttError>,
)
    requires
        well_formed(bytes, at),
        received(start, bytes, at, deliveries, end, result),
    ensures
        result is Ok <==> stream_error(bytes, at) is None,
        result is Err ==> stream_error(bytes, at) == Some(result->Err_0),
        result is Ok ==> result->Ok_0 == end.state,
        result is Err ==> end.state == MqttState::Disconnected,
        result != Err::<MqttState, MqttError>(MqttError::InvalidState),
        deliveries.len() == message_count(bytes, at),
        deliveries.len() == 0 ==> end == (SessionView { state: end.state, ..start }),
    decreases bytes.len() - at,
{
    if at < bytes.len() {
        let next = packet_end(bytes, at);
        match inbound_at(bytes, at) {
            Inbound::Accepted => {
                lemma_received_outcome(
                    SessionView { state: MqttState::Connected, ..start },
                    bytes,
                    next,
                    deliveries,
                    end,
                    result,
                );
            },
            Inbound::Acknowledged => {
                lemma_received_outcome(start, bytes, next, deliveries, end, result);
            },
            Inbound::Message { topic, payload } => {
                lemma_received_outcome(
                    deliveries[0].after,
                    bytes,
                    next,
                    deliveries.drop_first(),
                    end,
                    result,
                );
            },
            _ => {},
        }
    }
}

/// The state in which the stream from `at` on leaves a session that was in
/// `state`, as long as no callback steps in: disconnected where the stream
/// is given up, else connected where it holds a CONNACK, else `state`
/// itself.
pub open spec fn state_after(state: MqttState, bytes: Seq<u8>, at: int) -> MqttState
    decreases bytes.len() - at,
    when well_formed(bytes, at)
{
    if at >= bytes.len() {
        state
    } else {
        match inbound_at(bytes, at) {
            Inbound::Accepted => state_after(MqttState::Connected, bytes, packet_end(bytes, at)),
            Inbound::Acknowledged => state_after(state, bytes, packet_end(bytes, at)),
            Inbound::Refused | Inbound::Closed | Inbound::Unknown => MqttState::Disconnected,
            Inbound::Message { .. } => state,
        }
    }
}

/// A stream without PUBLISH packets never calls the callback, and changes
/// nothing of the session but the state, which is as its packets make it.
pub proof fn lemma_received_without_messages(
    start: SessionView,
    bytes: Seq<u8>,
    at: int,
    deliveries: Seq<Delivery>,
    end: SessionView,
    result: Result<MqttState, MqttError>,
)
    requires
        well_formed(bytes, at),
        received(start, bytes, at, deliveries, end, result),
        message_count(bytes, at) == 0,
    ensures
        deliveries.len() == 0,
        end == (SessionView { state: state_after(start.state, bytes, at), ..start }),
    decreases bytes.len() - at,
{
    lemma_received_outcome(start, bytes, at, deliveries, end, result);
    if at < bytes.len() {
        let next = packet_end(bytes, at);
        match inbound_at(bytes, at) {
            Inbound::Accepted => {
                lemma_received_without_messages(
                    SessionView { state: MqttState::Connected, ..start },
                    bytes,
                    next,
                    deliveries,
                    end,
                    result,
                );
            },
            Inbound::Acknowledged => {
                lemma_received_without_messages(start, bytes, next, deliveries, end, result);
            },
            _ => {},
        }
    }
}

} // verus!
