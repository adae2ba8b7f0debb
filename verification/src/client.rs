//! The client session: it builds the packets a client sends and takes in the
//! packets a client receives.

use crate::flags::Flags;
use crate::inbound::{
    carries_on, content_start, declared_length, kind_at, lemma_carries_on_behind_message,
    lemma_carries_on_behind_packet, lemma_carries_on_from_start, lemma_carries_on_to_a_failure,
    lemma_carries_on_to_the_end,
    lemma_received_outcome, received, stream_error, well_formed, Delivery,
};
use crate::packet::{
    connect_body, connect_flags, following_id, framed, protocol_name, publish_body,
    remaining_length, subscribe_body, unsubscribe_body, ControlPacketType, PacketIdCounter,
};
use crate::reader_writer::{
    lemma_write_appends, lemma_write_twice, MqttMessageReader, MqttMessageWriter,
};
use crate::wire::{length_prefixed, u16_be, var_int};
use vstd::prelude::*;
use vstd::string::StringSliceAdditionalSpecFns;
use vstd::utf8::valid_utf8;

verus! {

/// Where a session stands with its server.
#[derive(Debug, Clone, Copy, PartialEq, Eq, Structural)]
pub enum MqttState {
    Disconnected,
    Connecting,
    Connected,
}

/// Why an operation of the session failed.
#[derive(Debug)]
pub enum MqttError {
    /// The operation needs a connected session.
    InvalidState,
    /// A packet of a kind that a client does not take in was received; the
    /// session is disconnected.
    InvalidPacket,
    /// The server answered the connection request with a reason code other
    /// than 0; the session is disconnected.
    ConnectionRefused,
    /// The server sent DISCONNECT; the session is disconnected.
    Disconnected,
}

/// What an operation of the session returns.
pub type MqttResult<T> = Result<T, MqttError>;

/// What a session is at one moment.
pub struct SessionView {
    pub state: MqttState,
    /// The packet identifier that the next SUBSCRIBE or UNSUBSCRIBE carries.
    pub next_packet_id: u16,
    /// What the buffer holds in which a packet's body is put together.
    pub construct_buffer: Seq<u8>,
    /// What the buffer holds in which the whole packet stands.
    pub message_buffer: Seq<u8>,
}

impl SessionView {
    /// The session after a packet was built: the body stands at the front of
    /// the construct buffer, the whole packet at the front of the message
    /// buffer, and nothing else has changed.
    pub open spec fn after_building(
        self,
        kind: ControlPacketType,
        flags: u8,
        body: Seq<u8>,
    ) -> SessionView {
        SessionView {
            construct_buffer: overwritten(self.construct_buffer, body),
            message_buffer: overwritten(self.message_buffer, framed(kind, flags, body)),
            ..self
        }
    }
}

/// A buffer after `bytes` were written from its start: they stand at the
/// front, and behind them the buffer holds what it held.
pub open spec fn overwritten(buffer: Seq<u8>, bytes: Seq<u8>) -> Seq<u8>
    recommends
        bytes.len() <= buffer.len(),
{
    bytes + buffer.subrange(bytes.len() as int, buffer.len() as int)
}

/// A client session with two buffers of `N` bytes: one in which a packet's
/// body is put together, one that holds the whole packet.
pub struct MqttClient<const N: usize> {
    state: MqttState,
    packet_counter: PacketIdCounter,
    construct_buffer: [u8; N],
    message_buffer: [u8; N],
}

impl<const N: usize> View for MqttClient<N> {
    type V = SessionView;

    closed spec fn view(&self) -> SessionView {
        SessionView {
            state: self.state,
            next_packet_id: self.packet_counter@,
            construct_buffer: self.construct_buffer@,
            message_buffer: self.message_buffer@,
        }
    }
}

/// The bytes of the name of the protocol are those of the text "MQTT".
proof fn lemma_protocol_name()
    ensures
        "MQTT".spec_bytes() == protocol_name(),
{
    reveal_strlit("MQTT");
    let chars = "MQTT"@;
    assert(vstd::utf8::is_ascii_chars(chars));
    vstd::utf8::is_ascii_chars_encode_utf8(chars);
    assert("MQTT".spec_bytes() =~= protocol_name());
}

/// The credentials as the bytes that go into a packet.
pub open spec fn credential_bytes(credentials: Option<(&str, &str)>) -> Option<(Seq<u8>, Seq<u8>)> {
    match credentials {
        Some((username, password)) => Some((username.spec_bytes(), password.spec_bytes())),
        None => None,
    }
}

impl<const N: usize> MqttClient<N> {
    /// Each of the two buffers of a session holds `N` bytes.
    pub proof fn lemma_buffers_hold_n_bytes(&self)
        ensures
            self@.construct_buffer.len() == N,
            self@.message_buffer.len() == N,
    {
    }

    /// A disconnected session whose first packet identifier is 1 and whose
    /// buffers are filled with zeros.
    pub fn new() -> (client: Self)
        ensures
            client@ == (SessionView {
                state: MqttState::Disconnected,
                next_packet_id: 1,
                construct_buffer: Seq::new(N as nat, |i: int| 0u8),
                message_buffer: Seq::new(N as nat, |i: int| 0u8),
            }),
    {
        let client = Self {
            state: MqttState::Disconnected,
            packet_counter: PacketIdCounter::new(),
            construct_buffer: [0;N],
            message_buffer: [0;N],
        };
        assert(client.construct_buffer@ =~= Seq::new(N as nat, |i: int| 0u8));
        assert(client.message_buffer@ =~= Seq::new(N as nat, |i: int| 0u8));
        client
    }

    /// Builds the CONNECT packet for `client_id` and the credentials, if any,
    /// and takes the session to `Connecting`, whatever state it was in.
    pub fn connect(&mut self, client_id: &str, username_password: Option<(&str, &str)>) -> (packet:
        MqttResult<&[u8]>)
        requires
            framed(
                ControlPacketType::CONNECT,
                0,
                connect_body(client_id.spec_bytes(), credential_bytes(username_password)),
            ).len() <= N,
        ensures
            packet is Ok,
            packet->Ok_0@ == framed(
                ControlPacketType::CONNECT,
                0,
                connect_body(client_id.spec_bytes(), credential_bytes(username_password)),
            ),
            final(self)@ == (SessionView {
                state: MqttState::Connecting,
                ..old(self)@.after_building(
                    ControlPacketType::CONNECT,
                    0,
                    connect_body(client_id.spec_bytes(), credential_bytes(username_password)),
                )
            }),
    {
        let ghost body = connect_body(client_id.spec_bytes(), credential_bytes(username_password));
        let mut writer = MqttMessageWriter::new(&mut self.construct_buffer);
        let ghost start = writer@;

        // Connect flags
        let mut flags = Flags::zero();
        flags.set(1);  // clean start
        if username_password.is_some() {
            flags.set(6).set(7);  // user name, password
        }
        let ghost flag_byte = flags.value;
        assert(flag_byte == connect_flags(username_password is Some)) by {
            assert(0u8 | (1u8 << 1usize) == 0x02 && (0x02u8 | (1u8 << 6usize)) | (1u8 << 7usize)
                == 0xC2) by (bit_vector);
        }

        // variable header
        proof {
            lemma_protocol_name();
        }
        writer.write_string("MQTT");
        writer.write_u8(0x05);  // Protocol version
        writer.write_flags(flags);  // Connect flags
        writer.write_u16(0);  // Keep alive turned off
        writer.write_u8(0);  // No properties
        let ghost header = length_prefixed(protocol_name()) + seq![0x05u8, flag_byte, 0, 0, 0];
        proof {
            let name = length_prefixed(protocol_name());
            lemma_write_twice(start, name, seq![0x05u8]);
            lemma_write_twice(start, name + seq![0x05u8], seq![flag_byte]);
            lemma_write_twice(start, name + seq![0x05u8] + seq![flag_byte], u16_be(0));
            lemma_write_twice(
                start,
                name + seq![0x05u8] + seq![flag_byte] + u16_be(0),
                seq![0u8],
            );
            assert(name + seq![0x05u8] + seq![flag_byte] + u16_be(0) + seq![0u8] =~= header);
        }

        // payload
        writer.write_string(client_id);
        proof {
            lemma_write_twice(start, header, length_prefixed(client_id.spec_bytes()));
        }

        if let Some((username, password)) = username_password {
            writer.write_string(username);
            writer.write_string(password);
            proof {
                let front = header + length_prefixed(client_id.spec_bytes());
                lemma_write_twice(start, front, length_prefixed(username.spec_bytes()));
                lemma_write_twice(
                    start,
                    front + length_prefixed(username.spec_bytes()),
                    length_prefixed(password.spec_bytes()),
                );
                assert(front + length_prefixed(username.spec_bytes()) + length_prefixed(
                    password.spec_bytes(),
                ) =~= body);
            }
        } else {
            assert(header + length_prefixed(client_id.spec_bytes()) =~= body);
        }

        self.state = MqttState::Connecting;

        let len = writer.len();
        proof {
            assert(start.written() =~= Seq::<u8>::empty());
            lemma_write_appends(start, body);
            assert(writer@.written() =~= body);
            writer.lemma_released();
            assert(self.construct_buffer@ =~= overwritten(old(self).construct_buffer@, body));
        }
        self.write_packet(ControlPacketType::CONNECT, Flags::zero(), len)
    }

    /// Builds a PUBLISH packet at QoS 0 for `topic` and `payload`. A session
    /// that is not connected refuses, and stays as it is.
    pub fn publish(&mut self, topic: &str, payload: &[u8]) -> (packet: Result<&[u8], MqttError>)
        requires
            old(self)@.state == MqttState::Connected ==> framed(
                ControlPacketType::PUBLISH,
                0,
                publish_body(topic.spec_bytes(), payload@),
            ).len() <= N,
        ensures
            old(self)@.state == MqttState::Connected ==> packet is Ok && packet->Ok_0@ == framed(
                ControlPacketType::PUBLISH,
                0,
                publish_body(topic.spec_bytes(), payload@),
            ) && final(self)@ == old(self)@.after_building(
                ControlPacketType::PUBLISH,
                0,
                publish_body(topic.spec_bytes(), payload@),
            ),
            old(self)@.state != MqttState::Connected ==> packet == Err::<&[u8], MqttError>(
                MqttError::InvalidState,
            ) && *final(self) == *old(self),
    {
        self.assert_state(MqttState::Connected)?;  // Check if the client is connected

        let ghost body = publish_body(topic.spec_bytes(), payload@);
        let mut writer = MqttMessageWriter::new(&mut self.construct_buffer);
        let ghost start = writer@;

        // variable header
        writer.write_string(topic);
        writer.write_u16(0);  // Packet identifier
        writer.write_u8(0);  // No properties

        // payload
        writer.write_bytes_raw(payload);

        let len = writer.len();
        proof {
            let front = length_prefixed(topic.spec_bytes());
            lemma_write_twice(start, front, u16_be(0));
            lemma_write_twice(start, front + u16_be(0), seq![0u8]);
            lemma_write_twice(start, front + u16_be(0) + seq![0u8], payload@);
            assert(front + u16_be(0) + seq![0u8] + payload@ =~= body);
            assert(start.written() =~= Seq::<u8>::empty());
            lemma_write_appends(start, body);
            assert(writer@.written() =~= body);
            writer.lemma_released();
            assert(self.construct_buffer@ =~= overwritten(old(self).construct_buffer@, body));
        }
        self.write_packet(ControlPacketType::PUBLISH, Flags::zero(), len)
    }

    /// Builds a SUBSCRIBE packet for `topic_filter` at QoS 0 under the next
    /// packet identifier. A session that is not connected refuses, and stays
    /// as it is.
    pub fn subscribe(&mut self, topic_filter: &str) -> (packet: Result<&[u8], MqttError>)
        requires
            old(self)@.state == MqttState::Connected ==> framed(
                ControlPacketType::SUBSCRIBE,
                0b0010,
                subscribe_body(old(self)@.next_packet_id, topic_filter.spec_bytes()),
            ).len() <= N,
        ensures
            old(self)@.state == MqttState::Connected ==> packet is Ok && packet->Ok_0@ == framed(
                ControlPacketType::SUBSCRIBE,
                0b0010,
                subscribe_body(old(self)@.next_packet_id, topic_filter.spec_bytes()),
            ) && final(self)@ == (SessionView {
                next_packet_id: following_id(old(self)@.next_packet_id),
                ..old(self)@.after_building(
                    ControlPacketType::SUBSCRIBE,
                    0b0010,
                    subscribe_body(old(self)@.next_packet_id, topic_filter.spec_bytes()),
                )
            }),
            old(self)@.state != MqttState::Connected ==> packet == Err::<&[u8], MqttError>(
                MqttError::InvalidState,
            ) && *final(self) == *old(self),
    {
        self.assert_state(MqttState::Connected)?;  // Check if the client is connected

        let ghost id = self@.next_packet_id;
        let ghost body = subscribe_body(id, topic_filter.spec_bytes());
        let mut writer = MqttMessageWriter::new(&mut self.construct_buffer);
        let ghost start = writer@;

        // variable header
        writer.write_u16(self.packet_counter.next());  // Packet identifier
        writer.write_u8(0);  // No properties

        // payload
        writer.write_string(topic_filter);
        writer.write_flags(Flags::zero());  // Subscription Options (with maximum QoS 0)

        let len = writer.len();
        proof {
            let filter = length_prefixed(topic_filter.spec_bytes());
            lemma_write_twice(start, u16_be(id), seq![0u8]);
            lemma_write_twice(start, u16_be(id) + seq![0u8], filter);
            lemma_write_twice(start, u16_be(id) + seq![0u8] + filter, seq![0u8]);
            assert(start.written() =~= Seq::<u8>::empty());
            lemma_write_appends(start, body);
            assert(writer@.written() =~= body);
            writer.lemma_released();
            assert(self.construct_buffer@ =~= overwritten(old(self).construct_buffer@, body));
        }
        self.write_packet(ControlPacketType::SUBSCRIBE, Flags::new(0b0010), len)
    }

    /// Builds an UNSUBSCRIBE packet for `topic_filter` under the next packet
    /// identifier. A session that is not connected refuses, and stays as it
    /// is.
    pub fn unsubscribe(&mut self, topic_filter: &str) -> (packet: Result<&[u8], MqttError>)
        requires
            old(self)@.state == MqttState::Connected ==> framed(
                ControlPacketType::UNSUBSCRIBE,
                0b0010,
                unsubscribe_body(old(self)@.next_packet_id, topic_filter.spec_bytes()),
            ).len() <= N,
        ensures
            old(self)@.state == MqttState::Connected ==> packet is Ok && packet->Ok_0@ == framed(
                ControlPacketType::UNSUBSCRIBE,
                0b0010,
                unsubscribe_body(old(self)@.next_packet_id, topic_filter.spec_bytes()),
            ) && final(self)@ == (SessionView {
                next_packet_id: following_id(old(self)@.next_packet_id),
                ..old(self)@.after_building(
                    ControlPacketType::UNSUBSCRIBE,
                    0b0010,
                    unsubscribe_body(old(self)@.next_packet_id, topic_filter.spec_bytes()),
                )
            }),
            old(self)@.state != MqttState::Connected ==> packet == Err::<&[u8], MqttError>(
                MqttError::InvalidState,
            ) && *final(self) == *old(self),
    {
        self.assert_state(MqttState::Connected)?;  // Check if the client is connected

        let ghost id = self@.next_packet_id;
        let ghost body = unsubscribe_body(id, topic_filter.spec_bytes());
        let mut writer = MqttMessageWriter::new(&mut self.construct_buffer);
        let ghost start = writer@;

        // variable header
        writer.write_u16(self.packet_counter.next());  // Packet identifier
        writer.write_u8(0);  // No properties

        // payload
        writer.write_string(topic_filter);

        let len = writer.len();
        proof {
            let filter = length_prefixed(topic_filter.spec_bytes());
            lemma_write_twice(start, u16_be(id), seq![0u8]);
            lemma_write_twice(start, u16_be(id) + seq![0u8], filter);
            assert(start.written() =~= Seq::<u8>::empty());
            lemma_write_appends(start, body);
            assert(writer@.written() =~= body);
            writer.lemma_released();
            assert(self.construct_buffer@ =~= overwritten(old(self).construct_buffer@, body));
        }
        self.write_packet(ControlPacketType::UNSUBSCRIBE, Flags::new(0b0010), len)
    }

    /// Takes in the packets that `packet` holds, one after the other, until
    /// its end or until one of them gives the stream up. Each PUBLISH packet
    /// goes to `on_publish_rec` with the session, the topic and the payload,
    /// and the callback may use the session as it likes.
    ///
    /// `packet` has to hold whole packets ([`crate::inbound::is_well_formed`] tells), and the
    /// callback has to take any session and any message.
    ///
    /// Whether the call succeeds, and with which error it fails, depends on
    /// the bytes alone, and every failure leaves the session disconnected.
    /// What else becomes of the session depends on the callback
    /// too: there is a sequence of deliveries, one for each call of the
    /// callback and each within what the callback itself ensures, through
    /// which the stream leads from the session as it was to the session as
    /// it is afterwards. On success the result is the state of the session
    /// as it is afterwards.
    #[verifier::loop_isolation(false)]
    pub fn receive_packet(
        &mut self,
        packet: &[u8],
        mut on_publish_rec: impl FnMut(&mut Self, &str, &[u8]) -> (),
    ) -> (result: Result<MqttState, MqttError>)
        requires
            well_formed(packet@, 0),
            forall|session: &mut Self, topic: &str, payload: &[u8]|
                call_requires(on_publish_rec, (session, topic, payload)),
        ensures
            result is Ok <==> stream_error(packet@, 0) is None,
            result is Err ==> stream_error(packet@, 0) == Some(result->Err_0),
            result is Ok ==> result->Ok_0 == final(self)@.state,
            result is Err ==> final(self)@.state == MqttState::Disconnected,
            exists|deliveries: Seq<Delivery>|
                #![trigger received(old(self)@, packet@, 0, deliveries, final(self)@, result)]
                received(old(self)@, packet@, 0, deliveries, final(self)@, result)
                    && forall|i: int|
                    0 <= i < deliveries.len() ==> valid_utf8((#[trigger] deliveries[i]).topic)
                        && exists|session: &mut Self, topic: &str, payload: &[u8]|
                        #[trigger] call_ensures(on_publish_rec, (session, topic, payload), ())
                            && session@ == deliveries[i].before
                            && final(session)@ == deliveries[i].after
                            && topic.spec_bytes() == deliveries[i].topic
                            && payload@ == deliveries[i].payload,
    {
        let mut reader = MqttMessageReader::new(packet);
        let ghost callback = on_publish_rec;
        let ghost mut done: Seq<Delivery> = Seq::empty();
        proof {
            lemma_carries_on_from_start(self@, packet@);
        }

        while reader.remaining() > 0
            invariant
                on_publish_rec == callback,
                reader@.input == packet@,
                reader@.position <= packet@.len() == packet.len(),
                well_formed(packet@, reader@.position as int),
                carries_on(old(self)@, packet@, done, self@, reader@.position as int),
                forall|i: int|
                    0 <= i < done.len() ==> valid_utf8((#[trigger] done[i]).topic)
                        && exists|session: &mut Self, topic: &str, payload: &[u8]|
                        #[trigger] call_ensures(on_publish_rec, (session, topic, payload), ())
                            && session@ == done[i].before
                            && final(session)@ == done[i].after
                            && topic.spec_bytes() == done[i].topic
                            && payload@ == done[i].payload,
            decreases packet@.len() - reader@.position,
        {
            let ghost at = reader@.position as int;
            let ghost before = self@;

            // Parse fixed header
            let fixed_header = reader.read_u8();
            let code = fixed_header >> 4;
            assert(code == fixed_header / 16) by (bit_vector)
                requires
                    code == fixed_header >> 4,
            ;
            let ty = ControlPacketType::from_u8(code);
            let _fixed_header_flags = Flags::new(fixed_header & 0x0F);
            let remaining_length = reader.read_variable_int() as usize;
            reader.mark();  // Remember start of packet content so we can skip it later
            assert(ty == kind_at(packet@, at));
            assert(reader@.position == content_start(packet@, at));
            assert(remaining_length == declared_length(packet@, at));

            match ty {
                Some(ControlPacketType::CONNACK) => {
                    let _connect_ack = reader.read_u8();
                    let reason_code = reader.read_u8();
                    if reason_code != 0 {
                        self.state = MqttState::Disconnected;
                        proof {
                            lemma_carries_on_to_a_failure(
                                old(self)@,
                                packet@,
                                done,
                                before,
                                at,
                                MqttError::ConnectionRefused,
                            );
                        }
                        return Err(MqttError::ConnectionRefused);
                    }
                    self.state = MqttState::Connected;
                    proof {
                        lemma_carries_on_behind_packet(old(self)@, packet@, done, before, at);
                    }
                },
                Some(ControlPacketType::SUBACK) => {
                    // Nothing to do here
                    proof {
                        lemma_carries_on_behind_packet(old(self)@, packet@, done, before, at);
                    }
                },
                Some(ControlPacketType::UNSUBACK) => {
                    // Nothing to do here
                    proof {
                        lemma_carries_on_behind_packet(old(self)@, packet@, done, before, at);
                    }
                },
                Some(ControlPacketType::PUBLISH) => {
                    let topic = reader.read_string();
                    let property_length = reader.read_variable_int() as usize;
                    reader.skip(property_length);  // We don't care about properties
                    let payload_length = remaining_length - reader.distance_from_mark();
                    let payload = reader.read_bytes_raw(payload_length);
                    on_publish_rec(self, topic, payload);
                    proof {
                        let delivery = Delivery {
                            before,
                            after: self@,
                            topic: topic.spec_bytes(),
                            payload: payload@,
                        };
                        assert(exists|session: &mut Self, t: &str, p: &[u8]|
                            #[trigger] call_ensures(on_publish_rec, (session, t, p), ())
                                && session@ == delivery.before && final(session)@ == delivery.after
                                && t.spec_bytes() == delivery.topic && p@ == delivery.payload);
                        lemma_carries_on_behind_message(
                            old(self)@,
                            packet@,
                            done,
                            before,
                            at,
                            delivery,
                        );
                        done = done.push(delivery);
                    }
                },
                Some(ControlPacketType::DISCONNECT) => {
                    self.state = MqttState::Disconnected;
                    proof {
                        lemma_carries_on_to_a_failure(
                            old(self)@,
                            packet@,
                            done,
                            before,
                            at,
                            MqttError::Disconnected,
                        );
                    }
                    return Err(MqttError::Disconnected);
                },
                _ => {
                    self.state = MqttState::Disconnected;
                    proof {
                        lemma_carries_on_to_a_failure(
                            old(self)@,
                            packet@,
                            done,
                            before,
                            at,
                            MqttError::InvalidPacket,
                        );
                    }
                    return Err(MqttError::InvalidPacket);
                },
            }
            reader.skip_to(remaining_length);
        }

        proof {
            let finished = Ok(self@.state);
            let at = reader@.position as int;
            assert(received(self@, packet@, at, Seq::<Delivery>::empty(), self@, finished));
            lemma_carries_on_to_the_end(old(self)@, packet@, done, self@, at, self@, finished);
            lemma_received_outcome(old(self)@, packet@, 0, done, self@, finished);
        }
        Ok(self.state)
    }

    /// Succeeds where the session is in `state`.
    #[inline(always)]
    fn assert_state(&self, state: MqttState) -> (result: MqttResult<()>)
        ensures
            self@.state == state ==> result is Ok,
            self@.state != state ==> result == Err::<(), MqttError>(MqttError::InvalidState),
    {
        if self.state != state {
            Err(MqttError::InvalidState)
        } else {
            Ok(())
        }
    }

    /// Frames the first `payload_len` bytes of the construct buffer into the
    /// message buffer: first byte, remaining length, body. The construct
    /// buffer, the state and the packet counter stay as they are.
    #[inline(always)]
    fn write_packet(&mut self, ty: ControlPacketType, flags: Flags, payload_len: usize) -> (packet:
        MqttResult<&[u8]>)
        requires
            flags.value < 16,
            payload_len <= N,
            framed(ty, flags.value, old(self).construct_buffer@.subrange(0, payload_len as int)).len()
                <= N,
        ensures
            packet is Ok,
            packet->Ok_0@ == framed(
                ty,
                flags.value,
                old(self).construct_buffer@.subrange(0, payload_len as int),
            ),
            final(self).state == old(self).state,
            final(self).packet_counter@ == old(self).packet_counter@,
            final(self).construct_buffer@ == old(self).construct_buffer@,
            final(self).message_buffer@ == overwritten(
                old(self).message_buffer@,
                framed(ty, flags.value, old(self).construct_buffer@.subrange(0, payload_len as int)),
            ),
    {
        let ghost body = self.construct_buffer@.subrange(0, payload_len as int);
        let ghost length = var_int(remaining_length(payload_len as nat));
        let mut writer = MqttMessageWriter::new(&mut self.message_buffer);
        let ghost start = writer@;
        let code = ty.code();
        let low = flags.value;
        let first = code << 4 | low;
        assert(first == code * 16 + low) by (bit_vector)
            requires
                first == code << 4 | low,
                code <= 15,
                low < 16,
        ;
        writer.write_u8(first);
        let field = #[verifier::truncate] (payload_len as u32);
        assert(field == (payload_len as u64) % 0x1_0000_0000) by (bit_vector)
            requires
                field == payload_len as u32,
        ;
        writer.write_variable_int(field);
        writer.write_bytes_raw(&self.construct_buffer[0..payload_len]);
        let len = writer.len();
        proof {
            lemma_write_twice(start, seq![first], length);
            lemma_write_twice(start, seq![first] + length, body);
            assert(start.written() =~= Seq::<u8>::empty());
            lemma_write_appends(start, framed(ty, flags.value, body));
            assert(writer@.written() =~= framed(ty, flags.value, body));
            writer.lemma_released();
        }
        Ok(&self.message_buffer[0..len])
    }
}

} // verus!
