//! Cursor-based writing into, and reading from, a borrowed byte buffer.
//!
//! A writer and a reader are described by their views, [`WriterView`] and
//! [`ReaderView`]. Every operation says what the view is afterwards; none
//! checks for room or for input at run time, so each requires the room or
//! the input that it needs.
//!
//! A writer borrows its buffer mutably. What the buffer holds once the
//! writer is gone is what the writer's view showed last:
//! [`MqttMessageWriter::lemma_released`] says so, and every operation says
//! that the writer still holds the borrow it was made with.

use crate::flags::Flags;
use crate::wire::{
    group_weight, lemma_length_prefixed_round_trip, lemma_var_int_len, lemma_var_int_round_trip,
    lemma_var_int_value_bound, lemma_var_int_value_push, length_prefixed, u16_be, u16_from_be,
    var_int, var_int_at, var_int_value, var_int_width, var_int_width_within,
};
use vstd::prelude::*;
use vstd::string::StringSliceAdditionalSpecFns;
use vstd::utf8::{decode_utf8, valid_utf8};

verus! {

/// What a writer is at one moment: the whole buffer it borrows, and how many
/// bytes of it have been written.
pub struct WriterView {
    pub storage: Seq<u8>,
    pub position: nat,
}

impl WriterView {
    /// The bytes written so far.
    pub open spec fn written(self) -> Seq<u8> {
        self.storage.subrange(0, self.position as int)
    }

    /// The number of bytes that can still be written.
    pub open spec fn room(self) -> int {
        self.storage.len() - self.position
    }

    /// The writer after `bytes` went in at the cursor: they replace what the
    /// buffer held there, the rest of the buffer stays, and the cursor stands
    /// behind them.
    pub open spec fn write(self, bytes: Seq<u8>) -> WriterView
        recommends
            bytes.len() <= self.room(),
    {
        WriterView {
            storage: self.storage.subrange(0, self.position as int) + bytes + self.storage.subrange(
                (self.position + bytes.len()) as int,
                self.storage.len() as int,
            ),
            position: self.position + bytes.len(),
        }
    }
}

/// Writing `first` and then `second` is writing the two in one piece.
pub proof fn lemma_write_twice(view: WriterView, first: Seq<u8>, second: Seq<u8>)
    requires
        first.len() + second.len() <= view.room(),
    ensures
        view.write(first).write(second) == view.write(first + second),
{
    assert(view.write(first).write(second).storage =~= view.write(first + second).storage);
}

/// What was written stands at the front of the buffer, in the order of
/// writing, and the buffer keeps its length.
pub proof fn lemma_write_appends(view: WriterView, bytes: Seq<u8>)
    requires
        0 <= bytes.len() <= view.room(),
    ensures
        view.write(bytes).written() == view.written() + bytes,
        view.write(bytes).storage.len() == view.storage.len(),
        view.write(bytes).room() == view.room() - bytes.len(),
{
    assert(view.write(bytes).written() =~= view.written() + bytes);
}

/// A sequential serializer into a caller-owned buffer.
pub struct MqttMessageWriter<'a> {
    buffer: &'a mut [u8],
    cursor: usize,
}

impl<'a> View for MqttMessageWriter<'a> {
    type V = WriterView;

    closed spec fn view(&self) -> WriterView {
        WriterView { storage: self.buffer@, position: self.cursor as nat }
    }
}

impl<'a> MqttMessageWriter<'a> {
    #[verifier::type_invariant]
    spec fn cursor_within_buffer(self) -> bool {
        self.cursor <= self.buffer@.len()
    }

    /// The borrow of the buffer that the writer holds.
    pub closed spec fn target(&self) -> &'a mut [u8] {
        self.buffer
    }

    /// Once a writer is no longer used, the buffer it borrowed holds what the
    /// writer's view shows.
    pub proof fn lemma_released(self)
        requires
            has_resolved(self),
        ensures
            final(self.target())@ == self@.storage,
    {
    }

    /// A writer at the start of `buffer`.
    pub fn new(buffer: &'a mut [u8]) -> (writer: Self)
        ensures
            writer@ == (WriterView { storage: old(buffer)@, position: 0 }),
            final(writer.target())@ == final(buffer)@,
    {
        Self { buffer, cursor: 0 }
    }

    /// Writes one byte.
    pub fn write_u8(&mut self, value: u8)
        requires
            old(self)@.room() >= 1,
        ensures
            final(self)@ == old(self)@.write(seq![value]),
            final(final(self).target())@ == final(old(self).target())@,
    {
        self.buffer[self.cursor] = value;
        self.cursor += 1;
        assert(self@.storage =~= old(self)@.write(seq![value]).storage);
    }

    /// Writes the byte of a flag set.
    pub fn write_flags(&mut self, value: Flags)
        requires
            old(self)@.room() >= 1,
        ensures
            final(self)@ == old(self)@.write(seq![value.value]),
            final(final(self).target())@ == final(old(self).target())@,
    {
        self.write_u8(value.value);
    }

    /// Writes two bytes, the more significant first.
    pub fn write_u16(&mut self, value: u16)
        requires
            old(self)@.room() >= 2,
        ensures
            final(self)@ == old(self)@.write(u16_be(value)),
            final(final(self).target())@ == final(old(self).target())@,
    {
        let high = (value >> 8) as u8;
        let low = #[verifier::truncate] (value as u8);
        assert(high == value / 256 && low == value % 256) by (bit_vector)
            requires
                high == (value >> 8) as u8,
                low == value as u8,
        ;
        self.buffer[self.cursor] = high;
        self.buffer[self.cursor + 1] = low;
        self.cursor += 2;
        assert(self@.storage =~= old(self)@.write(u16_be(value)).storage);
    }

    /// Writes the UTF-8 bytes of `value` behind a two-byte prefix that holds
    /// their number, cut to sixteen bits.
    pub fn write_string(&mut self, value: &str)
        requires
            old(self)@.room() >= 2 + value.spec_bytes().len(),
        ensures
            final(self)@ == old(self)@.write(length_prefixed(value.spec_bytes())),
            final(final(self).target())@ == final(old(self).target())@,
    {
        let bytes = value.as_bytes();
        self.write_bytes(bytes);
    }

    /// Writes `value` behind a two-byte prefix that holds its length, cut to
    /// sixteen bits.
    pub fn write_bytes(&mut self, value: &[u8])
        requires
            old(self)@.room() >= 2 + value@.len(),
        ensures
            final(self)@ == old(self)@.write(length_prefixed(value@)),
            final(final(self).target())@ == final(old(self).target())@,
    {
        let len = value.len();
        let prefix = #[verifier::truncate] (len as u16);
        assert(prefix == len % 0x1_0000) by (bit_vector)
            requires
                prefix == len as u16,
        ;
        self.write_u16(prefix);
        self.write_bytes_raw(value);
        proof {
            lemma_write_twice(old(self)@, u16_be(prefix), value@);
        }
    }

    /// Writes `value` as it is, with no prefix.
    pub fn write_bytes_raw(&mut self, value: &[u8])
        requires
            old(self)@.room() >= value@.len(),
        ensures
            final(self)@ == old(self)@.write(value@),
            final(final(self).target())@ == final(old(self).target())@,
    {
        let mut i: usize = 0;
        assert(self@.storage =~= old(self)@.write(value@.subrange(0, 0)).storage);
        while i < value.len()
            invariant
                i <= value@.len(),
                old(self)@.room() >= value@.len(),
                self@ == old(self)@.write(value@.subrange(0, i as int)),
                final(self.target())@ == final(old(self).target())@,
            decreases value@.len() - i,
        {
            let ghost before = self@;
            self.buffer[self.cursor] = value[i];
            self.cursor += 1;
            proof {
                assert(self@.storage =~= before.write(seq![value@[i as int]]).storage);
                lemma_write_twice(old(self)@, value@.subrange(0, i as int), seq![value@[i as int]]);
                assert(value@.subrange(0, i as int) + seq![value@[i as int]] =~= value@.subrange(
                    0,
                    i + 1,
                ));
            }
            i += 1;
        }
        assert(value@.subrange(0, i as int) =~= value@);
    }

    /// Writes `value` as a variable-byte integer: one to five bytes, never
    /// more than the value needs.
    pub fn write_variable_int(&mut self, mut value: u32)
        requires
            old(self)@.room() >= var_int(value as nat).len(),
        ensures
            final(self)@ == old(self)@.write(var_int(value as nat)),
            final(final(self).target())@ == final(old(self).target())@,
    {
        let ghost whole = var_int(value as nat);
        let ghost mut done = Seq::<u8>::empty();
        assert(self@.storage =~= old(self)@.write(done).storage);
        loop
            invariant_except_break
                whole == done + var_int(value as nat),
            invariant
                old(self)@.room() >= whole.len(),
                self@ == old(self)@.write(done),
                final(self.target())@ == final(old(self).target())@,
            ensures
                whole == done,
            decreases value,
        {
            let ghost before = self@;
            let ghost rest = value;
            let mut byte = #[verifier::truncate] ((value & 0x7F) as u8);
            value >>= 7;
            if value > 0 {
                byte |= 0x80;
            }
            assert(value == rest / 128 && byte == (if rest < 128 {
                rest as int
            } else {
                128 + rest % 128
            })) by (bit_vector)
                requires
                    value == rest >> 7,
                    byte == (if value > 0 {
                        ((rest & 0x7F) as u8) | 0x80
                    } else {
                        (rest & 0x7F) as u8
                    }),
            ;
            proof {
                assert(var_int(rest as nat).len() >= 1) by {
                    lemma_var_int_len(rest as nat);
                }
                assert(var_int(rest as nat)[0] == byte);
            }
            self.buffer[self.cursor] = byte;
            self.cursor += 1;
            proof {
                assert(self@.storage =~= before.write(seq![byte]).storage);
                lemma_write_twice(old(self)@, done, seq![byte]);
                assert(whole =~= done + seq![byte] + (if rest < 128 {
                    Seq::<u8>::empty()
                } else {
                    var_int(value as nat)
                }));
                done = done + seq![byte];
            }
            if value == 0 {
                assert(rest < 128);
                break ;
            }
        }
    }

    /// The number of bytes written so far.
    pub fn len(&self) -> (len: usize)
        ensures
            len == self@.position,
            len <= self@.storage.len(),
    {
        proof {
            use_type_invariant(self);
        }
        self.cursor
    }
}

/// What a reader is at one moment: the bytes it reads from, the offset of the
/// next byte to read, and the offset that was last marked.
pub struct ReaderView {
    pub input: Seq<u8>,
    pub position: nat,
    pub marked: nat,
}

impl ReaderView {
    /// The reader with its cursor `count` bytes further on.
    pub open spec fn advance(self, count: nat) -> ReaderView {
        ReaderView { position: self.position + count, ..self }
    }

    /// The number of bytes between the cursor and the end of the input.
    pub open spec fn remaining(self) -> int {
        self.input.len() - self.position
    }

    /// The length that the two bytes at the cursor spell.
    pub open spec fn prefix(self) -> nat {
        u16_from_be(self.input[self.position as int], self.input[self.position as int + 1]) as nat
    }

    /// Whether a length prefix and as many bytes as it announces lie between
    /// the cursor and the end of the input.
    pub open spec fn holds_prefixed(self) -> bool {
        self.remaining() >= 2 && self.remaining() >= 2 + self.prefix()
    }

    /// The bytes behind the length prefix at the cursor.
    pub open spec fn prefixed(self) -> Seq<u8> {
        self.input.subrange(self.position as int + 2, self.position as int + 2 + self.prefix())
    }

    /// The next `count` bytes.
    pub open spec fn next(self, count: nat) -> Seq<u8> {
        self.input.subrange(self.position as int, self.position as int + count)
    }
}

/// `core::str::from_utf8`: the bytes as a string slice where they are valid
/// UTF-8, and nothing where they are not. The slice that comes back is the
/// input itself, so its bytes are the input's.
#[verifier::external_body]
fn utf8_text(bytes: &[u8]) -> (text: Option<&str>)
    ensures
        text is Some <==> valid_utf8(bytes@),
        text is Some ==> text->0.spec_bytes() == bytes@,
{
    match core::str::from_utf8(bytes) {
        Ok(text) => Some(text),
        Err(_) => None,
    }
}

/// Whether `bytes` are valid UTF-8, and so can be read as a string.
pub fn is_utf8(bytes: &[u8]) -> (valid: bool)
    ensures
        valid == valid_utf8(bytes@),
{
    utf8_text(bytes).is_some()
}

/// A sequential deserializer over a borrowed byte slice.
pub struct MqttMessageReader<'a> {
    buffer: &'a [u8],
    cursor: usize,
    mark: usize,
}

impl<'a> View for MqttMessageReader<'a> {
    type V = ReaderView;

    closed spec fn view(&self) -> ReaderView {
        ReaderView { input: self.buffer@, position: self.cursor as nat, marked: self.mark as nat }
    }
}

impl<'a> MqttMessageReader<'a> {
    #[verifier::type_invariant]
    spec fn mark_behind_cursor(self) -> bool {
        self.mark <= self.cursor
    }

    /// A reader at the start of `buffer`, with the mark at the start too.
    pub fn new(buffer: &'a [u8]) -> (reader: Self)
        ensures
            reader@ == (ReaderView { input: buffer@, position: 0, marked: 0 }),
    {
        Self { buffer, cursor: 0, mark: 0 }
    }

    /// Reads one byte.
    pub fn read_u8(&mut self) -> (value: u8)
        requires
            old(self)@.remaining() >= 1,
        ensures
            value == old(self)@.input[old(self)@.position as int],
            final(self)@ == old(self)@.advance(1),
    {
        proof {
            use_type_invariant(&*self);
        }
        let value = self.buffer[self.cursor];
        self.cursor += 1;
        value
    }

    /// Reads two bytes as a number, the more significant first.
    pub fn read_u16(&mut self) -> (value: u16)
        requires
            old(self)@.remaining() >= 2,
        ensures
            value == old(self)@.prefix(),
            final(self)@ == old(self)@.advance(2),
    {
        proof {
            use_type_invariant(&*self);
        }
        let high = self.buffer[self.cursor];
        let low = self.buffer[self.cursor + 1];
        let value = ((high as u16) << 8) | low as u16;
        assert(value == high * 256 + low) by (bit_vector)
            requires
                value == ((high as u16) << 8) | low as u16,
        ;
        self.cursor += 2;
        value
    }

    /// Reads a two-byte length and as many bytes as it says, and gives them
    /// as the string that they encode. The string borrows from the input.
    pub fn read_string(&mut self) -> (text: &'a str)
        requires
            old(self)@.holds_prefixed(),
            valid_utf8(old(self)@.prefixed()),
        ensures
            text.spec_bytes() == old(self)@.prefixed(),
            text@ == decode_utf8(old(self)@.prefixed()),
            final(self)@ == old(self)@.advance(2 + old(self)@.prefix()),
    {
        let bytes = self.read_bytes();
        let text = utf8_text(bytes).unwrap();
        proof {
            vstd::utf8::encode_utf8_decode_utf8(text@);
        }
        text
    }

    /// Reads a two-byte length and as many bytes as it says. The span
    /// borrows from the input.
    pub fn read_bytes(&mut self) -> (bytes: &'a [u8])
        requires
            old(self)@.holds_prefixed(),
        ensures
            bytes@ == old(self)@.prefixed(),
            final(self)@ == old(self)@.advance(2 + old(self)@.prefix()),
    {
        let length = self.read_u16() as usize;
        self.read_bytes_raw(length)
    }

    /// Reads `length` bytes. The span borrows from the input.
    pub fn read_bytes_raw(&mut self, length: usize) -> (bytes: &'a [u8])
        requires
            old(self)@.remaining() >= length,
        ensures
            bytes@ == old(self)@.next(length as nat),
            final(self)@ == old(self)@.advance(length as nat),
    {
        proof {
            use_type_invariant(&*self);
        }
        assert(self.buffer@.len() == self.buffer.len());
        let start = self.cursor;
        self.cursor += length;
        &self.buffer[start..self.cursor]
    }

    /// Reads a variable-byte integer of at most five bytes. Of a fifth byte
    /// only the four bits that still fit into 32 bits count.
    pub fn read_variable_int(&mut self) -> (value: u32)
        requires
            var_int_width(old(self)@.input, old(self)@.position as int) > 0,
        ensures
            value == var_int_at(old(self)@.input, old(self)@.position as int),
            final(self)@ == old(self)@.advance(
                var_int_width(old(self)@.input, old(self)@.position as int),
            ),
    {
        proof {
            use_type_invariant(&*self);
        }
        let mut value: u32 = 0;
        let mut shift: u32 = 0;
        let ghost input = self@.input;
        let ghost start = self@.position as int;
        let ghost mut count: nat = 0;
        assert(input.subrange(start, start) =~= Seq::<u8>::empty());
        loop
            invariant_except_break
                count <= 4,
                shift == 7 * count,
                value == var_int_value(input.subrange(start, start + count)),
                var_int_width_within(input, start + count, (5 - count) as nat) > 0,
                var_int_width(input, start) == count + var_int_width_within(
                    input,
                    start + count,
                    (5 - count) as nat,
                ),
            invariant
                self@ == old(self)@.advance(count),
                input == old(self)@.input,
                start == old(self)@.position,
                self.mark <= self.cursor,
            ensures
                count == var_int_width(input, start),
                value == var_int_at(input, start),
            decreases 5 - count,
        {
            let ghost place = start + count;
            assert(place < input.len());
            let byte = self.buffer[self.cursor];
            self.cursor += 1;
            let low = (byte & 0x7F) as u32;
            let ghost seen = input.subrange(start, place);
            let ghost weight: u32 = if count == 0 {
                1
            } else if count == 1 {
                128
            } else if count == 2 {
                16_384
            } else if count == 3 {
                2_097_152
            } else {
                268_435_456
            };
            let ghost sum: u64 = (value as u64 + low as u64 * weight as u64) as u64;
            let ghost earlier = value;
            value |= low << shift;
            proof {
                assert(group_weight(count) == weight) by {
                    reveal_with_fuel(group_weight, 5);
                }
                lemma_var_int_value_bound(seen);
                lemma_var_int_value_push(seen, byte);
                assert(seen.push(byte) =~= input.subrange(start, place + 1));
                assert(low == byte % 128 && (byte & 0x80 == 0 <==> byte < 128)) by (bit_vector)
                    requires
                        low == (byte & 0x7F) as u32,
                ;
                assert(sum == earlier + low * weight && value == sum % 0x1_0000_0000 && (shift < 28
                    ==> sum < weight * 128 && value == sum)) by (bit_vector)
                    requires
                        low < 128,
                        value == earlier | (low << shift),
                        sum == (earlier as u64 + low as u64 * weight as u64) as u64,
                        earlier < weight,
                        (shift == 0u32 && weight == 1u32) || (shift == 7u32 && weight == 128u32) || (
                        shift == 14u32 && weight == 16_384u32) || (shift == 21u32 && weight
                            == 2_097_152u32) || (shift == 28u32 && weight == 268_435_456u32),
                ;
                assert(sum == var_int_value(input.subrange(start, place + 1)));
                let here = var_int_width_within(input, place, (5 - count) as nat);
                if byte < 128 {
                    assert(here == 1);
                    assert(var_int_width(input, start) == count + 1);
                } else {
                    let behind = var_int_width_within(input, place + 1, (4 - count) as nat);
                    assert(here == behind + 1 && behind > 0);
                    assert(count < 4);
                    assert(shift < 28);
                    assert(group_weight(count + 1) == weight * 128) by {
                        reveal_with_fuel(group_weight, 2);
                    }
                }
                count = count + 1;
            }
            shift += 7;
            if byte & 0x80 == 0 {
                break ;
            }
        }
        value
    }

    /// The number of bytes from the cursor to the end of the input.
    pub fn remaining(&self) -> (count: usize)
        requires
            self@.remaining() >= 0,
        ensures
            count == self@.remaining(),
    {
        self.buffer.len() - self.cursor
    }

    /// Moves the cursor `length` bytes on. It may come to stand beyond the
    /// end of the input, where nothing can be read.
    pub fn skip(&mut self, length: usize)
        requires
            old(self)@.position + length <= usize::MAX,
        ensures
            final(self)@ == old(self)@.advance(length as nat),
    {
        proof {
            use_type_invariant(&*self);
        }
        self.cursor += length;
    }

    /// Marks the place where the cursor stands.
    pub fn mark(&mut self)
        ensures
            final(self)@ == (ReaderView { marked: old(self)@.position, ..old(self)@ }),
    {
        self.mark = self.cursor;
    }

    /// Puts the cursor `position` bytes behind the mark, wherever it stood.
    pub fn skip_to(&mut self, position: usize)
        requires
            old(self)@.marked + position <= usize::MAX,
        ensures
            final(self)@ == (ReaderView {
                position: (old(self)@.marked + position) as nat,
                ..old(self)@
            }),
    {
        self.cursor = self.mark + position;
    }

    /// The number of bytes from the mark to the cursor.
    pub fn distance_from_mark(&self) -> (distance: usize)
        ensures
            distance == self@.position - self@.marked,
    {
        proof {
            use_type_invariant(self);
        }
        self.cursor - self.mark
    }
}

/// A text that was written behind its length prefix can be read as a string
/// from the place where it was written, and reading gives the text's bytes,
/// its characters and, as the prefix, its length, provided the length fits
/// in sixteen bits.
pub proof fn lemma_string_round_trip(writer: WriterView, text: &str, marked: nat)
    requires
        writer.position <= writer.storage.len(),
        writer.room() >= 2 + text.spec_bytes().len(),
        text.spec_bytes().len() <= 0xFFFF,
    ensures
        ({
            let reader = ReaderView {
                input: writer.write(length_prefixed(text.spec_bytes())).storage,
                position: writer.position,
                marked,
            };
            &&& reader.holds_prefixed()
            &&& reader.prefix() == text.spec_bytes().len()
            &&& reader.prefixed() == text.spec_bytes()
            &&& valid_utf8(reader.prefixed())
            &&& decode_utf8(reader.prefixed()) == text@
        }),
{
    let bytes = text.spec_bytes();
    let before = writer.storage.subrange(0, writer.position as int);
    let after = writer.storage.subrange(
        (writer.position + 2 + bytes.len()) as int,
        writer.storage.len() as int,
    );
    lemma_length_prefixed_round_trip(bytes, before, after);
    vstd::utf8::encode_utf8_valid_utf8(text@);
    vstd::utf8::encode_utf8_decode_utf8(text@);
}

/// A byte span that was written behind its length prefix can be read from
/// the place where it was written, and reading gives the span, provided its
/// length fits in sixteen bits.
pub proof fn lemma_bytes_round_trip(writer: WriterView, bytes: Seq<u8>, marked: nat)
    requires
        writer.position <= writer.storage.len(),
        writer.room() >= 2 + bytes.len(),
        bytes.len() <= 0xFFFF,
    ensures
        ({
            let reader = ReaderView {
                input: writer.write(length_prefixed(bytes)).storage,
                position: writer.position,
                marked,
            };
            &&& reader.holds_prefixed()
            &&& reader.prefix() == bytes.len()
            &&& reader.prefixed() == bytes
        }),
{
    let before = writer.storage.subrange(0, writer.position as int);
    let after = writer.storage.subrange(
        (writer.position + 2 + bytes.len()) as int,
        writer.storage.len() as int,
    );
    lemma_length_prefixed_round_trip(bytes, before, after);
}

/// A 32-bit value that was written as a variable-byte integer can be read
/// from the place where it was written, and reading gives the value and
/// moves over exactly the bytes that were written.
pub proof fn lemma_variable_int_round_trip(writer: WriterView, value: u32)
    requires
        writer.position <= writer.storage.len(),
        writer.room() >= var_int(value as nat).len(),
    ensures
        ({
            let input = writer.write(var_int(value as nat)).storage;
            &&& var_int_width(input, writer.position as int) == var_int(value as nat).len()
            &&& var_int_width(input, writer.position as int) > 0
            &&& var_int_at(input, writer.position as int) == value
        }),
{
    let encoding = var_int(value as nat);
    let before = writer.storage.subrange(0, writer.position as int);
    let after = writer.storage.subrange(
        (writer.position + encoding.len()) as int,
        writer.storage.len() as int,
    );
    lemma_var_int_round_trip(value, before, after);
    lemma_var_int_len(value as nat);
}

/// A 16-bit value that was written can be read from the place where it was
/// written.
pub proof fn lemma_u16_write_read(writer: WriterView, value: u16, marked: nat)
    requires
        writer.position <= writer.storage.len(),
        writer.room() >= 2,
    ensures
        (ReaderView {
            input: writer.write(u16_be(value)).storage,
            position: writer.position,
            marked,
        }).prefix() == value,
{
}

} // verus!
