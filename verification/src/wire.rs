//! The byte-level encodings of the protocol, as functions on sequences of
//! bytes, and the facts that relate each encoding to its decoding.

use vstd::prelude::*;

verus! {

/// The two bytes of `value`, most significant first.
pub open spec fn u16_be(value: u16) -> Seq<u8> {
    seq![(value / 256) as u8, (value % 256) as u8]
}

/// The value whose big-endian bytes are `high` and `low`.
pub open spec fn u16_from_be(high: u8, low: u8) -> u16 {
    (high * 256 + low) as u16
}

/// The length prefix that goes before `len` bytes: the low sixteen bits of
/// `len`.
pub open spec fn length_prefix(len: nat) -> u16 {
    (len % 0x1_0000) as u16
}

/// A byte span behind its two-byte length prefix.
pub open spec fn length_prefixed(bytes: Seq<u8>) -> Seq<u8> {
    u16_be(length_prefix(bytes.len())) + bytes
}

/// The variable-byte encoding of `value`: seven bits per byte, least
/// significant group first, the top bit set on every byte but the last.
pub open spec fn var_int(value: nat) -> Seq<u8>
    decreases value,
{
    if value < 128 {
        seq![value as u8]
    } else {
        seq![(128 + value % 128) as u8] + var_int(value / 128)
    }
}

/// The number that the seven-bit groups of `bytes` spell, least significant
/// group first.
pub open spec fn var_int_value(bytes: Seq<u8>) -> nat
    decreases bytes.len(),
{
    if bytes.len() == 0 {
        0
    } else {
        (bytes[0] % 128) as nat + 128 * var_int_value(bytes.drop_first())
    }
}

/// The number of bytes up to and including the first one at or after `at`
/// whose top bit is clear, if it lies within `bytes` and is among the next
/// `limit` bytes; otherwise 0.
pub open spec fn var_int_width_within(bytes: Seq<u8>, at: int, limit: nat) -> nat
    decreases limit,
{
    if limit == 0 || at < 0 || at >= bytes.len() {
        0
    } else if bytes[at] < 128 {
        1
    } else {
        let rest = var_int_width_within(bytes, at + 1, (limit - 1) as nat);
        if rest == 0 {
            0
        } else {
            rest + 1
        }
    }
}

/// The width of the variable-byte integer that starts at `at`, or 0 if none
/// of at most five bytes ends within `bytes`.
pub open spec fn var_int_width(bytes: Seq<u8>, at: int) -> nat {
    var_int_width_within(bytes, at, 5)
}

/// The 32-bit value of the variable-byte integer that starts at `at`: what
/// its groups spell, cut to 32 bits.
pub open spec fn var_int_at(bytes: Seq<u8>, at: int) -> u32 {
    (var_int_value(bytes.subrange(at, at + var_int_width(bytes, at))) % 0x1_0000_0000) as u32
}

/// The weight of the seven-bit group at place `place`: 128 to that power.
pub open spec fn group_weight(place: nat) -> nat
    decreases place,
{
    if place == 0 {
        1
    } else {
        128 * group_weight((place - 1) as nat)
    }
}

/// Reading the two bytes of a value back gives the value.
pub proof fn lemma_u16_round_trip(value: u16)
    ensures
        u16_be(value).len() == 2,
        u16_from_be(u16_be(value)[0], u16_be(value)[1]) == value,
{
}

/// The encoding of a number is one byte below 128 and one byte more for each
/// further factor of 128, so a 32-bit value takes at most five bytes.
pub proof fn lemma_var_int_len(value: nat)
    ensures
        var_int(value).len() >= 1,
        value < 128 <==> var_int(value).len() == 1,
        128 <= value < 16_384 <==> var_int(value).len() == 2,
        16_384 <= value < 2_097_152 <==> var_int(value).len() == 3,
        2_097_152 <= value < 268_435_456 <==> var_int(value).len() == 4,
        268_435_456 <= value < 34_359_738_368 <==> var_int(value).len() == 5,
{
    reveal_with_fuel(var_int, 6);
}

/// In an encoding every byte but the last has its top bit set, the last has
/// it clear, and the last is zero only where the value itself is zero: no
/// encoding is padded.
pub proof fn lemma_var_int_shape(value: nat)
    ensures
        forall|i: int| 0 <= i < var_int(value).len() - 1 ==> #[trigger] var_int(value)[i] >= 128,
        var_int(value).last() < 128,
        var_int(value).last() == 0 ==> value == 0,
    decreases value,
{
    if value >= 128 {
        lemma_var_int_shape(value / 128);
        let rest = var_int(value / 128);
        assert forall|i: int| 0 <= i < var_int(value).len() - 1 implies #[trigger] var_int(
            value,
        )[i] >= 128 by {
            if i > 0 {
                assert(var_int(value)[i] == rest[i - 1]);
            }
        }
        assert(var_int(value).last() == rest.last());
    }
}

/// The groups of an encoding spell the value that was encoded.
pub proof fn lemma_var_int_value(value: nat)
    ensures
        var_int_value(var_int(value)) == value,
    decreases value,
{
    let enc = var_int(value);
    if value >= 128 {
        lemma_var_int_value(value / 128);
        assert(enc.drop_first() =~= var_int(value / 128));
        assert(enc[0] % 128 == value % 128);
    } else {
        assert(enc.drop_first().len() == 0);
        assert(var_int_value(enc.drop_first()) == 0);
    }
}

/// One more byte adds its seven-bit group at the next place.
pub proof fn lemma_var_int_value_push(bytes: Seq<u8>, last: u8)
    ensures
        var_int_value(bytes.push(last)) == var_int_value(bytes) + (last % 128) * group_weight(
            bytes.len(),
        ),
    decreases bytes.len(),
{
    let longer = bytes.push(last);
    if bytes.len() == 0 {
        assert(longer.drop_first().len() == 0);
        assert(var_int_value(longer.drop_first()) == 0);
        assert(var_int_value(bytes) == 0);
        assert(group_weight(0) == 1);
    } else {
        let tail = bytes.drop_first();
        lemma_var_int_value_push(tail, last);
        assert(longer.drop_first() =~= tail.push(last));
        let group = (last % 128) as int;
        let weight = group_weight(tail.len()) as int;
        assert(group_weight(bytes.len()) == 128 * weight);
        assert(128 * (group * weight) == group * (128 * weight)) by (nonlinear_arith);
        assert(var_int_value(longer) == longer[0] % 128 + 128 * var_int_value(tail.push(last)));
    }
}

/// What the groups of `bytes` spell stays below the weight of the next place.
pub proof fn lemma_var_int_value_bound(bytes: Seq<u8>)
    ensures
        var_int_value(bytes) < group_weight(bytes.len()),
    decreases bytes.len(),
{
    if bytes.len() > 0 {
        lemma_var_int_value_bound(bytes.drop_first());
    }
}

/// Where `bytes` holds the encoding of `value` at `at`, and the encoding has
/// at most `limit` bytes, the width found there is the encoding's length.
pub proof fn lemma_var_int_width_within(bytes: Seq<u8>, at: int, value: nat, limit: nat)
    requires
        0 <= at,
        at + var_int(value).len() <= bytes.len(),
        bytes.subrange(at, at + var_int(value).len()) == var_int(value),
        var_int(value).len() <= limit,
    ensures
        var_int_width_within(bytes, at, limit) == var_int(value).len(),
    decreases value,
{
    let enc = var_int(value);
    assert(bytes[at] == bytes.subrange(at, at + enc.len())[0]);
    if value >= 128 {
        let rest = var_int(value / 128);
        assert(bytes.subrange(at + 1, at + 1 + rest.len()) =~= rest) by {
            assert forall|i: int| 0 <= i < rest.len() implies bytes.subrange(
                at + 1,
                at + 1 + rest.len(),
            )[i] == rest[i] by {
                assert(bytes[at + 1 + i] == bytes.subrange(at, at + enc.len())[1 + i]);
            }
        }
        lemma_var_int_width_within(bytes, at + 1, value / 128, (limit - 1) as nat);
    }
}

/// A 32-bit value that was written in variable-byte form is read back from
/// the place where it was written, whatever stands before and after it.
pub proof fn lemma_var_int_round_trip(value: u32, before: Seq<u8>, after: Seq<u8>)
    ensures
        var_int_width(before + var_int(value as nat) + after, before.len() as int) == var_int(
            value as nat,
        ).len(),
        var_int_at(before + var_int(value as nat) + after, before.len() as int) == value,
{
    let enc = var_int(value as nat);
    let bytes = before + enc + after;
    let at = before.len() as int;
    lemma_var_int_len(value as nat);
    assert(bytes.subrange(at, at + enc.len()) =~= enc);
    lemma_var_int_width_within(bytes, at, value as nat, 5);
    lemma_var_int_value(value as nat);
}

/// A byte span that was written behind its length prefix is found again
/// behind the prefix, and the prefix reads as its length, provided the
/// length fits in sixteen bits.
pub proof fn lemma_length_prefixed_round_trip(bytes: Seq<u8>, before: Seq<u8>, after: Seq<u8>)
    requires
        bytes.len() <= 0xFFFF,
    ensures
        ({
            let all = before + length_prefixed(bytes) + after;
            let at = before.len() as int;
            &&& u16_from_be(all[at], all[at + 1]) == bytes.len()
            &&& all.subrange(at + 2, at + 2 + bytes.len()) == bytes
        }),
{
    let all = before + length_prefixed(bytes) + after;
    let at = before.len() as int;
    let prefix = u16_be(length_prefix(bytes.len()));
    lemma_u16_round_trip(length_prefix(bytes.len()));
    assert(all[at] == prefix[0]);
    assert(all[at + 1] == prefix[1]);
    assert(all.subrange(at + 2, at + 2 + bytes.len()) =~= bytes);
}

} // verus!
