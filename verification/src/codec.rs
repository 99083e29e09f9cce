//! The delta byte codec.
//!
//! A delta is the step from one sample to the next, taken after scaling both to
//! the signed 16-bit range and rounded to an integer. Taking the deltas of a
//! buffer, and adding them up again after reading, is sample arithmetic and the
//! caller's part; this module turns deltas into bytes and bytes into deltas.
//!
//! A stream is a flat sequence of units, one per delta. A delta strictly inside
//! the signed 8-bit range is written as one byte whose lowest bit is cleared; any
//! other delta is written as its two little-endian bytes with the lowest bit of
//! the first byte set.
//!
//! The reader tests the same bit with the opposite meaning: a first byte with the
//! lowest bit set is taken as a one-byte delta, a first byte with the lowest bit
//! clear as the start of a two-byte delta. Writer and reader therefore do not
//! invert each other. Both behaviours are kept exactly as they are, and
//! [`lemma_short_unit_is_read_as_long`] and [`lemma_long_unit_is_read_as_short`]
//! state the mismatch.

use vstd::prelude::*;

verus! {

/// Smallest delta written as a one-byte unit.
pub const SHORT_MIN: i16 = -127;

/// Largest delta written as a one-byte unit.
pub const SHORT_MAX: i16 = 126;

/// Whether the writer uses a one-byte unit for `delta`.
pub open spec fn is_short(delta: i16) -> bool {
    SHORT_MIN <= delta <= SHORT_MAX
}

/// The 16-bit two's-complement word of `delta`, as a number in `0..65536`.
pub open spec fn word_of(delta: i16) -> int {
    if delta < 0 {
        delta + 0x1_0000
    } else {
        delta as int
    }
}

/// The low byte of the word of `delta`.
pub open spec fn low_byte(delta: i16) -> int {
    word_of(delta) % 256
}

/// The high byte of the word of `delta`.
pub open spec fn high_byte(delta: i16) -> int {
    word_of(delta) / 256
}

/// The single byte of a short unit: the low byte with its lowest bit cleared.
pub open spec fn short_unit_byte(delta: i16) -> u8 {
    (low_byte(delta) - low_byte(delta) % 2) as u8
}

/// The first byte of a long unit: the low byte with its lowest bit set.
pub open spec fn long_unit_first(delta: i16) -> u8 {
    (low_byte(delta) - low_byte(delta) % 2 + 1) as u8
}

/// The second byte of a long unit: the high byte, unchanged.
pub open spec fn long_unit_second(delta: i16) -> u8 {
    high_byte(delta) as u8
}

/// The bytes that the writer emits for one delta.
pub open spec fn unit_bytes(delta: i16) -> Seq<u8> {
    if is_short(delta) {
        seq![short_unit_byte(delta)]
    } else {
        seq![long_unit_first(delta), long_unit_second(delta)]
    }
}

/// The stream for a sequence of deltas: their units, in order.
pub open spec fn encoded(deltas: Seq<i16>) -> Seq<u8>
    decreases deltas.len(),
{
    if deltas.len() == 0 {
        Seq::empty()
    } else {
        encoded(deltas.drop_last()) + unit_bytes(deltas.last())
    }
}

/// The value of one byte read as a signed 8-bit number.
pub open spec fn signed_byte(b: u8) -> i16 {
    if b < 128 {
        b as i16
    } else {
        (b - 256) as i16
    }
}

/// The value of two bytes read as a little-endian signed 16-bit number.
pub open spec fn signed_pair(first: u8, second: u8) -> i16 {
    if second < 128 {
        (first + 256 * second) as i16
    } else {
        (first + 256 * second - 0x1_0000) as i16
    }
}

/// The deltas that the reader takes from a stream, left to right. A first byte
/// with the lowest bit set is a one-byte delta. A first byte with the lowest bit
/// clear starts a two-byte delta; if the stream ends after it, the unit is dropped.
pub open spec fn decoded(stream: Seq<u8>) -> Seq<i16>
    decreases stream.len(),
{
    if stream.len() == 0 {
        Seq::empty()
    } else if stream[0] % 2 == 1 {
        seq![signed_byte(stream[0])] + decoded(stream.skip(1))
    } else if stream.len() >= 2 {
        seq![signed_pair(stream[0], stream[1])] + decoded(stream.skip(2))
    } else {
        Seq::empty()
    }
}

/// The number of deltas that need a two-byte unit.
pub open spec fn long_count(deltas: Seq<i16>) -> nat
    decreases deltas.len(),
{
    if deltas.len() == 0 {
        0
    } else if is_short(deltas.last()) {
        long_count(deltas.drop_last())
    } else {
        long_count(deltas.drop_last()) + 1
    }
}

/// The unit boundary and the tag bit: a delta from -127 to 126 gets one byte
/// with the lowest bit clear, every other delta two bytes with the lowest bit
/// of the first one set.
pub proof fn lemma_unit_shape(delta: i16)
    ensures
        is_short(delta) ==> unit_bytes(delta).len() == 1 && unit_bytes(delta)[0] % 2 == 0,
        !is_short(delta) ==> unit_bytes(delta).len() == 2 && unit_bytes(delta)[0] % 2 == 1,
{
}

/// A stream has one byte for each delta and one more for each delta outside
/// the short range.
pub proof fn lemma_encoded_len(deltas: Seq<i16>)
    ensures
        encoded(deltas).len() == deltas.len() + long_count(deltas),
        long_count(deltas) <= deltas.len(),
    decreases deltas.len(),
{
    if deltas.len() > 0 {
        lemma_encoded_len(deltas.drop_last());
        lemma_unit_shape(deltas.last());
    }
}

/// The reader never returns more deltas than the stream has bytes.
pub proof fn lemma_decoded_len(stream: Seq<u8>)
    ensures
        decoded(stream).len() <= stream.len(),
    decreases stream.len(),
{
    if stream.len() == 0 {
    } else if stream[0] % 2 == 1 {
        lemma_decoded_len(stream.skip(1));
    } else if stream.len() >= 2 {
        lemma_decoded_len(stream.skip(2));
    }
}

/// Polarity mismatch, short units: the reader takes the byte of a short unit
/// for the first byte of a two-byte delta and pairs it with whatever byte
/// follows; at the end of the stream the delta is lost.
pub proof fn lemma_short_unit_is_read_as_long(delta: i16, rest: Seq<u8>)
    requires
        is_short(delta),
    ensures
        decoded(unit_bytes(delta) + rest) == if rest.len() == 0 {
            Seq::<i16>::empty()
        } else {
            seq![signed_pair(short_unit_byte(delta), rest[0])] + decoded(rest.skip(1))
        },
{
    let stream = unit_bytes(delta) + rest;
    assert(stream[0] == short_unit_byte(delta));
    if rest.len() > 0 {
        assert(stream[1] == rest[0]);
        assert(stream.skip(2) == rest.skip(1));
    }
}

/// Polarity mismatch, long units: the reader takes the first byte of a long
/// unit for a one-byte delta and starts the next unit at its second byte.
pub proof fn lemma_long_unit_is_read_as_short(delta: i16, rest: Seq<u8>)
    requires
        !is_short(delta),
    ensures
        decoded(unit_bytes(delta) + rest) == seq![signed_byte(long_unit_first(delta))] + decoded(
            seq![long_unit_second(delta)] + rest,
        ),
{
    let stream = unit_bytes(delta) + rest;
    assert(stream[0] == long_unit_first(delta));
    assert(stream.skip(1) == seq![long_unit_second(delta)] + rest);
}

/// One unit of a stream.
#[derive(Clone, Copy, Debug, PartialEq, Eq, Structural)]
pub enum Unit {
    /// A one-byte unit.
    Short(u8),
    /// A two-byte unit, first byte first.
    Long(u8, u8),
}

impl Unit {
    /// The bytes of the unit, in stream order.
    pub open spec fn bytes(self) -> Seq<u8> {
        match self {
            Unit::Short(b) => seq![b],
            Unit::Long(first, second) => seq![first, second],
        }
    }

    /// The number of bytes the unit occupies in a stream.
    pub fn len(&self) -> (n: usize)
        ensures
            n == self.bytes().len(),
            n == 1 || n == 2,
    {
        match self {
            Unit::Short(_) => 1,
            Unit::Long(_, _) => 2,
        }
    }
}

/// Chooses and builds the unit for one delta.
pub fn encode_delta(delta: i16) -> (unit: Unit)
    ensures
        unit.bytes() == unit_bytes(delta),
        unit is Short <==> is_short(delta),
        unit matches Unit::Short(b) ==> b % 2 == 0,
        unit matches Unit::Long(first, _) ==> first % 2 == 1,
{
    let word: i32 = if delta < 0 {
        delta as i32 + 0x1_0000
    } else {
        delta as i32
    };
    let low: i32 = word % 256;
    let high: i32 = word / 256;
    let even: i32 = low - low % 2;
    if SHORT_MIN <= delta && delta <= SHORT_MAX {
        Unit::Short(even as u8)
    } else {
        Unit::Long((even + 1) as u8, high as u8)
    }
}

/// Writes the stream for `deltas`.
pub fn encode(deltas: &[i16]) -> (stream: Vec<u8>)
    ensures
        stream@ == encoded(deltas@),
{
    let mut stream: Vec<u8> = Vec::new();
    let mut i: usize = 0;
    while i < deltas.len()
        invariant
            i <= deltas.len(),
            stream@ == encoded(deltas@.take(i as int)),
        decreases deltas.len() - i,
    {
        proof {
            let next = deltas@.take(i + 1);
            assert(next.drop_last() == deltas@.take(i as int));
            assert(next.last() == deltas@[i as int]);
        }
        match encode_delta(deltas[i]) {
            Unit::Short(b) => {
                stream.push(b);
            },
            Unit::Long(first, second) => {
                stream.push(first);
                stream.push(second);
            },
        }
        i += 1;
    }
    proof {
        assert(deltas@.take(i as int) == deltas@);
    }
    stream
}

/// Reads one byte as a signed 8-bit delta.
fn read_short(b: u8) -> (delta: i16)
    ensures
        delta == signed_byte(b),
{
    if b < 128 {
        b as i16
    } else {
        (b as i16) - 256
    }
}

/// Reads two bytes as a little-endian signed 16-bit delta.
fn read_long(first: u8, second: u8) -> (delta: i16)
    ensures
        delta == signed_pair(first, second),
{
    let word: i32 = first as i32 + 256 * (second as i32);
    if second < 128 {
        word as i16
    } else {
        (word - 0x1_0000) as i16
    }
}

/// Reads the deltas of `stream`. An incomplete two-byte unit at the end is
/// dropped without an error.
pub fn decode(stream: &[u8]) -> (deltas: Vec<i16>)
    ensures
        deltas@ == decoded(stream@),
{
    let mut deltas: Vec<i16> = Vec::new();
    let mut i: usize = 0;
    proof {
        assert(stream@.skip(0) == stream@);
        assert(deltas@ + decoded(stream@) == decoded(stream@));
    }
    while i < stream.len()
        invariant
            i <= stream.len(),
            decoded(stream@) == deltas@ + decoded(stream@.skip(i as int)),
        decreases stream.len() - i,
    {
        let ghost rest = stream@.skip(i as int);
        let b = stream[i];
        assert(rest[0] == b);
        if b % 2 == 1 {
            proof {
                assert(rest.skip(1) == stream@.skip(i + 1));
                assert(deltas@.push(signed_byte(b)) + decoded(rest.skip(1)) == deltas@ + (seq![
                    signed_byte(b),
                ] + decoded(rest.skip(1))));
            }
            deltas.push(read_short(b));
            i += 1;
        } else if stream.len() - i >= 2 {
            let second = stream[i + 1];
            proof {
                assert(rest[1] == second);
                assert(rest.skip(2) == stream@.skip(i + 2));
                assert(deltas@.push(signed_pair(b, second)) + decoded(rest.skip(2)) == deltas@ + (
                seq![signed_pair(b, second)] + decoded(rest.skip(2))));
            }
            deltas.push(read_long(b, second));
            i += 2;
        } else {
            proof {
                assert(decoded(rest) == Seq::<i16>::empty());
                assert(decoded(stream@.skip(stream.len() as int)) == Seq::<i16>::empty());
            }
            i = stream.len();
        }
    }
    proof {
        assert(stream@.skip(i as int).len() == 0);
    }
    deltas
}

} // verus!
