//! Key-value pairs, as they follow one another in a message.
//!
//! A pair is written as the difference between its type and the type of the
//! pair before it (a variable-length integer), then its value: for an even
//! type a variable-length integer, for an odd type a variable-length byte
//! count followed by that many bytes (at most 65535).
use vstd::prelude::*;
use vstd::slice::slice_subrange;
use vstd::slice::slice_to_vec;
use crate::vi64;

verus! {

/// The value of a pair: an integer for an even type, bytes for an odd one.
#[derive(Debug, PartialEq, Eq)]
pub enum Value {
    Integer(u64),
    Bytes(Vec<u8>),
}

/// A typed value.
#[derive(Debug, PartialEq, Eq)]
pub struct KeyValuePair {
    pub type_id: u64,
    pub value: Value,
}

/// Why a pair cannot be encoded.
#[derive(Debug, Clone, Copy, PartialEq, Eq, Structural)]
pub enum EncodeError {
    /// The pair's type is below the type of the pair before it.
    TypeDecreased { previous: u64, current: u64 },
    /// An even type with bytes, or an odd type with an integer.
    ValueKindMismatch { type_id: u64 },
    /// A byte value longer than 65535 bytes.
    ValueTooLong { length: usize },
}

/// Why a byte string does not start with a pair.
#[derive(Debug, Clone, Copy, PartialEq, Eq, Structural)]
pub enum DecodeError {
    /// The type difference, the integer value or the byte count is malformed.
    Vi64(vi64::DecodeError),
    /// The type difference takes the type past `u64::MAX`.
    TypeOverflow { previous: u64, delta: u64 },
    /// The byte count exceeds 65535.
    ValueTooLong { length: u64 },
    /// The byte value runs past the end of the input.
    UnexpectedEnd { expected: usize, actual: usize },
}

/// The mathematical content of a [`Value`].
pub enum ValueModel {
    Integer(u64),
    Bytes(Seq<u8>),
}

/// The mathematical content of a [`KeyValuePair`].
pub struct PairModel {
    pub type_id: u64,
    pub value: ValueModel,
}

impl View for Value {
    type V = ValueModel;

    open spec fn view(&self) -> ValueModel {
        match self {
            Value::Integer(v) => ValueModel::Integer(*v),
            Value::Bytes(b) => ValueModel::Bytes(b@),
        }
    }
}

impl View for KeyValuePair {
    type V = PairModel;

    open spec fn view(&self) -> PairModel {
        PairModel { type_id: self.type_id, value: self.value@ }
    }
}

/// The longest byte value a pair may carry.
pub open spec fn max_value_length() -> nat {
    0xffff
}

/// What `encode` gives for `pair` after a pair of type `previous_type`.
pub open spec fn spec_encode(previous_type: u64, pair: PairModel) -> Result<Seq<u8>, EncodeError> {
    if pair.type_id < previous_type {
        Err(EncodeError::TypeDecreased { previous: previous_type, current: pair.type_id })
    } else {
        let delta = vi64::spec_encode((pair.type_id - previous_type) as u64);
        match pair.value {
            ValueModel::Integer(v) => {
                if pair.type_id % 2 == 0 {
                    Ok(delta + vi64::spec_encode(v))
                } else {
                    Err(EncodeError::ValueKindMismatch { type_id: pair.type_id })
                }
            },
            ValueModel::Bytes(b) => {
                if pair.type_id % 2 == 1 {
                    if b.len() > max_value_length() {
                        Err(EncodeError::ValueTooLong { length: b.len() as usize })
                    } else {
                        Ok(delta + vi64::spec_encode(b.len() as u64) + b)
                    }
                } else {
                    Err(EncodeError::ValueKindMismatch { type_id: pair.type_id })
                }
            },
        }
    }
}

/// What `decode` gives for `input` after a pair of type `previous_type`: the
/// pair at its start and the number of bytes it took.
pub open spec fn spec_decode(previous_type: u64, input: Seq<u8>) -> Result<(PairModel, usize), DecodeError> {
    match vi64::spec_decode(input) {
        Err(e) => Err(DecodeError::Vi64(e)),
        Ok((delta, delta_len)) => {
            if previous_type + delta > u64::MAX {
                Err(DecodeError::TypeOverflow { previous: previous_type, delta })
            } else {
                let type_id = (previous_type + delta) as u64;
                match vi64::spec_decode(input.skip(delta_len as int)) {
                    Err(e) => Err(DecodeError::Vi64(e)),
                    Ok((v, v_len)) => {
                        if type_id % 2 == 0 {
                            Ok(
                                (
                                    PairModel { type_id, value: ValueModel::Integer(v) },
                                    (delta_len + v_len) as usize,
                                ),
                            )
                        } else if v > max_value_length() {
                            Err(DecodeError::ValueTooLong { length: v })
                        } else {
                            let header = delta_len + v_len;
                            let expected = header + v;
                            if input.len() < expected {
                                Err(
                                    DecodeError::UnexpectedEnd {
                                        expected: expected as usize,
                                        actual: input.len() as usize,
                                    },
                                )
                            } else {
                                Ok(
                                    (
                                        PairModel {
                                            type_id,
                                            value: ValueModel::Bytes(
                                                input.subrange(header as int, expected as int),
                                            ),
                                        },
                                        expected as usize,
                                    ),
                                )
                            }
                        }
                    },
                }
            }
        },
    }
}

/// A successful decode takes at least one byte and no more than the input holds.
pub proof fn lemma_decode_consumes(previous_type: u64, input: Seq<u8>)
    ensures
        spec_decode(previous_type, input) matches Ok((_, n)) ==> 1 <= n <= input.len(),
{
    vi64::lemma_decode_len(input);
    if let Ok((_, delta_len)) = vi64::spec_decode(input) {
        vi64::lemma_decode_len(input.skip(delta_len as int));
    }
}

/// Decoding looks at no byte beyond the pair: keeping at least the bytes that
/// a successful decode took, and replacing whatever follows them, gives the
/// same result.
pub proof fn lemma_decode_prefix(previous_type: u64, input: Seq<u8>, keep: int, more: Seq<u8>)
    requires
        spec_decode(previous_type, input) matches Ok((_, n)) && n <= keep <= input.len(),
    ensures
        spec_decode(previous_type, input.take(keep) + more) == spec_decode(previous_type, input),
{
    let other = input.take(keep) + more;
    vi64::lemma_decode_len(input);
    let (delta, delta_len) = vi64::spec_decode(input)->Ok_0;
    vi64::lemma_decode_prefix(input, keep, more);
    let rest = input.skip(delta_len as int);
    vi64::lemma_decode_len(rest);
    let (v, v_len) = vi64::spec_decode(rest)->Ok_0;
    assert(other.skip(delta_len as int) =~= rest.take(keep - delta_len) + more);
    vi64::lemma_decode_prefix(rest, keep - delta_len, more);
    let header = delta_len + v_len;
    if (previous_type + delta) % 2 == 1 {
        assert(other.subrange(header as int, header + v) =~= input.subrange(header as int, header + v));
    }
}

/// Every pair that decoding yields can be encoded again after the same
/// previous type: its type does not decrease, its value has the kind its
/// type calls for, and a byte value is no longer than 65535 bytes.
pub proof fn lemma_decoded_pair_encodes(previous_type: u64, input: Seq<u8>)
    requires
        spec_decode(previous_type, input) is Ok,
    ensures
        spec_encode(previous_type, spec_decode(previous_type, input)->Ok_0.0) is Ok,
{
}

/// Decoding what `encode` wrote for a pair, after the same previous type and
/// whatever bytes follow, gives the pair back with the length of its encoding.
pub proof fn lemma_decode_encode(previous_type: u64, pair: PairModel, rest: Seq<u8>)
    requires
        spec_encode(previous_type, pair) is Ok,
    ensures
        1 <= spec_encode(previous_type, pair)->Ok_0.len() <= 18 + max_value_length(),
        spec_decode(previous_type, spec_encode(previous_type, pair)->Ok_0 + rest)
            == Ok::<(PairModel, usize), DecodeError>(
            (pair, spec_encode(previous_type, pair)->Ok_0.len() as usize),
        ),
{
    let enc = spec_encode(previous_type, pair)->Ok_0;
    let input = enc + rest;
    let delta = (pair.type_id - previous_type) as u64;
    let d = vi64::spec_encode(delta);
    let tail = enc.skip(d.len() as int);
    vi64::lemma_decode_encode(delta, Seq::empty());
    assert(enc =~= d + tail);
    assert(input =~= d + (tail + rest));
    vi64::lemma_decode_encode(delta, tail + rest);
    assert(input.skip(d.len() as int) =~= tail + rest);
    match pair.value {
        ValueModel::Integer(v) => {
            assert(tail =~= vi64::spec_encode(v));
            vi64::lemma_decode_encode(v, rest);
        },
        ValueModel::Bytes(b) => {
            let l = vi64::spec_encode(b.len() as u64);
            assert(tail =~= l + b);
            assert(tail + rest =~= l + (b + rest));
            vi64::lemma_decode_encode(b.len() as u64, b + rest);
            assert(input.subrange((d.len() + l.len()) as int, (d.len() + l.len() + b.len()) as int) =~= b);
        },
    }
}

/// A pair of even type with an integer value always encodes, whatever the
/// integer, provided its type does not decrease: as the type difference
/// followed by the integer, both as variable-length integers.
pub proof fn lemma_integer_pair_encodes(previous_type: u64, type_id: u64, value: u64)
    requires
        type_id % 2 == 0,
        type_id >= previous_type,
    ensures
        spec_encode(previous_type, PairModel { type_id, value: ValueModel::Integer(value) })
            == Ok::<Seq<u8>, EncodeError>(
            vi64::spec_encode((type_id - previous_type) as u64) + vi64::spec_encode(value),
        ),
{
}

/// A pair of odd type with at most 65535 value bytes always encodes, provided
/// its type does not decrease: as the type difference, the byte count, and the
/// bytes themselves.
pub proof fn lemma_byte_pair_encodes(previous_type: u64, type_id: u64, bytes: Seq<u8>)
    requires
        type_id % 2 == 1,
        type_id >= previous_type,
        bytes.len() <= 65535,
    ensures
        spec_encode(previous_type, PairModel { type_id, value: ValueModel::Bytes(bytes) })
            == Ok::<Seq<u8>, EncodeError>(
            vi64::spec_encode((type_id - previous_type) as u64) + vi64::spec_encode(
                bytes.len() as u64,
            ) + bytes,
        ),
{
}

/// The only reasons a pair does not encode: its type is below the previous
/// one; its value has the wrong kind for the parity of its type; or it carries
/// more than 65535 bytes.
pub proof fn lemma_encode_errors(previous_type: u64, pair: PairModel)
    ensures
        pair.type_id < previous_type ==> spec_encode(previous_type, pair) == Err::<
            Seq<u8>,
            EncodeError,
        >(EncodeError::TypeDecreased { previous: previous_type, current: pair.type_id }),
        pair.type_id >= previous_type && ((pair.type_id % 2 == 0 && pair.value is Bytes) || (
        pair.type_id % 2 == 1 && pair.value is Integer)) ==> spec_encode(previous_type, pair)
            == Err::<Seq<u8>, EncodeError>(EncodeError::ValueKindMismatch { type_id: pair.type_id }),
        spec_encode(previous_type, pair) is Err ==> pair.type_id < previous_type || (pair.type_id
            % 2 == 0 && pair.value is Bytes) || (pair.type_id % 2 == 1 && pair.value is Integer)
            || (pair.value matches ValueModel::Bytes(b) && b.len() > 65535),
{
}

/// After a type difference that keeps the type within `u64` and makes it even,
/// a well-formed variable-length integer always decodes as the pair's integer
/// value, whatever the integer.
pub proof fn lemma_integer_pair_decodes(previous_type: u64, input: Seq<u8>)
    requires
        vi64::spec_decode(input) matches Ok((delta, delta_len)) && previous_type + delta
            <= u64::MAX && (previous_type + delta) % 2 == 0 && vi64::spec_decode(
            input.skip(delta_len as int),
        ) is Ok,
    ensures
        ({
            let (delta, delta_len) = vi64::spec_decode(input)->Ok_0;
            let (value, value_len) = vi64::spec_decode(input.skip(delta_len as int))->Ok_0;
            spec_decode(previous_type, input) == Ok::<(PairModel, usize), DecodeError>(
                (
                    PairModel {
                        type_id: (previous_type + delta) as u64,
                        value: ValueModel::Integer(value),
                    },
                    (delta_len + value_len) as usize,
                ),
            )
        }),
{
    vi64::lemma_decode_len(input);
}

/// After a type difference that keeps the type within `u64` and makes it odd,
/// a byte count of at most 65535 followed by that many bytes always decodes as
/// the pair's byte value.
pub proof fn lemma_byte_pair_decodes(previous_type: u64, input: Seq<u8>)
    requires
        vi64::spec_decode(input) is Ok,
        ({
            let (delta, delta_len) = vi64::spec_decode(input)->Ok_0;
            previous_type + delta <= u64::MAX && (previous_type + delta) % 2 == 1
                && vi64::spec_decode(input.skip(delta_len as int)) is Ok
        }),
        ({
            let (delta, delta_len) = vi64::spec_decode(input)->Ok_0;
            let (count, count_len) = vi64::spec_decode(input.skip(delta_len as int))->Ok_0;
            count <= 65535 && delta_len + count_len + count <= input.len()
        }),
    ensures
        ({
            let (delta, delta_len) = vi64::spec_decode(input)->Ok_0;
            let (count, count_len) = vi64::spec_decode(input.skip(delta_len as int))->Ok_0;
            let start = delta_len + count_len;
            spec_decode(previous_type, input) == Ok::<(PairModel, usize), DecodeError>(
                (
                    PairModel {
                        type_id: (previous_type + delta) as u64,
                        value: ValueModel::Bytes(input.subrange(start as int, start + count)),
                    },
                    (start + count) as usize,
                ),
            )
        }),
{
}

/// The only reasons a pair does not decode: a malformed type difference or
/// value integer (byte count); a type pushed past `u64::MAX`; a byte count
/// over 65535; or fewer value bytes than the count announces.
pub proof fn lemma_decode_errors(previous_type: u64, input: Seq<u8>)
    ensures
        vi64::spec_decode(input) matches Err(e) ==> spec_decode(previous_type, input) == Err::<
            (PairModel, usize),
            DecodeError,
        >(DecodeError::Vi64(e)),
        vi64::spec_decode(input) is Ok && previous_type + vi64::spec_decode(input)->Ok_0.0
            > u64::MAX ==> spec_decode(previous_type, input) == Err::<(PairModel, usize), DecodeError>(
            DecodeError::TypeOverflow {
                previous: previous_type,
                delta: vi64::spec_decode(input)->Ok_0.0,
            },
        ),
        spec_decode(previous_type, input) matches Err(DecodeError::ValueTooLong { length }) ==> length
            > 65535,
        spec_decode(previous_type, input) matches Err(DecodeError::UnexpectedEnd { expected, actual })
            ==> actual == input.len() && actual < expected,
{
    vi64::lemma_decode_len(input);
    if let Ok((_, delta_len)) = vi64::spec_decode(input) {
        vi64::lemma_decode_len(input.skip(delta_len as int));
    }
}

/// Encodes `pair`, which follows a pair of type `previous_type`.
pub fn encode(previous_type: u64, pair: &KeyValuePair) -> (result: Result<Vec<u8>, EncodeError>)
    ensures
        match result {
            Ok(bytes) => spec_encode(previous_type, pair@) == Ok::<Seq<u8>, EncodeError>(bytes@),
            Err(e) => spec_encode(previous_type, pair@) == Err::<Seq<u8>, EncodeError>(e),
        },
{
    let delta_type = match pair.type_id.checked_sub(previous_type) {
        Some(delta) => delta,
        None => {
            return Err(EncodeError::TypeDecreased { previous: previous_type, current: pair.type_id });
        },
    };
    let mut encoded = vi64::encode(delta_type);
    match &pair.value {
        Value::Integer(value) => {
            if pair.type_id % 2 != 0 {
                return Err(EncodeError::ValueKindMismatch { type_id: pair.type_id });
            }
            let mut value_bytes = vi64::encode(*value);
            encoded.append(&mut value_bytes);
        },
        Value::Bytes(value) => {
            if pair.type_id % 2 != 1 {
                return Err(EncodeError::ValueKindMismatch { type_id: pair.type_id });
            }
            if value.len() > u16::MAX as usize {
                return Err(EncodeError::ValueTooLong { length: value.len() });
            }
            let mut length_bytes = vi64::encode(value.len() as u64);
            encoded.append(&mut length_bytes);
            let ghost before = encoded@;
            encoded.extend_from_slice(value.as_slice());
            assert(encoded@ =~= before + value@);
        },
    }
    Ok(encoded)
}

/// Reads the pair at the start of `input`, which follows a pair of type
/// `previous_type`, and returns it with the number of bytes it took.
pub fn decode(previous_type: u64, input: &[u8]) -> (result: Result<(KeyValuePair, usize), DecodeError>)
    ensures
        match result {
            Ok((pair, n)) => spec_decode(previous_type, input@) == Ok::<(PairModel, usize), DecodeError>((pair@, n)),
            Err(e) => spec_decode(previous_type, input@) == Err::<(PairModel, usize), DecodeError>(e),
        },
{
    let (delta_type, delta_length) = match vi64::decode(input) {
        Ok(decoded) => decoded,
        Err(e) => {
            return Err(DecodeError::Vi64(e));
        },
    };
    let type_id = match previous_type.checked_add(delta_type) {
        Some(type_id) => type_id,
        None => {
            return Err(DecodeError::TypeOverflow { previous: previous_type, delta: delta_type });
        },
    };
    let remaining = slice_subrange(input, delta_length, input.len());
    assert(remaining@ =~= input@.skip(delta_length as int));
    let (value, value_length) = match vi64::decode(remaining) {
        Ok(decoded) => decoded,
        Err(e) => {
            return Err(DecodeError::Vi64(e));
        },
    };
    if type_id % 2 == 0 {
        return Ok((KeyValuePair { type_id, value: Value::Integer(value) }, delta_length + value_length));
    }
    if value > u16::MAX as u64 {
        return Err(DecodeError::ValueTooLong { length: value });
    }
    let value_length_bytes = value as usize;
    let header_length = delta_length + value_length;
    let expected = header_length + value_length_bytes;
    if input.len() < expected {
        return Err(DecodeError::UnexpectedEnd { expected, actual: input.len() });
    }
    let bytes = slice_to_vec(slice_subrange(input, header_length, expected));
    Ok((KeyValuePair { type_id, value: Value::Bytes(bytes) }, expected))
}

} // verus!
