//! The SETUP control message: its type (a variable-length integer), a 16-bit
//! big-endian payload length, and a payload made of key-value pairs, each
//! written relative to the type of the one before it.
use vstd::prelude::*;
use vstd::slice::slice_subrange;
use crate::key_value_pair::{self, KeyValuePair, PairModel};
use crate::vi64;

verus! {

/// The message type of SETUP.
pub const MESSAGE_TYPE: u64 = 0x2f00;

/// A SETUP message: its options in the order they are written.
#[derive(Debug, PartialEq, Eq)]
pub struct Setup {
    pub options: Vec<KeyValuePair>,
}

impl View for Setup {
    type V = Seq<PairModel>;

    open spec fn view(&self) -> Seq<PairModel> {
        self.options@.map_values(|option: KeyValuePair| option@)
    }
}

/// Why a SETUP message cannot be encoded.
#[derive(Debug, Clone, Copy, PartialEq, Eq, Structural)]
pub enum EncodeError {
    /// An option cannot be encoded.
    KeyValuePair(key_value_pair::EncodeError),
    /// The options take more than 65535 bytes.
    PayloadTooLong { length: usize },
}

/// Why a byte string does not start with a SETUP message.
#[allow(inconsistent_fields)]
#[derive(Debug, Clone, Copy, PartialEq, Eq, Structural)]
pub enum DecodeError {
    /// The message type is malformed.
    Vi64(vi64::DecodeError),
    /// The message is not a SETUP message.
    UnexpectedMessageType { actual: u64 },
    /// The length field or the payload runs past the end of the input.
    UnexpectedEnd { expected: usize, actual: usize },
    /// An option in the payload is malformed.
    KeyValuePair(key_value_pair::DecodeError),
}

/// The longest payload a SETUP message may carry.
pub open spec fn max_payload_length() -> nat {
    0xffff
}

/// The two bytes of the length field for a payload of `n` bytes.
pub open spec fn length_field(n: nat) -> Seq<u8> {
    seq![(n / 256) as u8, (n % 256) as u8]
}

/// The options `options` written one after the other, the first relative to
/// `previous_type`, each next one relative to the one before it.
pub open spec fn spec_encode_options(previous_type: u64, options: Seq<PairModel>) -> Result<
    Seq<u8>,
    key_value_pair::EncodeError,
>
    decreases options.len(),
{
    if options.len() == 0 {
        Ok(Seq::empty())
    } else {
        match key_value_pair::spec_encode(previous_type, options[0]) {
            Err(e) => Err(e),
            Ok(first) => match spec_encode_options(options[0].type_id, options.drop_first()) {
                Err(e) => Err(e),
                Ok(others) => Ok(first + others),
            },
        }
    }
}

/// What `encode` gives for a SETUP message with options `options`.
pub open spec fn spec_encode(options: Seq<PairModel>) -> Result<Seq<u8>, EncodeError> {
    match spec_encode_options(0, options) {
        Err(e) => Err(EncodeError::KeyValuePair(e)),
        Ok(payload) => {
            if payload.len() > max_payload_length() {
                Err(EncodeError::PayloadTooLong { length: payload.len() as usize })
            } else {
                Ok(vi64::spec_encode(MESSAGE_TYPE) + length_field(payload.len()) + payload)
            }
        },
    }
}

/// The options that `payload` holds, the first written relative to `previous_type`.
pub open spec fn spec_decode_options(previous_type: u64, payload: Seq<u8>) -> Result<
    Seq<PairModel>,
    key_value_pair::DecodeError,
>
    decreases payload.len(),
{
    if payload.len() == 0 {
        Ok(Seq::empty())
    } else {
        match key_value_pair::spec_decode(previous_type, payload) {
            Err(e) => Err(e),
            Ok((option, n)) => {
                // `key_value_pair::lemma_decode_consumes` shows that this always holds.
                if 0 < n <= payload.len() {
                    match spec_decode_options(option.type_id, payload.skip(n as int)) {
                        Err(e) => Err(e),
                        Ok(others) => Ok(seq![option] + others),
                    }
                } else {
                    Ok(Seq::empty())
                }
            },
        }
    }
}

/// What `decode` gives for `input`: the options of the SETUP message at its
/// start and the number of bytes the message took.
pub open spec fn spec_decode(input: Seq<u8>) -> Result<(Seq<PairModel>, usize), DecodeError> {
    match vi64::spec_decode(input) {
        Err(e) => Err(DecodeError::Vi64(e)),
        Ok((message_type, type_len)) => {
            if message_type != MESSAGE_TYPE {
                Err(DecodeError::UnexpectedMessageType { actual: message_type })
            } else {
                let header = type_len + 2;
                if input.len() < header {
                    Err(
                        DecodeError::UnexpectedEnd {
                            expected: header as usize,
                            actual: input.len() as usize,
                        },
                    )
                } else {
                    let payload_len = input[type_len as int] as nat * 256 + input[type_len + 1] as nat;
                    let expected = header + payload_len;
                    if input.len() < expected {
                        Err(
                            DecodeError::UnexpectedEnd {
                                expected: expected as usize,
                                actual: input.len() as usize,
                            },
                        )
                    } else {
                        match spec_decode_options(0, input.subrange(header as int, expected as int)) {
                            Err(e) => Err(DecodeError::KeyValuePair(e)),
                            Ok(options) => Ok((options, expected as usize)),
                        }
                    }
                }
            }
        },
    }
}


/// Decoding the options that `spec_encode_options` wrote, after the same
/// previous type, gives the options back.
pub proof fn lemma_decode_encode_options(previous_type: u64, options: Seq<PairModel>)
    requires
        spec_encode_options(previous_type, options) is Ok,
    ensures
        spec_decode_options(previous_type, spec_encode_options(previous_type, options)->Ok_0)
            == Ok::<Seq<PairModel>, key_value_pair::DecodeError>(options),
    decreases options.len(),
{
    let payload = spec_encode_options(previous_type, options)->Ok_0;
    if options.len() > 0 {
        let first = key_value_pair::spec_encode(previous_type, options[0])->Ok_0;
        let others = spec_encode_options(options[0].type_id, options.drop_first())->Ok_0;
        key_value_pair::lemma_decode_encode(previous_type, options[0], others);
        lemma_decode_encode_options(options[0].type_id, options.drop_first());
        assert(payload.skip(first.len() as int) =~= others);
        assert(seq![options[0]] + options.drop_first() =~= options);
    } else {
        assert(payload =~= Seq::<u8>::empty());
        assert(options =~= Seq::<PairModel>::empty());
    }
}

/// Decoding what `encode` wrote for a SETUP message, whatever bytes follow it,
/// gives its options back together with the length of the encoding.
pub proof fn lemma_decode_encode(options: Seq<PairModel>, rest: Seq<u8>)
    requires
        spec_encode(options) is Ok,
    ensures
        spec_decode(spec_encode(options)->Ok_0 + rest) == Ok::<(Seq<PairModel>, usize), DecodeError>(
            (options, spec_encode(options)->Ok_0.len() as usize),
        ),
{
    let payload = spec_encode_options(0, options)->Ok_0;
    let encoded = spec_encode(options)->Ok_0;
    let input = encoded + rest;
    let t = vi64::spec_encode(MESSAGE_TYPE);
    let after_type = length_field(payload.len()) + payload + rest;
    vi64::lemma_decode_encode(MESSAGE_TYPE, after_type);
    assert(input =~= t + after_type);
    assert(t.len() == 2);
    lemma_decode_encode_options(0, options);
    let n = payload.len();
    assert((n / 256) * 256 + n % 256 == n);
    assert(input[2] as nat == n / 256);
    assert(input[3] as nat == n % 256);
    assert(input.subrange(4, 4 + n as int) =~= payload);
}

/// Every list of options that decoding a payload yields can be encoded again
/// after the same previous type.
pub proof fn lemma_decoded_options_encode(previous_type: u64, payload: Seq<u8>)
    requires
        spec_decode_options(previous_type, payload) is Ok,
    ensures
        spec_encode_options(previous_type, spec_decode_options(previous_type, payload)->Ok_0) is Ok,
    decreases payload.len(),
{
    let options = spec_decode_options(previous_type, payload)->Ok_0;
    if payload.len() > 0 {
        key_value_pair::lemma_decode_consumes(previous_type, payload);
        key_value_pair::lemma_decoded_pair_encodes(previous_type, payload);
        let (option, n) = key_value_pair::spec_decode(previous_type, payload)->Ok_0;
        lemma_decoded_options_encode(option.type_id, payload.skip(n as int));
        let others = spec_decode_options(option.type_id, payload.skip(n as int))->Ok_0;
        assert(options[0] == option);
        assert(options.drop_first() =~= others);
    }
}

/// Decoding looks at no byte beyond the message: keeping at least the bytes
/// that a successful decode took, and replacing whatever follows them, gives
/// the same result.
pub proof fn lemma_decode_prefix(input: Seq<u8>, keep: int, more: Seq<u8>)
    requires
        spec_decode(input) matches Ok((_, n)) && n <= keep <= input.len(),
    ensures
        spec_decode(input.take(keep) + more) == spec_decode(input),
{
    let other = input.take(keep) + more;
    vi64::lemma_decode_len(input);
    vi64::lemma_decode_prefix(input, keep, more);
    let type_len = vi64::spec_decode(input)->Ok_0.1;
    let payload_len = input[type_len as int] as nat * 256 + input[type_len + 1] as nat;
    let header = type_len + 2;
    assert(other[type_len as int] == input[type_len as int]);
    assert(other[type_len + 1] == input[type_len + 1]);
    assert(other.subrange(header as int, header + payload_len) =~= input.subrange(
        header as int,
        header + payload_len,
    ));
}

/// The SETUP type 0x2f00 is written in two bytes, `af 00`.
pub proof fn lemma_message_type_bytes()
    ensures
        vi64::spec_encode(MESSAGE_TYPE) == seq![0xafu8, 0x00u8],
{
    let bytes = vi64::be_bytes(0x2f00nat, 2);
    assert(vi64::be_bytes(0x2fnat, 1) =~= vi64::be_bytes(0nat, 0).push(0x2fu8));
    assert(bytes =~= seq![0x2fu8, 0x00u8]);
    assert(0x2fu8 | 0x80u8 == 0xafu8) by (bit_vector);
    assert(vi64::spec_encode(MESSAGE_TYPE) =~= seq![0xafu8, 0x00u8]);
}

/// Only a SETUP message decodes: a successful decode means that the input
/// starts with the message type 0x2f00, and any other well-formed type is
/// refused as an unexpected message type.
pub proof fn lemma_decode_only_setup(input: Seq<u8>)
    ensures
        spec_decode(input) is Ok ==> (vi64::spec_decode(input) matches Ok((t, _)) && t == 0x2f00),
        vi64::spec_decode(input) is Ok && vi64::spec_decode(input)->Ok_0.0 != 0x2f00
            ==> spec_decode(input) == Err::<(Seq<PairModel>, usize), DecodeError>(
            DecodeError::UnexpectedMessageType { actual: vi64::spec_decode(input)->Ok_0.0 },
        ),
{
}

/// A SETUP message encodes exactly when its options do and they take at most
/// 65535 bytes: then it is `af 00`, the payload length in two big-endian
/// bytes, and the payload; a longer payload is refused with its length.
pub proof fn lemma_encode_payload_limit(options: Seq<PairModel>)
    requires
        spec_encode_options(0, options) is Ok,
    ensures
        ({
            let payload = spec_encode_options(0, options)->Ok_0;
            &&& payload.len() <= 65535 ==> spec_encode(options) == Ok::<Seq<u8>, EncodeError>(
                seq![0xafu8, 0x00u8, (payload.len() / 256) as u8, (payload.len() % 256) as u8]
                    + payload,
            )
            &&& payload.len() > 65535 ==> spec_encode(options) == Err::<Seq<u8>, EncodeError>(
                EncodeError::PayloadTooLong { length: payload.len() as usize },
            )
        }),
{
    lemma_message_type_bytes();
    let payload = spec_encode_options(0, options)->Ok_0;
    assert(seq![0xafu8, 0x00u8] + length_field(payload.len()) + payload =~= seq![
        0xafu8,
        0x00u8,
        (payload.len() / 256) as u8,
        (payload.len() % 256) as u8,
    ] + payload);
}

/// The type that option `i` is written relative to: the previous type for the
/// first, the type of the option before it for the others.
pub open spec fn type_before(previous_type: u64, options: Seq<PairModel>, i: int) -> u64 {
    if i == 0 {
        previous_type
    } else {
        options[i - 1].type_id
    }
}

/// A list of options encodes exactly when each option encodes relative to the
/// one before it (the first relative to `previous_type`).
pub proof fn lemma_options_encode_iff_each_encodes(previous_type: u64, options: Seq<PairModel>)
    ensures
        spec_encode_options(previous_type, options) is Ok <==> forall|i: int|
            0 <= i < options.len() ==> #[trigger] key_value_pair::spec_encode(
                type_before(previous_type, options, i),
                options[i],
            ) is Ok,
    decreases options.len(),
{
    if options.len() > 0 {
        let others = options.drop_first();
        lemma_options_encode_iff_each_encodes(options[0].type_id, others);
        assert forall|i: int| 1 <= i < options.len() implies #[trigger] key_value_pair::spec_encode(
            type_before(previous_type, options, i),
            options[i],
        ) == key_value_pair::spec_encode(type_before(options[0].type_id, others, i - 1), others[i - 1]) by {}
        if spec_encode_options(previous_type, options) is Ok {
            assert forall|i: int| 0 <= i < options.len() implies #[trigger] key_value_pair::spec_encode(
                type_before(previous_type, options, i),
                options[i],
            ) is Ok by {
                if i > 0 {
                    assert(key_value_pair::spec_encode(
                        type_before(options[0].type_id, others, i - 1),
                        others[i - 1],
                    ) is Ok);
                }
            }
        } else {
            if key_value_pair::spec_encode(previous_type, options[0]) is Ok {
                let j = choose|j: int|
                    0 <= j < others.len() && !(#[trigger] key_value_pair::spec_encode(
                        type_before(options[0].type_id, others, j),
                        others[j],
                    ) is Ok);
                assert(!(key_value_pair::spec_encode(
                    type_before(previous_type, options, j + 1),
                    options[j + 1],
                ) is Ok));
            } else {
                assert(!(key_value_pair::spec_encode(type_before(previous_type, options, 0), options[0]) is Ok));
            }
        }
    }
}

/// Encodes a SETUP message.
pub fn encode(setup: &Setup) -> (result: Result<Vec<u8>, EncodeError>)
    ensures
        match result {
            Ok(bytes) => spec_encode(setup@) == Ok::<Seq<u8>, EncodeError>(bytes@),
            Err(e) => spec_encode(setup@) == Err::<Seq<u8>, EncodeError>(e),
        },
{
    let mut payload: Vec<u8> = Vec::new();
    let mut previous_type: u64 = 0;
    let mut i: usize = 0;
    assert(setup@.skip(0) =~= setup@);
    assert(forall|rest: Seq<u8>| #[trigger] (payload@ + rest) =~= rest);
    while i < setup.options.len()
        invariant
            i <= setup.options.len(),
            setup@.len() == setup.options.len(),
            spec_encode_options(0, setup@) == (match spec_encode_options(
                previous_type,
                setup@.skip(i as int),
            ) {
                Ok(rest) => Ok(payload@ + rest),
                Err(e) => Err(e),
            }),
        decreases setup.options.len() - i,
    {
        let option = &setup.options[i];
        assert(setup@.skip(i as int)[0] == option@);
        assert(setup@.skip(i as int).drop_first() =~= setup@.skip(i + 1));
        let mut encoded_option = match key_value_pair::encode(previous_type, option) {
            Ok(bytes) => bytes,
            Err(e) => {
                return Err(EncodeError::KeyValuePair(e));
            },
        };
        let ghost before = payload@;
        let ghost first = encoded_option@;
        payload.append(&mut encoded_option);
        previous_type = option.type_id;
        i = i + 1;
        assert(forall|rest: Seq<u8>| #[trigger] (before + (first + rest)) =~= payload@ + rest);
    }
    assert(setup@.skip(i as int) =~= Seq::<PairModel>::empty());
    assert(payload@ + Seq::<u8>::empty() =~= payload@);
    if payload.len() > u16::MAX as usize {
        return Err(EncodeError::PayloadTooLong { length: payload.len() });
    }
    let mut encoded = vi64::encode(MESSAGE_TYPE);
    let length = payload.len();
    encoded.push((length / 256) as u8);
    encoded.push((length % 256) as u8);
    let ghost header = encoded@;
    encoded.append(&mut payload);
    assert(header =~= vi64::spec_encode(MESSAGE_TYPE) + length_field(length as nat));
    Ok(encoded)
}

/// Reads the SETUP message at the start of `input` and returns it with the
/// number of bytes it took.
pub fn decode(input: &[u8]) -> (result: Result<(Setup, usize), DecodeError>)
    ensures
        match result {
            Ok((setup, n)) => spec_decode(input@) == Ok::<(Seq<PairModel>, usize), DecodeError>(
                (setup@, n),
            ),
            Err(e) => spec_decode(input@) == Err::<(Seq<PairModel>, usize), DecodeError>(e),
        },
{
    let (message_type, type_length) = match vi64::decode(input) {
        Ok(decoded) => decoded,
        Err(e) => {
            return Err(DecodeError::Vi64(e));
        },
    };
    if message_type != MESSAGE_TYPE {
        return Err(DecodeError::UnexpectedMessageType { actual: message_type });
    }
    let header_length = type_length + 2;
    if input.len() < header_length {
        return Err(DecodeError::UnexpectedEnd { expected: header_length, actual: input.len() });
    }
    let payload_length = input[type_length] as usize * 256 + input[type_length + 1] as usize;
    let expected = header_length + payload_length;
    if input.len() < expected {
        return Err(DecodeError::UnexpectedEnd { expected, actual: input.len() });
    }
    let payload = slice_subrange(input, header_length, expected);
    let mut options: Vec<KeyValuePair> = Vec::new();
    let mut offset: usize = 0;
    let mut previous_type: u64 = 0;
    assert(payload@.skip(0) =~= payload@);
    let ghost start = options@.map_values(|option: KeyValuePair| option@);
    assert(start =~= Seq::<PairModel>::empty());
    assert(forall|rest: Seq<PairModel>| #[trigger] (start + rest) =~= rest);
    assert(spec_decode(input@) == match spec_decode_options(0, payload@) {
        Err(e) => Err(DecodeError::KeyValuePair(e)),
        Ok(found) => Ok((found, expected)),
    });
    while offset < payload.len()
        invariant
            offset <= payload@.len(),
            spec_decode(input@) == match spec_decode_options(0, payload@) {
                Err(e) => Err(DecodeError::KeyValuePair(e)),
                Ok(found) => Ok((found, expected)),
            },
            spec_decode_options(0, payload@) == (match spec_decode_options(
                previous_type,
                payload@.skip(offset as int),
            ) {
                Ok(rest) => Ok(options@.map_values(|option: KeyValuePair| option@) + rest),
                Err(e) => Err(e),
            }),
        decreases payload@.len() - offset,
    {
        let remaining = slice_subrange(payload, offset, payload.len());
        assert(remaining@ =~= payload@.skip(offset as int));
        let (option, consumed) = match key_value_pair::decode(previous_type, remaining) {
            Ok(decoded) => decoded,
            Err(e) => {
                return Err(DecodeError::KeyValuePair(e));
            },
        };
        proof {
            key_value_pair::lemma_decode_consumes(previous_type, remaining@);
        }
        let ghost before = options@.map_values(|option: KeyValuePair| option@);
        let ghost decoded = option@;
        previous_type = option.type_id;
        options.push(option);
        assert(payload@.skip(offset as int).skip(consumed as int) =~= payload@.skip(
            offset + consumed,
        ));
        offset = offset + consumed;
        assert(options@.map_values(|option: KeyValuePair| option@) =~= before.push(decoded));
        assert(forall|rest: Seq<PairModel>|
            #[trigger] (before + (seq![decoded] + rest)) =~= before.push(decoded) + rest);
    }
    assert(payload@.skip(offset as int) =~= Seq::<u8>::empty());
    let setup = Setup { options };
    assert(setup@ + Seq::<PairModel>::empty() =~= setup@);
    Ok((setup, expected))
}

} // verus!
