//! Variable-length integers of up to 64 bits.
//!
//! The number of leading one bits in the first byte, plus one, is the length
//! of the encoding (1 to 9 bytes).  The remaining bits of the first byte and
//! the following bytes hold the value in big-endian order; a 9-byte encoding
//! starts with `0xff` and carries the full 64-bit value in the next 8 bytes.
use vstd::prelude::*;

verus! {

/// Why a byte string does not start with a variable-length integer.
#[derive(Debug, Clone, Copy, PartialEq, Eq, Structural)]
pub enum DecodeError {
    /// The input holds no byte at all.
    Empty,
    /// The first byte announces `expected` bytes, but only `actual` are present.
    UnexpectedEnd { expected: usize, actual: usize },
}

/// `256` raised to the power `n`.
pub open spec fn pow256(n: nat) -> nat
    decreases n,
{
    if n == 0 {
        1
    } else {
        256 * pow256((n - 1) as nat)
    }
}

/// The number that `s` denotes read as a big-endian integer.
pub open spec fn be_value(s: Seq<u8>) -> nat
    decreases s.len(),
{
    if s.len() == 0 {
        0
    } else {
        be_value(s.drop_last()) * 256 + s.last() as nat
    }
}

/// The `n` lowest-order bytes of `x`, most significant first.
pub open spec fn be_bytes(x: nat, n: nat) -> Seq<u8>
    decreases n,
{
    if n == 0 {
        Seq::empty()
    } else {
        be_bytes(x / 256, (n - 1) as nat).push((x % 256) as u8)
    }
}

/// The length of the shortest encoding of `value`: the least `n` in `1..=8`
/// with `value < 2^(7n)`, or 9 when there is none.
pub open spec fn encoded_len(value: u64) -> nat {
    if value < 0x80 {
        1
    } else if value < 0x4000 {
        2
    } else if value < 0x20_0000 {
        3
    } else if value < 0x1000_0000 {
        4
    } else if value < 0x8_0000_0000 {
        5
    } else if value < 0x400_0000_0000 {
        6
    } else if value < 0x2_0000_0000_0000 {
        7
    } else if value < 0x100_0000_0000_0000 {
        8
    } else {
        9
    }
}

/// The first byte of an encoding of `len` bytes has `len - 1` leading one bits;
/// this is that byte with all other bits clear.
pub open spec fn length_marker(len: nat) -> u8 {
    if len <= 1 {
        0x00
    } else if len == 2 {
        0x80
    } else if len == 3 {
        0xc0
    } else if len == 4 {
        0xe0
    } else if len == 5 {
        0xf0
    } else if len == 6 {
        0xf8
    } else if len == 7 {
        0xfc
    } else if len == 8 {
        0xfe
    } else {
        0xff
    }
}

/// The bits of the first byte of an encoding of `len` bytes that belong to the
/// value: those below the leading ones and the zero that ends them.
pub open spec fn value_mask(len: nat) -> u8 {
    if len <= 1 {
        0x7f
    } else if len == 2 {
        0x3f
    } else if len == 3 {
        0x1f
    } else if len == 4 {
        0x0f
    } else if len == 5 {
        0x07
    } else if len == 6 {
        0x03
    } else if len == 7 {
        0x01
    } else {
        0x00
    }
}

/// The length that a first byte announces: its number of leading one bits, plus one.
pub open spec fn len_from_first(first: u8) -> nat {
    if first < 0x80 {
        1
    } else if first < 0xc0 {
        2
    } else if first < 0xe0 {
        3
    } else if first < 0xf0 {
        4
    } else if first < 0xf8 {
        5
    } else if first < 0xfc {
        6
    } else if first < 0xfe {
        7
    } else if first < 0xff {
        8
    } else {
        9
    }
}

/// The value that a complete encoding `s` (its length being the one its first
/// byte announces) carries: `s` read big-endian once the length bits are cleared.
pub open spec fn decoded_value(s: Seq<u8>) -> nat {
    be_value(s.update(0, s[0] & value_mask(s.len())))
}

/// The encoding that `encode` produces: the shortest one.
pub open spec fn spec_encode(value: u64) -> Seq<u8> {
    let len = encoded_len(value);
    if len == 9 {
        seq![0xffu8] + be_bytes(value as nat, 8)
    } else {
        let bytes = be_bytes(value as nat, len);
        bytes.update(0, bytes[0] | length_marker(len))
    }
}

/// What `decode` gives for `input`: the value at its start and how many bytes it took.
pub open spec fn spec_decode(input: Seq<u8>) -> Result<(u64, usize), DecodeError> {
    if input.len() == 0 {
        Err(DecodeError::Empty)
    } else {
        let len = len_from_first(input[0]);
        if input.len() < len {
            Err(DecodeError::UnexpectedEnd { expected: len as usize, actual: input.len() as usize })
        } else {
            Ok((decoded_value(input.take(len as int)) as u64, len as usize))
        }
    }
}


/// `be_bytes` yields exactly `n` bytes.
pub proof fn lemma_be_bytes_len(x: nat, n: nat)
    ensures
        be_bytes(x, n).len() == n,
    decreases n,
{
    if n > 0 {
        lemma_be_bytes_len(x / 256, (n - 1) as nat);
    }
}

/// Reading back the `n` low-order bytes of a number below `256^n` gives the number.
pub proof fn lemma_be_value_of_be_bytes(x: nat, n: nat)
    requires
        x < pow256(n),
    ensures
        be_value(be_bytes(x, n)) == x,
    decreases n,
{
    if n > 0 {
        lemma_be_value_of_be_bytes(x / 256, (n - 1) as nat);
        lemma_be_bytes_len(x / 256, (n - 1) as nat);
        let b = be_bytes(x, n);
        assert(b.drop_last() =~= be_bytes(x / 256, (n - 1) as nat));
    }
}

/// A big-endian number of `n` bytes is below `256^n`.
pub proof fn lemma_be_value_bound(s: Seq<u8>)
    ensures
        be_value(s) < pow256(s.len()),
    decreases s.len(),
{
    if s.len() > 0 {
        lemma_be_value_bound(s.drop_last());
    }
}

/// A big-endian number splits into its first byte, weighted by `256^(n-1)`,
/// and the number that the other bytes form.
pub proof fn lemma_be_value_split_first(s: Seq<u8>)
    requires
        s.len() >= 1,
    ensures
        be_value(s) == s[0] as nat * pow256((s.len() - 1) as nat) + be_value(s.drop_first()),
    decreases s.len(),
{
    if s.len() == 1 {
        assert(s.drop_last() =~= Seq::<u8>::empty());
        assert(s.drop_first() =~= Seq::<u8>::empty());
        assert(pow256(0) == 1);
        assert(s[0] as nat * pow256(0) == s[0] as nat);
    } else {
        let t = s.drop_last();
        lemma_be_value_split_first(t);
        assert(s.drop_first().drop_last() =~= t.drop_first());
        let p = pow256((t.len() - 1) as nat);
        let a = t[0] as nat;
        let b = be_value(t.drop_first());
        // be_value(s) = (a * p + b) * 256 + last, and the tail gains the same last byte.
        assert((a * p + b) * 256 == a * (256 * p) + b * 256) by (nonlinear_arith);
        assert(pow256((s.len() - 1) as nat) == 256 * p);
        assert(s.drop_first().last() == s.last());
        assert(be_value(s.drop_first()) == b * 256 + s.last() as nat);
        assert(be_value(s) == be_value(t) * 256 + s.last() as nat);
        assert(s[0] as nat * pow256((s.len() - 1) as nat) == a * (256 * p));
    }
}

/// The powers of 256 that the encodings involve.
pub proof fn lemma_pow256_values()
    ensures
        pow256(0) == 1,
        pow256(1) == 0x100,
        pow256(2) == 0x1_0000,
        pow256(3) == 0x100_0000,
        pow256(4) == 0x1_0000_0000,
        pow256(5) == 0x100_0000_0000,
        pow256(6) == 0x1_0000_0000_0000,
        pow256(7) == 0x100_0000_0000_0000,
        pow256(8) == 0x1_0000_0000_0000_0000,
{
    reveal_with_fuel(pow256, 9);
}


/// A successful decode takes between 1 and 9 bytes, all of them from the input.
pub proof fn lemma_decode_len(input: Seq<u8>)
    ensures
        spec_decode(input) matches Ok((_, n)) ==> 1 <= n <= 9 && n <= input.len(),
{
}

/// Decoding looks at no byte beyond the encoding: keeping at least the bytes
/// that a successful decode took, and replacing whatever follows them, gives
/// the same result.
pub proof fn lemma_decode_prefix(input: Seq<u8>, keep: int, more: Seq<u8>)
    requires
        spec_decode(input) matches Ok((_, n)) && n <= keep <= input.len(),
    ensures
        spec_decode(input.take(keep) + more) == spec_decode(input),
{
    let other = input.take(keep) + more;
    let n = len_from_first(input[0]);
    assert(other[0] == input[0]);
    assert(other.take(n as int) =~= input.take(n as int));
}

/// Powers of 256 grow with the exponent.
pub proof fn lemma_pow256_monotonic(a: nat, b: nat)
    requires
        a <= b,
    ensures
        pow256(a) <= pow256(b),
    decreases b,
{
    if a < b {
        lemma_pow256_monotonic(a, (b - 1) as nat);
    }
}

/// Setting the length bits of a first byte whose value bits fit under the mask
/// leaves the value bits readable and announces the intended length.
proof fn lemma_marker_bits(b: u8, len: nat)
    requires
        1 <= len <= 8,
        b <= value_mask(len),
    ensures
        (b | length_marker(len)) & value_mask(len) == b,
        len_from_first(b | length_marker(len)) == len,
{
    if len == 1 {
        assert(b <= 0x7f ==> (b | 0x00u8) & 0x7fu8 == b && (b | 0x00u8) < 0x80) by (bit_vector);
    } else if len == 2 {
        assert(b <= 0x3f ==> (b | 0x80u8) & 0x3fu8 == b && 0x80 <= (b | 0x80u8) < 0xc0)
            by (bit_vector);
    } else if len == 3 {
        assert(b <= 0x1f ==> (b | 0xc0u8) & 0x1fu8 == b && 0xc0 <= (b | 0xc0u8) < 0xe0)
            by (bit_vector);
    } else if len == 4 {
        assert(b <= 0x0f ==> (b | 0xe0u8) & 0x0fu8 == b && 0xe0 <= (b | 0xe0u8) < 0xf0)
            by (bit_vector);
    } else if len == 5 {
        assert(b <= 0x07 ==> (b | 0xf0u8) & 0x07u8 == b && 0xf0 <= (b | 0xf0u8) < 0xf8)
            by (bit_vector);
    } else if len == 6 {
        assert(b <= 0x03 ==> (b | 0xf8u8) & 0x03u8 == b && 0xf8 <= (b | 0xf8u8) < 0xfc)
            by (bit_vector);
    } else if len == 7 {
        assert(b <= 0x01 ==> (b | 0xfcu8) & 0x01u8 == b && 0xfc <= (b | 0xfcu8) < 0xfe)
            by (bit_vector);
    } else {
        assert(b == 0 ==> (b | 0xfeu8) & 0x00u8 == b && (b | 0xfeu8) == 0xfe) by (bit_vector);
    }
}

/// The first byte of the shortest big-endian form of `value` fits under the
/// value mask of that length.
proof fn lemma_first_byte_fits(value: u64)
    requires
        encoded_len(value) <= 8,
    ensures
        be_bytes(value as nat, encoded_len(value))[0] <= value_mask(encoded_len(value)),
{
    let len = encoded_len(value);
    let bytes = be_bytes(value as nat, len);
    lemma_pow256_values();
    lemma_pow256_monotonic(len, 8);
    lemma_be_bytes_len(value as nat, len);
    lemma_be_value_of_be_bytes(value as nat, len);
    lemma_be_value_split_first(bytes);
    let b0 = bytes[0] as nat;
    let p = pow256((len - 1) as nat);
    assert(b0 * p <= value);
    let v = value as nat;
    if len == 1 {
        assert(b0 <= 0x7f) by (nonlinear_arith)
            requires b0 * p <= v, p == 1, v < 0x80;
    } else if len == 2 {
        assert(b0 <= 0x3f) by (nonlinear_arith)
            requires b0 * p <= v, p == 0x100, v < 0x4000;
    } else if len == 3 {
        assert(b0 <= 0x1f) by (nonlinear_arith)
            requires b0 * p <= v, p == 0x1_0000, v < 0x20_0000;
    } else if len == 4 {
        assert(b0 <= 0x0f) by (nonlinear_arith)
            requires b0 * p <= v, p == 0x100_0000, v < 0x1000_0000;
    } else if len == 5 {
        assert(b0 <= 0x07) by (nonlinear_arith)
            requires b0 * p <= v, p == 0x1_0000_0000, v < 0x8_0000_0000;
    } else if len == 6 {
        assert(b0 <= 0x03) by (nonlinear_arith)
            requires b0 * p <= v, p == 0x100_0000_0000, v < 0x400_0000_0000;
    } else if len == 7 {
        assert(b0 <= 0x01) by (nonlinear_arith)
            requires b0 * p <= v, p == 0x1_0000_0000_0000, v < 0x2_0000_0000_0000;
    } else {
        assert(b0 == 0) by (nonlinear_arith)
            requires b0 * p <= v, p == 0x100_0000_0000_0000, v < 0x100_0000_0000_0000;
    }
}

/// Decoding the encoding of `value`, whatever bytes follow it, gives `value`
/// back together with the length of the encoding.
#[verifier::spinoff_prover]
pub proof fn lemma_decode_encode(value: u64, rest: Seq<u8>)
    ensures
        spec_encode(value).len() == encoded_len(value),
        spec_decode(spec_encode(value) + rest) == Ok::<(u64, usize), DecodeError>(
            (value, encoded_len(value) as usize),
        ),
{
    let len = encoded_len(value);
    let enc = spec_encode(value);
    let input = enc + rest;
    lemma_pow256_values();
    if len == 9 {
        let bytes = be_bytes(value as nat, 8);
        lemma_be_bytes_len(value as nat, 8);
        lemma_be_value_of_be_bytes(value as nat, 8);
        assert(input[0] == 0xff);
        assert(input.take(9) =~= enc);
        assert(0xffu8 & 0x00u8 == 0) by (bit_vector);
        let masked = enc.update(0, 0u8);
        lemma_be_value_split_first(masked);
        assert(masked.drop_first() =~= bytes);
        assert(input.take(9).update(0, input.take(9)[0] & value_mask(9)) =~= masked);
        assert(decoded_value(input.take(9)) == value);
    } else {
        let bytes = be_bytes(value as nat, len);
        lemma_be_bytes_len(value as nat, len);
        lemma_be_value_of_be_bytes(value as nat, len);
        lemma_first_byte_fits(value);
        lemma_marker_bits(bytes[0], len);
        assert(input.take(len as int) =~= enc);
        assert(enc.update(0, enc[0] & value_mask(len)) =~= bytes);
        assert(decoded_value(input.take(len as int)) == value);
    }
}

/// The number of bytes in the shortest encoding of `value`.
fn encoded_length(value: u64) -> (len: usize)
    ensures
        len == encoded_len(value),
{
    if value < 0x80 {
        1
    } else if value < 0x4000 {
        2
    } else if value < 0x20_0000 {
        3
    } else if value < 0x1000_0000 {
        4
    } else if value < 0x8_0000_0000 {
        5
    } else if value < 0x400_0000_0000 {
        6
    } else if value < 0x2_0000_0000_0000 {
        7
    } else if value < 0x100_0000_0000_0000 {
        8
    } else {
        9
    }
}

/// The length bits of the first byte of an encoding of `len` bytes.
fn marker_byte(len: usize) -> (marker: u8)
    ensures
        marker == length_marker(len as nat),
{
    match len {
        0 | 1 => 0x00,
        2 => 0x80,
        3 => 0xc0,
        4 => 0xe0,
        5 => 0xf0,
        6 => 0xf8,
        7 => 0xfc,
        8 => 0xfe,
        _ => 0xff,
    }
}

/// The value bits of the first byte of an encoding of `len` bytes.
fn mask_byte(len: usize) -> (mask: u8)
    ensures
        mask == value_mask(len as nat),
{
    match len {
        0 | 1 => 0x7f,
        2 => 0x3f,
        3 => 0x1f,
        4 => 0x0f,
        5 => 0x07,
        6 => 0x03,
        7 => 0x01,
        _ => 0x00,
    }
}

/// The length that `first` announces: its leading one bits, plus one.
fn length_from_first(first: u8) -> (len: usize)
    ensures
        len == len_from_first(first),
{
    if first < 0x80 {
        1
    } else if first < 0xc0 {
        2
    } else if first < 0xe0 {
        3
    } else if first < 0xf0 {
        4
    } else if first < 0xf8 {
        5
    } else if first < 0xfc {
        6
    } else if first < 0xfe {
        7
    } else if first < 0xff {
        8
    } else {
        9
    }
}

/// The `n` low-order bytes of `x`, most significant first.
fn big_endian_bytes(x: u64, n: usize) -> (bytes: Vec<u8>)
    ensures
        bytes@ == be_bytes(x as nat, n as nat),
    decreases n,
{
    if n == 0 {
        Vec::new()
    } else {
        let mut bytes = big_endian_bytes(x / 256, n - 1);
        bytes.push((x % 256) as u8);
        bytes
    }
}

/// Encodes `value` in the fewest bytes that hold it.
pub fn encode(value: u64) -> (encoded: Vec<u8>)
    ensures
        encoded@ == spec_encode(value),
        encoded@.len() == encoded_len(value),
        1 <= encoded@.len() <= 9,
{
    let length = encoded_length(value);
    proof {
        lemma_be_bytes_len(value as nat, length as nat);
        lemma_decode_encode(value, Seq::empty());
    }
    if length == 9 {
        let mut encoded: Vec<u8> = Vec::new();
        encoded.push(0xff);
        let mut rest = big_endian_bytes(value, 8);
        encoded.append(&mut rest);
        assert(encoded@ =~= spec_encode(value));
        encoded
    } else {
        let mut encoded = big_endian_bytes(value, length);
        let first = encoded[0] | marker_byte(length);
        encoded.set(0, first);
        encoded
    }
}

/// A bound on the value read from the first `i` bytes of a `len`-byte
/// encoding whose length bits are cleared, while `i < len`.
proof fn lemma_prefix_bound(masked: Seq<u8>, i: int)
    requires
        1 <= i < masked.len() <= 9,
        masked[0] <= value_mask(masked.len()),
    ensures
        be_value(masked.take(i)) < 0x100_0000_0000_0000,
{
    let len = masked.len();
    let t = masked.take(i);
    lemma_pow256_values();
    lemma_be_value_split_first(t);
    lemma_be_value_bound(t.drop_first());
    lemma_pow256_monotonic((i - 1) as nat, (len - 2) as nat);
    let t0 = t[0] as nat;
    let m = value_mask(len) as nat;
    let p = pow256((i - 1) as nat);
    let q = pow256((len - 2) as nat);
    assert(t0 * p + p <= (m + 1) * q) by (nonlinear_arith)
        requires
            t0 <= m,
            p <= q,
    ;
    assert((m + 1) * q <= 0x100_0000_0000_0000) by {
        if len == 2 {
            assert(m == 0x3f && q == 1);
        } else if len == 3 {
            assert(m == 0x1f && q == 0x100);
        } else if len == 4 {
            assert(m == 0x0f && q == 0x1_0000);
        } else if len == 5 {
            assert(m == 0x07 && q == 0x100_0000);
        } else if len == 6 {
            assert(m == 0x03 && q == 0x1_0000_0000);
        } else if len == 7 {
            assert(m == 0x01 && q == 0x100_0000_0000);
        } else if len == 8 {
            assert(m == 0 && q == 0x1_0000_0000_0000);
        } else {
            assert(m == 0 && q == 0x100_0000_0000_0000);
        }
    }
}

/// Reads the variable-length integer at the start of `input`, returning its
/// value and the number of bytes it took.  Encodings longer than necessary are
/// accepted.
pub fn decode(input: &[u8]) -> (result: Result<(u64, usize), DecodeError>)
    ensures
        result == spec_decode(input@),
        result matches Ok((_, n)) ==> 1 <= n <= 9 && n <= input@.len(),
{
    if input.len() == 0 {
        return Err(DecodeError::Empty);
    }
    let first = input[0];
    let length = length_from_first(first);
    if input.len() < length {
        return Err(DecodeError::UnexpectedEnd { expected: length, actual: input.len() });
    }
    let mask = mask_byte(length);
    let ghost masked = input@.take(length as int).update(0, first & mask);
    let mut value: u64 = (first & mask) as u64;
    assert((first & mask) <= mask) by (bit_vector);
    assert(masked.take(1).drop_last() =~= Seq::<u8>::empty());
    assert(masked[0] == first & mask);
    assert(be_value(masked.take(1)) == be_value(masked.take(1).drop_last()) * 256
        + masked.take(1).last() as nat);
    let mut i: usize = 1;
    while i < length
        invariant
            1 <= i <= length <= 9,
            length <= input@.len(),
            masked.len() == length,
            masked[0] <= value_mask(length as nat),
            forall|k: int| 1 <= k < length ==> masked[k] == input@[k],
            value as nat == be_value(masked.take(i as int)),
        decreases length - i,
    {
        proof {
            lemma_prefix_bound(masked, i as int);
        }
        value = value * 256 + input[i] as u64;
        i = i + 1;
        assert(masked.take(i as int).drop_last() =~= masked.take(i - 1));
    }
    assert(masked.take(length as int) =~= masked);
    Ok((value, length))
}

/// `128` raised to the power `n`: `2^(7n)`, the number of values that `n`
/// groups of seven bits can hold.
pub open spec fn pow128(n: nat) -> nat
    decreases n,
{
    if n == 0 {
        1
    } else {
        128 * pow128((n - 1) as nat)
    }
}

/// The powers of 128 below `2^64`.
pub proof fn lemma_pow128_values()
    ensures
        pow128(0) == 1,
        pow128(1) == 0x80,
        pow128(2) == 0x4000,
        pow128(3) == 0x20_0000,
        pow128(4) == 0x1000_0000,
        pow128(5) == 0x8_0000_0000,
        pow128(6) == 0x400_0000_0000,
        pow128(7) == 0x2_0000_0000_0000,
        pow128(8) == 0x100_0000_0000_0000,
{
    reveal_with_fuel(pow128, 9);
}

/// The encoding is the shortest one: it takes `n` bytes, `1 <= n <= 9`, where
/// `n` is the least length in `1..=8` whose `7n` value bits hold `value`
/// (`value < 2^(7n)` and, beyond one byte, `value >= 2^(7(n-1))`), or 9 when
/// no such length exists.
pub proof fn lemma_encode_is_shortest(value: u64)
    ensures
        1 <= spec_encode(value).len() <= 9,
        spec_encode(value).len() <= 8 ==> value < pow128(spec_encode(value).len()),
        spec_encode(value).len() >= 2 ==> value >= pow128((spec_encode(value).len() - 1) as nat),
{
    lemma_decode_encode(value, Seq::empty());
    lemma_pow128_values();
}

/// A first byte announcing `len <= 8` bytes leaves `8 - len` value bits, so the
/// `len` bytes carry a value below `2^(7 len)`.
proof fn lemma_decoded_value_bound(s: Seq<u8>)
    requires
        1 <= s.len() <= 8,
    ensures
        decoded_value(s) < pow128(s.len()),
{
    let len = s.len();
    let m = value_mask(len);
    let masked = s.update(0, s[0] & m);
    let b = s[0];
    assert(b & m <= m) by (bit_vector);
    lemma_be_value_split_first(masked);
    lemma_be_value_bound(masked.drop_first());
    lemma_pow256_values();
    lemma_pow128_values();
    let m0 = masked[0] as nat;
    let p = pow256((len - 1) as nat);
    let mm = m as nat;
    assert(m0 * p + p <= (mm + 1) * p) by (nonlinear_arith)
        requires
            m0 <= mm,
    ;
    if len == 1 {
        assert((mm + 1) * p == 0x80) by (nonlinear_arith)
            requires
                mm == 0x7f,
                p == 1,
        ;
    } else if len == 2 {
        assert((mm + 1) * p == 0x4000) by (nonlinear_arith)
            requires
                mm == 0x3f,
                p == 0x100,
        ;
    } else if len == 3 {
        assert((mm + 1) * p == 0x20_0000) by (nonlinear_arith)
            requires
                mm == 0x1f,
                p == 0x1_0000,
        ;
    } else if len == 4 {
        assert((mm + 1) * p == 0x1000_0000) by (nonlinear_arith)
            requires
                mm == 0x0f,
                p == 0x100_0000,
        ;
    } else if len == 5 {
        assert((mm + 1) * p == 0x8_0000_0000) by (nonlinear_arith)
            requires
                mm == 0x07,
                p == 0x1_0000_0000,
        ;
    } else if len == 6 {
        assert((mm + 1) * p == 0x400_0000_0000) by (nonlinear_arith)
            requires
                mm == 0x03,
                p == 0x100_0000_0000,
        ;
    } else if len == 7 {
        assert((mm + 1) * p == 0x2_0000_0000_0000) by (nonlinear_arith)
            requires
                mm == 0x01,
                p == 0x1_0000_0000_0000,
        ;
    } else {
        assert((mm + 1) * p == 0x100_0000_0000_0000) by (nonlinear_arith)
            requires
                mm == 0,
                p == 0x100_0000_0000_0000,
        ;
    }
}

/// No byte string that decodes to `value` is shorter than the encoding of
/// `value`: whatever bytes a successful decode of `value` took, `encode(value)`
/// takes no more.
pub proof fn lemma_no_shorter_encoding(value: u64, input: Seq<u8>)
    requires
        spec_decode(input) matches Ok((v, _)) && v == value,
    ensures
        spec_encode(value).len() <= spec_decode(input)->Ok_0.1,
{
    let k = len_from_first(input[0]);
    lemma_encode_is_shortest(value);
    lemma_pow128_values();
    if k <= 8 {
        lemma_decoded_value_bound(input.take(k as int));
        assert(value < pow128(k));
    }
}

/// Decoding fails only for want of bytes: an empty input, or fewer bytes than
/// the first announces. In particular any nine bytes decode, and a first byte
/// below `0x80` is a whole one-byte encoding of itself.
pub proof fn lemma_decode_fails_only_when_short(input: Seq<u8>)
    ensures
        spec_decode(input) is Err ==> input.len() == 0 || input.len() < len_from_first(input[0]),
        input.len() >= 9 ==> spec_decode(input) is Ok,
        input.len() >= 1 && input[0] < 0x80 ==> spec_decode(input) == Ok::<(u64, usize), DecodeError>(
            (input[0] as u64, 1),
        ),
{
    if input.len() >= 1 && input[0] < 0x80 {
        let t = input.take(1);
        let b = input[0];
        assert(b < 0x80 ==> b & 0x7fu8 == b) by (bit_vector);
        assert(t.update(0, t[0] & value_mask(1)) =~= t);
        assert(t.drop_last() =~= Seq::<u8>::empty());
        assert(be_value(t.drop_last()) == 0);
    }
}

} // verus!
