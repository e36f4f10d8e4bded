# moqt

Verified wire formats of a media-over-QUIC control channel, written in Verus.

- `src/vi64.rs`: variable-length integers (1 to 9 bytes, length in the leading
  one bits of the first byte). Encoding is shortest-form; decoding accepts any
  length. Proved: decoding an encoding, whatever follows it, gives the value
  and its length back; decoding reads no byte past the encoding.
- `src/key_value_pair.rs`: typed pairs written relative to the previous type,
  integer values for even types and byte values (at most 65535 bytes) for odd
  ones. Proved: round trip, prefix independence, decoded pairs re-encode.
- `src/setup.rs`: the SETUP message (type, 16-bit payload length, options).
  Proved: round trip, prefix independence, decoded options re-encode.
- `src/request_id.rs`: request identifier allocation (even for clients, odd
  for servers, stepping by two) and parity validation. Proved: the k-th
  identifier in closed form, strict increase, and acceptance by the validator
  of the same role.

Every public function's `ensures` equates its result with a spec function of
the format. `tests/` holds executable tests of the same functions.
