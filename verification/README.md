# mercy

Exact arithmetic coding over ranked conditional probabilities, written in
Verus: the library in `src/` carries requires/ensures contracts on its public
functions and Verus proves them.

## Layout

- `src/prefix.rs`, `src/prefix/`: `RankedPrefix` and the exact tail product
  `prod (1 - p[i])`, with several interchangeable algorithms (sequential,
  balanced trees, 128-bit chunks, histograms of odd factors, prime
  exponents), each proved equal to the same specification.
- `src/dyadic.rs`, `src/dyadic/`: `BigDyadic`, canonical dyadic fractions in
  `[0, 1]`, and alternative storage layouts with the same arithmetic.
- `src/coder.rs`, `src/coder/`: range coders for binary decisions. Each
  `put`, `test` and `finish` is stated over one step function;
  `src/coder/round_trip.rs` proves that a fresh decoder reads back exactly
  the decisions a fresh encoder wrote, that decoders read zeros past the end
  of their input, and that coders whose splits agree (including the `Q16`
  and `Q17` grids, and the denominator and range forms) write the same bytes
  and read the same decisions.
- `src/model.rs`, `src/model/`: probability models, symbol tables and tree
  topologies that turn symbols into binary decisions and back.
- `src/partition.rs`, `src/reference.rs`, `src/frontier.rs`,
  `src/frontier_reference.rs`: exact 257-way (bytes plus end marker) interval
  coding, its bit-set partition view, and the frontier transducer. Their
  contracts state what decoding gives back of an encoding: the reference
  decoder returns the message of every nonempty encoding, and the frontier
  decoder the message of every canonical encoding.
- `src/serde_model.rs`: the byte distributions and choice logs behind the
  Serde front end.
- `src/jeffreys.rs`: the one-byte Jeffreys probability codes.
- `src/critdash.rs`: benchmark-identifier parsing for the dashboard.
- `src/bignum.rs`, `src/bits.rs`: the trusted boundary to `num-bigint` and
  `bitvec`; every item there states the behaviour it relies on.
- `app/`: the `critdash` program, floating-point views and the Serde
  front end, which stay outside the verified library.
- `tests/`: executable tests of the library.
