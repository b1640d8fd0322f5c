# netmon

The pure logic of a desktop network monitor for gamers on filtered connections, written
in Verus with its behaviour stated in contracts and proved: probe scheduling and rate
limits, per-target statistics and health verdicts, path and edge measurement, endpoint
discovery and lifecycle, passive flow metrics, diagnosis, reference pools, target
registries, address classification, the bundled autonomous-system table, and the decoding
of what the operating system reports (connection tables, echo replies, socket-address
blobs, adapter lists).

- `src/` — the verified library. Time arrives as a value, floating point is absent, and
  every operating-system answer is taken as plain numbers and bytes.
- `tests/` — tests of the library on concrete values.
- `app/` — ordinary Rust around it: error types with their messages, conversions to and
  from the standard library's addresses and clocks, the floating-point figures shown to
  a user, and the Windows system calls that feed the library's decoders.
