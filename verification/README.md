# pprz

Offline tooling for the Paparazzi UAS PPRZ v1 transport, written in Verus.
It is not flight-control software.

- `src/protocol.rs`: frame encoding and the stream decoder, with the proofs
  that a frame's encoding decodes back to it, alone or in a stream, and that
  the decoder recovers from malformed frames.
- `src/messages.rs`: message dictionaries parsed from Paparazzi's
  `messages.xml`, and payload decoding against them.
- `src/config.rs`: airframe identifiers and the supported subset of airframe
  XML files.
- `src/sim.rs`: replay of recorded byte streams and its summaries.
- `src/xml.rs`: the trusted boundary to the `quick_xml` reader; what each call
  returns is named by an uninterpreted spec function.
- `src/text.rs`: string comparisons.
- `app/`: the command-line front end (`replay`, `decode`) and the
  floating-point helpers.
