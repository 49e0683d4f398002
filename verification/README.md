# sigil-core

The core of the Sigil secure-messaging research prototype, written in Verus.
Its executable functions carry `requires`/`ensures` contracts that Verus
proves, with one exception: the small trusted wrappers around outside crates
(BLAKE3, XChaCha20-Poly1305, Reed-Solomon, the operating system's random
source, zeroize). Their contracts are believed, not proved, and each states in
its doc comment what it claims of the outside function; the random-value
wrapper claims nothing of its result.

- `composer`: randomized key layouts with per-session ephemeral tokens.
- `symbol_stream`: messages as opaque per-message symbol codes.
- `crypto`: the two-layer XChaCha20-Poly1305 envelope, its wire form and a
  bounded replay guard.
- `fragmentation`: Reed-Solomon fragments behind random capabilities and the
  manifest that rebuilds an envelope from any threshold subset.
- `identity`: identity fingerprints, pseudonymous contacts and trust states.
- `visual`: contact markers and render epochs.
- `network`: relay pools, routes, fragment targets, traffic size classes and
  privacy modes.
- `media`: chunk and normalization plans for images and voice.
- `wasm_demo`: the single-process loopback demonstrator (parse a list of
  fragments to drop, rebuild, reopen, report).

`app/` holds the wasm-bindgen binding and the JSON report of the demonstrator.
