# smirk_engine

Verified core of a small game engine: the rules of its network transport,
its collision-pair bookkeeping and the decisions of its renderer, each with
a contract proved by Verus.

- `src/` — the library. Network: clock-sync filter (`clock`), framing and
  handshake rules (`wire`), admission and rate limits (`limits`), counters
  (`metrics`), the conditioner's random draws and deadline queue (`jitter`,
  `deadline`), transport events (`events`). Physics: grid footprints
  (`grid`) and broadphase/contact pairs (`pairs`). Renderer: instance slot
  pool (`instance`), draw packing and range clamping (`draw`), pose level
  of detail (`lod`), point-light selection (`lights`), bloom chain layout
  (`bloom`), pause menu (`menu`), projection
  cycling (`camera`), debug views (`overlay`), asset helpers and image
  decoding (`assets`, `pixels`), mesh streaming catalog (`catalog`), GPU timing brackets
  (`timing`), per-frame counters (`frame`) and the turntable size argument
  (`size_arg`).
- `app/` — the I/O around it: the QUIC client and server on tokio and
  quinn, TLS setup, the lossy test socket, file reads, and the floating-point
  helpers.
- `tests/` — runtime tests of the library.
