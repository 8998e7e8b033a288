# wisp

Verified core of a coordinator that runs one LLM across several
heterogeneous home devices with llama.cpp's RPC backend.

- `src/` (Verus): layer placement (`placement`), the device registry
  helpers (`registry`), the `llama-server` and `rpc-server` argument vectors
  (`launcher`, `rpc_supervisor`) and the text they are built from (`text`).
- `app/`: the `coordinator` and `device-agent` programs: configuration
  parsing, HTTP telemetry, hardware sensors, the compute score (floating
  point) and process supervision.
- `tests/`: tests of the library.
